//! Whole numbers without a limit, and the doubles nearest to their ratios.

use vstd::arithmetic::power2::{
    lemma_pow2_adds, lemma_pow2_pos, lemma_pow2_unfold, pow2,
};
use vstd::prelude::*;

use crate::double::{
    double, doubles_are_exact, doubles_keep_the_order, finished, infinite, lemma_nearest_exact,
    lemma_nearest_monotone, lemma_same_quotient, lemma_significant, Double, TOP,
};
use crate::numeral::nearest;

verus! {

/// The limb at a place; zero beyond the last.
pub open spec fn limb(v: Seq<u32>, i: int) -> nat {
    if 0 <= i < v.len() {
        v[i] as nat
    } else {
        0
    }
}

/// What a limb at a place counts.
pub open spec fn place(i: nat) -> nat {
    pow2(32 * i)
}

/// The number that the lowest `n` limbs stand for.
pub open spec fn low(v: Seq<u32>, n: nat) -> nat
    decreases n,
{
    if n == 0 {
        0
    } else {
        low(v, (n - 1) as nat) + limb(v, n - 1) * place((n - 1) as nat)
    }
}

/// The number that limbs stand for, the lowest first.
pub open spec fn big(v: Seq<u32>) -> nat {
    low(v, v.len())
}

proof fn lemma_place(i: nat)
    ensures
        place(i) > 0,
        place(i + 1) == 0x1_0000_0000 * place(i),
{
    lemma_pow2_pos(32 * i);
    lemma_pow2_adds(32, 32 * i);
    vstd::arithmetic::power2::lemma2_to64();
    assert(32 * (i + 1) == 32 + 32 * i);
}

proof fn lemma_low_bound(v: Seq<u32>, n: nat)
    ensures
        low(v, n) < place(n),
    decreases n,
{
    if n == 0 {
        vstd::arithmetic::power2::lemma2_to64();
    } else {
        let m = (n - 1) as nat;
        lemma_low_bound(v, m);
        lemma_place(m);
        let x = limb(v, n - 1);
        let p = place(m);
        assert(x * p <= 0xffff_ffff * p) by (nonlinear_arith)
            requires
                x <= 0xffff_ffff,
        ;
    }
}

/// Limbs beyond the last add nothing.
proof fn lemma_low_beyond(v: Seq<u32>, n: nat)
    requires
        n >= v.len(),
    ensures
        low(v, n) == big(v),
    decreases n,
{
    if n > v.len() {
        lemma_low_beyond(v, (n - 1) as nat);
        assert(0 * place((n - 1) as nat) == 0);
    }
}

/// A further limb leaves the lower ones alone.
proof fn lemma_low_push(v: Seq<u32>, x: u32, n: nat)
    requires
        n <= v.len(),
    ensures
        low(v.push(x), n) == low(v, n),
    decreases n,
{
    if n > 0 {
        lemma_low_push(v, x, (n - 1) as nat);
    }
}

/// A number times `by`, and `more`.
pub fn scaled(v: &Vec<u32>, by: u32, more: u32) -> (r: Vec<u32>)
    ensures
        big(r@) == big(v@) * by + more,
{
    let mut out: Vec<u32> = Vec::new();
    let mut carry: u64 = more as u64;
    let mut i: usize = 0;
    proof {
        vstd::arithmetic::power2::lemma2_to64();
        assert(0 * by == 0);
        assert(1 * carry == carry);
    }
    while i < v.len()
        invariant
            i <= v@.len(),
            out@.len() == i,
            carry <= 0xffff_ffff,
            low(out@, i as nat) + place(i as nat) * carry == low(v@, i as nat) * by + more,
        decreases v@.len() - i,
    {
        let x: u32 = v[i];
        assert(x * by <= 0xffff_ffff * 0xffff_ffff) by (nonlinear_arith)
            requires
                x <= 0xffff_ffff,
                by <= 0xffff_ffff,
        ;
        let t: u64 = x as u64 * by as u64 + carry;
        let ghost before = out@;
        let digit: u32 = (t % 0x1_0000_0000) as u32;
        let next: u64 = t / 0x1_0000_0000;
        out.push(digit);
        proof {
            lemma_place(i as nat);
            lemma_low_push(before, digit, i as nat);
            let p = place(i as nat);
            let a = low(v@, i as nat);
            assert(limb(out@, i as int) == digit);
            assert(limb(v@, i as int) == x);
            assert(digit * p + (0x1_0000_0000 * p) * next == p * (x * by) + p * carry)
                by (nonlinear_arith)
                requires
                    digit + 0x1_0000_0000 * next == x * by + carry,
            ;
            assert((a + x * p) * by == a * by + p * (x * by)) by (nonlinear_arith);
            assert(next <= 0xffff_ffff) by (nonlinear_arith)
                requires
                    t == x * by + carry,
                    x * by <= 0xffff_ffff * 0xffff_ffff,
                    carry <= 0xffff_ffff,
                    next == t / 0x1_0000_0000,
            ;
        }
        carry = next;
        i += 1;
    }
    let ghost before = out@;
    out.push(carry as u32);
    proof {
        lemma_low_push(before, carry as u32, i as nat);
        let p = place(i as nat);
        assert(p * carry == carry * p) by (nonlinear_arith);
    }
    out
}

fn limb_at(v: &Vec<u32>, i: usize) -> (r: u32)
    ensures
        r == limb(v@, i as int),
{
    if i < v.len() {
        v[i]
    } else {
        0
    }
}

/// What is left of `a` without `b`; nothing where `b` is the larger.
pub fn minus(a: &Vec<u32>, b: &Vec<u32>) -> (r: Option<Vec<u32>>)
    ensures
        match r {
            Some(d) => big(d@) + big(b@) == big(a@),
            None => big(a@) < big(b@),
        },
{
    let n: usize = if a.len() < b.len() {
        b.len()
    } else {
        a.len()
    };
    let mut out: Vec<u32> = Vec::new();
    let mut borrow: u64 = 0;
    let mut i: usize = 0;
    proof {
        assert(place(0) * 0 == 0);
    }
    while i < n
        invariant
            i <= n,
            out@.len() == i,
            borrow <= 1,
            low(out@, i as nat) + low(b@, i as nat) == low(a@, i as nat) + place(i as nat) * borrow,
        decreases n - i,
    {
        let x: u64 = limb_at(a, i) as u64;
        let y: u64 = limb_at(b, i) as u64 + borrow;
        let ghost before = out@;
        let (digit, next): (u32, u64) = if x >= y {
            ((x - y) as u32, 0)
        } else {
            ((x + 0x1_0000_0000 - y) as u32, 1)
        };
        out.push(digit);
        proof {
            lemma_place(i as nat);
            lemma_low_push(before, digit, i as nat);
            let p = place(i as nat);
            let (l, m) = (limb(a@, i as int), limb(b@, i as int));
            assert(limb(out@, i as int) == digit);
            assert(digit * p + m * p + p * borrow == l * p + (0x1_0000_0000 * p) * next)
                by (nonlinear_arith)
                requires
                    digit + m + borrow == l + 0x1_0000_0000 * next,
            ;
        }
        borrow = next;
        i += 1;
    }
    proof {
        lemma_low_beyond(a@, n as nat);
        lemma_low_beyond(b@, n as nat);
        lemma_low_bound(out@, n as nat);
        let p = place(n as nat);
        assert(p * 0 == 0);
        assert(p * 1 == p);
    }
    if borrow == 0 {
        Some(out)
    } else {
        None
    }
}

/// A number doubled `k` times.
pub fn raised(v: &Vec<u32>, k: u32) -> (r: Vec<u32>)
    ensures
        big(r@) == big(v@) * pow2(k as nat),
{
    let mut r: Vec<u32> = scaled(v, 1, 0);
    let mut i: u32 = 0;
    proof {
        vstd::arithmetic::power2::lemma2_to64();
        assert(big(v@) * 1 == big(v@));
    }
    while i < k
        invariant
            i <= k,
            big(r@) == big(v@) * pow2(i as nat),
        decreases k - i,
    {
        proof {
            lemma_pow2_unfold((i + 1) as nat);
            let (n, h) = (big(v@), pow2(i as nat));
            assert(n * (2 * h) == (n * h) * 2) by (nonlinear_arith);
        }
        r = scaled(&r, 2, 0);
        i += 1;
    }
    r
}

/// What the steps of a long division say of the quotient.
proof fn lemma_divided(num: nat, d: nat, q: nat, rem: nat)
    requires
        d > 0,
        num * pow2(53) == q * (d * pow2(53)) + rem,
        rem < d * pow2(53),
    ensures
        nearest(num, d) == (if rem > d * pow2(52) || rem == d * pow2(52) && q % 2 == 1 {
            q + 1
        } else {
            q
        }),
{
    let p = pow2(53) as int;
    let h = pow2(52) as int;
    lemma_pow2_unfold(53);
    lemma_pow2_pos(52);
    let (g, c) = (d as int, rem as int);
    let t = num - q * d;
    assert(c == p * t) by (nonlinear_arith)
        requires
            num * p == q * (g * p) + c,
            t == num - q * g,
    ;
    assert(0 <= t < g) by (nonlinear_arith)
        requires
            c == p * t,
            0 <= c < g * p,
            p > 0,
    ;
    assert(num == q * g + t);
    vstd::arithmetic::div_mod::lemma_fundamental_div_mod_converse(num as int, g, q as int, t);
    assert((2 * t > g) == (c > g * h) && (2 * t == g) == (c == g * h)) by (nonlinear_arith)
        requires
            c == p * t,
            p == 2 * h,
            h > 0,
    {
        assert(c == (2 * t) * h);
        if 2 * t > g {
            assert((2 * t) * h > g * h);
        } else if 2 * t < g {
            assert((2 * t) * h < g * h);
        }
    }
}

/// The quotient of `num` and `d`, to the nearest whole number.
fn divided(num: &Vec<u32>, d: &Vec<u32>) -> (r: u64)
    requires
        big(d@) > 0,
        big(num@) < big(d@) * TOP,
    ensures
        r == nearest(big(num@), big(d@)),
        r <= TOP,
{
    let ghost (n, g) = (big(num@), big(d@));
    let half = raised(d, 52);
    let mut rem: Vec<u32> = scaled(num, 1, 0);
    let mut q: u64 = 0;
    let mut i: u32 = 0;
    let ghost x = g * pow2(53);
    proof {
        vstd::arithmetic::power2::lemma2_to64();
        vstd::arithmetic::power2::lemma2_to64_rest();
        lemma_pow2_unfold(53);
        let h = pow2(52);
        assert(g * (2 * h) == 2 * (g * h)) by (nonlinear_arith);
        assert(n * 1 == n);
        assert(0 * x == 0);
    }
    while i < 53
        invariant
            i <= 53,
            n == big(num@),
            g == big(d@),
            x == 2 * big(half@),
            x == g * pow2(53),
            big(rem@) < x,
            q < pow2(i as nat),
            n * pow2(i as nat) == q * x + big(rem@),
        decreases 53 - i,
    {
        proof {
            vstd::arithmetic::power2::lemma2_to64_rest();
            vstd::arithmetic::power2::lemma2_to64();
            lemma_pow2_unfold((i + 1) as nat);
            if i < 53 {
                vstd::arithmetic::power2::lemma_pow2_strictly_increases(i as nat, 53);
            }
            let h = pow2(i as nat);
            assert(n * (2 * h) == 2 * (n * h)) by (nonlinear_arith);
            assert((2 * q) * x == 2 * (q * x)) by (nonlinear_arith);
            assert((2 * q + 1) * x == 2 * (q * x) + x) by (nonlinear_arith);
        }
        match minus(&rem, &half) {
            Some(left) => {
                rem = scaled(&left, 2, 0);
                q = 2 * q + 1;
            },
            None => {
                rem = scaled(&rem, 2, 0);
                q = 2 * q;
            },
        }
        i += 1;
    }
    proof {
        vstd::arithmetic::power2::lemma2_to64_rest();
        lemma_divided(n, g, q as nat, big(rem@));
        lemma_nearest_monotone(n, TOP as nat * g, g);
        lemma_nearest_exact(TOP as nat, g);
        assert(g * TOP == TOP * g) by (nonlinear_arith);
    }
    match minus(&rem, &half) {
        None => q,
        Some(_) => match minus(&half, &rem) {
            None => q + 1,
            Some(_) => if q % 2 == 1 {
                q + 1
            } else {
                q
            },
        },
    }
}

/// A number that is this much larger is infinite.
pub proof fn lemma_endless(num: nat, den: nat)
    requires
        den > 0,
        num >= den * infinite(),
    ensures
        double(num, den) == infinite(),
{
    let u = infinite();
    assert(den * u == u * den) by (nonlinear_arith);
    doubles_keep_the_order(u * den, num, den);
    lemma_same_quotient(u, 1, den, TOP as nat);
    assert(1 * den == den);
    doubles_are_exact(1, 2098);
    assert(1 * pow2(2098) == pow2(2098));
}

/// The double nearest to a ratio.
pub fn nearest_double(num: &Vec<u32>, den: &Vec<u32>) -> (r: Double)
    requires
        big(den@) > 0,
    ensures
        r@ == double(big(num@), big(den@)),
{
    let ghost (n, g) = (big(num@), big(den@));
    let mut d: Vec<u32> = scaled(den, 1, 0);
    let mut top: Vec<u32> = raised(den, 53);
    let mut k: u32 = 0;
    let mut more = true;
    proof {
        vstd::arithmetic::power2::lemma2_to64_rest();
        vstd::arithmetic::power2::lemma2_to64();
        assert(g * 1 == g);
    }
    while more
        invariant
            n == big(num@),
            g == big(den@),
            g > 0,
            k <= 2100,
            big(d@) == g * pow2(k as nat),
            big(top@) == big(d@) * TOP,
            k > 0 ==> n >= g * pow2((k - 1) as nat) * TOP,
            !more ==> n < big(top@),
        decreases
            2100 - k,
            (if more {
                1nat
            } else {
                0nat
            }),
    {
        match minus(num, &top) {
            None => {
                more = false;
            },
            Some(_) => {
                if k == 2100 {
                    proof {
                        let p = pow2(2100);
                        vstd::arithmetic::power2::lemma_pow2_strictly_increases(2098, 2100);
                        let u = infinite();
                        assert(n >= g * u) by (nonlinear_arith)
                            requires
                                n >= (g * p) * TOP,
                                p >= u,
                                TOP == 0x20_0000_0000_0000,
                                g > 0,
                        {
                            assert((g * p) * TOP >= g * p);
                            assert(g * p >= g * u);
                        }
                        lemma_endless(n, g);
                    }
                    return Double::infinity();
                }
                proof {
                    lemma_pow2_unfold((k + 1) as nat);
                    let h = pow2(k as nat);
                    assert(g * (2 * h) == (g * h) * 2) by (nonlinear_arith);
                    let b = big(d@);
                    assert((b * 2) * TOP == (b * TOP) * 2) by (nonlinear_arith);
                }
                d = scaled(&d, 2, 0);
                top = scaled(&top, 2, 0);
                k += 1;
            },
        }
    }
    proof {
        lemma_pow2_pos(k as nat);
        let p = pow2(k as nat);
        assert(g * p > 0) by (nonlinear_arith)
            requires
                g > 0,
                p > 0,
        ;
        lemma_significant(n, g, TOP as nat, k as nat);
        if k > 0 {
            lemma_pow2_unfold(k as nat);
            let h = pow2((k - 1) as nat);
            let b = g * p;
            assert(g * h * TOP == 0x10_0000_0000_0000 * b) by (nonlinear_arith)
                requires
                    b == g * p,
                    p == 2 * h,
                    TOP == 0x20_0000_0000_0000,
            ;
            lemma_nearest_monotone(0x10_0000_0000_0000 * b, n, b);
            lemma_nearest_exact(0x10_0000_0000_0000, b);
        }
    }
    let q: u64 = divided(num, &d);
    finished(q, k)
}

} // verus!
