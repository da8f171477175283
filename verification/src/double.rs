//! Binary floating-point numbers of double precision, in integers.
//!
//! The smallest positive double is 2^-1074, and every double is a multiple of
//! it. A number that is not negative is modelled as how many such units it
//! holds, so that the order of doubles is the order of naturals. The result of
//! an operation is the exact result, rounded to at most 53 significant bits,
//! the even neighbour at a tie; what reaches 2^1024 is infinite.

use vstd::arithmetic::power2::{
    lemma_pow2_adds, lemma_pow2_pos, lemma_pow2_strictly_increases, lemma_pow2_unfold, pow2,
};
use vstd::prelude::*;

use crate::measure::{integer_sqrt, isqrt, lemma_isqrt_bracket};
use crate::numeral::nearest;

verus! {

/// Two to the fifty-third: the first number that takes a bit too many.
pub const TOP: u64 = 0x20_0000_0000_0000;

/// Two to the twenty-fourth: the same in single precision.
pub const SINGLE_TOP: u64 = 0x100_0000;

/// How many units are in one.
pub open spec fn unit() -> nat {
    pow2(1074)
}

/// What stands for the infinite: 2^1024, in units.
pub open spec fn infinite() -> nat {
    pow2(2098)
}

/// `num / den` to the nearest multiple of the least power of two with which the
/// quotient stays below `top`, the even multiple at a tie.
#[verifier::opaque]
pub open spec fn significant(num: nat, den: nat, top: nat) -> nat
    decreases num - den,
    when den > 0 && top >= 2
{
    if num < den * top {
        nearest(num, den)
    } else {
        proof {
            assert(num >= 2 * den) by (nonlinear_arith)
                requires
                    num >= den * top,
                    top >= 2,
                    den > 0,
            ;
        }
        2 * significant(num, 2 * den, top)
    }
}

/// The double nearest to `num / den` units.
pub open spec fn double(num: nat, den: nat) -> nat {
    let n = significant(num, den, TOP as nat);
    if n < infinite() {
        n
    } else {
        infinite()
    }
}

/// A whole number as a double.
pub open spec fn whole(n: nat) -> nat {
    double(n * unit(), 1)
}

/// The sum of two doubles.
pub open spec fn plus(a: nat, b: nat) -> nat {
    double(a + b, 1)
}

/// How far two doubles are apart.
pub open spec fn apart(a: nat, b: nat) -> nat {
    if a < b {
        double((b - a) as nat, 1)
    } else {
        double((a - b) as nat, 1)
    }
}

/// The product of two doubles.
pub open spec fn times(a: nat, b: nat) -> nat {
    double(a * b, unit())
}

/// The quotient of two doubles, the second of them not zero.
pub open spec fn over(a: nat, b: nat) -> nat {
    double(a * unit(), b)
}

/// The square root of a double. Between two neighbouring whole units the root
/// rounds as the middle of the two does.
pub open spec fn root(a: nat) -> nat {
    let s = isqrt(a * unit());
    if s * s == a * unit() {
        double(s, 1)
    } else {
        double(2 * s + 1, 2)
    }
}

/// The double nearest to the decimal `num / den`.
pub open spec fn ratio(num: nat, den: nat) -> nat {
    double(num * unit(), den)
}

/// The sum of doubles, taken from the first on.
pub open spec fn total(s: Seq<nat>) -> nat
    decreases s.len(),
{
    if s.len() == 0 {
        0
    } else {
        plus(total(s.drop_last()), s.last())
    }
}

/// The mean of doubles: their sum over their number; 0 for none.
pub open spec fn average(s: Seq<nat>) -> nat {
    if s.len() == 0 {
        0
    } else {
        over(total(s), whole(s.len()))
    }
}

/// A quotient lies between its rounding and half a unit on either side.
pub proof fn lemma_nearest(n: nat, d: nat)
    requires
        d > 0,
    ensures
        2 * n <= (2 * nearest(n, d) + 1) * d,
        (2 * nearest(n, d) - 1) * d <= 2 * n,
        2 * n == (2 * nearest(n, d) + 1) * d ==> nearest(n, d) % 2 == 0,
        (2 * nearest(n, d) - 1) * d == 2 * n ==> nearest(n, d) % 2 == 0,
{
    let q = n / d;
    let r = n % d;
    assert(n == d * q + r && r < d) by (nonlinear_arith)
        requires
            q == n / d,
            r == n % d,
            d > 0,
    ;
    assert((2 * q + 1) * d == 2 * (d * q) + d) by (nonlinear_arith);
    assert((2 * (q + 1) + 1) * d == 2 * (d * q) + 3 * d) by (nonlinear_arith);
    assert((2 * q - 1) * d == 2 * (d * q) - d) by (nonlinear_arith);
    assert((2 * (q + 1) - 1) * d == 2 * (d * q) + d) by (nonlinear_arith);
}

/// The rounding is the only number with these bounds.
pub proof fn lemma_nearest_unique(n: nat, d: nat, q: nat)
    requires
        d > 0,
        2 * n <= (2 * q + 1) * d,
        (2 * q - 1) * d <= 2 * n,
        2 * n == (2 * q + 1) * d ==> q % 2 == 0,
        (2 * q - 1) * d == 2 * n ==> q % 2 == 0,
    ensures
        nearest(n, d) == q,
{
    lemma_nearest(n, d);
    let p = nearest(n, d);
    if p < q {
        assert((2 * p + 1) * d <= (2 * q - 1) * d) by (nonlinear_arith)
            requires
                p + 1 <= q,
                d > 0,
        ;
        assert(2 * p + 1 == 2 * q - 1) by (nonlinear_arith)
            requires
                (2 * p + 1) * d == (2 * q - 1) * d,
                d > 0,
        ;
        assert(false);
    } else if q < p {
        assert((2 * q + 1) * d <= (2 * p - 1) * d) by (nonlinear_arith)
            requires
                q + 1 <= p,
                d > 0,
        ;
        assert(2 * q + 1 == 2 * p - 1) by (nonlinear_arith)
            requires
                (2 * q + 1) * d == (2 * p - 1) * d,
                d > 0,
        ;
        assert(false);
    }
}

/// Equal quotients round alike.
proof fn lemma_nearest_same(a: nat, b: nat, c: nat, d: nat)
    requires
        b > 0,
        d > 0,
        a * d == c * b,
    ensures
        nearest(a, b) == nearest(c, d),
{
    lemma_nearest(a, b);
    let q = nearest(a, b);
    let hi: int = (2 * q + 1) as int;
    let lo: int = 2 * q - 1;
    assert(2 * c <= hi * d && lo * d <= 2 * c && (2 * c == hi * d ==> 2 * a == hi * b) && (lo * d
        == 2 * c ==> lo * b == 2 * a)) by {
        assert(2 * c <= hi * d) by (nonlinear_arith)
            requires
                2 * a <= hi * b,
                a * d == c * b,
                b > 0,
                d > 0,
        {
            assert((2 * a) * d <= (hi * b) * d);
            assert((2 * c) * b <= (hi * d) * b);
        }
        assert(lo * d <= 2 * c) by (nonlinear_arith)
            requires
                lo * b <= 2 * a,
                a * d == c * b,
                b > 0,
                d > 0,
        {
            assert((lo * b) * d <= (2 * a) * d);
            assert((lo * d) * b <= (2 * c) * b);
        }
        assert(2 * c == hi * d ==> 2 * a == hi * b) by (nonlinear_arith)
            requires
                a * d == c * b,
                b > 0,
                d > 0,
        {
            if 2 * c == hi * d {
                assert((2 * a) * d == (hi * b) * d);
            }
        }
        assert(lo * d == 2 * c ==> lo * b == 2 * a) by (nonlinear_arith)
            requires
                a * d == c * b,
                b > 0,
                d > 0,
        {
            if lo * d == 2 * c {
                assert((lo * b) * d == (2 * a) * d);
            }
        }
    }
    lemma_nearest_unique(c, d, q);
}

/// What is no larger rounds to no more.
pub proof fn lemma_nearest_monotone(a: nat, b: nat, d: nat)
    requires
        d > 0,
        a <= b,
    ensures
        nearest(a, d) <= nearest(b, d),
{
    lemma_nearest(a, d);
    lemma_nearest(b, d);
    let p = nearest(a, d);
    let q = nearest(b, d);
    if q < p {
        assert((2 * q + 1) * d <= (2 * p - 1) * d) by (nonlinear_arith)
            requires
                q + 1 <= p,
                d > 0,
        ;
        assert(a == b);
    }
}

/// A multiple rounds to itself.
pub proof fn lemma_nearest_exact(m: nat, d: nat)
    requires
        d > 0,
    ensures
        nearest(m * d, d) == m,
{
    assert((2 * m + 1) * d == 2 * (m * d) + d) by (nonlinear_arith);
    assert((2 * m - 1) * d == 2 * (m * d) - d) by (nonlinear_arith);
    lemma_nearest_unique(m * d, d, m);
}

/// The power of two that a quotient is rounded at.
pub proof fn lemma_significant(num: nat, den: nat, top: nat, k: nat)
    requires
        den > 0,
        top >= 2,
        num < den * pow2(k) * top,
        k > 0 ==> num >= den * pow2((k - 1) as nat) * top,
    ensures
        significant(num, den, top) == nearest(num, den * pow2(k)) * pow2(k),
    decreases k,
{
    reveal_with_fuel(significant, 2);
    if k == 0 {
        vstd::arithmetic::power2::lemma2_to64();
        assert(den * 1 == den);
    } else {
        let h = pow2((k - 1) as nat);
        lemma_pow2_unfold(k);
        lemma_pow2_pos((k - 1) as nat);
        assert(den * h * top >= den * top) by (nonlinear_arith)
            requires
                h >= 1,
                den > 0,
                top > 0,
        ;
        assert((2 * den) * h == den * (2 * h)) by (nonlinear_arith);
        if k > 1 {
            lemma_pow2_unfold((k - 1) as nat);
            let g = pow2((k - 2) as nat);
            assert((2 * den) * g == den * (2 * g)) by (nonlinear_arith);
        }
        lemma_significant(num, 2 * den, top, (k - 1) as nat);
        let q = nearest(num, den * pow2(k));
        assert(2 * (q * h) == q * (2 * h)) by (nonlinear_arith);
    }
}

/// A quotient of at least half of `top` rounds to no less than that half.
proof fn lemma_significant_floor(num: nat, den: nat, half: nat)
    requires
        den > 0,
        half >= 1,
        num >= den * half,
    ensures
        significant(num, den, 2 * half) >= half,
    decreases num - den,
{
    reveal_with_fuel(significant, 2);
    if num < den * (2 * half) {
        lemma_nearest_monotone(den * half, num, den);
        assert(den * half == half * den) by (nonlinear_arith);
        lemma_nearest_exact(half, den);
    } else {
        assert((2 * den) * half == den * (2 * half)) by (nonlinear_arith);
        assert(num >= 2 * den) by (nonlinear_arith)
            requires
                num >= den * (2 * half),
                half >= 1,
                den > 0,
        ;
        lemma_significant_floor(num, 2 * den, half);
    }
}

/// What is no larger rounds to no more.
proof fn lemma_significant_monotone(a: nat, b: nat, den: nat, half: nat)
    requires
        den > 0,
        half >= 1,
        a <= b,
    ensures
        significant(a, den, 2 * half) <= significant(b, den, 2 * half),
    decreases b - den,
{
    reveal_with_fuel(significant, 2);
    let top = 2 * half;
    if b < den * top {
        lemma_nearest_monotone(a, b, den);
    } else {
        assert((2 * den) * half == den * top) by (nonlinear_arith)
            requires
                top == 2 * half,
        ;
        assert(b >= 2 * den) by (nonlinear_arith)
            requires
                b >= den * top,
                top >= 2,
                den > 0,
        ;
        if a < den * top {
            lemma_nearest_monotone(a, den * top, den);
            assert(den * top == top * den) by (nonlinear_arith);
            lemma_nearest_exact(top, den);
            lemma_significant_floor(b, 2 * den, half);
        } else {
            lemma_significant_monotone(a, b, 2 * den, half);
        }
    }
}

/// What is no larger gives no larger double.
pub proof fn doubles_keep_the_order(a: nat, b: nat, den: nat)
    requires
        den > 0,
        a <= b,
    ensures
        double(a, den) <= double(b, den),
{
    lemma_significant_monotone(a, b, den, 0x10_0000_0000_0000);
}

/// Rounding keeps a number that has no bit too many.
proof fn lemma_kept(m: nat, k: nat, half: nat)
    requires
        m <= 2 * half,
        half >= 1,
    ensures
        significant(m * pow2(k), 1, 2 * half) == m * pow2(k),
    decreases k,
{
    reveal_with_fuel(significant, 2);
    vstd::arithmetic::power2::lemma2_to64();
    lemma_pow2_pos(k);
    if m == 0 {
        lemma_nearest_exact(0, 1);
        assert(0 * pow2(k) == 0);
    } else if m == 2 * half {
        lemma_pow2_unfold(k + 1);
        assert(m * pow2(k) == half * pow2(k + 1)) by (nonlinear_arith)
            requires
                m == 2 * half,
                pow2(k + 1) == 2 * pow2(k),
        ;
        lemma_kept_step(half, k + 1, half);
    } else if m >= half || k == 0 {
        lemma_kept_step(m, k, half);
    } else {
        lemma_pow2_unfold(k);
        let j = (k - 1) as nat;
        assert(m * pow2(k) == (2 * m) * pow2(j)) by (nonlinear_arith)
            requires
                pow2(k) == 2 * pow2(j),
        ;
        lemma_kept(2 * m, j, half);
    }
}

proof fn lemma_kept_step(m: nat, k: nat, half: nat)
    requires
        m < 2 * half,
        k == 0 || m >= half,
    ensures
        significant(m * pow2(k), 1, 2 * half) == m * pow2(k),
{
    lemma_pow2_pos(k);
    let p = pow2(k);
    let top = 2 * half;
    assert(m * p < 1 * p * top) by (nonlinear_arith)
        requires
            m < top,
            p > 0,
    ;
    if k > 0 {
        lemma_pow2_unfold(k);
        let h = pow2((k - 1) as nat);
        assert(m * p >= 1 * h * top) by (nonlinear_arith)
            requires
                m >= half,
                p == 2 * h,
                top == 2 * half,
                h > 0,
        ;
    }
    lemma_significant(m * p, 1, top, k);
    assert(1 * p == p);
    lemma_nearest_exact(m, p);
}

/// What is rounded has no bit too many.
proof fn lemma_shape(num: nat, den: nat, half: nat) -> (r: (nat, nat))
    requires
        den > 0,
        half >= 1,
    ensures
        r.0 <= 2 * half,
        significant(num, den, 2 * half) == r.0 * pow2(r.1),
    decreases num - den,
{
    reveal_with_fuel(significant, 2);
    let top = 2 * half;
    if num < den * top {
        vstd::arithmetic::power2::lemma2_to64();
        lemma_nearest_monotone(num, den * top, den);
        assert(den * top == top * den) by (nonlinear_arith);
        lemma_nearest_exact(top, den);
        let q = nearest(num, den);
        assert(q * 1 == q);
        (q, 0)
    } else {
        assert(num >= 2 * den) by (nonlinear_arith)
            requires
                num >= den * top,
                top >= 2,
                den > 0,
        ;
        let (q, k) = lemma_shape(num, 2 * den, half);
        lemma_pow2_unfold(k + 1);
        let p = pow2(k);
        assert(q * (2 * p) == 2 * (q * p)) by (nonlinear_arith);
        (q, k + 1)
    }
}

/// A number of at most 53 significant bits is a double: rounding keeps it.
pub proof fn doubles_are_exact(m: nat, k: nat)
    requires
        m <= TOP,
        m * pow2(k) <= infinite(),
    ensures
        double(m * pow2(k), 1) == m * pow2(k),
{
    lemma_kept(m, k, 0x10_0000_0000_0000);
}

/// A number to single precision stays as it is, to single and to double
/// precision.
pub proof fn singles_are_kept(n: nat)
    ensures
        single(single(n)) == single(n),
        double(single(n), 1) == single(n),
{
    let (q, k) = lemma_shape(n, 1, 0x80_0000);
    lemma_kept(q, k, 0x80_0000);
    lemma_kept(q, k, 0x10_0000_0000_0000);
    lemma_kept(1, 2098, 0x80_0000);
    lemma_kept(1, 2098, 0x10_0000_0000_0000);
    assert(1 * pow2(2098) == pow2(2098));
}

/// Nothing is nothing to single precision.
pub proof fn nothing_is_single()
    ensures
        single(0) == 0,
{
    lemma_kept(0, 0, 0x80_0000);
    assert(0 * pow2(0) == 0);
    lemma_pow2_pos(2098);
}

/// A ratio of ordinary numbers is not so small as to vanish.
pub proof fn ratios_are_positive(num: nat, den: nat)
    requires
        0 < num,
        0 < den <= 0x1_0000_0000_0000_0000,
    ensures
        ratio(num, den) > 0,
        single(ratio(num, den)) > 0,
{
    vstd::arithmetic::power2::lemma2_to64();
    lemma_pow2_strictly_increases(64, 1074);
    lemma_pow2_strictly_increases(64, 2098);
    assert(num * unit() >= 1 * den) by (nonlinear_arith)
        requires
            num >= 1,
            unit() >= den,
    ;
    doubles_keep_the_order(1 * den, num * unit(), den);
    reveal_with_fuel(significant, 2);
    lemma_nearest_exact(1, den);
    assert(den < den * TOP) by (nonlinear_arith)
        requires
            den > 0,
            TOP == 0x20_0000_0000_0000,
    ;
    assert(1 * den == den);
    singles_keep_the_order(1, ratio(num, den));
    lemma_nearest_exact(1, 1);
}

/// What is no larger is no larger to single precision.
pub proof fn singles_keep_the_order(a: nat, b: nat)
    requires
        a <= b,
    ensures
        single(a) <= single(b),
{
    lemma_significant_monotone(a, b, 1, 0x80_0000);
}

/// A double that is not negative.
#[derive(Clone, Copy, PartialEq, Eq, Debug)]
pub struct Double {
    mantissa: u64,
    exponent: u32,
}

impl View for Double {
    type V = nat;

    closed spec fn view(&self) -> nat {
        self.mantissa as nat * pow2(self.exponent as nat)
    }
}

impl Double {
    /// Every double has one form: the mantissa is below 2^53, and at least 2^52
    /// unless the exponent is the least.
    #[verifier::type_invariant]
    closed spec fn valid(self) -> bool {
        &&& self.mantissa < TOP
        &&& self.exponent <= 2046
        &&& self.exponent > 0 ==> self.mantissa >= 0x10_0000_0000_0000
        &&& self.exponent == 2046 ==> self.mantissa == 0x10_0000_0000_0000
    }
}

/// Keeps the cross product when both sides lose a power of two.
proof fn lemma_cancel(n: nat, big_d: nat, up: nat, big_n: nat, d: nat, down: nat, c: nat)
    requires
        c <= up,
        c <= down,
        n * (big_d * pow2(up)) == big_n * (d * pow2(down)),
    ensures
        n * (big_d * pow2((up - c) as nat)) == big_n * (d * pow2((down - c) as nat)),
{
    let p = pow2(c);
    let u = pow2((up - c) as nat);
    let v = pow2((down - c) as nat);
    lemma_pow2_pos(c);
    lemma_pow2_adds(c, (up - c) as nat);
    lemma_pow2_adds(c, (down - c) as nat);
    assert(n * (big_d * u) == big_n * (d * v)) by (nonlinear_arith)
        requires
            n * (big_d * (p * u)) == big_n * (d * (p * v)),
            p > 0,
    {
        assert(n * (big_d * (p * u)) == p * (n * (big_d * u)));
        assert(big_n * (d * (p * v)) == p * (big_n * (d * v)));
    }
}

/// What the normal form of a quotient says of its rounding.
proof fn lemma_settled(n: nat, big_d: nat, up: nat, big_n: nat, d: nat)
    requires
        d > 0,
        big_d > 0,
        n * (big_d * pow2(up)) == big_n * d,
        n < d * TOP,
        up > 0 ==> n >= d * 0x10_0000_0000_0000,
    ensures
        significant(big_n, big_d, TOP as nat) == nearest(n, d) * pow2(up),
{
    let p = pow2(up);
    let e = big_d * p;
    lemma_pow2_pos(up);
    assert(e > 0) by (nonlinear_arith)
        requires
            e == big_d * p,
            big_d > 0,
            p > 0,
    ;
    assert(big_n < e * TOP) by (nonlinear_arith)
        requires
            n * e == big_n * d,
            n < d * TOP,
            d > 0,
            e > 0,
    {
        assert(n * e < (d * TOP) * e);
        assert((d * TOP) * e == (e * TOP) * d);
        assert(big_n * d < (e * TOP) * d);
    }
    if up > 0 {
        lemma_pow2_unfold(up);
        let h = pow2((up - 1) as nat);
        assert(big_n >= big_d * h * TOP) by (nonlinear_arith)
            requires
                n * e == big_n * d,
                n >= d * 0x10_0000_0000_0000,
                TOP == 0x20_0000_0000_0000,
                e == big_d * p,
                p == 2 * h,
                d > 0,
                e > 0,
        {
            assert(n * e >= (d * 0x10_0000_0000_0000) * e);
            assert((d * 0x10_0000_0000_0000) * e == (e * 0x10_0000_0000_0000) * d);
            assert(big_n * d >= (e * 0x10_0000_0000_0000) * d);
            assert(big_n >= e * 0x10_0000_0000_0000);
            assert(e == 2 * (big_d * h));
        }
    }
    lemma_significant(big_n, big_d, TOP as nat, up);
    assert(n * e == e * n) by (nonlinear_arith);
    lemma_nearest_same(n, d, big_n, e);
}

/// A quotient far below half a unit rounds to nothing.
pub proof fn lemma_vanishes(n: nat, big_d: nat, big_n: nat, d: nat, down: nat)
    requires
        big_d > 0,
        n * big_d == big_n * (d * pow2(down)),
        2 * n < d,
    ensures
        double(big_n, big_d) == 0,
{
    let p = pow2(down);
    lemma_pow2_pos(down);
    assert(2 * big_n < big_d) by (nonlinear_arith)
        requires
            n * big_d == big_n * (d * p),
            2 * n < d,
            big_d > 0,
            p >= 1,
    {
        assert((2 * n) * big_d < d * big_d);
        assert(big_n * (d * p) >= big_n * d);
        assert((2 * big_n) * d < big_d * d);
    }
    reveal_with_fuel(significant, 2);
    lemma_nearest_unique(big_n, big_d, 0);
    assert(big_d * TOP >= big_d) by (nonlinear_arith)
        requires
            big_d > 0,
            TOP == 0x20_0000_0000_0000,
    ;
    lemma_pow2_pos(2098);
}

/// The double nearest to `num * 2^up / (den * 2^down)` units.
fn settle(num: u128, den: u128, up: u32, down: u32) -> (r: Double)
    requires
        0 < den <= 0xffff_ffff_ffff_ffff,
        num < 0x100_0000_0000_0000_0000_0000_0000_0000,
        up <= 5000,
        down <= 5000,
    ensures
        r@ == double(num as nat * pow2(up as nat), den as nat * pow2(down as nat)),
{
    let ghost big_n = num as nat * pow2(up as nat);
    let ghost big_d = den as nat * pow2(down as nat);
    let mut n: u128 = num;
    let mut d: u128 = den;
    let mut e: u32 = up;
    let mut f: u32 = down;
    proof {
        lemma_pow2_pos(up as nat);
        lemma_pow2_pos(down as nat);
        let a = pow2(up as nat);
        let b = pow2(down as nat);
        assert(n * ((d * b) * a) == (n * a) * (d * b)) by (nonlinear_arith);
        assert(big_d > 0) by (nonlinear_arith)
            requires
                big_d == d * b,
                d > 0,
                b > 0,
        ;
        let c = if up < down { up as nat } else { down as nat };
        lemma_cancel(n as nat, big_d, up as nat, big_n, d as nat, down as nat, c);
    }
    if up < down {
        e = 0;
        f = down - up;
    } else {
        e = up - down;
        f = 0;
    }
    proof {
        vstd::arithmetic::power2::lemma2_to64();
    }
    while f > 0
        invariant
            0 < d,
            f > 0 ==> e == 0,
            e > 0 ==> d <= 0xffff_ffff_ffff_ffff,
            e <= 5000,
            n < 0x100_0000_0000_0000_0000_0000_0000_0000,
            d < 0x800_0000_0000_0000_0000_0000_0000_0000,
            big_d > 0,
            pow2(0) == 1,
            big_n == num as nat * pow2(up as nat),
            big_d == den as nat * pow2(down as nat),
            n * (big_d * pow2(e as nat)) == big_n * (d * pow2(f as nat)),
        decreases f,
    {
        if d / 2 > n {
            proof {
                assert(big_d * 1 == big_d);
                assert(2 * n < d);
                lemma_vanishes(n as nat, big_d, big_n, d as nat, f as nat);
                assert(0 * pow2(0) == 0);
            }
            return Double { mantissa: 0, exponent: 0 };
        }
        proof {
            lemma_pow2_unfold(f as nat);
            let h = pow2((f - 1) as nat);
            assert(d * (2 * h) == (2 * d) * h) by (nonlinear_arith);
        }
        d = 2 * d;
        f -= 1;
    }
    assert(d * 1 == d);
    while e >= 16 && n / d < 0x10_0000_0000
        invariant
            0 < d,
            e > 0 ==> d <= 0xffff_ffff_ffff_ffff,
            e <= 5000,
            n < 0x100_0000_0000_0000_0000_0000_0000_0000,
            big_d > 0,
            n * (big_d * pow2(e as nat)) == big_n * d,
        decreases e,
    {
        proof {
            lemma_sixteen((e - 16) as nat);
            let h = pow2((e - 16) as nat);
            assert(n * (big_d * (0x1_0000 * h)) == (0x1_0000 * n) * (big_d * h)) by (nonlinear_arith);
            assert(n < d * 0x10_0000_0000) by (nonlinear_arith)
                requires
                    n / d < 0x10_0000_0000,
                    d > 0,
            ;
        }
        n = 0x1_0000 * n;
        e -= 16;
    }
    while e > 0 && n / d < 0x10_0000_0000_0000
        invariant
            0 < d,
            e > 0 ==> d <= 0xffff_ffff_ffff_ffff,
            e <= 5000,
            n < 0x100_0000_0000_0000_0000_0000_0000_0000,
            big_d > 0,
            n * (big_d * pow2(e as nat)) == big_n * d,
        decreases e,
    {
        proof {
            lemma_pow2_unfold(e as nat);
            let h = pow2((e - 1) as nat);
            assert(n * (big_d * (2 * h)) == (2 * n) * (big_d * h)) by (nonlinear_arith);
            assert(n < d * 0x10_0000_0000_0000) by (nonlinear_arith)
                requires
                    n / d < 0x10_0000_0000_0000,
                    d > 0,
            ;
        }
        n = 2 * n;
        e -= 1;
    }
    let ghost first = e;
    while n / d >= 0x20_0000_0000_0000_0000
        invariant
            0 < d,
            first <= e <= first + 120,
            first <= 5000,
            d >= pow2((e - first) as nat),
            n < 0x100_0000_0000_0000_0000_0000_0000_0000,
            big_d > 0,
            e > 0 ==> n / d >= 0x10_0000_0000_0000,
            n * (big_d * pow2(e as nat)) == big_n * d,
        decreases n / d,
    {
        proof {
            lemma_sixteen(e as nat);
            lemma_sixteen((e - first) as nat);
            let h = pow2(e as nat);
            assert(n * (big_d * (0x1_0000 * h)) == 0x1_0000 * (n * (big_d * h)))
                by (nonlinear_arith);
            assert(big_n * (0x1_0000 * d) == 0x1_0000 * (big_n * d)) by (nonlinear_arith);
            assert(d * 0x20_0000_0000_0000_0000 <= n) by (nonlinear_arith)
                requires
                    n / d >= 0x20_0000_0000_0000_0000,
                    d > 0,
            ;
            lemma_sixteenth(n as nat, d as nat);
            if e - first >= 104 {
                lemma_power_bound((e + 16 - first) as nat);
            }
        }
        d = 0x1_0000 * d;
        e += 16;
    }
    while n / d >= 0x20_0000_0000_0000
        invariant
            0 < d,
            first <= e <= first + 120,
            first <= 5000,
            d >= pow2((e - first) as nat),
            n < 0x100_0000_0000_0000_0000_0000_0000_0000,
            big_d > 0,
            e > 0 ==> n / d >= 0x10_0000_0000_0000,
            n * (big_d * pow2(e as nat)) == big_n * d,
        decreases n / d,
    {
        proof {
            lemma_pow2_unfold((e + 1) as nat);
            lemma_pow2_unfold((e + 1 - first) as nat);
            let h = pow2(e as nat);
            assert(n * (big_d * (2 * h)) == 2 * (n * (big_d * h))) by (nonlinear_arith);
            assert(big_n * (2 * d) == 2 * (big_n * d)) by (nonlinear_arith);
            assert(d * 0x20_0000_0000_0000 <= n) by (nonlinear_arith)
                requires
                    n / d >= 0x20_0000_0000_0000,
                    d > 0,
            ;
            lemma_halving(n as nat, d as nat);
            if e - first >= 120 {
                vstd::arithmetic::power2::lemma2_to64_rest();
                lemma_pow2_adds(60, 60);
                if e - first > 120 {
                    lemma_pow2_strictly_increases(120, (e - first) as nat);
                }
                assert(false) by {
                    assert(0x1000_0000_0000_0000 * 0x1000_0000_0000_0000
                        == 0x100_0000_0000_0000_0000_0000_0000_0000);
                }
            }
        }
        d = 2 * d;
        e += 1;
    }
    proof {
        assert(n < d * TOP) by (nonlinear_arith)
            requires
                n / d < 0x20_0000_0000_0000,
                TOP == 0x20_0000_0000_0000,
                d > 0,
        ;
        if e > 0 {
            assert(n >= d * 0x10_0000_0000_0000) by (nonlinear_arith)
                requires
                    n / d >= 0x10_0000_0000_0000,
                    d > 0,
            ;
        }
        lemma_settled(n as nat, big_d, e as nat, big_n, d as nat);
    }
    let q: u128 = n / d;
    let left: u128 = n % d;
    let near: u128 = if left > d - left || left == d - left && q % 2 == 1 { q + 1 } else { q };
    assert(near == nearest(n as nat, d as nat));
    finished(near as u64, e)
}

/// Sixteen doublings at once.
proof fn lemma_sixteen(e: nat)
    ensures
        pow2(e + 16) == 0x1_0000 * pow2(e),
{
    vstd::arithmetic::power2::lemma2_to64();
    lemma_pow2_adds(16, e);
}

/// A fraction of a large quotient.
proof fn lemma_sixteenth(n: nat, d: nat)
    requires
        d > 0,
        n / d >= 0x20_0000_0000_0000_0000,
    ensures
        0x10_0000_0000_0000 <= n / (0x1_0000 * d) < n / d,
{
    vstd::arithmetic::div_mod::lemma_div_denominator(n as int, d as int, 0x1_0000);
    assert(d * 0x1_0000 == 0x1_0000 * d);
}

/// Half a quotient that is not small.
proof fn lemma_halving(n: nat, d: nat)
    requires
        d > 0,
        n / d >= 0x20_0000_0000_0000,
    ensures
        0x10_0000_0000_0000 <= n / (2 * d) < n / d,
{
    let q = n / d;
    assert(n / (2 * d) == q / 2) by (nonlinear_arith)
        requires
            q == n / d,
            d > 0,
    {
        let r = n % d;
        assert(n == q * d + r && 0 <= r < d);
        let h = q / 2;
        let odd = q % 2;
        assert(q == 2 * h + odd && 0 <= odd < 2);
        assert(n == h * (2 * d) + (odd * d + r));
        assert(0 <= odd * d + r < 2 * d);
        vstd::arithmetic::div_mod::lemma_fundamental_div_mod_converse(n as int, (2 * d) as int, h as int, (odd * d + r) as int);
    }
}

/// The double of a mantissa that may have grown by one bit.
pub(crate) fn finished(mantissa: u64, exponent: u32) -> (r: Double)
    requires
        mantissa <= TOP,
        exponent > 0 ==> mantissa >= 0x10_0000_0000_0000,
        exponent <= 6000,
    ensures
        r@ == (if mantissa * pow2(exponent as nat) < infinite() {
            mantissa as nat * pow2(exponent as nat)
        } else {
            infinite()
        }),
{
    let mut m: u64 = mantissa;
    let mut e: u32 = exponent;
    proof {
        vstd::arithmetic::power2::lemma2_to64_rest();
        lemma_pow2_adds(52, 2046);
        lemma_pow2_pos(2098);
    }
    if mantissa == TOP {
        proof {
            lemma_pow2_unfold((exponent + 1) as nat);
            let h = pow2(exponent as nat);
            assert(0x20_0000_0000_0000 * h == 0x10_0000_0000_0000 * (2 * h)) by (nonlinear_arith);
        }
        m = 0x10_0000_0000_0000;
        e = exponent + 1;
    }
    assert(m * pow2(e as nat) == mantissa * pow2(exponent as nat));
    let p = Ghost(pow2(e as nat));
    if e >= 2046 {
        proof {
            if e > 2046 {
                lemma_pow2_strictly_increases(2046, e as nat);
            }
            assert(m * p@ >= 0x10_0000_0000_0000 * pow2(2046)) by (nonlinear_arith)
                requires
                    m >= 0x10_0000_0000_0000,
                    p@ >= pow2(2046),
            ;
        }
        Double { mantissa: 0x10_0000_0000_0000, exponent: 2046 }
    } else {
        proof {
            if e < 2045 {
                lemma_pow2_strictly_increases(e as nat, 2045);
            }
            lemma_pow2_unfold(2046);
            lemma_pow2_pos(2045);
            assert(m * p@ < 0x10_0000_0000_0000 * (2 * pow2(2045))) by (nonlinear_arith)
                requires
                    m < 0x20_0000_0000_0000,
                    p@ <= pow2(2045),
                    pow2(2045) > 0,
            ;
        }
        Double { mantissa: m, exponent: e }
    }
}

/// `n` doubled `k` times.
fn raised(n: u128, k: u32) -> (r: u128)
    requires
        n < TOP,
        k <= 64,
    ensures
        r == n * pow2(k as nat),
        r < 0x20_0000_0000_0000_0000_0000_0000_0000,
{
    let mut r: u128 = n;
    let mut i: u32 = 0;
    proof {
        vstd::arithmetic::power2::lemma2_to64();
        assert(n * 1 == n);
    }
    while i < k
        invariant
            i <= k <= 64,
            n < TOP,
            r == n * pow2(i as nat),
            r < 0x20_0000_0000_0000_0000_0000_0000_0000,
        decreases k - i,
    {
        proof {
            lemma_pow2_unfold((i + 1) as nat);
            let h = pow2(i as nat);
            assert(n * (2 * h) == 2 * (n * h)) by (nonlinear_arith);
            vstd::arithmetic::power2::lemma2_to64();
            if i + 1 < 64 {
                lemma_pow2_strictly_increases((i + 1) as nat, 64);
            }
            assert(n * pow2((i + 1) as nat) < 0x20_0000_0000_0000 * 0x1_0000_0000_0000_0000)
                by (nonlinear_arith)
                requires
                    n < 0x20_0000_0000_0000,
                    pow2((i + 1) as nat) <= 0x1_0000_0000_0000_0000,
            ;
        }
        r = 2 * r;
        i += 1;
    }
    r
}

/// A number far below a double does not move it.
proof fn lemma_far(m: nat, e: nat, b: nat)
    requires
        0x10_0000_0000_0000 <= m < TOP,
        e > 1,
        4 * b < pow2(e),
    ensures
        significant(m * pow2(e) + b, 1, TOP as nat) == m * pow2(e),
        significant((m * pow2(e) - b) as nat, 1, TOP as nat) == m * pow2(e),
{
    let p = pow2(e);
    let h = pow2((e - 1) as nat);
    let g = pow2((e - 2) as nat);
    lemma_pow2_unfold(e);
    lemma_pow2_unfold((e - 1) as nat);
    let more = m * p + b;
    assert(more < 1 * p * TOP) by (nonlinear_arith)
        requires
            more == m * p + b,
            m + 1 <= TOP,
            4 * b < p,
            b >= 0,
    ;
    assert(more >= 1 * h * TOP) by (nonlinear_arith)
        requires
            more == m * p + b,
            m >= 0x10_0000_0000_0000,
            p == 2 * h,
            TOP == 0x20_0000_0000_0000,
            b >= 0,
            h >= 0,
    ;
    lemma_significant(more, 1, TOP as nat, e);
    assert((2 * m + 1) * p == 2 * (m * p) + p) by (nonlinear_arith);
    assert((2 * m - 1) * p == 2 * (m * p) - p) by (nonlinear_arith);
    lemma_nearest_unique(more, p, m);
    assert(m * p >= p) by (nonlinear_arith)
        requires
            m >= 1,
    ;
    let less = (m * p - b) as nat;
    if m > 0x10_0000_0000_0000 || b == 0 {
        assert(less < 1 * p * TOP);
        assert(less >= 1 * h * TOP) by (nonlinear_arith)
            requires
                less == m * p - b,
                m >= 0x10_0000_0000_0001 || (b == 0 && m >= 0x10_0000_0000_0000),
                4 * b < p,
                p == 2 * h,
                TOP == 0x20_0000_0000_0000,
                h >= 0,
        ;
        lemma_significant(less, 1, TOP as nat, e);
        lemma_nearest_unique(less, p, m);
    } else {
        assert(less < 1 * h * TOP) by (nonlinear_arith)
            requires
                less == m * p - b,
                m == 0x10_0000_0000_0000,
                p == 2 * h,
                TOP == 0x20_0000_0000_0000,
                b > 0,
        ;
        assert(less >= 1 * g * TOP) by (nonlinear_arith)
            requires
                less == m * p - b,
                m == 0x10_0000_0000_0000,
                p == 2 * h,
                h == 2 * g,
                TOP == 0x20_0000_0000_0000,
                4 * b < p,
        ;
        lemma_significant(less, 1, TOP as nat, (e - 1) as nat);
        assert(1 * h == h);
        assert((2 * TOP + 1) * h == 2 * (TOP * h) + h) by (nonlinear_arith);
        assert((2 * TOP - 1) * h == 2 * (TOP * h) - h) by (nonlinear_arith);
        assert(TOP * h == m * p) by (nonlinear_arith)
            requires
                m == 0x10_0000_0000_0000,
                p == 2 * h,
                TOP == 0x20_0000_0000_0000,
        ;
        lemma_nearest_unique(less, h, TOP as nat);
    }
}

/// A double whose exponent is this much lower is that far below.
proof fn lemma_gap(m: nat, low: nat, high: nat)
    requires
        m < TOP,
        low + 60 < high,
    ensures
        4 * (m * pow2(low)) < pow2(high),
{
    vstd::arithmetic::power2::lemma2_to64_rest();
    lemma_pow2_adds(low, 60);
    lemma_pow2_strictly_increases(low + 60, high);
    lemma_pow2_pos(low);
    let p = pow2(low);
    assert(4 * (m * p) < p * 0x1000_0000_0000_0000) by (nonlinear_arith)
        requires
            m < 0x20_0000_0000_0000,
            p > 0,
    ;
}

/// A larger exponent makes the larger double.
proof fn lemma_exponents(m: nat, low: nat, n: nat, high: nat)
    requires
        m < TOP,
        n >= 0x10_0000_0000_0000,
        low < high,
    ensures
        m * pow2(low) < n * pow2(high),
{
    lemma_pow2_unfold((low + 1) as nat);
    if low + 1 < high {
        lemma_pow2_strictly_increases((low + 1) as nat, high);
    }
    lemma_pow2_pos(low);
    let p = pow2(low);
    let q = pow2(high);
    assert(m * p < n * q) by (nonlinear_arith)
        requires
            m < 0x20_0000_0000_0000,
            n >= 0x10_0000_0000_0000,
            q >= 2 * p,
            p > 0,
    ;
}

/// The larger mantissa makes the larger double.
proof fn lemma_mantissas(m: nat, n: nat, e: nat)
    requires
        m < n,
    ensures
        m * pow2(e) < n * pow2(e),
{
    lemma_pow2_pos(e);
    let p = pow2(e);
    assert(m * p < n * p) by (nonlinear_arith)
        requires
            m < n,
            p > 0,
    ;
}

impl Double {
    /// No double is above the infinite.
    proof fn lemma_bounded(&self)
        requires
            self.valid(),
        ensures
            self@ <= infinite(),
    {
        vstd::arithmetic::power2::lemma2_to64_rest();
        lemma_pow2_adds(52, 2046);
        if self.exponent < 2046 {
            lemma_exponents(self.mantissa as nat, self.exponent as nat, 0x10_0000_0000_0000, 2046);
        }
    }

    /// Zero.
    pub fn zero() -> (r: Double)
        ensures
            r@ == 0,
    {
        Double { mantissa: 0, exponent: 0 }
    }

    /// The infinite.
    pub fn infinity() -> (r: Double)
        ensures
            r@ == infinite(),
    {
        proof {
            vstd::arithmetic::power2::lemma2_to64_rest();
            lemma_pow2_adds(52, 2046);
        }
        Double { mantissa: 0x10_0000_0000_0000, exponent: 2046 }
    }

    /// A whole number.
    pub fn of(n: u64) -> (r: Double)
        ensures
            r@ == whole(n as nat),
    {
        proof {
            vstd::arithmetic::power2::lemma2_to64();
        }
        settle(n as u128, 1, 1074, 0)
    }

    /// The double nearest to a ratio of whole numbers.
    pub fn of_ratio(num: u128, den: u64) -> (r: Double)
        requires
            den > 0,
            num < 0x100_0000_0000_0000_0000_0000_0000_0000,
        ensures
            r@ == ratio(num as nat, den as nat),
    {
        proof {
            vstd::arithmetic::power2::lemma2_to64();
            assert(den as nat * 1 == den);
        }
        settle(num, den as u128, 1074, 0)
    }

    /// Whether this is the smaller of two.
    pub fn less(self, other: Double) -> (r: bool)
        ensures
            r == (self@ < other@),
    {
        proof {
            use_type_invariant(self);
            use_type_invariant(other);
            let (m, e) = (self.mantissa as nat, self.exponent as nat);
            let (n, f) = (other.mantissa as nat, other.exponent as nat);
            if e < f {
                lemma_exponents(m, e, n, f);
            } else if f < e {
                lemma_exponents(n, f, m, e);
            } else if m < n {
                lemma_mantissas(m, n, e);
            } else if n < m {
                lemma_mantissas(n, m, e);
            }
        }
        self.exponent < other.exponent || self.exponent == other.exponent && self.mantissa
            < other.mantissa
    }

    /// The sum of two doubles.
    pub fn plus(self, other: Double) -> (r: Double)
        ensures
            r@ == plus(self@, other@),
    {
        let (high, low) = if self.exponent < other.exponent {
            (other, self)
        } else {
            (self, other)
        };
        proof {
            use_type_invariant(self);
            use_type_invariant(other);
            assert(self@ + other@ == high@ + low@);
        }
        let step: u32 = high.exponent - low.exponent;
        if step > 60 {
            proof {
                lemma_gap(low.mantissa as nat, low.exponent as nat, high.exponent as nat);
                lemma_far(high.mantissa as nat, high.exponent as nat, low@);
                high.lemma_bounded();
            }
            return high;
        }
        let raised_high: u128 = raised(high.mantissa as u128, step);
        proof {
            lemma_pow2_adds(step as nat, low.exponent as nat);
            let a = pow2(step as nat);
            let b = pow2(low.exponent as nat);
            let m = high.mantissa as nat;
            let n = low.mantissa as nat;
            assert((m * a + n) * b == m * (a * b) + n * b) by (nonlinear_arith);
            vstd::arithmetic::power2::lemma2_to64();
        }
        settle(raised_high + low.mantissa as u128, 1, low.exponent, 0)
    }

    /// How far two doubles are apart.
    pub fn apart(self, other: Double) -> (r: Double)
        ensures
            r@ == apart(self@, other@),
    {
        let (high, low) = if self.less(other) {
            (other, self)
        } else {
            (self, other)
        };
        proof {
            use_type_invariant(self);
            use_type_invariant(other);
            if high.exponent < low.exponent {
                lemma_exponents(
                    high.mantissa as nat,
                    high.exponent as nat,
                    low.mantissa as nat,
                    low.exponent as nat,
                );
            }
        }
        let step: u32 = high.exponent - low.exponent;
        if step > 60 {
            proof {
                lemma_gap(low.mantissa as nat, low.exponent as nat, high.exponent as nat);
                lemma_far(high.mantissa as nat, high.exponent as nat, low@);
                high.lemma_bounded();
            }
            return high;
        }
        let raised_high: u128 = raised(high.mantissa as u128, step);
        proof {
            lemma_pow2_adds(step as nat, low.exponent as nat);
            let a = pow2(step as nat);
            let b = pow2(low.exponent as nat);
            let m = high.mantissa as int;
            let n = low.mantissa as int;
            lemma_pow2_pos(low.exponent as nat);
            assert((m * a - n) * b == m * (a * b) - n * b) by (nonlinear_arith);
            assert(m * a >= n) by (nonlinear_arith)
                requires
                    (m * a - n) * b >= 0,
                    b > 0,
            ;
            vstd::arithmetic::power2::lemma2_to64();
        }
        settle(raised_high - low.mantissa as u128, 1, low.exponent, 0)
    }

    /// The product of two doubles.
    pub fn times(self, other: Double) -> (r: Double)
        ensures
            r@ == times(self@, other@),
    {
        proof {
            use_type_invariant(self);
            use_type_invariant(other);
            let m = self.mantissa as nat;
            let n = other.mantissa as nat;
            lemma_pow2_adds(self.exponent as nat, other.exponent as nat);
            let a = pow2(self.exponent as nat);
            let b = pow2(other.exponent as nat);
            assert((m * n) * (a * b) == (m * a) * (n * b)) by (nonlinear_arith);
            assert(m * n < 0x20_0000_0000_0000 * 0x20_0000_0000_0000) by (nonlinear_arith)
                requires
                    m < 0x20_0000_0000_0000,
                    n < 0x20_0000_0000_0000,
            ;
            assert(1 * unit() == unit());
        }
        settle(
            self.mantissa as u128 * other.mantissa as u128,
            1,
            self.exponent + other.exponent,
            1074,
        )
    }

    /// The quotient of two doubles.
    pub fn over(self, other: Double) -> (r: Double)
        requires
            other@ > 0,
        ensures
            r@ == over(self@, other@),
    {
        proof {
            use_type_invariant(self);
            use_type_invariant(other);
            lemma_pow2_adds(self.exponent as nat, 1074);
            let m = self.mantissa as nat;
            let a = pow2(self.exponent as nat);
            let b = pow2(1074);
            assert(m * (a * b) == (m * a) * b) by (nonlinear_arith);
            assert(0 * pow2(other.exponent as nat) == 0);
        }
        settle(self.mantissa as u128, other.mantissa as u128, self.exponent + 1074, other.exponent)
    }
}

/// The root of a number of units, from the root of its leading bits.
proof fn lemma_root(a: nat, x: nat, j: nat, s: nat)
    requires
        a * unit() == x * pow2(2 * j),
        x % 2 == 0,
        0x20_0000_0000_0000 <= s < 0x40_0000_0000_0000,
        s * s <= x < (s + 1) * (s + 1),
        j <= 2000,
    ensures
        root(a) == ((s + 1) / 2) * pow2(j + 1),
{
    let big = a * unit();
    let r = isqrt(big);
    let p = pow2(j);
    let q = (s + 1) / 2;
    lemma_isqrt_bracket(big);
    lemma_pow2_pos(j);
    lemma_pow2_adds(j, j);
    lemma_pow2_unfold(j + 1);
    assert(big == x * (p * p));
    assert(s * p <= r) by (nonlinear_arith)
        requires
            s * s <= x,
            big == x * (p * p),
            big < (r + 1) * (r + 1),
            p > 0,
            s >= 0,
            r >= 0,
    {
        assert((s * p) * (s * p) == (s * s) * (p * p));
        assert((s * s) * (p * p) <= x * (p * p));
        if s * p >= r + 1 {
            assert((s * p) * (s * p) >= (r + 1) * (r + 1));
        }
    }
    assert(r < (s + 1) * p) by (nonlinear_arith)
        requires
            x < (s + 1) * (s + 1),
            big == x * (p * p),
            r * r <= big,
            p > 0,
            s >= 0,
            r >= 0,
    {
        let t = s + 1;
        assert((t * p) * (t * p) == (t * t) * (p * p));
        assert(x * (p * p) < (t * t) * (p * p));
        if r >= t * p {
            assert(r * r >= (t * p) * (t * p));
        }
    }
    let (num, den): (nat, nat) = if r * r == big {
        (r, 1)
    } else {
        (2 * r + 1, 2)
    };
    let d = den * pow2(j + 1);
    let low = s * p;
    assert((s + 1) * p == low + p) by (nonlinear_arith)
        requires
            low == s * p,
    ;
    assert(den * low <= num < den * (low + p));
    assert(0x20_0000_0000_0000 * p <= low && low + p <= 0x40_0000_0000_0000 * p)
        by (nonlinear_arith)
        requires
            low == s * p,
            0x20_0000_0000_0000 <= s < 0x40_0000_0000_0000,
            p > 0,
    ;
    assert(num < d * TOP && num >= den * p * TOP) by {
        if den == 1 {
            assert(1 * (2 * p) * TOP == 0x40_0000_0000_0000 * p);
            assert(1 * p * TOP == 0x20_0000_0000_0000 * p);
        } else {
            assert(2 * (2 * p) * TOP == 0x80_0000_0000_0000 * p);
            assert(2 * p * TOP == 0x40_0000_0000_0000 * p);
        }
    }
    lemma_significant(num, den, TOP as nat, j + 1);
    assert((2 * q + 1) * d == 2 * (q * d) + d && (2 * q - 1) * d == 2 * (q * d) - d)
        by (nonlinear_arith);
    assert(q * d == den * ((2 * q) * p)) by (nonlinear_arith)
        requires
            d == den * (2 * p),
    ;
    if s % 2 == 0 {
        assert(2 * q == s);
        lemma_nearest_unique(num, d, q);
    } else {
        assert(2 * q == s + 1);
        if 2 * num == (2 * q - 1) * d {
            assert(num == den * low);
            assert(den == 1 && r == low);
            assert(s * s == x) by (nonlinear_arith)
                requires
                    r == s * p,
                    r * r == x * (p * p),
                    p > 0,
            {
                assert(r * r == (s * s) * (p * p));
            }
            assert((s * s) % 2 == 1) by (nonlinear_arith)
                requires
                    s % 2 == 1,
            {
                let h = s / 2;
                assert(s == 2 * h + 1);
                assert(s * s == 2 * (2 * h * h + 2 * h) + 1);
            }
        }
        lemma_nearest_unique(num, d, q);
    }
    vstd::arithmetic::power2::lemma2_to64_rest();
    lemma_pow2_adds(53, j + 1);
    lemma_pow2_strictly_increases(53 + (j + 1), 2098);
    let top = pow2(j + 1);
    assert(q * top < pow2(2098)) by (nonlinear_arith)
        requires
            q <= 0x20_0000_0000_0000,
            0x20_0000_0000_0000 * top < pow2(2098),
            top >= 0,
    ;
}

impl Double {
    /// The square root of a double.
    pub fn root(self) -> (r: Double)
        ensures
            r@ == root(self@),
    {
        proof {
            use_type_invariant(self);
        }
        if self.mantissa == 0 {
            proof {
                assert(0 * pow2(self.exponent as nat) == 0);
                assert(0 * unit() == 0);
                lemma_isqrt_bracket(0);
                let z = isqrt(0);
                assert(z == 0) by (nonlinear_arith)
                    requires
                        z * z <= 0,
                ;
                doubles_are_exact(0, 0);
                assert(0 * pow2(0) == 0);
            }
            return Double { mantissa: 0, exponent: 0 };
        }
        let ghost big = self@ * unit();
        let mut x: u128 = self.mantissa as u128;
        let mut t: u32 = self.exponent + 1074;
        proof {
            lemma_pow2_adds(self.exponent as nat, 1074);
            let a = pow2(self.exponent as nat);
            assert((x * a) * unit() == x * (a * unit())) by (nonlinear_arith);
        }
        if t % 2 == 1 {
            proof {
                lemma_pow2_unfold(t as nat);
                let h = pow2((t - 1) as nat);
                assert(x * (2 * h) == (2 * x) * h) by (nonlinear_arith);
            }
            x = 2 * x;
            t -= 1;
        }
        let ghost last = t;
        proof {
            vstd::arithmetic::power2::lemma2_to64();
        }
        while x < 0x400_0000_0000_0000_0000_0000_0000
            invariant
                0 < x < 0x1000_0000_0000_0000_0000_0000_0000,
                x >= 0x400_0000_0000_0000_0000_0000_0000 ==> x % 2 == 0,
                t % 2 == 0,
                1073 <= last <= 3120,
                t <= last <= t + 108,
                x >= pow2((last - t) as nat),
                big == x * pow2(t as nat),
            decreases t,
        {
            proof {
                vstd::arithmetic::power2::lemma2_to64_rest();
                if last - t >= 107 {
                    lemma_pow2_adds(53, 53);
                    lemma_pow2_strictly_increases(106, (last - t) as nat);
                    assert(0x20_0000_0000_0000 * 0x20_0000_0000_0000
                        == 0x400_0000_0000_0000_0000_0000_0000);
                }
                lemma_pow2_unfold((last - t + 1) as nat);
                lemma_pow2_unfold((last - t + 2) as nat);
                lemma_pow2_unfold(t as nat);
                lemma_pow2_unfold((t - 1) as nat);
                let g = pow2((t - 2) as nat);
                assert(x * (2 * (2 * g)) == (4 * x) * g) by (nonlinear_arith);
            }
            x = 4 * x;
            t -= 2;
        }
        let s: u64 = integer_sqrt(x);
        let j: u32 = t / 2;
        proof {
            lemma_isqrt_bracket(x as nat);
            let w = s as nat;
            assert(0x20_0000_0000_0000 <= w < 0x40_0000_0000_0000) by (nonlinear_arith)
                requires
                    w * w <= x,
                    x < (w + 1) * (w + 1),
                    0x400_0000_0000_0000_0000_0000_0000 <= x,
                    x < 0x1000_0000_0000_0000_0000_0000_0000,
            ;
            lemma_root(self@, x as nat, j as nat, w);
        }
        finished((s + 1) / 2, j + 1)
    }
}

/// The number that the bits of a double stand for.
pub open spec fn of_pattern(bits: nat) -> nat {
    if bits < TOP {
        bits
    } else {
        (0x10_0000_0000_0000 + bits % 0x10_0000_0000_0000) * pow2(
            (bits / 0x10_0000_0000_0000 - 1) as nat,
        )
    }
}

/// A double to the nearest whole number, away from zero in the middle of two.
pub open spec fn whole_part(n: nat) -> nat {
    (2 * n + unit()) / (2 * unit())
}

/// A double to single precision.
pub open spec fn single(n: nat) -> nat {
    let r = significant(n, 1, SINGLE_TOP as nat);
    if r < infinite() {
        r
    } else {
        infinite()
    }
}

/// Two to the power of `k`.
fn power_of_two(k: u32) -> (r: u128)
    requires
        k <= 120,
    ensures
        r == pow2(k as nat),
        0 < r <= 0x100_0000_0000_0000_0000_0000_0000_0000,
{
    let mut r: u128 = 1;
    let mut i: u32 = 0;
    proof {
        vstd::arithmetic::power2::lemma2_to64();
    }
    while i < k
        invariant
            i <= k <= 120,
            r == pow2(i as nat),
            0 < r <= 0x100_0000_0000_0000_0000_0000_0000_0000,
        decreases k - i,
    {
        proof {
            lemma_pow2_unfold((i + 1) as nat);
            lemma_power_bound((i + 1) as nat);
        }
        r = 2 * r;
        i += 1;
    }
    r
}

proof fn lemma_power_bound(k: nat)
    ensures
        k <= 120 ==> pow2(k) <= 0x100_0000_0000_0000_0000_0000_0000_0000,
        k >= 120 ==> pow2(k) >= 0x100_0000_0000_0000_0000_0000_0000_0000,
{
    vstd::arithmetic::power2::lemma2_to64_rest();
    lemma_pow2_adds(60, 60);
    assert(0x1000_0000_0000_0000 * 0x1000_0000_0000_0000
        == 0x100_0000_0000_0000_0000_0000_0000_0000);
    if k < 120 {
        lemma_pow2_strictly_increases(k, 120);
    } else if k > 120 {
        lemma_pow2_strictly_increases(120, k);
    }
}

/// One is its power of two times the rest.
proof fn lemma_unit_splits(e: nat)
    requires
        e <= 1074,
    ensures
        unit() == pow2(e) * pow2((1074 - e) as nat),
        pow2(e) > 0,
        pow2((1074 - e) as nat) > 0,
{
    lemma_pow2_adds(e, (1074 - e) as nat);
    lemma_pow2_pos(e);
    lemma_pow2_pos((1074 - e) as nat);
}

impl Double {
    /// The double that a bit pattern stands for; the patterns of negative
    /// numbers and of what is no number are left out.
    pub fn of_bits(bits: u64) -> (r: Double)
        requires
            bits <= 0x7ff0_0000_0000_0000,
        ensures
            r@ == of_pattern(bits as nat),
    {
        proof {
            vstd::arithmetic::power2::lemma2_to64();
            assert(bits * 1 == bits);
        }
        if bits < TOP {
            return Double { mantissa: bits, exponent: 0 };
        }
        let exponent: u32 = (bits / 0x10_0000_0000_0000 - 1) as u32;
        Double { mantissa: 0x10_0000_0000_0000 + bits % 0x10_0000_0000_0000, exponent }
    }

    /// The bit pattern of this double.
    pub fn to_bits(self) -> (r: u64)
        ensures
            r <= 0x7ff0_0000_0000_0000,
            self@ == of_pattern(r as nat),
    {
        proof {
            use_type_invariant(self);
            vstd::arithmetic::power2::lemma2_to64();
            assert(self.mantissa * 1 == self.mantissa);
        }
        self.mantissa + self.exponent as u64 * 0x10_0000_0000_0000
    }

    /// This double times `factor`, to the nearest whole number, the even one in
    /// the middle of two; nothing from 2^53 on.
    pub fn scaled(self, factor: u64) -> (r: Option<u128>)
        ensures
            match r {
                Some(q) => q == nearest(self@ * factor as nat, unit()) && q <= TOP * factor && self@
                    < TOP * unit(),
                None => self@ >= TOP * unit(),
            },
    {
        proof {
            use_type_invariant(self);
        }
        let ghost (m, e) = (self.mantissa as nat, self.exponent as nat);
        let ghost p = pow2(e);
        proof {
            assert(m * factor < 0x20_0000_0000_0000 * 0x1_0000_0000_0000_0000) by (nonlinear_arith)
                requires
                    m < 0x20_0000_0000_0000,
                    factor < 0x1_0000_0000_0000_0000,
            ;
            assert((m * p) * factor == (m * factor) * p) by (nonlinear_arith);
            assert(m * factor <= TOP * factor) by (nonlinear_arith)
                requires
                    m <= TOP,
            ;
            lemma_pow2_pos(1074);
        }
        let product: u128 = self.mantissa as u128 * factor as u128;
        if self.exponent > 1074 {
            proof {
                lemma_pow2_adds(1074, (e - 1074) as nat);
                let h = pow2((e - 1074) as nat);
                lemma_pow2_unfold((e - 1074) as nat);
                lemma_pow2_pos((e - 1075) as nat);
                lemma_pow2_pos(1074);
                assert(m * p == (m * h) * unit()) by (nonlinear_arith)
                    requires
                        p == unit() * h,
                ;
                assert(m * h >= TOP) by (nonlinear_arith)
                    requires
                        m >= 0x10_0000_0000_0000,
                        h >= 2,
                        TOP == 0x20_0000_0000_0000,
                ;
                let w = m * h;
                assert(w * unit() >= TOP * unit()) by (nonlinear_arith)
                    requires
                        w >= TOP,
                ;
            }
            return None;
        }
        let shift: u32 = 1074 - self.exponent;
        let ghost g = pow2(shift as nat);
        proof {
            if e < 1074 {
                lemma_exponents(m, e, TOP as nat, 1074);
            } else {
                lemma_mantissas(m, TOP as nat, 1074);
            }
            lemma_unit_splits(e);
            let a = product as nat;
            assert((a * p) * g == a * unit()) by (nonlinear_arith)
                requires
                    unit() == p * g,
            ;
            assert(a * unit() == (a * p) * g);
            lemma_nearest_same(a, g, a * p, unit());
        }
        if shift >= 120 {
            proof {
                lemma_power_bound(shift as nat);
                assert((2 * 0 + 1) * g == g) by (nonlinear_arith);
                assert((2 * 0 - 1) * g == -g) by (nonlinear_arith);
                assert(product < 0x20_0000_0000_0000_0000_0000_0000_0000);
                lemma_nearest_unique(product as nat, g, 0);
            }
            return Some(0);
        }
        let by: u128 = power_of_two(shift);
        let q: u128 = product / by;
        let left: u128 = product % by;
        proof {
            assert(q <= product && (product == 0 ==> left == 0)) by (nonlinear_arith)
                requires
                    q == product / by,
                    left == product % by,
                    by > 0,
                    product >= 0,
            ;
            assert(by > 1 ==> q < product || product == 0) by (nonlinear_arith)
                requires
                    q == product / by,
                    by > 0,
                    product >= 0,
            ;
        }
        if left > by - left || left == by - left && q % 2 == 1 {
            proof {
                assert(by > 1);
                assert(product > 0);
            }
            Some(q + 1)
        } else {
            Some(q)
        }
    }

    /// The mantissa of a large double, and how often it is doubled.
    pub fn large_parts(self) -> (r: (u64, u32))
        requires
            self@ >= TOP * unit(),
        ensures
            self@ == (r.0 as nat * pow2(r.1 as nat)) * unit(),
            r.1 <= 1000,
    {
        proof {
            use_type_invariant(self);
            let (m, e) = (self.mantissa as nat, self.exponent as nat);
            if e < 1074 {
                lemma_exponents(m, e, 0x20_0000_0000_0000, 1074);
            } else {
                lemma_pow2_adds(1074, (e - 1074) as nat);
                let h = pow2((e - 1074) as nat);
                assert(m * (unit() * h) == (m * h) * unit()) by (nonlinear_arith);
            }
        }
        (self.mantissa, self.exponent - 1074)
    }

    /// This double to the nearest whole number, away from zero in the middle of
    /// two, or the largest there is room for.
    pub fn to_whole(self) -> (r: u64)
        ensures
            r == (if whole_part(self@) <= u64::MAX {
                whole_part(self@)
            } else {
                u64::MAX as nat
            }),
    {
        proof {
            use_type_invariant(self);
        }
        let ghost (m, e) = (self.mantissa as nat, self.exponent as nat);
        let ghost p = pow2(e);
        if self.exponent >= 1074 {
            let up: u32 = self.exponent - 1074;
            let ghost h = pow2(up as nat);
            proof {
                lemma_pow2_adds(1074, up as nat);
                lemma_pow2_pos(1074);
                lemma_pow2_pos(up as nat);
                let w = m * h;
                let u = unit();
                assert(m * p == w * u) by (nonlinear_arith)
                    requires
                        p == u * h,
                        w == m * h,
                ;
                assert(2 * (w * u) + u == w * (2 * u) + u) by (nonlinear_arith);
                vstd::arithmetic::div_mod::lemma_fundamental_div_mod_converse(
                    (2 * (w * u) + u) as int,
                    (2 * u) as int,
                    w as int,
                    u as int,
                );
                if up > 11 {
                    vstd::arithmetic::power2::lemma2_to64();
                    if up > 12 {
                        lemma_pow2_strictly_increases(12, up as nat);
                    }
                    assert(w >= 0x10_0000_0000_0000 * 0x1000) by (nonlinear_arith)
                        requires
                            w == m * h,
                            m >= 0x10_0000_0000_0000,
                            h >= 0x1000,
                    ;
                }
            }
            if up > 11 {
                return u64::MAX;
            }
            proof {
                vstd::arithmetic::power2::lemma2_to64();
                if up < 11 {
                    lemma_pow2_strictly_increases(up as nat, 11);
                }
                assert(m * h <= 0xffff_ffff_ffff_ffff) by (nonlinear_arith)
                    requires
                        m < 0x20_0000_0000_0000,
                        h <= 0x800,
                ;
            }
            return raised(self.mantissa as u128, up) as u64;
        }
        let shift: u32 = 1074 - self.exponent;
        let ghost g = pow2(shift as nat);
        proof {
            lemma_unit_splits(e);
            let u = unit();
            assert(2 * (m * p) + u == p * (2 * m + g) && 2 * u == p * (2 * g)) by (nonlinear_arith)
                requires
                    u == p * g,
            ;
            vstd::arithmetic::div_mod::lemma_div_multiples_vanish_quotient(
                p as int,
                (2 * m + g) as int,
                (2 * g) as int,
            );
        }
        if shift >= 120 {
            proof {
                lemma_power_bound(shift as nat);
                assert((2 * m + g) / (2 * g) == 0) by (nonlinear_arith)
                    requires
                        2 * m < g,
                        m >= 0,
                ;
            }
            return 0;
        }
        let by: u128 = power_of_two(shift);
        let r: u128 = (2 * self.mantissa as u128 + by) / (2 * by);
        proof {
            assert(r <= 2 * m + 1) by (nonlinear_arith)
                requires
                    r == (2 * m + by) / (2 * by),
                    by > 0,
                    m >= 0,
            ;
        }
        r as u64
    }
}

/// A whole number other than zero stays above zero.
pub proof fn whole_is_positive(n: nat)
    requires
        n > 0,
    ensures
        whole(n) >= unit(),
        whole(n) > 0,
{
    lemma_pow2_pos(1074);
    assert(n * unit() >= 1 * unit()) by (nonlinear_arith)
        requires
            n >= 1,
    ;
    lemma_pow2_strictly_increases(1074, 2098);
    doubles_are_exact(1, 1074);
    assert(1 * pow2(1074) == pow2(1074));
    doubles_keep_the_order(1 * unit(), n * unit(), 1);
}

/// Nothing over something is nothing.
pub proof fn nothing_over(n: nat)
    requires
        n > 0,
    ensures
        over(0, n) == 0,
{
    assert(0 * unit() == 0);
    reveal_with_fuel(significant, 2);
    assert(n * TOP > 0) by (nonlinear_arith)
        requires
            n > 0,
            TOP == 0x20_0000_0000_0000,
    ;
    assert((2 * 0 + 1) * n == n) by (nonlinear_arith);
    assert((2 * 0 - 1) * n == -n) by (nonlinear_arith);
    lemma_nearest_unique(0, n, 0);
    lemma_pow2_pos(2098);
}

/// The sum of doubles over their number.
pub fn mean(v: &Vec<Double>) -> (r: Double)
    ensures
        r@ == average(views(v@)),
{
    if v.len() == 0 {
        return Double::zero();
    }
    let mut sum = Double::zero();
    let mut i: usize = 0;
    let ghost all = views(v@);
    assert(all.take(0).len() == 0);
    while i < v.len()
        invariant
            i <= v@.len(),
            all == views(v@),
            sum@ == total(all.take(i as int)),
        decreases v@.len() - i,
    {
        proof {
            let t = all.take(i + 1);
            assert(t.drop_last() =~= all.take(i as int));
            assert(t.last() == v@[i as int]@);
        }
        sum = sum.plus(v[i]);
        i += 1;
    }
    assert(all.take(i as int) =~= all);
    proof {
        whole_is_positive(v@.len());
    }
    sum.over(Double::of(v.len() as u64))
}

/// What doubles are.
pub open spec fn views(v: Seq<Double>) -> Seq<nat> {
    v.map_values(|x: Double| x@)
}

/// Something over itself is one.
pub proof fn itself_over(n: nat)
    requires
        n > 0,
    ensures
        over(n, n) == unit(),
{
    lemma_pow2_pos(1074);
    vstd::arithmetic::power2::lemma2_to64_rest();
    lemma_pow2_adds(52, 1022);
    lemma_pow2_adds(1, 1021);
    lemma_pow2_unfold(1022);
    let h = pow2(1021);
    let p = pow2(1022);
    let u = unit();
    assert(u == 0x10_0000_0000_0000 * p);
    lemma_pow2_pos(1022);
    assert(n * u < n * p * TOP && n * u >= n * h * TOP) by (nonlinear_arith)
        requires
            u == 0x10_0000_0000_0000 * p,
            p == 2 * h,
            TOP == 0x20_0000_0000_0000,
            n > 0,
            p > 0,
    ;
    lemma_significant(n * u, n, TOP as nat, 1022);
    let d = n * p;
    assert(d > 0) by (nonlinear_arith)
        requires
            d == n * p,
            n > 0,
            p > 0,
    ;
    assert(n * u == 0x10_0000_0000_0000 * d) by (nonlinear_arith)
        requires
            u == 0x10_0000_0000_0000 * p,
            d == n * p,
    ;
    lemma_nearest_exact(0x10_0000_0000_0000, d);
    lemma_pow2_strictly_increases(1074, 2098);
}

impl Double {
    /// A number of at most 53 bits, doubled `k` times.
    pub fn of_power(m: u64, k: u32) -> (r: Double)
        requires
            m <= TOP,
            k <= 2000,
        ensures
            r@ == m * pow2(k as nat),
    {
        proof {
            vstd::arithmetic::power2::lemma2_to64_rest();
            vstd::arithmetic::power2::lemma2_to64();
            lemma_pow2_adds(53, k as nat);
            lemma_pow2_strictly_increases(53 + k as nat, 2098);
            let p = pow2(k as nat);
            assert(m * p <= TOP * p) by (nonlinear_arith)
                requires
                    m <= TOP,
            ;
            doubles_are_exact(m as nat, k as nat);
        }
        settle(m as u128, 1, k, 0)
    }
}

/// Rounding goes by the quotient alone.
pub proof fn lemma_same_quotient(num: nat, den: nat, c: nat, top: nat)
    requires
        den > 0,
        c > 0,
        top >= 2,
    ensures
        significant(num * c, den * c, top) == significant(num, den, top),
    decreases num - den,
{
    reveal_with_fuel(significant, 2);
    assert(den * c > 0) by (nonlinear_arith)
        requires
            den > 0,
            c > 0,
    ;
    assert((num * c < (den * c) * top) == (num < den * top)) by (nonlinear_arith)
        requires
            c > 0,
    {
        assert((den * c) * top == (den * top) * c);
        if num < den * top {
            assert(num * c < (den * top) * c);
        } else {
            assert(num * c >= (den * top) * c);
        }
    }
    if num < den * top {
        assert((num * c) * den == num * (den * c)) by (nonlinear_arith);
        lemma_nearest_same(num * c, den * c, num, den);
    } else {
        assert(num >= 2 * den) by (nonlinear_arith)
            requires
                num >= den * top,
                top >= 2,
                den > 0,
        ;
        assert((2 * den) * c == 2 * (den * c)) by (nonlinear_arith);
        lemma_same_quotient(num, 2 * den, c, top);
    }
}

/// A smaller ratio gives no larger double.
pub proof fn ratios_keep_the_order(a: nat, b: nat, c: nat, d: nat)
    requires
        b > 0,
        d > 0,
        a * d <= c * b,
    ensures
        ratio(a, b) <= ratio(c, d),
{
    let u = unit();
    lemma_same_quotient(a * u, b, d, TOP as nat);
    lemma_same_quotient(c * u, d, b, TOP as nat);
    assert((a * u) * d == (a * d) * u && (c * u) * b == (c * b) * u && b * d == d * b)
        by (nonlinear_arith);
    assert((a * d) * u <= (c * b) * u) by (nonlinear_arith)
        requires
            a * d <= c * b,
    ;
    assert(b * d > 0) by (nonlinear_arith)
        requires
            b > 0,
            d > 0,
    ;
    doubles_keep_the_order((a * d) * u, (c * b) * u, b * d);
}

/// A few ratios that are doubles themselves.
pub proof fn exact_halves()
    ensures
        0 < ratio(1, 16),
        ratio(1, 4) < ratio(3, 8),
        ratio(1, 2) < ratio(3, 4),
        double(ratio(3, 4), 1) == ratio(3, 4),
{
    vstd::arithmetic::power2::lemma2_to64();
    lemma_pow2_adds(4, 1070);
    lemma_pow2_pos(1070);
    lemma_pow2_strictly_increases(1074, 2098);
    let p = pow2(1070);
    let u = unit();
    assert(u == 16 * p);
    lemma_same_quotient(p, 1, 16, TOP as nat);
    assert(1 * u == p * 16);
    doubles_are_exact(1, 1070);
    lemma_same_quotient(4 * p, 1, 4, TOP as nat);
    assert(1 * u == (4 * p) * 4);
    doubles_are_exact(4, 1070);
    lemma_same_quotient(6 * p, 1, 8, TOP as nat);
    assert(3 * u == (6 * p) * 8);
    doubles_are_exact(6, 1070);
    lemma_same_quotient(8 * p, 1, 2, TOP as nat);
    assert(1 * u == (8 * p) * 2);
    doubles_are_exact(8, 1070);
    lemma_same_quotient(12 * p, 1, 4, TOP as nat);
    assert(3 * u == (12 * p) * 4);
    doubles_are_exact(12, 1070);
}

impl Double {
    /// This double to single precision.
    pub fn single(self) -> (r: Double)
        ensures
            r@ == single(self@),
    {
        proof {
            use_type_invariant(self);
            vstd::arithmetic::power2::lemma2_to64();
        }
        let ghost (m, e) = (self.mantissa as nat, self.exponent as nat);
        let mut unit_bits: u32 = 0;
        let mut size: u64 = 1;
        while self.mantissa / size >= SINGLE_TOP
            invariant
                m == self.mantissa,
                m < TOP,
                unit_bits <= 29,
                size == pow2(unit_bits as nat),
                0 < size <= 0x2000_0000,
                unit_bits > 0 ==> m >= size * 0x80_0000,
            decreases 29 - unit_bits,
        {
            proof {
                lemma_pow2_unfold((unit_bits + 1) as nat);
                vstd::arithmetic::power2::lemma2_to64();
                assert(m >= size * SINGLE_TOP) by (nonlinear_arith)
                    requires
                        m as int / size as int >= SINGLE_TOP,
                        size > 0,
                ;
                if unit_bits + 1 < 29 {
                    lemma_pow2_strictly_increases((unit_bits + 1) as nat, 29);
                }
            }
            size = 2 * size;
            unit_bits += 1;
        }
        proof {
            assert(m < size * SINGLE_TOP) by (nonlinear_arith)
                requires
                    m as int / (size as int) < SINGLE_TOP,
                    size > 0,
            ;
        }
        let q: u64 = self.mantissa / size;
        let left: u64 = self.mantissa % size;
        let near: u64 = if left > size - left || left == size - left && q % 2 == 1 {
            q + 1
        } else {
            q
        };
        assert(near == nearest(m, size as nat));
        proof {
            let k = unit_bits as nat;
            let p = pow2(e);
            let g = size as nat;
            lemma_pow2_pos(e);
            lemma_pow2_adds(k, e);
            let n = m * p;
            assert(n < 1 * (g * p) * SINGLE_TOP) by (nonlinear_arith)
                requires
                    n == m * p,
                    m < g * SINGLE_TOP,
                    p > 0,
            ;
            if k + e > 0 {
                if k == 0 {
                    assert(m >= 0x10_0000_0000_0000);
                    assert(false);
                }
                lemma_pow2_unfold(k + e);
                let h = pow2((k + e - 1) as nat);
                assert(n >= 1 * h * SINGLE_TOP) by (nonlinear_arith)
                    requires
                        n == m * p,
                        m >= g * 0x80_0000,
                        g * p == 2 * h,
                        SINGLE_TOP == 0x100_0000,
                        p > 0,
                {
                    assert(m * p >= (g * 0x80_0000) * p);
                    assert((g * 0x80_0000) * p == (g * p) * 0x80_0000);
                }
            }
            lemma_significant(n, 1, SINGLE_TOP as nat, k + e);
            assert(1 * (g * p) == g * p);
            assert(m * (g * p) == n * g) by (nonlinear_arith)
                requires
                    n == m * p,
            ;
            assert(g * p > 0) by (nonlinear_arith)
                requires
                    g > 0,
                    p > 0,
            ;
            lemma_nearest_same(m, g, n, g * p);
            assert(near * (g * p) == (near * g) * p) by (nonlinear_arith);
            lemma_nearest(m, g);
            assert(near <= SINGLE_TOP && (k > 0 ==> near >= 0x80_0000)) by {
                lemma_nearest_monotone(m, SINGLE_TOP as nat * g, g);
                lemma_nearest_exact(SINGLE_TOP as nat, g);
                if k > 0 {
                    lemma_nearest_monotone(0x80_0000 * g, m, g);
                    lemma_nearest_exact(0x80_0000, g);
                }
            }
            assert(near * g <= TOP) by (nonlinear_arith)
                requires
                    near <= 0x100_0000,
                    g <= 0x2000_0000,
                    TOP == 0x20_0000_0000_0000,
            ;
            if e > 0 {
                vstd::arithmetic::power2::lemma2_to64();
                if k < 28 {
                    lemma_pow2_strictly_increases(k, 28);
                }
                assert(near * g >= 0x80_0000 * 0x2000_0000) by (nonlinear_arith)
                    requires
                        near >= 0x80_0000,
                        g >= 0x2000_0000,
                ;
            }
        }
        finished(near * size, self.exponent)
    }
}

/// Small whole numbers are doubles.
pub proof fn small_is_whole(n: nat)
    requires
        n <= TOP,
    ensures
        whole(n) == n * unit(),
{
    vstd::arithmetic::power2::lemma2_to64_rest();
    lemma_pow2_adds(53, 1074);
    lemma_pow2_strictly_increases(53 + 1074, 2098);
    assert(n * unit() <= TOP * unit()) by (nonlinear_arith)
        requires
            n <= TOP,
    ;
    doubles_are_exact(n, 1074);
}

/// One is how many units are in one.
pub proof fn one_is_whole()
    ensures
        whole(1) == unit(),
{
    small_is_whole(1);
    assert(1 * unit() == unit());
}

/// Zero is zero.
pub proof fn nothing_is_whole()
    ensures
        whole(0) == 0,
{
    small_is_whole(0);
    assert(0 * unit() == 0);
}

/// Nothing times something is nothing.
pub proof fn nothing_times(n: nat)
    ensures
        times(0, n) == 0,
{
    lemma_pow2_pos(1074);
    nothing_over(unit());
    assert(0 * n == 0 && 0 * unit() == 0);
}

/// A small whole number, times one, is its own nearest whole number.
pub proof fn one_times(n: nat)
    requires
        n <= TOP,
    ensures
        whole_part(times(unit(), whole(n))) == n,
{
    let u = unit();
    small_is_whole(n);
    lemma_pow2_pos(1074);
    let m = n * u;
    lemma_same_quotient(m, 1, u, TOP as nat);
    assert(u * m == m * u) by (nonlinear_arith);
    assert(1 * u == u);
    small_is_whole(n);
    assert(times(u, m) == m);
    assert(2 * m + u == n * (2 * u) + u) by (nonlinear_arith)
        requires
            m == n * u,
    ;
    vstd::arithmetic::div_mod::lemma_fundamental_div_mod_converse(
        (2 * m + u) as int,
        (2 * u) as int,
        n as int,
        u as int,
    );
}

/// A whole number of units does not vanish.
pub proof fn units_do_not_vanish(n: nat)
    requires
        n > 0,
    ensures
        double(n, 1) > 0,
{
    vstd::arithmetic::power2::lemma2_to64();
    lemma_pow2_pos(2098);
    doubles_are_exact(1, 0);
    assert(1 * pow2(0) == 1);
    doubles_keep_the_order(1, n, 1);
}

impl Double {
    /// The whole number below this double, or the largest there is room for.
    pub fn to_floor(self) -> (r: u64)
        ensures
            r == (if self@ / unit() <= u64::MAX {
                self@ / unit()
            } else {
                u64::MAX as nat
            }),
    {
        proof {
            use_type_invariant(self);
            lemma_pow2_pos(1074);
        }
        let ghost (m, e) = (self.mantissa as nat, self.exponent as nat);
        let ghost p = pow2(e);
        if self.exponent >= 1074 {
            let up: u32 = self.exponent - 1074;
            let ghost h = pow2(up as nat);
            proof {
                lemma_pow2_adds(1074, up as nat);
                let w = m * h;
                let u = unit();
                assert(m * p == w * u) by (nonlinear_arith)
                    requires
                        p == u * h,
                        w == m * h,
                ;
                vstd::arithmetic::div_mod::lemma_div_multiples_vanish(w as int, u as int);
                assert(u * w == w * u) by (nonlinear_arith);
                vstd::arithmetic::power2::lemma2_to64();
                if up > 12 {
                    lemma_pow2_strictly_increases(12, up as nat);
                }
                if up > 11 {
                    assert(w >= 0x10_0000_0000_0000 * 0x1000) by (nonlinear_arith)
                        requires
                            w == m * h,
                            m >= 0x10_0000_0000_0000,
                            h >= 0x1000,
                    ;
                }
                if up < 11 {
                    lemma_pow2_strictly_increases(up as nat, 11);
                }
                if up <= 11 {
                    assert(m * h <= 0xffff_ffff_ffff_ffff) by (nonlinear_arith)
                        requires
                            m < 0x20_0000_0000_0000,
                            h <= 0x800,
                    ;
                }
            }
            if up > 11 {
                return u64::MAX;
            }
            return raised(self.mantissa as u128, up) as u64;
        }
        let shift: u32 = 1074 - self.exponent;
        let ghost g = pow2(shift as nat);
        proof {
            lemma_unit_splits(e);
            assert(m * p == p * m) by (nonlinear_arith);
            vstd::arithmetic::div_mod::lemma_div_multiples_vanish_quotient(
                p as int,
                m as int,
                g as int,
            );
        }
        if shift >= 120 {
            proof {
                lemma_power_bound(shift as nat);
                vstd::arithmetic::div_mod::lemma_basic_div(m as int, g as int);
            }
            return 0;
        }
        let by: u128 = power_of_two(shift);
        let r: u128 = self.mantissa as u128 / by;
        proof {
            assert(r <= m) by (nonlinear_arith)
                requires
                    r == m as int / by as int,
                    by > 0,
                    m >= 0,
            ;
        }
        r as u64
    }
}

/// How far rounding moves a quotient.
pub proof fn lemma_rounding_error(num: nat, den: nat, k: nat)
    requires
        den > 0,
        num < den * pow2(k) * TOP,
    ensures
        significant(num, den, TOP as nat) * den <= num + den * pow2(k),
        num <= significant(num, den, TOP as nat) * den + den * pow2(k),
    decreases k,
{
    reveal_with_fuel(significant, 2);
    lemma_pow2_pos(k);
    let p = pow2(k);
    if num < den * TOP {
        lemma_nearest(num, den);
        let q = nearest(num, den);
        assert((2 * q + 1) * den == 2 * (q * den) + den) by (nonlinear_arith);
        assert((2 * q - 1) * den == 2 * (q * den) - den) by (nonlinear_arith);
        assert(den * p >= den) by (nonlinear_arith)
            requires
                p >= 1,
                den > 0,
        ;
    } else {
        if k == 0 {
            vstd::arithmetic::power2::lemma2_to64();
            assert(den * 1 == den);
        }
        lemma_pow2_unfold(k);
        let h = pow2((k - 1) as nat);
        assert((2 * den) * h == den * p) by (nonlinear_arith)
            requires
                p == 2 * h,
        ;
        lemma_rounding_error(num, 2 * den, (k - 1) as nat);
        let s = significant(num, 2 * den, TOP as nat);
        assert((2 * s) * den == s * (2 * den)) by (nonlinear_arith);
    }
}

/// Rounding moves a number of at most 2^18 by no more than 2^-33.
pub proof fn rounding_moves_little(n: nat)
    requires
        n <= 0x4_0000 * unit(),
    ensures
        double(n, 1) <= n + pow2(1041),
        n <= double(n, 1) + pow2(1041),
{
    vstd::arithmetic::power2::lemma2_to64();
    vstd::arithmetic::power2::lemma2_to64_rest();
    lemma_pow2_adds(18, 1074);
    lemma_pow2_adds(53, 1041);
    lemma_pow2_strictly_increases(18 + 1074, 53 + 1041);
    let k = pow2(1041);
    assert(1 * k * TOP == 0x20_0000_0000_0000 * k);
    lemma_rounding_error(n, 1, 1041);
    let s = significant(n, 1, TOP as nat);
    assert(s * 1 == s && 1 * k == k);
    lemma_pow2_strictly_increases(53 + 1041, 2097);
    lemma_pow2_strictly_increases(1041, 2097);
    lemma_pow2_unfold(2098);
}

/// One holds many of the steps by which rounding moves a small number.
pub proof fn steps_are_small()
    ensures
        0x2_0000 * pow2(1041) <= unit(),
        pow2(1041) > 0,
{
    vstd::arithmetic::power2::lemma2_to64();
    lemma_pow2_adds(17, 1041);
    lemma_pow2_strictly_increases(17 + 1041, 1074);
    lemma_pow2_pos(1041);
}

/// Half of a double is half of it, but for half a unit.
pub proof fn halves_are_halves(num: nat, den: nat)
    requires
        den > 0,
    ensures
        ({
            let x = double(num, den);
            let h = times(ratio(1, 2), x);
            x < infinite() ==> 2 * h <= x + 1 && x <= 2 * h + 1
        }),
{
    let x = double(num, den);
    let u = unit();
    let v = pow2(1073);
    lemma_pow2_unfold(1074);
    lemma_pow2_pos(1073);
    lemma_pow2_strictly_increases(1073, 2098);
    lemma_same_quotient(v, 1, 2, TOP as nat);
    doubles_are_exact(1, 1073);
    assert(1 * v == v && 1 * u == v * 2 && 1 * 2 == 2);
    assert(ratio(1, 2) == v);
    lemma_same_quotient(x, 2, v, TOP as nat);
    assert(v * x == x * v) by (nonlinear_arith);
    assert(2 * v == u);
    let h = times(v, x);
    assert(h == double(x, 2));
    if x < infinite() {
        let (m, k) = lemma_shape(num, den, 0x10_0000_0000_0000);
        vstd::arithmetic::power2::lemma2_to64();
        if k > 0 {
            lemma_pow2_unfold(k);
            let half = m * pow2((k - 1) as nat);
            assert(x == half * 2) by (nonlinear_arith)
                requires
                    x == m * pow2(k),
                    pow2(k) == 2 * pow2((k - 1) as nat),
                    half == m * pow2((k - 1) as nat),
            ;
            lemma_same_quotient(half, 1, 2, TOP as nat);
            doubles_are_exact(m, (k - 1) as nat);
        } else {
            assert(x == m) by (nonlinear_arith)
                requires
                    x == m * pow2(k),
                    pow2(k) == 1,
            ;
            reveal_with_fuel(significant, 2);
            lemma_nearest(x, 2);
            lemma_pow2_strictly_increases(64, 2098);
        }
    }
}

/// A double stays as it is.
pub proof fn doubles_stay(num: nat, den: nat)
    requires
        den > 0,
    ensures
        double(double(num, den), 1) == double(num, den),
{
    let (m, k) = lemma_shape(num, den, 0x10_0000_0000_0000);
    if m * pow2(k) <= infinite() {
        doubles_are_exact(m, k);
    }
    doubles_are_exact(1, 2098);
    assert(1 * pow2(2098) == pow2(2098));
}

/// Rounding raises a quotient that is not small by less than one part in `top`.
proof fn lemma_raised(num: nat, den: nat, top: nat)
    requires
        den > 0,
        top >= 2,
        2 * num >= den * top,
    ensures
        significant(num, den, top) * den * top <= num * (top + 1),
    decreases num - den,
{
    reveal_with_fuel(significant, 2);
    if num < den * top {
        lemma_nearest(num, den);
        let q = nearest(num, den);
        assert((2 * q - 1) * den == 2 * (q * den) - den) by (nonlinear_arith);
        assert(2 * (q * den * top) <= 2 * (num * top) + den * top) by (nonlinear_arith)
            requires
                2 * (q * den) <= 2 * num + den,
                top >= 2,
        ;
        assert(num * (top + 1) == num * top + num) by (nonlinear_arith);
    } else {
        assert(num >= 2 * den && 2 * num >= (2 * den) * top) by (nonlinear_arith)
            requires
                num >= den * top,
                top >= 2,
        ;
        lemma_raised(num, 2 * den, top);
        let s = significant(num, 2 * den, top);
        assert((2 * s) * den * top == s * (2 * den) * top) by (nonlinear_arith);
    }
}

/// A millionth is large among the doubles, and one twentieth of a number that is
/// no smaller than that is less than a sixth of it.
pub proof fn twentieths_are_small(g: nat)
    requires
        single(ratio(1, 1_000_000)) <= g,
    ensures
        6 * single(times(g, single(ratio(5, 100)))) < g,
        single(ratio(5, 100)) <= single(unit()),
{
    vstd::arithmetic::power2::lemma2_to64();
    vstd::arithmetic::power2::lemma2_to64_rest();
    lemma_pow2_adds(3, 1071);
    lemma_pow2_adds(20, 1054);
    lemma_pow2_strictly_increases(1054, 2098);
    lemma_pow2_strictly_increases(1071, 2098);
    lemma_pow2_strictly_increases(1074, 2098);
    lemma_pow2_strictly_increases(64, 1054);
    let u = unit();
    let q = pow2(1071);
    let m = pow2(1054);
    assert(u == 8 * q && u == 0x10_0000 * m);
    // A millionth lies above two to the minus twentieth.
    assert(m * 1_000_000 <= 1 * u);
    lemma_same_quotient(m, 1, 1_000_000, TOP as nat);
    doubles_keep_the_order(m * 1_000_000, 1 * u, 1_000_000);
    doubles_are_exact(1, 1054);
    assert(1 * m == m && 1 * 1_000_000 == 1_000_000);
    assert(m <= ratio(1, 1_000_000));
    lemma_kept(1, 1054, 0x80_0000);
    singles_keep_the_order(m, ratio(1, 1_000_000));
    assert(m <= g);
    // One twentieth lies below one eighth, and below one.
    lemma_same_quotient(q, 1, 100, TOP as nat);
    doubles_keep_the_order(5 * u, q * 100, 100);
    doubles_are_exact(1, 1071);
    assert(1 * q == q && 1 * 100 == 100);
    assert(ratio(5, 100) <= q);
    lemma_kept(1, 1071, 0x80_0000);
    singles_keep_the_order(ratio(5, 100), q);
    singles_keep_the_order(ratio(5, 100), u);
    let w = single(ratio(5, 100));
    assert(w <= q);
    // So a twentieth of `g` is at most its eighth, but for what rounding adds.
    assert(g * w <= g * q) by (nonlinear_arith)
        requires
            w <= q,
    ;
    doubles_keep_the_order(g * w, g * q, u);
    lemma_same_quotient(g, 8, q, TOP as nat);
    let e = significant(g, 8, TOP as nat);
    assert(times(g, w) <= e);
    lemma_raised(g, 8, TOP as nat);
    assert(7 * e <= g) by (nonlinear_arith)
        requires
            e * 8 * 0x20_0000_0000_0000 <= g * (0x20_0000_0000_0000 + 1),
    ;
    lemma_significant_monotone(times(g, w), e, 1, 0x80_0000);
    let z = significant(e, 1, SINGLE_TOP as nat);
    if 2 * e >= SINGLE_TOP {
        lemma_raised(e, 1, SINGLE_TOP as nat);
        assert(6 * z < g) by (nonlinear_arith)
            requires
                z * 1 * 0x100_0000 <= e * (0x100_0000 + 1),
                7 * e <= g,
                0 < g,
        ;
    } else {
        reveal_with_fuel(significant, 2);
        lemma_nearest_exact(e, 1);
    }
}

} // verus!
