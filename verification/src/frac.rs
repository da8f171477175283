//! Fractional offsets into a sequence.

use crate::double::{
    lemma_rounding_error, nothing_is_whole, nothing_over, nothing_times, one_is_whole, one_times,
    over, significant, small_is_whole, times, unit, whole, whole_is_positive, whole_part, Double,
    TOP,
};
use vstd::arithmetic::power2::{
    lemma2_to64, lemma2_to64_rest, lemma_pow2_adds, lemma_pow2_pos, lemma_pow2_strictly_increases,
    pow2,
};
use vstd::prelude::*;

verus! {

/// A fraction `num / den` of a length, read as clamped to `0..=1`.
#[derive(Debug, Clone, Copy, PartialEq, Eq)]
pub struct Frac {
    pub num: u64,
    pub den: u64,
}

/// The fraction as a double, at most one.
pub open spec fn share(f: Frac) -> nat {
    if f.num >= f.den {
        unit()
    } else {
        over(whole(f.num as nat), whole(f.den as nat))
    }
}

/// The offset nearest to the fraction `f` of `n`, at most `n`; a tie goes up.
/// The fraction and the product are doubles.
pub open spec fn frac_of(f: Frac, n: nat) -> nat {
    let at = whole_part(times(share(f), whole(n)));
    if at < n {
        at
    } else {
        n
    }
}

/// A fraction of a length stays within it.
pub proof fn lemma_frac_bound(f: Frac, n: nat)
    ensures
        frac_of(f, n) <= n,
{
}

impl Frac {
    /// The offset nearest to this fraction of `n`; a tie goes up.
    pub fn of(&self, n: usize) -> (r: usize)
        ensures
            r == frac_of(*self, n as nat),
            r <= n,
    {
        let share = if self.num >= self.den {
            proof {
                one_is_whole();
            }
            Double::of(1)
        } else {
            proof {
                whole_is_positive(self.den as nat);
            }
            Double::of(self.num).over(Double::of(self.den))
        };
        let at: u64 = share.times(Double::of(n as u64)).to_whole();
        if at < n as u64 {
            at as usize
        } else {
            n
        }
    }
}

/// Nothing of a length is its start.
pub proof fn none_of_a_length(n: nat)
    ensures
        frac_of(Frac { num: 0, den: 1 }, n) == 0,
{
    nothing_is_whole();
    whole_is_positive(1);
    nothing_over(whole(1));
    nothing_times(whole(n));
    vstd::arithmetic::power2::lemma_pow2_pos(1074);
    vstd::arithmetic::div_mod::lemma_basic_div(unit() as int, (2 * unit()) as int);
}

/// All of a length is its end, for lengths that are doubles.
pub proof fn all_of_a_length(n: nat)
    requires
        n <= TOP,
    ensures
        frac_of(Frac { num: 1, den: 1 }, n) == n,
{
    one_times(n);
}

/// Whether `at` is the place that the fraction `num / den` has in a length of
/// `n`, but for less than one.
pub open spec fn marks(at: nat, num: nat, den: nat, n: nat) -> bool {
    &&& at <= n
    &&& 4 * (at * den) <= 4 * (num * n) + 3 * den
    &&& 4 * (num * n) <= 4 * (at * den) + 3 * den
}

/// How near a share is to the quotient that it stands for.
proof fn lemma_share(f: Frac)
    requires
        f.num < f.den <= TOP,
    ensures
        share(f) * f.den <= f.num * unit() + f.den * pow2(1021),
        f.num * unit() <= share(f) * f.den + f.den * pow2(1021),
        share(f) <= 2 * unit(),
{
    let (u, a, b, e) = (unit(), f.num as nat, f.den as nat, pow2(1021));
    small_is_whole(a);
    small_is_whole(b);
    lemma2_to64();
    lemma2_to64_rest();
    lemma_pow2_pos(1074);
    lemma_pow2_pos(1021);
    lemma_pow2_adds(53, 1021);
    assert(u == e * TOP);
    let (num, den) = (a * u * u, b * u);
    assert(den > 0) by (nonlinear_arith)
        requires
            b > 0,
            u > 0,
            den == b * u,
    ;
    assert(num < den * e * TOP) by (nonlinear_arith)
        requires
            a < b,
            u > 0,
            u == e * TOP,
            num == a * u * u,
            den == b * u,
    {
        assert(den * e * TOP == den * (e * TOP));
        assert(b * u * u == den * u);
        assert(a * u < b * u);
        assert((a * u) * u < (b * u) * u);
    }
    lemma_rounding_error(num, den, 1021);
    let s = significant(num, den, TOP as nat);
    assert(s * b <= a * u + b * e && a * u <= s * b + b * e) by (nonlinear_arith)
        requires
            s * den <= num + den * e,
            num <= s * den + den * e,
            u > 0,
            num == a * u * u,
            den == b * u,
    {
        assert(s * den == (s * b) * u);
        assert(den * e == (b * e) * u);
        assert(num == (a * u) * u);
        assert((s * b) * u <= (a * u + b * e) * u);
        assert((a * u) * u <= (s * b + b * e) * u);
    }
    assert(s <= 2 * u) by (nonlinear_arith)
        requires
            s * b <= a * u + b * e,
            a < b,
            b > 0,
            e <= u,
    {
        assert(a * u <= b * u);
        assert(b * e <= b * u);
        assert(s * b <= (2 * u) * b);
    }
    lemma_pow2_strictly_increases(1075, 2098);
    vstd::arithmetic::power2::lemma_pow2_unfold(1075);
}

/// How near the product with a share is.
proof fn lemma_share_of(s: nat, n: nat)
    requires
        s <= 2 * unit(),
        n <= 0x1_0000_0000,
    ensures
        times(s, whole(n)) <= s * n + pow2(1055),
        s * n <= times(s, whole(n)) + pow2(1055),
{
    let (u, e) = (unit(), pow2(1055));
    small_is_whole(n);
    lemma2_to64();
    lemma2_to64_rest();
    lemma_pow2_pos(1074);
    lemma_pow2_pos(1055);
    lemma_pow2_adds(53, 1055);
    lemma_pow2_adds(33, 1074);
    lemma_pow2_strictly_increases(1107, 1108);
    let num = s * (n * u);
    assert(s * n <= 0x2_0000_0000 * u) by (nonlinear_arith)
        requires
            s <= 2 * u,
            n <= 0x1_0000_0000,
    ;
    assert(s * n < e * TOP);
    assert(num < u * e * TOP) by (nonlinear_arith)
        requires
            s * n < e * TOP,
            u > 0,
            num == s * (n * u),
    {
        assert(num == (s * n) * u);
        assert(u * e * TOP == (e * TOP) * u);
    }
    lemma_rounding_error(num, u, 1055);
    let r = significant(num, u, TOP as nat);
    assert(r <= s * n + e && s * n <= r + e) by (nonlinear_arith)
        requires
            r * u <= num + u * e,
            num <= r * u + u * e,
            num == s * (n * u),
            u > 0,
    {
        assert(num == (s * n) * u);
        assert(r * u <= (s * n + e) * u);
        assert((s * n) * u <= (r + e) * u);
    }
    lemma_pow2_strictly_increases(1055, 1107);
    vstd::arithmetic::power2::lemma_pow2_unfold(1108);
    lemma_pow2_strictly_increases(1108, 2098);
}

/// The offset of a fraction is its place in the length: no whole item off.
pub proof fn fractions_mark_their_place(f: Frac, n: nat)
    requires
        f.num <= f.den <= TOP,
        f.den > 0,
        n <= 0x1_0000_0000,
    ensures
        marks(frac_of(f, n), f.num as nat, f.den as nat, n),
{
    let (u, a, b) = (unit(), f.num as nat, f.den as nat);
    if f.num == f.den {
        one_times(n);
        assert(a * n == n * b) by (nonlinear_arith)
            requires
                a == b,
        ;
    } else {
        let s = share(f);
        let (e, g) = (pow2(1021), pow2(1055));
        lemma_share(f);
        lemma_share_of(s, n);
        lemma2_to64();
        lemma2_to64_rest();
        lemma_pow2_pos(1021);
        lemma_pow2_adds(53, 1021);
        lemma_pow2_adds(19, 1055);
        lemma_pow2_adds(34, 1021);
        let p = times(s, whole(n));
        let w = whole_part(p);
        lemma_pow2_pos(1074);
        let d = 2 * u;
        vstd::arithmetic::div_mod::lemma_fundamental_div_mod((2 * p + u) as int, d as int);
        vstd::arithmetic::div_mod::lemma_mod_bound((2 * p + u) as int, d as int);
        assert(d * w == 2 * (w * u)) by (nonlinear_arith)
            requires
                d == 2 * u,
        ;
        assert(2 * (w * u) <= 2 * p + u < 2 * (w * u) + d);
        let gap = 2 * (w * u) - 2 * (s * n);
        assert(-u - 2 * g <= gap <= u + 2 * g);
        let drift = n * (s * b) - n * (a * u);
        assert(-(n * (b * e)) <= drift <= n * (b * e)) by (nonlinear_arith)
            requires
                s * b <= a * u + b * e,
                a * u <= s * b + b * e,
                drift == n * (s * b) - n * (a * u),
        ;
        assert(n * (b * e) <= b * (0x1_0000_0000 * e)) by (nonlinear_arith)
            requires
                n <= 0x1_0000_0000,
        ;
        assert(8 * (0x1_0000_0000 * e) <= u);
        assert(8 * g <= u);
        let off = 2 * (w * b) - 2 * (a * n);
        assert(off * u == gap * b + 2 * drift) by (nonlinear_arith)
            requires
                gap == 2 * (w * u) - 2 * (s * n),
                drift == n * (s * b) - n * (a * u),
                off == 2 * (w * b) - 2 * (a * n),
        {
            assert(off * u == 2 * (w * b) * u - 2 * (a * n) * u);
            assert(gap * b == 2 * (w * u) * b - 2 * (s * n) * b);
            assert((w * b) * u == (w * u) * b);
            assert((a * n) * u == n * (a * u));
            assert((s * n) * b == n * (s * b));
        }
        assert(4 * gap <= 5 * u && -(5 * u) <= 4 * gap);
        assert(4 * (gap * b) <= 5 * (b * u) && -(5 * (b * u)) <= 4 * (gap * b)) by (nonlinear_arith)
            requires
                4 * gap <= 5 * u,
                -(5 * u) <= 4 * gap,
                b >= 0,
        ;
        assert(8 * (b * (0x1_0000_0000 * e)) <= b * u) by (nonlinear_arith)
            requires
                8 * (0x1_0000_0000 * e) <= u,
                b >= 0,
        ;
        assert(4 * (off * u) <= 6 * (b * u) && -(6 * (b * u)) <= 4 * (off * u));
        assert(2 * off <= 3 * b && -(3 * b) <= 2 * off) by (nonlinear_arith)
            requires
                4 * (off * u) <= 6 * (b * u),
                -(6 * (b * u)) <= 4 * (off * u),
                u > 0,
        {
            assert((2 * off - 3 * b) * u <= 0);
            assert((2 * off + 3 * b) * u >= 0);
        }
        if w >= n {
            assert(n * b <= w * b) by (nonlinear_arith)
                requires
                    n <= w,
            ;
            assert(a * n <= n * b) by (nonlinear_arith)
                requires
                    a <= b,
            ;
        }
    }
}

} // verus!
