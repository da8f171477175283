//! Signal measures: energy, level and zero crossings.

use vstd::arithmetic::power2::{lemma_pow2_adds, lemma_pow2_strictly_increases, pow2};
use vstd::prelude::*;

use crate::double::{
    double, doubles_are_exact, doubles_keep_the_order, over, plus, root, unit, whole,
    whole_is_positive, Double, TOP,
};

verus! {

/// The largest integer whose square does not exceed `x`.
pub open spec fn isqrt(x: nat) -> nat
    decreases x,
{
    if x == 0 {
        0
    } else {
        let r = isqrt((x - 1) as nat);
        if (r + 1) * (r + 1) <= x {
            r + 1
        } else {
            r
        }
    }
}

/// An integer square root brackets its argument between two squares.
pub proof fn lemma_isqrt_bracket(x: nat)
    ensures
        isqrt(x) * isqrt(x) <= x < (isqrt(x) + 1) * (isqrt(x) + 1),
    decreases x,
{
    if x > 0 {
        lemma_isqrt_bracket((x - 1) as nat);
        let r = isqrt((x - 1) as nat);
        let s = isqrt(x);
        if (r + 1) * (r + 1) <= x {
            assert(s * s <= x < (s + 1) * (s + 1)) by (nonlinear_arith)
                requires
                    s == r + 1,
                    (r + 1) * (r + 1) <= x,
                    x - 1 < (r + 1) * (r + 1),
            ;
        } else {
            assert(s == r);
        }
    } else {
        let s = isqrt(x);
        assert(s * s <= x < (s + 1) * (s + 1)) by (nonlinear_arith)
            requires
                s == 0,
                x == 0,
        ;
    }
}

/// Only the integer square root brackets its argument.
pub proof fn lemma_isqrt_unique(x: nat, r: nat)
    requires
        r * r <= x < (r + 1) * (r + 1),
    ensures
        r == isqrt(x),
{
    lemma_isqrt_bracket(x);
    let s = isqrt(x);
    if r < s {
        assert((r + 1) * (r + 1) <= s * s) by (nonlinear_arith)
            requires
                r + 1 <= s,
        ;
    } else if s < r {
        assert((s + 1) * (s + 1) <= r * r) by (nonlinear_arith)
            requires
                s + 1 <= r,
        ;
    }
}

/// The integer square root of `x`.
pub fn integer_sqrt(x: u128) -> (r: u64)
    requires
        x <= 0x4000_0000_0000_0000_0000_0000_0000_0000,
    ensures
        r == isqrt(x as nat),
{
    let mut lo: u64 = 0;
    let mut hi: u64 = 0x8000_0000_0000_0001;
    assert(0x8000_0000_0000_0001 * 0x8000_0000_0000_0001
        > 0x4000_0000_0000_0000_0000_0000_0000_0000);
    while hi - lo > 1
        invariant
            lo < hi <= 0x8000_0000_0000_0001,
            lo * lo <= x,
            x < hi * hi,
        decreases hi - lo,
    {
        let mid: u64 = lo + (hi - lo) / 2;
        assert(mid * mid <= 0x8000_0000_0000_0001 * 0x8000_0000_0000_0001) by (nonlinear_arith)
            requires
                mid <= 0x8000_0000_0000_0001,
        ;
        let square: u128 = (mid as u128) * (mid as u128);
        if square <= x {
            lo = mid;
        } else {
            hi = mid;
        }
    }
    proof {
        assert(hi == lo + 1);
        lemma_isqrt_unique(x as nat, lo as nat);
    }
    lo
}

/// The sum of the squares of the samples.
spec fn energy(s: Seq<i16>) -> nat
    decreases s.len(),
{
    if s.len() == 0 {
        0
    } else {
        energy(s.drop_last()) + (s.last() * s.last()) as nat
    }
}

/// How often neighbouring samples differ in sign.
pub open spec fn crossings(s: Seq<i16>) -> nat
    decreases s.len(),
{
    if s.len() < 2 {
        0
    } else {
        crossings(s.drop_last()) + (if (s[s.len() - 2] < 0) != (s.last() < 0) {
            1nat
        } else {
            0nat
        })
    }
}

/// The sum of the squares of the samples as shares of full scale, taken from
/// the first on. A square is a multiple of 2^-30.
pub open spec fn squares(s: Seq<i16>) -> nat
    decreases s.len(),
{
    if s.len() == 0 {
        0
    } else {
        plus(squares(s.drop_last()), (s.last() * s.last()) as nat * pow2(1044))
    }
}

/// Root-mean-square level as a share of full scale; 0 for no samples.
pub open spec fn level(s: Seq<i16>) -> nat {
    if s.len() == 0 {
        0
    } else {
        root(over(squares(s), whole(s.len())))
    }
}

/// Share of neighbouring samples that cross zero.
pub open spec fn crossing_rate(s: Seq<i16>) -> nat {
    if s.len() < 2 {
        0
    } else {
        over(whole(crossings(s)), whole((s.len() - 1) as nat))
    }
}

proof fn lemma_energy_bound(s: Seq<i16>)
    ensures
        energy(s) <= 0x4000_0000 * s.len(),
    decreases s.len(),
{
    if s.len() > 0 {
        lemma_energy_bound(s.drop_last());
        let x = s.last() as int;
        assert(0 <= x * x <= 0x4000_0000) by (nonlinear_arith)
            requires
                -32768 <= x <= 32767,
        ;
    }
}

proof fn lemma_crossings_bound(s: Seq<i16>)
    ensures
        s.len() > 0 ==> crossings(s) <= s.len() - 1,
    decreases s.len(),
{
    if s.len() >= 2 {
        lemma_crossings_bound(s.drop_last());
    }
}

/// The squares of not too many samples add up exactly.
proof fn lemma_squares_exact(s: Seq<i16>)
    requires
        s.len() <= 0x80_0000,
    ensures
        squares(s) == energy(s) * pow2(1044),
    decreases s.len(),
{
    if s.len() == 0 {
        assert(0 * pow2(1044) == 0);
    } else {
        lemma_squares_exact(s.drop_last());
        lemma_energy_bound(s);
        let x = s.last() as int;
        assert(x * x >= 0) by (nonlinear_arith);
        let a = energy(s.drop_last());
        let b = (x * x) as nat;
        let p = pow2(1044);
        assert(a * p + b * p == (a + b) * p) by (nonlinear_arith);
        vstd::arithmetic::power2::lemma2_to64_rest();
        lemma_pow2_adds(53, 1044);
        lemma_pow2_strictly_increases(53 + 1044, 2098);
        assert((a + b) * p <= TOP * p) by (nonlinear_arith)
            requires
                a + b <= TOP,
        ;
        doubles_are_exact(a + b, 1044);
    }
}

/// A zero-crossing rate never exceeds one.
pub proof fn crossing_rate_is_at_most_one(s: Seq<i16>)
    ensures
        crossing_rate(s) <= unit(),
{
    if s.len() >= 2 {
        lemma_crossings_bound(s);
        let c = crossings(s);
        let n = (s.len() - 1) as nat;
        whole_is_positive(n);
        assert(c * unit() <= n * unit()) by (nonlinear_arith)
            requires
                c <= n,
        ;
        doubles_keep_the_order(c * unit(), n * unit(), 1);
        assert(whole(c) * unit() <= whole(n) * unit()) by (nonlinear_arith)
            requires
                whole(c) <= whole(n),
        ;
        doubles_keep_the_order(whole(c) * unit(), whole(n) * unit(), whole(n));
        crate::double::itself_over(whole(n));
    }
}

/// Root-mean-square level of the samples `start..end`.
pub fn level_of(s: &[i16], start: usize, end: usize) -> (r: Double)
    requires
        start <= end <= s@.len(),
    ensures
        r@ == level(s@.subrange(start as int, end as int)),
{
    let ghost w = s@.subrange(start as int, end as int);
    if start == end {
        return Double::zero();
    }
    let sum = squares_of(s, start, end);
    proof {
        whole_is_positive(w.len());
    }
    sum.over(Double::of((end - start) as u64)).root()
}

/// The sum of the squares of the samples `start..end`.
fn squares_of(s: &[i16], start: usize, end: usize) -> (r: Double)
    requires
        start <= end <= s@.len(),
    ensures
        r@ == squares(s@.subrange(start as int, end as int)),
{
    let ghost w = s@.subrange(start as int, end as int);
    let exact: bool = end - start <= 0x80_0000;
    let mut sum: u64 = 0;
    let mut rounded = Double::zero();
    let mut i: usize = start;
    while i < end
        invariant
            start <= i <= end <= s@.len(),
            w == s@.subrange(start as int, end as int),
            exact == (end - start <= 0x80_0000),
            exact ==> sum == energy(w.take(i - start)),
            exact ==> sum <= 0x4000_0000 * (i - start),
            !exact ==> rounded@ == squares(w.take(i - start)),
        decreases end - i,
    {
        let x: i64 = s[i] as i64;
        assert(0 <= x * x <= 0x4000_0000) by (nonlinear_arith)
            requires
                -32768 <= x <= 32767,
        ;
        let ghost before = w.take(i - start);
        let ghost after = w.take(i + 1 - start);
        assert(after.drop_last() =~= before);
        assert(after.last() == s@[i as int]);
        if exact {
            sum = sum + (x * x) as u64;
        } else {
            rounded = rounded.plus(Double::of_power((x * x) as u64, 1044));
        }
        i += 1;
    }
    assert(w.take(end - start) =~= w);
    if exact {
        proof {
            lemma_squares_exact(w);
        }
        Double::of_power(sum, 1044)
    } else {
        rounded
    }
}

/// Zero-crossing rate of the samples `start..end`.
pub fn crossing_rate_of(s: &[i16], start: usize, end: usize) -> (r: Double)
    requires
        start <= end <= s@.len(),
    ensures
        r@ == crossing_rate(s@.subrange(start as int, end as int)),
{
    let ghost w = s@.subrange(start as int, end as int);
    if end - start < 2 {
        return Double::zero();
    }
    let mut count: u64 = 0;
    let mut i: usize = start + 1;
    while i < end
        invariant
            start + 1 <= i <= end <= s@.len(),
            w == s@.subrange(start as int, end as int),
            count == crossings(w.take(i - start)),
            count <= i - start - 1,
        decreases end - i,
    {
        let ghost before = w.take(i - start);
        let ghost after = w.take(i + 1 - start);
        assert(after.drop_last() =~= before);
        assert(after.last() == s@[i as int]);
        assert(after[after.len() - 2] == s@[i - 1]);
        if (s[i - 1] < 0) != (s[i] < 0) {
            count += 1;
        }
        i += 1;
    }
    assert(w.take(end - start) =~= w);
    proof {
        whole_is_positive((w.len() - 1) as nat);
    }
    Double::of(count).over(Double::of((end - start - 1) as u64))
}

/// The root of a double that is a square.
proof fn lemma_root_between(a: nat, lo: nat, hi: nat)
    requires
        lo * lo <= a * unit() <= hi * hi,
        double(lo, 1) == lo,
        double(hi, 1) == hi,
    ensures
        lo <= root(a) <= hi,
{
    let x = a * unit();
    let s = isqrt(x);
    lemma_isqrt_bracket(x);
    assert(lo <= s) by (nonlinear_arith)
        requires
            lo * lo <= x,
            x < (s + 1) * (s + 1),
    ;
    assert(s <= hi) by (nonlinear_arith)
        requires
            s * s <= x,
            x <= hi * hi,
    ;
    if s * s == x {
        doubles_keep_the_order(lo, s, 1);
        doubles_keep_the_order(s, hi, 1);
    } else {
        assert(s < hi) by (nonlinear_arith)
            requires
                s <= hi,
                s * s < x,
                x <= hi * hi,
        ;
        crate::double::lemma_same_quotient(lo, 1, 2, TOP as nat);
        crate::double::lemma_same_quotient(hi, 1, 2, TOP as nat);
        doubles_keep_the_order(lo * 2, 2 * s + 1, 2);
        doubles_keep_the_order(2 * s + 1, hi * 2, 2);
    }
}

proof fn lemma_energy_between(s: Seq<i16>, lo: nat, hi: nat)
    requires
        forall|i: int| 0 <= i < s.len() ==> lo <= #[trigger] loudness(s[i]) <= hi,
    ensures
        s.len() * (lo * lo) <= energy(s) <= s.len() * (hi * hi),
    decreases s.len(),
{
    if s.len() > 0 {
        let init = s.drop_last();
        assert forall|i: int| 0 <= i < init.len() implies lo <= #[trigger] loudness(init[i])
            <= hi by {
            assert(init[i] == s[i]);
        }
        lemma_energy_between(init, lo, hi);
        assert(lo <= loudness(s[s.len() - 1]) <= hi);
        let x = s.last() as int;
        let n = init.len();
        assert(lo * lo <= x * x <= hi * hi) by (nonlinear_arith)
            requires
                lo <= loudness(s.last()) <= hi,
                loudness(s.last()) == (if x < 0 {
                    -x
                } else {
                    x
                }),
        ;
        assert((n + 1) * (lo * lo) == n * (lo * lo) + lo * lo) by (nonlinear_arith);
        assert((n + 1) * (hi * hi) == n * (hi * hi) + hi * hi) by (nonlinear_arith);
    }
}

/// How far a sample is from zero.
pub open spec fn loudness(x: i16) -> nat {
    if x < 0 {
        (-x) as nat
    } else {
        x as nat
    }
}

/// The level of samples lies between the smallest and the greatest of them, as
/// shares of full scale: silence has none, and samples that are all equally loud
/// have exactly that level.
pub proof fn level_is_a_mean(s: Seq<i16>, lo: nat, hi: nat)
    requires
        0 < s.len() <= 0x80_0000,
        hi <= 32768,
        forall|i: int| 0 <= i < s.len() ==> lo <= #[trigger] loudness(s[i]) <= hi,
    ensures
        lo * unit() <= 32768 * level(s) <= hi * unit(),
{
    let n = s.len();
    let (p, q, u) = (pow2(1044), pow2(1059), unit());
    assert(lo <= loudness(s[0]) <= hi);
    lemma_energy_between(s, lo, hi);
    lemma_squares_exact(s);
    vstd::arithmetic::power2::lemma2_to64();
    lemma_pow2_adds(15, 1059);
    lemma_pow2_adds(1044, 1074);
    lemma_pow2_adds(1059, 1059);
    vstd::arithmetic::power2::lemma_pow2_pos(1074);
    vstd::arithmetic::power2::lemma_pow2_pos(1044);
    lemma_pow2_strictly_increases(1059, 1074);
    lemma_pow2_strictly_increases(1074, 2098);
    assert(u == 32768 * q);
    assert(p * u == q * q);
    crate::double::small_is_whole(n);
    let mean = over(squares(s), whole(n));
    let e = energy(s);
    let d = n * u;
    assert(d > 0) by (nonlinear_arith)
        requires
            d == n * u,
            n > 0,
            u > 0,
    ;
    lemma_mean_square(e, n, lo, true);
    lemma_mean_square(e, n, hi, false);
    assert((lo * lo * p) * u == (lo * q) * (lo * q)) by (nonlinear_arith)
        requires
            p * u == q * q,
    ;
    assert((hi * hi * p) * u == (hi * q) * (hi * q)) by (nonlinear_arith)
        requires
            p * u == q * q,
    ;
    assert((lo * lo * p) * u <= mean * u <= (hi * hi * p) * u) by (nonlinear_arith)
        requires
            lo * lo * p <= mean <= hi * hi * p,
    ;
    lemma_small_share(lo);
    lemma_small_share(hi);
    lemma_root_between(mean, lo * q, hi * q);
    assert(32768 * (lo * q) == lo * u && 32768 * (hi * q) == hi * u) by (nonlinear_arith)
        requires
            u == 32768 * q,
    ;
}

proof fn lemma_small_share(a: nat)
    requires
        a <= 32768,
    ensures
        double(a * pow2(1059), 1) == a * pow2(1059),
{
    vstd::arithmetic::power2::lemma2_to64();
    lemma_pow2_adds(15, 1059);
    lemma_pow2_strictly_increases(1074, 2098);
    assert(a * pow2(1059) <= 32768 * pow2(1059)) by (nonlinear_arith)
        requires
            a <= 32768,
    ;
    doubles_are_exact(a, 1059);
}

/// A mean of squares that are all at least, or at most, the square of a number.
proof fn lemma_mean_square(e: nat, n: nat, a: nat, least: bool)
    requires
        0 < n <= 0x80_0000,
        a <= 32768,
        least ==> n * (a * a) <= e,
        !least ==> e <= n * (a * a),
    ensures
        least ==> a * a * pow2(1044) <= over(e * pow2(1044), n * unit()),
        !least ==> over(e * pow2(1044), n * unit()) <= a * a * pow2(1044),
{
    let (p, u) = (pow2(1044), unit());
    vstd::arithmetic::power2::lemma_pow2_pos(1074);
    let d = n * u;
    assert(d > 0) by (nonlinear_arith)
        requires
            d == n * u,
            n > 0,
            u > 0,
    ;
    let sq = a * a;
    assert(sq <= 0x4000_0000) by (nonlinear_arith)
        requires
            sq == a * a,
            a <= 32768,
    ;
    let exact = sq * p;
    vstd::arithmetic::power2::lemma2_to64();
    lemma_pow2_adds(30, 1044);
    lemma_pow2_strictly_increases(1074, 2098);
    assert(sq * p <= 0x4000_0000 * p) by (nonlinear_arith)
        requires
            sq <= 0x4000_0000,
    ;
    doubles_are_exact(sq, 1044);
    crate::double::lemma_same_quotient(exact, 1, d, TOP as nat);
    assert(1 * d == d);
    assert(exact * d == (n * sq) * p * u) by (nonlinear_arith)
        requires
            exact == sq * p,
            d == n * u,
    ;
    if least {
        assert((n * sq) * p * u <= e * p * u) by (nonlinear_arith)
            requires
                n * sq <= e,
        ;
        doubles_keep_the_order(exact * d, (e * p) * u, d);
    } else {
        assert(e * p * u <= (n * sq) * p * u) by (nonlinear_arith)
            requires
                e <= n * sq,
        ;
        doubles_keep_the_order((e * p) * u, exact * d, d);
    }
}

/// Samples that never change their sign do not cross zero, and samples that
/// change it at every step cross it all the time.
pub proof fn crossing_rate_counts_changes_of_sign(s: Seq<i16>)
    requires
        2 <= s.len(),
    ensures
        (forall|i: int| 0 < i < s.len() ==> (#[trigger] s[i] < 0) == (s[i - 1] < 0))
            ==> crossing_rate(s) == 0,
        (forall|i: int| 0 < i < s.len() ==> (#[trigger] s[i] < 0) != (s[i - 1] < 0))
            ==> crossing_rate(s) == unit(),
{
    let n = (s.len() - 1) as nat;
    whole_is_positive(n);
    if forall|i: int| 0 < i < s.len() ==> (#[trigger] s[i] < 0) == (s[i - 1] < 0) {
        lemma_crossings_all(s, false);
        crate::double::nothing_is_whole();
        crate::double::nothing_over(whole(n));
    }
    if forall|i: int| 0 < i < s.len() ==> (#[trigger] s[i] < 0) != (s[i - 1] < 0) {
        lemma_crossings_all(s, true);
        crate::double::itself_over(whole(n));
    }
}

proof fn lemma_crossings_all(s: Seq<i16>, all: bool)
    requires
        s.len() > 0,
        forall|i: int| 0 < i < s.len() ==> ((#[trigger] s[i] < 0) != (s[i - 1] < 0)) == all,
    ensures
        crossings(s) == (if all {
            (s.len() - 1) as nat
        } else {
            0
        }),
    decreases s.len(),
{
    if s.len() >= 2 {
        let init = s.drop_last();
        assert forall|i: int| 0 < i < init.len() implies ((#[trigger] init[i] < 0) != (init[i - 1]
            < 0)) == all by {
            assert(init[i] == s[i] && init[i - 1] == s[i - 1]);
        }
        lemma_crossings_all(init, all);
        assert(((s[s.len() - 1] < 0) != (s[s.len() - 2] < 0)) == all);
    }
}

} // verus!
