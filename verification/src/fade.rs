//! Crossfades.

use crate::double::{
    apart, double, lemma_same_quotient, rounding_moves_little, small_is_whole, steps_are_small,
    times, unit, whole, whole_part, Double, TOP,
};
use crate::figures::{plus_signed, times_signed, Signed};
use vstd::arithmetic::power2::{lemma_pow2_pos, pow2};
use vstd::prelude::*;

verus! {

/// Fade-out gains, as doubles: the gain at a sample of a fade of a given length.
pub type Gains = spec_fn(nat, nat) -> nat;

/// A curve by which one part of an utterance fades into the next.
///
/// The curve gives the fade-out gain; the fade-in gain is what is left to one.
/// Which gains it gives is left to the curve; that it always gives the same at
/// the same place is taken of it.
pub trait FadeCurve {
    /// The gains the curve gives, for fades of every length.
    closed spec fn gains(&self) -> Gains {
        arbitrary()
    }

    /// The fade-out gain at sample `i` of a fade over `n` samples.
    fn gain(&self, n: usize, i: usize) -> (g: Double)
        requires
            i < n,
        ensures
            g@ == (self.gains())(n as nat, i as nat),
    ;
}

/// The gain that is used at sample `i` of a fade over `n` samples: what the
/// curve gives, at most one.
pub open spec fn gain_at(t: Gains, n: nat, i: nat) -> nat {
    if t(n, i) > unit() {
        unit()
    } else {
        t(n, i)
    }
}

/// The gain a curve gives at a sample, at most one.
fn limited_gain<F: FadeCurve + ?Sized>(fades: &F, n: usize, i: usize) -> (g: Double)
    requires
        i < n,
    ensures
        g@ == gain_at(fades.gains(), n as nat, i as nat),
        g@ <= unit(),
{
    let g = fades.gain(n, i);
    proof {
        crate::double::one_is_whole();
    }
    let one = Double::of(1);
    if one.less(g) {
        one
    } else {
        g
    }
}

/// A sample as a double.
pub open spec fn sample(s: i16) -> int {
    if s < 0 {
        -(whole((0 - s) as nat) as int)
    } else {
        whole(s as nat) as int
    }
}

/// A double with a sign to the nearest whole number, away from zero in the
/// middle of two.
pub open spec fn round_away(x: int) -> int {
    if x < 0 {
        -(whole_part((0 - x) as nat) as int)
    } else {
        whole_part(x as nat) as int
    }
}

/// Two samples added up, the first at gain `g` and the second at what is left to
/// one.
pub open spec fn mixture(fading: i16, rising: i16, g: nat) -> int {
    plus_signed(
        times_signed(sample(fading), g),
        times_signed(sample(rising), apart(unit(), g)),
    )
}

/// Two samples mixed, the first at gain `g` and the second at what is left to
/// one: rounded, and within what a sample holds.
pub open spec fn mixed(fading: i16, rising: i16, g: nat) -> int {
    let x = round_away(mixture(fading, rising, g));
    if x < -32768 {
        -32768
    } else if x > 32767 {
        32767
    } else {
        x
    }
}

/// A number that is nearer than half to the range of two whole numbers rounds
/// into it.
proof fn lemma_round_away(x: int, lo: int, hi: int)
    requires
        2 * (lo * unit()) - unit() < 2 * x < 2 * (hi * unit()) + unit(),
    ensures
        lo <= round_away(x) <= hi,
{
    lemma_pow2_pos(1074);
    let u = unit() as int;
    let m = if x < 0 {
        -x
    } else {
        x
    };
    let (a, b) = if x < 0 {
        (-hi, -lo)
    } else {
        (lo, hi)
    };
    assert(2 * (a * u) - u < 2 * m < 2 * (b * u) + u) by (nonlinear_arith)
        requires
            2 * (lo * u) - u < 2 * x < 2 * (hi * u) + u,
            x < 0 ==> m == -x && a == -hi && b == -lo,
            x >= 0 ==> m == x && a == lo && b == hi,
    ;
    assert(a <= (2 * m + u) / (2 * u) <= b) by (nonlinear_arith)
        requires
            2 * (a * u) - u < 2 * m < 2 * (b * u) + u,
            u > 0,
            m >= 0,
    {
        let q = (2 * m + u) / (2 * u);
        assert((2 * u) * q <= 2 * m + u < (2 * u) * (q + 1));
        if q < a {
            assert((2 * u) * (q + 1) <= (2 * u) * a);
        }
        if q > b {
            assert((2 * u) * q >= (2 * u) * (b + 1));
        }
    }
}

/// A sample at a gain is the product, nearly.
proof fn lemma_voiced(s: i16, g: nat)
    requires
        g <= 2 * unit(),
    ensures
        s * g - pow2(1041) <= times_signed(sample(s), g) <= s * g + pow2(1041),
{
    let u = unit();
    let a: nat = if s < 0 {
        (0 - s) as nat
    } else {
        s as nat
    };
    lemma_pow2_pos(1074);
    small_is_whole(a);
    let n = a * g;
    assert((a * u) * g == n * u) by (nonlinear_arith)
        requires
            n == a * g,
    ;
    lemma_same_quotient(n, 1, u, TOP as nat);
    assert(1 * u == u);
    assert(times(a * u, g) == double(n, 1));
    assert(n <= 0x4_0000 * u) by (nonlinear_arith)
        requires
            n == a * g,
            a <= 32768,
            g <= 2 * u,
    ;
    rounding_moves_little(n);
    assert(a * u == 0 ==> a == 0) by (nonlinear_arith)
        requires
            u > 0,
    ;
    assert(s * g == (if s < 0 {
        -(n as int)
    } else {
        n as int
    })) by (nonlinear_arith)
        requires
            n == a * g,
            s < 0 ==> a == -s,
            s >= 0 ==> a == s,
    ;
    if s < 0 {
        assert(a * u > 0) by (nonlinear_arith)
            requires
                a > 0,
                u > 0,
        ;
    }
}

/// Mixing never leaves the range that both samples lie in.
pub proof fn mixing_stays_between(fading: i16, rising: i16, g: nat, lo: int, hi: int)
    requires
        g <= unit(),
        -32768 <= lo,
        hi <= 32767,
        lo <= fading <= hi,
        lo <= rising <= hi,
    ensures
        lo <= mixed(fading, rising, g) <= hi,
{
    let u = unit() as int;
    let e = pow2(1041) as int;
    steps_are_small();
    let left = (u - g) as nat;
    let h = apart(unit(), g);
    rounding_moves_little(left);
    let (a, b) = (fading as int, rising as int);
    lemma_voiced(fading, g);
    lemma_voiced(rising, h);
    let x = times_signed(sample(fading), g);
    let y = times_signed(sample(rising), h);
    assert(-32768 * e <= b * h - b * left <= 32768 * e) by (nonlinear_arith)
        requires
            -32768 <= b <= 32767,
            left - e <= h <= left + e,
            e >= 0,
    {
        let t = h - left;
        assert(b * h - b * left == b * t);
        assert(-e <= t <= e);
        assert(-32768 * e <= b * t <= 32768 * e) by (nonlinear_arith)
            requires
                -32768 <= b <= 32767,
                -e <= t <= e,
                e >= 0,
        ;
    }
    assert(lo * u <= a * g + b * left <= hi * u) by (nonlinear_arith)
        requires
            left == u - g,
            0 <= g <= u,
            lo <= a <= hi,
            lo <= b <= hi,
    {
        assert(lo * g <= a * g <= hi * g);
        assert(lo * left <= b * left <= hi * left);
    }
    assert(-32768 * u <= lo * u && hi * u <= 32768 * u) by (nonlinear_arith)
        requires
            -32768 <= lo,
            hi <= 32767,
            u >= 0,
    ;
    let sum = x + y;
    let size: nat = if sum < 0 {
        (0 - sum) as nat
    } else {
        sum as nat
    };
    assert(size <= 0x4_0000 * u);
    rounding_moves_little(size);
    lemma_round_away(mixture(fading, rising, g), lo, hi);
}

fn as_signed(s: i16) -> (r: Signed)
    ensures
        r@ == sample(s),
{
    if s < 0 {
        Signed { negative: true, size: Double::of((0 - s as i64) as u64) }
    } else {
        Signed { negative: false, size: Double::of(s as u64) }
    }
}

/// Mixes two samples, the first at gain `g` and the second at what is left to
/// one.
pub fn mix(fading: i16, rising: i16, g: Double) -> (r: i16)
    requires
        g@ <= unit(),
    ensures
        r == mixed(fading, rising, g@),
{
    proof {
        crate::double::one_is_whole();
        mixing_stays_between(fading, rising, g@, -32768, 32767);
    }
    let left = Double::of(1).apart(g);
    let x = as_signed(fading).times(g).plus(as_signed(rising).times(left));
    let size: u64 = x.size.to_whole();
    proof {
        if x@ == 0 {
            lemma_pow2_pos(1074);
            vstd::arithmetic::div_mod::lemma_basic_div(unit() as int, (2 * unit()) as int);
        }
    }
    if x.negative {
        if size > 32768 {
            -32768
        } else {
            (0 - size as i64) as i16
        }
    } else if size > 32767 {
        32767
    } else {
        size as i16
    }
}

/// How long the fade at a join is: the nominal length, at most half of either
/// side.
pub open spec fn fade_at(done: nat, next: nat, nominal: nat) -> nat {
    let a = if nominal < done / 2 {
        nominal
    } else {
        done / 2
    };
    if a < next / 2 {
        a
    } else {
        next / 2
    }
}

/// `done` joined with `next`: the end of one fades into the start of the other.
pub open spec fn joined(done: Seq<i16>, next: Seq<i16>, nominal: nat, t: Gains) -> Seq<i16> {
    if done.len() == 0 {
        next
    } else {
        let f = fade_at(done.len(), next.len(), nominal);
        done.take(done.len() - f) + Seq::new(
            f,
            |i: int| mixed(done[done.len() - f + i], next[i], gain_at(t, f, i as nat)) as i16,
        ) + next.skip(f as int)
    }
}

/// The length of a fade at a join.
fn fade_len(done: usize, next: usize, nominal: usize) -> (f: usize)
    ensures
        f == fade_at(done as nat, next as nat, nominal as nat),
        f <= done,
        f <= next,
{
    let a: usize = if nominal < done / 2 {
        nominal
    } else {
        done / 2
    };
    if a < next / 2 {
        a
    } else {
        next / 2
    }
}

/// Joins `next` onto `out`.
pub fn join<F: FadeCurve + ?Sized>(
    out: &mut Vec<i16>,
    next: &Vec<i16>,
    nominal: usize,
    fades: &F,
)
    ensures
        final(out)@ == joined(old(out)@, next@, nominal as nat, fades.gains()),
{
    let ghost done = out@;
    let n: usize = out.len();
    let f: usize = if n == 0 {
        0
    } else {
        fade_len(n, next.len(), nominal)
    };
    let mut i: usize = 0;
    while i < f
        invariant
            n == done.len(),
            f <= n,
            f <= next@.len(),
            i <= f,
            out@.len() == n,
            out@.take(n - f) == done.take(n - f),
            forall|k: int|
                0 <= k < i ==> #[trigger] out@[n - f + k] == mixed(
                    done[n - f + k],
                    next@[k],
                    gain_at(fades.gains(), f as nat, k as nat),
                ) as i16,
            forall|k: int| i <= k < f ==> #[trigger] out@[n - f + k] == done[n - f + k],
        decreases f - i,
    {
        let at: usize = n - f + i;
        let ghost before = out@;
        assert(out@[n - f + i] == done[n - f + i]);
        let m: i16 = mix(out[at], next[i], limited_gain(fades, f, i));
        out.set(at, m);
        i += 1;
        assert(out@.take(n - f) =~= done.take(n - f));
        assert forall|k: int| 0 <= k < i implies #[trigger] out@[n - f + k] == mixed(
            done[n - f + k],
            next@[k],
            gain_at(fades.gains(), f as nat, k as nat),
        ) as i16 by {
            if k < i - 1 {
                assert(out@[n - f + k] == before[n - f + k]);
            }
        }
    }
    let ghost faded = out@;
    let mut j: usize = f;
    while j < next.len()
        invariant
            f <= j <= next@.len(),
            out@ == faded + next@.subrange(f as int, j as int),
        decreases next@.len() - j,
    {
        out.push(next[j]);
        j += 1;
        assert(out@ =~= faded + next@.subrange(f as int, j as int));
    }
    proof {
        assert(next@.subrange(f as int, j as int) =~= next@.skip(f as int));
        if n == 0 {
            assert(out@ =~= next@);
        } else {
            let mid = Seq::new(
                f as nat,
                |i: int|
                    mixed(
                        done[done.len() - f + i],
                        next@[i],
                        gain_at(fades.gains(), f as nat, i as nat),
                    ) as i16,
            );
            assert(faded =~= done.take(n - f) + mid) by {
                assert forall|p: int| 0 <= p < n implies faded[p] == (done.take(n - f) + mid)[p] by {
                    if p < n - f {
                        assert(faded.take(n - f)[p] == done.take(n - f)[p]);
                    } else {
                        let k = p - (n - f);
                        assert(faded[n - f + k] == mid[k]);
                    }
                }
            }
            assert(out@ =~= joined(done, next@, nominal as nat, fades.gains()));
        }
    }
}

/// Joining shortens the total by exactly the fade, and keeps what comes before
/// and behind the fade as it is.
pub proof fn join_overlaps_by_the_fade(done: Seq<i16>, next: Seq<i16>, nominal: nat, t: Gains)
    requires
        done.len() > 0,
    ensures
        ({
            let f = fade_at(done.len(), next.len(), nominal);
            let out = joined(done, next, nominal, t);
            &&& out.len() == done.len() + next.len() - f
            &&& out.take(done.len() - f) == done.take(done.len() - f)
            &&& out.skip(done.len() as int) == next.skip(f as int)
        }),
{
    let f = fade_at(done.len(), next.len(), nominal);
    let out = joined(done, next, nominal, t);
    assert(out.take(done.len() - f) =~= done.take(done.len() - f));
    assert(out.skip(done.len() as int) =~= next.skip(f as int));
}

/// A join stays within any range that both sides lie in.
pub proof fn join_stays_between(
    done: Seq<i16>,
    next: Seq<i16>,
    nominal: nat,
    t: Gains,
    lo: int,
    hi: int,
)
    requires
        -32768 <= lo,
        hi <= 32767,
        forall|i: int| 0 <= i < done.len() ==> lo <= #[trigger] done[i] <= hi,
        forall|i: int| 0 <= i < next.len() ==> lo <= #[trigger] next[i] <= hi,
    ensures
        forall|i: int|
            0 <= i < joined(done, next, nominal, t).len() ==> lo <= #[trigger] joined(
                done,
                next,
                nominal,
                t,
            )[i] <= hi,
{
    let r = joined(done, next, nominal, t);
    if done.len() > 0 {
        let f = fade_at(done.len(), next.len(), nominal);
        assert forall|i: int| 0 <= i < r.len() implies lo <= #[trigger] r[i] <= hi by {
            let a = done.len() - f;
            if i < a {
                assert(r[i] == done[i]);
            } else if i < done.len() {
                let k = i - a;
                assert(lo <= done[a + k] <= hi);
                mixing_stays_between(done[a + k], next[k], gain_at(t, f, k as nat), lo, hi);
                assert(r[i] == mixed(done[a + k], next[k], gain_at(t, f, k as nat)) as i16);
            } else {
                assert(r[i] == next[f + (i - done.len())]);
            }
        }
    }
}

/// A mixed sample is the weighted mean of the two: the first counts for its gain
/// and the second for what is left to one, to the nearest whole number.
pub proof fn mixing_is_a_weighted_mean(fading: i16, rising: i16, g: nat)
    requires
        g <= unit(),
    ensures
        ({
            let mean = fading * g + rising * (unit() - g);
            &&& 4 * (mixed(fading, rising, g) * unit()) <= 4 * mean + 3 * unit()
            &&& 4 * mean <= 4 * (mixed(fading, rising, g) * unit()) + 3 * unit()
        }),
{
    let u = unit() as int;
    let e = pow2(1041) as int;
    steps_are_small();
    lemma_pow2_pos(1074);
    vstd::arithmetic::power2::lemma2_to64();
    vstd::arithmetic::power2::lemma_pow2_adds(20, 1041);
    vstd::arithmetic::power2::lemma_pow2_strictly_increases(1061, 1074);
    assert(0x10_0000 * e <= u);
    let left = (u - g) as nat;
    let h = apart(unit(), g);
    rounding_moves_little(left);
    let (a, b) = (fading as int, rising as int);
    lemma_voiced(fading, g);
    lemma_voiced(rising, h);
    let x = times_signed(sample(fading), g);
    let y = times_signed(sample(rising), h);
    assert(-32768 * e <= b * h - b * left <= 32768 * e) by (nonlinear_arith)
        requires
            -32768 <= b <= 32767,
            left - e <= h <= left + e,
            e >= 0,
    {
        let t = h - left;
        assert(b * h - b * left == b * t);
        assert(-32768 * e <= b * t <= 32768 * e) by (nonlinear_arith)
            requires
                -32768 <= b <= 32767,
                -e <= t <= e,
                e >= 0,
        ;
    }
    let mean = a * g + b * (u - g);
    assert(b * left == b * (u - g)) by (nonlinear_arith)
        requires
            left == u - g,
    ;
    assert(-32768 * u <= mean <= 32767 * u) by (nonlinear_arith)
        requires
            mean == a * g + b * (u - g),
            0 <= g <= u,
            -32768 <= a <= 32767,
            -32768 <= b <= 32767,
    {
        assert(-32768 * g <= a * g <= 32767 * g);
        assert(-32768 * (u - g) <= b * (u - g) <= 32767 * (u - g));
    }
    let sum = x + y;
    let size: nat = if sum < 0 {
        (0 - sum) as nat
    } else {
        sum as nat
    };
    assert(size <= 0x4_0000 * u);
    rounding_moves_little(size);
    let m = mixture(fading, rising, g);
    assert(mean - 32771 * e <= m <= mean + 32771 * e);
    mixing_stays_between(fading, rising, g, -32768, 32767);
    let r = round_away(m);
    let k: int = if m < 0 {
        -m
    } else {
        m
    };
    let q = (2 * k + u) / (2 * u);
    vstd::arithmetic::div_mod::lemma_fundamental_div_mod(2 * k + u, 2 * u);
    vstd::arithmetic::div_mod::lemma_mod_bound(2 * k + u, 2 * u);
    assert((2 * u) * q == 2 * (q * u)) by (nonlinear_arith);
    assert((-q) * u == -(q * u)) by (nonlinear_arith);
    assert(2 * (r * u) <= 2 * m + u && 2 * m <= 2 * (r * u) + u);
    assert(-32768 <= r <= 32767) by (nonlinear_arith)
        requires
            2 * (r * u) <= 2 * m + u,
            2 * m <= 2 * (r * u) + u,
            m <= mean + 32771 * e,
            mean - 32771 * e <= m,
            -32768 * u <= mean <= 32767 * u,
            0x2_0000 * e <= u,
            u > 0,
    ;
}

/// In a fade, the end of one side and the start of the other are mixed sample by
/// sample, at the gain that the curve gives for the sample: the first side fades
/// with it, and the second rises with what is left.
pub proof fn fades_mix_sample_by_sample(
    done: Seq<i16>,
    next: Seq<i16>,
    nominal: nat,
    t: Gains,
    i: nat,
)
    requires
        i < fade_at(done.len(), next.len(), nominal),
        t(fade_at(done.len(), next.len(), nominal), i) <= unit(),
    ensures
        ({
            let f = fade_at(done.len(), next.len(), nominal);
            let at = done.len() - f + i;
            let g = t(f, i);
            let mean = done[at] * g + next[i as int] * (unit() - g);
            let out = joined(done, next, nominal, t)[at];
            4 * (out * unit()) <= 4 * mean + 3 * unit() && 4 * mean <= 4 * (out * unit()) + 3
                * unit()
        }),
{
    let f = fade_at(done.len(), next.len(), nominal);
    let at = done.len() - f + i;
    let g = t(f, i);
    mixing_is_a_weighted_mean(done[at], next[i as int], g);
    mixing_stays_between(done[at], next[i as int], g, -32768, 32767);
    assert(joined(done, next, nominal, t)[at] == mixed(done[at], next[i as int], g) as i16);
}

} // verus!
