//! Word and phoneme boundary alignment.
//!
//! Boundaries are seeded in proportion to the characters of the words. Each
//! seeded boundary may then snap to the deepest energy trough in a search
//! window: to the middle of the trough region, since pauses between words are
//! plateaus and the middle is the least-biased estimate of the word edge.

use crate::audio::WavAudio;
use crate::double::{
    apart, doubles_are_exact, doubles_keep_the_order, nothing_over, over, plus, ratio,
    ratios_are_positive, single, singles_are_kept, singles_keep_the_order, times, views, Double,
};
use crate::limits::{cap, capped};
use crate::measure::{level, level_of};
use crate::text::{char_count, texts, total_len};
use vstd::prelude::*;

verus! {

/// How boundaries are found.
#[derive(Debug, Clone, Copy, PartialEq, Eq, Structural)]
pub enum AlignMode {
    /// Character-proportional splits, no signal analysis.
    Proportional,
    /// Seed proportionally, snap to energy troughs within a window in nanoseconds.
    EnergyRefined { search_ns: u64 },
}

impl Default for AlignMode {
    fn default() -> (r: AlignMode)
        ensures
            r == (AlignMode::EnergyRefined { search_ns: 100_000_000 }),
    {
        AlignMode::EnergyRefined { search_ns: 100_000_000 }
    }
}

/// Half-open sample span `start..end`.
#[derive(Debug, Clone, Copy, PartialEq, Eq, Structural)]
pub struct Span {
    pub start: usize,
    pub end: usize,
}

impl Span {
    /// The number of samples; none where the span ends before it starts.
    pub fn len(&self) -> (r: usize)
        ensures
            r == (if self.end >= self.start {
                self.end - self.start
            } else {
                0
            }),
    {
        if self.end >= self.start {
            self.end - self.start
        } else {
            0
        }
    }
}

// ---- proportional seeds ----

/// The sum of the first `k` weights.
pub open spec fn weight_before(weights: Seq<nat>, k: nat) -> nat
    decreases k,
{
    if k == 0 {
        0
    } else {
        weight_before(weights, (k - 1) as nat) + weights[k - 1]
    }
}

/// Boundaries in proportion to the weights, from 0 to `total`.
pub open spec fn proportional(total: nat, weights: Seq<nat>) -> Seq<nat> {
    Seq::new(
        weights.len() + 1,
        |k: int|
            total * weight_before(weights, k as nat) / weight_before(weights, weights.len()),
    )
}

proof fn lemma_weight_monotone(weights: Seq<nat>, j: nat, k: nat)
    requires
        j <= k,
    ensures
        weight_before(weights, j) <= weight_before(weights, k),
    decreases k,
{
    if j < k {
        lemma_weight_monotone(weights, j, (k - 1) as nat);
    }
}

/// A sequence of boundaries that never goes back and stays within `total`.
pub open spec fn ascending(b: Seq<nat>, total: nat) -> bool {
    &&& forall|i: int, j: int| 0 <= i <= j < b.len() ==> #[trigger] b[i] <= #[trigger] b[j]
    &&& forall|i: int| 0 <= i < b.len() ==> #[trigger] b[i] <= total
}

proof fn lemma_scaled(total: nat, a: nat, b: nat, sum: nat)
    requires
        a <= b <= sum,
        sum > 0,
    ensures
        total * a / sum <= total * b / sum <= total,
        total * 0 / sum == 0,
        total * sum / sum == total,
{
    assert(total * a <= total * b <= total * sum) by (nonlinear_arith)
        requires
            a <= b <= sum,
    ;
    vstd::arithmetic::div_mod::lemma_div_is_ordered(
        (total * a) as int,
        (total * b) as int,
        sum as int,
    );
    vstd::arithmetic::div_mod::lemma_div_is_ordered(
        (total * b) as int,
        (total * sum) as int,
        sum as int,
    );
    assert((total * sum) / sum == total) by {
        vstd::arithmetic::div_mod::lemma_div_by_multiple(total as int, sum as int);
    }
    assert((total * 0) / sum == 0) by (nonlinear_arith)
        requires
            sum > 0,
    ;
}

/// Proportional boundaries run from 0 to the end without going back.
pub proof fn proportional_is_ascending(total: nat, weights: Seq<nat>)
    requires
        weight_before(weights, weights.len()) > 0,
    ensures
        ascending(proportional(total, weights), total),
        proportional(total, weights)[0] == 0,
        proportional(total, weights)[weights.len() as int] == total,
{
    let sum = weight_before(weights, weights.len());
    let b = proportional(total, weights);
    assert forall|i: int, j: int| 0 <= i <= j < b.len() implies #[trigger] b[i]
        <= #[trigger] b[j] by {
        lemma_weight_monotone(weights, i as nat, j as nat);
        lemma_weight_monotone(weights, j as nat, weights.len());
        lemma_scaled(
            total,
            weight_before(weights, i as nat),
            weight_before(weights, j as nat),
            sum,
        );
    }
    assert forall|i: int| 0 <= i < b.len() implies #[trigger] b[i] <= total by {
        lemma_weight_monotone(weights, i as nat, weights.len());
        lemma_scaled(total, weight_before(weights, i as nat), sum, sum);
    }
    lemma_scaled(total, 0, sum, sum);
}

fn proportional_bounds(total: usize, weights: &Vec<usize>) -> (r: Vec<usize>)
    requires
        0 < weight_before(nats(weights@), weights@.len()) <= usize::MAX,
    ensures
        nats(r@) == proportional(total as nat, nats(weights@)),
{
    let ghost w = nats(weights@);
    let n: usize = weights.len();
    let mut sum: usize = 0;
    let mut i: usize = 0;
    while i < n
        invariant
            w == nats(weights@),
            n == w.len(),
            weight_before(w, n as nat) <= usize::MAX,
            i <= n,
            sum == weight_before(w, i as nat),
        decreases n - i,
    {
        proof {
            lemma_weight_monotone(w, (i + 1) as nat, n as nat);
        }
        sum += weights[i];
        i += 1;
    }
    let ghost want = proportional(total as nat, w);
    let mut out: Vec<usize> = Vec::new();
    out.push(0);
    proof {
        proportional_is_ascending(total as nat, w);
    }
    let mut cum: usize = 0;
    let mut k: usize = 0;
    while k < n
        invariant
            w == nats(weights@),
            n == w.len(),
            sum == weight_before(w, n as nat),
            0 < sum,
            want == proportional(total as nat, w),
            ascending(want, total as nat),
            k <= n,
            cum == weight_before(w, k as nat),
            out@.len() == k + 1,
            forall|j: int| 0 <= j <= k ==> out@[j] == #[trigger] want[j],
        decreases n - k,
    {
        proof {
            lemma_weight_monotone(w, (k + 1) as nat, n as nat);
            assert(want[k + 1] <= total);
        }
        cum += weights[k];
        assert(total * cum <= 0xffff_ffff_ffff_ffff * 0xffff_ffff_ffff_ffff) by (nonlinear_arith)
            requires
                total <= 0xffff_ffff_ffff_ffff,
                cum <= 0xffff_ffff_ffff_ffff,
        ;
        let at: u128 = (total as u128) * (cum as u128) / (sum as u128);
        assert(at == want[k + 1]);
        out.push(at as usize);
        k += 1;
    }
    assert(nats(out@) =~= want);
    out
}

/// The values of a sequence of machine integers.
pub open spec fn nats(v: Seq<usize>) -> Seq<nat> {
    Seq::new(v.len(), |i: int| v[i] as nat)
}

// ---- energy troughs ----

/// The level of each hop of the audio, to single precision. Audio shorter than a
/// frame has none.
pub open spec fn profile(s: Seq<i16>, frame: nat, hop: nat) -> Seq<nat> {
    if hop == 0 || s.len() < frame {
        Seq::empty()
    } else {
        Seq::new(s.len() / hop, |k: int| single(level(s.subrange(k * hop, k * hop + hop))))
    }
}

/// A profile holds levels to single precision.
pub proof fn profiles_are_single(s: Seq<i16>, frame: nat, hop: nat)
    ensures
        singles(profile(s, frame, hop)),
{
    let p = profile(s, frame, hop);
    assert forall|k: int| 0 <= k < p.len() implies single(#[trigger] p[k]) == p[k] by {
        singles_are_kept(level(s.subrange(k * hop, k * hop + hop)));
    }
}

fn energy_profile(s: &Vec<i16>, frame: usize, hop: usize) -> (r: Vec<Double>)
    ensures
        views(r@) == profile(s@, frame as nat, hop as nat),
        singles(views(r@)),
{
    proof {
        profiles_are_single(s@, frame as nat, hop as nat);
    }
    let n: usize = s.len();
    let mut out: Vec<Double> = Vec::new();
    if hop == 0 || n < frame {
        assert(views(out@) =~= profile(s@, frame as nat, hop as nat));
        return out;
    }
    let count: usize = n / hop;
    let mut k: usize = 0;
    while k < count
        invariant
            n == s@.len(),
            hop > 0,
            n >= frame,
            count == n / hop,
            k <= count,
            out@.len() == k,
            forall|j: int|
                0 <= j < k ==> out@[j]@ == #[trigger] profile(s@, frame as nat, hop as nat)[j],
        decreases count - k,
    {
        assert(k * hop + hop <= n) by (nonlinear_arith)
            requires
                k < n / hop,
                hop > 0,
        {
            vstd::arithmetic::div_mod::lemma_fundamental_div_mod(n as int, hop as int);
            assert((k + 1) * hop <= (n / hop) * hop);
        }
        let from: usize = k * hop;
        let here = level_of(s, from, from + hop);
        out.push(here.single());
        k += 1;
    }
    assert(views(out@) =~= profile(s@, frame as nat, hop as nat));
    out
}

/// The least value of a window that is not empty.
pub open spec fn least(w: Seq<nat>) -> nat
    decreases w.len(),
{
    if w.len() <= 1 {
        w[0]
    } else if w.last() < least(w.drop_last()) {
        w.last()
    } else {
        least(w.drop_last())
    }
}

/// The greatest value of a window that is not empty.
pub open spec fn greatest(w: Seq<nat>) -> nat
    decreases w.len(),
{
    if w.len() <= 1 {
        w[0]
    } else if w.last() > greatest(w.drop_last()) {
        w.last()
    } else {
        greatest(w.drop_last())
    }
}

proof fn lemma_extremes(w: Seq<nat>)
    requires
        w.len() > 0,
    ensures
        forall|i: int| 0 <= i < w.len() ==> least(w) <= #[trigger] w[i] <= greatest(w),
        exists|i: int| 0 <= i < w.len() && #[trigger] w[i] == least(w),
    decreases w.len(),
{
    if w.len() == 1 {
        assert(w[0] == least(w));
    } else {
        let init = w.drop_last();
        lemma_extremes(init);
        let k = choose|i: int| 0 <= i < init.len() && #[trigger] init[i] == least(init);
        assert(w[k] == init[k]);
        assert(w[w.len() - 1] == w.last());
        assert forall|i: int| 0 <= i < w.len() implies least(w) <= #[trigger] w[i] <= greatest(
            w,
        ) by {
            if i < init.len() {
                assert(w[i] == init[i]);
            }
        }
    }
}

/// How far the values of a window lie apart.
pub open spec fn spread(w: Seq<nat>) -> nat {
    single(apart(greatest(w), least(w)))
}

/// One twentieth.
pub open spec fn twentieth() -> nat {
    single(ratio(5, 100))
}

/// A twentieth of the window's range above its least value.
pub open spec fn threshold(w: Seq<nat>) -> nat {
    single(plus(least(w), single(times(spread(w), twentieth()))))
}

/// Whether a window is silent, or flat.
pub open spec fn is_flat(w: Seq<nat>) -> bool {
    greatest(w) < single(ratio(1, 1_000_000)) || single(over(spread(w), greatest(w))) < twentieth()
}

/// Levels to single precision.
pub open spec fn singles(w: Seq<nat>) -> bool {
    forall|i: int| 0 <= i < w.len() ==> single(#[trigger] w[i]) == w[i]
}

/// The least value lies within the threshold.
proof fn lemma_threshold(w: Seq<nat>)
    requires
        w.len() > 0,
        singles(w),
    ensures
        least(w) <= threshold(w),
{
    lemma_extremes(w);
    let k = choose|i: int| 0 <= i < w.len() && #[trigger] w[i] == least(w);
    let more = single(times(spread(w), twentieth()));
    singles_are_kept(w[k]);
    doubles_keep_the_order(least(w), least(w) + more, 1);
    singles_keep_the_order(least(w), plus(least(w), more));
}

/// The positions within the first `n` of a window whose value is at most the
/// threshold.
pub open spec fn trough(w: Seq<nat>, n: nat) -> Seq<nat>
    decreases n,
{
    if n == 0 {
        Seq::empty()
    } else if w[n - 1] <= threshold(w) {
        trough(w, (n - 1) as nat).push((n - 1) as nat)
    } else {
        trough(w, (n - 1) as nat)
    }
}

proof fn lemma_trough(w: Seq<nat>, n: nat)
    requires
        0 < w.len(),
        n <= w.len(),
        singles(w),
    ensures
        trough(w, n).len() <= n,
        forall|i: int| 0 <= i < trough(w, n).len() ==> #[trigger] trough(w, n)[i] < n,
        n == w.len() ==> trough(w, n).len() > 0,
    decreases n,
{
    lemma_extremes(w);
    if n > 0 {
        lemma_trough(w, (n - 1) as nat);
    }
    if n == w.len() {
        let k = choose|i: int| 0 <= i < w.len() && #[trigger] w[i] == least(w);
        lemma_trough_holds(w, n, k as nat);
    }
}

proof fn lemma_trough_holds(w: Seq<nat>, n: nat, k: nat)
    requires
        k < n <= w.len(),
        w[k as int] == least(w),
        singles(w),
    ensures
        trough(w, n).len() > 0,
    decreases n,
{
    lemma_threshold(w);
    if k < n - 1 {
        lemma_trough_holds(w, (n - 1) as nat, k);
    }
}

/// Where a boundary seeded at `seed` goes: the middle of the trough within
/// `search` samples, or nowhere if the window is silent or flat.
pub open spec fn snapped(seed: nat, p: Seq<nat>, hop: nat, search: nat) -> nat {
    if p.len() == 0 || search == 0 {
        seed
    } else {
        let center = seed / hop;
        let radius = search / hop;
        let lo = if center < radius {
            0
        } else {
            center - radius
        };
        let hi = if center + radius + 1 < p.len() {
            (center + radius + 1) as int
        } else {
            p.len() as int
        };
        if lo >= hi {
            seed
        } else {
            let w = p.subrange(lo, hi);
            if is_flat(w) {
                seed
            } else {
                let t = trough(w, w.len());
                ((lo + t[t.len() as int / 2]) * hop + hop / 2) as nat
            }
        }
    }
}

/// A boundary stays where it was seeded while the energy around it is steady.
pub proof fn steady_energy_keeps_the_seed(seed: nat, p: Seq<nat>, hop: nat, search: nat)
    requires
        forall|i: int, j: int| 0 <= i < p.len() && 0 <= j < p.len() ==> #[trigger] p[i]
            == #[trigger] p[j],
    ensures
        snapped(seed, p, hop, search) == seed,
{
    let center = seed / hop;
    let radius = search / hop;
    let lo: int = if center < radius {
        0
    } else {
        center - radius
    };
    let hi: int = if center + radius + 1 < p.len() {
        (center + radius + 1) as int
    } else {
        p.len() as int
    };
    if p.len() > 0 && search > 0 && lo < hi {
        let w = p.subrange(lo, hi);
        lemma_extremes(w);
        lemma_greatest_is_met(w);
        let k = choose|i: int| 0 <= i < w.len() && #[trigger] w[i] == least(w);
        let m = choose|i: int| 0 <= i < w.len() && #[trigger] w[i] == greatest(w);
        assert(w[k] == p[lo + k] && w[m] == p[lo + m]);
        lemma_steady_is_flat(w);
    }
}

/// A window without a range is flat.
proof fn lemma_steady_is_flat(w: Seq<nat>)
    requires
        greatest(w) == least(w),
    ensures
        is_flat(w),
{
    let top = greatest(w);
    ratios_are_positive(1, 1_000_000);
    ratios_are_positive(5, 100);
    doubles_are_exact(0, 0);
    assert(0 * vstd::arithmetic::power2::pow2(0) == 0);
    singles_are_kept(0);
    singles_keep_the_order(0, 0);
    crate::double::nothing_is_single();
    if top > 0 {
        nothing_over(top);
    }
}

proof fn lemma_greatest_is_met(w: Seq<nat>)
    requires
        w.len() > 0,
    ensures
        exists|i: int| 0 <= i < w.len() && #[trigger] w[i] == greatest(w),
    decreases w.len(),
{
    if w.len() == 1 {
        assert(w[0] == greatest(w));
    } else {
        let init = w.drop_last();
        lemma_greatest_is_met(init);
        let k = choose|i: int| 0 <= i < init.len() && #[trigger] init[i] == greatest(init);
        assert(w[k] == init[k]);
        assert(w[w.len() - 1] == w.last());
    }
}

/// A boundary moves by no more than the search window and one hop.
pub proof fn boundaries_stay_near_their_seed(seed: nat, p: Seq<nat>, hop: nat, search: nat)
    requires
        hop > 0,
        singles(p),
    ensures
        snapped(seed, p, hop, search) <= seed + search + hop,
        seed <= snapped(seed, p, hop, search) + search + hop,
{
    let center = seed / hop;
    let radius = search / hop;
    let lo: int = if center < radius {
        0
    } else {
        center - radius
    };
    let hi: int = if center + radius + 1 < p.len() {
        (center + radius + 1) as int
    } else {
        p.len() as int
    };
    if p.len() > 0 && search > 0 && lo < hi {
        let w = p.subrange(lo, hi);
        assert(singles(w)) by {
            assert forall|i: int| 0 <= i < w.len() implies single(#[trigger] w[i]) == w[i] by {
                assert(w[i] == p[lo + i]);
            }
        }
        lemma_trough(w, w.len());
        let t = trough(w, w.len());
        assert(t[t.len() as int / 2] < w.len());
        let at = lo + t[t.len() as int / 2];
        assert(center - radius <= at <= center + radius);
        let h = hop as int;
        let c = center as int;
        let r = radius as int;
        assert(c * h <= seed < c * h + h && r * h <= search) by (nonlinear_arith)
            requires
                h > 0,
                c == (seed as int) / h,
                r == (search as int) / h,
        ;
        assert(at * h <= c * h + r * h && c * h <= at * h + r * h) by (nonlinear_arith)
            requires
                h > 0,
                c - r <= at <= c + r,
        ;
    }
}

/// The least and the greatest of `p[lo..hi]`.
fn extremes(p: &Vec<Double>, lo: usize, hi: usize) -> (r: (Double, Double))
    requires
        lo < hi <= p@.len(),
    ensures
        r.0@ == least(views(p@).subrange(lo as int, hi as int)),
        r.1@ == greatest(views(p@).subrange(lo as int, hi as int)),
{
    let ghost w = views(p@).subrange(lo as int, hi as int);
    let mut min = p[lo];
    let mut max = p[lo];
    let mut i: usize = lo + 1;
    assert(w.take(1) =~= seq![w[0]]);
    while i < hi
        invariant
            lo < i <= hi <= p@.len(),
            w == views(p@).subrange(lo as int, hi as int),
            min@ == least(w.take(i - lo)),
            max@ == greatest(w.take(i - lo)),
        decreases hi - i,
    {
        proof {
            assert(w.take(i + 1 - lo).drop_last() =~= w.take(i - lo));
            assert(w.take(i + 1 - lo).last() == p@[i as int]@);
        }
        if p[i].less(min) {
            min = p[i];
        }
        if max.less(p[i]) {
            max = p[i];
        }
        i += 1;
    }
    assert(w.take(hi - lo) =~= w);
    (min, max)
}

/// The middle of the trough of `p[lo..hi]`, counted from `lo`.
fn trough_middle(p: &Vec<Double>, lo: usize, hi: usize, limit: Double) -> (r: usize)
    requires
        lo < hi <= p@.len(),
        singles(views(p@)),
        limit@ == threshold(views(p@).subrange(lo as int, hi as int)),
    ensures
        ({
            let w = views(p@).subrange(lo as int, hi as int);
            let t = trough(w, w.len());
            r == t[t.len() as int / 2]
        }),
        r < hi - lo,
{
    let ghost w = views(p@).subrange(lo as int, hi as int);
    let mut low: Vec<usize> = Vec::new();
    let mut j: usize = lo;
    assert(nats(low@) =~= trough(w, 0));
    while j < hi
        invariant
            lo <= j <= hi <= p@.len(),
            w == views(p@).subrange(lo as int, hi as int),
            w.len() > 0,
            limit@ == threshold(w),
            nats(low@) == trough(w, (j - lo) as nat),
        decreases hi - j,
    {
        proof {
            assert(w[j - lo] == p@[j as int]@);
        }
        let ghost before = nats(low@);
        if !limit.less(p[j]) {
            low.push(j - lo);
            assert(nats(low@) =~= before.push((j - lo) as nat));
        }
        j += 1;
    }
    proof {
        assert(singles(w)) by {
            assert forall|i: int| 0 <= i < w.len() implies single(#[trigger] w[i]) == w[i] by {
                assert(w[i] == views(p@)[lo + i]);
            }
        }
        lemma_trough(w, w.len());
        assert(nats(low@).len() == low@.len());
        assert(nats(low@)[low@.len() as int / 2] == low@[low@.len() as int / 2]);
    }
    low[low.len() / 2]
}

fn snap_to_trough(seed: usize, p: &Vec<Double>, hop: usize, search: u64) -> (r: u128)
    requires
        hop > 0,
        singles(views(p@)),
    ensures
        r == snapped(seed as nat, views(p@), hop as nat, search as nat),
{
    let n: usize = p.len();
    if n == 0 || search == 0 {
        return seed as u128;
    }
    let center: u128 = (seed / hop) as u128;
    let radius: u128 = (search / (hop as u64)) as u128;
    let first: u128 = if center < radius {
        0
    } else {
        center - radius
    };
    let end: u128 = if center + radius + 1 < n as u128 {
        center + radius + 1
    } else {
        n as u128
    };
    if first >= end {
        return seed as u128;
    }
    let lo: usize = first as usize;
    let hi: usize = end as usize;
    let (min, max) = extremes(p, lo, hi);
    proof {
        ratios_are_positive(1, 1_000_000);
    }
    if max.less(Double::of_ratio(1, 1_000_000).single()) {
        return seed as u128;
    }
    let range = max.apart(min).single();
    let part = Double::of_ratio(5, 100).single();
    if range.over(max).single().less(part) {
        return seed as u128;
    }
    let limit = min.plus(range.times(part).single()).single();
    let mid: usize = trough_middle(p, lo, hi, limit);
    let at: u128 = (lo + mid) as u128;
    let step: u128 = hop as u128;
    assert(at * step <= 0xffff_ffff_ffff_ffff * 0xffff_ffff_ffff_ffff) by (nonlinear_arith)
        requires
            at <= 0xffff_ffff_ffff_ffff,
            step <= 0xffff_ffff_ffff_ffff,
    ;
    at * step + step / 2
}

// ---- refinement ----

/// How boundaries are refined: the profile and what a hop, the search window
/// and the shortest unit are in samples.
pub struct Refinement {
    pub profile: Seq<nat>,
    pub hop: nat,
    pub search: nat,
    pub min_unit: nat,
    pub total: nat,
}

/// The refinement of audio: hops of 2.5 ms, frames of 5 ms.
pub open spec fn refinement(
    s: Seq<i16>,
    rate: u32,
    search_ns: u64,
    min_unit_ms: u32,
) -> Refinement {
    Refinement {
        profile: profile(s, (rate / 200) as nat, (rate / 400) as nat),
        hop: (rate / 400) as nat,
        search: capped((rate as nat * search_ns as nat) / 1_000_000_000) as nat,
        min_unit: (rate * min_unit_ms / 1000) as nat,
        total: s.len(),
    }
}

/// Boundary `i` after refinement from left to right: snapped, but no closer to
/// the boundary before it than a unit lasts, and within the audio. The outer
/// boundaries stay.
pub open spec fn refined_at(b: Seq<nat>, how: Refinement, i: nat) -> nat
    decreases i,
{
    if i == 0 || i + 1 >= b.len() {
        b[i as int]
    } else {
        let floor = refined_at(b, how, (i - 1) as nat) + how.min_unit;
        let to = snapped(b[i as int], how.profile, how.hop, how.search);
        let at = if to < floor {
            floor
        } else {
            to
        };
        if at < how.total {
            at
        } else {
            how.total
        }
    }
}

/// Boundaries after refinement.
pub open spec fn refined(b: Seq<nat>, how: Refinement) -> Seq<nat> {
    Seq::new(b.len(), |i: int| refined_at(b, how, i as nat))
}

/// Boundaries that cover `total` from the start to the end.
pub open spec fn covering(b: Seq<nat>, total: nat) -> bool {
    &&& b.len() >= 2
    &&& b[0] == 0
    &&& b.last() == total
    &&& ascending(b, total)
}

proof fn lemma_refined_order(b: Seq<nat>, how: Refinement, i: nat, j: nat)
    requires
        covering(b, how.total),
        i <= j < b.len(),
    ensures
        refined_at(b, how, i) <= refined_at(b, how, j) <= how.total,
    decreases j,
{
    if i < j {
        lemma_refined_order(b, how, i, (j - 1) as nat);
    } else if j > 0 {
        lemma_refined_order(b, how, (j - 1) as nat, (j - 1) as nat);
    }
}

/// Refinement keeps boundaries in order, from the start to the end, and units
/// no shorter than the shortest unit except at the end of the audio.
pub proof fn refinement_keeps_order(b: Seq<nat>, how: Refinement)
    requires
        covering(b, how.total),
    ensures
        covering(refined(b, how), how.total),
        forall|i: int|
            0 < i < b.len() - 1 ==> #[trigger] refined(b, how)[i] == how.total || refined(
                b,
                how,
            )[i] >= refined(b, how)[i - 1] + how.min_unit,
{
    let r = refined(b, how);
    assert forall|i: int, j: int| 0 <= i <= j < r.len() implies #[trigger] r[i]
        <= #[trigger] r[j] by {
        lemma_refined_order(b, how, i as nat, j as nat);
    }
    assert forall|i: int| 0 <= i < r.len() implies #[trigger] r[i] <= how.total by {
        lemma_refined_order(b, how, i as nat, i as nat);
    }
}

fn refine(bounds: &mut Vec<usize>, audio: &WavAudio, search_ns: u64, min_unit_ms: u32)
    requires
        covering(nats(old(bounds)@), audio@.samples.len()),
    ensures
        nats(final(bounds)@) == refined(
            nats(old(bounds)@),
            refinement(audio@.samples, audio@.sample_rate, search_ns, min_unit_ms),
        ),
{
    let ghost b = nats(old(bounds)@);
    let ghost how = refinement(audio@.samples, audio@.sample_rate, search_ns, min_unit_ms);
    let rate: u32 = audio.sample_rate;
    let hop: usize = (rate / 400) as usize;
    let frame: usize = (rate / 200) as usize;
    let p = energy_profile(&audio.samples, frame, hop);
    assert(rate * search_ns <= 0xffff_ffff * 0xffff_ffff_ffff_ffff) by (nonlinear_arith)
        requires
            rate <= 0xffff_ffff,
            search_ns <= 0xffff_ffff_ffff_ffff,
    ;
    assert(rate * min_unit_ms <= 0xffff_ffff * 0xffff_ffff) by (nonlinear_arith)
        requires
            rate <= 0xffff_ffff,
            min_unit_ms <= 0xffff_ffff,
    ;
    let search: u64 = cap((rate as u128 * search_ns as u128) / 1_000_000_000);
    let min_unit: u64 = rate as u64 * min_unit_ms as u64 / 1000;
    let total: usize = audio.samples.len();
    let n: usize = bounds.len();
    let mut i: usize = 1;
    while i < n - 1
        invariant
            n == b.len(),
            n >= 2,
            1 <= i <= n - 1,
            covering(b, how.total),
            bounds@.len() == n,
            forall|k: int| 0 <= k < i ==> #[trigger] bounds@[k] == refined_at(b, how, k as nat),
            forall|k: int| i <= k < n ==> #[trigger] bounds@[k] == b[k],
            total == how.total,
            hop == how.hop,
            views(p@) == how.profile,
            singles(views(p@)),
            hop == 0 ==> p@.len() == 0,
            search == how.search,
            min_unit == how.min_unit,
        decreases n - i,
    {
        let floor: u128 = bounds[i - 1] as u128 + min_unit as u128;
        let to: u128 = if hop == 0 {
            bounds[i] as u128
        } else {
            snap_to_trough(bounds[i], &p, hop, search)
        };
        let at: u128 = if to < floor {
            floor
        } else {
            to
        };
        let kept: usize = if at < total as u128 {
            at as usize
        } else {
            total
        };
        bounds.set(i, kept);
        i += 1;
    }
    assert(nats(bounds@) =~= refined(b, how));
}

// ---- spans ----

/// The spans between consecutive boundaries.
pub open spec fn spans_between(b: Seq<nat>) -> Seq<(nat, nat)> {
    Seq::new((b.len() - 1) as nat, |i: int| (b[i], b[i + 1]))
}

/// The values of a sequence of spans.
pub open spec fn span_pairs(v: Seq<Span>) -> Seq<(nat, nat)> {
    Seq::new(v.len(), |i: int| (v[i].start as nat, v[i].end as nat))
}

/// The weight of each word: its characters, and one for the space before every
/// word but the first.
pub open spec fn word_weights(ws: Seq<Seq<char>>) -> Seq<nat> {
    Seq::new(
        ws.len(),
        |i: int|
            ws[i].len() + (if i > 0 {
                1nat
            } else {
                0nat
            }),
    )
}

pub proof fn lemma_word_weights(ws: Seq<Seq<char>>, k: nat)
    requires
        k <= ws.len(),
    ensures
        weight_before(word_weights(ws), k) == total_len(ws.take(k as int)) + (if k == 0 {
            0
        } else {
            k - 1
        }),
    decreases k,
{
    if k > 0 {
        lemma_word_weights(ws, (k - 1) as nat);
        assert(ws.take(k as int).drop_last() =~= ws.take(k - 1));
        assert(ws.take(k as int).last() == ws[k - 1]);
    } else {
        assert(ws.take(0) =~= Seq::<Seq<char>>::empty());
    }
}

/// The boundaries of words in audio.
pub open spec fn word_bounds(s: Seq<i16>, rate: u32, ws: Seq<Seq<char>>, mode: AlignMode) -> Seq<
    nat,
> {
    let seeds = proportional(s.len(), word_weights(ws));
    match mode {
        AlignMode::Proportional => seeds,
        AlignMode::EnergyRefined { search_ns } => refined(seeds, refinement(s, rate, search_ns, 30)),
    }
}

/// Word boundaries cover the audio from its start to its end, in order.
pub proof fn words_cover_the_audio(s: Seq<i16>, rate: u32, ws: Seq<Seq<char>>, mode: AlignMode)
    requires
        ws.len() > 0,
        total_len(ws) + ws.len() > 1,
    ensures
        word_bounds(s, rate, ws, mode).len() == ws.len() + 1,
        covering(word_bounds(s, rate, ws, mode), s.len()),
{
    lemma_word_weights(ws, ws.len());
    assert(ws.take(ws.len() as int) =~= ws);
    proportional_is_ascending(s.len(), word_weights(ws));
    if let AlignMode::EnergyRefined { search_ns } = mode {
        refinement_keeps_order(
            proportional(s.len(), word_weights(ws)),
            refinement(s, rate, search_ns, 30),
        );
    }
}

fn to_spans(bounds: &Vec<usize>) -> (r: Vec<Span>)
    requires
        bounds@.len() >= 1,
    ensures
        span_pairs(r@) == spans_between(nats(bounds@)),
{
    let n: usize = bounds.len();
    let mut out: Vec<Span> = Vec::new();
    let mut i: usize = 0;
    while i < n - 1
        invariant
            n == bounds@.len(),
            n >= 1,
            i <= n - 1,
            out@.len() == i,
            forall|k: int|
                0 <= k < i ==> (#[trigger] out@[k]).start == bounds@[k] && out@[k].end == bounds@[k
                    + 1],
        decreases n - i,
    {
        out.push(Span { start: bounds[i], end: bounds[i + 1] });
        i += 1;
    }
    assert(span_pairs(out@) =~= spans_between(nats(bounds@)));
    out
}

/// Word spans for `words` over `audio`.
pub fn word_spans(audio: &WavAudio, words: &[String], mode: AlignMode) -> (r: Vec<Span>)
    requires
        words@.len() > 0 ==> 1 < total_len(texts(words@)) + words@.len() <= usize::MAX + 1,
    ensures
        words@.len() == 0 ==> r@.len() == 0,
        words@.len() > 0 ==> span_pairs(r@) == spans_between(
            word_bounds(audio@.samples, audio@.sample_rate, texts(words@), mode),
        ),
{
    if words.len() == 0 {
        return Vec::new();
    }
    let ghost ws = texts(words@);
    let n: usize = words.len();
    let mut weights: Vec<usize> = Vec::new();
    let mut i: usize = 0;
    while i < n
        invariant
            ws == texts(words@),
            n == words@.len(),
            i <= n,
            total_len(ws) + n <= usize::MAX + 1,
            weights@.len() == i,
            forall|k: int| 0 <= k < i ==> #[trigger] weights@[k] == word_weights(ws)[k],
        decreases n - i,
    {
        proof {
            crate::text::lemma_total_len_part(ws, i as int, i + 1);
            assert(ws.subrange(i as int, i + 1) =~= seq![ws[i as int]]);
            assert(seq![ws[i as int]].drop_last() =~= Seq::<Seq<char>>::empty());
            assert(total_len(seq![ws[i as int]]) == ws[i as int].len()) by {
                reveal_with_fuel(total_len, 2);
            }
        }
        let chars: usize = char_count(words[i].as_str());
        weights.push(
            if i > 0 {
                chars + 1
            } else {
                chars
            },
        );
        i += 1;
    }
    proof {
        assert(nats(weights@) =~= word_weights(ws));
        lemma_word_weights(ws, ws.len());
        assert(ws.take(n as int) =~= ws);
        proportional_is_ascending(audio@.samples.len(), word_weights(ws));
    }
    let mut bounds = proportional_bounds(audio.samples.len(), &weights);
    if let AlignMode::EnergyRefined { search_ns } = mode {
        refine(&mut bounds, audio, search_ns, 30);
    }
    assert(nats(bounds@).len() == bounds@.len());
    to_spans(&bounds)
}

/// The boundaries of `n` phonemes in the audio of a word.
pub open spec fn phoneme_bounds(s: Seq<i16>, rate: u32, n: nat, search_ns: u64) -> Seq<nat> {
    refined(
        proportional(s.len(), Seq::new(n, |i: int| 1nat)),
        refinement(s, rate, search_ns, 10),
    )
}

proof fn lemma_unit_weights(w: Seq<nat>, k: nat)
    requires
        k <= w.len(),
        forall|i: int| 0 <= i < w.len() ==> #[trigger] w[i] == 1,
    ensures
        weight_before(w, k) == k,
    decreases k,
{
    if k > 0 {
        lemma_unit_weights(w, (k - 1) as nat);
    }
}

/// Phoneme boundaries cover the audio of their word from its start to its end,
/// in order.
pub proof fn phonemes_cover_the_word(s: Seq<i16>, rate: u32, n: nat, search_ns: u64)
    requires
        n > 0,
    ensures
        phoneme_bounds(s, rate, n, search_ns).len() == n + 1,
        covering(phoneme_bounds(s, rate, n, search_ns), s.len()),
{
    let w = Seq::new(n, |i: int| 1nat);
    lemma_unit_weights(w, n);
    proportional_is_ascending(s.len(), w);
    refinement_keeps_order(proportional(s.len(), w), refinement(s, rate, search_ns, 10));
}

/// Phoneme spans inside the audio of a word: proportional by phoneme count,
/// with a tighter refinement.
pub fn phoneme_spans(word_audio: &WavAudio, n_phonemes: usize, search_ns: u64) -> (r: Vec<Span>)
    ensures
        n_phonemes == 0 ==> r@.len() == 0,
        n_phonemes > 0 ==> span_pairs(r@) == spans_between(
            phoneme_bounds(
                word_audio@.samples,
                word_audio@.sample_rate,
                n_phonemes as nat,
                search_ns,
            ),
        ),
{
    if n_phonemes == 0 {
        return Vec::new();
    }
    let mut weights: Vec<usize> = Vec::new();
    let mut i: usize = 0;
    while i < n_phonemes
        invariant
            i <= n_phonemes,
            weights@.len() == i,
            forall|k: int| 0 <= k < i ==> #[trigger] weights@[k] == 1,
        decreases n_phonemes - i,
    {
        weights.push(1);
        i += 1;
    }
    proof {
        assert(nats(weights@) =~= Seq::new(n_phonemes as nat, |k: int| 1nat));
        lemma_unit_weights(nats(weights@), n_phonemes as nat);
        proportional_is_ascending(word_audio@.samples.len(), nats(weights@));
    }
    let mut bounds = proportional_bounds(word_audio.samples.len(), &weights);
    refine(&mut bounds, word_audio, search_ns, 10);
    assert(nats(bounds@).len() == bounds@.len());
    to_spans(&bounds)
}

// ---- what boundaries are for ----

proof fn lemma_gap(w: Seq<nat>, n: nat, x: nat, y: nat)
    requires
        x < y <= w.len(),
        n <= w.len(),
        forall|i: int| 0 <= i < w.len() ==> (#[trigger] w[i] <= threshold(w) <==> x <= i < y),
    ensures
        trough(w, n).len() == (if n <= x {
            0
        } else if n <= y {
            n - x
        } else {
            y - x
        }),
        forall|i: int| 0 <= i < trough(w, n).len() ==> #[trigger] trough(w, n)[i] == x + i,
    decreases n,
{
    if n > 0 {
        lemma_gap(w, (n - 1) as nat, x, y);
        assert(w[n - 1] <= threshold(w) <==> x <= n - 1 < y);
    }
}

/// Whether the hops from `a` to `b` are a silence within `radius` hops of
/// `center`: all others in reach are at least a quarter as loud as the loudest,
/// and one of them, `loud`, can be heard.
pub open spec fn silence_near(
    p: Seq<nat>,
    center: nat,
    radius: nat,
    a: nat,
    b: nat,
    loud: nat,
) -> bool {
    &&& a < b <= p.len()
    &&& center <= a + radius
    &&& b <= center + radius + 1
    &&& forall|j: int| a <= j < b ==> #[trigger] p[j] == 0
    &&& forall|j: int, k: int|
        0 <= j < p.len() && 0 <= k < p.len() && center <= j + radius && j <= center + radius && !(a
            <= j < b) && center <= k + radius && k <= center + radius ==> #[trigger] p[k] <= 4
            * #[trigger] p[j]
    &&& loud < p.len()
    &&& center <= loud + radius
    &&& loud <= center + radius
    &&& single(ratio(1, 1_000_000)) <= p[loud as int]
}

/// A boundary that is seeded near a silence between sounds goes to the middle of
/// that silence.
pub proof fn silences_attract_boundaries(
    seed: nat,
    p: Seq<nat>,
    hop: nat,
    search: nat,
    a: nat,
    b: nat,
    loud: nat,
)
    requires
        hop > 0,
        search > 0,
        singles(p),
        silence_near(p, seed / hop, search / hop, a, b, loud),
    ensures
        snapped(seed, p, hop, search) == (a + (b - a) / 2) * hop + hop / 2,
{
    let center = seed / hop;
    let radius = search / hop;
    let lo: int = if center < radius {
        0
    } else {
        center - radius
    };
    let hi: int = if center + radius + 1 < p.len() {
        (center + radius + 1) as int
    } else {
        p.len() as int
    };
    let w = p.subrange(lo, hi);
    let x = (a - lo) as nat;
    let y = (b - lo) as nat;
    ratios_are_positive(1, 1_000_000);
    assert(w[x as int] == p[a as int]);
    assert(w[loud - lo] == p[loud as int]);
    lemma_extremes(w);
    lemma_greatest_is_met(w);
    let top = greatest(w);
    assert(least(w) == 0 && p[loud as int] <= top);
    let m = choose|i: int| 0 <= i < w.len() && #[trigger] w[i] == greatest(w);
    assert(w[m] == p[lo + m]);
    assert(single(top) == top);
    singles_are_kept(top);
    assert(spread(w) == top);
    crate::double::twentieths_are_small(top);
    let part = single(times(top, twentieth()));
    singles_are_kept(times(top, twentieth()));
    assert(threshold(w) == part) by {
        assert(least(w) + part == part);
        assert(plus(least(w), part) == part);
    }
    crate::double::itself_over(top);
    assert(!is_flat(w));
    assert forall|i: int| 0 <= i < w.len() implies (#[trigger] w[i] <= threshold(w) <==> x <= i
        < y) by {
        assert(w[i] == p[lo + i]);
        if !(x <= i < y) {
            assert(!(a <= lo + i < b));
            assert(p[lo + m] <= 4 * p[lo + i]);
        }
    }
    lemma_gap(w, w.len(), x, y);
    let t = trough(w, w.len());
    assert(t.len() == b - a);
    assert(lo + t[t.len() as int / 2] == a + (b - a) / 2);
}

/// Words take their share of the time: the boundary in front of a word stands
/// where as large a part of the audio has passed as the words before it, with
/// their spaces, are of the text.
pub proof fn words_take_their_share(s: Seq<i16>, rate: u32, ws: Seq<Seq<char>>, k: nat)
    requires
        total_len(ws) + ws.len() > 1,
        0 < k <= ws.len(),
    ensures
        ({
            let at = word_bounds(s, rate, ws, AlignMode::Proportional)[k as int];
            let before = total_len(ws.take(k as int)) + k - 1;
            let all = total_len(ws) + ws.len() - 1;
            at * all <= s.len() * before && s.len() * before < (at + 1) * all
        }),
{
    lemma_word_weights(ws, k);
    lemma_word_weights(ws, ws.len());
    assert(ws.take(ws.len() as int) =~= ws);
    lemma_floor(
        s.len(),
        weight_before(word_weights(ws), k),
        weight_before(word_weights(ws), ws.len()),
    );
}

proof fn lemma_floor(total: nat, part: nat, sum: nat)
    requires
        sum > 0,
    ensures
        (total * part / sum) * sum <= total * part < (total * part / sum + 1) * sum,
{
    let x = total * part;
    vstd::arithmetic::div_mod::lemma_fundamental_div_mod(x as int, sum as int);
    vstd::arithmetic::div_mod::lemma_mod_bound(x as int, sum as int);
    assert((x / sum + 1) * sum == sum * (x / sum) + sum && (x / sum) * sum == sum * (x / sum))
        by (nonlinear_arith);
}

proof fn lemma_steady_refinement(b: Seq<nat>, how: Refinement, i: nat)
    requires
        i < b.len(),
        covering(b, how.total),
        forall|j: int|
            0 < j < b.len() ==> (#[trigger] b[j]) >= b[j - 1] + how.min_unit,
        forall|j: int, k: int|
            0 <= j < how.profile.len() && 0 <= k < how.profile.len() ==> #[trigger] how.profile[j]
                == #[trigger] how.profile[k],
    ensures
        refined_at(b, how, i) == b[i as int],
    decreases i,
{
    if i > 0 {
        lemma_steady_refinement(b, how, (i - 1) as nat);
        steady_energy_keeps_the_seed(b[i as int], how.profile, how.hop, how.search);
        assert(b[i as int] <= how.total);
    }
}

/// The sounds of a word that is equally loud throughout share its time evenly,
/// where each of them has ten milliseconds.
pub proof fn steady_sounds_share_evenly(s: Seq<i16>, rate: u32, n: nat, search_ns: u64, k: nat)
    requires
        n > 0,
        k <= n,
        n * (rate * 10 / 1000) <= s.len(),
        ({
            let p = profile(s, (rate / 200) as nat, (rate / 400) as nat);
            forall|i: int, j: int|
                0 <= i < p.len() && 0 <= j < p.len() ==> #[trigger] p[i] == #[trigger] p[j]
        }),
    ensures
        ({
            let at = phoneme_bounds(s, rate, n, search_ns)[k as int];
            at * n <= s.len() * k && s.len() * k < (at + 1) * n
        }),
{
    let w = Seq::new(n, |i: int| 1nat);
    let b = proportional(s.len(), w);
    let how = refinement(s, rate, search_ns, 10);
    lemma_unit_weights(w, n);
    proportional_is_ascending(s.len(), w);
    let short = how.min_unit;
    assert forall|j: int| 0 < j < b.len() implies (#[trigger] b[j]) >= b[j - 1] + short by {
        lemma_unit_weights(w, j as nat);
        lemma_unit_weights(w, (j - 1) as nat);
        lemma_floor(s.len(), j as nat, n);
        lemma_floor(s.len(), (j - 1) as nat, n);
        let x = b[j] as int;
        let y = b[j - 1] as int;
        let len = s.len() as int;
        assert(x >= y + short) by (nonlinear_arith)
            requires
                len * j < (x + 1) * n,
                y * n <= len * (j - 1),
                n * short <= len,
                n > 0,
        ;
    }
    lemma_steady_refinement(b, how, k);
    lemma_unit_weights(w, k);
    lemma_floor(s.len(), k, n);
}

/// A pause between two words is where one ends and the next begins: the boundary
/// stands in the middle of a silence near it, unless that leaves the word before
/// it less than thirty milliseconds.
pub proof fn pauses_part_words(
    s: Seq<i16>,
    rate: u32,
    ws: Seq<Seq<char>>,
    search_ns: u64,
    k: nat,
    a: nat,
    b: nat,
    loud: nat,
)
    requires
        0 < k < ws.len(),
        rate >= 400,
        ({
            let hop = (rate / 400) as nat;
            let search = capped((rate as nat * search_ns as nat) / 1_000_000_000) as nat;
            let seed = word_bounds(s, rate, ws, AlignMode::Proportional)[k as int];
            let found = word_bounds(s, rate, ws, AlignMode::EnergyRefined { search_ns });
            &&& search > 0
            &&& silence_near(
                profile(s, (rate / 200) as nat, hop),
                seed / hop,
                search / hop,
                a,
                b,
                loud,
            )
            &&& found[k - 1] + rate * 30 / 1000 <= (a + (b - a) / 2) * hop + hop / 2 <= s.len()
        }),
    ensures
        word_bounds(s, rate, ws, AlignMode::EnergyRefined { search_ns })[k as int] == (a + (b - a)
            / 2) * (rate / 400) + rate / 400 / 2,
{
    let hop = (rate / 400) as nat;
    let search = capped((rate as nat * search_ns as nat) / 1_000_000_000) as nat;
    let seeds = proportional(s.len(), word_weights(ws));
    profiles_are_single(s, (rate / 200) as nat, hop);
    silences_attract_boundaries(
        seeds[k as int],
        profile(s, (rate / 200) as nat, hop),
        hop,
        search,
        a,
        b,
        loud,
    );
}

} // verus!
