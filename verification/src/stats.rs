//! Ranks and percentiles of measurements.

use vstd::prelude::*;

verus! {

/// How many values are smaller than `v`.
pub open spec fn below(xs: Seq<u64>, v: u64) -> nat
    decreases xs.len(),
{
    if xs.len() == 0 {
        0
    } else {
        below(xs.drop_last(), v) + (if xs.last() < v {
            1nat
        } else {
            0nat
        })
    }
}

/// How many values are at most `v`.
pub open spec fn up_to(xs: Seq<u64>, v: u64) -> nat
    decreases xs.len(),
{
    if xs.len() == 0 {
        0
    } else {
        up_to(xs.drop_last(), v) + (if xs.last() <= v {
            1nat
        } else {
            0nat
        })
    }
}

/// Whether `v` stands at position `k` when the values are put in order.
pub open spec fn has_rank(xs: Seq<u64>, k: nat, v: u64) -> bool {
    xs.contains(v) && below(xs, v) <= k < up_to(xs, v)
}

/// The value at position `k` when the values are put in order.
pub open spec fn ranked(xs: Seq<u64>, k: nat) -> u64 {
    choose|v: u64| has_rank(xs, k, v)
}

proof fn lemma_up_to_below(xs: Seq<u64>, a: u64, b: u64)
    requires
        a < b,
    ensures
        up_to(xs, a) <= below(xs, b),
    decreases xs.len(),
{
    if xs.len() > 0 {
        lemma_up_to_below(xs.drop_last(), a, b);
    }
}

/// Only one value stands at a position.
pub proof fn ranked_values_are_unique(xs: Seq<u64>, k: nat, a: u64, b: u64)
    requires
        has_rank(xs, k, a),
        has_rank(xs, k, b),
    ensures
        a == b,
{
    if a < b {
        lemma_up_to_below(xs, a, b);
    } else if b < a {
        lemma_up_to_below(xs, b, a);
    }
}

/// The least value above `v`, where there is one.
proof fn lemma_next_above(xs: Seq<u64>, v: u64) -> (w: u64)
    requires
        up_to(xs, v) < xs.len(),
    ensures
        xs.contains(w),
        v < w,
        forall|i: int| 0 <= i < xs.len() ==> #[trigger] xs[i] <= v || w <= xs[i],
    decreases xs.len(),
{
    let init = xs.drop_last();
    let last = xs.last();
    if up_to(init, v) < init.len() {
        let w = lemma_next_above(init, v);
        let k = choose|k: int| 0 <= k < init.len() && init[k] == w;
        assert(xs[k] == w);
        let r = if v < last < w {
            last
        } else {
            w
        };
        assert(xs[xs.len() - 1] == last);
        assert forall|i: int| 0 <= i < xs.len() implies #[trigger] xs[i] <= v || r <= xs[i] by {
            if i < init.len() {
                assert(init[i] == xs[i]);
            }
        }
        r
    } else {
        lemma_all_up_to(init, v);
        assert(xs[xs.len() - 1] == last);
        assert forall|i: int| 0 <= i < xs.len() implies #[trigger] xs[i] <= v || last <= xs[i] by {
            if i < init.len() {
                assert(init[i] == xs[i]);
            }
        }
        last
    }
}

proof fn lemma_all_up_to(xs: Seq<u64>, v: u64)
    requires
        up_to(xs, v) >= xs.len(),
    ensures
        up_to(xs, v) == xs.len(),
        forall|i: int| 0 <= i < xs.len() ==> #[trigger] xs[i] <= v,
    decreases xs.len(),
{
    if xs.len() > 0 {
        let init = xs.drop_last();
        lemma_up_to_bound(init, v);
        lemma_all_up_to(init, v);
        assert forall|i: int| 0 <= i < xs.len() implies #[trigger] xs[i] <= v by {
            if i < init.len() {
                assert(init[i] == xs[i]);
            }
        }
    }
}

proof fn lemma_up_to_bound(xs: Seq<u64>, v: u64)
    ensures
        up_to(xs, v) <= xs.len(),
        below(xs, v) <= xs.len(),
    decreases xs.len(),
{
    if xs.len() > 0 {
        lemma_up_to_bound(xs.drop_last(), v);
    }
}

proof fn lemma_same_counts(xs: Seq<u64>, v: u64, w: u64)
    requires
        v < w,
        forall|i: int| 0 <= i < xs.len() ==> #[trigger] xs[i] <= v || w <= xs[i],
    ensures
        below(xs, w) == up_to(xs, v),
    decreases xs.len(),
{
    if xs.len() > 0 {
        let init = xs.drop_last();
        assert forall|i: int| 0 <= i < init.len() implies #[trigger] init[i] <= v || w
            <= init[i] by {
            assert(init[i] == xs[i]);
        }
        lemma_same_counts(init, v, w);
        assert(xs[xs.len() - 1] == xs.last());
    }
}

fn count_below(xs: &Vec<u64>, v: u64) -> (r: usize)
    ensures
        r == below(xs@, v),
{
    let mut n: usize = 0;
    let mut i: usize = 0;
    assert(xs@.take(0) =~= Seq::<u64>::empty());
    while i < xs.len()
        invariant
            i <= xs@.len(),
            n <= i,
            n == below(xs@.take(i as int), v),
        decreases xs@.len() - i,
    {
        assert(xs@.take(i + 1).drop_last() =~= xs@.take(i as int));
        if xs[i] < v {
            n += 1;
        }
        i += 1;
    }
    assert(xs@.take(i as int) =~= xs@);
    n
}

/// The value at position `k` when the values are put in order.
pub fn value_at_rank(xs: &Vec<u64>, k: usize) -> (r: u64)
    requires
        k < xs@.len(),
    ensures
        has_rank(xs@, k as nat, r),
        r == ranked(xs@, k as nat),
{
    let ghost all = xs@;
    let n: usize = xs.len();
    let mut best: u64 = 0;
    let mut found = false;
    let mut i: usize = 0;
    while i < n
        invariant
            n == xs@.len(),
            k < n,
            all == xs@,
            i <= n,
            found ==> all.contains(best) && below(all, best) <= k,
            forall|j: int|
                0 <= j < i && below(all, #[trigger] all[j]) <= k ==> found && all[j] <= best,
        decreases n - i,
    {
        let v: u64 = xs[i];
        assert(all[i as int] == v);
        if count_below(xs, v) <= k && (!found || v > best) {
            best = v;
            found = true;
            assert(all.contains(best));
        }
        i += 1;
    }
    proof {
        lemma_least(all);
        let least = choose|v: u64| all.contains(v) && below(all, v) == 0;
        let j = choose|j: int| 0 <= j < all.len() && all[j] == least;
        assert(below(all, all[j]) <= k);
        if up_to(all, best) <= k {
            let w = lemma_next_above(all, best);
            lemma_same_counts(all, best, w);
            let m = choose|m: int| 0 <= m < all.len() && all[m] == w;
            assert(below(all, all[m]) <= k);
        }
        assert(has_rank(all, k as nat, best));
        let r = ranked(all, k as nat);
        ranked_values_are_unique(all, k as nat, best, r);
    }
    best
}

/// Some value has none below it.
proof fn lemma_least(xs: Seq<u64>)
    requires
        xs.len() > 0,
    ensures
        exists|v: u64| xs.contains(v) && below(xs, v) == 0,
    decreases xs.len(),
{
    let init = xs.drop_last();
    let last = xs.last();
    assert(xs[xs.len() - 1] == last);
    if init.len() == 0 {
        assert(below(xs, last) == 0) by {
            reveal_with_fuel(below, 2);
        }
        assert(xs.contains(last));
    } else {
        lemma_least(init);
        let v = choose|v: u64| init.contains(v) && below(init, v) == 0;
        let k = choose|k: int| 0 <= k < init.len() && init[k] == v;
        assert(xs[k] == v);
        if last < v {
            lemma_below_monotone(init, last, v);
            assert(xs.contains(last) && below(xs, last) == 0);
        } else {
            assert(xs.contains(v) && below(xs, v) == 0);
        }
    }
}

proof fn lemma_below_monotone(xs: Seq<u64>, a: u64, b: u64)
    requires
        a <= b,
    ensures
        below(xs, a) <= below(xs, b),
    decreases xs.len(),
{
    if xs.len() > 0 {
        lemma_below_monotone(xs.drop_last(), a, b);
    }
}

// ---- percentiles ----

/// The position of a percentile among `n` values, rounded to the nearest, up
/// where it lies between two.
pub open spec fn percentile_rank(n: nat, p: nat) -> nat {
    if n == 0 {
        0
    } else {
        ((2 * ((n - 1) * p) + 100) / 200) as nat
    }
}

/// A percentile of values. That of none is zero.
pub open spec fn percentile_of(xs: Seq<u64>, p: nat) -> u64 {
    if xs.len() == 0 {
        0
    } else {
        ranked(xs, percentile_rank(xs.len(), p))
    }
}

/// A percentile of values.
pub fn percentile(xs: &Vec<u64>, p: u64) -> (r: u64)
    requires
        p <= 100,
    ensures
        r == percentile_of(xs@, p as nat),
        xs@.len() > 0 ==> xs@.contains(r),
{
    let n: usize = xs.len();
    if n == 0 {
        return 0;
    }
    assert((n - 1) * p <= (n - 1) * 100) by (nonlinear_arith)
        requires
            0 <= p <= 100,
            n >= 1,
    ;
    let twice: u128 = 2 * ((n - 1) as u128 * p as u128) + 100;
    let k: usize = (twice / 200) as usize;
    value_at_rank(xs, k)
}

/// The greatest of values. That of none is zero.
pub open spec fn greatest(xs: Seq<u64>) -> u64
    decreases xs.len(),
{
    if xs.len() == 0 {
        0
    } else if xs.last() > greatest(xs.drop_last()) {
        xs.last()
    } else {
        greatest(xs.drop_last())
    }
}

/// The greatest of values.
pub fn find_greatest(xs: &Vec<u64>) -> (r: u64)
    ensures
        r == greatest(xs@),
{
    let mut best: u64 = 0;
    let mut i: usize = 0;
    assert(xs@.take(0) =~= Seq::<u64>::empty());
    while i < xs.len()
        invariant
            i <= xs@.len(),
            best == greatest(xs@.take(i as int)),
        decreases xs@.len() - i,
    {
        assert(xs@.take(i + 1).drop_last() =~= xs@.take(i as int));
        if xs[i] > best {
            best = xs[i];
        }
        i += 1;
    }
    assert(xs@.take(i as int) =~= xs@);
    best
}

proof fn lemma_rank_from(xs: Seq<u64>, k: nat, v: u64)
    requires
        k < xs.len(),
        xs.contains(v),
        below(xs, v) <= k,
    ensures
        exists|w: u64| has_rank(xs, k, w),
    decreases u64::MAX - v,
{
    if k < up_to(xs, v) {
        assert(has_rank(xs, k, v));
    } else {
        let w = lemma_next_above(xs, v);
        lemma_same_counts(xs, v, w);
        lemma_rank_from(xs, k, w);
    }
}

/// Some value stands at every position.
pub proof fn every_rank_is_taken(xs: Seq<u64>, k: nat)
    requires
        k < xs.len(),
    ensures
        has_rank(xs, k, ranked(xs, k)),
{
    lemma_least(xs);
    let v = choose|v: u64| xs.contains(v) && below(xs, v) == 0;
    lemma_rank_from(xs, k, v);
}

/// No value exceeds the greatest, and it is one of them.
pub proof fn the_greatest_is_one_of_them(xs: Seq<u64>)
    ensures
        forall|i: int| 0 <= i < xs.len() ==> #[trigger] xs[i] <= greatest(xs),
        xs.len() > 0 ==> xs.contains(greatest(xs)),
    decreases xs.len(),
{
    if xs.len() > 0 {
        let init = xs.drop_last();
        the_greatest_is_one_of_them(init);
        assert forall|i: int| 0 <= i < xs.len() implies #[trigger] xs[i] <= greatest(xs) by {
            if i < init.len() {
                assert(init[i] == xs[i]);
            }
        }
        assert(xs[xs.len() - 1] == xs.last());
        if xs.last() <= greatest(init) {
            if init.len() > 0 {
                let k = choose|k: int| 0 <= k < init.len() && init[k] == greatest(init);
                assert(xs[k] == greatest(xs));
            } else {
                assert(greatest(init) == 0);
            }
        }
    }
}

} // verus!
