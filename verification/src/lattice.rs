//! Cheapest paths through a lattice of arcs with target and join costs.
//!
//! Costs are doubles, and every sum of two of them is rounded to a double.
//!
//! The search keeps, for every arc, the cheapest way to reach and use it, and
//! the arc that way came from. Among equally cheap ways the one through the
//! lowest numbered arc is kept.

use crate::double::{doubles_keep_the_order, plus};
use vstd::prelude::*;

verus! {

/// An arc over positions `start..end` with the cost of using it.
pub struct Arc {
    pub start: nat,
    pub end: nat,
    pub target: nat,
}

/// Arcs over positions from 0 to `n`, and the cost of using one arc behind
/// another.
pub struct Lattice {
    pub arcs: Seq<Arc>,
    pub join: spec_fn(int, int) -> nat,
    pub n: nat,
}

/// Whether arc `p` may come right before arc `e`.
pub open spec fn precedes(l: Lattice, p: int, e: int) -> bool {
    l.arcs[p].end == l.arcs[e].start && l.arcs[p].start < l.arcs[p].end
}

/// What a path of cost `c` to arc `p` costs when arc `e` follows.
pub open spec fn onward(l: Lattice, c: nat, p: int, e: int) -> nat {
    plus(plus(c, (l.join)(p, e)), l.arcs[e].target)
}

/// A path that is no dearer stays so when an arc follows.
pub proof fn onward_keeps_the_order(l: Lattice, c: nat, d: nat, p: int, e: int)
    requires
        c <= d,
    ensures
        onward(l, c, p, e) <= onward(l, d, p, e),
{
    let j = (l.join)(p, e);
    doubles_keep_the_order(c + j, d + j, 1);
    let t = l.arcs[e].target;
    doubles_keep_the_order(plus(c, j) + t, plus(d, j) + t, 1);
}

/// The cost of the cheapest path that ends with arc `e`.
pub open spec fn best(l: Lattice, e: int) -> Option<nat>
    decreases l.arcs[e].start, l.arcs.len() + 1,
{
    if l.arcs[e].start == 0 {
        Some(l.arcs[e].target)
    } else {
        match best_pred(l, e, l.arcs.len()) {
            None => None,
            Some(p) => if precedes(l, p, e) {
                match best(l, p) {
                    None => None,
                    Some(c) => Some(onward(l, c, p, e)),
                }
            } else {
                None
            },
        }
    }
}

/// The arc among the first `k` that the cheapest path to `e` comes through.
pub open spec fn best_pred(l: Lattice, e: int, k: nat) -> Option<int>
    decreases l.arcs[e].start, k,
{
    if k == 0 {
        None
    } else {
        let before = best_pred(l, e, (k - 1) as nat);
        let here = k - 1;
        if precedes(l, here, e) {
            match best(l, here) {
                None => before,
                Some(c) => match before {
                    None => Some(here),
                    Some(q) => if precedes(l, q, e) && onward(l, c, here, e) >= onward(
                        l,
                        best(l, q)->Some_0,
                        q,
                        e,
                    ) {
                        before
                    } else {
                        Some(here)
                    },
                },
            }
        } else {
            before
        }
    }
}

/// The cheapest path that ends with arc `e`.
pub open spec fn path_to(l: Lattice, e: int) -> Seq<int>
    decreases l.arcs[e].start,
{
    if l.arcs[e].start == 0 {
        seq![e]
    } else {
        match best_pred(l, e, l.arcs.len()) {
            Some(p) => if precedes(l, p, e) {
                path_to(l, p).push(e)
            } else {
                seq![e]
            },
            None => seq![e],
        }
    }
}

/// The arc among the first `k` that the cheapest complete path ends with.
pub open spec fn best_last(l: Lattice, k: nat) -> Option<int>
    decreases k,
{
    if k == 0 {
        None
    } else {
        let before = best_last(l, (k - 1) as nat);
        let here = k - 1;
        if l.arcs[here].end == l.n && best(l, here) is Some {
            match before {
                None => Some(here),
                Some(q) => if best(l, here)->Some_0 >= best(l, q)->Some_0 {
                    before
                } else {
                    Some(here)
                },
            }
        } else {
            before
        }
    }
}

/// Arcs that each go forward.
pub open spec fn forward(l: Lattice) -> bool {
    forall|i: int| 0 <= i < l.arcs.len() ==> (#[trigger] l.arcs[i]).start < l.arcs[i].end
}

/// A path from the start: arcs that follow one another.
pub open spec fn is_path(l: Lattice, p: Seq<int>) -> bool {
    &&& p.len() > 0
    &&& forall|i: int| 0 <= i < p.len() ==> 0 <= #[trigger] p[i] < l.arcs.len()
    &&& l.arcs[p[0]].start == 0
    &&& forall|i: int|
        0 < i < p.len() ==> l.arcs[#[trigger] p[i]].start == l.arcs[p[i - 1]].end
}

/// A path from the start to the end.
pub open spec fn is_complete(l: Lattice, p: Seq<int>) -> bool {
    is_path(l, p) && l.arcs[p.last()].end == l.n
}

/// The cost of a path: the targets of its arcs and the joins between them, each
/// added in turn.
pub open spec fn path_cost(l: Lattice, p: Seq<int>) -> nat
    decreases p.len(),
{
    if p.len() == 0 {
        0
    } else if p.len() == 1 {
        l.arcs[p[0]].target
    } else {
        onward(l, path_cost(l, p.drop_last()), p[p.len() - 2], p.last())
    }
}

/// What a chosen predecessor is: reachable, in place, and no dearer than any
/// other among the first `k`.
pub proof fn lemma_best_pred(l: Lattice, e: int, k: nat)
    requires
        k <= l.arcs.len(),
    ensures
        best_pred(l, e, k) matches Some(q) ==> 0 <= q < k && precedes(l, q, e) && best(
            l,
            q,
        ) is Some,
        forall|p: int|
            0 <= p < k && #[trigger] precedes(l, p, e) && best(l, p) is Some ==> best_pred(
                l,
                e,
                k,
            ) is Some && onward(
                l,
                best(l, best_pred(l, e, k)->Some_0)->Some_0,
                best_pred(l, e, k)->Some_0,
                e,
            ) <= onward(l, best(l, p)->Some_0, p, e),
    decreases k,
{
    if k > 0 {
        lemma_best_pred(l, e, (k - 1) as nat);
    }
}

/// What the chosen last arc is: reachable, at the end, and no dearer than any
/// other among the first `k`.
pub proof fn lemma_best_last(l: Lattice, k: nat)
    requires
        k <= l.arcs.len(),
    ensures
        best_last(l, k) matches Some(q) ==> 0 <= q < k && l.arcs[q].end == l.n && best(
            l,
            q,
        ) is Some,
        forall|p: int|
            0 <= p < k && (#[trigger] l.arcs[p]).end == l.n && best(l, p) is Some ==> best_last(
                l,
                k,
            ) is Some && best(l, best_last(l, k)->Some_0)->Some_0 <= best(l, p)->Some_0,
    decreases k,
{
    if k > 0 {
        lemma_best_last(l, (k - 1) as nat);
    }
}

/// The cheapest cost is at most the cost of any path.
proof fn lemma_best_is_lower(l: Lattice, p: Seq<int>)
    requires
        forward(l),
        is_path(l, p),
    ensures
        best(l, p.last()) matches Some(c) && c <= path_cost(l, p),
    decreases p.len(),
{
    let e = p.last();
    assert(p[p.len() - 1] == e);
    if p.len() == 1 {
        assert(l.arcs[e].start == 0);
    } else {
        let init = p.drop_last();
        assert forall|i: int| 0 <= i < init.len() implies 0 <= #[trigger] init[i]
            < l.arcs.len() by {
            assert(init[i] == p[i]);
        }
        assert forall|i: int| 0 < i < init.len() implies l.arcs[#[trigger] init[i]].start
            == l.arcs[init[i - 1]].end by {
            assert(init[i] == p[i] && init[i - 1] == p[i - 1]);
        }
        lemma_best_is_lower(l, init);
        let q = init.last();
        assert(q == p[p.len() - 2]);
        assert(l.arcs[p[p.len() - 1]].start == l.arcs[p[p.len() - 2]].end);
        assert(l.arcs[q].start < l.arcs[q].end);
        assert(precedes(l, q, e));
        lemma_best_pred(l, e, l.arcs.len());
        assert(l.arcs[e].start > 0);
        onward_keeps_the_order(l, best(l, q)->Some_0, path_cost(l, init), q, e);
    }
}

/// The chosen path to an arc is a path with the cheapest cost.
proof fn lemma_path_to(l: Lattice, e: int)
    requires
        forward(l),
        0 <= e < l.arcs.len(),
        best(l, e) is Some,
    ensures
        is_path(l, path_to(l, e)),
        path_to(l, e).last() == e,
        path_cost(l, path_to(l, e)) == best(l, e)->Some_0,
    decreases l.arcs[e].start,
{
    if l.arcs[e].start > 0 {
        lemma_best_pred(l, e, l.arcs.len());
        let q = best_pred(l, e, l.arcs.len())->Some_0;
        lemma_path_to(l, q);
        let init = path_to(l, q);
        let p = path_to(l, e);
        assert(p.drop_last() =~= init);
        assert(p[p.len() - 2] == q);
        assert forall|i: int| 0 <= i < p.len() implies 0 <= #[trigger] p[i] < l.arcs.len() by {
            if i < init.len() {
                assert(p[i] == init[i]);
            }
        }
        assert(p[0] == init[0]);
        assert forall|i: int| 0 < i < p.len() implies l.arcs[#[trigger] p[i]].start == l.arcs[p[i
            - 1]].end by {
            if i < init.len() {
                assert(p[i] == init[i] && p[i - 1] == init[i - 1]);
            }
        }
    }
}

/// The path that the search picks.
pub open spec fn chosen(l: Lattice) -> Option<Seq<int>> {
    match best_last(l, l.arcs.len()) {
        None => None,
        Some(e) => Some(path_to(l, e)),
    }
}

/// The search picks a path from the start to the end that no other such path
/// is cheaper than, and picks none only where there is none.
pub proof fn chosen_path_is_cheapest(l: Lattice)
    requires
        forward(l),
    ensures
        chosen(l) matches Some(p) ==> is_complete(l, p),
        forall|p: Seq<int>| #[trigger]
            is_complete(l, p) ==> chosen(l) is Some && path_cost(l, chosen(l)->Some_0)
                <= path_cost(l, p),
{
    lemma_best_last(l, l.arcs.len());
    if let Some(e) = best_last(l, l.arcs.len()) {
        lemma_path_to(l, e);
    }
    assert forall|p: Seq<int>| #[trigger] is_complete(l, p) implies chosen(l) is Some && path_cost(
        l,
        chosen(l)->Some_0,
    ) <= path_cost(l, p) by {
        lemma_best_is_lower(l, p);
        let e = p.last();
        assert(p[p.len() - 1] == e);
        assert(l.arcs[e].end == l.n);
    }
}

/// Where an arc leads from every position to the next, there is a path to the
/// end.
pub proof fn steps_reach_the_end(l: Lattice, steps: Seq<int>)
    requires
        l.n > 0,
        steps.len() == l.n,
        forall|i: int|
            0 <= i < l.n ==> 0 <= #[trigger] steps[i] < l.arcs.len() && l.arcs[steps[i]].start == i
                && l.arcs[steps[i]].end == i + 1,
    ensures
        is_complete(l, steps),
{
    assert(steps.last() == steps[l.n - 1]);
    assert forall|i: int| 0 < i < steps.len() implies l.arcs[#[trigger] steps[i]].start
        == l.arcs[steps[i - 1]].end by {}
}

} // verus!
