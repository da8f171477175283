//! The cheapest way through the edges of a request.

use crate::compose::Request;
use crate::double::Double;
use crate::edges::{all_usable, edge_views, join_cost, lattice_of, usable, Edge, Search};
use crate::g2p::G2p;
use crate::lattice::{
    best, best_last, best_pred, chosen, lemma_best_last, lemma_best_pred, onward, path_to, precedes,
    Lattice,
};
use crate::pipeline::opt_dict;
use crate::store::MimicStore;
use crate::text::texts;
use vstd::prelude::*;

verus! {

/// The edges `p` of a path.
pub open spec fn indices(p: Seq<usize>) -> Seq<int> {
    Seq::new(p.len(), |i: int| p[i] as int)
}

spec fn cost_view(c: Option<Double>) -> Option<nat> {
    match c {
        Some(c) => Some(c@),
        None => None,
    }
}

spec fn index_view(i: Option<usize>) -> Option<int> {
    match i {
        Some(i) => Some(i as int),
        None => None,
    }
}

/// Whether the tables hold what the search means for arc `e`.
spec fn settled(l: Lattice, cost: Seq<Option<Double>>, back: Seq<Option<usize>>, e: int) -> bool {
    &&& cost_view(cost[e]) == best(l, e)
    &&& index_view(back[e]) == (if l.arcs[e].start == 0 {
        None
    } else {
        best_pred(l, e, l.arcs.len())
    })
}

/// Arcs that the search has settled: those that start before `pos`, and those
/// at `pos` with a number below `k`.
spec fn reached(l: Lattice, pos: nat, k: nat, e: int) -> bool {
    0 <= e < l.arcs.len() && (l.arcs[e].start < pos || (l.arcs[e].start == pos && e < k))
}

/// The arc that the cheapest way to edge `e` comes through, and what that way
/// costs.
fn find_pred(
    store: &MimicStore,
    words: &Vec<String>,
    g2p: Option<&G2p>,
    edges: &Vec<Edge>,
    cost: &Vec<Option<Double>>,
    e: usize,
    x: Ghost<Search>,
) -> (r: Option<(usize, Double)>)
    requires
        x@.q == (Request { nodes: store@.nodes, words: texts(words@) }),
        x@.dict == opt_dict(g2p),
        all_usable(x@, edge_views(edges@)),
        e < edges@.len(),
        cost@.len() == edges@.len(),
        forall|p: int|
            0 <= p < edges@.len() && edges@[p].end == edges@[e as int].start ==> cost_view(
                #[trigger] cost@[p],
            ) == best(lattice_of(x@, edge_views(edges@)), p),
    ensures
        ({
            let l = lattice_of(x@, edge_views(edges@));
            match r {
                None => best_pred(l, e as int, l.arcs.len()) is None,
                Some((p, c)) => best_pred(l, e as int, l.arcs.len()) == Some(p as int) && p
                    < edges@.len() && c@ == onward(l, best(l, p as int)->Some_0, p as int, e as int),
            }
        }),
{
    let ghost v = edge_views(edges@);
    let ghost l = lattice_of(x@, v);
    let n: usize = words.len();
    let count: usize = edges.len();
    let at: usize = edges[e].start;
    assert(usable(x@, v[e as int]));
    let mut found: Option<(usize, Double)> = None;
    let mut k: usize = 0;
    while k < count
        invariant
            x@.q == (Request { nodes: store@.nodes, words: texts(words@) }),
            x@.dict == opt_dict(g2p),
            n == words@.len(),
            v == edge_views(edges@),
            l == lattice_of(x@, v),
            all_usable(x@, v),
            usable(x@, v[e as int]),
            e < edges@.len(),
            count == edges@.len(),
            cost@.len() == count,
            at == edges@[e as int].start,
            forall|p: int|
                0 <= p < count && edges@[p].end == at ==> cost_view(#[trigger] cost@[p]) == best(
                    l,
                    p,
                ),
            k <= count,
            match found {
                None => best_pred(l, e as int, k as nat) is None,
                Some((p, c)) => best_pred(l, e as int, k as nat) == Some(p as int) && p < count
                    && c@ == onward(l, best(l, p as int)->Some_0, p as int, e as int),
            },
        decreases count - k,
    {
        proof {
            assert(usable(x@, v[k as int]));
            lemma_best_pred(l, e as int, k as nat);
            assert(v[k as int] == edges@[k as int]@ && v[e as int] == edges@[e as int]@);
        }
        if edges[k].end == at {
            assert(precedes(l, k as int, e as int));
            if let Some(c) = cost[k] {
                let join = join_cost(&edges[k], &edges[e], store, words, g2p);
                let here = c.plus(join).plus(edges[e].target);
                match found {
                    None => {
                        found = Some((k, here));
                    },
                    Some((_, other)) => {
                        if here.less(other) {
                            found = Some((k, here));
                        }
                    },
                }
            }
        }
        k += 1;
    }
    found
}

/// Finds the cheapest path through the edges of a request.
pub(crate) fn search(
    store: &MimicStore,
    words: &Vec<String>,
    g2p: Option<&G2p>,
    edges: &Vec<Edge>,
    x: Ghost<Search>,
) -> (r: Option<Vec<usize>>)
    requires
        x@.q == (Request { nodes: store@.nodes, words: texts(words@) }),
        x@.dict == opt_dict(g2p),
        all_usable(x@, edge_views(edges@)),
    ensures
        match r {
            None => chosen(lattice_of(x@, edge_views(edges@))) is None,
            Some(p) => chosen(lattice_of(x@, edge_views(edges@))) == Some(indices(p@)),
        },
{
    let ghost v = edge_views(edges@);
    let ghost l = lattice_of(x@, v);
    let n: usize = words.len();
    let count: usize = edges.len();
    let mut cost: Vec<Option<Double>> = Vec::new();
    let mut back: Vec<Option<usize>> = Vec::new();
    let mut i: usize = 0;
    while i < count
        invariant
            i <= count,
            cost@.len() == i,
            back@.len() == i,
        decreases count - i,
    {
        cost.push(None);
        back.push(None);
        i += 1;
    }
    let mut pos: usize = 0;
    while pos < n
        invariant
            x@.q == (Request { nodes: store@.nodes, words: texts(words@) }),
            x@.dict == opt_dict(g2p),
            n == words@.len(),
            v == edge_views(edges@),
            l == lattice_of(x@, v),
            all_usable(x@, v),
            count == edges@.len(),
            cost@.len() == count,
            back@.len() == count,
            pos <= n,
            forall|e: int| #[trigger] reached(l, pos as nat, 0, e) ==> settled(l, cost@, back@, e),
        decreases n - pos,
    {
        let mut e: usize = 0;
        while e < count
            invariant
                x@.q == (Request { nodes: store@.nodes, words: texts(words@) }),
                x@.dict == opt_dict(g2p),
                n == words@.len(),
                v == edge_views(edges@),
                l == lattice_of(x@, v),
                all_usable(x@, v),
                count == edges@.len(),
                cost@.len() == count,
                back@.len() == count,
                pos < n,
                e <= count,
                forall|k: int| #[trigger]
                    reached(l, pos as nat, e as nat, k) ==> settled(l, cost@, back@, k),
            decreases count - e,
        {
            let ghost old_cost = cost@;
            let ghost old_back = back@;
            proof {
                assert(usable(x@, v[e as int]));
                assert(v[e as int] == edges@[e as int]@);
                lemma_best_pred(l, e as int, l.arcs.len());
            }
            if edges[e].start == pos {
                if pos == 0 {
                    cost.set(e, Some(edges[e].target));
                    back.set(e, None);
                } else {
                    proof {
                        assert forall|p: int|
                            0 <= p < edges@.len() && edges@[p].end
                                == edges@[e as int].start implies cost_view(#[trigger] cost@[p])
                            == best(l, p) by {
                            assert(usable(x@, v[p]));
                            assert(v[p] == edges@[p]@);
                            assert(reached(l, pos as nat, e as nat, p));
                        }
                    }
                    match find_pred(store, words, g2p, edges, &cost, e, x) {
                        None => {
                            cost.set(e, None);
                            back.set(e, None);
                        },
                        Some((p, c)) => {
                            cost.set(e, Some(c));
                            back.set(e, Some(p));
                        },
                    }
                }
                assert(settled(l, cost@, back@, e as int));
            }
            let ghost here = e;
            e += 1;
            assert forall|k: int| #[trigger] reached(l, pos as nat, e as nat, k) implies settled(
                l,
                cost@,
                back@,
                k,
            ) by {
                if reached(l, pos as nat, here as nat, k) {
                    assert(settled(l, old_cost, old_back, k));
                    if k == here {
                        assert(edges@[here as int].start != pos);
                    }
                }
            }
        }
        let ghost here = pos;
        pos += 1;
        assert forall|k: int| #[trigger] reached(l, pos as nat, 0, k) implies settled(
            l,
            cost@,
            back@,
            k,
        ) by {
            assert(reached(l, here as nat, count as nat, k));
        }
    }
    assert forall|e: int| 0 <= e < count implies #[trigger] settled(l, cost@, back@, e) by {
        assert(usable(x@, v[e]));
        assert(reached(l, n as nat, 0, e));
    }
    proof {
        assert forall|e: int| 0 <= e < edges@.len() implies cost_view(#[trigger] cost@[e]) == best(
            l,
            e,
        ) by {
            assert(settled(l, cost@, back@, e));
        }
        assert forall|e: int| 0 <= e < edges@.len() implies index_view(#[trigger] back@[e]) == (
        if l.arcs[e].start == 0 {
            None
        } else {
            best_pred(l, e, l.arcs.len())
        }) by {
            assert(settled(l, cost@, back@, e));
        }
    }
    let last: usize = match find_last(edges, &cost, n, x, Ghost(l)) {
        None => {
            return None;
        },
        Some(e) => e,
    };
    proof {
        lemma_best_last(l, l.arcs.len());
    }
    Some(trace(edges, &back, last, x, Ghost(l)))
}

/// The edge that the cheapest complete path ends with.
fn find_last(
    edges: &Vec<Edge>,
    cost: &Vec<Option<Double>>,
    n: usize,
    x: Ghost<Search>,
    l: Ghost<Lattice>,
) -> (r: Option<usize>)
    requires
        l@ == lattice_of(x@, edge_views(edges@)),
        l@.n == n,
        cost@.len() == edges@.len(),
        forall|e: int| 0 <= e < edges@.len() ==> cost_view(#[trigger] cost@[e]) == best(l@, e),
    ensures
        index_view(r) == best_last(l@, l@.arcs.len()),
{
    let ghost v = edge_views(edges@);
    let count: usize = edges.len();
    let mut found: Option<(usize, Double)> = None;
    let mut k: usize = 0;
    while k < count
        invariant
            v == edge_views(edges@),
            l@ == lattice_of(x@, v),
            l@.n == n,
            count == edges@.len(),
            cost@.len() == count,
            forall|e: int| 0 <= e < count ==> cost_view(#[trigger] cost@[e]) == best(l@, e),
            k <= count,
            match found {
                None => best_last(l@, k as nat) is None,
                Some((e, c)) => best_last(l@, k as nat) == Some(e as int) && best(l@, e as int)
                    == Some(c@),
            },
        decreases count - k,
    {
        assert(v[k as int] == edges@[k as int]@);
        if edges[k].end == n {
            if let Some(c) = cost[k] {
                match found {
                    None => {
                        found = Some((k, c));
                    },
                    Some((_, other)) => {
                        if c.less(other) {
                            found = Some((k, c));
                        }
                    },
                }
            }
        }
        k += 1;
    }
    match found {
        None => None,
        Some((e, _)) => Some(e),
    }
}

/// The cheapest path that ends with edge `last`.
fn trace(
    edges: &Vec<Edge>,
    back: &Vec<Option<usize>>,
    last: usize,
    x: Ghost<Search>,
    l: Ghost<Lattice>,
) -> (r: Vec<usize>)
    requires
        l@ == lattice_of(x@, edge_views(edges@)),
        last < edges@.len(),
        back@.len() == edges@.len(),
        forall|e: int|
            0 <= e < edges@.len() ==> index_view(#[trigger] back@[e]) == (if l@.arcs[e].start
                == 0 {
                None
            } else {
                best_pred(l@, e, l@.arcs.len())
            }),
    ensures
        indices(r@) == path_to(l@, last as int),
{
    let ghost arcs = l@.arcs.len();
    let mut reversed: Vec<usize> = Vec::new();
    let mut e: usize = last;
    reversed.push(e);
    let ghost mut rest: Seq<int> = Seq::empty();
    proof {
        assert(path_to(l@, e as int) + rest =~= path_to(l@, last as int));
    }
    let mut more = true;
    while more
        invariant
            l@ == lattice_of(x@, edge_views(edges@)),
            arcs == l@.arcs.len(),
            back@.len() == edges@.len(),
            arcs == edges@.len(),
            forall|k: int|
                0 <= k < edges@.len() ==> index_view(#[trigger] back@[k]) == (if l@.arcs[k].start
                    == 0 {
                    None
                } else {
                    best_pred(l@, k, arcs)
                }),
            e < edges@.len(),
            reversed@.len() == rest.len() + 1,
            reversed@.last() == e,
            forall|k: int| 0 <= k < rest.len() ==> rest[k] == reversed@[rest.len() - 1 - k],
            path_to(l@, e as int) + rest == path_to(l@, last as int),
            !more ==> path_to(l@, e as int) == seq![e as int],
        decreases
            l@.arcs[e as int].start,
            (if more {
                1nat
            } else {
                0nat
            }),
    {
        proof {
            lemma_best_pred(l@, e as int, arcs);
        }
        match back[e] {
            None => {
                more = false;
            },
            Some(p) => {
                let ghost old_rest = rest;
                let ghost here = e as int;
                proof {
                    rest = seq![here] + rest;
                    assert(path_to(l@, here) =~= path_to(l@, p as int).push(here));
                    assert(path_to(l@, p as int).push(here) + old_rest =~= path_to(l@, p as int)
                        + rest);
                }
                e = p;
                reversed.push(p);
                assert forall|k: int| 0 <= k < rest.len() implies rest[k] == reversed@[rest.len()
                    - 1 - k] by {
                    if k > 0 {
                        assert(rest[k] == old_rest[k - 1]);
                    }
                }
            },
        }
    }
    let ghost all = seq![e as int] + rest;
    let mut out: Vec<usize> = Vec::new();
    let total: usize = reversed.len();
    let mut i: usize = 0;
    while i < total
        invariant
            total == reversed@.len(),
            total == all.len(),
            forall|k: int| 0 <= k < total ==> all[k] == reversed@[total - 1 - k],
            i <= total,
            out@.len() == i,
            forall|k: int| 0 <= k < i ==> out@[k] == #[trigger] all[k],
        decreases total - i,
    {
        out.push(reversed[total - 1 - i]);
        i += 1;
    }
    assert(indices(out@) =~= all);
    out
}

} // verus!
