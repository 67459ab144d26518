//! The mathematical model: an edge map, paths in it, and what can be reached.
use crate::ident::DepId;
use vstd::prelude::*;

verus! {

/// The declared edges: each unit with the sequence of its direct
/// dependencies, in the order of declaration and with repetitions kept.
pub type Edges = Map<DepId, Seq<DepId>>;

/// The direct dependencies of `u`: empty for a unit that declares none.
pub open spec fn direct(edges: Edges, u: DepId) -> Seq<DepId> {
    if edges.contains_key(u) {
        edges[u]
    } else {
        Seq::empty()
    }
}

/// `a` lists `b` among its direct dependencies.
pub open spec fn has_edge(edges: Edges, a: DepId, b: DepId) -> bool {
    direct(edges, a).contains(b)
}

/// The units at positions `i` and `i + 1` of `p` are joined by an edge.
pub open spec fn linked(edges: Edges, p: Seq<DepId>, i: int) -> bool {
    has_edge(edges, p[i], p[i + 1])
}

/// Every unit of `p` lists the next one among its direct dependencies.
pub open spec fn is_chain(edges: Edges, p: Seq<DepId>) -> bool {
    forall|i: int| 0 <= i < p.len() - 1 ==> #[trigger] linked(edges, p, i)
}

/// `p` leads from `a` to `b` over at least one edge.
pub open spec fn leads(edges: Edges, p: Seq<DepId>, a: DepId, b: DepId) -> bool {
    &&& p.len() >= 2
    &&& p[0] == a
    &&& p[p.len() - 1] == b
    &&& is_chain(edges, p)
}

/// `b` is a transitive dependency of `a`: some chain of one or more edges
/// leads from `a` to `b`.
pub open spec fn reachable(edges: Edges, a: DepId, b: DepId) -> bool {
    exists|p: Seq<DepId>| leads(edges, p, a, b)
}

/// `a` is a transitive dependency of itself.
pub open spec fn on_cycle(edges: Edges, a: DepId) -> bool {
    reachable(edges, a, a)
}

/// A walk from `a` can run into a cycle: `a` lies on one or reaches one.
pub open spec fn reaches_cycle(edges: Edges, a: DepId) -> bool {
    exists|w: DepId| (w == a || reachable(edges, a, w)) && #[trigger] on_cycle(edges, w)
}

/// No unit is a transitive dependency of itself. A unit that lists itself
/// is the shortest case of a cycle.
pub open spec fn acyclic(edges: Edges) -> bool {
    forall|w: DepId| !#[trigger] on_cycle(edges, w)
}

/// `s` holds, with every unit in it, that unit's direct dependencies.
pub open spec fn closed_under_edges(edges: Edges, s: Set<DepId>) -> bool {
    forall|x: DepId, y: DepId| s.contains(x) && #[trigger] has_edge(edges, x, y) ==> s.contains(y)
}

/// The units that list `u` among their direct dependencies.
pub open spec fn dependents(edges: Edges, u: DepId) -> Set<DepId> {
    Set::new(|k: DepId| has_edge(edges, k, u))
}

/// The number of distinct units that list `u` among their direct
/// dependencies. A unit that lists `u` more than once counts once.
pub open spec fn in_degree(edges: Edges, u: DepId) -> nat {
    dependents(edges, u).len()
}

/// `u` occurs in the edge map: it declares dependencies (possibly none) or
/// some unit lists it.
pub open spec fn mentioned(edges: Edges, u: DepId) -> bool {
    edges.contains_key(u) || exists|k: DepId| has_edge(edges, k, u)
}

/// An edge is a chain of length one.
pub proof fn lemma_edge_reachable(edges: Edges, a: DepId, b: DepId)
    requires
        has_edge(edges, a, b),
    ensures
        reachable(edges, a, b),
{
    let p = seq![a, b];
    assert(leads(edges, p, a, b));
}

/// Chains compose.
pub proof fn lemma_reachable_trans(edges: Edges, a: DepId, b: DepId, c: DepId)
    requires
        reachable(edges, a, b),
        reachable(edges, b, c),
    ensures
        reachable(edges, a, c),
{
    let p = choose|p: Seq<DepId>| leads(edges, p, a, b);
    let q = choose|q: Seq<DepId>| leads(edges, q, b, c);
    let r = p + q.drop_first();
    assert forall|i: int| 0 <= i < r.len() - 1 implies #[trigger] linked(edges, r, i) by {
        if i < p.len() - 1 {
            assert(linked(edges, p, i));
        } else {
            let j = i - (p.len() - 1);
            assert(linked(edges, q, j));
        }
    }
    assert(leads(edges, r, a, c));
}

/// An edge followed by a chain is a chain.
pub proof fn lemma_edge_then_reachable(edges: Edges, a: DepId, b: DepId, c: DepId)
    requires
        has_edge(edges, a, b),
        b == c || reachable(edges, b, c),
    ensures
        reachable(edges, a, c),
{
    lemma_edge_reachable(edges, a, b);
    if b != c {
        lemma_reachable_trans(edges, a, b, c);
    }
}

/// The first edge of a chain: it leads to the end or to a unit from which
/// the end is reached.
pub proof fn lemma_reachable_first_step(edges: Edges, a: DepId, c: DepId) -> (b: DepId)
    requires
        reachable(edges, a, c),
    ensures
        has_edge(edges, a, b),
        b == c || reachable(edges, b, c),
{
    let p = choose|p: Seq<DepId>| leads(edges, p, a, c);
    assert(linked(edges, p, 0));
    let b = p[1];
    if p.len() > 2 {
        let q = p.drop_first();
        assert forall|i: int| 0 <= i < q.len() - 1 implies #[trigger] linked(edges, q, i) by {
            assert(linked(edges, p, i + 1));
        }
        assert(leads(edges, q, b, c));
    }
    b
}

/// Whoever reaches a cycle has a direct dependency that reaches one.
pub proof fn lemma_cycle_through_dependency(edges: Edges, a: DepId) -> (b: DepId)
    requires
        reaches_cycle(edges, a),
    ensures
        has_edge(edges, a, b),
        reaches_cycle(edges, b),
{
    let w = choose|w: DepId| (w == a || reachable(edges, a, w)) && #[trigger] on_cycle(edges, w);
    let b = lemma_reachable_first_step(edges, a, w);
    b
}

/// A set that is closed under edges holds all that its members reach.
pub proof fn lemma_closed_holds_reachable(edges: Edges, s: Set<DepId>, a: DepId, b: DepId)
    requires
        closed_under_edges(edges, s),
        s.contains(a),
        reachable(edges, a, b),
    ensures
        s.contains(b),
{
    let p = choose|p: Seq<DepId>| leads(edges, p, a, b);
    lemma_chain_stays_inside(edges, s, p, p.len() - 1);
}

proof fn lemma_chain_stays_inside(edges: Edges, s: Set<DepId>, p: Seq<DepId>, i: int)
    requires
        closed_under_edges(edges, s),
        is_chain(edges, p),
        0 <= i < p.len(),
        s.contains(p[0]),
    ensures
        s.contains(p[i]),
    decreases i,
{
    if i > 0 {
        lemma_chain_stays_inside(edges, s, p, i - 1);
        assert(linked(edges, p, i - 1));
    }
}

/// Only units that declare dependencies lie on cycles, so an edge map in
/// which no declared unit reaches a cycle has none.
pub proof fn lemma_no_declared_cycle_is_acyclic(edges: Edges)
    requires
        forall|k: DepId| edges.contains_key(k) ==> !reaches_cycle(edges, k),
    ensures
        acyclic(edges),
{
    assert forall|w: DepId| !#[trigger] on_cycle(edges, w) by {
        if on_cycle(edges, w) {
            let b = lemma_reachable_first_step(edges, w, w);
            assert(reaches_cycle(edges, w));
        }
    }
}

} // verus!
