//! Depth-first walks over an edge map, as mathematical functions.
//!
//! [`walk`] fixes the order in which a depth-first traversal first meets the
//! units below a list of starting points. The lemmas here show what the
//! traversal order does not: which units are met, and that each is met once.
use crate::graph::{
    direct, has_edge, lemma_closed_holds_reachable, lemma_edge_then_reachable,
    lemma_reachable_first_step, reachable, Edges,
};
use crate::ident::{ascending, lemma_ascending_unique, DepId};
use vstd::prelude::*;

verus! {

/// The units met by a depth-first walk, in the order of their first visit.
///
/// `todo` lists the units still to be looked at, nearest first; `seen` holds
/// the units already met. A unit that is met for the first time is recorded,
/// and its direct dependencies are looked at before the rest of `todo`.
pub open spec fn walk(edges: Edges, todo: Seq<DepId>, seen: Set<DepId>) -> Seq<DepId>
    decreases edges.dom().difference(seen).len(), todo.len(),
    when edges.dom().finite()
    via walk_terminates
{
    if todo.len() == 0 {
        Seq::empty()
    } else if seen.contains(todo[0]) {
        walk(edges, todo.drop_first(), seen)
    } else {
        seq![todo[0]] + walk(
            edges,
            direct(edges, todo[0]) + todo.drop_first(),
            seen.insert(todo[0]),
        )
    }
}

#[via_fn]
proof fn walk_terminates(edges: Edges, todo: Seq<DepId>, seen: Set<DepId>) {
    if todo.len() > 0 && !seen.contains(todo[0]) {
        lemma_unseen_shrinks(edges, seen, todo[0]);
    }
}

/// Meeting a new unit leaves fewer declared units unseen, or, if the unit
/// declares nothing, as many and nothing new to look at.
pub proof fn lemma_unseen_shrinks(edges: Edges, seen: Set<DepId>, x: DepId)
    requires
        edges.dom().finite(),
        !seen.contains(x),
    ensures
        edges.contains_key(x) ==> edges.dom().difference(seen.insert(x)).len()
            < edges.dom().difference(seen).len(),
        !edges.contains_key(x) ==> edges.dom().difference(seen.insert(x))
            == edges.dom().difference(seen) && direct(edges, x).len() == 0,
{
    let before = edges.dom().difference(seen);
    let after = edges.dom().difference(seen.insert(x));
    if edges.contains_key(x) {
        assert(after =~= before.remove(x));
    }
}

/// The total number of direct dependencies declared by the units of `s`,
/// a unit that occurs twice counted twice.
pub open spec fn weight(edges: Edges, s: Seq<DepId>) -> nat
    decreases s.len(),
{
    if s.len() == 0 {
        0
    } else {
        direct(edges, s[0]).len() + weight(edges, s.drop_first())
    }
}

/// The transitive dependencies of `u` in the order in which a depth-first
/// walk from `u` first meets them.
pub open spec fn dependencies(edges: Edges, u: DepId) -> Seq<DepId> {
    walk(edges, direct(edges, u), Set::empty())
}

/// The number of edges that a depth-first walk from `u` follows when it
/// expands each unit once: the direct dependencies of `u` and of every unit
/// below it, summed.
pub open spec fn dependency_count(edges: Edges, u: DepId) -> nat {
    weight(edges, walk(edges, seq![u], Set::empty()))
}

/// The weight of a concatenation is the sum of the weights.
pub proof fn lemma_weight_add(edges: Edges, a: Seq<DepId>, b: Seq<DepId>)
    ensures
        weight(edges, a + b) == weight(edges, a) + weight(edges, b),
    decreases a.len(),
{
    if a.len() > 0 {
        lemma_weight_add(edges, a.drop_first(), b);
        assert((a + b).drop_first() =~= a.drop_first() + b);
    }
}

/// A walk that starts at one unit not yet seen records the unit and goes on
/// below it.
pub proof fn lemma_walk_single(edges: Edges, x: DepId, seen: Set<DepId>)
    requires
        edges.dom().finite(),
    ensures
        seen.contains(x) ==> walk(edges, seq![x], seen) == Seq::<DepId>::empty(),
        !seen.contains(x) ==> walk(edges, seq![x], seen) == seq![x] + walk(
            edges,
            direct(edges, x),
            seen.insert(x),
        ),
{
    let todo = seq![x];
    assert(todo.drop_first() =~= Seq::<DepId>::empty());
    assert(walk(edges, Seq::<DepId>::empty(), seen) == Seq::<DepId>::empty());
}

/// Walking `a + b` is walking `a` and then walking `b` with what the first
/// walk met added to the units seen.
pub proof fn lemma_walk_add(edges: Edges, a: Seq<DepId>, b: Seq<DepId>, seen: Set<DepId>)
    requires
        edges.dom().finite(),
    ensures
        walk(edges, a + b, seen) == walk(edges, a, seen) + walk(
            edges,
            b,
            seen.union(walk(edges, a, seen).to_set()),
        ),
    decreases edges.dom().difference(seen).len(), a.len(),
{
    let first = walk(edges, a, seen);
    if a.len() == 0 {
        assert(seen.union(first.to_set()) =~= seen);
    } else {
        let x = a[0];
        assert((a + b).drop_first() =~= a.drop_first() + b);
        if seen.contains(x) {
            lemma_walk_add(edges, a.drop_first(), b, seen);
        } else {
            lemma_unseen_shrinks(edges, seen, x);
            let below = direct(edges, x) + a.drop_first();
            let inner = walk(edges, below, seen.insert(x));
            lemma_walk_add(edges, below, b, seen.insert(x));
            assert(direct(edges, x) + (a.drop_first() + b) =~= below + b);
            assert(seen.insert(x).union(inner.to_set()) =~= seen.union(first.to_set())) by {
                assert forall|v: DepId|
                    seen.insert(x).union(inner.to_set()).contains(v) <==> seen.union(
                        first.to_set(),
                    ).contains(v) by {
                    if inner.contains(v) {
                        let i = choose|i: int| 0 <= i < inner.len() && inner[i] == v;
                        assert(first[i + 1] == v);
                    }
                    assert(first[0] == x);
                }
            }
        }
    }
}

/// A walk records no unit that was seen before, and none twice.
pub proof fn lemma_walk_fresh(edges: Edges, todo: Seq<DepId>, seen: Set<DepId>)
    requires
        edges.dom().finite(),
    ensures
        forall|v: DepId| walk(edges, todo, seen).contains(v) ==> !seen.contains(v),
        walk(edges, todo, seen).no_duplicates(),
    decreases edges.dom().difference(seen).len(), todo.len(),
{
    let r = walk(edges, todo, seen);
    if todo.len() == 0 {
    } else if seen.contains(todo[0]) {
        lemma_walk_fresh(edges, todo.drop_first(), seen);
    } else {
        let x = todo[0];
        lemma_unseen_shrinks(edges, seen, x);
        lemma_walk_fresh(edges, direct(edges, x) + todo.drop_first(), seen.insert(x));
        assert forall|v: DepId| r.contains(v) implies !seen.contains(v) by {
            let i = choose|i: int| 0 <= i < r.len() && r[i] == v;
            if i > 0 {
                assert(!seen.insert(x).contains(v));
            }
        }
        assert forall|i: int, j: int| 0 <= i < r.len() && 0 <= j < r.len() && i != j implies r[i]
            != r[j] by {
            if i > 0 {
                assert(!seen.insert(x).contains(r[i]));
            }
            if j > 0 {
                assert(!seen.insert(x).contains(r[j]));
            }
        }
    }
}

/// A walk records only its starting points and what they reach.
pub proof fn lemma_walk_sound(edges: Edges, todo: Seq<DepId>, seen: Set<DepId>, v: DepId)
    requires
        edges.dom().finite(),
        walk(edges, todo, seen).contains(v),
    ensures
        exists|i: int| 0 <= i < todo.len() && (todo[i] == v || reachable(edges, todo[i], v)),
    decreases edges.dom().difference(seen).len(), todo.len(),
{
    let r = walk(edges, todo, seen);
    if todo.len() == 0 {
    } else if seen.contains(todo[0]) {
        let rest = todo.drop_first();
        lemma_walk_sound(edges, rest, seen, v);
    } else {
        let x = todo[0];
        lemma_unseen_shrinks(edges, seen, x);
        let below = direct(edges, x) + todo.drop_first();
        let k = choose|k: int| 0 <= k < r.len() && r[k] == v;
        if k > 0 {
            lemma_walk_sound(edges, below, seen.insert(x), v);
            let i = choose|i: int|
                0 <= i < below.len() && (below[i] == v || reachable(edges, below[i], v));
            if i < direct(edges, x).len() {
                lemma_edge_then_reachable(edges, x, below[i], v);
            }
        }
    }
}

/// After a walk every starting point is seen or recorded, and so is every
/// direct dependency of every recorded unit.
pub proof fn lemma_walk_covers(edges: Edges, todo: Seq<DepId>, seen: Set<DepId>)
    requires
        edges.dom().finite(),
    ensures
        forall|i: int|
            0 <= i < todo.len() ==> seen.contains(#[trigger] todo[i]) || walk(
                edges,
                todo,
                seen,
            ).contains(todo[i]),
        forall|w: DepId, d: DepId|
            walk(edges, todo, seen).contains(w) && #[trigger] has_edge(edges, w, d)
                ==> seen.contains(d) || walk(edges, todo, seen).contains(d),
    decreases edges.dom().difference(seen).len(), todo.len(),
{
    let r = walk(edges, todo, seen);
    if todo.len() == 0 {
    } else if seen.contains(todo[0]) {
        let rest = todo.drop_first();
        lemma_walk_covers(edges, rest, seen);
        assert forall|i: int| 0 <= i < todo.len() implies seen.contains(#[trigger] todo[i])
            || r.contains(todo[i]) by {
            if i > 0 {
                assert(rest[i - 1] == todo[i]);
            }
        }
    } else {
        let x = todo[0];
        lemma_unseen_shrinks(edges, seen, x);
        let below = direct(edges, x) + todo.drop_first();
        let inner = walk(edges, below, seen.insert(x));
        lemma_walk_covers(edges, below, seen.insert(x));
        assert(r[0] == x);
        assert forall|v: DepId| inner.contains(v) implies r.contains(v) by {
            let i = choose|i: int| 0 <= i < inner.len() && inner[i] == v;
            assert(r[i + 1] == v);
        }
        assert forall|i: int| 0 <= i < todo.len() implies seen.contains(#[trigger] todo[i])
            || r.contains(todo[i]) by {
            if i > 0 {
                let j = direct(edges, x).len() + i - 1;
                assert(below[j] == todo[i]);
            }
        }
        assert forall|w: DepId, d: DepId| r.contains(w) && #[trigger] has_edge(edges, w, d)
            implies seen.contains(d) || r.contains(d) by {
            let k = choose|k: int| 0 <= k < r.len() && r[k] == w;
            if k == 0 {
                let i = choose|i: int| 0 <= i < direct(edges, x).len() && direct(edges, x)[i] == d;
                assert(below[i] == d);
            }
        }
    }
}

/// The walk below `u` records exactly the transitive dependencies of `u`,
/// each of them once, whatever the number of chains that lead to it.
pub proof fn lemma_dependencies_exact(edges: Edges, u: DepId)
    requires
        edges.dom().finite(),
    ensures
        dependencies(edges, u).no_duplicates(),
        forall|v: DepId| dependencies(edges, u).contains(v) <==> reachable(edges, u, v),
{
    let todo = direct(edges, u);
    let none = Set::<DepId>::empty();
    let r = dependencies(edges, u);
    lemma_walk_fresh(edges, todo, none);
    lemma_walk_covers(edges, todo, none);
    let met = r.to_set();
    assert forall|v: DepId| r.contains(v) <==> reachable(edges, u, v) by {
        if r.contains(v) {
            lemma_walk_sound(edges, todo, none, v);
            let i = choose|i: int|
                0 <= i < todo.len() && (todo[i] == v || reachable(edges, todo[i], v));
            lemma_edge_then_reachable(edges, u, todo[i], v);
        }
        if reachable(edges, u, v) {
            let b = lemma_reachable_first_step(edges, u, v);
            if b != v {
                lemma_closed_holds_reachable(edges, met, b, v);
            }
        }
    }
}

/// The walk from `u` itself records `u` and its transitive dependencies,
/// each once: the units whose direct dependencies the dependency count sums.
pub proof fn lemma_walk_from_exact(edges: Edges, u: DepId)
    requires
        edges.dom().finite(),
    ensures
        walk(edges, seq![u], Set::empty()).no_duplicates(),
        forall|v: DepId|
            walk(edges, seq![u], Set::empty()).contains(v) <==> (v == u || reachable(edges, u, v)),
{
    let none = Set::<DepId>::empty();
    let todo = seq![u];
    let r = walk(edges, todo, none);
    lemma_walk_fresh(edges, todo, none);
    lemma_walk_covers(edges, todo, none);
    let met = r.to_set();
    assert forall|v: DepId| r.contains(v) <==> (v == u || reachable(edges, u, v)) by {
        if r.contains(v) {
            lemma_walk_sound(edges, todo, none, v);
        }
        if reachable(edges, u, v) {
            lemma_closed_holds_reachable(edges, met, u, v);
        }
    }
}

/// The declared units in ascending order.
pub open spec fn declared(edges: Edges) -> Seq<DepId> {
    choose|s: Seq<DepId>| ascending(s) && forall|k: DepId| s.contains(k) <==> edges.contains_key(k)
}

/// The number of declared edges: the lengths of all dependency lists,
/// summed.
pub open spec fn declared_edges(edges: Edges) -> nat {
    weight(edges, declared(edges))
}

/// A list that holds the declared units in ascending order is the list of
/// the declared units.
pub proof fn lemma_declared_is(edges: Edges, ks: Seq<DepId>)
    requires
        ascending(ks),
        forall|k: DepId| ks.contains(k) <==> edges.contains_key(k),
    ensures
        declared(edges) == ks,
{
    lemma_ascending_unique(declared(edges), ks);
}

/// Taking one unit out of a list takes its direct dependencies out of the
/// weight.
proof fn lemma_weight_remove(edges: Edges, ks: Seq<DepId>, t: int)
    requires
        0 <= t < ks.len(),
    ensures
        weight(edges, ks) == direct(edges, ks[t]).len() + weight(edges, ks.remove(t)),
{
    let head = ks.take(t);
    let tail = ks.skip(t + 1);
    let one = seq![ks[t]];
    assert(ks =~= head + one + tail);
    lemma_weight_add(edges, head + one, tail);
    lemma_weight_add(edges, head, one);
    lemma_weight_add(edges, head, tail);
    assert(weight(edges, one) == direct(edges, ks[t]).len()) by {
        reveal_with_fuel(weight, 2);
    }
}

/// Distinct units weigh no more than a list that holds each declared one of
/// them.
proof fn lemma_weight_of_distinct(edges: Edges, w: Seq<DepId>, ks: Seq<DepId>)
    requires
        w.no_duplicates(),
        ks.no_duplicates(),
        forall|x: DepId| w.contains(x) && edges.contains_key(x) ==> ks.contains(x),
    ensures
        weight(edges, w) <= weight(edges, ks),
    decreases w.len(),
{
    if w.len() > 0 {
        let v = w[0];
        let rest = w.drop_first();
        assert(w.contains(v));
        assert(forall|x: DepId| rest.contains(x) ==> w.contains(x) && x != v);
        if edges.contains_key(v) {
            let t = choose|t: int| 0 <= t < ks.len() && ks[t] == v;
            let others = ks.remove(t);
            lemma_weight_remove(edges, ks, t);
            assert forall|x: DepId|
                rest.contains(x) && edges.contains_key(x) implies others.contains(x) by {
                let i = choose|i: int| 0 <= i < ks.len() && ks[i] == x;
                if i < t {
                    assert(others[i] == x);
                } else {
                    assert(others[i - 1] == x);
                }
            }
            lemma_weight_of_distinct(edges, rest, others);
        } else {
            lemma_weight_of_distinct(edges, rest, ks);
        }
    }
}

/// The dependency count of a unit is at most the number of edges declared:
/// the lengths of all lists, summed over a list that holds every declared
/// unit once. Where the declared edges can be counted by the machine, so
/// can every dependency count.
pub proof fn lemma_dependency_count_bound(edges: Edges, ks: Seq<DepId>, u: DepId)
    requires
        edges.dom().finite(),
        ks.no_duplicates(),
        forall|k: DepId| edges.contains_key(k) ==> ks.contains(k),
    ensures
        dependency_count(edges, u) <= weight(edges, ks),
{
    lemma_walk_fresh(edges, seq![u], Set::empty());
    lemma_weight_of_distinct(edges, walk(edges, seq![u], Set::empty()), ks);
}

} // verus!
