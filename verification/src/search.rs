//! The search for a cycle, as a model.
//!
//! The first part says what the error of a refused edge map shows: the
//! unit at which validation stops, and the cycle trace of the walk from it.
//! The second part says what one search does: when it runs into a cycle,
//! which stack it then leaves, and which units are done with after it.
use crate::graph::{
    closed_under_edges, direct, has_edge, is_chain, leads, lemma_closed_holds_reachable,
    lemma_cycle_through_dependency, lemma_edge_reachable, lemma_reachable_first_step,
    lemma_reachable_trans, linked, on_cycle, reachable, reaches_cycle, Edges,
};
use crate::ident::{id_lt, DepId};
use vstd::prelude::*;

verus! {

/// `b` is the dependency of `a` that a walk in search of a cycle goes down
/// to: `a` lists `b`, and from nothing that `a` lists before `b` does a
/// walk run into a cycle.
pub open spec fn first_choice(edges: Edges, a: DepId, b: DepId) -> bool {
    exists|c: int|
        {
            &&& 0 <= c < direct(edges, a).len()
            &&& #[trigger] direct(edges, a)[c] == b
            &&& forall|e: int| 0 <= e < c ==> !reaches_cycle(edges, #[trigger] direct(edges, a)[e])
        }
}

/// From position `i` of `t` the walk goes down to position `i + 1`.
pub open spec fn descends(edges: Edges, t: Seq<DepId>, i: int) -> bool {
    first_choice(edges, t[i], t[i + 1])
}

/// `t` is a way that the walk goes down: from each unit to the next.
pub open spec fn way_down(edges: Edges, t: Seq<DepId>) -> bool {
    forall|i: int| 0 <= i < t.len() - 1 ==> #[trigger] descends(edges, t, i)
}

/// `t` is the way of a walk that ran into a cycle: distinct units, each the
/// first choice of the one before, and the first choice of the last unit is
/// a unit of the way itself.
pub open spec fn cycle_trace(edges: Edges, t: Seq<DepId>) -> bool {
    &&& t.len() >= 1
    &&& t.no_duplicates()
    &&& way_down(edges, t)
    &&& exists|i: int| 0 <= i < t.len() && first_choice(edges, t[t.len() - 1], #[trigger] t[i])
}

/// `u` is the unit at which validation stops: the smallest declared unit
/// from which a walk runs into a cycle.
pub open spec fn first_fault(edges: Edges, u: DepId) -> bool {
    &&& edges.contains_key(u)
    &&& reaches_cycle(edges, u)
    &&& forall|k: DepId| edges.contains_key(k) && id_lt(k, u) ==> !reaches_cycle(edges, k)
}

/// A unit that lists itself lies on a cycle.
pub proof fn lemma_self_dependency_is_cycle(edges: Edges, u: DepId)
    requires
        has_edge(edges, u, u),
    ensures
        reaches_cycle(edges, u),
{
    lemma_edge_reachable(edges, u, u);
    assert(on_cycle(edges, u));
}

/// A way down is a chain.
pub proof fn lemma_way_down_is_chain(edges: Edges, t: Seq<DepId>)
    requires
        way_down(edges, t),
    ensures
        is_chain(edges, t),
{
    assert forall|i: int| 0 <= i < t.len() - 1 implies #[trigger] linked(edges, t, i) by {
        assert(descends(edges, t, i));
    }
}

/// From every unit of a cycle trace a walk runs into a cycle.
pub proof fn lemma_trace_reaches_cycle(edges: Edges, t: Seq<DepId>, at: int)
    requires
        cycle_trace(edges, t),
        0 <= at < t.len(),
    ensures
        reaches_cycle(edges, t[at]),
{
    lemma_way_down_is_chain(edges, t);
    let n = t.len() - 1;
    let i = choose|i: int| 0 <= i < t.len() && first_choice(edges, t[n], #[trigger] t[i]);
    let w = t[i];
    let round = t.subrange(i, t.len() as int).push(w);
    assert forall|k: int| 0 <= k < round.len() - 1 implies #[trigger] linked(edges, round, k) by {
        if k < round.len() - 2 {
            assert(linked(edges, t, i + k));
        }
    }
    assert(leads(edges, round, w, w));
    assert(on_cycle(edges, w));
    if at < i {
        let way = t.subrange(at, i + 1);
        assert forall|k: int| 0 <= k < way.len() - 1 implies #[trigger] linked(edges, way, k) by {
            assert(linked(edges, t, at + k));
        }
        assert(leads(edges, way, t[at], w));
    } else if at > i {
        let way = t.subrange(at, t.len() as int).push(w);
        assert forall|k: int| 0 <= k < way.len() - 1 implies #[trigger] linked(edges, way, k) by {
            if k < way.len() - 2 {
                assert(linked(edges, t, at + k));
            }
        }
        assert(leads(edges, way, t[at], w));
    }
}

/// A unit has one first choice at most from which a walk runs into a cycle.
pub proof fn lemma_first_choice_unique(edges: Edges, a: DepId, b: DepId, c: DepId)
    requires
        first_choice(edges, a, b),
        first_choice(edges, a, c),
        reaches_cycle(edges, b),
        reaches_cycle(edges, c),
    ensures
        b == c,
{
}

/// Two cycle traces from the same unit agree as far as both go.
proof fn lemma_cycle_traces_agree(edges: Edges, a: Seq<DepId>, b: Seq<DepId>, at: int)
    requires
        cycle_trace(edges, a),
        cycle_trace(edges, b),
        a[0] == b[0],
        0 <= at < a.len(),
        at < b.len(),
    ensures
        a[at] == b[at],
    decreases at,
{
    if at > 0 {
        lemma_cycle_traces_agree(edges, a, b, at - 1);
        assert(descends(edges, a, at - 1));
        assert(descends(edges, b, at - 1));
        lemma_trace_reaches_cycle(edges, a, at);
        lemma_trace_reaches_cycle(edges, b, at);
        lemma_first_choice_unique(edges, a[at - 1], a[at], b[at]);
    }
}

/// A cycle trace does not end before another one from the same unit.
proof fn lemma_cycle_trace_not_shorter(edges: Edges, a: Seq<DepId>, b: Seq<DepId>)
    requires
        cycle_trace(edges, a),
        cycle_trace(edges, b),
        a[0] == b[0],
    ensures
        a.len() >= b.len(),
{
    if a.len() < b.len() {
        let n = a.len() - 1;
        let k = choose|k: int| 0 <= k < a.len() && first_choice(edges, a[n], #[trigger] a[k]);
        lemma_cycle_traces_agree(edges, a, b, n);
        lemma_cycle_traces_agree(edges, a, b, k);
        assert(descends(edges, b, n));
        lemma_trace_reaches_cycle(edges, a, k);
        lemma_trace_reaches_cycle(edges, b, n + 1);
        // the walk goes on from the last unit of `a` to a unit it was below already
        lemma_first_choice_unique(edges, a[n], a[k], b[n + 1]);
    }
}

/// The unit at which a walk starts fixes the cycle trace: the walk has no
/// choice on its way.
pub proof fn lemma_cycle_trace_unique(edges: Edges, a: Seq<DepId>, b: Seq<DepId>)
    requires
        cycle_trace(edges, a),
        cycle_trace(edges, b),
        a[0] == b[0],
    ensures
        a == b,
{
    lemma_cycle_trace_not_shorter(edges, a, b);
    lemma_cycle_trace_not_shorter(edges, b, a);
    assert forall|i: int| 0 <= i < a.len() implies a[i] == b[i] by {
        lemma_cycle_traces_agree(edges, a, b, i);
    }
}

/// A walk from `u` comes to `s`: `s` is `u` itself or a transitive
/// dependency of `u`.
pub open spec fn comes_to(edges: Edges, u: DepId, s: DepId) -> bool {
    u == s || reachable(edges, u, s)
}

/// A walk from `u` that is below the units of `below` runs into a cycle: it
/// comes to a unit of `below`, or it comes back to a unit of its own way.
pub open spec fn runs_into(edges: Edges, u: DepId, below: Seq<DepId>) -> bool {
    ||| reaches_cycle(edges, u)
    ||| exists|i: int| 0 <= i < below.len() && comes_to(edges, u, #[trigger] below[i])
}

/// A walk from one of the first `n` units of `list` comes to `v`.
pub open spec fn comes_from_some(edges: Edges, list: Seq<DepId>, n: int, v: DepId) -> bool {
    exists|q: int| 0 <= q < n && comes_to(edges, #[trigger] list[q], v)
}

/// The units of `seen` are done with: `seen` holds all that they reach, and
/// none of them lies on a cycle.
pub open spec fn explored(edges: Edges, seen: Set<DepId>) -> bool {
    &&& closed_under_edges(edges, seen)
    &&& forall|v: DepId| seen.contains(v) ==> !on_cycle(edges, v)
}

/// No unit of `below` is in `seen`.
pub open spec fn apart(seen: Set<DepId>, below: Seq<DepId>) -> bool {
    forall|i: int| 0 <= i < below.len() ==> !seen.contains(#[trigger] below[i])
}

/// The state of a search that is under way: the units that the walk is
/// below are distinct, none of them is done with, and what is done with is
/// done with indeed.
pub open spec fn searching(edges: Edges, seen: Set<DepId>, below: Seq<DepId>) -> bool {
    &&& below.no_duplicates()
    &&& apart(seen, below)
    &&& explored(edges, seen)
}

/// `b` is where a walk below `below` goes on from `a`: `a` lists `b`, and
/// no walk from what `a` lists before `b` runs into a cycle.
pub open spec fn next_choice(edges: Edges, below: Seq<DepId>, a: DepId, b: DepId) -> bool {
    exists|c: int|
        {
            &&& 0 <= c < direct(edges, a).len()
            &&& #[trigger] direct(edges, a)[c] == b
            &&& forall|e: int|
                0 <= e < c ==> !runs_into(edges, #[trigger] direct(edges, a)[e], below)
        }
}

/// From position `i` of `t` the walk goes on to position `i + 1`, being
/// below the units up to position `i`.
pub open spec fn goes_on(edges: Edges, t: Seq<DepId>, i: int) -> bool {
    next_choice(edges, t.take(i + 1), t[i], t[i + 1])
}

/// `a`, below `below`, lists `d` before the walk goes on: no walk from `d`,
/// nor from anything that `a` lists before `d`, runs into a cycle.
pub open spec fn passes(edges: Edges, below: Seq<DepId>, a: DepId, d: DepId) -> bool {
    exists|e: int|
        {
            &&& 0 <= e < direct(edges, a).len()
            &&& #[trigger] direct(edges, a)[e] == d
            &&& forall|f: int|
                0 <= f <= e ==> !runs_into(edges, #[trigger] direct(edges, a)[f], below)
        }
}

/// The unit at position `i` of the stack `t` passes a dependency from which
/// a walk comes to `v`.
pub open spec fn gains_at(edges: Edges, t: Seq<DepId>, i: int, v: DepId) -> bool {
    exists|d: DepId| #[trigger] passes(edges, t.take(i + 1), t[i], d) && comes_to(edges, d, v)
}

/// `v` is done with when the search leaves the stack `t`: a unit at
/// position `from` or above passes a dependency from which a walk comes to
/// `v`.
pub open spec fn gained(edges: Edges, t: Seq<DepId>, from: int, v: DepId) -> bool {
    exists|i: int| from <= i < t.len() && #[trigger] gains_at(edges, t, i, v)
}

/// `t` is the stack that a search from `unit` leaves when it has run into a
/// cycle below the units of `below`.
///
/// If `unit` is one of `below`, nothing was added. Otherwise `unit` comes
/// on top of `below`, each further unit is where the walk goes on from the
/// one before, all units are distinct, and from the last unit the walk
/// would go on to a unit of the stack.
pub open spec fn search_way(edges: Edges, below: Seq<DepId>, unit: DepId, t: Seq<DepId>) -> bool {
    if below.contains(unit) {
        t == below
    } else {
        &&& t.len() > below.len()
        &&& t.take(below.len() as int) == below
        &&& t[below.len() as int] == unit
        &&& t.no_duplicates()
        &&& forall|i: int| below.len() <= i < t.len() - 1 ==> #[trigger] goes_on(edges, t, i)
        &&& exists|k: int|
            0 <= k < t.len() && next_choice(edges, t, t[t.len() - 1], #[trigger] t[k])
    }
}

/// From a unit that is done with no walk runs into a cycle, and all that
/// the unit reaches is done with.
pub proof fn lemma_explored_unit(edges: Edges, seen: Set<DepId>, v: DepId)
    requires
        explored(edges, seen),
        seen.contains(v),
    ensures
        !reaches_cycle(edges, v),
        forall|w: DepId| comes_to(edges, v, w) ==> seen.contains(w),
{
    assert forall|w: DepId| comes_to(edges, v, w) implies seen.contains(w) by {
        if v != w {
            lemma_closed_holds_reachable(edges, seen, v, w);
        }
    }
    if reaches_cycle(edges, v) {
        let w = choose|w: DepId|
            (w == v || reachable(edges, v, w)) && #[trigger] on_cycle(edges, w);
        assert(comes_to(edges, v, w));
    }
}

/// A walk from a unit that is done with does not run into a cycle, whatever
/// it is below, as long as it is below no unit that is done with.
pub proof fn lemma_explored_runs_nowhere(
    edges: Edges,
    seen: Set<DepId>,
    below: Seq<DepId>,
    v: DepId,
)
    requires
        explored(edges, seen),
        apart(seen, below),
        seen.contains(v),
    ensures
        !runs_into(edges, v, below),
{
    lemma_explored_unit(edges, seen, v);
}

/// If a walk from a dependency of `unit` runs into a cycle below `unit`,
/// so does the walk from `unit`.
pub proof fn lemma_runs_into_from_above(
    edges: Edges,
    below: Seq<DepId>,
    unit: DepId,
    dep: DepId,
)
    requires
        has_edge(edges, unit, dep),
        runs_into(edges, dep, below.push(unit)),
    ensures
        runs_into(edges, unit, below),
{
    lemma_edge_reachable(edges, unit, dep);
    let more = below.push(unit);
    if reaches_cycle(edges, dep) {
        let w = choose|w: DepId|
            (w == dep || reachable(edges, dep, w)) && #[trigger] on_cycle(edges, w);
        if w != dep {
            lemma_reachable_trans(edges, unit, dep, w);
        }
        assert((w == unit || reachable(edges, unit, w)) && on_cycle(edges, w));
    } else {
        let i = choose|i: int| 0 <= i < more.len() && comes_to(edges, dep, #[trigger] more[i]);
        if dep != more[i] {
            lemma_reachable_trans(edges, unit, dep, more[i]);
        }
        assert(reachable(edges, unit, more[i]));
        if i < below.len() {
            assert(comes_to(edges, unit, below[i]));
        } else {
            assert(on_cycle(edges, unit));
        }
    }
}

/// If a walk from `unit` runs into a cycle and `unit` is not itself below,
/// the walk from one of its dependencies runs into a cycle below `unit`.
pub proof fn lemma_runs_into_through_dependency(
    edges: Edges,
    below: Seq<DepId>,
    unit: DepId,
) -> (q: int)
    requires
        runs_into(edges, unit, below),
        !below.contains(unit),
    ensures
        0 <= q < direct(edges, unit).len(),
        runs_into(edges, direct(edges, unit)[q], below.push(unit)),
{
    let more = below.push(unit);
    if reaches_cycle(edges, unit) {
        let b = lemma_cycle_through_dependency(edges, unit);
        let q = choose|q: int| 0 <= q < direct(edges, unit).len() && direct(edges, unit)[q] == b;
        q
    } else {
        let i = choose|i: int| 0 <= i < below.len() && comes_to(edges, unit, #[trigger] below[i]);
        assert(below.contains(below[i]));
        let b = lemma_reachable_first_step(edges, unit, below[i]);
        let q = choose|q: int| 0 <= q < direct(edges, unit).len() && direct(edges, unit)[q] == b;
        assert(more[i] == below[i]);
        assert(comes_to(edges, b, more[i]));
        q
    }
}

/// The stack that a search below `unit` leaves is the stack that the search
/// from `unit` leaves, if the walk went on from `unit` to where that search
/// began.
pub proof fn lemma_search_way_from_above(
    edges: Edges,
    below: Seq<DepId>,
    unit: DepId,
    dep: DepId,
    t: Seq<DepId>,
)
    requires
        !below.contains(unit),
        below.push(unit).no_duplicates(),
        next_choice(edges, below.push(unit), unit, dep),
        search_way(edges, below.push(unit), dep, t),
    ensures
        search_way(edges, below, unit, t),
{
    let more = below.push(unit);
    let n = below.len() as int;
    assert(more.take(n) =~= below);
    assert(more[n] == unit);
    if more.contains(dep) {
        let k = choose|k: int| 0 <= k < more.len() && more[k] == dep;
        assert(next_choice(edges, t, t[t.len() - 1], t[k]));
        assert(t.take(n) =~= below);
    } else {
        assert(t.take(n) =~= t.take(n + 1).take(n));
        assert(t.take(n + 1)[n] == unit);
        assert forall|i: int| n <= i < t.len() - 1 implies #[trigger] goes_on(edges, t, i) by {
            if i == n {
                assert(t.take(n + 1) == more);
            }
        }
    }
}

/// What the unit on top of `below` passes when the walk goes on to its
/// dependency at position `j`: the dependencies before that position.
pub proof fn lemma_gains_at_top(
    edges: Edges,
    below: Seq<DepId>,
    unit: DepId,
    j: int,
    t: Seq<DepId>,
    v: DepId,
)
    requires
        0 <= j < direct(edges, unit).len(),
        forall|q: int|
            0 <= q < j ==> !runs_into(edges, #[trigger] direct(edges, unit)[q], below.push(unit)),
        runs_into(edges, direct(edges, unit)[j], below.push(unit)),
        t.len() > below.len(),
        t.take(below.len() as int + 1) == below.push(unit),
    ensures
        gains_at(edges, t, below.len() as int, v) <==> comes_from_some(
            edges,
            direct(edges, unit),
            j,
            v,
        ),
{
    let n = below.len() as int;
    let more = below.push(unit);
    let list = direct(edges, unit);
    assert(t[n] == more[n]);
    if gains_at(edges, t, n, v) {
        let d = choose|d: DepId| #[trigger] passes(edges, more, unit, d) && comes_to(edges, d, v);
        let e = choose|e: int|
            {
                &&& 0 <= e < list.len()
                &&& #[trigger] list[e] == d
                &&& forall|f: int| 0 <= f <= e ==> !runs_into(edges, #[trigger] list[f], more)
            };
        if e >= j {
            assert(!runs_into(edges, list[j], more));
        }
        assert(comes_to(edges, list[e], v));
    }
    if comes_from_some(edges, list, j, v) {
        let q = choose|q: int| 0 <= q < j && comes_to(edges, #[trigger] list[q], v);
        assert(list[q] == list[q]);
        assert(passes(edges, more, unit, list[q]));
    }
}

/// Below the same units, a unit has one dependency at most to which the
/// walk goes on and from which it runs into a cycle.
pub proof fn lemma_next_choice_unique(
    edges: Edges,
    below: Seq<DepId>,
    a: DepId,
    b: DepId,
    c: DepId,
)
    requires
        next_choice(edges, below, a, b),
        next_choice(edges, below, a, c),
        runs_into(edges, b, below),
        runs_into(edges, c, below),
    ensures
        b == c,
{
    let list = direct(edges, a);
    let i = choose|i: int|
        {
            &&& 0 <= i < list.len()
            &&& #[trigger] list[i] == b
            &&& forall|e: int| 0 <= e < i ==> !runs_into(edges, #[trigger] list[e], below)
        };
    let j = choose|j: int|
        {
            &&& 0 <= j < list.len()
            &&& #[trigger] list[j] == c
            &&& forall|e: int| 0 <= e < j ==> !runs_into(edges, #[trigger] list[e], below)
        };
    if i < j {
        assert(!runs_into(edges, list[i], below));
    }
    if j < i {
        assert(!runs_into(edges, list[j], below));
    }
}

/// From every unit that a search has put on the stack, the walk runs into
/// a cycle below the units under it.
pub proof fn lemma_search_way_runs(
    edges: Edges,
    below: Seq<DepId>,
    unit: DepId,
    t: Seq<DepId>,
    at: int,
)
    requires
        search_way(edges, below, unit, t),
        !below.contains(unit),
        below.len() <= at < t.len(),
    ensures
        runs_into(edges, t[at], t.take(at)),
    decreases t.len() - at,
{
    let under = t.take(at);
    if at == t.len() - 1 {
        let k = choose|k: int|
            0 <= k < t.len() && next_choice(edges, t, t[t.len() - 1], #[trigger] t[k]);
        lemma_next_choice_is_first(edges, t, t[at], t[k]);
        lemma_edge_reachable(edges, t[at], t[k]);
        if k == at {
            assert(on_cycle(edges, t[at]));
        } else {
            assert(under[k] == t[k]);
            assert(comes_to(edges, t[at], under[k]));
        }
    } else {
        lemma_search_way_runs(edges, below, unit, t, at + 1);
        assert(goes_on(edges, t, at));
        lemma_next_choice_is_first(edges, t.take(at + 1), t[at], t[at + 1]);
        assert(t.take(at + 1) =~= under.push(t[at]));
        lemma_runs_into_from_above(edges, under, t[at], t[at + 1]);
    }
}

/// Two stacks that a search from the same unit below the same units may
/// leave agree as far as both go.
proof fn lemma_search_ways_agree(
    edges: Edges,
    below: Seq<DepId>,
    unit: DepId,
    a: Seq<DepId>,
    b: Seq<DepId>,
    upto: int,
)
    requires
        search_way(edges, below, unit, a),
        search_way(edges, below, unit, b),
        !below.contains(unit),
        0 <= upto <= a.len(),
        upto <= b.len(),
    ensures
        a.take(upto) == b.take(upto),
    decreases upto,
{
    let n = below.len() as int;
    if upto <= n {
        assert(a.take(upto) =~= a.take(n).take(upto));
        assert(b.take(upto) =~= b.take(n).take(upto));
    } else {
        lemma_search_ways_agree(edges, below, unit, a, b, upto - 1);
        let i = upto - 1;
        assert(a.take(i)[i - 1] == b.take(i)[i - 1] || i == 0);
        if i > n {
            assert(goes_on(edges, a, i - 1));
            assert(goes_on(edges, b, i - 1));
            assert(a.take(i)[i - 1] == a[i - 1]);
            assert(b.take(i)[i - 1] == b[i - 1]);
            lemma_search_way_runs(edges, below, unit, a, i);
            lemma_search_way_runs(edges, below, unit, b, i);
            lemma_next_choice_unique(edges, a.take(i), a[i - 1], a[i], b[i]);
        }
        assert(a.take(upto) =~= a.take(i).push(a[i]));
        assert(b.take(upto) =~= b.take(i).push(b[i]));
    }
}

/// A stack that a search may leave does not end before another one that
/// the search from the same unit below the same units may leave.
proof fn lemma_search_way_not_shorter(
    edges: Edges,
    below: Seq<DepId>,
    unit: DepId,
    a: Seq<DepId>,
    b: Seq<DepId>,
)
    requires
        search_way(edges, below, unit, a),
        search_way(edges, below, unit, b),
        !below.contains(unit),
    ensures
        a.len() >= b.len(),
{
    if a.len() < b.len() {
        let n = a.len() - 1;
        let k = choose|k: int|
            0 <= k < a.len() && next_choice(edges, a, a[a.len() - 1], #[trigger] a[k]);
        lemma_search_ways_agree(edges, below, unit, a, b, n + 1);
        assert(a.take(n + 1) =~= a);
        assert(b.take(n + 1)[n] == b[n]);
        assert(b.take(n + 1)[k] == b[k]);
        assert(goes_on(edges, b, n));
        lemma_search_way_runs(edges, below, unit, b, n + 1);
        assert(comes_to(edges, a[k], a[k]));
        assert(runs_into(edges, a[k], a));
        // the walk goes on from the last unit of `a` to a unit that is on the stack
        lemma_next_choice_unique(edges, a, a[n], a[k], b[n + 1]);
        assert(b[k] == b[n + 1]);
    }
}

/// The units that a search is below and the unit from which it starts fix
/// the stack that it leaves when it runs into a cycle.
pub proof fn lemma_search_way_unique(
    edges: Edges,
    below: Seq<DepId>,
    unit: DepId,
    a: Seq<DepId>,
    b: Seq<DepId>,
)
    requires
        search_way(edges, below, unit, a),
        search_way(edges, below, unit, b),
    ensures
        a == b,
{
    if !below.contains(unit) {
        lemma_search_way_not_shorter(edges, below, unit, a, b);
        lemma_search_way_not_shorter(edges, below, unit, b, a);
        lemma_search_ways_agree(edges, below, unit, a, b, a.len() as int);
        assert(a.take(a.len() as int) =~= a);
        assert(b.take(b.len() as int) =~= b);
    }
}

/// A search that began below nothing leaves a cycle trace.
pub proof fn lemma_search_way_is_trace(edges: Edges, unit: DepId, t: Seq<DepId>)
    requires
        search_way(edges, Seq::empty(), unit, t),
    ensures
        cycle_trace(edges, t),
        t[0] == unit,
{
    assert forall|i: int| 0 <= i < t.len() - 1 implies #[trigger] descends(edges, t, i) by {
        assert(goes_on(edges, t, i));
        lemma_next_choice_is_first(edges, t.take(i + 1), t[i], t[i + 1]);
    }
    let k = choose|k: int|
        0 <= k < t.len() && next_choice(edges, t, t[t.len() - 1], #[trigger] t[k]);
    lemma_next_choice_is_first(edges, t, t[t.len() - 1], t[k]);
}

/// Where the walk goes on is a first choice: what does not run into a cycle
/// does not reach one.
pub proof fn lemma_next_choice_is_first(edges: Edges, below: Seq<DepId>, a: DepId, b: DepId)
    requires
        next_choice(edges, below, a, b),
    ensures
        first_choice(edges, a, b),
{
    let c = choose|c: int|
        {
            &&& 0 <= c < direct(edges, a).len()
            &&& #[trigger] direct(edges, a)[c] == b
            &&& forall|e: int|
                0 <= e < c ==> !runs_into(edges, #[trigger] direct(edges, a)[e], below)
        };
    assert forall|e: int| 0 <= e < c implies !reaches_cycle(
        edges,
        #[trigger] direct(edges, a)[e],
    ) by {
        assert(!runs_into(edges, direct(edges, a)[e], below));
    }
}

} // verus!
