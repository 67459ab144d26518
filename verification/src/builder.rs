//! Collecting edges and validating them.
use crate::graph::{
    acyclic, direct, has_edge, lemma_edge_then_reachable, lemma_no_declared_cycle_is_acyclic,
    lemma_reachable_first_step, reachable, reaches_cycle, Edges,
};
use crate::ident::{ascending, id_lt, DepId};
use crate::keys::{
    edges_of, lemma_edges_finite, lookup, mark, marked, occurs, put_list, sorted_keys, take_list,
};
use crate::search::{
    comes_from_some, comes_to, cycle_trace, explored, first_fault, gained,
    lemma_explored_runs_nowhere, lemma_explored_unit, lemma_gains_at_top,
    lemma_runs_into_from_above, lemma_runs_into_through_dependency, lemma_search_way_from_above,
    lemma_search_way_is_trace, lemma_self_dependency_is_cycle, runs_into, search_way,
    searching,
};
use crate::text::{id_text, path_text, push_id, render_path};
use crate::tree::DepTree;
use std::collections::{BTreeMap, BTreeSet};
use std::rc::Rc;
use vstd::prelude::*;
use vstd::string::*;

verus! {

/// Why a set of edges was refused.
#[derive(Debug)]
pub enum DepTreeBuilderError {
    /// The unit lists itself among its direct dependencies.
    SelfDependency(DepId),
    /// A walk from the first unit ran into a unit that it was still below.
    /// The second unit is the last one that the walk had reached; the text
    /// shows the whole way from the first to the second.
    CircularDependency(DepId, DepId, String),
}

impl Clone for DepTreeBuilderError {
    fn clone(&self) -> (copy: Self)
        ensures
            copy == *self,
    {
        match self {
            DepTreeBuilderError::SelfDependency(u) => DepTreeBuilderError::SelfDependency(*u),
            DepTreeBuilderError::CircularDependency(first, last, text) => {
                DepTreeBuilderError::CircularDependency(*first, *last, text.clone())
            },
        }
    }
}

impl DepTreeBuilderError {
    /// The message of the error, as text.
    pub open spec fn message(&self) -> Seq<char> {
        match *self {
            DepTreeBuilderError::SelfDependency(u) => "unit `"@ + id_text(u)
                + "` depends on itself"@,
            DepTreeBuilderError::CircularDependency(first, last, text) => "unit `"@ + id_text(
                first,
            ) + "` recurses when depending on `"@ + id_text(last) + "`, `"@ + text@ + "`"@,
        }
    }

    /// Renders the error for a reader.
    pub fn to_string(&self) -> (text: String)
        ensures
            text@ == self.message(),
    {
        let mut text = String::new();
        text.append("unit `");
        match self {
            DepTreeBuilderError::SelfDependency(u) => {
                push_id(&mut text, *u);
                text.append("` depends on itself");
            },
            DepTreeBuilderError::CircularDependency(first, last, way) => {
                push_id(&mut text, *first);
                text.append("` recurses when depending on `");
                push_id(&mut text, *last);
                text.append("`, `");
                text.append(way.as_str());
                text.append("`");
            },
        }
        text
    }
}

/// What validation gives: the value, or the reason for which the edges were
/// refused.
pub type DepTreeBuilderResult<T> = Result<T, DepTreeBuilderError>;

/// `built` is what validating `edges` gives.
///
/// Edges without a cycle give the graph that holds them. Otherwise the
/// error names the unit at which validation stops: `SelfDependency` if that
/// unit lists itself; else `CircularDependency`, with a cycle trace that
/// starts at that unit, the last unit of the trace, and the trace as text.
pub open spec fn validated(edges: Edges, built: DepTreeBuilderResult<Box<DepTree>>) -> bool {
    match built {
        Ok(tree) => acyclic(edges) && tree@ == edges,
        Err(DepTreeBuilderError::SelfDependency(u)) => first_fault(edges, u) && has_edge(
            edges,
            u,
            u,
        ),
        Err(DepTreeBuilderError::CircularDependency(first, last, text)) => {
            &&& first_fault(edges, first)
            &&& !has_edge(edges, first, first)
            &&& exists|trace: Seq<DepId>|
                {
                    &&& #[trigger] cycle_trace(edges, trace)
                    &&& trace[0] == first
                    &&& trace[trace.len() - 1] == last
                    &&& text@ == path_text(trace)
                }
        },
    }
}

/// Collects `unit -> dependencies` declarations for one graph.
#[derive(Debug)]
pub struct DepTreeBuilder {
    inner: BTreeMap<DepId, Vec<DepId>>,
}

impl View for DepTreeBuilder {
    type V = Edges;

    closed spec fn view(&self) -> Edges {
        edges_of(self.inner)
    }
}

impl Clone for DepTreeBuilder {
    /// A builder of its own that holds the same edges.
    fn clone(&self) -> (copy: Self)
        ensures
            copy@ == self@,
    {
        DepTreeBuilder { inner: self.inner.clone() }
    }
}

impl Default for DepTreeBuilder {
    /// A builder without edges.
    fn default() -> (builder: Self)
        ensures
            builder@ == Map::<DepId, Seq<DepId>>::empty(),
    {
        DepTreeBuilder { inner: BTreeMap::new() }
    }
}

impl DepTreeBuilder {
    /// A builder without edges.
    pub fn new() -> (builder: Self)
        ensures
            builder@ == Map::<DepId, Seq<DepId>>::empty(),
    {
        DepTreeBuilder { inner: BTreeMap::new() }
    }

    /// Declares that `id` depends on `deps`. A unit that was declared before
    /// keeps what it listed, and `deps` comes behind it. Nothing is checked
    /// here. The builder that is returned holds the same edges.
    pub fn with_dep(&mut self, id: DepId, deps: Vec<DepId>) -> (handle: Self)
        ensures
            final(self)@ == old(self)@.insert(id, direct(old(self)@, id) + deps@),
            handle@ == final(self)@,
    {
        let mut deps = deps;
        let merged = match take_list(&mut self.inner, &id) {
            Some(held) => {
                let mut held = held;
                held.append(&mut deps);
                held
            },
            None => deps,
        };
        put_list(&mut self.inner, id, merged);
        self.clone()
    }

    /// Walks from `unit` and tells whether the walk runs into a cycle.
    ///
    /// `stack` holds the units that the walk is below, `visited` the units
    /// that are done with. A unit that is done with is not looked at again,
    /// and a unit that is on the stack is a cycle found: in both cases
    /// nothing is changed. Otherwise the walk goes below `unit`. When it
    /// runs into a cycle the stack is left as it stood at that moment, and
    /// `visited` has gained the units that were done with on the way. When
    /// it does not, the stack is as it was, and `visited` has gained `unit`
    /// and all that `unit` reaches.
    fn has_circular_dependency(
        &self,
        unit: DepId,
        visited: &mut BTreeSet<DepId>,
        stack: &mut Vec<DepId>,
    ) -> (found: bool)
        ensures
            old(visited)@.contains(unit) ==> !found && final(visited)@ == old(visited)@,
            !old(visited)@.contains(unit) && old(stack)@.contains(unit) ==> found,
            old(stack)@.contains(unit) ==> final(stack)@ == old(stack)@,
            old(stack)@.contains(unit) ==> final(visited)@ == old(visited)@,
            !found ==> final(stack)@ == old(stack)@ && final(visited)@.contains(unit),
            forall|v: DepId| old(visited)@.contains(v) ==> final(visited)@.contains(v),
            forall|v: DepId|
                final(visited)@.contains(v) ==> old(visited)@.contains(v) || comes_to(
                    self@,
                    unit,
                    v,
                ),
            searching(self@, old(visited)@, old(stack)@) ==> ({
                &&& found <==> runs_into(self@, unit, old(stack)@)
                &&& found ==> search_way(self@, old(stack)@, unit, final(stack)@)
                &&& found ==> forall|v: DepId|
                    final(visited)@.contains(v) <==> old(visited)@.contains(v) || gained(
                        self@,
                        final(stack)@,
                        old(stack)@.len() as int,
                        v,
                    )
                &&& !found ==> forall|v: DepId|
                    final(visited)@.contains(v) <==> old(visited)@.contains(v) || comes_to(
                        self@,
                        unit,
                        v,
                    )
                &&& searching(self@, final(visited)@, final(stack)@)
            }),
        decreases
            self@.dom().difference(old(visited)@.union(old(stack)@.to_set())).len(),
    {
        let ghost edges = self@;
        let ghost seen0 = visited@;
        let ghost below0 = stack@;
        let ghost sound = searching(edges, seen0, below0);
        if marked(visited, &unit) {
            proof {
                if sound {
                    lemma_explored_runs_nowhere(edges, seen0, below0, unit);
                    lemma_explored_unit(edges, seen0, unit);
                }
            }
            return false;
        }
        if occurs(stack, &unit) {
            return true;
        }
        stack.push(unit);
        let ghost below1 = stack@;
        proof {
            lemma_edges_finite(&self.inner);
        }
        match lookup(&self.inner, &unit) {
            None => {},
            Some(deps) => {
                let mut j: usize = 0;
                while j < deps.len()
                    invariant
                        j <= deps.len(),
                        edges == self@,
                        edges.dom().finite(),
                        edges.contains_key(unit),
                        deps@ == edges[unit],
                        seen0 == old(visited)@,
                        below0 == old(stack)@,
                        sound == searching(edges, seen0, below0),
                        !seen0.contains(unit),
                        !below0.contains(unit),
                        below1 == below0.push(unit),
                        stack@ == below1,
                        forall|v: DepId| seen0.contains(v) ==> visited@.contains(v),
                        forall|v: DepId|
                            visited@.contains(v) ==> seen0.contains(v) || comes_to(edges, unit, v),
                        sound ==> searching(edges, visited@, below1),
                        sound ==> forall|v: DepId| #[trigger]
                            visited@.contains(v) <==> seen0.contains(v) || comes_from_some(
                                edges,
                                deps@,
                                j as int,
                                v,
                            ),
                        sound ==> forall|q: int|
                            0 <= q < j ==> !runs_into(edges, #[trigger] deps@[q], below1),
                    decreases deps.len() - j,
                {
                    let ghost seen = visited@;
                    let ghost dep = deps@[j as int];
                    proof {
                        // the unit now on the stack is one declared unit fewer to go below
                        let before = edges.dom().difference(seen0.union(below0.to_set()));
                        let now = edges.dom().difference(visited@.union(below1.to_set()));
                        assert(below1[below1.len() - 1] == unit);
                        let fewer = before.remove(unit);
                        assert forall|v: DepId| now.contains(v) implies fewer.contains(v) by {
                            if below0.contains(v) {
                                let t = choose|t: int| 0 <= t < below0.len() && below0[t] == v;
                                assert(below1[t] == v);
                            }
                        }
                        vstd::set_lib::lemma_len_subset(now, fewer);
                    }
                    let below = self.has_circular_dependency(deps[j], visited, stack);
                    proof {
                        assert forall|v: DepId| visited@.contains(v) implies seen0.contains(v)
                            || comes_to(edges, unit, v) by {
                            if !seen.contains(v) {
                                lemma_edge_then_reachable(edges, unit, dep, v);
                            }
                        }
                    }
                    if below {
                        proof {
                            if sound {
                                lemma_runs_into_from_above(edges, below0, unit, dep);
                                lemma_search_way_from_above(edges, below0, unit, dep, stack@);
                                let n = below0.len() as int;
                                let t = stack@;
                                assert(t.len() > n && t.take(n + 1) == below1);
                                assert forall|v: DepId|
                                    visited@.contains(v) <==> seen0.contains(v) || gained(
                                        edges,
                                        t,
                                        n,
                                        v,
                                    ) by {
                                    lemma_gains_at_top(edges, below0, unit, j as int, t, v);
                                }
                            }
                        }
                        return true;
                    }
                    j += 1;
                }
            },
        }
        stack.pop();
        mark(visited, unit);
        proof {
            if sound {
                if runs_into(edges, unit, below0) {
                    lemma_runs_into_through_dependency(edges, below0, unit);
                    assert(false);
                }
                assert forall|v: DepId|
                    visited@.contains(v) <==> seen0.contains(v) || comes_to(edges, unit, v) by {
                    if reachable(edges, unit, v) {
                        lemma_reachable_first_step(edges, unit, v);
                    }
                }
            }
        }
        false
    }

    /// Validates the edges and hands out the graph.
    ///
    /// The declared units are taken in ascending order. The first one from
    /// which a walk runs into a cycle ends the validation: with
    /// `SelfDependency` if it lists itself, else with `CircularDependency`
    /// and the way that the walk had gone. If there is no such unit the
    /// edges have no cycle, and the graph holds them unchanged.
    pub fn build(self) -> (built: DepTreeBuilderResult<Box<DepTree>>)
        ensures
            built is Ok <==> acyclic(self@),
            validated(self@, built),
    {
        let ks = sorted_keys(&self.inner);
        let mut visited: BTreeSet<DepId> = BTreeSet::new();
        let mut i: usize = 0;
        while i < ks.len()
            invariant
                i <= ks.len(),
                ascending(ks@),
                forall|k: DepId| ks@.contains(k) <==> self@.contains_key(k),
                explored(self@, visited@),
                forall|t: int| 0 <= t < i ==> !reaches_cycle(self@, ks@[t]),
            decreases ks.len() - i,
        {
            let unit = ks[i];
            proof {
                assert(ks@.contains(ks@[i as int]));
                assert forall|k: DepId| self@.contains_key(k) && id_lt(k, unit) implies
                    !reaches_cycle(self@, k) by {
                    assert(ks@.contains(k));
                    let t = choose|t: int| 0 <= t < ks@.len() && ks@[t] == k;
                    if t > i {
                        assert(id_lt(ks@[i as int], ks@[t]));
                    }
                }
            }
            let lists_itself = match lookup(&self.inner, &unit) {
                Some(deps) => occurs(deps, &unit),
                None => false,
            };
            if lists_itself {
                proof {
                    lemma_self_dependency_is_cycle(self@, unit);
                }
                return Err(DepTreeBuilderError::SelfDependency(unit));
            }
            let mut stack: Vec<DepId> = Vec::new();
            if self.has_circular_dependency(unit, &mut visited, &mut stack) {
                let first = stack[0];
                let last = stack[stack.len() - 1];
                let text = render_path(&stack);
                proof {
                    lemma_search_way_is_trace(self@, unit, stack@);
                }
                return Err(DepTreeBuilderError::CircularDependency(first, last, text));
            }
            i += 1;
        }
        proof {
            assert forall|k: DepId| self@.contains_key(k) implies !reaches_cycle(self@, k) by {
                assert(ks@.contains(k));
            }
            lemma_no_declared_cycle_is_acyclic(self@);
        }
        Ok(Box::new(DepTree::new(Rc::new(self.inner))))
    }
}

} // verus!
