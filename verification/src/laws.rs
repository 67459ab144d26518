//! What the contracts of the library imply together.
//!
//! Each statement speaks of the results of the library's functions through
//! the predicates of their contracts: of `build` through
//! [`validated`](crate::builder::validated), of the queries through
//! [`dependencies`](crate::walk::dependencies),
//! [`is_dependents_list`](crate::tree::is_dependents_list) and the two
//! ranking predicates.
use crate::builder::{validated, DepTreeBuilderError, DepTreeBuilderResult};
use crate::graph::{
    acyclic, dependents, has_edge, in_degree, mentioned, reachable, reaches_cycle, Edges,
};
use crate::ident::{id_lt, lemma_ascending_no_duplicates, lemma_ascending_unique, DepId};
use crate::rank::{lemma_ranking_unique, ranks_before, units};
use crate::search::{
    cycle_trace, first_fault, lemma_cycle_trace_unique, lemma_self_dependency_is_cycle,
};
use crate::text::path_text;
use crate::tree::{is_dependencies_ranking, is_dependents_list, is_dependents_ranking, DepTree};
use crate::walk::{dependencies, lemma_dependencies_exact};
use vstd::prelude::*;

verus! {

/// Two results of validating the same edges are the same result: two
/// graphs hold the same edges, two errors name the same units and show the
/// same way.
pub open spec fn same_outcome(
    a: DepTreeBuilderResult<Box<DepTree>>,
    b: DepTreeBuilderResult<Box<DepTree>>,
) -> bool {
    match (a, b) {
        (Ok(x), Ok(y)) => x@ == y@,
        (
            Err(DepTreeBuilderError::SelfDependency(u)),
            Err(DepTreeBuilderError::SelfDependency(v)),
        ) => u == v,
        (
            Err(DepTreeBuilderError::CircularDependency(first_a, last_a, text_a)),
            Err(DepTreeBuilderError::CircularDependency(first_b, last_b, text_b)),
        ) => first_a == first_b && last_a == last_b && text_a@ == text_b@,
        _ => false,
    }
}

/// Validation stops at one unit only.
pub proof fn lemma_first_fault_unique(edges: Edges, u: DepId, v: DepId)
    requires
        first_fault(edges, u),
        first_fault(edges, v),
    ensures
        u == v,
{
}

/// Edges without a cycle, and so without a unit that lists itself, are
/// accepted; the graph holds them as they are, and its transitive
/// dependencies of any unit are exactly the units that the unit reaches over
/// declared edges, each of them once.
pub proof fn lemma_valid_edges_are_accepted(
    edges: Edges,
    built: DepTreeBuilderResult<Box<DepTree>>,
    u: DepId,
)
    requires
        edges.dom().finite(),
        acyclic(edges),
        validated(edges, built),
    ensures
        built matches Ok(tree) && tree@ == edges,
        dependencies(edges, u).no_duplicates(),
        forall|v: DepId| dependencies(edges, u).contains(v) <==> reachable(edges, u, v),
{
    lemma_dependencies_exact(edges, u);
}

/// Edges in which some unit lists itself are refused.
pub proof fn lemma_self_dependency_is_refused(
    edges: Edges,
    built: DepTreeBuilderResult<Box<DepTree>>,
    u: DepId,
)
    requires
        has_edge(edges, u, u),
        validated(edges, built),
    ensures
        built is Err,
{
    lemma_self_dependency_is_cycle(edges, u);
}

/// A unit that lists itself is named by the error, as a self-dependency,
/// if validation gets as far as this unit: if a walk from no smaller
/// declared unit runs into a cycle.
pub proof fn lemma_self_dependency_is_named(
    edges: Edges,
    built: DepTreeBuilderResult<Box<DepTree>>,
    u: DepId,
)
    requires
        has_edge(edges, u, u),
        forall|k: DepId| edges.contains_key(k) && id_lt(k, u) ==> !reaches_cycle(edges, k),
        validated(edges, built),
    ensures
        built matches Err(DepTreeBuilderError::SelfDependency(named)) && named == u,
{
    lemma_self_dependency_is_cycle(edges, u);
    match built {
        Err(DepTreeBuilderError::SelfDependency(named)) => {
            lemma_first_fault_unique(edges, named, u);
        },
        Err(DepTreeBuilderError::CircularDependency(first, _, _)) => {
            lemma_first_fault_unique(edges, first, u);
        },
        Ok(_) => {},
    }
}

/// Validating the same edges twice gives the same result.
pub proof fn lemma_validation_is_determined(
    edges: Edges,
    a: DepTreeBuilderResult<Box<DepTree>>,
    b: DepTreeBuilderResult<Box<DepTree>>,
)
    requires
        validated(edges, a),
        validated(edges, b),
    ensures
        same_outcome(a, b),
{
    match (a, b) {
        (
            Err(DepTreeBuilderError::CircularDependency(first_a, last_a, text_a)),
            Err(DepTreeBuilderError::CircularDependency(first_b, last_b, text_b)),
        ) => {
            lemma_first_fault_unique(edges, first_a, first_b);
            let ta = choose|t: Seq<DepId>|
                {
                    &&& #[trigger] cycle_trace(edges, t)
                    &&& t[0] == first_a
                    &&& t[t.len() - 1] == last_a
                    &&& text_a@ == path_text(t)
                };
            let tb = choose|t: Seq<DepId>|
                {
                    &&& #[trigger] cycle_trace(edges, t)
                    &&& t[0] == first_b
                    &&& t[t.len() - 1] == last_b
                    &&& text_b@ == path_text(t)
                };
            lemma_cycle_trace_unique(edges, ta, tb);
        },
        (
            Err(DepTreeBuilderError::SelfDependency(u)),
            Err(DepTreeBuilderError::SelfDependency(v)),
        ) => {
            lemma_first_fault_unique(edges, u, v);
        },
        // a graph and an error, or two kinds of error, cannot both come of the same
        // edges: the unit at which validation stops lists itself or does not
        _ => {},
    }
}

/// Asking twice for the transitive dependencies of a unit gives the same
/// list: the contract names the list.
pub proof fn lemma_dependencies_are_determined(
    edges: Edges,
    u: DepId,
    a: Seq<DepId>,
    b: Seq<DepId>,
)
    requires
        a == dependencies(edges, u),
        b == dependencies(edges, u),
    ensures
        a == b,
{
}

/// Asking twice for the dependents of a unit gives the same list.
pub proof fn lemma_dependents_are_determined(edges: Edges, u: DepId, a: Seq<DepId>, b: Seq<DepId>)
    requires
        is_dependents_list(edges, u, a),
        is_dependents_list(edges, u, b),
    ensures
        a == b,
{
    lemma_ascending_unique(a, b);
}

/// Asking twice for a ranking by dependency counts gives the same ranking.
pub proof fn lemma_dependencies_ranking_is_determined(
    edges: Edges,
    a: Seq<(DepId, usize)>,
    b: Seq<(DepId, usize)>,
    descending: bool,
)
    requires
        is_dependencies_ranking(edges, a, descending),
        is_dependencies_ranking(edges, b, descending),
    ensures
        a == b,
{
    lemma_ranking_unique(a, b, descending);
}

/// Asking twice for a ranking by in-degrees gives the same ranking.
pub proof fn lemma_dependents_ranking_is_determined(
    edges: Edges,
    a: Seq<(DepId, usize)>,
    b: Seq<(DepId, usize)>,
    descending: bool,
)
    requires
        is_dependents_ranking(edges, a, descending),
        is_dependents_ranking(edges, b, descending),
    ensures
        a == b,
{
    lemma_ranking_unique(a, b, descending);
}

/// No more units list a unit than there are declared units.
pub proof fn lemma_in_degree_bound(edges: Edges, u: DepId)
    requires
        edges.dom().finite(),
    ensures
        dependents(edges, u).finite(),
        in_degree(edges, u) <= edges.dom().len(),
{
    vstd::set_lib::lemma_len_subset(dependents(edges, u), edges.dom());
}

/// The dependents of a unit, listed, are as many as its in-degree says.
pub proof fn lemma_in_degree_counts_dependents(edges: Edges, u: DepId, found: Seq<DepId>)
    requires
        is_dependents_list(edges, u, found),
    ensures
        found.len() == in_degree(edges, u),
{
    lemma_ascending_no_duplicates(found);
    found.unique_seq_to_set();
    assert(found.to_set() =~= dependents(edges, u));
}

/// A ranking by in-degrees holds every declared unit, and every unit that
/// is only listed, exactly once: also those that no unit lists.
pub proof fn lemma_dependents_ranking_holds_each_unit_once(
    edges: Edges,
    r: Seq<(DepId, usize)>,
    descending: bool,
)
    requires
        edges.dom().finite(),
        edges.dom().len() <= usize::MAX,
        is_dependents_ranking(edges, r, descending),
    ensures
        units(r).no_duplicates(),
        forall|k: DepId| units(r).contains(k) <==> mentioned(edges, k),
        forall|k: DepId| edges.contains_key(k) ==> units(r).contains(k),
{
    assert forall|i: int, j: int|
        0 <= i < units(r).len() && 0 <= j < units(r).len() && i != j implies units(r)[i] != units(
        r,
    )[j] by {
        assert(r.contains(r[i]));
        assert(r.contains(r[j]));
        if i < j {
            assert(ranks_before(r[i], r[j], descending));
        } else {
            assert(ranks_before(r[j], r[i], descending));
        }
    }
    assert forall|k: DepId| units(r).contains(k) <==> mentioned(edges, k) by {
        if units(r).contains(k) {
            let i = choose|i: int| 0 <= i < units(r).len() && units(r)[i] == k;
            assert(r.contains(r[i]));
        }
        if mentioned(edges, k) {
            lemma_in_degree_bound(edges, k);
            let e = (k, in_degree(edges, k) as usize);
            if r.contains(e) {
                let i = choose|i: int| 0 <= i < r.len() && r[i] == e;
                assert(units(r)[i] == k);
            }
        }
    }
    assert forall|k: DepId| edges.contains_key(k) implies units(r).contains(k) by {
        assert(mentioned(edges, k));
    }
}

} // verus!
