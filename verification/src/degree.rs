//! Counting the units that list a unit, one declaring unit at a time.
use crate::graph::{dependents, has_edge, in_degree, mentioned, Edges};
use crate::ident::DepId;
use vstd::prelude::*;

verus! {

/// The number of positions of `ks` whose unit lists `u` among its direct
/// dependencies.
pub open spec fn listing_count(edges: Edges, ks: Seq<DepId>, u: DepId) -> nat
    decreases ks.len(),
{
    if ks.len() == 0 {
        0
    } else {
        listing_count(edges, ks.drop_last(), u) + if has_edge(edges, ks.last(), u) {
            1nat
        } else {
            0nat
        }
    }
}

/// `u` is one of the units of `ks` or is listed by one of them.
pub open spec fn noted(edges: Edges, ks: Seq<DepId>, u: DepId) -> bool {
    exists|t: int| 0 <= t < ks.len() && (ks[t] == u || has_edge(edges, #[trigger] ks[t], u))
}

/// `counts` is the tally over the units of `ks`: it holds every unit noted
/// so far, with the number of units of `ks` that list it.
pub open spec fn tally_of(counts: Map<DepId, usize>, edges: Edges, ks: Seq<DepId>) -> bool {
    &&& forall|u: DepId| #[trigger] counts.contains_key(u) <==> noted(edges, ks, u)
    &&& forall|u: DepId| #[trigger]
        counts.contains_key(u) ==> counts[u] == listing_count(edges, ks, u)
}

/// No more positions list a unit than there are positions.
pub proof fn lemma_listing_count_bound(edges: Edges, ks: Seq<DepId>, u: DepId)
    ensures
        listing_count(edges, ks, u) <= ks.len(),
    decreases ks.len(),
{
    if ks.len() > 0 {
        lemma_listing_count_bound(edges, ks.drop_last(), u);
    }
}

/// A unit that some position lists is noted.
pub proof fn lemma_listed_is_noted(edges: Edges, ks: Seq<DepId>, u: DepId)
    requires
        listing_count(edges, ks, u) > 0,
    ensures
        noted(edges, ks, u),
    decreases ks.len(),
{
    if ks.len() > 0 {
        let front = ks.drop_last();
        if has_edge(edges, ks.last(), u) {
            let t = ks.len() - 1;
        } else {
            lemma_listed_is_noted(edges, front, u);
        }
    }
}

/// What is noted after one more unit: what was noted before, the unit, and
/// what the unit lists.
pub proof fn lemma_noted_push(edges: Edges, ks: Seq<DepId>, key: DepId, u: DepId)
    ensures
        noted(edges, ks.push(key), u) <==> noted(edges, ks, u) || key == u || has_edge(
            edges,
            key,
            u,
        ),
        listing_count(edges, ks.push(key), u) == listing_count(edges, ks, u) + if has_edge(
            edges,
            key,
            u,
        ) {
            1nat
        } else {
            0nat
        },
{
    let more = ks.push(key);
    assert(more.drop_last() =~= ks);
    if noted(edges, more, u) {
    }
    if noted(edges, ks, u) {
    }
    if key == u || has_edge(edges, key, u) {
    }
}

/// Over distinct units, the positions that list `u` are as many as the
/// units that list `u`.
pub proof fn lemma_listing_count_distinct(edges: Edges, ks: Seq<DepId>, u: DepId)
    requires
        ks.no_duplicates(),
    ensures
        Set::new(|k: DepId| ks.contains(k) && has_edge(edges, k, u)).finite(),
        Set::new(|k: DepId| ks.contains(k) && has_edge(edges, k, u)).len() == listing_count(
            edges,
            ks,
            u,
        ),
    decreases ks.len(),
{
    let all = Set::new(|k: DepId| ks.contains(k) && has_edge(edges, k, u));
    if ks.len() == 0 {
        assert(all =~= Set::<DepId>::empty());
    } else {
        let front = ks.drop_last();
        let last = ks.last();
        let most = Set::new(|k: DepId| front.contains(k) && has_edge(edges, k, u));
        lemma_listing_count_distinct(edges, front, u);
        assert forall|k: DepId| ks.contains(k) implies front.contains(k) || k == last by {
            let t = choose|t: int| 0 <= t < ks.len() && ks[t] == k;
            if t < front.len() {
                assert(front[t] == k);
            }
        }
        if has_edge(edges, last, u) {
            assert(all =~= most.insert(last));
        } else {
            assert(all =~= most);
        }
    }
}

/// Over all declared units, each once, the tally gives the in-degree, and
/// what is noted is what the edge map mentions.
pub proof fn lemma_listing_count_total(edges: Edges, ks: Seq<DepId>, u: DepId)
    requires
        ks.no_duplicates(),
        forall|k: DepId| ks.contains(k) <==> edges.contains_key(k),
    ensures
        listing_count(edges, ks, u) == in_degree(edges, u),
        noted(edges, ks, u) <==> mentioned(edges, u),
{
    lemma_listing_count_distinct(edges, ks, u);
    assert(Set::new(|k: DepId| ks.contains(k) && has_edge(edges, k, u)) =~= dependents(edges, u));
    if noted(edges, ks, u) {
        let t = choose|t: int|
            0 <= t < ks.len() && (ks[t] == u || has_edge(edges, #[trigger] ks[t], u));
        assert(ks.contains(ks[t]));
    }
    if mentioned(edges, u) {
        if edges.contains_key(u) {
            assert(ks.contains(u));
        } else {
            let k = choose|k: DepId| has_edge(edges, k, u);
            assert(ks.contains(k));
        }
    }
}

} // verus!
