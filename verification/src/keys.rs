//! Walking an ordered map by its keys.
use crate::graph::Edges;
use crate::ident::{ascending, id_lt, DepId};
use std::collections::{BTreeMap, BTreeSet};
use vstd::prelude::*;
use vstd::std_specs::cmp::OrdSpec;
use vstd::std_specs::iter::IteratorSpec;

verus! {

/// The edge map that an ordered map of dependency lists stands for.
pub open spec fn edges_of(m: BTreeMap<DepId, Vec<DepId>>) -> Edges {
    Map::new(|k: DepId| m@.contains_key(k), |k: DepId| m@[k]@)
}

/// An ordered map declares finitely many units: no more than the machine
/// can count.
pub proof fn lemma_edges_finite(m: &BTreeMap<DepId, Vec<DepId>>)
    ensures
        edges_of(*m).dom().finite(),
        edges_of(*m).dom().len() <= usize::MAX,
{
    broadcast use vstd::laws_cmp::group_laws_cmp;
    broadcast use vstd::std_specs::btree::group_btree_axioms;

    assert(edges_of(*m).dom() =~= m@.dom());
    assert(m.len() == m@.len());
}

/// The dependency list that `m` holds for `id`, if it holds one.
pub(crate) fn lookup<'a>(m: &'a BTreeMap<DepId, Vec<DepId>>, id: &DepId) -> (r: Option<
    &'a Vec<DepId>,
>)
    ensures
        match r {
            Some(deps) => edges_of(*m).contains_key(*id) && deps@ == edges_of(*m)[*id],
            None => !edges_of(*m).contains_key(*id),
        },
{
    broadcast use vstd::laws_cmp::group_laws_cmp;
    broadcast use vstd::std_specs::btree::group_btree_axioms;

    m.get(id)
}

/// Takes the dependency list of `id` out of `m`, if `m` holds one.
pub(crate) fn take_list(m: &mut BTreeMap<DepId, Vec<DepId>>, id: &DepId) -> (r: Option<
    Vec<DepId>,
>)
    ensures
        final(m)@ == old(m)@.remove(*id),
        match r {
            Some(deps) => old(m)@.contains_key(*id) && deps == old(m)@[*id],
            None => !old(m)@.contains_key(*id),
        },
{
    broadcast use vstd::laws_cmp::group_laws_cmp;
    broadcast use vstd::std_specs::btree::group_btree_axioms;

    m.remove(id)
}

/// Puts the dependency list of `id` into `m`, in place of any that `m` held.
pub(crate) fn put_list(m: &mut BTreeMap<DepId, Vec<DepId>>, id: DepId, deps: Vec<DepId>)
    ensures
        final(m)@ == old(m)@.insert(id, deps),
{
    broadcast use vstd::laws_cmp::group_laws_cmp;

    m.insert(id, deps);
}

/// The value that `m` holds for `id`, if it holds one.
pub(crate) fn count_at(m: &BTreeMap<DepId, usize>, id: &DepId) -> (r: Option<usize>)
    ensures
        match r {
            Some(c) => m@.contains_key(*id) && c == m@[*id],
            None => !m@.contains_key(*id),
        },
{
    broadcast use vstd::laws_cmp::group_laws_cmp;
    broadcast use vstd::std_specs::btree::group_btree_axioms;

    match m.get(id) {
        Some(c) => Some(*c),
        None => None,
    }
}

/// Sets the value that `m` holds for `id`.
pub(crate) fn set_count(m: &mut BTreeMap<DepId, usize>, id: DepId, c: usize)
    ensures
        final(m)@ == old(m)@.insert(id, c),
{
    broadcast use vstd::laws_cmp::group_laws_cmp;

    m.insert(id, c);
}

/// Adds `id` to `set` and tells whether it was new.
pub(crate) fn mark(set: &mut BTreeSet<DepId>, id: DepId) -> (fresh: bool)
    ensures
        final(set)@ == old(set)@.insert(id),
        fresh == !old(set)@.contains(id),
        old(set)@.finite() ==> final(set)@.finite(),
{
    broadcast use vstd::laws_cmp::group_laws_cmp;

    set.insert(id)
}

/// Tells whether `set` holds `id`.
pub(crate) fn marked(set: &BTreeSet<DepId>, id: &DepId) -> (r: bool)
    ensures
        r == set@.contains(*id),
{
    broadcast use vstd::laws_cmp::group_laws_cmp;
    broadcast use vstd::std_specs::btree::group_btree_axioms;

    set.contains(id)
}

/// Tells whether `id` occurs in `list`.
pub(crate) fn occurs(list: &Vec<DepId>, id: &DepId) -> (r: bool)
    ensures
        r == list@.contains(*id),
{
    let mut i: usize = 0;
    while i < list.len()
        invariant
            i <= list.len(),
            forall|j: int| 0 <= j < i ==> list@[j] != *id,
        decreases list.len() - i,
    {
        if list[i].0 == id.0 && list[i].1 == id.1 {
            return true;
        }
        i += 1;
    }
    false
}

/// The keys of `m`, smallest first: the order in which the map hands out
/// its entries.
pub(crate) fn sorted_keys<V>(m: &BTreeMap<DepId, V>) -> (ks: Vec<DepId>)
    ensures
        ascending(ks@),
        forall|k: DepId| ks@.contains(k) <==> m@.contains_key(k),
        ks@.len() == m@.dom().len(),
{
    let mut ks: Vec<DepId> = Vec::new();
    for k in it: m.keys()
        invariant
            ks@ == it.seq().unref().take(it.index()),
    {
        ks.push(*k);
    }
    proof {
        broadcast use vstd::laws_cmp::group_laws_cmp;

        let r = m.keys().remaining();
        assert(ks@ == r.unref());
        assert forall|i: int, j: int| 0 <= i < j < ks@.len() implies id_lt(ks@[i], ks@[j]) by {
            assert((&r[i]).cmp_spec(&&r[j]) is Less);
        }
    }
    ks
}

} // verus!
