//! The validated graph and its queries.
use crate::degree::{
    lemma_listed_is_noted, lemma_listing_count_bound, lemma_listing_count_total,
    lemma_noted_push, listing_count, noted, tally_of,
};
use crate::graph::{direct, has_edge, in_degree, mentioned, reachable, Edges};
use crate::ident::{ascending, id_lt, lemma_ascending_no_duplicates, DepId};
use crate::keys::{
    count_at, edges_of, lemma_edges_finite, lookup, mark, occurs, set_count, sorted_keys,
};
use crate::rank::{rank, ranked, units};
use crate::walk::{
    declared, declared_edges, dependencies, dependency_count, lemma_declared_is,
    lemma_dependencies_exact, lemma_dependency_count_bound, lemma_unseen_shrinks,
    lemma_walk_add, lemma_walk_single, lemma_weight_add, walk, weight,
};
use std::collections::{BTreeMap, BTreeSet};
use std::rc::Rc;
use vstd::prelude::*;

verus! {

/// A dependency graph: an edge map that is shared and never changed.
#[derive(Debug)]
pub struct DepTree {
    inner: Rc<BTreeMap<DepId, Vec<DepId>>>,
}

impl View for DepTree {
    type V = Edges;

    closed spec fn view(&self) -> Edges {
        edges_of(*self.inner)
    }
}

/// `found` lists the units that list `u` among their direct dependencies:
/// all of them and no others, in ascending order.
pub open spec fn is_dependents_list(edges: Edges, u: DepId, found: Seq<DepId>) -> bool {
    &&& ascending(found)
    &&& forall|k: DepId| found.contains(k) <==> has_edge(edges, k, u)
}

/// `r` ranks the declared units by their dependency counts: it holds each
/// declared unit with its count, and nothing else.
pub open spec fn is_dependencies_ranking(
    edges: Edges,
    r: Seq<(DepId, usize)>,
    descending: bool,
) -> bool {
    &&& ranked(r, descending)
    &&& forall|e: (DepId, usize)|
        r.contains(e) <==> edges.contains_key(e.0) && e.1 == dependency_count(edges, e.0)
}

/// `r` ranks the units that the edge map mentions by their in-degrees: it
/// holds each of them with its in-degree, and nothing else.
pub open spec fn is_dependents_ranking(
    edges: Edges,
    r: Seq<(DepId, usize)>,
    descending: bool,
) -> bool {
    &&& ranked(r, descending)
    &&& forall|e: (DepId, usize)|
        r.contains(e) <==> mentioned(edges, e.0) && e.1 == in_degree(edges, e.0)
}

impl Clone for DepTree {
    /// Another handle to the same edge map.
    fn clone(&self) -> (copy: Self)
        ensures
            copy@ == self@,
    {
        DepTree { inner: self.inner.clone() }
    }
}

impl Default for DepTree {
    /// The graph without units.
    fn default() -> (tree: Self)
        ensures
            tree@ == Map::<DepId, Seq<DepId>>::empty(),
    {
        DepTree { inner: Rc::new(BTreeMap::new()) }
    }
}

/// What `a + b` holds is what `a` holds and what `b` holds.
proof fn lemma_members_add(a: Seq<DepId>, b: Seq<DepId>)
    ensures
        (a + b).to_set() == a.to_set().union(b.to_set()),
{
    assert forall|v: DepId| (a + b).to_set().contains(v) <==> a.to_set().union(
        b.to_set(),
    ).contains(v) by {
        if a.contains(v) {
            let i = choose|i: int| 0 <= i < a.len() && a[i] == v;
            assert((a + b)[i] == v);
        }
        if b.contains(v) {
            let i = choose|i: int| 0 <= i < b.len() && b[i] == v;
            assert((a + b)[a.len() + i] == v);
        }
    }
}

/// Seeing more leaves no more declared units unseen.
proof fn lemma_unseen_monotone(edges: Edges, less: Set<DepId>, more: Set<DepId>)
    requires
        edges.dom().finite(),
        less.subset_of(more),
    ensures
        edges.dom().difference(more).len() <= edges.dom().difference(less).len(),
{
    vstd::set_lib::lemma_len_subset(edges.dom().difference(more), edges.dom().difference(less));
}

/// Adds one declaring unit to the tally: each unit that `key` lists gains
/// one, however often `key` lists it, and `key` itself is noted.
fn tally_unit(
    counts: &mut BTreeMap<DepId, usize>,
    key: DepId,
    deps: &Vec<DepId>,
    Ghost(edges): Ghost<Edges>,
    Ghost(past): Ghost<Seq<DepId>>,
)
    requires
        tally_of(old(counts)@, edges, past),
        edges.contains_key(key),
        deps@ == edges[key],
        past.len() < usize::MAX,
    ensures
        tally_of(final(counts)@, edges, past.push(key)),
{
    let mut listed: BTreeSet<DepId> = BTreeSet::new();
    let mut j: usize = 0;
    while j < deps.len()
        invariant
            j <= deps.len(),
            past.len() < usize::MAX,
            forall|u: DepId| listed@.contains(u) <==> deps@.take(j as int).contains(u),
            forall|u: DepId| #[trigger]
                counts@.contains_key(u) <==> noted(edges, past, u) || deps@.take(
                    j as int,
                ).contains(u),
            forall|u: DepId| #[trigger]
                counts@.contains_key(u) ==> counts@[u] == listing_count(edges, past, u)
                    + if deps@.take(j as int).contains(u) {
                    1nat
                } else {
                    0nat
                },
        decreases deps.len() - j,
    {
        let dep = deps[j];
        let ghost before = deps@.take(j as int);
        let ghost after = deps@.take(j + 1);
        proof {
            assert forall|u: DepId| after.contains(u) <==> before.contains(u) || u == dep by {
                assert(after[j as int] == dep);
            }
            lemma_listing_count_bound(edges, past, dep);
            if listing_count(edges, past, dep) > 0 {
                lemma_listed_is_noted(edges, past, dep);
            }
        }
        if mark(&mut listed, dep) {
            let held = match count_at(counts, &dep) {
                Some(c) => c,
                None => 0,
            };
            set_count(counts, dep, held + 1);
        }
        j += 1;
    }
    proof {
        assert(deps@.take(deps.len() as int) =~= deps@);
        if listing_count(edges, past, key) > 0 {
            lemma_listed_is_noted(edges, past, key);
        }
    }
    if count_at(counts, &key).is_none() {
        set_count(counts, key, 0);
    }
    proof {
        assert forall|u: DepId| #[trigger]
            counts@.contains_key(u) <==> noted(edges, past.push(key), u) by {
            lemma_noted_push(edges, past, key, u);
        }
        assert forall|u: DepId| #[trigger] counts@.contains_key(u) implies counts@[u]
            == listing_count(edges, past.push(key), u) by {
            lemma_noted_push(edges, past, key, u);
        }
    }
}

impl DepTree {
    /// Wraps an edge map.
    pub fn new(inner: Rc<BTreeMap<DepId, Vec<DepId>>>) -> (tree: Self)
        ensures
            tree@ == edges_of(*inner),
    {
        Self { inner }
    }

    /// A graph declares finitely many units: no more than the machine can
    /// count.
    pub proof fn lemma_finite(&self)
        ensures
            self@.dom().finite(),
            self@.dom().len() <= usize::MAX,
    {
        lemma_edges_finite(&*self.inner);
    }

    /// Tells whether the machine can count the declared edges. Where it
    /// can, it can count every dependency count, which is what the two
    /// rankings by dependency count ask of a graph.
    pub fn counts_fit(&self) -> (fit: bool)
        ensures
            fit == (declared_edges(self@) <= usize::MAX),
            fit ==> forall|k: DepId|
                self@.contains_key(k) ==> dependency_count(self@, k) <= usize::MAX,
    {
        let ks = sorted_keys(&self.inner);
        let mut total: usize = 0;
        let mut i: usize = 0;
        proof {
            self.lemma_finite();
            lemma_declared_is(self@, ks@);
            lemma_ascending_no_duplicates(ks@);
            assert(ks@.take(0) =~= Seq::<DepId>::empty());
        }
        while i < ks.len()
            invariant
                i <= ks.len(),
                ks@ == declared(self@),
                total == weight(self@, ks@.take(i as int)),
            decreases ks.len() - i,
        {
            let listed = match lookup(&self.inner, &ks[i]) {
                Some(deps) => deps.len(),
                None => 0,
            };
            proof {
                let one = seq![ks@[i as int]];
                assert(ks@.take(i + 1) =~= ks@.take(i as int) + one);
                assert(ks@ =~= ks@.take(i + 1) + ks@.skip(i + 1));
                lemma_weight_add(self@, ks@.take(i as int), one);
                lemma_weight_add(self@, ks@.take(i + 1), ks@.skip(i + 1));
                assert(weight(self@, one) == listed) by {
                    assert(one.drop_first() =~= Seq::<DepId>::empty());
                    reveal_with_fuel(weight, 2);
                }
            }
            match total.checked_add(listed) {
                Some(more) => {
                    total = more;
                },
                None => {
                    return false;
                },
            }
            i += 1;
        }
        proof {
            assert(ks@.take(ks.len() as int) =~= ks@);
            assert forall|k: DepId| self@.contains_key(k) implies dependency_count(self@, k)
                <= usize::MAX by {
                lemma_dependency_count_bound(self@, ks@, k);
            }
        }
        true
    }

    /// Every declared unit with its dependency count, the greatest count
    /// first; units with equal counts in ascending order.
    pub fn most_dependencies(&self) -> (ranking: Vec<(DepId, usize)>)
        requires
            forall|k: DepId| self@.contains_key(k) ==> dependency_count(self@, k) <= usize::MAX,
        ensures
            is_dependencies_ranking(self@, ranking@, true),
    {
        rank(self.dependency_counts(), true)
    }

    /// Every unit that the edge map mentions with its in-degree, the
    /// greatest first; units with equal in-degrees in ascending order.
    pub fn most_dependents(&self) -> (ranking: Vec<(DepId, usize)>)
        ensures
            is_dependents_ranking(self@, ranking@, true),
    {
        rank(self.calculate_dependents(), true)
    }

    /// Every declared unit with its dependency count, the smallest count
    /// first; units with equal counts in ascending order.
    pub fn least_dependencies(&self) -> (ranking: Vec<(DepId, usize)>)
        requires
            forall|k: DepId| self@.contains_key(k) ==> dependency_count(self@, k) <= usize::MAX,
        ensures
            is_dependencies_ranking(self@, ranking@, false),
    {
        rank(self.dependency_counts(), false)
    }

    /// Every unit that the edge map mentions with its in-degree, the
    /// smallest first; units with equal in-degrees in ascending order.
    pub fn least_dependents(&self) -> (ranking: Vec<(DepId, usize)>)
        ensures
            is_dependents_ranking(self@, ranking@, false),
    {
        rank(self.calculate_dependents(), false)
    }

    /// Every transitive dependency of `unit`, once, in the order in which a
    /// depth-first walk from `unit` first meets it. A unit that declares
    /// nothing has none.
    pub fn dependencies_of(&self, unit: DepId) -> (found: Vec<DepId>)
        ensures
            found@ == dependencies(self@, unit),
            found@.no_duplicates(),
            forall|v: DepId| found@.contains(v) <==> reachable(self@, unit, v),
    {
        let mut visited: BTreeSet<DepId> = BTreeSet::new();
        let mut found: Vec<DepId> = Vec::new();
        self.collect_dependencies(&unit, &mut visited, &mut found);
        proof {
            self.lemma_finite();
            lemma_dependencies_exact(self@, unit);
        }
        found
    }

    /// The units that list `unit` among their direct dependencies, in
    /// ascending order. Units that reach `unit` over more than one edge are
    /// not among them.
    pub fn dependents_of(&self, unit: DepId) -> (found: Vec<DepId>)
        ensures
            is_dependents_list(self@, unit, found@),
    {
        let ks = sorted_keys(&self.inner);
        let mut found: Vec<DepId> = Vec::new();
        let mut i: usize = 0;
        while i < ks.len()
            invariant
                i <= ks.len(),
                ascending(ks@),
                forall|k: DepId| ks@.contains(k) <==> self@.contains_key(k),
                ascending(found@),
                forall|k: DepId|
                    found@.contains(k) <==> ks@.take(i as int).contains(k) && has_edge(
                        self@,
                        k,
                        unit,
                    ),
            decreases ks.len() - i,
        {
            let key = ks[i];
            let ghost past = ks@.take(i as int);
            let ghost next = ks@.take(i + 1);
            let ghost before = found@;
            proof {
                assert forall|k: DepId| next.contains(k) <==> past.contains(k) || k == key by {
                    assert(next[i as int] == key);
                }
            }
            let lists = match lookup(&self.inner, &key) {
                Some(deps) => occurs(deps, &unit),
                None => false,
            };
            if lists {
                found.push(key);
                proof {
                    assert forall|a: int, b: int| 0 <= a < b < found@.len() implies id_lt(
                        found@[a],
                        found@[b],
                    ) by {
                        if b >= before.len() {
                            assert(before.contains(before[a]));
                        }
                    }
                    assert forall|k: DepId|
                        found@.contains(k) <==> next.contains(k) && has_edge(self@, k, unit) by {
                        if before.contains(k) {
                            let t = choose|t: int| 0 <= t < before.len() && before[t] == k;
                            assert(found@[t] == k);
                        }
                        assert(found@[before.len() as int] == key);
                    }
                }
            }
            i += 1;
        }
        proof {
            assert(ks@.take(ks.len() as int) =~= ks@);
        }
        found
    }

    /// Every declared unit with its dependency count, in ascending order of
    /// the units. Each count comes from a walk of its own.
    fn dependency_counts(&self) -> (entries: Vec<(DepId, usize)>)
        requires
            forall|k: DepId| self@.contains_key(k) ==> dependency_count(self@, k) <= usize::MAX,
        ensures
            ascending(units(entries@)),
            forall|e: (DepId, usize)|
                entries@.contains(e) <==> self@.contains_key(e.0) && e.1 == dependency_count(
                    self@,
                    e.0,
                ),
    {
        let ks = sorted_keys(&self.inner);
        let mut entries: Vec<(DepId, usize)> = Vec::new();
        let mut i: usize = 0;
        while i < ks.len()
            invariant
                i <= ks.len(),
                ascending(ks@),
                forall|k: DepId| ks@.contains(k) <==> self@.contains_key(k),
                forall|k: DepId|
                    self@.contains_key(k) ==> dependency_count(self@, k) <= usize::MAX,
                entries@.len() == i,
                forall|t: int|
                    0 <= t < i ==> entries@[t] == (
                        ks@[t],
                        dependency_count(self@, ks@[t]) as usize,
                    ),
            decreases ks.len() - i,
        {
            let mut visited: BTreeSet<DepId> = BTreeSet::new();
            assert(ks@.contains(ks@[i as int]));
            let count = self.count_dependencies(&ks[i], &mut visited);
            entries.push((ks[i], count));
            i += 1;
        }
        proof {
            assert forall|e: (DepId, usize)|
                entries@.contains(e) <==> self@.contains_key(e.0) && e.1 == dependency_count(
                    self@,
                    e.0,
                ) by {
                if entries@.contains(e) {
                    let t = choose|t: int| 0 <= t < entries@.len() && entries@[t] == e;
                    assert(ks@.contains(ks@[t]));
                }
                if self@.contains_key(e.0) && e.1 == dependency_count(self@, e.0) {
                    assert(ks@.contains(e.0));
                    let t = choose|t: int| 0 <= t < ks@.len() && ks@[t] == e.0;
                    assert(entries@[t] == e);
                }
            }
        }
        entries
    }

    /// Walks from `id` and returns the number of edges followed: for each
    /// unit met for the first time, the number of its direct dependencies.
    fn count_dependencies(&self, id: &DepId, visited: &mut BTreeSet<DepId>) -> (count: usize)
        requires
            weight(self@, walk(self@, seq![*id], old(visited)@)) <= usize::MAX,
        ensures
            count == weight(self@, walk(self@, seq![*id], old(visited)@)),
            final(visited)@ == old(visited)@.union(
                walk(self@, seq![*id], old(visited)@).to_set(),
            ),
        decreases self@.dom().difference(old(visited)@).len(),
    {
        proof {
            self.lemma_finite();
            lemma_walk_single(self@, *id, visited@);
        }
        let ghost seen0 = visited@;
        if !mark(visited, *id) {
            return 0;
        }
        let ghost seen1 = visited@;
        let ghost whole = walk(self@, direct(self@, *id), seen1);
        proof {
            lemma_members_add(seq![*id], whole);
            lemma_weight_add(self@, seq![*id], whole);
            assert(weight(self@, seq![*id]) == direct(self@, *id).len()) by {
                reveal_with_fuel(weight, 2);
            }
        }
        match lookup(&self.inner, id) {
            None => {
                0
            },
            Some(deps) => {
                let mut total: usize = 0;
                let mut j: usize = 0;
                proof {
                    lemma_unseen_shrinks(self@, seen0, *id);
                }
                while j < deps.len()
                    invariant
                        j <= deps.len(),
                        self@.dom().finite(),
                        deps@ == direct(self@, *id),
                        whole == walk(self@, deps@, seen1),
                        deps.len() + weight(self@, whole) <= usize::MAX,
                        self@.dom().difference(seen1).len() < self@.dom().difference(
                            old(visited)@,
                        ).len(),
                        total == j + weight(self@, walk(self@, deps@.take(j as int), seen1)),
                        visited@ == seen1.union(walk(self@, deps@.take(j as int), seen1).to_set()),
                    decreases deps.len() - j,
                {
                    let ghost seen = visited@;
                    let ghost done = walk(self@, deps@.take(j as int), seen1);
                    let ghost step = walk(self@, seq![deps@[j as int]], seen);
                    proof {
                        lemma_walk_add(self@, deps@.take(j as int), seq![deps@[j as int]], seen1);
                        assert(deps@.take(j as int) + seq![deps@[j as int]] =~= deps@.take(j + 1));
                        lemma_weight_add(self@, done, step);
                        lemma_members_add(done, step);
                        // what is left of the list only adds to the count
                        let upto = deps@.take(j + 1);
                        let rest = deps@.skip(j + 1);
                        assert(upto + rest =~= deps@);
                        lemma_walk_add(self@, upto, rest, seen1);
                        lemma_weight_add(
                            self@,
                            walk(self@, upto, seen1),
                            walk(self@, rest, seen1.union(walk(self@, upto, seen1).to_set())),
                        );
                        lemma_unseen_monotone(self@, seen1, seen);
                    }
                    let below = self.count_dependencies(&deps[j], visited);
                    total = total + 1 + below;
                    j += 1;
                }
                proof {
                    assert(deps@.take(deps.len() as int) =~= deps@);
                }
                total
            },
        }
    }

    /// Walks below `id`: appends to `found` each unit that is met for the
    /// first time, and adds it to `visited`.
    fn collect_dependencies(
        &self,
        id: &DepId,
        visited: &mut BTreeSet<DepId>,
        found: &mut Vec<DepId>,
    )
        ensures
            final(found)@ == old(found)@ + walk(self@, direct(self@, *id), old(visited)@),
            final(visited)@ == old(visited)@.union(
                walk(self@, direct(self@, *id), old(visited)@).to_set(),
            ),
        decreases
            self@.dom().difference(old(visited)@).len(),
            (if self@.contains_key(*id) { 1nat } else { 0nat }),
    {
        proof {
            self.lemma_finite();
        }
        let ghost seen0 = visited@;
        let ghost found0 = found@;
        match lookup(&self.inner, id) {
            None => {
            },
            Some(deps) => {
                let mut j: usize = 0;
                while j < deps.len()
                    invariant
                        j <= deps.len(),
                        self@.dom().finite(),
                        self@.contains_key(*id),
                        deps@ == direct(self@, *id),
                        seen0 == old(visited)@,
                        found@ == found0 + walk(self@, deps@.take(j as int), seen0),
                        visited@ == seen0.union(walk(self@, deps@.take(j as int), seen0).to_set()),
                    decreases deps.len() - j,
                {
                    let dep = deps[j];
                    let ghost seen = visited@;
                    let ghost done = walk(self@, deps@.take(j as int), seen0);
                    proof {
                        lemma_walk_add(self@, deps@.take(j as int), seq![dep], seen0);
                        assert(deps@.take(j as int) + seq![dep] =~= deps@.take(j + 1));
                        lemma_walk_single(self@, dep, seen);
                        lemma_members_add(done, walk(self@, seq![dep], seen));
                    }
                    if mark(visited, dep) {
                        found.push(dep);
                        proof {
                            lemma_unseen_shrinks(self@, seen, dep);
                            lemma_unseen_monotone(self@, seen0, seen);
                        }
                        self.collect_dependencies(&dep, visited, found);
                        proof {
                            let below = walk(self@, direct(self@, dep), seen.insert(dep));
                            lemma_members_add(seq![dep], below);
                        }
                    }
                    j += 1;
                }
                proof {
                    assert(deps@.take(deps.len() as int) =~= deps@);
                }
            },
        }
    }

    /// Every unit that the edge map mentions with its in-degree, in
    /// ascending order of the units.
    fn calculate_dependents(&self) -> (entries: Vec<(DepId, usize)>)
        ensures
            ascending(units(entries@)),
            forall|e: (DepId, usize)|
                entries@.contains(e) <==> mentioned(self@, e.0) && e.1 == in_degree(self@, e.0),
    {
        let ks = sorted_keys(&self.inner);
        let mut counts: BTreeMap<DepId, usize> = BTreeMap::new();
        let mut i: usize = 0;
        while i < ks.len()
            invariant
                i <= ks.len(),
                forall|k: DepId| ks@.contains(k) <==> self@.contains_key(k),
                tally_of(counts@, self@, ks@.take(i as int)),
            decreases ks.len() - i,
        {
            proof {
                assert(ks@.contains(ks@[i as int]));
                assert(ks@.take(i + 1) =~= ks@.take(i as int).push(ks@[i as int]));
            }
            match lookup(&self.inner, &ks[i]) {
                Some(deps) => {
                    tally_unit(&mut counts, ks[i], deps, Ghost(self@), Ghost(ks@.take(i as int)));
                },
                None => {},
            }
            i += 1;
        }
        let us = sorted_keys(&counts);
        let mut entries: Vec<(DepId, usize)> = Vec::new();
        let mut n: usize = 0;
        while n < us.len()
            invariant
                n <= us.len(),
                forall|u: DepId| us@.contains(u) <==> counts@.contains_key(u),
                entries@.len() == n,
                forall|t: int| 0 <= t < n ==> entries@[t] == (us@[t], counts@[us@[t]]),
            decreases us.len() - n,
        {
            proof {
                assert(us@.contains(us@[n as int]));
            }
            let held = match count_at(&counts, &us[n]) {
                Some(c) => c,
                None => 0,
            };
            entries.push((us[n], held));
            n += 1;
        }
        proof {
            assert(ks@.take(ks.len() as int) =~= ks@);
            lemma_ascending_no_duplicates(ks@);
            assert forall|e: (DepId, usize)|
                entries@.contains(e) <==> mentioned(self@, e.0) && e.1 == in_degree(
                    self@,
                    e.0,
                ) by {
                lemma_listing_count_total(self@, ks@, e.0);
                if entries@.contains(e) {
                    let t = choose|t: int| 0 <= t < entries@.len() && entries@[t] == e;
                    assert(us@.contains(us@[t]));
                }
                if mentioned(self@, e.0) && e.1 == in_degree(self@, e.0) {
                    assert(us@.contains(e.0));
                    let t = choose|t: int| 0 <= t < us@.len() && us@[t] == e.0;
                    assert(entries@[t] == e);
                }
            }
        }
        entries
    }
}

} // verus!
