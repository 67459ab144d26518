//! Ranking units by a count.
use crate::ident::{ascending, id_lt, DepId};
use crate::sorted::lemma_sorted_unique;
use vstd::prelude::*;

verus! {

/// The units of a list of `(unit, count)` entries, in the list's order.
pub open spec fn units(s: Seq<(DepId, usize)>) -> Seq<DepId> {
    Seq::new(s.len(), |i: int| s[i].0)
}

/// `a` stands before `b` in a ranking: by count, the greater first if
/// `descending` and the smaller first if not, and among equal counts by
/// identifier, the smaller first.
pub open spec fn ranks_before(a: (DepId, usize), b: (DepId, usize), descending: bool) -> bool {
    if a.1 == b.1 {
        id_lt(a.0, b.0)
    } else if descending {
        a.1 > b.1
    } else {
        a.1 < b.1
    }
}

/// `s` is a ranking: every entry stands before all later ones.
pub open spec fn ranked(s: Seq<(DepId, usize)>, descending: bool) -> bool {
    forall|i: int, j: int| 0 <= i < j < s.len() ==> ranks_before(s[i], s[j], descending)
}

/// A ranking is determined by its entries.
pub proof fn lemma_ranking_unique(
    a: Seq<(DepId, usize)>,
    b: Seq<(DepId, usize)>,
    descending: bool,
)
    requires
        ranked(a, descending),
        ranked(b, descending),
        forall|e: (DepId, usize)| a.contains(e) <==> b.contains(e),
    ensures
        a == b,
{
    let lt = |x: (DepId, usize), y: (DepId, usize)| ranks_before(x, y, descending);
    lemma_sorted_unique(a, b, lt);
}

/// Tells whether an entry with the count `held` gives way to a new entry
/// with the count `new`, which then goes in front of it.
fn gives_way(held: usize, new: usize, descending: bool) -> (r: bool)
    ensures
        r == (if descending {
            held < new
        } else {
            held > new
        }),
{
    if descending {
        held < new
    } else {
        held > new
    }
}

/// Ranks entries that come in ascending order of their units: by count, and
/// entries with equal counts in the order in which they came.
pub(crate) fn rank(entries: Vec<(DepId, usize)>, descending: bool) -> (out: Vec<(DepId, usize)>)
    requires
        ascending(units(entries@)),
    ensures
        ranked(out@, descending),
        out@.len() == entries@.len(),
        forall|e: (DepId, usize)| out@.contains(e) <==> entries@.contains(e),
{
    let mut out: Vec<(DepId, usize)> = Vec::new();
    let mut i: usize = 0;
    while i < entries.len()
        invariant
            i <= entries.len(),
            ascending(units(entries@)),
            ranked(out@, descending),
            out@.len() == i,
            forall|e: (DepId, usize)| out@.contains(e) <==> entries@.take(i as int).contains(e),
        decreases entries.len() - i,
    {
        let e = entries[i];
        let mut p: usize = 0;
        while p < out.len() && !gives_way(out[p].1, e.1, descending)
            invariant
                p <= out.len(),
                forall|q: int|
                    0 <= q < p ==> if descending {
                        out@[q].1 >= e.1
                    } else {
                        out@[q].1 <= e.1
                    },
            decreases out.len() - p,
        {
            p += 1;
        }
        let ghost before = out@;
        out.insert(p, e);
        proof {
            let after = out@;
            let past = entries@.take(i as int);
            let next = entries@.take(i + 1);
            assert forall|a: int, b: int| 0 <= a < b < after.len() implies ranks_before(
                after[a],
                after[b],
                descending,
            ) by {
                if b == p {
                    // an entry that came earlier holds a smaller unit
                    assert(before.contains(before[a]));
                    let t = choose|t: int| 0 <= t < past.len() && past[t] == before[a];
                    assert(id_lt(units(entries@)[t], units(entries@)[i as int]));
                } else if a == p && b - 1 > p {
                    // what stood behind the entry that gives way stands behind it still
                    assert(ranks_before(before[p as int], before[b - 1], descending));
                }
            }
            assert forall|x: (DepId, usize)| after.contains(x) <==> next.contains(x) by {
                if after.contains(x) {
                    let k = choose|k: int| 0 <= k < after.len() && after[k] == x;
                    if k == p {
                        assert(next[i as int] == x);
                    } else {
                        assert(before.contains(x));
                    }
                }
                if next.contains(x) {
                    let t = choose|t: int| 0 <= t < next.len() && next[t] == x;
                    if t == i {
                        assert(after[p as int] == x);
                    } else {
                        assert(before.contains(x));
                        let k = choose|k: int| 0 <= k < before.len() && before[k] == x;
                        if k < p {
                            assert(after[k] == x);
                        } else {
                            assert(after[k + 1] == x);
                        }
                    }
                }
            }
        }
        i += 1;
    }
    proof {
        assert(entries@.take(entries.len() as int) =~= entries@);
    }
    out
}

} // verus!
