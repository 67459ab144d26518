//! Unit identifiers and their order.
use crate::sorted::lemma_sorted_unique;
use vstd::prelude::*;

verus! {

/// A unit identifier: a numeric identity paired with a version index.
///
/// The pair is opaque to this library; only equality and the lexicographic
/// order of the two components are used.
pub type DepId = (u64, usize);

/// Strict lexicographic order on identifiers. Units are walked in this order.
pub open spec fn id_lt(a: DepId, b: DepId) -> bool {
    a.0 < b.0 || (a.0 == b.0 && a.1 < b.1)
}

/// `s` lists identifiers in strictly ascending order (so none occurs twice).
pub open spec fn ascending(s: Seq<DepId>) -> bool {
    forall|i: int, j: int| 0 <= i < j < s.len() ==> id_lt(s[i], s[j])
}

/// An ascending sequence holds no identifier twice.
pub proof fn lemma_ascending_no_duplicates(s: Seq<DepId>)
    requires
        ascending(s),
    ensures
        s.no_duplicates(),
{
    assert forall|i: int, j: int| 0 <= i < s.len() && 0 <= j < s.len() && i != j implies s[i]
        != s[j] by {
        if i < j {
            assert(id_lt(s[i], s[j]));
        } else {
            assert(id_lt(s[j], s[i]));
        }
    }
}

/// Two ascending sequences with the same members are the same sequence.
pub proof fn lemma_ascending_unique(a: Seq<DepId>, b: Seq<DepId>)
    requires
        ascending(a),
        ascending(b),
        forall|x: DepId| a.contains(x) <==> b.contains(x),
    ensures
        a == b,
{
    let lt = |x: DepId, y: DepId| id_lt(x, y);
    lemma_sorted_unique(a, b, lt);
}

} // verus!
