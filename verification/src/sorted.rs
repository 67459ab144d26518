//! Sequences in strict order.
use vstd::prelude::*;

verus! {

/// Every item of `s` stands before all later ones in the order `lt`.
pub open spec fn strictly_sorted<T>(s: Seq<T>, lt: spec_fn(T, T) -> bool) -> bool {
    forall|i: int, j: int| 0 <= i < j < s.len() ==> lt(s[i], s[j])
}

/// No two items stand before each other.
pub open spec fn asymmetric<T>(lt: spec_fn(T, T) -> bool) -> bool {
    forall|x: T, y: T| !(#[trigger] lt(x, y) && lt(y, x))
}

/// Two strictly sorted sequences with the same members are the same
/// sequence: the order leaves no choice.
pub proof fn lemma_sorted_unique<T>(a: Seq<T>, b: Seq<T>, lt: spec_fn(T, T) -> bool)
    requires
        asymmetric(lt),
        strictly_sorted(a, lt),
        strictly_sorted(b, lt),
        forall|x: T| a.contains(x) <==> b.contains(x),
    ensures
        a == b,
    decreases a.len(),
{
    if a.len() == 0 {
        if b.len() > 0 {
            assert(b.contains(b[0]));
        }
    } else {
        let n = a.len() - 1;
        let m = b.len() - 1;
        let x = a[n];
        let y = b[m];
        assert(a.contains(x));
        assert(b.contains(y));
        let a1 = a.drop_last();
        let b1 = b.drop_last();
        assert forall|z: T| a1.contains(z) <==> b1.contains(z) by {
            if a1.contains(z) {
                assert(a.contains(z));
                let l = choose|l: int| 0 <= l < b.len() && b[l] == z;
                assert(b1[l] == z);
            }
            if b1.contains(z) {
                assert(b.contains(z));
                let l = choose|l: int| 0 <= l < a.len() && a[l] == z;
                assert(a1[l] == z);
            }
        }
        lemma_sorted_unique(a1, b1, lt);
        assert(a =~= a1.push(x));
    }
}

} // verus!
