//! The order in which a breadth-first search meets sequences of actions:
//! shorter ones first, and among those of one length the one with the
//! smaller action at the first place where they differ.

use vstd::prelude::*;

verus! {

/// Whether `a` and `b` agree up to some place where `a` has the smaller
/// action.
pub open spec fn differs_less(a: Seq<i8>, b: Seq<i8>) -> bool {
    exists|k: int| #[trigger] differs_less_at(a, b, k)
}

/// Whether `a` and `b` agree before place `k` and `a` has the smaller action
/// there.
pub open spec fn differs_less_at(a: Seq<i8>, b: Seq<i8>, k: int) -> bool {
    &&& 0 <= k < a.len()
    &&& k < b.len()
    &&& a[k] < b[k]
    &&& forall|i: int| 0 <= i < k ==> a[i] == b[i]
}

/// Whether a breadth-first search that tries actions in ascending order
/// meets `a` before `b`.
pub open spec fn comes_before(a: Seq<i8>, b: Seq<i8>) -> bool {
    a.len() < b.len() || (a.len() == b.len() && differs_less(a, b))
}

/// Whether `a` is `b` or comes before it.
pub open spec fn not_after(a: Seq<i8>, b: Seq<i8>) -> bool {
    a == b || comes_before(a, b)
}

/// What comes before another is not the same, nor does it come after it.
pub proof fn lemma_before_is_strict(a: Seq<i8>, b: Seq<i8>)
    requires
        comes_before(a, b),
    ensures
        a != b,
        !comes_before(b, a),
{
    if a.len() == b.len() {
        let k = choose|k: int| #[trigger] differs_less_at(a, b, k);
        if differs_less(b, a) {
            let l = choose|l: int| #[trigger] differs_less_at(b, a, l);
            if k < l {
            } else if l < k {
            }
        }
    }
}

/// What comes before something that comes before a third comes before the
/// third.
pub proof fn lemma_before_chains(a: Seq<i8>, b: Seq<i8>, c: Seq<i8>)
    requires
        comes_before(a, b),
        comes_before(b, c),
    ensures
        comes_before(a, c),
{
    if a.len() == b.len() && b.len() == c.len() {
        let k = choose|k: int| #[trigger] differs_less_at(a, b, k);
        let l = choose|l: int| #[trigger] differs_less_at(b, c, l);
        if k <= l {
            assert(differs_less_at(a, c, k));
        } else {
            assert(differs_less_at(a, c, l));
        }
    }
}

/// One more action at the end of each keeps the order.
pub proof fn lemma_before_grows(a: Seq<i8>, b: Seq<i8>, x: i8, y: i8)
    requires
        comes_before(a, b),
    ensures
        comes_before(a.push(x), b.push(y)),
{
    if a.len() == b.len() {
        let k = choose|k: int| #[trigger] differs_less_at(a, b, k);
        assert(differs_less_at(a.push(x), b.push(y), k));
    }
}

/// After a common start, the smaller last action comes first.
pub proof fn lemma_before_by_last(a: Seq<i8>, x: i8, y: i8)
    requires
        x < y,
    ensures
        comes_before(a.push(x), a.push(y)),
{
    assert(differs_less_at(a.push(x), a.push(y), a.len() as int));
}

} // verus!
