//! When two placements are the same: when they hold the same squares, each as
//! often in one as in the other, in whatever order.

use vstd::prelude::*;
use vstd::seq_lib::to_multiset_build;
use vstd::std_specs::cmp::PartialEqSpecImpl;
use crate::elements::{Square, State};

verus! {

/// How often `sq` occurs among `squares`.
fn occurrences(squares: &Vec<Square>, sq: Square) -> (n: usize)
    ensures
        n == squares@.to_multiset().count(sq),
{
    let mut n: usize = 0;
    let mut i: usize = 0;
    proof {
        squares@.subrange(0, 0).to_multiset_ensures();
        assert(!squares@.subrange(0, 0).contains(sq));
    }
    while i < squares.len()
        invariant
            i <= squares.len(),
            n <= i,
            n == squares@.subrange(0, i as int).to_multiset().count(sq),
        decreases squares.len() - i,
    {
        proof {
            to_multiset_build(squares@.subrange(0, i as int), squares@[i as int]);
            assert(squares@.subrange(0, i + 1) =~= squares@.subrange(0, i as int).push(
                squares@[i as int],
            ));
        }
        if squares[i] == sq {
            n += 1;
        }
        i += 1;
    }
    assert(squares@.subrange(0, i as int) =~= squares@);
    n
}

/// Whether each square of `a` occurs as often in `b` as in `a`.
fn as_often(a: &Vec<Square>, b: &Vec<Square>) -> (ok: bool)
    ensures
        ok == forall|i: int|
            0 <= i < a@.len() ==> a@.to_multiset().count(#[trigger] a@[i]) == b@.to_multiset().count(
                a@[i],
            ),
{
    let mut i: usize = 0;
    while i < a.len()
        invariant
            i <= a.len(),
            forall|k: int|
                0 <= k < i ==> a@.to_multiset().count(#[trigger] a@[k]) == b@.to_multiset().count(
                    a@[k],
                ),
        decreases a.len() - i,
    {
        if occurrences(a, a[i]) != occurrences(b, a[i]) {
            return false;
        }
        i += 1;
    }
    true
}

/// Two lists in each of which every square of the other occurs as often as
/// in the other hold the same squares.
proof fn lemma_same_counts(a: Seq<Square>, b: Seq<Square>)
    requires
        forall|i: int|
            0 <= i < a.len() ==> a.to_multiset().count(#[trigger] a[i]) == b.to_multiset().count(a[i]),
        forall|i: int|
            0 <= i < b.len() ==> b.to_multiset().count(#[trigger] b[i]) == a.to_multiset().count(b[i]),
    ensures
        a.to_multiset() == b.to_multiset(),
{
    a.to_multiset_ensures();
    b.to_multiset_ensures();
    assert forall|sq: Square| a.to_multiset().count(sq) == b.to_multiset().count(sq) by {
        if a.contains(sq) {
            let i = choose|i: int| 0 <= i < a.len() && a[i] == sq;
            assert(a.to_multiset().count(a[i]) == b.to_multiset().count(a[i]));
        } else if b.contains(sq) {
            let i = choose|i: int| 0 <= i < b.len() && b[i] == sq;
            assert(b.to_multiset().count(b[i]) == a.to_multiset().count(b[i]));
        }
    }
    assert(a.to_multiset() =~= b.to_multiset());
}

impl PartialEq for State {
    /// Whether the two placements hold the same squares, in whatever order.
    fn eq(&self, other: &State) -> (same: bool) {
        let same = as_often(&self.squares, &other.squares) && as_often(
            &other.squares,
            &self.squares,
        );
        proof {
            if same {
                lemma_same_counts(self@, other@);
            }
        }
        same
    }
}

impl PartialEqSpecImpl for State {
    open spec fn obeys_eq_spec() -> bool {
        true
    }

    open spec fn eq_spec(&self, other: &State) -> bool {
        self@.to_multiset() == other@.to_multiset()
    }
}

impl Eq for State {}

/// Two placements of the same colours in the same places, one square of
/// each colour, that hold the same squares hold them in the same order.
pub proof fn law_same_squares_same_order(a: Seq<Square>, b: Seq<Square>)
    requires
        a.len() == b.len(),
        forall|k: int| 0 <= k < a.len() ==> (#[trigger] a[k]).color == b[k].color,
        forall|i: int, j: int|
            0 <= i < j < a.len() ==> (#[trigger] a[i]).color != (#[trigger] a[j]).color,
        a.to_multiset() == b.to_multiset(),
    ensures
        a == b,
{
    a.to_multiset_ensures();
    b.to_multiset_ensures();
    assert forall|k: int| 0 <= k < a.len() implies a[k] == b[k] by {
        assert(a.contains(a[k]));
        assert(a.to_multiset().count(a[k]) > 0);
        assert(b.to_multiset().count(a[k]) > 0);
        assert(b.contains(a[k]));
        let j = choose|j: int| 0 <= j < b.len() && b[j] == a[k];
        assert(a[j].color == b[j].color);
        if j < k {
            assert(a[j].color != a[k].color);
        } else if k < j {
            assert(a[k].color != a[j].color);
        }
    }
    assert(a =~= b);
}

} // verus!
