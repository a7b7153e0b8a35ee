//! The set of placements that a search has dealt with.

use std::collections::HashMap;
use vstd::prelude::*;
use crate::elements::{same_squares, Dir, Square, State};

verus! {

broadcast use vstd::std_specs::hash::group_hash_axioms;

/// A number made of `h` and the square `sq`.
pub open spec fn mixed(h: u64, sq: Square) -> u64 {
    h.wrapping_mul(0x100_0000_01b3).wrapping_add(
        (((sq.pos.x + 128) * 256 + (sq.pos.y + 128)) * 1024 + (sq.color + 128) * 4 + match sq.dir {
            Dir::Up => 0int,
            Dir::Down => 1int,
            Dir::Left => 2int,
            Dir::Right => 3int,
        }) as u64,
    )
}

/// A number made of all the squares in their order, by which a placement is
/// filed.
pub open spec fn fingerprint(squares: Seq<Square>) -> u64
    decreases squares.len(),
{
    if squares.len() == 0 {
        0xcbf2_9ce4_8422_2325
    } else {
        mixed(fingerprint(squares.drop_last()), squares.last())
    }
}

/// Whether the placement `squares` is filed in `buckets`, under its
/// fingerprint.
pub open spec fn filed(buckets: Map<u64, Vec<State>>, squares: Seq<Square>) -> bool {
    &&& buckets.contains_key(fingerprint(squares))
    &&& exists|i: int|
        0 <= i < buckets[fingerprint(squares)]@.len() && (#[trigger] buckets[fingerprint(
            squares,
        )]@[i])@ == squares
}

/// A set of placements: two that hold the same squares in another order
/// count as two. Its view lists the placements in the order in which they
/// came.
pub struct Visited {
    buckets: HashMap<u64, Vec<State>>,
    order: Ghost<Seq<Seq<Square>>>,
}

impl View for Visited {
    type V = Seq<Seq<Square>>;

    closed spec fn view(&self) -> Seq<Seq<Square>> {
        self.order@
    }
}

fn fingerprint_of(state: &State) -> (h: u64)
    ensures
        h == fingerprint(state@),
{
    let mut h: u64 = 0xcbf2_9ce4_8422_2325;
    let mut i: usize = 0;
    while i < state.squares.len()
        invariant
            i <= state.squares.len(),
            h == fingerprint(state@.subrange(0, i as int)),
        decreases state.squares.len() - i,
    {
        let sq = state.squares[i];
        let heading: u64 = match sq.dir {
            Dir::Up => 0,
            Dir::Down => 1,
            Dir::Left => 2,
            Dir::Right => 3,
        };
        let x: u64 = (sq.pos.x as i64 + 128) as u64;
        let y: u64 = (sq.pos.y as i64 + 128) as u64;
        let color: u64 = (sq.color as i64 + 128) as u64;
        proof {
            assert(state@.subrange(0, i + 1).drop_last() =~= state@.subrange(0, i as int));
        }
        h = h.wrapping_mul(0x100_0000_01b3).wrapping_add((x * 256 + y) * 1024 + color * 4 + heading);
        i += 1;
    }
    assert(state@.subrange(0, i as int) =~= state@);
    h
}

/// The place of the placement `state` in `bucket`.
fn place_in(bucket: &Vec<State>, state: &State) -> (found: Option<usize>)
    ensures
        match found {
            Some(k) => k < bucket@.len() && bucket@[k as int]@ == state@,
            None => forall|k: int| 0 <= k < bucket@.len() ==> (#[trigger] bucket@[k])@ != state@,
        },
{
    let mut k: usize = 0;
    while k < bucket.len()
        invariant
            k <= bucket.len(),
            forall|j: int| 0 <= j < k ==> (#[trigger] bucket@[j])@ != state@,
        decreases bucket.len() - k,
    {
        if same_squares(&bucket[k].squares, &state.squares) {
            return Some(k);
        }
        k += 1;
    }
    None
}

impl Visited {
    /// Whether the set is in order: it files the placements that it lists,
    /// and no others.
    pub closed spec fn wf(&self) -> bool {
        forall|squares: Seq<Square>| #[trigger]
            self.order@.contains(squares) <==> filed(self.buckets@, squares)
    }

    /// The empty set.
    pub fn new() -> (set: Visited)
        ensures
            set.wf(),
            set@.len() == 0,
    {
        Visited { buckets: HashMap::new(), order: Ghost(Seq::empty()) }
    }

    /// Whether the set holds the placement `state`.
    pub fn contains(&self, state: &State) -> (found: bool)
        requires
            self.wf(),
        ensures
            found == self@.contains(state@),
    {
        let h = fingerprint_of(state);
        match self.buckets.get(&h) {
            None => false,
            Some(bucket) => {
                assert(self.buckets@[h] == *bucket);
                place_in(bucket, state).is_some()
            },
        }
    }

    /// Adds the placement `state`, which the set does not hold yet.
    pub fn insert(&mut self, state: State)
        requires
            old(self).wf(),
            !old(self)@.contains(state@),
        ensures
            final(self).wf(),
            final(self)@ == old(self)@.push(state@),
    {
        let h = fingerprint_of(&state);
        let ghost added = state@;
        let ghost before = self.buckets@;
        let mut bucket = match self.buckets.remove(&h) {
            Some(bucket) => bucket,
            None => Vec::new(),
        };
        let ghost earlier = bucket@;
        bucket.push(state);
        let ghost later = bucket@;
        self.buckets.insert(h, bucket);
        proof {
            self.order@ = self.order@.push(added);
            let after = self.buckets@;
            assert forall|squares: Seq<Square>| #[trigger]
                self.order@.contains(squares) <==> filed(after, squares) by {
                let old_order = old(self).order@;
                assert(self.order@.contains(squares) <==> old_order.contains(squares) || squares
                    == added) by {
                    if old_order.contains(squares) {
                        let k = choose|k: int| 0 <= k < old_order.len() && old_order[k] == squares;
                        assert(self.order@[k] == squares);
                    }
                    if squares == added {
                        assert(self.order@[old_order.len() as int] == squares);
                    }
                }
                assert(old_order.contains(squares) <==> filed(before, squares));
                if fingerprint(squares) == h {
                    assert(after[h]@ == later);
                    if filed(before, squares) {
                        let i = choose|i: int|
                            0 <= i < before[h]@.len() && (#[trigger] before[h]@[i])@ == squares;
                        assert(later[i]@ == squares);
                    }
                    if squares == added {
                        assert(later[earlier.len() as int]@ == squares);
                    }
                    if filed(after, squares) {
                        let i = choose|i: int|
                            0 <= i < after[h]@.len() && (#[trigger] after[h]@[i])@ == squares;
                        if i < earlier.len() {
                            assert(before.contains_key(h));
                            assert(before[h]@[i]@ == squares);
                        }
                    }
                } else {
                    assert(after.contains_key(fingerprint(squares)) == before.contains_key(
                        fingerprint(squares),
                    ));
                    if before.contains_key(fingerprint(squares)) {
                        assert(after[fingerprint(squares)] == before[fingerprint(squares)]);
                    }
                }
            }
        }
    }
}

} // verus!
