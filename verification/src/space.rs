//! There are only so many ways to place a given number of squares. This is
//! what makes a search over them, and the hunt for a chain that runs in a
//! circle, come to an end.

use vstd::prelude::*;
use vstd::set_lib::{lemma_int_range, lemma_len_subset, set_int_range};
use crate::elements::{Dir, Square};

verus! {

/// The number of values a square can take.
pub open spec fn square_values() -> int {
    0x400_0000
}

/// A number for each heading.
pub open spec fn dir_code(d: Dir) -> int {
    match d {
        Dir::Up => 0,
        Dir::Down => 1,
        Dir::Left => 2,
        Dir::Right => 3,
    }
}

/// A number for each square, below `square_values()`; different squares get
/// different numbers.
pub open spec fn square_code(sq: Square) -> int {
    (((sq.pos.x + 128) * 256 + (sq.pos.y + 128)) * 256 + (sq.color + 128)) * 4 + dir_code(sq.dir)
}

/// A number for each sequence of squares, below `space` of its length;
/// different sequences of one length get different numbers.
pub open spec fn squares_code(squares: Seq<Square>) -> int
    decreases squares.len(),
{
    if squares.len() == 0 {
        0
    } else {
        squares_code(squares.drop_last()) * square_values() + square_code(squares.last())
    }
}

/// The number of sequences of `n` squares.
pub open spec fn space(n: nat) -> nat
    decreases n,
{
    if n == 0 {
        1
    } else {
        (square_values() * space((n - 1) as nat)) as nat
    }
}

/// The number of a square is below `square_values()`, and tells the square.
pub proof fn lemma_square_code(a: Square, b: Square)
    ensures
        0 <= square_code(a) < square_values(),
        square_code(a) == square_code(b) ==> a == b,
{
}

/// The number of a sequence of squares is below `space` of its length.
pub proof fn lemma_squares_code_bound(squares: Seq<Square>)
    ensures
        0 <= squares_code(squares) < space(squares.len()),
    decreases squares.len(),
{
    if squares.len() > 0 {
        lemma_squares_code_bound(squares.drop_last());
        lemma_square_code(squares.last(), squares.last());
    }
}

/// Two sequences of one length with the same number are the same.
pub proof fn lemma_squares_code_injective(a: Seq<Square>, b: Seq<Square>)
    requires
        a.len() == b.len(),
        squares_code(a) == squares_code(b),
    ensures
        a == b,
    decreases a.len(),
{
    if a.len() > 0 {
        lemma_square_code(a.last(), b.last());
        lemma_square_code(b.last(), a.last());
        lemma_squares_code_injective(a.drop_last(), b.drop_last());
        assert(a =~= a.drop_last().push(a.last()));
        assert(b =~= b.drop_last().push(b.last()));
    } else {
        assert(a =~= b);
    }
}

/// Numbers below `bound`, no two alike, are at most `bound` many.
pub proof fn lemma_distinct_codes(codes: Seq<int>, bound: nat)
    requires
        codes.no_duplicates(),
        forall|k: int| 0 <= k < codes.len() ==> 0 <= #[trigger] codes[k] < bound,
    ensures
        codes.len() <= bound,
{
    codes.unique_seq_to_set();
    lemma_int_range(0, bound as int);
    assert(codes.to_set().subset_of(set_int_range(0, bound as int)));
    lemma_len_subset(codes.to_set(), set_int_range(0, bound as int));
}

/// Placements of `n` squares, no two alike, are at most `space(n)` many.
pub proof fn lemma_distinct_placements(placements: Seq<Seq<Square>>, n: nat)
    requires
        placements.no_duplicates(),
        forall|k: int| 0 <= k < placements.len() ==> (#[trigger] placements[k]).len() == n,
    ensures
        placements.len() <= space(n),
{
    let codes = Seq::new(placements.len(), |k: int| squares_code(placements[k]));
    assert forall|k: int| 0 <= k < codes.len() implies 0 <= #[trigger] codes[k] < space(n) by {
        lemma_squares_code_bound(placements[k]);
    }
    assert forall|k: int, l: int|
        0 <= k < codes.len() && 0 <= l < codes.len() && k != l implies codes[k] != codes[l] by {
        if codes[k] == codes[l] {
            lemma_squares_code_injective(placements[k], placements[l]);
        }
    }
    lemma_distinct_codes(codes, space(n));
}

/// Placements of `n` squares, each with one of them marked, no two alike, are
/// at most `n * space(n)` many.
pub proof fn lemma_distinct_marked_placements(marked: Seq<(Seq<Square>, int)>, n: nat)
    requires
        marked.no_duplicates(),
        forall|k: int|
            0 <= k < marked.len() ==> (#[trigger] marked[k]).0.len() == n && 0 <= marked[k].1 < n,
    ensures
        marked.len() <= n * space(n),
{
    let codes = Seq::new(marked.len(), |k: int| squares_code(marked[k].0) * n + marked[k].1);
    assert forall|k: int| 0 <= k < codes.len() implies 0 <= #[trigger] codes[k] < n * space(n) by {
        lemma_squares_code_bound(marked[k].0);
        lemma_mixed_radix(squares_code(marked[k].0), marked[k].1, 0, 0, n as int, space(n) as int);
    }
    assert forall|k: int, l: int|
        0 <= k < codes.len() && 0 <= l < codes.len() && k != l implies codes[k] != codes[l] by {
        if codes[k] == codes[l] {
            lemma_squares_code_bound(marked[k].0);
            lemma_mixed_radix(
                squares_code(marked[k].0),
                marked[k].1,
                squares_code(marked[l].0),
                marked[l].1,
                n as int,
                space(n) as int,
            );
            lemma_squares_code_injective(marked[k].0, marked[l].0);
            assert(marked[k] == marked[l]);
        }
    }
    lemma_distinct_codes(codes, n * space(n));
}

/// A number below `top` and a number below `radix` make one number below
/// their product, which tells both.
proof fn lemma_mixed_radix(hi1: int, lo1: int, hi2: int, lo2: int, radix: int, top: int)
    requires
        0 <= lo1 < radix,
        0 <= lo2 < radix,
        0 <= hi1 < top,
    ensures
        0 <= hi1 * radix + lo1 < radix * top,
        hi1 * radix + lo1 == hi2 * radix + lo2 ==> hi1 == hi2 && lo1 == lo2,
{
    assert(0 <= hi1 * radix + lo1 < radix * top) by (nonlinear_arith)
        requires
            0 <= lo1 < radix,
            0 <= hi1 < top,
    ;
    assert(hi1 * radix + lo1 == hi2 * radix + lo2 ==> hi1 == hi2 && lo1 == lo2) by (nonlinear_arith)
        requires
            0 <= lo1 < radix,
            0 <= lo2 < radix,
    ;
}

} // verus!
