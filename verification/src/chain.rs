//! What one nudge does to the squares, as a mathematical function.
//!
//! A nudge starts a chain: the nudged square moves one cell along its own
//! heading and takes the heading of a turn tile it lands on; if a square of
//! another colour stands on that cell, that square moves next, in the same
//! way, and so on until a mover lands on a cell that no other colour holds.
//! A chain can leave the coordinate range, and squares that push each other
//! in a circle never come to rest, so the result is an `Option`.

use vstd::prelude::*;
use crate::elements::{Dir, Pos, Square, Turn};

verus! {

/// The direction of the first turn tile at `p` among `turns[from..]`.
pub open spec fn find_turn(turns: Seq<Turn>, p: Pos, from: int) -> Option<Dir>
    decreases turns.len() - from,
{
    if from < 0 || from >= turns.len() {
        None
    } else if turns[from].pos == p {
        Some(turns[from].dir)
    } else {
        find_turn(turns, p, from + 1)
    }
}

/// The index of the first square of colour `color` among `squares[from..]`.
pub open spec fn find_color(squares: Seq<Square>, color: i8, from: int) -> Option<int>
    decreases squares.len() - from,
{
    if from < 0 || from >= squares.len() {
        None
    } else if squares[from].color == color {
        Some(from)
    } else {
        find_color(squares, color, from + 1)
    }
}

/// The index of the first square among `squares[from..]` that stands on `p`
/// and has another colour than `color`.
pub open spec fn find_blocker(squares: Seq<Square>, p: Pos, color: i8, from: int) -> Option<int>
    decreases squares.len() - from,
{
    if from < 0 || from >= squares.len() {
        None
    } else if squares[from].pos == p && squares[from].color != color {
        Some(from)
    } else {
        find_blocker(squares, p, color, from + 1)
    }
}

/// The square `sq` after one move: one cell further along its heading, and
/// turned if a turn tile lies there.
pub open spec fn moved(turns: Seq<Turn>, sq: Square) -> Square
    recommends
        sq.pos.can_step(sq.dir),
{
    let pos = sq.pos.stepped(sq.dir);
    Square {
        pos,
        color: sq.color,
        dir: match find_turn(turns, pos, 0) {
            Some(d) => d,
            None => sq.dir,
        },
    }
}

/// Whether square `i` is there and can move without leaving the coordinates.
pub open spec fn can_move(squares: Seq<Square>, i: int) -> bool {
    0 <= i < squares.len() && squares[i].pos.can_step(squares[i].dir)
}

/// The squares after square `i` alone has moved.
pub open spec fn after_move(turns: Seq<Turn>, squares: Seq<Square>, i: int) -> Seq<Square>
    recommends
        can_move(squares, i),
{
    squares.update(i, moved(turns, squares[i]))
}

/// The square that has to move once square `i` has just arrived on its cell.
pub open spec fn pushed(squares: Seq<Square>, i: int) -> Option<int>
    recommends
        0 <= i < squares.len(),
{
    find_blocker(squares, squares[i].pos, squares[i].color, 0)
}

/// The chain that starts with a move of square `i`, cut off after `fuel`
/// moves: `Some` of the squares at rest if it ends within that many moves and
/// no mover leaves the coordinates.
pub open spec fn chain(turns: Seq<Turn>, squares: Seq<Square>, i: int, fuel: nat) -> Option<
    Seq<Square>,
>
    decreases fuel,
{
    if fuel == 0 || !can_move(squares, i) {
        None
    } else {
        let next = after_move(turns, squares, i);
        match pushed(next, i) {
            None => Some(next),
            Some(j) => chain(turns, next, j, (fuel - 1) as nat),
        }
    }
}

/// Whether the chain that starts with a move of square `i` comes to rest.
pub open spec fn settles(turns: Seq<Turn>, squares: Seq<Square>, i: int) -> bool {
    exists|fuel: nat| (#[trigger] chain(turns, squares, i, fuel)).is_some()
}

/// The squares at rest after the chain that starts with a move of square `i`.
pub open spec fn settle(turns: Seq<Turn>, squares: Seq<Square>, i: int) -> Option<Seq<Square>> {
    if settles(turns, squares, i) {
        chain(
            turns,
            squares,
            i,
            choose|fuel: nat| (#[trigger] chain(turns, squares, i, fuel)).is_some(),
        )
    } else {
        None
    }
}

/// What a nudge of colour `color` makes of `squares`: `None` if no square has
/// that colour, or if the chain leaves the coordinates or never rests.
pub open spec fn nudge(turns: Seq<Turn>, squares: Seq<Square>, color: i8) -> Option<Seq<Square>> {
    match find_color(squares, color, 0) {
        None => None,
        Some(i) => settle(turns, squares, i),
    }
}

/// The first square of colour `color` is found where it stands.
pub proof fn lemma_find_color(squares: Seq<Square>, color: i8, from: int)
    requires
        0 <= from,
    ensures
        match find_color(squares, color, from) {
            Some(i) => from <= i < squares.len() && squares[i].color == color,
            None => forall|k: int| from <= k < squares.len() ==> squares[k].color != color,
        },
    decreases squares.len() - from,
{
    if from < squares.len() && squares[from].color != color {
        lemma_find_color(squares, color, from + 1);
    }
}

/// Where two lists have the same colours in the same places, the first
/// square of a colour has the same place.
pub proof fn lemma_same_colors_same_first(a: Seq<Square>, b: Seq<Square>, color: i8, from: int)
    requires
        a.len() == b.len(),
        forall|k: int| 0 <= k < a.len() ==> (#[trigger] a[k]).color == b[k].color,
        0 <= from,
    ensures
        find_color(a, color, from) == find_color(b, color, from),
    decreases a.len() - from,
{
    if from < a.len() && a[from].color != color {
        lemma_same_colors_same_first(a, b, color, from + 1);
    }
}

/// More fuel does not change where a chain comes to rest.
pub proof fn lemma_chain_more_fuel(turns: Seq<Turn>, squares: Seq<Square>, i: int, f1: nat, f2: nat)
    requires
        chain(turns, squares, i, f1).is_some(),
        f1 <= f2,
    ensures
        chain(turns, squares, i, f2) == chain(turns, squares, i, f1),
    decreases f1,
{
    let next = after_move(turns, squares, i);
    match pushed(next, i) {
        None => {},
        Some(j) => {
            lemma_chain_more_fuel(turns, next, j, (f1 - 1) as nat, (f2 - 1) as nat);
        },
    }
}

/// A chain that rests within `fuel` moves rests where `settle` says.
pub proof fn lemma_settle_is_chain(turns: Seq<Turn>, squares: Seq<Square>, i: int, fuel: nat)
    requires
        chain(turns, squares, i, fuel).is_some(),
    ensures
        settle(turns, squares, i) == chain(turns, squares, i, fuel),
{
    let f = choose|f: nat| (#[trigger] chain(turns, squares, i, f)).is_some();
    if f <= fuel {
        lemma_chain_more_fuel(turns, squares, i, f, fuel);
    } else {
        lemma_chain_more_fuel(turns, squares, i, fuel, f);
    }
}

/// `settle`, one move at a time.
pub proof fn lemma_settle_unfold(turns: Seq<Turn>, squares: Seq<Square>, i: int)
    ensures
        settle(turns, squares, i) == if !can_move(squares, i) {
            None
        } else {
            match pushed(after_move(turns, squares, i), i) {
                None => Some(after_move(turns, squares, i)),
                Some(j) => settle(turns, after_move(turns, squares, i), j),
            }
        },
{
    if can_move(squares, i) {
        let next = after_move(turns, squares, i);
        match pushed(next, i) {
            None => {
                assert(chain(turns, squares, i, 1) == Some(next));
                lemma_settle_is_chain(turns, squares, i, 1);
            },
            Some(j) => {
                if settles(turns, next, j) {
                    let f = choose|f: nat| (#[trigger] chain(turns, next, j, f)).is_some();
                    lemma_settle_is_chain(turns, next, j, f);
                    assert(chain(turns, squares, i, f + 1) == chain(turns, next, j, f));
                    lemma_settle_is_chain(turns, squares, i, f + 1);
                } else {
                    if settles(turns, squares, i) {
                        let f = choose|f: nat| (#[trigger] chain(turns, squares, i, f)).is_some();
                        assert(chain(turns, next, j, (f - 1) as nat).is_some());
                    }
                }
            },
        }
    } else {
        assert forall|fuel: nat| (#[trigger] chain(turns, squares, i, fuel)).is_none() by {}
    }
}

/// A chain moves squares about; it neither adds nor removes one, and each
/// keeps its colour.
pub proof fn lemma_chain_keeps_colors(turns: Seq<Turn>, squares: Seq<Square>, i: int, fuel: nat)
    requires
        chain(turns, squares, i, fuel).is_some(),
    ensures
        chain(turns, squares, i, fuel).unwrap().len() == squares.len(),
        forall|k: int|
            0 <= k < squares.len() ==> (#[trigger] chain(turns, squares, i, fuel).unwrap()[k]).color
                == squares[k].color,
    decreases fuel,
{
    let next = after_move(turns, squares, i);
    match pushed(next, i) {
        None => {},
        Some(j) => {
            lemma_chain_keeps_colors(turns, next, j, (fuel - 1) as nat);
        },
    }
}

/// A nudge moves squares about; it neither adds nor removes one, and each
/// keeps its colour.
pub proof fn lemma_nudge_keeps_colors(turns: Seq<Turn>, squares: Seq<Square>, color: i8)
    requires
        nudge(turns, squares, color).is_some(),
    ensures
        nudge(turns, squares, color).unwrap().len() == squares.len(),
        forall|k: int|
            0 <= k < squares.len() ==> (#[trigger] nudge(turns, squares, color).unwrap()[k]).color
                == squares[k].color,
{
    let i = find_color(squares, color, 0).unwrap();
    let fuel = choose|fuel: nat| (#[trigger] chain(turns, squares, i, fuel)).is_some();
    lemma_chain_keeps_colors(turns, squares, i, fuel);
}

/// Whether the chain from square `i` of `a` is, `d` moves later, the chain from
/// square `j` of `b`: the first rests within some number of moves exactly if
/// the second rests within `d` fewer.
pub open spec fn leads_to(
    turns: Seq<Turn>,
    a: Seq<Square>,
    i: int,
    b: Seq<Square>,
    j: int,
    d: nat,
) -> bool {
    forall|f: nat|
        (#[trigger] chain(turns, a, i, f)).is_some() <==> f >= d && chain(
            turns,
            b,
            j,
            (f - d) as nat,
        ).is_some()
}

/// One more move of the chain.
pub proof fn lemma_leads_on(turns: Seq<Turn>, a: Seq<Square>, i: int, b: Seq<Square>, j: int, d: nat)
    requires
        leads_to(turns, a, i, b, j, d),
        can_move(b, j),
        pushed(after_move(turns, b, j), j).is_some(),
    ensures
        leads_to(
            turns,
            a,
            i,
            after_move(turns, b, j),
            pushed(after_move(turns, b, j), j).unwrap(),
            d + 1,
        ),
{
    let next = after_move(turns, b, j);
    let k = pushed(next, j).unwrap();
    assert forall|f: nat|
        (#[trigger] chain(turns, a, i, f)).is_some() <==> f >= d + 1 && chain(
            turns,
            next,
            k,
            (f - (d + 1)) as nat,
        ).is_some() by {
        if f >= d {
            let g = (f - d) as nat;
            if g >= 1 {
                assert(chain(turns, b, j, g) == chain(turns, next, k, (g - 1) as nat));
            }
        }
    }
}

/// A chain that comes back to where it was never rests.
pub proof fn lemma_circle_never_rests(turns: Seq<Turn>, a: Seq<Square>, i: int, d: nat)
    requires
        leads_to(turns, a, i, a, i, d),
        d > 0,
    ensures
        !settles(turns, a, i),
{
    assert forall|f: nat| (#[trigger] chain(turns, a, i, f)).is_none() by {
        lemma_circle_runs_out(turns, a, i, d, f);
    }
}

proof fn lemma_circle_runs_out(turns: Seq<Turn>, a: Seq<Square>, i: int, d: nat, f: nat)
    requires
        leads_to(turns, a, i, a, i, d),
        d > 0,
    ensures
        chain(turns, a, i, f).is_none(),
    decreases f,
{
    if f >= d {
        lemma_circle_runs_out(turns, a, i, d, (f - d) as nat);
    }
}

} // verus!
