//! What holds of every puzzle.

use vstd::prelude::*;
use crate::chain::{
    after_move, can_move, find_color, find_turn, lemma_find_color, lemma_nudge_keeps_colors,
    lemma_same_colors_same_first, lemma_settle_unfold, pushed,
};
use crate::elements::{all_goals_met, holds, Dir, Game, GameData, Goal, Square};
use crate::search::{lemma_first_is_unique, replay, solves_first};

verus! {

/// A nudge has one result: whatever `action` and `try_action` return for the
/// same tiles, squares and colour holds the same squares.
pub proof fn law_nudge_has_one_result(
    data: GameData,
    squares: Seq<Square>,
    color: i8,
    first: Seq<Square>,
    second: Seq<Square>,
)
    requires
        data.nudge(squares, color) == Some(first),
        data.nudge(squares, color) == Some(second),
    ensures
        first == second,
{
}

/// A square that is nudged onto a free cell with a turn tile stands there
/// with the tile's heading, and its next nudge moves it along that heading.
pub proof fn law_turn_tile_sets_the_next_move(
    data: GameData,
    squares: Seq<Square>,
    color: i8,
    i: int,
    tile: Dir,
)
    requires
        find_color(squares, color, 0) == Some(i),
        can_move(squares, i),
        find_turn(data.turns@, squares[i].pos.stepped(squares[i].dir), 0) == Some(tile),
        pushed(after_move(data.turns@, squares, i), i).is_none(),
    ensures
        data.nudge(squares, color) == Some(after_move(data.turns@, squares, i)),
        after_move(data.turns@, squares, i)[i].pos == squares[i].pos.stepped(squares[i].dir),
        after_move(data.turns@, squares, i)[i].dir == tile,
        ({
            let landed = after_move(data.turns@, squares, i);
            let next = after_move(data.turns@, landed, i);
            landed[i].pos.can_step(tile) ==> {
                &&& next[i].pos == landed[i].pos.stepped(tile)
                &&& pushed(next, i).is_none() ==> data.nudge(landed, color) == Some(next)
            }
        }),
{
    let turns = data.turns@;
    let landed = after_move(turns, squares, i);
    lemma_settle_unfold(turns, squares, i);
    lemma_find_color(squares, color, 0);
    lemma_same_colors_same_first(squares, landed, color, 0);
    if landed[i].pos.can_step(tile) {
        lemma_settle_unfold(turns, landed, i);
    }
}

/// One more square never undoes a win, and one that stands on no goal tile of
/// its colour does not make one.
pub proof fn law_extra_square(goals: Seq<Goal>, squares: Seq<Square>, extra: Square)
    ensures
        all_goals_met(goals, squares) ==> all_goals_met(goals, squares.push(extra)),
        (forall|g: int|
            0 <= g < goals.len() ==> !((#[trigger] goals[g]).pos == extra.pos && goals[g].color
                == extra.color)) ==> all_goals_met(goals, squares.push(extra)) == all_goals_met(
            goals,
            squares,
        ),
{
    let more = squares.push(extra);
    if all_goals_met(goals, squares) {
        assert forall|g: int| 0 <= g < goals.len() implies holds(
            more,
            (#[trigger] goals[g]).pos,
            goals[g].color,
        ) by {
            assert(holds(squares, goals[g].pos, goals[g].color));
            let i = choose|i: int|
                0 <= i < squares.len() && (#[trigger] squares[i]).pos == goals[g].pos
                    && squares[i].color == goals[g].color;
            assert(more[i] == squares[i]);
        }
    }
    if (forall|g: int|
        0 <= g < goals.len() ==> !((#[trigger] goals[g]).pos == extra.pos && goals[g].color
            == extra.color)) && all_goals_met(goals, more) {
        assert forall|g: int| 0 <= g < goals.len() implies holds(
            squares,
            (#[trigger] goals[g]).pos,
            goals[g].color,
        ) by {
            assert(holds(more, goals[g].pos, goals[g].color));
            let i = choose|i: int|
                0 <= i < more.len() && (#[trigger] more[i]).pos == goals[g].pos && more[i].color
                    == goals[g].color;
            assert(squares[i] == more[i]);
        }
    }
}

/// Nudges move squares about; they neither add nor remove one, and each
/// keeps its colour. So there is one square of each colour at any time if
/// there was at the start.
pub proof fn law_squares_keep_their_colors(data: GameData, squares: Seq<Square>, actions: Seq<i8>)
    requires
        replay(data.turns@, squares, actions).is_some(),
    ensures
        replay(data.turns@, squares, actions).unwrap().len() == squares.len(),
        forall|k: int|
            0 <= k < squares.len() ==> (#[trigger] replay(
                data.turns@,
                squares,
                actions,
            ).unwrap()[k]).color == squares[k].color,
    decreases actions.len(),
{
    if actions.len() > 0 {
        law_squares_keep_their_colors(data, squares, actions.drop_last());
        let before = replay(data.turns@, squares, actions.drop_last()).unwrap();
        lemma_nudge_keeps_colors(data.turns@, before, actions.last());
    }
}

/// A puzzle with a goal tile whose colour no square has cannot be solved.
pub proof fn law_goal_without_square(game: Game, g: int)
    requires
        0 <= g < game.data.goals@.len(),
        forall|i: int|
            0 <= i < game.state@.len() ==> (#[trigger] game.state@[i]).color
                != game.data.goals@[g].color,
    ensures
        forall|actions: Seq<i8>| !game.solved_by(actions),
        game.first_solution().is_none(),
{
    assert forall|actions: Seq<i8>| !game.solved_by(actions) by {
        if game.solved_by(actions) {
            law_squares_keep_their_colors(game.data, game.state@, actions);
            let end = replay(game.data.turns@, game.state@, actions).unwrap();
            assert(holds(end, game.data.goals@[g].pos, game.data.goals@[g].color));
        }
    }
    if game.first_solution().is_some() {
        let names = game.data.color_map@.len() as int;
        let a = choose|a: Seq<i8>|
            solves_first(game.data.turns@, game.data.goals@, names, game.state@, a);
        assert(game.solved_by(a));
    }
}

/// The first solution solves the puzzle: replayed from the start, nudge by
/// nudge, it ends with every goal tile under a square of its colour.
pub proof fn law_first_solution_solves(game: Game)
    requires
        game.first_solution().is_some(),
    ensures
        game.solved_by(game.first_solution().unwrap()),
        replay(game.data.turns@, game.state@, game.first_solution().unwrap()).is_some(),
        game.data.is_won(
            replay(game.data.turns@, game.state@, game.first_solution().unwrap()).unwrap(),
        ),
{
}

/// No sequence of nudges that solves the puzzle is shorter than the first
/// solution.
pub proof fn law_first_solution_is_shortest(game: Game, other: Seq<i8>)
    requires
        game.first_solution().is_some(),
        game.solved_by(other),
    ensures
        game.first_solution().unwrap().len() <= other.len(),
{
}

/// A puzzle has one answer: two solutions before which no other comes are the
/// same.
pub proof fn law_one_answer(game: Game, first: Seq<i8>, second: Seq<i8>)
    requires
        solves_first(
            game.data.turns@,
            game.data.goals@,
            game.data.color_map@.len() as int,
            game.state@,
            first,
        ),
        solves_first(
            game.data.turns@,
            game.data.goals@,
            game.data.color_map@.len() as int,
            game.state@,
            second,
        ),
    ensures
        first == second,
        game.first_solution() == Some(first),
{
    let names = game.data.color_map@.len() as int;
    lemma_first_is_unique(game.data.turns@, game.data.goals@, names, game.state@, first, second);
    let chosen = choose|a: Seq<i8>|
        solves_first(game.data.turns@, game.data.goals@, names, game.state@, a);
    lemma_first_is_unique(game.data.turns@, game.data.goals@, names, game.state@, first, chosen);
}

} // verus!
