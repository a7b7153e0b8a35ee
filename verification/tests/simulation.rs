use gameaboutsquares_solver::{Dir, GameData, Goal, Pos, Square, State, Turn};

fn board(turns: Vec<Turn>) -> GameData {
    GameData {
        goals: Vec::new(),
        turns,
        color_map: vec!["a".to_string(), "b".to_string(), "c".to_string()],
    }
}

fn sq(x: i8, y: i8, color: i8, dir: Dir) -> Square {
    Square { pos: Pos::new(x, y), color, dir }
}

#[test]
fn new_sets_both_coordinates() {
    let p = Pos::new(3, -4);
    assert_eq!(p.x, 3);
    assert_eq!(p.y, -4);
}

#[test]
fn step_moves_one_cell_in_screen_coordinates() {
    let mut p = Pos::new(0, 0);
    p.step(Dir::Up);
    assert_eq!(p, Pos::new(0, -1));
    p.step(Dir::Left);
    assert_eq!(p, Pos::new(-1, -1));
    p.step(Dir::Down);
    p.step(Dir::Down);
    assert_eq!(p, Pos::new(-1, 1));
    p.step(Dir::Right);
    assert_eq!(p, Pos::new(0, 1));
}

#[test]
fn step_reaches_the_edge_of_the_coordinates() {
    let mut p = Pos::new(126, -127);
    p.step(Dir::Right);
    p.step(Dir::Up);
    assert_eq!(p, Pos::new(127, -128));
}

#[test]
fn a_lone_square_moves_one_cell() {
    let data = board(Vec::new());
    let state = State { squares: vec![sq(0, 0, 0, Dir::Right)] };
    let next = data.action(&state, 0);
    assert_eq!(next.squares, vec![sq(1, 0, 0, Dir::Right)]);
    assert_eq!(state.squares, vec![sq(0, 0, 0, Dir::Right)]);
}

#[test]
fn pushing_moves_both_squares() {
    let data = board(Vec::new());
    let state = State { squares: vec![sq(2, 0, 0, Dir::Right), sq(3, 0, 1, Dir::Right)] };
    let next = data.action(&state, 0);
    assert_eq!(next.squares, vec![sq(3, 0, 0, Dir::Right), sq(4, 0, 1, Dir::Right)]);
}

#[test]
fn the_square_in_front_moves_alone() {
    let data = board(Vec::new());
    let state = State { squares: vec![sq(2, 0, 0, Dir::Right), sq(3, 0, 1, Dir::Right)] };
    let next = data.action(&state, 1);
    assert_eq!(next.squares, vec![sq(2, 0, 0, Dir::Right), sq(4, 0, 1, Dir::Right)]);
}

#[test]
fn a_pushed_square_moves_along_its_own_heading() {
    let data = board(Vec::new());
    let state = State { squares: vec![sq(0, 0, 0, Dir::Right), sq(1, 0, 1, Dir::Down)] };
    let next = data.action(&state, 0);
    assert_eq!(next.squares, vec![sq(1, 0, 0, Dir::Right), sq(1, 1, 1, Dir::Down)]);
}

#[test]
fn a_push_runs_through_a_row_of_squares() {
    // The last square is pushed back onto the first, which moves once more.
    let data = board(Vec::new());
    let state = State {
        squares: vec![sq(2, 0, 2, Dir::Left), sq(0, 0, 0, Dir::Right), sq(1, 0, 1, Dir::Right)],
    };
    let next = data.action(&state, 0);
    assert_eq!(
        next.squares,
        vec![sq(1, 0, 2, Dir::Left), sq(2, 0, 0, Dir::Right), sq(3, 0, 1, Dir::Right)]
    );
}

#[test]
fn a_turn_tile_turns_the_square_for_its_next_move() {
    let data = board(vec![Turn { pos: Pos::new(1, 0), dir: Dir::Down }]);
    let state = State { squares: vec![sq(0, 0, 0, Dir::Right)] };
    let on_tile = data.action(&state, 0);
    assert_eq!(on_tile.squares, vec![sq(1, 0, 0, Dir::Down)]);
    let below = data.action(&on_tile, 0);
    assert_eq!(below.squares, vec![sq(1, 1, 0, Dir::Down)]);
}

#[test]
fn a_pushed_square_is_turned_too() {
    let data = board(vec![Turn { pos: Pos::new(2, 0), dir: Dir::Up }]);
    let state = State { squares: vec![sq(0, 0, 0, Dir::Right), sq(1, 0, 1, Dir::Right)] };
    let next = data.action(&state, 0);
    assert_eq!(next.squares, vec![sq(1, 0, 0, Dir::Right), sq(2, 0, 1, Dir::Up)]);
}

#[test]
fn the_first_of_two_turn_tiles_on_a_cell_counts() {
    let data = board(vec![
        Turn { pos: Pos::new(1, 0), dir: Dir::Left },
        Turn { pos: Pos::new(1, 0), dir: Dir::Up },
    ]);
    let state = State { squares: vec![sq(0, 0, 0, Dir::Right)] };
    assert_eq!(data.action(&state, 0).squares, vec![sq(1, 0, 0, Dir::Left)]);
}

#[test]
fn action_gives_the_same_result_each_time() {
    let data = board(vec![Turn { pos: Pos::new(2, 0), dir: Dir::Up }]);
    let state = State { squares: vec![sq(0, 0, 0, Dir::Right), sq(1, 0, 1, Dir::Right)] };
    assert_eq!(data.action(&state, 0), data.action(&state, 0));
    assert_eq!(data.try_action(&state, 1), data.try_action(&state, 1));
}

#[test]
fn try_action_agrees_with_action() {
    let data = board(vec![Turn { pos: Pos::new(2, 0), dir: Dir::Up }]);
    let state = State { squares: vec![sq(0, 0, 0, Dir::Right), sq(1, 0, 1, Dir::Right)] };
    assert_eq!(data.try_action(&state, 0), Some(data.action(&state, 0)));
    assert_eq!(data.try_action(&state, 1), Some(data.action(&state, 1)));
}

#[test]
fn try_action_refuses_a_colour_without_square() {
    let data = board(Vec::new());
    let state = State { squares: vec![sq(0, 0, 0, Dir::Right)] };
    assert_eq!(data.try_action(&state, 1), None);
}

#[test]
fn try_action_refuses_to_leave_the_coordinates() {
    let data = board(Vec::new());
    let state = State { squares: vec![sq(127, 0, 0, Dir::Right), sq(3, -128, 1, Dir::Up)] };
    assert_eq!(data.try_action(&state, 0), None);
    assert_eq!(data.try_action(&state, 1), None);
    let pushed_out = State { squares: vec![sq(0, 0, 0, Dir::Right), sq(1, 0, 1, Dir::Up), sq(1, -1, 2, Dir::Up)] };
    assert!(data.try_action(&pushed_out, 0).is_some());
    let pushed_out = State { squares: vec![sq(0, -128, 0, Dir::Right), sq(1, -128, 1, Dir::Up)] };
    assert_eq!(data.try_action(&pushed_out, 0), None);
}

#[test]
fn squares_in_a_circle_never_rest() {
    let data = board(vec![
        Turn { pos: Pos::new(1, 0), dir: Dir::Right },
        Turn { pos: Pos::new(2, 0), dir: Dir::Left },
    ]);
    let state = State {
        squares: vec![sq(0, 0, 0, Dir::Right), sq(1, 0, 1, Dir::Right), sq(2, 0, 2, Dir::Left)],
    };
    assert_eq!(data.try_action(&state, 0), None);
    assert_eq!(
        data.try_action(&state, 2),
        Some(State {
            squares: vec![sq(0, 0, 0, Dir::Right), sq(2, 0, 1, Dir::Left), sq(1, 0, 2, Dir::Right)],
        })
    );
}

#[test]
fn a_long_chain_that_rests_is_played_to_its_end() {
    // Three squares juggle over two cells before the last one gets away.
    let data = board(vec![Turn { pos: Pos::new(2, 0), dir: Dir::Left }]);
    let state = State {
        squares: vec![sq(0, 0, 0, Dir::Right), sq(1, 0, 1, Dir::Right), sq(2, 0, 2, Dir::Left)],
    };
    let next = data.try_action(&state, 0);
    assert_eq!(
        next,
        Some(State {
            squares: vec![sq(2, 0, 0, Dir::Left), sq(1, 0, 1, Dir::Left), sq(0, 0, 2, Dir::Left)],
        })
    );
    assert_eq!(next, Some(data.action(&state, 0)));
}

#[test]
fn won_needs_every_goal_covered_by_its_colour() {
    let mut data = board(Vec::new());
    data.goals.push(Goal { pos: Pos::new(1, 0), color: 0 });
    data.goals.push(Goal { pos: Pos::new(5, 5), color: 1 });
    let both = State { squares: vec![sq(5, 5, 1, Dir::Up), sq(1, 0, 0, Dir::Right)] };
    assert!(data.won(&both));
    let one = State { squares: vec![sq(5, 4, 1, Dir::Up), sq(1, 0, 0, Dir::Right)] };
    assert!(!data.won(&one));
    let swapped = State { squares: vec![sq(5, 5, 0, Dir::Up), sq(1, 0, 1, Dir::Right)] };
    assert!(!data.won(&swapped));
}

#[test]
fn an_extra_square_elsewhere_does_not_change_won() {
    let mut data = board(Vec::new());
    data.goals.push(Goal { pos: Pos::new(1, 0), color: 0 });
    let won = State { squares: vec![sq(1, 0, 0, Dir::Right)] };
    let won_with_extra = State { squares: vec![sq(1, 0, 0, Dir::Right), sq(7, 7, 1, Dir::Up)] };
    assert!(data.won(&won));
    assert!(data.won(&won_with_extra));
    let open = State { squares: vec![sq(0, 0, 0, Dir::Right)] };
    let open_with_extra = State { squares: vec![sq(0, 0, 0, Dir::Right), sq(1, 0, 1, Dir::Up)] };
    assert!(!data.won(&open));
    assert!(!data.won(&open_with_extra));
}

#[test]
fn won_without_goals_is_true() {
    let data = board(Vec::new());
    assert!(data.won(&State { squares: Vec::new() }));
    assert!(data.won(&State { squares: vec![sq(0, 0, 0, Dir::Up)] }));
}
