use gameaboutsquares_solver::visited::Visited;
use gameaboutsquares_solver::{Dir, Game, GameData, Goal, Pos, Solver, Square, State, Turn};

fn sq(x: i8, y: i8, color: i8, dir: Dir) -> Square {
    Square { pos: Pos::new(x, y), color, dir }
}

fn goal(x: i8, y: i8, color: i8) -> Goal {
    Goal { pos: Pos::new(x, y), color }
}

fn turn(x: i8, y: i8, dir: Dir) -> Turn {
    Turn { pos: Pos::new(x, y), dir }
}

fn game(names: &[&str], squares: Vec<Square>, goals: Vec<Goal>, turns: Vec<Turn>) -> Game {
    Game {
        data: GameData { goals, turns, color_map: names.iter().map(|n| n.to_string()).collect() },
        state: State { squares },
    }
}

fn names(list: &[&str]) -> Option<Vec<String>> {
    Some(list.iter().map(|n| n.to_string()).collect())
}

/// The squares after `actions`, or `None` if one of them is not possible.
fn play(game: &Game, actions: &[i8]) -> Option<State> {
    let mut state = game.state.clone();
    for &color in actions {
        state = game.data.try_action(&state, color)?;
    }
    Some(state)
}

/// The length of a shortest solution with at most `limit` actions, found by
/// trying every sequence of actions.
fn shortest_by_brute_force(game: &Game, limit: usize) -> Option<usize> {
    let colors = game.data.color_map.len() as i8;
    let mut level: Vec<State> = vec![game.state.clone()];
    for depth in 1..=limit {
        let mut next_level = Vec::new();
        for state in &level {
            for color in 0..colors {
                if let Some(next) = game.data.try_action(state, color) {
                    if game.data.won(&next) {
                        return Some(depth);
                    }
                    next_level.push(next);
                }
            }
        }
        level = next_level;
    }
    None
}

fn two_lanes() -> Game {
    game(
        &["red", "blue"],
        vec![sq(0, 0, 0, Dir::Right), sq(0, 5, 1, Dir::Right)],
        vec![goal(1, 0, 0), goal(1, 5, 1)],
        Vec::new(),
    )
}

fn corner() -> Game {
    game(
        &["red", "blue"],
        vec![sq(0, 0, 0, Dir::Right), sq(5, 2, 1, Dir::Up)],
        vec![goal(2, 1, 0), goal(5, -1, 1)],
        vec![turn(2, 0, Dir::Down)],
    )
}

#[test]
fn one_nudge_onto_the_goal() {
    let g = game(&["red"], vec![sq(0, 0, 0, Dir::Right)], vec![goal(1, 0, 0)], Vec::new());
    assert_eq!(Solver::solve(g), names(&["red"]));
}

#[test]
fn a_goal_three_cells_ahead_takes_three_nudges() {
    let g = game(&["red"], vec![sq(0, 0, 0, Dir::Right)], vec![goal(3, 0, 0)], Vec::new());
    assert_eq!(Solver::solve(g), names(&["red", "red", "red"]));
}

#[test]
fn a_push_solves_in_one_nudge() {
    let g = game(
        &["blue", "red"],
        vec![sq(0, 0, 0, Dir::Right), sq(1, 0, 1, Dir::Down)],
        vec![goal(1, 0, 0), goal(1, 1, 1)],
        Vec::new(),
    );
    assert_eq!(Solver::solve(g), names(&["blue"]));
}

#[test]
fn the_smaller_colour_goes_first_among_shortest_solutions() {
    assert_eq!(Solver::solve(two_lanes()), names(&["red", "blue"]));
    assert_eq!(Solver::search(&two_lanes().data, &two_lanes().state), Some(vec![0, 1]));
}

#[test]
fn the_solution_goes_round_the_corner() {
    let g = corner();
    let actions = Solver::search(&g.data, &g.state).unwrap();
    assert_eq!(actions, vec![0, 0, 0, 1, 1, 1]);
    assert_eq!(Solver::solve(g), names(&["red", "red", "red", "blue", "blue", "blue"]));
}

#[test]
fn the_solution_replays_to_a_won_placement() {
    for g in [two_lanes(), corner()] {
        let actions = Solver::search(&g.data, &g.state).unwrap();
        let end = play(&g, &actions).unwrap();
        assert!(g.data.won(&end));
        let mut state = g.state.clone();
        for &color in &actions {
            state = g.data.action(&state, color);
        }
        assert_eq!(state, end);
    }
}

#[test]
fn no_shorter_solution_exists() {
    for g in [two_lanes(), corner()] {
        let actions = Solver::search(&g.data, &g.state).unwrap();
        assert_eq!(shortest_by_brute_force(&g, 6), Some(actions.len()));
    }
}

#[test]
fn solving_twice_gives_the_same_answer() {
    assert_eq!(Solver::solve(corner()), Solver::solve(corner()));
    assert_eq!(Solver::solve(two_lanes()), Solver::solve(two_lanes()));
}

#[test]
fn a_goal_without_square_of_its_colour_has_no_solution() {
    let g = game(&["red", "blue"], vec![sq(0, 0, 0, Dir::Right)], vec![goal(1, 0, 1)], Vec::new());
    assert_eq!(Solver::solve(g), None);
}

#[test]
fn a_goal_behind_the_square_has_no_solution() {
    let g = game(
        &["red", "blue"],
        vec![sq(100, 0, 0, Dir::Right), sq(0, 120, 1, Dir::Down)],
        vec![goal(99, 0, 0), goal(0, 121, 1)],
        Vec::new(),
    );
    assert_eq!(Solver::solve(g), None);
}

#[test]
fn a_puzzle_without_squares_has_no_solution() {
    let g = game(&["red"], Vec::new(), vec![goal(1, 0, 0)], Vec::new());
    assert_eq!(Solver::solve(g), None);
    let g = game(&[], Vec::new(), Vec::new(), Vec::new());
    assert_eq!(Solver::solve(g), None);
}

#[test]
fn a_square_without_name_is_never_nudged() {
    let g = game(&["red"], vec![sq(0, 0, 1, Dir::Right)], vec![goal(1, 0, 1)], Vec::new());
    assert_eq!(Solver::solve(g), None);
}

#[test]
fn a_puzzle_that_starts_solved_still_takes_a_nudge() {
    let g = game(
        &["red"],
        vec![sq(0, 0, 0, Dir::Right)],
        vec![goal(0, 0, 0)],
        vec![turn(1, 0, Dir::Left)],
    );
    assert_eq!(Solver::solve(g), names(&["red", "red"]));
}

#[test]
fn equal_placements_may_list_their_squares_in_any_order() {
    let a = State { squares: vec![sq(0, 0, 0, Dir::Up), sq(1, 0, 1, Dir::Up)] };
    let b = State { squares: vec![sq(1, 0, 1, Dir::Up), sq(0, 0, 0, Dir::Up)] };
    assert_eq!(a, b);
    assert_eq!(a, a.clone());
    let c = State { squares: vec![sq(1, 0, 1, Dir::Up), sq(0, 0, 0, Dir::Down)] };
    assert_ne!(a, c);
    let twice = State { squares: vec![sq(0, 0, 0, Dir::Up), sq(0, 0, 0, Dir::Up), sq(1, 0, 1, Dir::Up)] };
    let other_twice = State { squares: vec![sq(0, 0, 0, Dir::Up), sq(1, 0, 1, Dir::Up), sq(1, 0, 1, Dir::Up)] };
    assert_ne!(twice, other_twice);
    assert_ne!(a, twice);
    assert_eq!(State { squares: Vec::new() }, State::default());
}

#[test]
fn a_wide_search_comes_to_an_end() {
    // Two squares that can only run to the edge: every placement is met once.
    let g = game(
        &["red", "blue"],
        vec![sq(-128, 0, 0, Dir::Right), sq(0, -128, 1, Dir::Down)],
        vec![goal(3, 3, 0)],
        Vec::new(),
    );
    assert_eq!(Solver::solve(g), None);
}

#[test]
fn three_squares_that_block_each_other() {
    let g = game(
        &["red", "blue", "green"],
        vec![sq(0, 0, 0, Dir::Right), sq(2, 0, 1, Dir::Left), sq(1, 2, 2, Dir::Up)],
        vec![goal(3, 0, 0), goal(-1, 0, 1), goal(1, -2, 2)],
        Vec::new(),
    );
    let actions = Solver::search(&g.data, &g.state).unwrap();
    let end = play(&g, &actions).unwrap();
    assert!(g.data.won(&end));
    assert_eq!(shortest_by_brute_force(&g, 9), Some(actions.len()));
}

#[test]
fn the_set_of_placements_remembers_what_it_was_given() {
    let mut set = Visited::new();
    let a = State { squares: vec![sq(0, 0, 0, Dir::Up), sq(1, 0, 1, Dir::Up)] };
    let b = State { squares: vec![sq(0, 1, 0, Dir::Up), sq(1, 0, 1, Dir::Up)] };
    let a_turned = State { squares: vec![sq(0, 0, 0, Dir::Down), sq(1, 0, 1, Dir::Up)] };
    assert!(!set.contains(&a));
    set.insert(a.clone());
    assert!(set.contains(&a));
    assert!(!set.contains(&b));
    assert!(!set.contains(&a_turned));
    set.insert(b.clone());
    assert!(set.contains(&a));
    assert!(set.contains(&b));
    assert!(!set.contains(&State { squares: Vec::new() }));
    set.insert(State { squares: Vec::new() });
    assert!(set.contains(&State { squares: Vec::new() }));
    assert!(!set.contains(&a_turned));
}

#[test]
fn the_set_of_placements_tells_orders_apart() {
    let mut set = Visited::new();
    let a = State { squares: vec![sq(0, 0, 0, Dir::Up), sq(1, 0, 1, Dir::Up)] };
    let swapped = State { squares: vec![sq(1, 0, 1, Dir::Up), sq(0, 0, 0, Dir::Up)] };
    set.insert(a);
    assert!(!set.contains(&swapped));
}

#[test]
fn the_set_of_placements_holds_many() {
    let mut set = Visited::new();
    for x in -128..=127 {
        for y in 0..8 {
            set.insert(State { squares: vec![sq(x, y, 0, Dir::Up)] });
        }
    }
    for x in -128..=127 {
        for y in 0..8 {
            assert!(set.contains(&State { squares: vec![sq(x, y, 0, Dir::Up)] }));
            assert!(!set.contains(&State { squares: vec![sq(x, y, 1, Dir::Up)] }));
            assert!(!set.contains(&State { squares: vec![sq(x, y + 8, 0, Dir::Up)] }));
        }
    }
}
