use gameaboutsquares_solver::render::{all_in_palette, board, cell, cells, color_name, frame, paint, paint_rows, Cell};
use gameaboutsquares_solver::{Dir, GameData, Goal, Pos, Square, State, Turn};

fn sq(x: i8, y: i8, color: i8, dir: Dir) -> Square {
    Square { pos: Pos::new(x, y), color, dir }
}

fn sample() -> (State, GameData) {
    let state = State { squares: vec![sq(0, 0, 0, Dir::Right), sq(2, 1, 1, Dir::Up), sq(1, 1, 2, Dir::Left)] };
    let data = GameData {
        goals: vec![Goal { pos: Pos::new(2, 1), color: 3 }, Goal { pos: Pos::new(-1, 0), color: 0 }],
        turns: vec![
            Turn { pos: Pos::new(1, 1), dir: Dir::Down },
            Turn { pos: Pos::new(1, 2), dir: Dir::Left },
            Turn { pos: Pos::new(2, 1), dir: Dir::Left },
        ],
        color_map: Vec::new(),
    };
    (state, data)
}

#[test]
fn frame_is_the_smallest_rectangle_round_everything() {
    let (state, data) = sample();
    assert_eq!(frame(&state, &data), Some((Pos::new(-1, 0), Pos::new(2, 2))));
}

#[test]
fn frame_of_one_cell() {
    let state = State { squares: vec![sq(4, -3, 0, Dir::Up)] };
    let data = GameData { goals: vec![Goal { pos: Pos::new(4, -3), color: 0 }], turns: Vec::new(), color_map: Vec::new() };
    assert_eq!(frame(&state, &data), Some((Pos::new(4, -3), Pos::new(4, -3))));
}

#[test]
fn nothing_is_drawn_of_an_incomplete_puzzle() {
    let (state, data) = sample();
    let no_goals = GameData { goals: Vec::new(), turns: Vec::new(), color_map: Vec::new() };
    assert_eq!(frame(&state, &no_goals), None);
    assert_eq!(board(&state, &no_goals), None);
    let no_squares = State { squares: Vec::new() };
    assert_eq!(frame(&no_squares, &data), None);
    assert_eq!(board(&no_squares, &data), None);
}

#[test]
fn each_kind_of_cell_has_its_sign() {
    let (state, data) = sample();
    let at = |x: i8, y: i8| cell(&state, &data, Pos::new(x, y));
    assert_eq!(at(-1, 0), Cell { symbol: '\u{25CB}', fg: 0, bg: -1 });
    assert_eq!(at(2, 1), Cell { symbol: '\u{25D3}', fg: 1, bg: 3 });
    assert_eq!(at(1, 1), Cell { symbol: '\u{25BC}', fg: 2, bg: -1 });
    assert_eq!(at(1, 2), Cell { symbol: '\u{25C1}', fg: -1, bg: -1 });
    assert_eq!(at(0, 0), Cell { symbol: '\u{25E8}', fg: 0, bg: -1 });
    assert_eq!(at(0, 1), Cell { symbol: ' ', fg: -1, bg: -1 });
}

#[test]
fn a_square_shows_its_heading() {
    let data = GameData {
        goals: vec![Goal { pos: Pos::new(0, 1), color: 0 }],
        turns: vec![Turn { pos: Pos::new(0, 2), dir: Dir::Up }, Turn { pos: Pos::new(0, 3), dir: Dir::Right }],
        color_map: Vec::new(),
    };
    let signs = |dir: Dir, y: i8| cell(&State { squares: vec![sq(0, y, 5, dir)] }, &data, Pos::new(0, y)).symbol;
    assert_eq!(
        [signs(Dir::Up, 0), signs(Dir::Down, 0), signs(Dir::Left, 0), signs(Dir::Right, 0)],
        ['\u{2B12}', '\u{2B13}', '\u{25E7}', '\u{25E8}']
    );
    assert_eq!(
        [signs(Dir::Up, 1), signs(Dir::Down, 1), signs(Dir::Left, 1), signs(Dir::Right, 1)],
        ['\u{25D3}', '\u{25D2}', '\u{25D0}', '\u{25D1}']
    );
    assert_eq!(signs(Dir::Left, 2), '\u{25B2}');
    assert_eq!(signs(Dir::Left, 3), '\u{25B6}');
    let empty = State { squares: Vec::new() };
    assert_eq!(cell(&empty, &data, Pos::new(0, 2)).symbol, '\u{25B3}');
    assert_eq!(cell(&empty, &data, Pos::new(0, 3)).symbol, '\u{25B7}');
}

#[test]
fn cells_go_row_by_row_from_the_top_left() {
    let (state, data) = sample();
    let grid = cells(&state, &data, Pos::new(-1, 0), Pos::new(2, 2));
    assert_eq!(grid.len(), 3);
    for (r, row) in grid.iter().enumerate() {
        assert_eq!(row.len(), 4);
        for (c, drawn) in row.iter().enumerate() {
            assert_eq!(*drawn, cell(&state, &data, Pos::new(c as i8 - 1, r as i8)));
        }
    }
    assert_eq!(board(&state, &data), Some(grid));
}

#[test]
fn cells_reach_the_edge_of_the_coordinates() {
    let state = State { squares: vec![sq(127, 127, 0, Dir::Up)] };
    let data = GameData { goals: vec![Goal { pos: Pos::new(126, 126), color: 0 }], turns: Vec::new(), color_map: Vec::new() };
    let grid = board(&state, &data).unwrap();
    assert_eq!(grid.len(), 2);
    assert_eq!(grid[1][1], Cell { symbol: '\u{2B12}', fg: 0, bg: -1 });
    assert_eq!(grid[0][0], Cell { symbol: '\u{25CB}', fg: 0, bg: -1 });
}

#[test]
fn six_colours_can_be_drawn() {
    let names: Vec<&str> = (0..6).map(color_name).collect();
    assert_eq!(names, vec!["red", "green", "blue", "magenta", "cyan", "yellow"]);
    let fine = vec![vec![Cell { symbol: ' ', fg: -1, bg: 5 }], vec![Cell { symbol: ' ', fg: 5, bg: -128 }]];
    assert!(all_in_palette(&fine));
    assert!(!all_in_palette(&vec![vec![Cell { symbol: ' ', fg: 6, bg: -1 }]]));
    assert!(!all_in_palette(&vec![Vec::new(), vec![Cell { symbol: ' ', fg: 0, bg: 0 }, Cell { symbol: ' ', fg: 0, bg: 6 }]]));
}

#[test]
fn without_colours_the_text_is_the_sign() {
    colored::control::set_override(false);
    assert_eq!(paint(Cell { symbol: '\u{25CB}', fg: 0, bg: 3 }), "\u{25CB}");
    let (state, data) = sample();
    let grid = board(&state, &data).unwrap();
    assert!(all_in_palette(&grid));
    assert_eq!(
        paint_rows(&grid),
        vec!["\u{25CB}\u{25E8}  ".to_string(), "  \u{25BC}\u{25D3}".to_string(), "  \u{25C1} ".to_string()]
    );
}

#[test]
fn with_colours_the_sign_stands_between_escapes() {
    colored::control::set_override(true);
    assert_eq!(paint(Cell { symbol: 'x', fg: 0, bg: -1 }), "\u{1b}[31mx\u{1b}[0m");
    assert_eq!(paint(Cell { symbol: 'x', fg: 2, bg: 1 }), "\u{1b}[42;34mx\u{1b}[0m");
    assert_eq!(paint(Cell { symbol: 'x', fg: -1, bg: 5 }), "\u{1b}[43mx\u{1b}[0m");
    assert_eq!(paint(Cell { symbol: 'x', fg: -1, bg: -1 }), "x");
}

#[test]
fn a_line_is_made_of_the_texts_of_its_cells() {
    colored::control::set_override(true);
    let (state, data) = sample();
    let grid = board(&state, &data).unwrap();
    let lines = paint_rows(&grid);
    assert_eq!(lines.len(), grid.len());
    for (line, row) in lines.iter().zip(grid.iter()) {
        let texts: Vec<String> = row.iter().map(|drawn| paint(*drawn)).collect();
        assert_eq!(*line, texts.concat());
    }
    assert_eq!(lines[2], "  \u{25C1} ");
    assert_eq!(lines[0], "\u{1b}[31m\u{25CB}\u{1b}[0m\u{1b}[31m\u{25E8}\u{1b}[0m  ");
}

#[test]
fn a_cell_without_colour_is_its_sign_whatever_the_terminal() {
    let blank = Cell { symbol: '\u{25B3}', fg: -1, bg: -128 };
    colored::control::set_override(true);
    assert_eq!(paint(blank), "\u{25B3}");
    colored::control::set_override(false);
    assert_eq!(paint(blank), "\u{25B3}");
    colored::control::unset_override();
    assert_eq!(paint(blank), "\u{25B3}");
}

#[test]
fn a_coloured_cell_ends_with_the_signs_that_end_colours() {
    colored::control::set_override(true);
    for fg in -1..6 {
        for bg in -1..6 {
            let text = paint(Cell { symbol: '\u{25D3}', fg, bg });
            if fg < 0 && bg < 0 {
                assert_eq!(text, "\u{25D3}");
            } else {
                assert!(text.ends_with("\u{25D3}\u{1b}[0m"), "{:?}", text);
                assert!(text.starts_with("\u{1b}["), "{:?}", text);
            }
        }
    }
}
