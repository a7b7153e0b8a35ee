use gameaboutsquares_solver::{to_color, to_dir, to_pos, Dir, Game, Goal, Pos, Square, SquaresParser, Turn};

#[test]
fn colours_are_numbered_in_the_order_they_come() {
    let mut names: Vec<String> = Vec::new();
    assert_eq!(to_color("red", &mut names), 0);
    assert_eq!(to_color("blue", &mut names), 1);
    assert_eq!(to_color("red", &mut names), 0);
    assert_eq!(to_color("green", &mut names), 2);
    assert_eq!(to_color("blue", &mut names), 1);
    assert_eq!(names, vec!["red".to_string(), "blue".to_string(), "green".to_string()]);
}

#[test]
fn the_first_of_two_equal_names_gives_the_number() {
    let mut names = vec!["a".to_string(), "b".to_string(), "b".to_string()];
    assert_eq!(to_color("b", &mut names), 1);
    assert_eq!(names.len(), 3);
}

#[test]
fn the_last_number_is_127() {
    let mut names: Vec<String> = (0..127).map(|i| format!("c{}", i)).collect();
    assert_eq!(to_color("last", &mut names), 127);
    assert_eq!(names.len(), 128);
    assert_eq!(to_color("c126", &mut names), 126);
    assert_eq!(to_color("last", &mut names), 127);
}

#[test]
fn each_sign_has_its_heading() {
    assert_eq!(to_dir("^"), Dir::Up);
    assert_eq!(to_dir("v"), Dir::Down);
    assert_eq!(to_dir("<"), Dir::Left);
    assert_eq!(to_dir(">"), Dir::Right);
    assert_eq!(to_dir(">>"), Dir::Right);
    assert_eq!(to_dir("^v"), Dir::Up);
}

#[test]
fn coordinates_are_read_as_numbers() {
    assert_eq!(to_pos("3", "-4"), Pos::new(3, -4));
    assert_eq!(to_pos("-128", "127"), Pos::new(-128, 127));
    assert_eq!(to_pos("+7", "007"), Pos::new(7, 7));
}

#[test]
fn elements_are_added_in_order() {
    let mut game = Game::default();
    assert!(SquaresParser::goal(&mut game, "blue", "2", "0"));
    assert!(SquaresParser::square(&mut game, "red", "0", "0", ">"));
    assert!(SquaresParser::turn(&mut game, "v", "1", "0"));
    assert!(SquaresParser::square(&mut game, "blue", "0", "-1", "v"));
    assert!(SquaresParser::goal(&mut game, "red", "1", "1"));
    assert_eq!(game.data.color_map, vec!["blue".to_string(), "red".to_string()]);
    assert_eq!(
        game.state.squares,
        vec![
            Square { pos: Pos::new(0, 0), color: 1, dir: Dir::Right },
            Square { pos: Pos::new(0, -1), color: 0, dir: Dir::Down },
        ]
    );
    assert_eq!(
        game.data.goals,
        vec![Goal { pos: Pos::new(2, 0), color: 0 }, Goal { pos: Pos::new(1, 1), color: 1 }]
    );
    assert_eq!(game.data.turns, vec![Turn { pos: Pos::new(1, 0), dir: Dir::Down }]);
}

#[test]
fn a_malformed_element_changes_nothing() {
    let mut game = Game::default();
    assert!(SquaresParser::square(&mut game, "red", "0", "0", ">"));
    assert!(!SquaresParser::square(&mut game, "blue", "128", "0", ">"));
    assert!(!SquaresParser::square(&mut game, "blue", "0", "x", ">"));
    assert!(!SquaresParser::square(&mut game, "blue", "0", "0", ""));
    assert!(!SquaresParser::square(&mut game, "blue", "0", "0", "u"));
    assert!(!SquaresParser::goal(&mut game, "blue", "", "0"));
    assert!(!SquaresParser::goal(&mut game, "blue", "1", " 2"));
    assert!(!SquaresParser::turn(&mut game, "v", "1", "-129"));
    assert!(!SquaresParser::turn(&mut game, "V", "1", "1"));
    assert_eq!(game.data.color_map, vec!["red".to_string()]);
    assert_eq!(game.state.squares.len(), 1);
    assert!(game.data.goals.is_empty());
    assert!(game.data.turns.is_empty());
}

#[test]
fn the_table_takes_128_colours() {
    let mut game = Game::default();
    for i in 0..128 {
        assert!(SquaresParser::goal(&mut game, &format!("c{}", i), "0", "0"));
    }
    assert!(!SquaresParser::goal(&mut game, "one more", "0", "0"));
    assert!(!SquaresParser::square(&mut game, "one more", "0", "0", "^"));
    assert!(SquaresParser::square(&mut game, "c127", "0", "0", "^"));
    assert_eq!(game.state.squares[0].color, 127);
    assert_eq!(game.data.color_map.len(), 128);
}

#[test]
fn a_game_starts_empty() {
    let game = Game::default();
    assert!(game.state.squares.is_empty());
    assert!(game.data.goals.is_empty());
    assert!(game.data.turns.is_empty());
    assert!(game.data.color_map.is_empty());
}

#[test]
fn numbers_may_have_a_sign_and_leading_zeros() {
    assert_eq!(to_pos("-0", "+0"), Pos::new(0, 0));
    assert_eq!(to_pos("00127", "-00128"), Pos::new(127, -128));
    assert_eq!(to_pos("+127", "-1"), Pos::new(127, -1));
    assert_eq!(to_pos("9", "10"), Pos::new(9, 10));
}

#[test]
fn what_is_no_number_of_the_type_is_refused() {
    let mut game = Game::default();
    for text in [
        "", "+", "-", "128", "-129", "0128", "99999999999999999999", "1a", "a1", "+-1", "--1",
        "1+", "1 ", " 1", "1_0", "1.0", "0x10", "\u{0661}\u{0662}", "\u{ff11}",
    ] {
        assert!(!SquaresParser::turn(&mut game, "^", text, "0"), "{:?}", text);
        assert!(!SquaresParser::turn(&mut game, "^", "0", text), "{:?}", text);
    }
    assert!(game.data.turns.is_empty());
    for text in ["0", "-0", "+0", "127", "-128", "000", "+099"] {
        assert!(SquaresParser::turn(&mut game, "^", text, text), "{:?}", text);
    }
    assert_eq!(game.data.turns.len(), 7);
    assert_eq!(game.data.turns[6].pos, Pos::new(99, 99));
}
