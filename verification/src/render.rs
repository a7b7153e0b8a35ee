//! The board as text: which sign stands on which cell, in which colours.

use colored::{Color, ColoredString, Colorize};
use vstd::prelude::*;
use vstd::string::StringExecFns;
use crate::chain::find_turn;
use crate::elements::{Dir, GameData, Goal, Pos, Square, State, Turn};

verus! {

/// What is drawn on one cell: a sign, the number of the colour it is drawn
/// in and the number of the colour behind it. A negative number stands for no
/// colour.
#[derive(Copy, Clone, Debug, PartialEq, Eq, Structural)]
pub struct Cell {
    pub symbol: char,
    pub fg: i8,
    pub bg: i8,
}

/// The first goal tile at `p` among `goals[from..]`.
pub open spec fn find_goal(goals: Seq<Goal>, p: Pos, from: int) -> Option<Goal>
    decreases goals.len() - from,
{
    if from < 0 || from >= goals.len() {
        None
    } else if goals[from].pos == p {
        Some(goals[from])
    } else {
        find_goal(goals, p, from + 1)
    }
}

/// The first square at `p` among `squares[from..]`.
pub open spec fn find_square(squares: Seq<Square>, p: Pos, from: int) -> Option<Square>
    decreases squares.len() - from,
{
    if from < 0 || from >= squares.len() {
        None
    } else if squares[from].pos == p {
        Some(squares[from])
    } else {
        find_square(squares, p, from + 1)
    }
}

/// The sign of a square on a goal tile.
pub open spec fn square_on_goal(heading: Dir) -> char {
    match heading {
        Dir::Up => '\u{25D3}',
        Dir::Down => '\u{25D2}',
        Dir::Left => '\u{25D0}',
        Dir::Right => '\u{25D1}',
    }
}

/// The sign of a turn tile under a square.
pub open spec fn covered_turn(tile: Dir) -> char {
    match tile {
        Dir::Up => '\u{25B2}',
        Dir::Down => '\u{25BC}',
        Dir::Left => '\u{25C0}',
        Dir::Right => '\u{25B6}',
    }
}

/// The sign of a turn tile with nothing on it.
pub open spec fn free_turn(tile: Dir) -> char {
    match tile {
        Dir::Up => '\u{25B3}',
        Dir::Down => '\u{25BD}',
        Dir::Left => '\u{25C1}',
        Dir::Right => '\u{25B7}',
    }
}

/// The sign of a square on a cell without tile.
pub open spec fn plain_square(heading: Dir) -> char {
    match heading {
        Dir::Up => '\u{2B12}',
        Dir::Down => '\u{2B13}',
        Dir::Left => '\u{25E7}',
        Dir::Right => '\u{25E8}',
    }
}

/// What is drawn on the cell `p`. A goal tile shows as a ring in its colour,
/// or as the square on it, in the square's colour before the goal's; a turn
/// tile shows as a triangle, filled and in the square's colour if a square
/// stands on it; a square elsewhere shows in its colour; an empty cell is
/// blank. Of several things of one kind on a cell the first counts.
pub open spec fn cell_at(squares: Seq<Square>, goals: Seq<Goal>, turns: Seq<Turn>, p: Pos) -> Cell {
    match (find_goal(goals, p, 0), find_turn(turns, p, 0), find_square(squares, p, 0)) {
        (Some(goal), _, None) => Cell { symbol: '\u{25CB}', fg: goal.color, bg: -1i8 },
        (Some(goal), _, Some(sq)) => Cell {
            symbol: square_on_goal(sq.dir),
            fg: sq.color,
            bg: goal.color,
        },
        (None, Some(tile), Some(sq)) => Cell { symbol: covered_turn(tile), fg: sq.color, bg: -1i8 },
        (None, Some(tile), None) => Cell { symbol: free_turn(tile), fg: -1i8, bg: -1i8 },
        (None, None, Some(sq)) => Cell { symbol: plain_square(sq.dir), fg: sq.color, bg: -1i8 },
        (None, None, None) => Cell { symbol: ' ', fg: -1i8, bg: -1i8 },
    }
}

fn goal_at(goals: &Vec<Goal>, p: Pos) -> (found: Option<Goal>)
    ensures
        found == find_goal(goals@, p, 0),
{
    let mut i: usize = 0;
    while i < goals.len()
        invariant
            i <= goals.len(),
            find_goal(goals@, p, 0) == find_goal(goals@, p, i as int),
        decreases goals.len() - i,
    {
        if goals[i].pos == p {
            return Some(goals[i]);
        }
        i += 1;
    }
    None
}

fn square_at(squares: &Vec<Square>, p: Pos) -> (found: Option<Square>)
    ensures
        found == find_square(squares@, p, 0),
{
    let mut i: usize = 0;
    while i < squares.len()
        invariant
            i <= squares.len(),
            find_square(squares@, p, 0) == find_square(squares@, p, i as int),
        decreases squares.len() - i,
    {
        if squares[i].pos == p {
            return Some(squares[i]);
        }
        i += 1;
    }
    None
}

/// What is drawn on the cell `p`.
pub fn cell(state: &State, data: &GameData, p: Pos) -> (drawn: Cell)
    ensures
        drawn == cell_at(state@, data.goals@, data.turns@, p),
{
    let is_turn = data.turn_at(p);
    let is_goal = goal_at(&data.goals, p);
    let is_square = square_at(&state.squares, p);
    if let Some(goal) = is_goal {
        match is_square {
            None => Cell { symbol: '\u{25CB}', fg: goal.color, bg: -1i8 },
            Some(sq) => {
                let symbol = match sq.dir {
                    Dir::Up => '\u{25D3}',
                    Dir::Down => '\u{25D2}',
                    Dir::Left => '\u{25D0}',
                    Dir::Right => '\u{25D1}',
                };
                Cell { symbol, fg: sq.color, bg: goal.color }
            },
        }
    } else if let Some(tile) = is_turn {
        if let Some(sq) = is_square {
            let symbol = match tile {
                Dir::Up => '\u{25B2}',
                Dir::Down => '\u{25BC}',
                Dir::Left => '\u{25C0}',
                Dir::Right => '\u{25B6}',
            };
            Cell { symbol, fg: sq.color, bg: -1i8 }
        } else {
            let symbol = match tile {
                Dir::Up => '\u{25B3}',
                Dir::Down => '\u{25BD}',
                Dir::Left => '\u{25C1}',
                Dir::Right => '\u{25B7}',
            };
            Cell { symbol, fg: -1, bg: -1i8 }
        }
    } else {
        match is_square {
            None => Cell { symbol: ' ', fg: -1, bg: -1i8 },
            Some(sq) => {
                let symbol = match sq.dir {
                    Dir::Up => '\u{2B12}',
                    Dir::Down => '\u{2B13}',
                    Dir::Left => '\u{25E7}',
                    Dir::Right => '\u{25E8}',
                };
                Cell { symbol, fg: sq.color, bg: -1i8 }
            },
        }
    }
}

/// The cells of every square, goal tile and turn tile, in that order.
pub open spec fn positions(squares: Seq<Square>, goals: Seq<Goal>, turns: Seq<Turn>) -> Seq<Pos> {
    Seq::new(squares.len(), |i: int| squares[i].pos) + Seq::new(goals.len(), |i: int| goals[i].pos)
        + Seq::new(turns.len(), |i: int| turns[i].pos)
}

/// Whether the rectangle from `tl`, top left, to `br`, bottom right, is the
/// smallest that holds all of `points`.
pub open spec fn frames(points: Seq<Pos>, tl: Pos, br: Pos) -> bool {
    &&& forall|i: int|
        0 <= i < points.len() ==> tl.x <= (#[trigger] points[i]).x <= br.x && tl.y <= points[i].y
            <= br.y
    &&& exists|i: int| 0 <= i < points.len() && (#[trigger] points[i]).x == tl.x
    &&& exists|i: int| 0 <= i < points.len() && (#[trigger] points[i]).y == tl.y
    &&& exists|i: int| 0 <= i < points.len() && (#[trigger] points[i]).x == br.x
    &&& exists|i: int| 0 <= i < points.len() && (#[trigger] points[i]).y == br.y
}

/// Whether `grid` shows the cells from `tl` to `br`, row by row from the top,
/// each row from the left.
pub open spec fn shows(
    grid: Seq<Vec<Cell>>,
    squares: Seq<Square>,
    goals: Seq<Goal>,
    turns: Seq<Turn>,
    tl: Pos,
    br: Pos,
) -> bool {
    &&& grid.len() == br.y - tl.y + 1
    &&& forall|r: int| 0 <= r < grid.len() ==> (#[trigger] grid[r])@.len() == br.x - tl.x + 1
    &&& forall|r: int, c: int|
        0 <= r < grid.len() && 0 <= c < grid[r]@.len() ==> #[trigger] grid[r]@[c] == cell_at(
            squares,
            goals,
            turns,
            Pos { x: (tl.x + c) as i8, y: (tl.y + r) as i8 },
        )
}

/// Whether the colours of `cell` are among the six that can be drawn, or
/// none.
pub open spec fn in_palette(cell: Cell) -> bool {
    cell.fg < 6 && cell.bg < 6
}

fn all_positions(state: &State, data: &GameData) -> (points: Vec<Pos>)
    ensures
        points@ == positions(state@, data.goals@, data.turns@),
{
    let mut points: Vec<Pos> = Vec::new();
    let mut i: usize = 0;
    while i < state.squares.len()
        invariant
            i <= state.squares.len(),
            points@ == Seq::new(i as nat, |k: int| state@[k].pos),
        decreases state.squares.len() - i,
    {
        points.push(state.squares[i].pos);
        assert(points@ =~= Seq::new((i + 1) as nat, |k: int| state@[k].pos));
        i += 1;
    }
    let ghost first = points@;
    i = 0;
    while i < data.goals.len()
        invariant
            i <= data.goals.len(),
            points@ == first + Seq::new(i as nat, |k: int| data.goals@[k].pos),
        decreases data.goals.len() - i,
    {
        points.push(data.goals[i].pos);
        assert(points@ =~= first + Seq::new((i + 1) as nat, |k: int| data.goals@[k].pos));
        i += 1;
    }
    let ghost second = points@;
    i = 0;
    while i < data.turns.len()
        invariant
            i <= data.turns.len(),
            points@ == second + Seq::new(i as nat, |k: int| data.turns@[k].pos),
        decreases data.turns.len() - i,
    {
        points.push(data.turns[i].pos);
        assert(points@ =~= second + Seq::new((i + 1) as nat, |k: int| data.turns@[k].pos));
        i += 1;
    }
    points
}

/// The smallest rectangle that holds every square, goal tile and turn tile:
/// its top left and bottom right cells. `None` for a puzzle without squares
/// or without goal tiles, of which there is nothing to draw.
pub fn frame(state: &State, data: &GameData) -> (corners: Option<(Pos, Pos)>)
    ensures
        corners.is_some() == (state@.len() > 0 && data.goals@.len() > 0),
        match corners {
            Some((tl, br)) => frames(positions(state@, data.goals@, data.turns@), tl, br),
            None => true,
        },
{
    if state.squares.len() == 0 || data.goals.len() == 0 {
        return None;
    }
    let points = all_positions(state, data);
    let mut tl = points[0];
    let mut br = tl;
    let mut i: usize = 1;
    assert(points@.subrange(0, 1)[0] == tl);
    while i < points.len()
        invariant
            1 <= i <= points.len(),
            frames(points@.subrange(0, i as int), tl, br),
        decreases points.len() - i,
    {
        let p = points[i];
        let ghost seen = points@.subrange(0, i as int);
        let ghost more = points@.subrange(0, i + 1);
        let ghost left = choose|k: int| 0 <= k < seen.len() && (#[trigger] seen[k]).x == tl.x;
        let ghost top = choose|k: int| 0 <= k < seen.len() && (#[trigger] seen[k]).y == tl.y;
        let ghost right = choose|k: int| 0 <= k < seen.len() && (#[trigger] seen[k]).x == br.x;
        let ghost bottom = choose|k: int| 0 <= k < seen.len() && (#[trigger] seen[k]).y == br.y;
        let ghost mut at_left = left;
        let ghost mut at_top = top;
        let ghost mut at_right = right;
        let ghost mut at_bottom = bottom;
        if p.x < tl.x {
            tl.x = p.x;
            proof {
                at_left = i as int;
            }
        }
        if p.y < tl.y {
            tl.y = p.y;
            proof {
                at_top = i as int;
            }
        }
        if p.x > br.x {
            br.x = p.x;
            proof {
                at_right = i as int;
            }
        }
        if p.y > br.y {
            br.y = p.y;
            proof {
                at_bottom = i as int;
            }
        }
        proof {
            assert forall|k: int| 0 <= k < more.len() implies tl.x <= (#[trigger] more[k]).x <= br.x
                && tl.y <= more[k].y <= br.y by {
                if k < i {
                    assert(more[k] == seen[k]);
                }
            }
            assert(more[at_left].x == tl.x);
            assert(more[at_top].y == tl.y);
            assert(more[at_right].x == br.x);
            assert(more[at_bottom].y == br.y);
        }
        i += 1;
    }
    assert(points@.subrange(0, i as int) =~= points@);
    Some((tl, br))
}

/// What is drawn on each cell of the rectangle from `tl` to `br`.
pub fn cells(state: &State, data: &GameData, tl: Pos, br: Pos) -> (grid: Vec<Vec<Cell>>)
    requires
        tl.x <= br.x,
        tl.y <= br.y,
    ensures
        shows(grid@, state@, data.goals@, data.turns@, tl, br),
{
    let mut grid: Vec<Vec<Cell>> = Vec::new();
    let mut y: i16 = tl.y as i16;
    while y <= br.y as i16
        invariant
            tl.x <= br.x,
            tl.y <= y <= br.y + 1,
            grid@.len() == y - tl.y,
            forall|r: int| 0 <= r < grid@.len() ==> (#[trigger] grid@[r])@.len() == br.x - tl.x + 1,
            forall|r: int, c: int|
                0 <= r < grid@.len() && 0 <= c < grid@[r]@.len() ==> #[trigger] grid@[r]@[c]
                    == cell_at(
                    state@,
                    data.goals@,
                    data.turns@,
                    Pos { x: (tl.x + c) as i8, y: (tl.y + r) as i8 },
                ),
        decreases br.y + 1 - y,
    {
        let mut row: Vec<Cell> = Vec::new();
        let mut x: i16 = tl.x as i16;
        while x <= br.x as i16
            invariant
                tl.x <= x <= br.x + 1,
                tl.y <= y <= br.y,
                row@.len() == x - tl.x,
                forall|c: int|
                    0 <= c < row@.len() ==> #[trigger] row@[c] == cell_at(
                        state@,
                        data.goals@,
                        data.turns@,
                        Pos { x: (tl.x + c) as i8, y: y as i8 },
                    ),
            decreases br.x + 1 - x,
        {
            row.push(cell(state, data, Pos::new(x as i8, y as i8)));
            x += 1;
        }
        grid.push(row);
        y += 1;
    }
    grid
}

/// What is drawn of the puzzle: the cells of the smallest rectangle that
/// holds every square and tile, row by row. `None` for a puzzle without
/// squares or without goal tiles.
pub fn board(state: &State, data: &GameData) -> (drawn: Option<Vec<Vec<Cell>>>)
    ensures
        drawn.is_some() == (state@.len() > 0 && data.goals@.len() > 0),
        match drawn {
            Some(grid) => exists|tl: Pos, br: Pos|
                frames(positions(state@, data.goals@, data.turns@), tl, br) && shows(
                    grid@,
                    state@,
                    data.goals@,
                    data.turns@,
                    tl,
                    br,
                ),
            None => true,
        },
{
    match frame(state, data) {
        None => None,
        Some((tl, br)) => {
            assert(positions(state@, data.goals@, data.turns@)[0] == state@[0].pos);
            Some(cells(state, data, tl, br))
        },
    }
}

/// Whether every cell of `grid` has colours that can be drawn.
pub fn all_in_palette(grid: &Vec<Vec<Cell>>) -> (ok: bool)
    ensures
        ok == forall|r: int, c: int|
            0 <= r < grid@.len() && 0 <= c < grid@[r]@.len() ==> in_palette(#[trigger] grid@[r]@[c]),
{
    let mut r: usize = 0;
    while r < grid.len()
        invariant
            r <= grid.len(),
            forall|i: int, c: int|
                0 <= i < r && 0 <= c < grid@[i]@.len() ==> in_palette(#[trigger] grid@[i]@[c]),
        decreases grid.len() - r,
    {
        let mut c: usize = 0;
        while c < grid[r].len()
            invariant
                r < grid.len(),
                c <= grid@[r as int]@.len(),
                forall|j: int| 0 <= j < c ==> in_palette(#[trigger] grid@[r as int]@[j]),
            decreases grid@[r as int]@.len() - c,
        {
            if grid[r][c].fg >= 6 || grid[r][c].bg >= 6 {
                assert(!in_palette(grid@[r as int]@[c as int]));
                return false;
            }
            c += 1;
        }
        r += 1;
    }
    true
}

/// The name under which colour number `color` is drawn.
pub fn color_name(color: i8) -> (name: &'static str)
    requires
        0 <= color < 6,
    ensures
        name@ == match color {
            0 => "red"@,
            1 => "green"@,
            2 => "blue"@,
            3 => "magenta"@,
            4 => "cyan"@,
            _ => "yellow"@,
        },
{
    match color {
        0 => "red",
        1 => "green",
        2 => "blue",
        3 => "magenta",
        4 => "cyan",
        _ => "yellow",
    }
}

/// `colored::ColoredString`: a text with the colours to show it in.
#[verifier::external_type_specification]
#[verifier::external_body]
pub struct ExColoredString(ColoredString);

/// `colored::Color`: a colour of the terminal.
#[verifier::external_type_specification]
#[verifier::external_body]
pub struct ExColor(Color);

/// The text that a `ColoredString` holds, without any colour.
pub uninterp spec fn text_of(text: ColoredString) -> Seq<char>;

/// Whether a `ColoredString` has a colour or a style to show its text in.
pub uninterp spec fn styled(text: ColoredString) -> bool;

/// The signs that end a coloured text on a terminal.
pub open spec fn reset() -> Seq<char> {
    seq!['\u{1b}', '[', '0', 'm']
}

/// Whether `text` draws `cell`: it is the cell's sign alone, or the sign with
/// signs before it that set colours and the signs behind it that end them. It
/// is the sign alone if the cell has no colour.
pub open spec fn draws(text: Seq<char>, cell: Cell) -> bool {
    &&& cell.fg < 0 && cell.bg < 0 ==> text == seq![cell.symbol]
    &&& text == seq![cell.symbol] || exists|before: Seq<char>|
        text == before + seq![cell.symbol] + reset()
}

/// The texts one after the other.
pub open spec fn joined(texts: Seq<Seq<char>>) -> Seq<char>
    decreases texts.len(),
{
    if texts.len() == 0 {
        Seq::empty()
    } else {
        joined(texts.drop_last()) + texts.last()
    }
}

/// Whether `line` draws the cells of `row` from left to right: it is made of
/// one text for each cell, which draws the cell.
pub open spec fn draws_row(line: Seq<char>, row: Seq<Cell>) -> bool {
    exists|texts: Seq<Seq<char>>|
        #![trigger joined(texts)]
        texts.len() == row.len() && line == joined(texts) && forall|c: int|
            0 <= c < row.len() ==> draws(#[trigger] texts[c], row[c])
}

/// `ColoredString::from` of the text that holds `symbol` alone: that text,
/// with no colour and no style.
#[verifier::external_body]
fn uncolored(symbol: char) -> (text: ColoredString)
    ensures
        text_of(text) == seq![symbol],
        !styled(text),
{
    ColoredString::from(symbol.to_string().as_str())
}

/// `Color::from` of a colour's name. The result cannot be looked into, so
/// nothing is claimed of it.
#[verifier::external_body]
fn terminal_color(name: &str) -> Color {
    Color::from(name)
}

/// `Colorize::on_color`: the same text, now with a colour behind it.
#[verifier::external_body]
fn on_color(text: ColoredString, color: Color) -> (colored: ColoredString)
    ensures
        text_of(colored) == text_of(text),
        styled(colored),
{
    text.on_color(color)
}

/// `Colorize::color`: the same text, now with a colour to show it in.
#[verifier::external_body]
fn in_color(text: ColoredString, color: Color) -> (colored: ColoredString)
    ensures
        text_of(colored) == text_of(text),
        styled(colored),
{
    text.color(color)
}

/// `to_string` of a `ColoredString`. A text without colour or style comes out
/// as it is. Whether the colours of another show depends on the terminal and
/// on what the user has set: it comes out as it is, or between signs that set
/// the colours and the signs that end them. The latter is claimed only of a
/// text too short to hold the ending signs itself, which would be repeated
/// with signs added.
#[verifier::external_body]
fn shown(text: &ColoredString) -> (plain: String)
    ensures
        !styled(*text) ==> plain@ == text_of(*text),
        text_of(*text).len() < 4 ==> plain@ == text_of(*text) || exists|before: Seq<char>|
            plain@ == before + text_of(*text) + reset(),
{
    text.to_string()
}

/// The text that draws `cell`: its sign, before its background if it has
/// one, in its colour if it has one.
pub fn paint(cell: Cell) -> (text: String)
    requires
        in_palette(cell),
    ensures
        draws(text@, cell),
{
    let mut formatted = uncolored(cell.symbol);
    if cell.bg >= 0 {
        formatted = on_color(formatted, terminal_color(color_name(cell.bg)));
    }
    if cell.fg >= 0 {
        formatted = in_color(formatted, terminal_color(color_name(cell.fg)));
    }
    shown(&formatted)
}

/// The lines that draw `grid`: one for each row, made of the texts of its
/// cells from left to right.
pub fn paint_rows(grid: &Vec<Vec<Cell>>) -> (lines: Vec<String>)
    requires
        forall|r: int, c: int|
            0 <= r < grid@.len() && 0 <= c < grid@[r]@.len() ==> in_palette(#[trigger] grid@[r]@[c]),
    ensures
        lines@.len() == grid@.len(),
        forall|r: int| 0 <= r < grid@.len() ==> draws_row((#[trigger] lines@[r])@, grid@[r]@),
{
    let mut lines: Vec<String> = Vec::new();
    let mut r: usize = 0;
    while r < grid.len()
        invariant
            r <= grid.len(),
            lines@.len() == r,
            forall|i: int| 0 <= i < r ==> draws_row((#[trigger] lines@[i])@, grid@[i]@),
            forall|r: int, c: int|
                0 <= r < grid@.len() && 0 <= c < grid@[r]@.len() ==> in_palette(
                    #[trigger] grid@[r]@[c],
                ),
        decreases grid.len() - r,
    {
        let mut line = String::new();
        let ghost mut texts: Seq<Seq<char>> = Seq::empty();
        let mut c: usize = 0;
        while c < grid[r].len()
            invariant
                r < grid.len(),
                c <= grid@[r as int]@.len(),
                texts.len() == c,
                line@ == joined(texts),
                forall|j: int| 0 <= j < c ==> draws(#[trigger] texts[j], grid@[r as int]@[j]),
                forall|r: int, c: int|
                    0 <= r < grid@.len() && 0 <= c < grid@[r]@.len() ==> in_palette(
                        #[trigger] grid@[r]@[c],
                    ),
            decreases grid@[r as int]@.len() - c,
        {
            let text = paint(grid[r][c]);
            line.append(text.as_str());
            proof {
                assert(texts.push(text@).drop_last() =~= texts);
                texts = texts.push(text@);
            }
            c += 1;
        }
        lines.push(line);
        r += 1;
    }
    lines
}

} // verus!
