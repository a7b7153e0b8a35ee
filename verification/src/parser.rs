//! From the texts of a puzzle's description to the puzzle: colour names,
//! headings, coordinates, and the three kinds of element.

use vstd::prelude::*;
use vstd::string::{StrSliceExecFns, StringExecFns};
use crate::elements::{Dir, Game, Goal, Pos, Square, Turn};

verus! {

pub struct SquaresParser;

/// The place of the first name equal to `color` among `names[from..]`.
pub open spec fn find_name(names: Seq<String>, color: Seq<char>, from: int) -> Option<int>
    decreases names.len() - from,
{
    if from < 0 || from >= names.len() {
        None
    } else if names[from]@ == color {
        Some(from)
    } else {
        find_name(names, color, from + 1)
    }
}

/// The number of the colour `color` once it is in the table: its place if the
/// table has it, else the place behind the last.
pub open spec fn number_of(names: Seq<String>, color: Seq<char>) -> int {
    match find_name(names, color, 0) {
        Some(i) => i,
        None => names.len() as int,
    }
}

/// Whether `after` is the table `before` with the colour `color` in it:
/// unchanged if `before` has the name, else with the name added at the end.
pub open spec fn with_name(before: Seq<String>, color: Seq<char>, after: Seq<String>) -> bool {
    match find_name(before, color, 0) {
        Some(_) => after == before,
        None => after.len() == before.len() + 1 && after[before.len() as int]@ == color
            && after.subrange(0, before.len() as int) == before,
    }
}

/// The heading that a sign stands for.
pub open spec fn dir_of(sign: char) -> Option<Dir> {
    if sign == '^' {
        Some(Dir::Up)
    } else if sign == 'v' {
        Some(Dir::Down)
    } else if sign == '<' {
        Some(Dir::Left)
    } else if sign == '>' {
        Some(Dir::Right)
    } else {
        None
    }
}

/// The heading that the first sign of `text` stands for.
pub open spec fn heading_of(text: Seq<char>) -> Option<Dir> {
    if text.len() == 0 {
        None
    } else {
        dir_of(text[0])
    }
}

/// The number that the decimal digits `digits` write.
pub open spec fn digits_value(digits: Seq<char>) -> int
    decreases digits.len(),
{
    if digits.len() == 0 {
        0
    } else {
        10 * digits_value(digits.drop_last()) + (digits.last() as int - '0' as int)
    }
}

/// The number that `text` writes in decimal digits, with or without a sign
/// in front: `None` if something else than a digit follows, or no digit at
/// all.
pub open spec fn decimal(text: Seq<char>) -> Option<int> {
    let signed = text.len() > 0 && (text[0] == '-' || text[0] == '+');
    let digits = if signed {
        text.drop_first()
    } else {
        text
    };
    let all_digits = forall|i: int| 0 <= i < digits.len() ==> '0' <= #[trigger] digits[i] <= '9';
    if digits.len() > 0 && all_digits {
        if text[0] == '-' {
            Some(-digits_value(digits))
        } else {
            Some(digits_value(digits))
        }
    } else {
        None
    }
}

/// The coordinate that `text` writes: a decimal number that the type of the
/// coordinates can hold.
pub open spec fn parsed_i8(text: Seq<char>) -> Option<i8> {
    match decimal(text) {
        Some(value) => if i8::MIN <= value <= i8::MAX {
            Some(value as i8)
        } else {
            None
        },
        None => None,
    }
}

/// The cell whose coordinates the two texts hold.
pub open spec fn pos_of(x: Seq<char>, y: Seq<char>) -> Option<Pos> {
    match (parsed_i8(x), parsed_i8(y)) {
        (Some(x), Some(y)) => Some(Pos { x, y }),
        _ => None,
    }
}

/// `str::parse::<i8>`, with `None` for its error. The text must be decimal
/// digits, with or without one sign in front, and nothing else, and the
/// number must be one that the type holds; then the number is returned, else
/// the error.
#[verifier::external_body]
fn parse_i8(text: &str) -> (value: Option<i8>)
    ensures
        value == parsed_i8(text@),
{
    text.parse::<i8>().ok()
}

fn name_index(names: &Vec<String>, color: &String) -> (found: Option<usize>)
    ensures
        match found {
            Some(i) => i < names.len() && find_name(names@, color@, 0) == Some(i as int),
            None => find_name(names@, color@, 0).is_none(),
        },
{
    let mut i: usize = 0;
    while i < names.len()
        invariant
            i <= names.len(),
            find_name(names@, color@, 0) == find_name(names@, color@, i as int),
        decreases names.len() - i,
    {
        if names[i] == *color {
            return Some(i);
        }
        i += 1;
    }
    None
}

/// The number of the colour named `color`: its place in the table `vec`, to
/// which the name is added if it is new. The number must fit the type.
pub fn to_color(color: &str, vec: &mut Vec<String>) -> (number: i8)
    requires
        number_of(old(vec)@, color@) < 128,
    ensures
        number == number_of(old(vec)@, color@),
        with_name(old(vec)@, color@, final(vec)@),
{
    let name = String::from_str(color);
    if let Some(pos) = name_index(vec, &name) {
        return pos as i8;
    }
    vec.push(name);
    assert(vec@.subrange(0, old(vec)@.len() as int) =~= old(vec)@);
    (vec.len() - 1) as i8
}

/// The heading that the first sign of `dir` stands for: `^`, `v`, `<` or
/// `>`, which it must be.
pub fn to_dir(dir: &str) -> (heading: Dir)
    requires
        heading_of(dir@).is_some(),
    ensures
        heading_of(dir@) == Some(heading),
{
    let c = dir.get_char(0);
    if c == '^' {
        Dir::Up
    } else if c == 'v' {
        Dir::Down
    } else if c == '<' {
        Dir::Left
    } else {
        Dir::Right
    }
}

/// The cell whose coordinates the texts `x` and `y` hold, which must both be
/// numbers of the coordinates' type.
pub fn to_pos(x: &str, y: &str) -> (pos: Pos)
    requires
        pos_of(x@, y@).is_some(),
    ensures
        pos_of(x@, y@) == Some(pos),
{
    let x = parse_i8(x).unwrap();
    let y = parse_i8(y).unwrap();
    Pos::new(x, y)
}

fn is_heading(dir: &str) -> (ok: bool)
    ensures
        ok == heading_of(dir@).is_some(),
{
    if dir.unicode_len() == 0 {
        return false;
    }
    let c = dir.get_char(0);
    c == '^' || c == 'v' || c == '<' || c == '>'
}

fn is_pos(x: &str, y: &str) -> (ok: bool)
    ensures
        ok == pos_of(x@, y@).is_some(),
{
    parse_i8(x).is_some() && parse_i8(y).is_some()
}

fn has_number(color: &str, names: &Vec<String>) -> (ok: bool)
    ensures
        ok == (number_of(names@, color@) < 128),
{
    let name = String::from_str(color);
    match name_index(names, &name) {
        Some(i) => i < 128,
        None => names.len() < 128,
    }
}

impl SquaresParser {
    /// Adds the square that the texts describe, and its colour to the table
    /// if it is new. Where a text does not hold what it should, or the
    /// colour would get no number, nothing is added and the answer is
    /// `false`.
    pub fn square(game: &mut Game, color: &str, x: &str, y: &str, dir: &str) -> (ok: bool)
        ensures
            ok == (number_of(old(game).data.color_map@, color@) < 128 && pos_of(x@, y@).is_some()
                && heading_of(dir@).is_some()),
            ok ==> {
                &&& with_name(old(game).data.color_map@, color@, final(game).data.color_map@)
                &&& final(game).state@ == old(game).state@.push(
                    Square {
                        pos: pos_of(x@, y@).unwrap(),
                        color: number_of(old(game).data.color_map@, color@) as i8,
                        dir: heading_of(dir@).unwrap(),
                    },
                )
                &&& final(game).data.goals@ == old(game).data.goals@
                &&& final(game).data.turns@ == old(game).data.turns@
            },
            !ok ==> *final(game) == *old(game),
    {
        if !has_number(color, &game.data.color_map) || !is_pos(x, y) || !is_heading(dir) {
            return false;
        }
        let color: i8 = to_color(color, &mut game.data.color_map);
        let pos = to_pos(x, y);
        let dir = to_dir(dir);
        game.state.squares.push(Square { color, pos, dir });
        true
    }

    /// Adds the goal tile that the texts describe, and its colour to the
    /// table if it is new. Where a text does not hold what it should, or the
    /// colour would get no number, nothing is added and the answer is
    /// `false`.
    pub fn goal(game: &mut Game, color: &str, x: &str, y: &str) -> (ok: bool)
        ensures
            ok == (number_of(old(game).data.color_map@, color@) < 128 && pos_of(x@, y@).is_some()),
            ok ==> {
                &&& with_name(old(game).data.color_map@, color@, final(game).data.color_map@)
                &&& final(game).data.goals@ == old(game).data.goals@.push(
                    Goal {
                        pos: pos_of(x@, y@).unwrap(),
                        color: number_of(old(game).data.color_map@, color@) as i8,
                    },
                )
                &&& final(game).state@ == old(game).state@
                &&& final(game).data.turns@ == old(game).data.turns@
            },
            !ok ==> *final(game) == *old(game),
    {
        if !has_number(color, &game.data.color_map) || !is_pos(x, y) {
            return false;
        }
        let color: i8 = to_color(color, &mut game.data.color_map);
        let pos = to_pos(x, y);
        game.data.goals.push(Goal { color, pos });
        true
    }

    /// Adds the turn tile that the texts describe. Where a text does not hold
    /// what it should, nothing is added and the answer is `false`.
    pub fn turn(game: &mut Game, dir: &str, x: &str, y: &str) -> (ok: bool)
        ensures
            ok == (pos_of(x@, y@).is_some() && heading_of(dir@).is_some()),
            ok ==> {
                &&& final(game).data.turns@ == old(game).data.turns@.push(
                    Turn { pos: pos_of(x@, y@).unwrap(), dir: heading_of(dir@).unwrap() },
                )
                &&& final(game).state@ == old(game).state@
                &&& final(game).data.goals@ == old(game).data.goals@
                &&& final(game).data.color_map@ == old(game).data.color_map@
            },
            !ok ==> *final(game) == *old(game),
    {
        if !is_heading(dir) || !is_pos(x, y) {
            return false;
        }
        let dir = to_dir(dir);
        let pos = to_pos(x, y);
        game.data.turns.push(Turn { pos, dir });
        true
    }
}

} // verus!
