//! The board: positions, headings, the fixed tiles and the moving squares.

use vstd::prelude::*;
use crate::chain::{
    after_move, can_move, chain, find_blocker, find_color, find_turn, leads_to,
    lemma_circle_never_rests, lemma_leads_on, lemma_settle_is_chain, lemma_settle_unfold, nudge,
    pushed, settle,
};
use crate::search::{first_solution, names_of, solves};
use crate::space::{lemma_distinct_marked_placements, space};

verus! {

/// A cell of the board, in screen coordinates: `y` grows downwards.
#[derive(Copy, Clone, Debug, PartialEq, Eq, PartialOrd, Ord, Hash, Structural)]
pub struct Pos {
    pub x: i8,
    pub y: i8,
}

/// One of the four headings.
#[derive(Copy, Clone, Debug, PartialEq, Eq, Hash, Structural)]
pub enum Dir {
    Up,
    Down,
    Left,
    Right,
}

/// A tile that wants the square of its colour.
#[derive(Copy, Clone, Debug, PartialEq, Eq, Structural)]
pub struct Goal {
    pub pos: Pos,
    pub color: i8,
}

/// A tile that turns whatever square comes to stand on it.
#[derive(Copy, Clone, Debug, PartialEq, Eq, Structural)]
pub struct Turn {
    pub pos: Pos,
    pub dir: Dir,
}

/// A square: where it is, which colour it has, where it is heading.
#[derive(Copy, Clone, Debug, PartialEq, Eq, Hash, Structural)]
pub struct Square {
    pub pos: Pos,
    pub color: i8,
    pub dir: Dir,
}

/// The fixed part of a puzzle: its goal and turn tiles, and the name of each
/// colour, at the colour's number.
#[derive(Debug)]
pub struct GameData {
    pub goals: Vec<Goal>,
    pub turns: Vec<Turn>,
    pub color_map: Vec<String>,
}

/// The moving part of a puzzle: every square, as it stands at one moment.
/// Two of them are equal when they hold the same squares, in whatever order.
#[derive(Debug)]
pub struct State {
    pub squares: Vec<Square>,
}

/// A puzzle: the fixed tiles and the squares as they stand at the start.
#[derive(Debug)]
pub struct Game {
    pub data: GameData,
    pub state: State,
}

impl View for State {
    type V = Seq<Square>;

    open spec fn view(&self) -> Seq<Square> {
        self.squares@
    }
}

impl Clone for State {
    fn clone(&self) -> (copy: State)
        ensures
            copy@ == self@,
    {
        State { squares: copy_squares(&self.squares) }
    }
}

impl Default for State {
    fn default() -> (state: State)
        ensures
            state@.len() == 0,
    {
        State { squares: Vec::new() }
    }
}

impl Default for GameData {
    fn default() -> (data: GameData)
        ensures
            data.goals@.len() == 0,
            data.turns@.len() == 0,
            data.color_map@.len() == 0,
    {
        GameData { goals: Vec::new(), turns: Vec::new(), color_map: Vec::new() }
    }
}

impl Default for Game {
    fn default() -> (game: Game)
        ensures
            game.data.goals@.len() == 0,
            game.data.turns@.len() == 0,
            game.data.color_map@.len() == 0,
            game.state@.len() == 0,
    {
        Game { data: GameData::default(), state: State::default() }
    }
}

/// Whether a square of colour `color` stands on `pos`.
pub open spec fn holds(squares: Seq<Square>, pos: Pos, color: i8) -> bool {
    exists|i: int|
        0 <= i < squares.len() && (#[trigger] squares[i]).pos == pos && squares[i].color == color
}

/// Whether every goal tile carries a square of its colour.
pub open spec fn all_goals_met(goals: Seq<Goal>, squares: Seq<Square>) -> bool {
    forall|g: int| 0 <= g < goals.len() ==> holds(squares, (#[trigger] goals[g]).pos, goals[g].color)
}

impl Pos {
    /// Whether the neighbouring cell in direction `d` still has coordinates.
    pub open spec fn can_step(self, d: Dir) -> bool {
        match d {
            Dir::Up => self.y > i8::MIN,
            Dir::Down => self.y < i8::MAX,
            Dir::Left => self.x > i8::MIN,
            Dir::Right => self.x < i8::MAX,
        }
    }

    /// The neighbouring cell in direction `d`.
    pub open spec fn stepped(self, d: Dir) -> Pos
        recommends
            self.can_step(d),
    {
        match d {
            Dir::Up => Pos { x: self.x, y: (self.y - 1) as i8 },
            Dir::Down => Pos { x: self.x, y: (self.y + 1) as i8 },
            Dir::Left => Pos { x: (self.x - 1) as i8, y: self.y },
            Dir::Right => Pos { x: (self.x + 1) as i8, y: self.y },
        }
    }

    /// Moves this position one cell in direction `d`.
    pub fn step(&mut self, d: Dir)
        requires
            old(self).can_step(d),
        ensures
            *final(self) == old(self).stepped(d),
    {
        match d {
            Dir::Up => self.y -= 1i8,
            Dir::Down => self.y += 1i8,
            Dir::Left => self.x -= 1i8,
            Dir::Right => self.x += 1i8,
        }
    }

    /// The cell with the coordinates `x` and `y`.
    pub fn new(x: i8, y: i8) -> (p: Pos)
        ensures
            p == (Pos { x, y }),
    {
        Pos { x, y }
    }
}

/// The same squares in a list of their own.
fn copy_squares(squares: &Vec<Square>) -> (copy: Vec<Square>)
    ensures
        copy@ == squares@,
{
    let mut copy: Vec<Square> = Vec::new();
    let mut i: usize = 0;
    while i < squares.len()
        invariant
            i <= squares.len(),
            copy@ == squares@.subrange(0, i as int),
        decreases squares.len() - i,
    {
        copy.push(squares[i]);
        i += 1;
    }
    copy
}

/// Whether two lists hold the same squares in the same order.
pub(crate) fn same_squares(a: &Vec<Square>, b: &Vec<Square>) -> (same: bool)
    ensures
        same == (a@ == b@),
{
    if a.len() != b.len() {
        return false;
    }
    let mut i: usize = 0;
    while i < a.len()
        invariant
            i <= a.len(),
            a.len() == b.len(),
            forall|k: int| 0 <= k < i ==> a@[k] == b@[k],
        decreases a.len() - i,
    {
        if a[i] != b[i] {
            return false;
        }
        i += 1;
    }
    proof {
        assert(a@ =~= b@);
    }
    true
}

/// Whether the cell ahead of `sq` still has coordinates.
fn has_room(sq: &Square) -> (room: bool)
    ensures
        room == sq.pos.can_step(sq.dir),
{
    match sq.dir {
        Dir::Up => sq.pos.y > i8::MIN,
        Dir::Down => sq.pos.y < i8::MAX,
        Dir::Left => sq.pos.x > i8::MIN,
        Dir::Right => sq.pos.x < i8::MAX,
    }
}

/// The squares and the mover of each entry of `seen`.
spec fn marked(seen: Seq<(Vec<Square>, usize)>) -> Seq<(Seq<Square>, int)> {
    Seq::new(seen.len(), |k: int| (seen[k].0@, seen[k].1 as int))
}

/// The first square of colour `color`, if there is one.
fn first_of_color(squares: &Vec<Square>, color: i8) -> (found: Option<usize>)
    ensures
        match found {
            Some(i) => i < squares.len() && find_color(squares@, color, 0) == Some(i as int),
            None => find_color(squares@, color, 0).is_none(),
        },
{
    let mut i: usize = 0;
    while i < squares.len()
        invariant
            i <= squares.len(),
            find_color(squares@, color, 0) == find_color(squares@, color, i as int),
        decreases squares.len() - i,
    {
        if squares[i].color == color {
            return Some(i);
        }
        i += 1;
    }
    None
}

/// The first square on `p` whose colour is not `color`, if there is one.
fn first_blocker(squares: &Vec<Square>, p: Pos, color: i8) -> (found: Option<usize>)
    ensures
        match found {
            Some(i) => i < squares.len() && find_blocker(squares@, p, color, 0) == Some(i as int),
            None => find_blocker(squares@, p, color, 0).is_none(),
        },
{
    let mut i: usize = 0;
    while i < squares.len()
        invariant
            i <= squares.len(),
            find_blocker(squares@, p, color, 0) == find_blocker(squares@, p, color, i as int),
        decreases squares.len() - i,
    {
        if squares[i].pos == p && squares[i].color != color {
            return Some(i);
        }
        i += 1;
    }
    None
}

impl Game {
    /// Whether `actions`, at least one of them, each the number of a colour
    /// with a name, can be played one after the other from the start and
    /// leave every goal tile under a square of its colour.
    pub open spec fn solved_by(&self, actions: Seq<i8>) -> bool {
        solves(
            self.data.turns@,
            self.data.goals@,
            self.data.color_map@.len() as int,
            self.state@,
            actions,
        )
    }

    /// The first solution: the one that is no longer than any other and,
    /// among those of its length, names the smaller colour at the first place
    /// where two of them differ. `None` if nothing solves the puzzle.
    pub open spec fn first_solution(&self) -> Option<Seq<i8>> {
        first_solution(
            self.data.turns@,
            self.data.goals@,
            self.data.color_map@.len() as int,
            self.state@,
        )
    }

    /// The answer to the puzzle: the names of the colours of its first
    /// solution, in order, or `None` if nothing solves it.
    pub open spec fn answer(&self) -> Option<Seq<Seq<char>>> {
        match self.first_solution() {
            Some(actions) => Some(names_of(self.data.color_map@, actions)),
            None => None,
        }
    }
}

impl GameData {
    /// What a nudge of colour `color` makes of `squares` on this board.
    pub open spec fn nudge(&self, squares: Seq<Square>, color: i8) -> Option<Seq<Square>> {
        nudge(self.turns@, squares, color)
    }

    /// Whether the board is won with the squares as they stand in `squares`:
    /// every goal tile carries a square of its colour.
    pub open spec fn is_won(&self, squares: Seq<Square>) -> bool {
        all_goals_met(self.goals@, squares)
    }

    /// The direction of the first turn tile at `p`, if there is one.
    pub(crate) fn turn_at(&self, p: Pos) -> (found: Option<Dir>)
        ensures
            found == find_turn(self.turns@, p, 0),
    {
        let mut i: usize = 0;
        while i < self.turns.len()
            invariant
                i <= self.turns.len(),
                find_turn(self.turns@, p, 0) == find_turn(self.turns@, p, i as int),
            decreases self.turns.len() - i,
        {
            if self.turns[i].pos == p {
                return Some(self.turns[i].dir);
            }
            i += 1;
        }
        None
    }

    /// Moves square `i` one cell and turns it if it lands on a turn tile;
    /// returns the square that it pushes, if any.
    fn move_square(&self, squares: &mut Vec<Square>, i: usize) -> (next: Option<usize>)
        requires
            can_move(old(squares)@, i as int),
        ensures
            final(squares)@ == after_move(self.turns@, old(squares)@, i as int),
            match next {
                Some(j) => j < old(squares).len() && pushed(final(squares)@, i as int) == Some(
                    j as int,
                ),
                None => pushed(final(squares)@, i as int).is_none(),
            },
    {
        let mut sq = squares[i];
        sq.pos.step(sq.dir);
        if let Some(dir) = self.turn_at(sq.pos) {
            sq.dir = dir;
        }
        squares[i] = sq;
        first_blocker(squares, sq.pos, sq.color)
    }

    /// Nudges the square of colour `color`: it moves one cell along its
    /// heading, pushes the square of another colour that it runs into, which
    /// moves along its own heading and pushes in turn, until a mover lands on
    /// a cell that no other colour holds. Every mover takes the heading of a
    /// turn tile it lands on.
    ///
    /// The nudge must be possible: a square of that colour is there, and the
    /// chain comes to rest without a mover leaving the coordinates.
    pub fn action(&self, state: &State, color: i8) -> (next: State)
        requires
            self.nudge(state@, color).is_some(),
        ensures
            self.nudge(state@, color) == Some(next@),
    {
        let mut ret = state.clone();
        let mut acted = first_of_color(&ret.squares, color);
        let ghost first = find_color(state@, color, 0).unwrap();
        let ghost mut fuel: nat = choose|fuel: nat|
            (#[trigger] chain(self.turns@, state@, first, fuel)).is_some();
        proof {
            lemma_settle_is_chain(self.turns@, state@, first, fuel);
        }
        while acted.is_some()
            invariant
                match acted {
                    Some(i) => chain(self.turns@, ret@, i as int, fuel) == self.nudge(state@, color),
                    None => Some(ret@) == self.nudge(state@, color),
                },
                self.nudge(state@, color).is_some(),
            decreases
                match acted {
                    Some(i) => fuel + 1,
                    None => 0,
                },
        {
            acted = self.move_square(&mut ret.squares, acted.unwrap());
            proof {
                fuel = (fuel - 1) as nat;
            }
        }
        ret
    }

    /// Nudges the square of colour `color` as `action` does, if that is
    /// possible: `None` where no square has that colour, where a mover would
    /// leave the coordinates, and where the squares push each other in a
    /// circle without end.
    pub fn try_action(&self, state: &State, color: i8) -> (next: Option<State>)
        ensures
            match next {
                Some(s) => self.nudge(state@, color) == Some(s@),
                None => self.nudge(state@, color).is_none(),
            },
    {
        let found = first_of_color(&state.squares, color);
        if found.is_none() {
            return None;
        }
        let mut ret = state.clone();
        let mut i: usize = found.unwrap();
        let n: usize = ret.squares.len();
        // A chain that has made more moves than there are squares is
        // remembered from then on, to see whether it comes back to where it was.
        let mut moves: usize = 0;
        let mut seen: Vec<(Vec<Square>, usize)> = Vec::new();
        let ghost turns = self.turns@;
        loop
            invariant
                turns == self.turns@,
                n == ret@.len(),
                i < n,
                moves <= n,
                moves < n ==> seen.len() == 0,
                settle(turns, ret@, i as int) == self.nudge(state@, color),
                forall|k: int|
                    0 <= k < seen.len() ==> (#[trigger] seen@[k]).0@.len() == n && seen@[k].1 < n,
                forall|k: int|
                    0 <= k < seen.len() ==> leads_to(
                        turns,
                        (#[trigger] seen@[k]).0@,
                        seen@[k].1 as int,
                        ret@,
                        i as int,
                        (seen.len() - k) as nat,
                    ),
                marked(seen@).no_duplicates(),
                seen.len() <= n * space(n as nat),
            decreases (n - moves) + (n * space(n as nat) - seen.len()),
        {
            proof {
                lemma_settle_unfold(turns, ret@, i as int);
            }
            if !has_room(&ret.squares[i]) {
                return None;
            }
            if moves < n {
                moves += 1;
            } else {
                let mut k: usize = 0;
                while k < seen.len()
                    invariant
                        k <= seen.len(),
                        forall|j: int| 0 <= j < k ==> (#[trigger] marked(seen@)[j]) != (ret@, i as int),
                        forall|k: int|
                            0 <= k < seen.len() ==> leads_to(
                                turns,
                                (#[trigger] seen@[k]).0@,
                                seen@[k].1 as int,
                                ret@,
                                i as int,
                                (seen.len() - k) as nat,
                            ),
                        settle(turns, ret@, i as int) == self.nudge(state@, color),
                    decreases seen.len() - k,
                {
                    if seen[k].1 == i && same_squares(&seen[k].0, &ret.squares) {
                        proof {
                            lemma_circle_never_rests(turns, ret@, i as int, (seen.len() - k) as nat);
                        }
                        return None;
                    }
                    k += 1;
                }
                let ghost earlier = seen@;
                seen.push((copy_squares(&ret.squares), i));
                proof {
                    assert(marked(seen@) =~= marked(earlier).push((ret@, i as int)));
                    assert forall|k: int| 0 <= k < seen.len() implies leads_to(
                        turns,
                        (#[trigger] seen@[k]).0@,
                        seen@[k].1 as int,
                        ret@,
                        i as int,
                        (seen.len() - 1 - k) as nat,
                    ) by {
                        if k < earlier.len() {
                            assert(seen@[k] == earlier[k]);
                        }
                    }
                    lemma_distinct_marked_placements(marked(seen@), n as nat);
                }
            }
            let ghost before = ret@;
            let pushed = self.move_square(&mut ret.squares, i);
            match pushed {
                None => {
                    return Some(ret);
                },
                Some(j) => {
                    proof {
                        assert forall|k: int| 0 <= k < seen.len() implies leads_to(
                            turns,
                            (#[trigger] seen@[k]).0@,
                            seen@[k].1 as int,
                            ret@,
                            j as int,
                            (seen.len() - k) as nat,
                        ) by {
                            lemma_leads_on(
                                turns,
                                seen@[k].0@,
                                seen@[k].1 as int,
                                before,
                                i as int,
                                (seen.len() - 1 - k) as nat,
                            );
                        }
                    }
                    i = j;
                },
            }
        }
    }

    /// Whether every goal tile carries a square of its colour.
    pub fn won(&self, state: &State) -> (won: bool)
        ensures
            won == self.is_won(state@),
    {
        let mut g: usize = 0;
        while g < self.goals.len()
            invariant
                g <= self.goals.len(),
                forall|k: int|
                    0 <= k < g ==> holds(
                        state@,
                        (#[trigger] self.goals@[k]).pos,
                        self.goals@[k].color,
                    ),
            decreases self.goals.len() - g,
        {
            let goal = self.goals[g];
            let mut i: usize = 0;
            let mut met = false;
            while i < state.squares.len() && !met
                invariant
                    i <= state.squares.len(),
                    met ==> holds(state@, goal.pos, goal.color),
                    !met ==> forall|k: int|
                        0 <= k < i ==> !((#[trigger] state@[k]).pos == goal.pos && state@[k].color
                            == goal.color),
                decreases state.squares.len() - i + if met { 0int } else { 1int },
            {
                if state.squares[i].pos == goal.pos && state.squares[i].color == goal.color {
                    met = true;
                } else {
                    i += 1;
                }
            }
            if !met {
                return false;
            }
            g += 1;
        }
        true
    }
}

} // verus!
