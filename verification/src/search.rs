//! What it means to solve a puzzle, and why a breadth-first search finds the
//! first solution.

use vstd::prelude::*;
use crate::chain::{lemma_nudge_keeps_colors, nudge};
use crate::elements::{all_goals_met, Goal, Square, Turn};
use crate::order::{
    comes_before, lemma_before_by_last, lemma_before_chains, lemma_before_grows,
    lemma_before_is_strict, not_after,
};

verus! {

/// The squares after the nudges `actions`, one after the other: `None` as
/// soon as one of them is not possible.
pub open spec fn replay(turns: Seq<Turn>, squares: Seq<Square>, actions: Seq<i8>) -> Option<
    Seq<Square>,
>
    decreases actions.len(),
{
    if actions.len() == 0 {
        Some(squares)
    } else {
        match replay(turns, squares, actions.drop_last()) {
            None => None,
            Some(before) => nudge(turns, before, actions.last()),
        }
    }
}

/// Whether every action is the number of one of the first `names` colours.
pub open spec fn all_named(actions: Seq<i8>, names: int) -> bool {
    forall|k: int| 0 <= k < actions.len() ==> 0 <= #[trigger] actions[k] < names
}

/// Whether `actions`, at least one of them, each a colour with a name, can be
/// played from `start` and leave every goal tile under a square of its
/// colour.
pub open spec fn solves(
    turns: Seq<Turn>,
    goals: Seq<Goal>,
    names: int,
    start: Seq<Square>,
    actions: Seq<i8>,
) -> bool {
    &&& actions.len() > 0
    &&& all_named(actions, names)
    &&& match replay(turns, start, actions) {
        Some(squares) => all_goals_met(goals, squares),
        None => false,
    }
}

/// Whether `actions` solve the puzzle and no solution comes before them: none
/// is shorter, and none of the same length has a smaller colour at the first
/// place where the two differ.
pub open spec fn solves_first(
    turns: Seq<Turn>,
    goals: Seq<Goal>,
    names: int,
    start: Seq<Square>,
    actions: Seq<i8>,
) -> bool {
    &&& solves(turns, goals, names, start, actions)
    &&& forall|other: Seq<i8>| #[trigger]
        solves(turns, goals, names, start, other) ==> not_after(actions, other)
}

/// The first solution of the puzzle, if it has a solution.
pub open spec fn first_solution(
    turns: Seq<Turn>,
    goals: Seq<Goal>,
    names: int,
    start: Seq<Square>,
) -> Option<Seq<i8>> {
    if exists|actions: Seq<i8>| solves_first(turns, goals, names, start, actions) {
        Some(choose|actions: Seq<i8>| solves_first(turns, goals, names, start, actions))
    } else {
        None
    }
}

/// The name of each action's colour.
pub open spec fn names_of(color_map: Seq<String>, actions: Seq<i8>) -> Seq<Seq<char>> {
    Seq::new(actions.len(), |k: int| color_map[actions[k] as int]@)
}

/// The text of each name.
pub open spec fn texts(names: Seq<String>) -> Seq<Seq<char>> {
    Seq::new(names.len(), |k: int| names[k]@)
}

/// A puzzle has at most one first solution.
pub proof fn lemma_first_is_unique(
    turns: Seq<Turn>,
    goals: Seq<Goal>,
    names: int,
    start: Seq<Square>,
    a: Seq<i8>,
    b: Seq<i8>,
)
    requires
        solves_first(turns, goals, names, start, a),
        solves_first(turns, goals, names, start, b),
    ensures
        a == b,
{
    if a != b {
        lemma_before_is_strict(a, b);
    }
}

/// The first solution is the one that `first_solution` names.
pub proof fn lemma_first_solution_is(
    turns: Seq<Turn>,
    goals: Seq<Goal>,
    names: int,
    start: Seq<Square>,
    actions: Seq<i8>,
)
    requires
        solves_first(turns, goals, names, start, actions),
    ensures
        first_solution(turns, goals, names, start) == Some(actions),
{
    let chosen = choose|a: Seq<i8>| solves_first(turns, goals, names, start, a);
    lemma_first_is_unique(turns, goals, names, start, actions, chosen);
}

/// Replaying one more action is a nudge of what the others left.
pub proof fn lemma_replay_one_more(turns: Seq<Turn>, squares: Seq<Square>, actions: Seq<i8>, last: i8)
    ensures
        replay(turns, squares, actions.push(last)) == match replay(turns, squares, actions) {
            None => None,
            Some(before) => nudge(turns, before, last),
        },
{
    assert(actions.push(last).drop_last() =~= actions);
}

/// The record of a search under way. Entry `j` stands for the squares
/// `states[j]`, reached from the start by the actions `paths[j]`; `links[j]`
/// holds the entry it was made from, counted from one, with zero for the
/// start, and the action that made it. The entries before `done` have been
/// taken from the queue.
pub(crate) struct Trace {
    pub(crate) turns: Seq<Turn>,
    pub(crate) goals: Seq<Goal>,
    pub(crate) names: int,
    pub(crate) start: Seq<Square>,
    pub(crate) states: Seq<Seq<Square>>,
    pub(crate) paths: Seq<Seq<i8>>,
    pub(crate) links: Seq<(usize, i8)>,
    pub(crate) done: int,
}

impl Trace {
    /// The actions that lead to entry `p`, counted from one; none for zero.
    pub(crate) open spec fn stem(self, p: int) -> Seq<i8> {
        if p == 0 {
            Seq::empty()
        } else {
            self.paths[p - 1]
        }
    }

    /// The squares of entry `p`, counted from one; those of the start for zero.
    pub(crate) open spec fn origin(self, p: int) -> Seq<Square> {
        if p == 0 {
            self.start
        } else {
            self.states[p - 1]
        }
    }

    pub(crate) open spec fn entry_ok(self, j: int) -> bool {
        &&& self.links[j].0 <= j
        &&& 0 <= self.links[j].1 < self.names
        &&& self.paths[j] == self.stem(self.links[j].0 as int).push(self.links[j].1)
        &&& all_named(self.paths[j], self.names)
        &&& replay(self.turns, self.start, self.paths[j]) == Some(self.states[j])
        &&& !all_goals_met(self.goals, self.states[j])
        &&& self.states[j].len() == self.start.len()
    }

    pub(crate) open spec fn wf(self) -> bool {
        &&& self.states.len() == self.paths.len()
        &&& self.states.len() == self.links.len()
        &&& 0 <= self.done <= self.states.len()
        &&& forall|j: int| 0 <= j < self.states.len() ==> #[trigger] self.entry_ok(j)
        &&& forall|i: int, j: int|
            0 <= i < j < self.states.len() ==> comes_before(
                #[trigger] self.paths[i],
                #[trigger] self.paths[j],
            )
    }

    /// No entry was made from a later one than `cur`, and from `cur` only by
    /// actions below `limit`.
    pub(crate) open spec fn links_below(self, cur: int, limit: int) -> bool {
        forall|j: int|
            0 <= j < self.links.len() ==> (#[trigger] self.links[j]).0 <= cur && (self.links[j].0
                == cur ==> self.links[j].1 < limit)
    }

    pub(crate) open spec fn has_path(self, path: Seq<i8>) -> bool {
        exists|j: int| 0 <= j < self.paths.len() && #[trigger] self.paths[j] == path
    }

    /// Each possible action below `limit` on the squares of `p`, counted from
    /// one (zero: the start), has its entry.
    pub(crate) open spec fn grown_below(self, p: int, limit: int) -> bool {
        forall|b: i8|
            0 <= b < limit && (#[trigger] nudge(self.turns, self.origin(p), b)).is_some()
                ==> self.has_path(self.stem(p).push(b))
    }

    /// The squares of entry `i` are those of an entry not after it whose
    /// every possible action has its entry.
    pub(crate) open spec fn settled(self, i: int) -> bool {
        exists|e: int|
            0 <= e <= i && self.states[e] == self.states[i] && #[trigger] self.grown_below(
                e + 1,
                self.names,
            )
    }

    pub(crate) open spec fn closed(self) -> bool {
        &&& self.grown_below(0, self.names)
        &&& forall|i: int| 0 <= i < self.done ==> #[trigger] self.settled(i)
    }

    /// What the set of placements dealt with holds: placements of as many
    /// squares as the puzzle has, no two alike, each that of an entry taken
    /// from the queue whose every possible action has its entry.
    pub(crate) open spec fn covers(self, visited: Seq<Seq<Square>>) -> bool {
        &&& visited.no_duplicates()
        &&& forall|k: int|
            0 <= k < visited.len() ==> (#[trigger] visited[k]).len() == self.start.len()
                && self.dealt_with(visited[k])
    }

    /// Whether `squares` are those of an entry taken from the queue whose
    /// every possible action has its entry.
    pub(crate) open spec fn dealt_with(self, squares: Seq<Square>) -> bool {
        exists|e: int|
            0 <= e < self.done && self.states[e] == squares && #[trigger] self.grown_below(
                e + 1,
                self.names,
            )
    }

    /// The record with one more entry, made from `cur` by `action`.
    pub(crate) open spec fn with_entry(self, cur: usize, action: i8, squares: Seq<Square>) -> Trace {
        Trace {
            states: self.states.push(squares),
            paths: self.paths.push(self.stem(cur as int).push(action)),
            links: self.links.push((cur, action)),
            ..self
        }
    }

    /// The record with one more entry taken from the queue.
    pub(crate) open spec fn with_done(self) -> Trace {
        Trace { done: self.done + 1, ..self }
    }
}

proof fn lemma_not_after_chains(a: Seq<i8>, b: Seq<i8>, c: Seq<i8>)
    requires
        not_after(a, b),
        not_after(b, c),
    ensures
        not_after(a, c),
        comes_before(a, b) || comes_before(b, c) ==> comes_before(a, c),
{
    if a != b && b != c {
        lemma_before_chains(a, b, c);
    }
}

proof fn lemma_not_after_grows(a: Seq<i8>, b: Seq<i8>, x: i8)
    requires
        not_after(a, b),
    ensures
        not_after(a.push(x), b.push(x)),
{
    if a != b {
        lemma_before_grows(a, b, x, x);
    }
}

/// A new entry, made from `cur` by the next action in turn, keeps the record
/// in order.
pub(crate) proof fn lemma_entry_added(t: Trace, cur: usize, action: i8, squares: Seq<Square>)
    requires
        t.wf(),
        cur <= t.states.len(),
        t.links_below(cur as int, action as int),
        0 <= action < t.names,
        nudge(t.turns, t.origin(cur as int), action) == Some(squares),
        !all_goals_met(t.goals, squares),
    ensures
        t.with_entry(cur, action, squares).wf(),
        t.with_entry(cur, action, squares).links_below(cur as int, action + 1),
        t.with_entry(cur, action, squares).has_path(t.stem(cur as int).push(action)),
{
    let t2 = t.with_entry(cur, action, squares);
    let n = t.states.len() as int;
    let path = t.stem(cur as int).push(action);
    lemma_replay_one_more(t.turns, t.start, t.stem(cur as int), action);
    lemma_nudge_keeps_colors(t.turns, t.origin(cur as int), action);
    if cur > 0 {
        assert(t.entry_ok(cur - 1));
    }
    assert(t2.paths[n] == path);
    assert(t2.entry_ok(n));
    assert forall|j: int| 0 <= j < t2.states.len() implies #[trigger] t2.entry_ok(j) by {
        if j < n {
            assert(t.entry_ok(j));
            assert(t2.stem(t.links[j].0 as int) == t.stem(t.links[j].0 as int));
        }
    }
    assert forall|i: int, j: int| 0 <= i < j < t2.states.len() implies comes_before(
        #[trigger] t2.paths[i],
        #[trigger] t2.paths[j],
    ) by {
        if j == n {
            assert(t.entry_ok(i));
            let p = t.links[i].0;
            let a = t.links[i].1;
            if p == cur {
                lemma_before_by_last(t.stem(cur as int), a, action);
            } else if p == 0 {
                assert(t.entry_ok(cur - 1));
            } else {
                assert(comes_before(t.paths[p - 1], t.paths[cur - 1]));
                lemma_before_grows(t.paths[p - 1], t.paths[cur - 1], a, action);
            }
        } else {
            assert(comes_before(t.paths[i], t.paths[j]));
        }
    }
}

/// What held of the record before a new entry holds after it.
pub(crate) proof fn lemma_entry_keeps(
    t: Trace,
    cur: usize,
    action: i8,
    squares: Seq<Square>,
    visited: Seq<Seq<Square>>,
)
    requires
        t.states.len() == t.paths.len(),
        0 <= t.done <= t.states.len(),
    ensures
        t.closed() ==> t.with_entry(cur, action, squares).closed(),
        t.covers(visited) ==> t.with_entry(cur, action, squares).covers(visited),
        forall|path: Seq<i8>| #[trigger]
            t.has_path(path) ==> t.with_entry(cur, action, squares).has_path(path),
        forall|p: int, limit: int|
            0 <= p <= t.states.len() && #[trigger] t.grown_below(p, limit) ==> t.with_entry(
                cur,
                action,
                squares,
            ).grown_below(p, limit),
        forall|i: int|
            0 <= i < t.states.len() && #[trigger] t.settled(i) ==> t.with_entry(
                cur,
                action,
                squares,
            ).settled(i),
{
    let t2 = t.with_entry(cur, action, squares);
    assert forall|path: Seq<i8>| #[trigger] t.has_path(path) implies t2.has_path(path) by {
        let j = choose|j: int| 0 <= j < t.paths.len() && #[trigger] t.paths[j] == path;
        assert(t2.paths[j] == path);
    }
    assert forall|p: int, limit: int|
        0 <= p <= t.states.len() && #[trigger] t.grown_below(p, limit) implies t2.grown_below(
        p,
        limit,
    ) by {
        assert(t2.origin(p) == t.origin(p));
        assert(t2.stem(p) == t.stem(p));
    }
    assert forall|i: int| 0 <= i < t.states.len() && #[trigger] t.settled(i) implies t2.settled(
        i,
    ) by {
        let e = choose|e: int|
            0 <= e <= i && t.states[e] == t.states[i] && #[trigger] t.grown_below(e + 1, t.names);
        assert(t2.grown_below(e + 1, t2.names));
    }
    if t.closed() {
        assert(t2.grown_below(0, t2.names));
        assert forall|i: int| 0 <= i < t2.done implies #[trigger] t2.settled(i) by {
            assert(t.settled(i));
        }
    }
    if t.covers(visited) {
        assert forall|k: int| 0 <= k < visited.len() implies t2.dealt_with(#[trigger] visited[k]) by {
            assert(t.dealt_with(visited[k]));
            let e = choose|e: int|
                0 <= e < t.done && t.states[e] == visited[k] && #[trigger] t.grown_below(
                    e + 1,
                    t.names,
                );
            assert(t2.grown_below(e + 1, t2.names));
        }
    }
}

/// An entry whose placement was dealt with before is taken from the queue.
pub(crate) proof fn lemma_taken_again(t: Trace, visited: Seq<Seq<Square>>)
    requires
        t.wf(),
        t.closed(),
        t.covers(visited),
        t.done < t.states.len(),
        visited.contains(t.states[t.done]),
    ensures
        t.with_done().wf(),
        t.with_done().closed(),
        t.with_done().covers(visited),
{
    let t2 = t.with_done();
    assert forall|j: int| 0 <= j < t2.states.len() implies #[trigger] t2.entry_ok(j) by {
        assert(t.entry_ok(j));
    }
    assert(t.dealt_with(t.states[t.done]));
    let e0 = choose|e: int|
        0 <= e < t.done && t.states[e] == t.states[t.done] && #[trigger] t.grown_below(
            e + 1,
            t.names,
        );
    lemma_done_keeps(t, visited, e0);
}

/// An entry whose every possible action has its entry is taken from the
/// queue, and its placement is dealt with from then on.
pub(crate) proof fn lemma_taken_first(t: Trace, visited: Seq<Seq<Square>>)
    requires
        t.wf(),
        t.closed(),
        t.covers(visited),
        t.done < t.states.len(),
        !visited.contains(t.states[t.done]),
        t.grown_below(t.done + 1, t.names),
    ensures
        t.with_done().wf(),
        t.with_done().closed(),
        t.with_done().covers(visited.push(t.states[t.done])),
{
    let t2 = t.with_done();
    assert forall|j: int| 0 <= j < t2.states.len() implies #[trigger] t2.entry_ok(j) by {
        assert(t.entry_ok(j));
    }
    lemma_done_keeps(t, visited, t.done);
    assert(t2.grown_below(t.done + 1, t2.names));
    assert(t2.dealt_with(t.states[t.done]));
    assert(t.entry_ok(t.done));
}

proof fn lemma_done_keeps(t: Trace, visited: Seq<Seq<Square>>, e0: int)
    requires
        t.closed(),
        t.covers(visited),
        0 <= e0 <= t.done < t.states.len(),
        t.states[e0] == t.states[t.done],
        t.grown_below(e0 + 1, t.names),
    ensures
        t.with_done().closed(),
        t.with_done().covers(visited),
{
    let t2 = t.with_done();
    assert forall|p: int, limit: int| #[trigger] t.grown_below(p, limit) implies t2.grown_below(
        p,
        limit,
    ) by {
        assert forall|b: i8|
            0 <= b < limit && (#[trigger] nudge(t2.turns, t2.origin(p), b)).is_some()
            implies t2.has_path(t2.stem(p).push(b)) by {
            assert(t.has_path(t.stem(p).push(b)));
            let j = choose|j: int| 0 <= j < t.paths.len() && #[trigger] t.paths[j] == t.stem(p).push(b);
            assert(t2.paths[j] == t2.stem(p).push(b));
        }
    }
    assert(t2.grown_below(e0 + 1, t2.names));
    assert(t2.settled(t.done));
    assert forall|i: int| 0 <= i < t2.done implies #[trigger] t2.settled(i) by {
        if i < t.done {
            assert(t.settled(i));
            let e = choose|e: int|
                0 <= e <= i && t.states[e] == t.states[i] && #[trigger] t.grown_below(e + 1, t.names);
            assert(t2.grown_below(e + 1, t2.names));
        }
    }
    assert forall|k: int| 0 <= k < visited.len() implies t2.dealt_with(#[trigger] visited[k]) by {
        assert(t.dealt_with(visited[k]));
        let e = choose|e: int|
            0 <= e < t.done && t.states[e] == visited[k] && #[trigger] t.grown_below(e + 1, t.names);
        assert(t2.grown_below(e + 1, t2.names));
    }
}

/// An action that is not possible, or has its entry, is dealt with.
pub(crate) proof fn lemma_action_dealt_with(t: Trace, p: int, action: i8)
    requires
        t.grown_below(p, action as int),
        nudge(t.turns, t.origin(p), action).is_none() || t.has_path(t.stem(p).push(action)),
    ensures
        t.grown_below(p, action + 1),
{
}

/// Every sequence of actions that can be played, and is no longer than the
/// actions of the entry at the head of the queue, leads to squares that have
/// an entry whose actions are not after it.
proof fn lemma_reach(t: Trace, q: Seq<i8>) -> (j: int)
    requires
        t.wf(),
        t.closed(),
        q.len() >= 1,
        all_named(q, t.names),
        replay(t.turns, t.start, q).is_some(),
        t.done < t.states.len() ==> q.len() <= t.paths[t.done].len(),
    ensures
        0 <= j < t.states.len(),
        Some(t.states[j]) == replay(t.turns, t.start, q),
        not_after(t.paths[j], q),
    decreases q.len(),
{
    let q0 = q.drop_last();
    let b = q.last();
    assert(q =~= q0.push(b));
    lemma_replay_one_more(t.turns, t.start, q0, b);
    if q0.len() == 0 {
        assert(q0 =~= t.stem(0));
        assert(t.has_path(t.stem(0).push(b)));
        let j = choose|j: int| 0 <= j < t.paths.len() && #[trigger] t.paths[j] == t.stem(0).push(b);
        assert(t.entry_ok(j));
        j
    } else {
        let j0 = lemma_reach(t, q0);
        if t.done < t.states.len() && j0 >= t.done {
            if j0 > t.done {
                assert(comes_before(t.paths[t.done], t.paths[j0]));
            }
            assert(false);
        }
        assert(t.settled(j0));
        let e = choose|e: int|
            0 <= e <= j0 && t.states[e] == t.states[j0] && #[trigger] t.grown_below(e + 1, t.names);
        assert(t.entry_ok(e));
        lemma_replay_one_more(t.turns, t.start, t.paths[e], b);
        assert(t.has_path(t.stem(e + 1).push(b)));
        let j = choose|j: int| 0 <= j < t.paths.len() && #[trigger] t.paths[j] == t.stem(e + 1).push(b);
        assert(t.entry_ok(j));
        if e < j0 {
            assert(comes_before(t.paths[e], t.paths[j0]));
        }
        lemma_not_after_chains(t.paths[e], t.paths[j0], q0);
        lemma_not_after_grows(t.paths[e], q0, b);
        j
    }
}

/// No entry that was taken from the queue has a winning nudge.
proof fn lemma_done_cannot_win(t: Trace, i: int, action: i8)
    requires
        t.wf(),
        t.closed(),
        0 <= i < t.done,
        0 <= action < t.names,
    ensures
        match nudge(t.turns, t.states[i], action) {
            Some(squares) => !all_goals_met(t.goals, squares),
            None => true,
        },
{
    if nudge(t.turns, t.states[i], action).is_some() {
        assert(t.settled(i));
        let e = choose|e: int|
            0 <= e <= i && t.states[e] == t.states[i] && #[trigger] t.grown_below(e + 1, t.names);
        lemma_grown_cannot_win(t, e + 1, t.names, action);
    }
}

/// No action that has its entry wins.
proof fn lemma_grown_cannot_win(t: Trace, p: int, limit: int, action: i8)
    requires
        t.wf(),
        0 <= p <= t.states.len(),
        t.grown_below(p, limit),
        0 <= action < limit,
    ensures
        match nudge(t.turns, t.origin(p), action) {
            Some(squares) => !all_goals_met(t.goals, squares),
            None => true,
        },
{
    if nudge(t.turns, t.origin(p), action).is_some() {
        if p > 0 {
            assert(t.entry_ok(p - 1));
        }
        lemma_replay_one_more(t.turns, t.start, t.stem(p), action);
        assert(t.has_path(t.stem(p).push(action)));
        let j = choose|j: int|
            0 <= j < t.paths.len() && #[trigger] t.paths[j] == t.stem(p).push(action);
        assert(t.entry_ok(j));
    }
}

/// When the queue is empty, nothing solves the puzzle.
pub(crate) proof fn lemma_none_left(t: Trace)
    requires
        t.wf(),
        t.closed(),
        t.done == t.states.len(),
    ensures
        forall|q: Seq<i8>| !solves(t.turns, t.goals, t.names, t.start, q),
{
    assert forall|q: Seq<i8>| !solves(t.turns, t.goals, t.names, t.start, q) by {
        if solves(t.turns, t.goals, t.names, t.start, q) {
            let q0 = q.drop_last();
            let a = q.last();
            assert(q =~= q0.push(a));
            lemma_replay_one_more(t.turns, t.start, q0, a);
            if q0.len() == 0 {
                assert(q0 =~= t.stem(0));
                lemma_grown_cannot_win(t, 0, t.names, a);
            } else {
                let j0 = lemma_reach(t, q0);
                lemma_done_cannot_win(t, j0, a);
            }
        }
    }
}

/// The first winning nudge among the first tries is the first solution.
pub(crate) proof fn lemma_first_try_wins(t: Trace, action: i8, squares: Seq<Square>)
    requires
        t.wf(),
        t.grown_below(0, action as int),
        0 <= action < t.names,
        nudge(t.turns, t.start, action) == Some(squares),
        all_goals_met(t.goals, squares),
    ensures
        solves_first(t.turns, t.goals, t.names, t.start, seq![action]),
{
    let found = seq![action];
    assert(found =~= t.stem(0).push(action));
    lemma_replay_one_more(t.turns, t.start, t.stem(0), action);
    assert forall|q: Seq<i8>| #[trigger]
        solves(t.turns, t.goals, t.names, t.start, q) implies not_after(found, q) by {
        if q.len() == 1 {
            let a = q.last();
            assert(q =~= t.stem(0).push(a));
            lemma_replay_one_more(t.turns, t.start, t.stem(0), a);
            if a < action {
                lemma_grown_cannot_win(t, 0, action as int, a);
            } else if a > action {
                lemma_before_by_last(t.stem(0), action, a);
            }
        }
    }
}

/// The first winning nudge of the entry at the head of the queue ends the
/// first solution.
pub(crate) proof fn lemma_first_found(t: Trace, action: i8, squares: Seq<Square>)
    requires
        t.wf(),
        t.closed(),
        t.done < t.states.len(),
        t.grown_below(t.done + 1, action as int),
        0 <= action < t.names,
        nudge(t.turns, t.states[t.done], action) == Some(squares),
        all_goals_met(t.goals, squares),
    ensures
        solves_first(t.turns, t.goals, t.names, t.start, t.paths[t.done].push(action)),
{
    let head = t.paths[t.done];
    let found = head.push(action);
    assert(t.entry_ok(t.done));
    lemma_replay_one_more(t.turns, t.start, head, action);
    assert forall|q: Seq<i8>| #[trigger]
        solves(t.turns, t.goals, t.names, t.start, q) implies not_after(found, q) by {
        if q.len() <= found.len() {
            let q0 = q.drop_last();
            let a = q.last();
            assert(q =~= q0.push(a));
            lemma_replay_one_more(t.turns, t.start, q0, a);
            if q0.len() == 0 {
                assert(q0 =~= t.stem(0));
                lemma_grown_cannot_win(t, 0, t.names, a);
            } else {
                let j0 = lemma_reach(t, q0);
                if j0 < t.done {
                    lemma_done_cannot_win(t, j0, a);
                } else {
                    if j0 > t.done {
                        assert(comes_before(head, t.paths[j0]));
                    } else if a < action {
                        lemma_grown_cannot_win(t, t.done + 1, action as int, a);
                    }
                    lemma_not_after_chains(head, t.paths[j0], q0);
                    if head == q0 {
                        if a > action {
                            lemma_before_by_last(head, action, a);
                        }
                    } else {
                        lemma_before_grows(head, q0, action, a);
                    }
                }
            }
        }
    }
}

} // verus!
