//! The search for the first solution of a puzzle.

use std::collections::VecDeque;
use vstd::prelude::*;
use crate::elements::{Game, GameData, State};
use crate::search::{
    first_solution, lemma_action_dealt_with, lemma_entry_added, lemma_entry_keeps,
    lemma_first_found, lemma_first_solution_is, lemma_first_try_wins, lemma_none_left,
    lemma_taken_again, lemma_taken_first, names_of, solves, solves_first, texts, Trace,
};
use crate::space::{lemma_distinct_placements, space};
use crate::visited::Visited;

verus! {

pub struct Solver;

/// Whether the queue holds the squares of the entries from `from` on.
spec fn queue_ok(t: Trace, queue: Seq<State>, from: int) -> bool {
    &&& queue.len() == t.states.len() - from
    &&& forall|k: int| 0 <= k < queue.len() ==> (#[trigger] queue[k])@ == t.states[from + k]
}

/// Whether the record is that of a search on the tiles `data` from the
/// squares `initial`.
spec fn about(t: Trace, data: &GameData, initial: &State) -> bool {
    &&& t.turns == data.turns@
    &&& t.goals == data.goals@
    &&& t.names == data.color_map@.len()
    &&& t.start == initial@
}

/// Colours are numbered below 128, so trying the first 128 is trying all.
proof fn lemma_all_actions(t: Trace, p: int, actors: int)
    requires
        t.grown_below(p, actors),
        actors == t.names || actors == 128,
    ensures
        t.grown_below(p, t.names),
{
}

impl Solver {
    /// The actions that lead to entry `index`, counted from one, and then
    /// `last`.
    fn path_to(parents: &Vec<(usize, i8)>, index: usize, last: i8, Ghost(t): Ghost<Trace>) -> (path:
        Vec<i8>)
        requires
            t.wf(),
            parents@ == t.links,
            index <= parents.len(),
        ensures
            path@ == t.stem(index as int).push(last),
    {
        let ghost target = t.stem(index as int).push(last);
        let mut back: Vec<i8> = Vec::new();
        back.push(last);
        let mut k: usize = index;
        while k != 0
            invariant
                t.wf(),
                parents@ == t.links,
                k <= parents.len(),
                1 <= back.len() <= target.len(),
                t.stem(k as int) == target.subrange(0, target.len() - back.len()),
                forall|i: int| 0 <= i < back.len() ==> back@[i] == target[target.len() - 1 - i],
            decreases k,
        {
            let link = parents[k - 1];
            proof {
                assert(t.entry_ok(k - 1));
                let rest = target.subrange(0, target.len() - back.len());
                assert(rest == t.stem(link.0 as int).push(link.1));
                assert(rest.drop_last() =~= t.stem(link.0 as int));
                assert(rest.drop_last() =~= target.subrange(0, target.len() - back.len() - 1));
                assert(rest.last() == link.1);
            }
            back.push(link.1);
            k = link.0;
        }
        let mut path: Vec<i8> = Vec::new();
        let mut i: usize = back.len();
        while i > 0
            invariant
                i <= back.len(),
                back.len() == target.len(),
                forall|i: int| 0 <= i < back.len() ==> back@[i] == target[target.len() - 1 - i],
                path@ == target.subrange(0, back.len() - i),
            decreases i,
        {
            i -= 1;
            path.push(back[i]);
            assert(path@ =~= target.subrange(0, back.len() - i));
        }
        assert(path@ =~= target);
        path
    }

    /// Solves the puzzle: the names of the colours to nudge, in order, or
    /// `None` if no sequence of nudges solves it.
    ///
    /// The answer is the first solution. No solution is shorter, and among
    /// the shortest it is the one that names the colour with the smaller
    /// number at the first place where two of them differ.
    pub fn solve(puzzle: Game) -> (result: Option<Vec<String>>)
        ensures
            match result {
                Some(names) => puzzle.answer() == Some(texts(names@)),
                None => puzzle.answer().is_none(),
            },
            result.is_none() <==> forall|actions: Seq<i8>| !puzzle.solved_by(actions),
    {
        match Self::search(&puzzle.data, &puzzle.state) {
            None => None,
            Some(actions) => {
                let mut names: Vec<String> = Vec::new();
                let mut k: usize = 0;
                while k < actions.len()
                    invariant
                        k <= actions.len(),
                        names@.len() == k,
                        puzzle.solved_by(actions@),
                        texts(names@) == names_of(puzzle.data.color_map@, actions@).subrange(
                            0,
                            k as int,
                        ),
                    decreases actions.len() - k,
                {
                    let color = actions[k];
                    let ghost before = names@;
                    names.push(puzzle.data.color_map[color as usize].clone());
                    proof {
                        let all = names_of(puzzle.data.color_map@, actions@);
                        assert forall|j: int| 0 <= j <= k implies texts(names@)[j] == all[j] by {
                            if j < k {
                                assert(texts(before)[j] == all.subrange(0, k as int)[j]);
                            }
                        }
                        assert(texts(names@) =~= all.subrange(0, k + 1));
                    }
                    k += 1;
                }
                assert(texts(names@) =~= names_of(puzzle.data.color_map@, actions@));
                assert(puzzle.solved_by(actions@));
                Some(names)
            },
        }
    }

    /// Searches breadth-first, trying the colours in ascending order at every
    /// placement, for the first solution of the puzzle with the tiles `data`
    /// and the squares `initial`: the numbers of the colours to nudge, in
    /// order.
    pub fn search(data: &GameData, initial: &State) -> (found: Option<Vec<i8>>)
        ensures
            match found {
                Some(actions) => {
                    &&& first_solution(
                        data.turns@,
                        data.goals@,
                        data.color_map@.len() as int,
                        initial@,
                    ) == Some(actions@)
                    &&& solves_first(
                        data.turns@,
                        data.goals@,
                        data.color_map@.len() as int,
                        initial@,
                        actions@,
                    )
                },
                None => {
                    &&& first_solution(
                        data.turns@,
                        data.goals@,
                        data.color_map@.len() as int,
                        initial@,
                    ).is_none()
                    &&& forall|actions: Seq<i8>|
                        !solves(
                            data.turns@,
                            data.goals@,
                            data.color_map@.len() as int,
                            initial@,
                            actions,
                        )
                },
            },
    {
        let names = data.color_map.len();
        let actors: usize = if names < 128 { names } else { 128 };
        let mut parents: Vec<(usize, i8)> = Vec::new();
        let mut queue: VecDeque<State> = VecDeque::new();
        let ghost mut t = Trace {
            turns: data.turns@,
            goals: data.goals@,
            names: names as int,
            start: initial@,
            states: Seq::empty(),
            paths: Seq::empty(),
            links: Seq::empty(),
            done: 0,
        };
        let mut a: usize = 0;
        while a < actors
            invariant
                a <= actors <= 128,
                actors <= names,
                t.done == 0,
                t.wf(),
                t.links_below(0, a as int),
                t.grown_below(0, a as int),
                parents@ == t.links,
                queue_ok(t, queue@, 0),
                about(t, data, initial),
                names == data.color_map@.len(),
            decreases actors - a,
        {
            let action = a as i8;
            match data.try_action(initial, action) {
                None => {
                    proof {
                        lemma_action_dealt_with(t, 0, action);
                    }
                },
                Some(next) => {
                    if data.won(&next) {
                        let mut path: Vec<i8> = Vec::new();
                        path.push(action);
                        proof {
                            assert(path@ =~= seq![action]);
                            lemma_first_try_wins(t, action, next@);
                            lemma_first_solution_is(t.turns, t.goals, t.names, t.start, path@);
                        }
                        return Some(path);
                    }
                    proof {
                        lemma_entry_added(t, 0, action, next@);
                        lemma_entry_keeps(t, 0, action, next@, Seq::empty());
                        t = t.with_entry(0, action, next@);
                        lemma_action_dealt_with(t, 0, action);
                    }
                    parents.push((0, action));
                    queue.push_back(next);
                },
            }
            a += 1;
        }
        proof {
            lemma_all_actions(t, 0, actors as int);
        }
        let ghost n = initial@.len();
        let mut index: usize = 0;
        let mut visited = Visited::new();
        loop
            invariant
                actors <= 128,
                actors <= names,
                actors == names || actors == 128,
                t.wf(),
                t.closed(),
                t.done == index,
                t.links_below(index as int, 128),
                parents@ == t.links,
                queue_ok(t, queue@, index as int),
                visited.wf(),
                t.covers(visited@),
                visited@.len() <= space(n),
                n == initial@.len(),
                about(t, data, initial),
                names == data.color_map@.len(),
            ensures
                t.wf(),
                t.closed(),
                t.done == t.states.len(),
                about(t, data, initial),
                names == data.color_map@.len(),
            decreases space(n) - visited@.len(), queue@.len(),
        {
            let popped = queue.pop_front();
            if popped.is_none() {
                break;
            }
            let parent = popped.unwrap();
            assert(index < parents.len());
            assert(parent@ == t.states[index as int]);
            index += 1;
            if !visited.contains(&parent) {
                let mut a: usize = 0;
                while a < actors
                    invariant
                        a <= actors <= 128,
                        actors <= names,
                        actors == names || actors == 128,
                        t.wf(),
                        t.closed(),
                        t.done == index - 1,
                        t.done < t.states.len(),
                        parent@ == t.states[t.done],
                        t.links_below(index as int, a as int),
                        t.grown_below(index as int, a as int),
                        parents@ == t.links,
                        queue_ok(t, queue@, index as int),
                        visited.wf(),
                        !visited@.contains(parent@),
                        t.covers(visited@),
                        about(t, data, initial),
                        names == data.color_map@.len(),
                    decreases actors - a,
                {
                    let action = a as i8;
                    match data.try_action(&parent, action) {
                        None => {
                            proof {
                                lemma_action_dealt_with(t, index as int, action);
                            }
                        },
                        Some(next) => {
                            if data.won(&next) {
                                let path = Self::path_to(&parents, index, action, Ghost(t));
                                proof {
                                    lemma_first_found(t, action, next@);
                                    lemma_first_solution_is(t.turns, t.goals, t.names, t.start, path@);
                                }
                                return Some(path);
                            }
                            proof {
                                lemma_entry_added(t, index, action, next@);
                                lemma_entry_keeps(t, index, action, next@, visited@);
                                t = t.with_entry(index, action, next@);
                                lemma_action_dealt_with(t, index as int, action);
                            }
                            parents.push((index, action));
                            queue.push_back(next);
                        },
                    }
                    a += 1;
                }
                proof {
                    lemma_all_actions(t, index as int, actors as int);
                    lemma_taken_first(t, visited@);
                }
                visited.insert(parent);
                proof {
                    t = t.with_done();
                    lemma_distinct_placements(visited@, n);
                }
            } else {
                proof {
                    lemma_taken_again(t, visited@);
                    t = t.with_done();
                }
            }
        }
        proof {
            lemma_none_left(t);
        }
        None
    }
}

} // verus!
