//! Simulated annealing over the neighbourhood of a state. The temperature
//! and the chance by which a worse neighbour is taken are the caller's; the
//! search asks for them through `Chance`.

use vstd::prelude::*;
use vstd::pervasive::cloned;
use crate::error::ScheduleError;
use crate::state::State;
use crate::tabu_search::{chained, copies_keep, is_least, lemma_chained_push, logged, stepped};
use crate::text::{decimal, decimal_string};

verus! {

/// What is to be done with the neighbour that was drawn.
#[derive(Debug, Clone, Copy, PartialEq, Eq, Structural)]
pub enum Verdict {
    /// No move was found: the iterations at this temperature end.
    Stop,
    /// The neighbour costs no more than the state: the move is made.
    Commit,
    /// The neighbour costs more: chance decides.
    Draw,
}

/// The verdict on a neighbour that costs `neighbor_cost`, reached from a
/// state that costs `current_cost` by `movement`.
pub open spec fn verdict_of(neighbor_cost: u32, movement: usize, current_cost: u32) -> Verdict {
    if movement == 0 {
        Verdict::Stop
    } else if neighbor_cost <= current_cost {
        Verdict::Commit
    } else {
        Verdict::Draw
    }
}

/// Decides what to do with a neighbour.
pub fn judge(neighbor_cost: u32, movement: usize, current_cost: u32) -> (r: Verdict)
    ensures
        r == verdict_of(neighbor_cost, movement, current_cost),
{
    if movement == 0 {
        Verdict::Stop
    } else if neighbor_cost <= current_cost {
        Verdict::Commit
    } else {
        Verdict::Draw
    }
}

/// By how much the neighbour costs more than the state.
pub fn cost_rise(neighbor_cost: u32, current_cost: u32) -> (r: i64)
    ensures
        r == neighbor_cost - current_cost,
{
    neighbor_cost as i64 - current_cost as i64
}

/// An annealing under way: the state it stands at, the best state it has
/// closed a temperature level with, and the cost at the end of each level.
pub struct Annealing<S> {
    pub current: S,
    pub optimum: S,
    pub log: Vec<String>,
}

/// The least of two costs.
pub open spec fn least_of(a: int, b: int) -> int {
    if a <= b {
        a
    } else {
        b
    }
}

impl<S: State + Clone> Annealing<S> {
    /// Both states can be searched.
    pub open spec fn ready(&self) -> bool {
        S::legal(self.current@) && S::legal(self.optimum@)
    }

    /// An annealing that starts at `initial_state`.
    pub fn new(initial_state: S) -> (r: Self)
        requires
            S::legal(initial_state@),
            copies_keep::<S>(),
        ensures
            r.ready(),
            r.current == initial_state,
            r.optimum@ == initial_state@,
            r.log@.len() == 0,
    {
        let optimum: S = initial_state.clone();
        assert(cloned::<S>(initial_state, optimum));
        Annealing { current: initial_state, optimum, log: Vec::new() }
    }

    /// Draws a neighbour of the current state and judges it: the verdict,
    /// the move, and by how much the neighbour costs more. Where no move was
    /// found the verdict is to stop, the move is 0 and the cost does not
    /// rise; a state that is sure to find a move does not stop.
    pub fn propose(&mut self) -> (r: (Verdict, usize, i64))
        requires
            old(self).ready(),
        ensures
            final(self).current@ == old(self).current@,
            final(self).current.offers() == old(self).current.offers(),
            final(self).optimum == old(self).optimum,
            final(self).log == old(self).log,
            old(self).current.offers() ==> r.0 != Verdict::Stop,
            r.1 == 0 ==> r.2 == 0,
            r.0 != Verdict::Stop ==> S::admits(old(self).current@, r.1 as int) && r.2 == S::move_cost(
                old(self).current@,
                r.1 as int,
            ) - S::cost(old(self).current@),
            r.0 == Verdict::Stop <==> r.1 == 0,
            r.0 == Verdict::Commit ==> r.2 <= 0,
            r.0 == Verdict::Draw ==> r.2 > 0,
    {
        let current_cost: u32 = self.current.get_cost();
        let (neighbor_cost, movement, _) = self.current.get_neighbor();
        (
            judge(neighbor_cost, movement, current_cost),
            movement,
            cost_rise(neighbor_cost, current_cost),
        )
    }

    /// Makes the move `movement` from the current state.
    pub fn accept(&mut self, movement: usize)
        requires
            old(self).ready(),
            S::admits(old(self).current@, movement as int),
        ensures
            final(self).ready(),
            final(self).current@ == S::after(old(self).current@, movement as int),
            S::cost(final(self).current@) == S::move_cost(old(self).current@, movement as int),
            final(self).optimum == old(self).optimum,
            final(self).log == old(self).log,
    {
        self.current.set_neighbor(movement);
    }

    /// Closes a temperature level: the cost of the current state goes to the
    /// log, and the current state becomes the best where it costs less than
    /// the best so far. The best never costs more than before.
    pub fn close_level(&mut self)
        requires
            old(self).ready(),
            copies_keep::<S>(),
        ensures
            final(self).ready(),
            final(self).current == old(self).current,
            final(self).log@.len() == old(self).log@.len() + 1,
            final(self).log@.drop_last() == old(self).log@,
            final(self).log@.last()@ == decimal(S::cost(old(self).current@) as nat),
            final(self).optimum@ == (if S::cost(old(self).current@) < S::cost(old(self).optimum@) {
                old(self).current@
            } else {
                old(self).optimum@
            }),
            S::cost(final(self).optimum@) == least_of(
                S::cost(old(self).optimum@),
                S::cost(old(self).current@),
            ),
            S::cost(final(self).optimum@) <= S::cost(old(self).optimum@),
    {
        let cost: u32 = self.current.get_cost();
        self.log.push(decimal_string(cost as u64));
        assert(self.log@.drop_last() =~= old(self).log@);
        if cost < self.optimum.get_cost() {
            self.optimum = self.current.clone();
            assert(cloned::<S>(self.current, self.optimum));
        }
    }

    /// The best state and the log.
    pub fn finish(self) -> (r: (S, Vec<String>))
        ensures
            r.0 == self.optimum,
            r.1 == self.log,
    {
        (self.optimum, self.log)
    }
}

/// Each of `costs` is the cost of one of `views`, the one at its mark, and
/// the marks do not fall.
pub open spec fn marked<S: State>(views: Seq<S::V>, marks: Seq<int>, costs: Seq<u32>) -> bool {
    &&& marks.len() == costs.len()
    &&& forall|l: int|
        0 <= l < marks.len() ==> 0 <= #[trigger] marks[l] < views.len() && costs[l] == S::cost(
            views[marks[l]],
        )
    &&& forall|l: int, k: int| 0 <= l <= k < marks.len() ==> #[trigger] marks[l] <= #[trigger] marks[k]
}

/// No move that the state admits makes it cost more.
pub open spec fn downhill<S: State>(v: S::V) -> bool {
    forall|m: int| #[trigger] S::admits(v, m) ==> S::move_cost(v, m) <= S::cost(v)
}

/// A level of one iteration makes a move where it is owed: where the state
/// is sure to find a move and no move makes it cost more, the first cost
/// logged is that of a move that the state admits.
pub open spec fn first_level_moves<S: State>(initial: S, iterations: u32, costs: Seq<u32>) -> bool {
    initial.offers() && iterations == 1 && downhill::<S>(initial@) ==> exists|m: int|
        #[trigger] S::admits(initial@, m) && costs[0] == S::move_cost(initial@, m)
}

/// Who decides whether a worse neighbour is taken.
pub trait Chance {
    /// Whether a neighbour that costs `rise` more than the state is taken at
    /// temperature level `level`, the levels counting from 0.
    fn takes(&mut self, level: u32, rise: i64) -> bool;
}

/// The chance that never takes a worse neighbour.
pub struct Greedy;

impl Chance for Greedy {
    fn takes(&mut self, level: u32, rise: i64) -> (r: bool)
        ensures
            !r,
    {
        false
    }
}

/// Simulated annealing from `initial_state` over `levels` temperature
/// levels: at each level up to `iterations` neighbours are drawn; one that
/// costs no more than the state is taken, one that costs more where
/// `chance` says so, and the level ends early where no move is found. At
/// the end of each level the cost of the state goes to the log, and the
/// state becomes the best where it costs less than the best so far. The
/// result is that best state and the log: the states passed through go by
/// one step each from `initial_state`, every cost logged is that of one of
/// them, later with each level, and a level of one iteration makes a move
/// where one is owed. No iterations or no levels are refused.
pub fn simulated_annealing<S: State + Clone, C: Chance>(
    initial_state: S,
    iterations: u32,
    levels: u32,
    chance: &mut C,
) -> (r: Result<(S, Vec<String>), ScheduleError>)
    requires
        S::legal(initial_state@),
        copies_keep::<S>(),
    ensures
        match r {
            Err(e) => e == ScheduleError::ParameterOutOfRange && (iterations == 0 || levels == 0),
            Ok((best, log)) => {
                &&& iterations > 0 && levels > 0
                &&& S::legal(best@)
                &&& log@.len() == levels
                &&& exists|costs: Seq<u32>, views: Seq<S::V>, marks: Seq<int>|
                    {
                        &&& chained::<S>(initial_state@, views)
                        &&& #[trigger] marked::<S>(views, marks, costs)
                        &&& logged(log@, costs)
                        &&& is_least(S::cost(best@), S::cost(initial_state@), costs)
                        &&& views.contains(best@)
                        &&& first_level_moves::<S>(initial_state, iterations, costs)
                    }
            },
        },
{
    if iterations == 0 || levels == 0 {
        return Err(ScheduleError::ParameterOutOfRange);
    }
    let mut run = Annealing::new(initial_state);
    let ghost mut costs: Seq<u32> = Seq::empty();
    let ghost mut views: Seq<S::V> = seq![initial_state@];
    let ghost mut marks: Seq<int> = Seq::empty();
    let mut level: u32 = 0;
    assert(views[0] == initial_state@);
    while level < levels
        invariant
            level <= levels,
            iterations >= 1,
            copies_keep::<S>(),
            run.ready(),
            run.log@.len() == level,
            logged(run.log@, costs),
            is_least(S::cost(run.optimum@), S::cost(initial_state@), costs),
            chained::<S>(initial_state@, views),
            marked::<S>(views, marks, costs),
            views.last() == run.current@,
            views.contains(run.optimum@),
            level == 0 ==> run.current == initial_state,
            level >= 1 ==> first_level_moves::<S>(initial_state, iterations, costs),
        decreases levels - level,
    {
        let mut n: u32 = 0;
        while n < iterations
            invariant
                n <= iterations,
                iterations >= 1,
                run.ready(),
                run.log@.len() == level,
                logged(run.log@, costs),
                is_least(S::cost(run.optimum@), S::cost(initial_state@), costs),
                chained::<S>(initial_state@, views),
                marked::<S>(views, marks, costs),
                views.last() == run.current@,
                views.contains(run.optimum@),
                level == 0 && n == 0 ==> run.current@ == initial_state@ && run.current.offers()
                    == initial_state.offers(),
                level == 0 && n >= 1 && iterations == 1 && initial_state.offers() && downhill::<S>(
                    initial_state@,
                ) ==> exists|m: int|
                    #[trigger] S::admits(initial_state@, m) && S::cost(run.current@)
                        == S::move_cost(initial_state@, m),
            decreases iterations - n,
        {
            let ghost before = run.current@;
            let ghost old_views = views;
            let (verdict, movement, rise) = run.propose();
            match verdict {
                Verdict::Stop => {
                    n = iterations;
                },
                Verdict::Commit => {
                    run.accept(movement);
                    proof {
                        assert(S::admits(before, movement as int));
                        assert(stepped::<S>(before, run.current@));
                        lemma_chained_push::<S>(initial_state@, views, run.current@);
                        views = views.push(run.current@);
                    }
                    n += 1;
                },
                Verdict::Draw => {
                    if chance.takes(level, rise) {
                        run.accept(movement);
                        proof {
                            assert(S::admits(before, movement as int));
                            assert(stepped::<S>(before, run.current@));
                            lemma_chained_push::<S>(initial_state@, views, run.current@);
                            views = views.push(run.current@);
                        }
                    }
                    n += 1;
                },
            }
            proof {
                // the costs logged so far are those of the same states
                assert forall|l: int| 0 <= l < marks.len() implies 0 <= #[trigger] marks[l]
                    < views.len() && costs[l] == S::cost(views[marks[l]]) by {
                    assert(0 <= marks[l] < old_views.len());
                    if views.len() > old_views.len() {
                        assert(views[marks[l]] == old_views[marks[l]]);
                    }
                }
            }
        }
        let ghost old_log = run.log@;
        let ghost old_costs = costs;
        let ghost old_marks = marks;
        let ghost old_best = S::cost(run.optimum@);
        let cost: u32 = run.current.get_cost();
        run.close_level();
        proof {
            costs = costs.push(cost);
            marks = marks.push(views.len() - 1);
            assert forall|l: int| 0 <= l < marks.len() implies 0 <= #[trigger] marks[l]
                < views.len() && costs[l] == S::cost(views[marks[l]]) by {
                if l < old_marks.len() {
                    assert(marks[l] == old_marks[l]);
                    assert(costs[l] == old_costs[l]);
                }
            }
            assert forall|l: int, k: int| 0 <= l <= k < marks.len() implies #[trigger] marks[l]
                <= #[trigger] marks[k] by {
                if l < old_marks.len() {
                    assert(marks[l] == old_marks[l]);
                    assert(0 <= old_marks[l] < views.len());
                }
                if k < old_marks.len() {
                    assert(marks[k] == old_marks[k]);
                    assert(old_marks[l] <= old_marks[k]);
                }
            }
            assert(views.contains(run.optimum@)) by {
                assert(views[views.len() - 1] == views.last());
            }
            assert(first_level_moves::<S>(initial_state, iterations, costs)) by {
                if level >= 1 {
                    assert(costs[0] == old_costs[0]);
                }
            }
            assert(run.log@.drop_last() == old_log);
            assert forall|i: int| 0 <= i < run.log@.len() implies (#[trigger] run.log@[i])@
                == decimal(costs[i] as nat) by {
                if i < old_log.len() {
                    assert(run.log@[i] == run.log@.drop_last()[i]);
                    assert(costs[i] == old_costs[i]);
                }
            }
            assert(is_least(S::cost(run.optimum@), S::cost(initial_state@), costs)) by {
                assert forall|i: int| 0 <= i < costs.len() implies S::cost(run.optimum@)
                    <= #[trigger] costs[i] by {
                    if i < old_costs.len() {
                        assert(costs[i] == old_costs[i]);
                    }
                }
                if S::cost(run.optimum@) != S::cost(initial_state@) {
                    if S::cost(run.optimum@) == cost {
                        assert(costs[old_costs.len() as int] == cost);
                    } else {
                        let i = choose|i: int|
                            0 <= i < old_costs.len() && #[trigger] old_costs[i] == old_best;
                        assert(costs[i] == old_costs[i]);
                    }
                }
            }
        }
        level += 1;
    }
    let found = run.finish();
    assert(chained::<S>(initial_state@, views) && marked::<S>(views, marks, costs) && logged(
        found.1@,
        costs,
    ) && is_least(S::cost(found.0@), S::cost(initial_state@), costs) && views.contains(found.0@)
        && first_level_moves::<S>(initial_state, iterations, costs));
    Ok(found)
}

} // verus!
