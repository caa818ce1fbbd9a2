//! Tabu search over the neighbourhood of a state.

use vstd::prelude::*;
use vstd::pervasive::cloned;
use crate::activity::clone_ids;
use crate::error::ScheduleError;
use crate::state::State;
use crate::tabu_mv::{forbids, listed, tabu_view, TabuMv, TabuView};
use crate::text::{decimal, decimal_string};

verus! {

/// How often a search that found only moves of no effect draws again before
/// it lets the iteration pass.
pub const PLATEAU_ATTEMPTS: u32 = 1000;

/// A copy of a state is the state again.
pub open spec fn copies_keep<S: State + Clone>() -> bool {
    forall|a: S, b: S| #[trigger] cloned::<S>(a, b) ==> b@ == a@
}

/// The records after one more iteration: each has one iteration less to
/// stay, and those that had one left are gone.
pub open spec fn aged(list: Seq<TabuView>) -> Seq<TabuView>
    decreases list.len(),
{
    if list.len() == 0 {
        Seq::empty()
    } else {
        let rest = aged(list.drop_last());
        if list.last().tabu_time > 1 {
            rest.push(
                TabuView {
                    movements: list.last().movements,
                    tabu_time: (list.last().tabu_time - 1) as u32,
                },
            )
        } else {
            rest
        }
    }
}

/// `i` is the first record of `list` that forbids `activities`.
pub open spec fn first_forbidding(list: Seq<TabuView>, activities: Seq<u32>, i: int) -> bool {
    &&& 0 <= i < list.len()
    &&& forbids(list[i], activities)
    &&& forall|j: int| 0 <= j < i ==> !forbids(#[trigger] list[j], activities)
}

/// A candidate may be taken: it is a move, and where it is tabu it costs
/// less than the best state seen.
pub open spec fn allowed(movement: usize, cost: u32, tabu: bool, best_cost: u32) -> bool {
    movement != 0 && (!tabu || cost < best_cost)
}

/// A candidate takes the place of the one held: it may be taken, it changes
/// the cost, and nothing is held yet or it costs less than what is held.
pub open spec fn replaces(
    held_cost: u32,
    held_movement: usize,
    cost: u32,
    movement: usize,
    tabu: bool,
    current_cost: u32,
    best_cost: u32,
) -> bool {
    allowed(movement, cost, tabu, best_cost) && cost != current_cost && (held_movement == 0 || cost
        < held_cost)
}

/// What is owed of a move that the search hands out, as long as it is one:
/// the state admits it with that cost and those activities, it changes the
/// cost, and where a record forbids it, it costs less than the best state
/// seen.
pub open spec fn sound<S: State>(
    v: S::V,
    best_cost: int,
    list: Seq<TabuView>,
    cost: u32,
    movement: usize,
    activities: Seq<u32>,
) -> bool {
    movement != 0 ==> {
        &&& S::admits(v, movement as int)
        &&& cost == S::move_cost(v, movement as int)
        &&& activities == S::move_set(v, movement as int)
        &&& cost != S::cost(v)
        &&& listed(list, activities) ==> cost < best_cost
    }
}

/// The move `movement` counts in a search: it changes the cost of the
/// state, and where a record forbids it, it costs less than the best state
/// seen.
pub open spec fn counts<S: State>(
    v: S::V,
    best_cost: int,
    list: Seq<TabuView>,
    movement: int,
) -> bool {
    S::move_cost(v, movement) != S::cost(v) && (listed(list, S::move_set(v, movement))
        ==> S::move_cost(v, movement) < best_cost)
}

/// Every move that the state admits counts.
pub open spec fn all_count<S: State>(v: S::V, best_cost: int, list: Seq<TabuView>) -> bool {
    forall|m: int| #[trigger] S::admits(v, m) ==> counts::<S>(v, best_cost, list, m)
}

/// A search may go from the state `v` to the state `w` in one step: they are
/// the same state, or `w` is `v` after a move that `v` admits.
pub open spec fn stepped<S: State>(v: S::V, w: S::V) -> bool {
    w == v || exists|m: int| #[trigger] S::admits(v, m) && w == S::after(v, m)
}

/// `views` are the states that a search passed through from `first`, one
/// step from each to the next, and a search may work on every one of them.
pub open spec fn chained<S: State>(first: S::V, views: Seq<S::V>) -> bool {
    &&& views.len() >= 1
    &&& views[0] == first
    &&& forall|j: int| 0 <= j < views.len() ==> S::legal(#[trigger] views[j])
    &&& forall|j: int|
        0 <= j < views.len() - 1 ==> #[trigger] stepped::<S>(views[j], views[j + 1])
}

/// `views` are the states that a search passed through from `first`, one
/// after each iteration, and `costs` are what they cost.
pub open spec fn traced<S: State>(first: S::V, views: Seq<S::V>, costs: Seq<u32>) -> bool {
    &&& chained::<S>(first, views)
    &&& views.len() == costs.len() + 1
    &&& forall|j: int| 0 <= j < costs.len() ==> #[trigger] costs[j] == S::cost(views[j + 1])
}

/// The first iteration of a tabu search makes a move where it is owed: where
/// the state is sure to find a move and every move that it admits changes
/// its cost, the first cost logged is that of a move that the state admits,
/// and not the cost of the state.
pub open spec fn first_move_made<S: State>(initial: S, costs: Seq<u32>) -> bool {
    initial.offers() && all_count::<S>(initial@, S::cost(initial@), Seq::empty()) ==> costs[0]
        != S::cost(initial@) && exists|m: int|
        #[trigger] S::admits(initial@, m) && costs[0] == S::move_cost(initial@, m)
}

/// A state that is passed through stays so when the search goes on.
pub proof fn lemma_chained_push<S: State>(first: S::V, views: Seq<S::V>, w: S::V)
    requires
        chained::<S>(first, views),
        S::legal(w),
        stepped::<S>(views.last(), w),
    ensures
        chained::<S>(first, views.push(w)),
        forall|v: S::V| views.contains(v) ==> #[trigger] views.push(w).contains(v),
        views.push(w).contains(w),
{
    let longer = views.push(w);
    assert forall|j: int| 0 <= j < longer.len() implies S::legal(#[trigger] longer[j]) by {
        if j < views.len() {
            assert(longer[j] == views[j]);
        }
    }
    assert forall|j: int| 0 <= j < longer.len() - 1 implies #[trigger] stepped::<S>(
        longer[j],
        longer[j + 1],
    ) by {
        if j < views.len() - 1 {
            assert(longer[j] == views[j] && longer[j + 1] == views[j + 1]);
            assert(stepped::<S>(views[j], views[j + 1]));
        } else {
            assert(longer[j] == views.last());
        }
    }
    assert forall|v: S::V| views.contains(v) implies #[trigger] longer.contains(v) by {
        let i = choose|i: int| 0 <= i < views.len() && views[i] == v;
        assert(longer[i] == v);
    }
    assert(longer[views.len() as int] == w);
}

/// `least` is the least of `first` and `costs`.
pub open spec fn is_least(least: int, first: int, costs: Seq<u32>) -> bool {
    &&& least <= first
    &&& forall|i: int| 0 <= i < costs.len() ==> least <= #[trigger] costs[i]
    &&& least == first || exists|i: int| 0 <= i < costs.len() && #[trigger] costs[i] == least
}

/// `log` holds the decimal numerals of `costs`.
pub open spec fn logged(log: Seq<String>, costs: Seq<u32>) -> bool {
    log.len() == costs.len() && forall|i: int|
        0 <= i < log.len() ==> (#[trigger] log[i])@ == decimal(costs[i] as nat)
}

/// Whether a move that costs `neighbor_cost` beats the best state seen, so
/// that it may be made though it is tabu.
pub fn aspiration_criteria<S: State>(neighbor_cost: u32, optimum: &S) -> (r: bool)
    requires
        S::legal(optimum@),
    ensures
        r == (neighbor_cost < S::cost(optimum@)),
{
    neighbor_cost < optimum.get_cost()
}

/// Lets one iteration pass over the records: those with one iteration left
/// go, the others have one less to stay.
pub fn update_tabu_time(tabu_list: &mut Vec<TabuMv>)
    ensures
        tabu_view(final(tabu_list)@) == aged(tabu_view(old(tabu_list)@)),
{
    let ghost before = tabu_view(tabu_list@);
    let mut new_tabu_list: Vec<TabuMv> = Vec::new();
    let mut i: usize = 0;
    assert(before.take(0) =~= Seq::empty());
    assert(tabu_view(new_tabu_list@) =~= aged(before.take(0)));
    while i < tabu_list.len()
        invariant
            i <= tabu_list.len(),
            before == tabu_view(tabu_list@),
            tabu_view(new_tabu_list@) == aged(before.take(i as int)),
        decreases tabu_list.len() - i,
    {
        assert(before.take(i + 1).drop_last() =~= before.take(i as int));
        assert(before.take(i + 1).last() == tabu_list@[i as int]@);
        if tabu_list[i].tabu_time > 1 {
            let ghost so_far = tabu_view(new_tabu_list@);
            let aged_record = TabuMv::new(
                clone_ids(&tabu_list[i].movements),
                tabu_list[i].tabu_time - 1,
            );
            new_tabu_list.push(aged_record);
            assert(tabu_view(new_tabu_list@) =~= so_far.push(
                TabuView {
                    movements: tabu_list@[i as int]@.movements,
                    tabu_time: (tabu_list@[i as int]@.tabu_time - 1) as u32,
                },
            ));
        }
        i += 1;
    }
    assert(before.take(tabu_list.len() as int) =~= before);
    *tabu_list = new_tabu_list;
}

/// The first record of `tabu_list` that forbids `activities`, if there is one.
pub fn find_tabu(tabu_list: &Vec<TabuMv>, activities: &Vec<u32>) -> (r: Option<usize>)
    ensures
        match r {
            Some(i) => first_forbidding(tabu_view(tabu_list@), activities@, i as int),
            None => !listed(tabu_view(tabu_list@), activities@),
        },
{
    let mut i: usize = 0;
    while i < tabu_list.len()
        invariant
            i <= tabu_list.len(),
            forall|j: int|
                0 <= j < i ==> !forbids(#[trigger] tabu_view(tabu_list@)[j], activities@),
        decreases tabu_list.len() - i,
    {
        if tabu_list[i].forbids_move(activities) {
            assert(tabu_view(tabu_list@)[i as int] == tabu_list@[i as int]@);
            return Some(i);
        }
        assert(tabu_view(tabu_list@)[i as int] == tabu_list@[i as int]@);
        i += 1;
    }
    None
}

/// Weighs a candidate against the one held: whether the candidate may be
/// taken at all, and whether it takes the place of the one held.
pub fn consider(
    held_cost: u32,
    held_movement: usize,
    cost: u32,
    movement: usize,
    tabu: bool,
    current_cost: u32,
    best_cost: u32,
) -> (r: (bool, bool))
    ensures
        r.0 == allowed(movement, cost, tabu, best_cost),
        r.1 == replaces(held_cost, held_movement, cost, movement, tabu, current_cost, best_cost),
{
    let may: bool = movement != 0 && (!tabu || cost < best_cost);
    let takes: bool = may && cost != current_cost && (held_movement == 0 || cost < held_cost);
    (may, takes)
}

/// Whether `movement` stands in `checked`.
fn seen(checked: &Vec<usize>, movement: usize) -> (r: bool)
    ensures
        r == checked@.contains(movement),
{
    let mut i: usize = 0;
    while i < checked.len()
        invariant
            i <= checked.len(),
            forall|j: int| 0 <= j < i ==> checked@[j] != movement,
        decreases checked.len() - i,
    {
        if checked[i] == movement {
            return true;
        }
        i += 1;
    }
    false
}

/// Looks among the neighbours of `current_state` for the move to make next.
///
/// Up to `neighbors` moves that may be taken are weighed, out of at most as
/// many draws and half as many again, a move drawn twice counting once; a
/// move that a
/// record forbids may be taken only where it costs less than `optimum`. Of
/// those that change the cost the cheapest is held, the earlier one among
/// equals. Where none is held after that, more are drawn, up to
/// `PLATEAU_ATTEMPTS`, until one may be taken and changes the cost. Where
/// the move held costs less than `optimum` and a record forbids it, the
/// first such record is taken off the list. The result is the cost, the move
/// and its activities, or the move 0 with the cost of the state itself and
/// no activities where none was found. A move is found where the state is
/// sure to find one and every move that it admits counts.
pub fn best_admissible_neighbors<S: State>(
    current_state: &mut S,
    neighbors: u32,
    tabu_list: &mut Vec<TabuMv>,
    optimum: &S,
) -> (r: (u32, usize, Vec<u32>))
    requires
        S::legal(old(current_state)@),
        S::legal(optimum@),
    ensures
        final(current_state)@ == old(current_state)@,
        final(current_state).offers() == old(current_state).offers(),
        sound::<S>(
            old(current_state)@,
            S::cost(optimum@),
            tabu_view(old(tabu_list)@),
            r.0,
            r.1,
            r.2@,
        ),
        r.1 == 0 ==> r.0 == S::cost(old(current_state)@) && r.2@.len() == 0,
        old(current_state).offers() && all_count::<S>(
            old(current_state)@,
            S::cost(optimum@),
            tabu_view(old(tabu_list)@),
        ) ==> r.1 != 0,
        r.1 != 0 && r.0 < S::cost(optimum@) && listed(tabu_view(old(tabu_list)@), r.2@)
            ==> exists|i: int|
            first_forbidding(tabu_view(old(tabu_list)@), r.2@, i) && tabu_view(
                final(tabu_list)@,
            ) == tabu_view(old(tabu_list)@).remove(i),
        !(r.1 != 0 && r.0 < S::cost(optimum@) && listed(tabu_view(old(tabu_list)@), r.2@))
            ==> tabu_view(final(tabu_list)@) == tabu_view(old(tabu_list)@),
{
    let ghost v = current_state@;
    let ghost list = tabu_view(tabu_list@);
    let current_cost: u32 = current_state.get_cost();
    let best_cost: u32 = optimum.get_cost();
    let mut held_cost: u32 = current_cost;
    let mut held_movement: usize = 0;
    let mut held_activities: Vec<u32> = Vec::new();
    let mut checked: Vec<usize> = Vec::new();
    let mut admissible_neighbors: u32 = neighbors;
    let mut attempts: u64 = neighbors as u64 + (neighbors as u64 + 1) / 2;
    while admissible_neighbors != 0 && attempts != 0
        invariant
            current_state@ == v,
            S::legal(v),
            tabu_view(tabu_list@) == list,
            current_cost == S::cost(v),
            best_cost == S::cost(optimum@),
            current_state.offers() == old(current_state).offers(),
            sound::<S>(v, best_cost as int, list, held_cost, held_movement, held_activities@),
            held_movement == 0 ==> held_cost == current_cost && held_activities@.len() == 0,
        decreases attempts,
    {
        attempts -= 1;
        let (cost, movement, activities) = current_state.get_neighbor();
        if movement != 0 && !seen(&checked, movement) {
            checked.push(movement);
            let tabu: bool = find_tabu(tabu_list, &activities).is_some();
            let (may, takes) = consider(
                held_cost,
                held_movement,
                cost,
                movement,
                tabu,
                current_cost,
                best_cost,
            );
            if takes {
                held_cost = cost;
                held_movement = movement;
                held_activities = activities;
            }
            if may {
                admissible_neighbors -= 1;
            }
        }
    }
    let mut more: u32 = PLATEAU_ATTEMPTS;
    while held_movement == 0 && more != 0
        invariant
            current_state@ == v,
            S::legal(v),
            tabu_view(tabu_list@) == list,
            current_cost == S::cost(v),
            best_cost == S::cost(optimum@),
            current_state.offers() == old(current_state).offers(),
            sound::<S>(v, best_cost as int, list, held_cost, held_movement, held_activities@),
            held_movement == 0 ==> held_cost == current_cost && held_activities@.len() == 0,
            old(current_state).offers() && all_count::<S>(v, best_cost as int, list)
                ==> held_movement != 0 || more == PLATEAU_ATTEMPTS,
        decreases more,
    {
        more -= 1;
        let (cost, movement, activities) = current_state.get_neighbor();
        let tabu: bool = movement != 0 && find_tabu(tabu_list, &activities).is_some();
        let (may, takes) = consider(
            held_cost,
            held_movement,
            cost,
            movement,
            tabu,
            current_cost,
            best_cost,
        );
        if takes {
            held_cost = cost;
            held_movement = movement;
            held_activities = activities;
        }
    }
    if held_movement != 0 && aspiration_criteria(held_cost, optimum) {
        match find_tabu(tabu_list, &held_activities) {
            Some(i) => {
                let ghost before = tabu_list@;
                tabu_list.remove(i);
                assert(tabu_view(tabu_list@) =~= list.remove(i as int));
            },
            None => {},
        }
    }
    (held_cost, held_movement, held_activities)
}

/// Tabu search from `initial_state`: `iterations` times the move that
/// `best_admissible_neighbors` finds is made and then forbidden for
/// `tabu_time` iterations; an iteration in which no move is found passes
/// without one. The result is the first state of least cost among those
/// passed through, and the cost of the state after each iteration as a
/// decimal numeral: the states passed through go by one step each from
/// `initial_state`, and the first of these steps is a move where one is
/// owed. A parameter that is 0 is refused.
pub fn tabu_search<S: State + Clone>(
    initial_state: S,
    tabu_time: u32,
    neighbors: u32,
    iterations: u32,
) -> (r: Result<(S, Vec<String>), ScheduleError>)
    requires
        S::legal(initial_state@),
        copies_keep::<S>(),
    ensures
        match r {
            Err(e) => e == ScheduleError::ParameterOutOfRange && (tabu_time == 0 || neighbors == 0
                || iterations == 0),
            Ok((best, log)) => {
                &&& tabu_time > 0 && neighbors > 0 && iterations > 0
                &&& S::legal(best@)
                &&& log@.len() == iterations
                &&& exists|costs: Seq<u32>, views: Seq<S::V>|
                    {
                        &&& #[trigger] traced::<S>(initial_state@, views, costs)
                        &&& logged(log@, costs)
                        &&& is_least(S::cost(best@), S::cost(initial_state@), costs)
                        &&& views.contains(best@)
                        &&& first_move_made::<S>(initial_state, costs)
                    }
            },
        },
{
    if tabu_time == 0 || neighbors == 0 || iterations == 0 {
        return Err(ScheduleError::ParameterOutOfRange);
    }
    let mut log: Vec<String> = Vec::new();
    let mut tabu_list: Vec<TabuMv> = Vec::new();
    let mut current_state: S = initial_state;
    let mut optimum: S = current_state.clone();
    assert(cloned::<S>(current_state, optimum));
    let ghost mut costs: Seq<u32> = Seq::empty();
    let ghost mut views: Seq<S::V> = seq![initial_state@];
    let mut limit: u32 = 0;
    assert(tabu_view(tabu_list@) =~= Seq::empty());
    assert(views[0] == initial_state@);
    while limit != iterations
        invariant
            limit <= iterations,
            copies_keep::<S>(),
            S::legal(current_state@),
            S::legal(optimum@),
            log@.len() == limit,
            logged(log@, costs),
            is_least(S::cost(optimum@), S::cost(initial_state@), costs),
            traced::<S>(initial_state@, views, costs),
            views.last() == current_state@,
            views.contains(optimum@),
            limit == 0 ==> current_state@ == initial_state@ && optimum@ == initial_state@
                && tabu_view(tabu_list@) == Seq::<TabuView>::empty() && current_state.offers()
                == initial_state.offers(),
            limit >= 1 ==> first_move_made::<S>(initial_state, costs),
        decreases iterations - limit,
    {
        let ghost before = current_state@;
        let ghost sure = current_state.offers();
        let ghost list = tabu_view(tabu_list@);
        let ghost best_before = S::cost(optimum@);
        let (neighbor_cost, movement, activities) = best_admissible_neighbors(
            &mut current_state,
            neighbors,
            &mut tabu_list,
            &optimum,
        );
        if movement != 0 {
            current_state.set_neighbor(movement);
        }
        let cost: u32 = current_state.get_cost();
        proof {
            // the step that was made
            assert(stepped::<S>(before, current_state@)) by {
                if movement != 0 {
                    assert(S::admits(before, movement as int));
                }
            }
            lemma_chained_push::<S>(initial_state@, views, current_state@);
            if limit == 0 {
                if sure && all_count::<S>(before, best_before, list) {
                    assert(movement != 0);
                    assert(S::admits(before, movement as int) && cost == S::move_cost(
                        before,
                        movement as int,
                    ));
                }
            }
        }
        if cost < optimum.get_cost() {
            optimum = current_state.clone();
            assert(cloned::<S>(current_state, optimum));
        }
        let ghost old_log = log@;
        let ghost old_costs = costs;
        let ghost old_views = views;
        log.push(decimal_string(cost as u64));
        proof {
            costs = costs.push(cost);
            views = views.push(current_state@);
            assert forall|j: int| 0 <= j < costs.len() implies #[trigger] costs[j] == S::cost(
                views[j + 1],
            ) by {
                if j < old_costs.len() {
                    assert(costs[j] == old_costs[j]);
                    assert(views[j + 1] == old_views[j + 1]);
                }
            }
            assert(first_move_made::<S>(initial_state, costs)) by {
                if limit >= 1 {
                    assert(costs[0] == old_costs[0]);
                }
            }
            assert forall|i: int| 0 <= i < log@.len() implies (#[trigger] log@[i])@ == decimal(
                costs[i] as nat,
            ) by {
                if i < old_log.len() {
                    assert(log@[i] == old_log[i]);
                    assert(costs[i] == old_costs[i]);
                }
            }
            assert(is_least(S::cost(optimum@), S::cost(initial_state@), costs)) by {
                assert forall|i: int| 0 <= i < costs.len() implies S::cost(optimum@)
                    <= #[trigger] costs[i] by {
                    if i < old_costs.len() {
                        assert(costs[i] == old_costs[i]);
                    }
                }
                if S::cost(optimum@) != S::cost(initial_state@) {
                    if S::cost(optimum@) == cost {
                        assert(costs[old_costs.len() as int] == cost);
                    } else {
                        let i = choose|i: int|
                            0 <= i < old_costs.len() && #[trigger] old_costs[i] == S::cost(
                                optimum@,
                            );
                        assert(costs[i] == old_costs[i]);
                    }
                }
            }
        }
        update_tabu_time(&mut tabu_list);
        if movement != 0 {
            tabu_list.push(TabuMv::new(activities, tabu_time));
        }
        limit += 1;
    }
    let found = (optimum, log);
    assert(traced::<S>(initial_state@, views, costs) && logged(found.1@, costs) && is_least(
        S::cost(found.0@),
        S::cost(initial_state@),
        costs,
    ) && views.contains(found.0@) && first_move_made::<S>(initial_state, costs));
    Ok(found)
}

} // verus!
