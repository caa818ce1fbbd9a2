use prcpsp::activity::Activity;
use prcpsp::error::ScheduleError;
use prcpsp::project::Project;
use prcpsp::rn_resource::RnResource;
use prcpsp::rn_resource_usage::RnResourceUsage;
use prcpsp::sa_state::SaState;
use prcpsp::simulated_annealing::{
    cost_rise, judge, simulated_annealing, Annealing, Chance, Greedy, Verdict,
};
use prcpsp::state::State;
use prcpsp::tabu_mv::TabuMv;
use prcpsp::tabu_search::{
    aspiration_criteria, best_admissible_neighbors, consider, find_tabu, tabu_search,
    update_tabu_time,
};
use rand::rngs::StdRng;
use rand::{Rng, SeedableRng};

fn arc(activities: &mut Vec<Activity>, from: usize, to: usize) {
    let head = activities[to].id;
    let tail = activities[from].id;
    activities[from].add_successor(head);
    activities[to].add_anteccessor(tail);
}

// The nine-activity benchmark on one resource of the given capacity.
fn benchmark(capacity: u32) -> Project {
    let resource = RnResource::new(1, String::from("1"), capacity);
    let rows: Vec<(u32, u32, u32)> =
        vec![(2, 1, 1), (3, 2, 2), (4, 4, 2), (5, 3, 2), (6, 1, 2), (7, 5, 1), (8, 3, 2)];
    let mut activities =
        vec![Activity::new(1, -1, String::from("1"), vec![], vec![], vec![], 0, -1)];
    for (id, duration, usage) in rows {
        let supply = RnResourceUsage::new(resource.clone(), usage);
        activities.push(Activity::new(
            id,
            -1,
            id.to_string(),
            vec![],
            vec![],
            vec![supply],
            duration,
            -1,
        ));
    }
    activities.push(Activity::new(9, -1, String::from("9"), vec![], vec![], vec![], 0, -1));
    for (from, to) in
        [(0, 1), (0, 2), (0, 3), (0, 4), (1, 5), (5, 6), (4, 7), (2, 8), (3, 8), (6, 8), (7, 8)]
    {
        arc(&mut activities, from, to);
    }
    Project::new(activities, vec![resource])
}

fn anneal(
    initial: SaState,
    iterations: u32,
    mut temperature: f32,
    decrement: f32,
    epsilon: f32,
    seed: u64,
) -> (SaState, Vec<String>, Vec<u32>) {
    let mut run = Annealing::new(initial);
    let mut rng = StdRng::seed_from_u64(seed);
    let mut bests: Vec<u32> = vec![];
    while temperature > epsilon {
        let mut n = 0;
        while n < iterations {
            let (verdict, movement, rise) = run.propose();
            match verdict {
                Verdict::Stop => break,
                Verdict::Commit => run.accept(movement),
                Verdict::Draw => {
                    let diff = (-1.0 * (rise as f32)) / temperature;
                    let random: f32 = rng.gen::<f32>();
                    if random < diff.exp() {
                        run.accept(movement);
                    }
                }
            }
            n += 1;
        }
        temperature *= decrement;
        run.close_level();
        bests.push(run.optimum.get_cost());
    }
    let (best, log) = run.finish();
    (best, log, bests)
}

struct Metropolis {
    rng: StdRng,
    level: u32,
    temperature: f32,
    decrement: f32,
    asked: u32,
}

impl Chance for Metropolis {
    fn takes(&mut self, level: u32, rise: i64) -> bool {
        assert!(rise > 0);
        while self.level < level {
            self.temperature *= self.decrement;
            self.level += 1;
        }
        self.asked += 1;
        let diff = (-1.0 * (rise as f32)) / self.temperature;
        let random: f32 = self.rng.gen::<f32>();
        random < diff.exp()
    }
}

fn levels(mut temperature: f32, decrement: f32, epsilon: f32) -> u32 {
    let mut total = 0;
    while temperature > epsilon {
        temperature *= decrement;
        total += 1;
    }
    total
}

fn metropolis(seed: u64) -> (SaState, Vec<String>, u32) {
    let mut chance = Metropolis {
        rng: StdRng::seed_from_u64(seed),
        level: 0,
        temperature: 100.0,
        decrement: 0.95,
        asked: 0,
    };
    let total = levels(100.0, 0.95, 0.01);
    let (best, log) =
        simulated_annealing(SaState::new(benchmark(5), seed), 50, total, &mut chance).unwrap();
    assert_eq!(log.len() as u32, total);
    (best, log, chance.asked)
}

#[test]
fn annealing_is_repeatable() {
    let first = metropolis(42);
    let second = metropolis(42);
    assert_eq!(first.0.get_makespan(), second.0.get_makespan());
    assert_eq!(first.0.planning, second.0.planning);
    assert_eq!(first.0.times, second.0.times);
    assert_eq!(first.1, second.1);
    assert_eq!(first.2, second.2);
    assert!(first.2 > 0);
    let least = first.1.iter().map(|c| c.parse::<u32>().unwrap()).min().unwrap().min(10);
    assert_eq!(first.0.get_makespan(), least);
    // step by step the same search comes out
    let third = anneal(SaState::new(benchmark(5), 42), 50, 100.0, 0.95, 0.01, 42);
    assert_eq!(first.1, third.1);
    assert_eq!(first.0.planning, third.0.planning);
}

#[test]
fn annealing_without_chance_never_climbs() {
    let (best, log) =
        simulated_annealing(SaState::new(benchmark(5), 5), 30, 40, &mut Greedy).unwrap();
    assert_eq!(log.len(), 40);
    let mut before = 10;
    for cost in &log {
        let cost: u32 = cost.parse().unwrap();
        assert!(cost <= before);
        before = cost;
    }
    assert_eq!(best.get_makespan(), before);
}

#[test]
fn annealing_refuses_zero_parameters() {
    let state = SaState::new(benchmark(5), 7);
    assert!(matches!(
        simulated_annealing(state.clone(), 0, 3, &mut Greedy),
        Err(ScheduleError::ParameterOutOfRange)
    ));
    assert!(matches!(
        simulated_annealing(state, 3, 0, &mut Greedy),
        Err(ScheduleError::ParameterOutOfRange)
    ));
}

#[test]
fn annealing_best_never_rises() {
    let (best, log, bests) = anneal(SaState::new(benchmark(5), 3), 20, 50.0, 0.9, 0.1, 3);
    assert_eq!(log.len(), bests.len());
    assert!(!log.is_empty());
    let mut before = 10;
    for (i, cost) in bests.iter().enumerate() {
        assert!(*cost <= before);
        let seen: u32 = log[i].parse().unwrap();
        assert!(*cost <= seen);
        before = *cost;
    }
    assert_eq!(best.get_makespan(), before);
}

#[test]
fn annealing_verdicts() {
    assert_eq!(judge(10, 0, 10), Verdict::Stop);
    assert_eq!(judge(9, 3, 10), Verdict::Commit);
    assert_eq!(judge(10, 3, 10), Verdict::Commit);
    assert_eq!(judge(11, 3, 10), Verdict::Draw);
    assert_eq!(cost_rise(11, 10), 1);
    assert_eq!(cost_rise(8, 10), -2);
    assert_eq!(cost_rise(u32::MAX, 0), 4294967295);
}

#[test]
fn tabu_search_refuses_zero_parameters() {
    let state = SaState::new(benchmark(5), 7);
    assert!(matches!(
        tabu_search(state.clone(), 0, 3, 100),
        Err(ScheduleError::ParameterOutOfRange)
    ));
    assert!(matches!(
        tabu_search(state.clone(), 5, 0, 100),
        Err(ScheduleError::ParameterOutOfRange)
    ));
    assert!(matches!(tabu_search(state, 5, 3, 0), Err(ScheduleError::ParameterOutOfRange)));
}

#[test]
fn tabu_search_keeps_the_best() {
    let state = SaState::new(benchmark(5), 7);
    let (best, log) = tabu_search(state, 5, 3, 100).unwrap();
    assert_eq!(log.len(), 100);
    let least = log.iter().map(|c| c.parse::<u32>().unwrap()).min().unwrap().min(10);
    assert_eq!(best.get_makespan(), least);
    let again = tabu_search(SaState::new(benchmark(5), 7), 5, 3, 100).unwrap();
    assert_eq!(again.0.planning, best.planning);
    assert_eq!(again.1, log);
}

// Runs the search step by step and counts the moves made although a record
// forbade them; each of them must have beaten the best state seen.
#[test]
fn tabu_moves_beat_the_best() {
    let tenure = 5;
    let mut current = SaState::new(benchmark(5), 7);
    let mut optimum = current.clone();
    let mut list: Vec<TabuMv> = vec![];
    let mut made = 0;
    let mut aspired = 0;
    for _ in 0..100 {
        let before = list.clone();
        let best_cost = optimum.get_cost();
        let (cost, movement, activities) =
            best_admissible_neighbors(&mut current, 3, &mut list, &optimum);
        if movement != 0 {
            let was_tabu = find_tabu(&before, &activities).is_some();
            assert_ne!(cost, current.get_cost());
            current.set_neighbor(movement);
            assert_eq!(current.get_cost(), cost);
            made += 1;
            if was_tabu {
                assert!(cost < best_cost);
                assert_eq!(list.len() + 1, before.len());
                aspired += 1;
            } else {
                assert_eq!(list.len(), before.len());
            }
        }
        if current.get_cost() < optimum.get_cost() {
            optimum = current.clone();
        }
        if movement != 0 && find_tabu(&before, &activities).is_some() {
            assert_eq!(current.get_cost(), optimum.get_cost());
        }
        update_tabu_time(&mut list);
        if movement != 0 {
            list.push(TabuMv::new(activities, tenure));
        }
    }
    assert!(made > 0);
    assert!(aspired > 0, "moves made: {}, of them against a record: {}", made, aspired);
}

#[test]
fn candidates_are_weighed() {
    // no move
    assert_eq!(consider(10, 0, 9, 0, false, 10, 10), (false, false));
    // tabu and not better than the best
    assert_eq!(consider(10, 0, 9, 4, true, 10, 9), (false, false));
    // tabu but better than the best
    assert_eq!(consider(10, 0, 8, 4, true, 10, 9), (true, true));
    // same cost as the state: allowed, not held
    assert_eq!(consider(10, 0, 10, 4, false, 10, 9), (true, false));
    // dearer than what is held
    assert_eq!(consider(8, 2, 9, 4, false, 10, 9), (true, false));
    // equal to what is held: the earlier stays
    assert_eq!(consider(8, 2, 8, 4, false, 10, 9), (true, false));
    // cheaper than what is held
    assert_eq!(consider(9, 2, 8, 4, false, 10, 9), (true, true));
    // dearer than the state, nothing held yet
    assert_eq!(consider(10, 0, 12, 4, false, 10, 9), (true, true));
}

#[test]
fn aspiration_needs_a_better_cost() {
    let state = SaState::new(benchmark(5), 1);
    assert!(aspiration_criteria(9, &state));
    assert!(!aspiration_criteria(10, &state));
    assert!(!aspiration_criteria(11, &state));
}

#[test]
fn tabu_records_age() {
    let mut list = vec![
        TabuMv::new(vec![1, 2, 3], 1),
        TabuMv::new(vec![4, 5, 6], 2),
        TabuMv::new(vec![7, 8, 9], 5),
        TabuMv::new(vec![3, 2, 1], 0),
    ];
    update_tabu_time(&mut list);
    assert_eq!(list.len(), 2);
    assert_eq!(list[0].movements, vec![4, 5, 6]);
    assert_eq!(list[0].tabu_time, 1);
    assert_eq!(list[1].movements, vec![7, 8, 9]);
    assert_eq!(list[1].tabu_time, 4);
    update_tabu_time(&mut list);
    assert_eq!(list.len(), 1);
    assert_eq!(list[0].tabu_time, 3);
}

#[test]
fn tabu_records_match_sets() {
    let record = TabuMv::new(vec![4, 5, 6], 3);
    assert!(record.is_tabu(vec![4, 5, 6]));
    assert!(record.is_tabu(vec![6, 4, 5]));
    assert!(!record.is_tabu(vec![4, 5, 7]));
    assert!(!record.is_tabu(vec![4, 5]));
    // the same set, whatever stands twice
    assert!(record.is_tabu(vec![4, 5, 6, 6]));
    assert!(!record.is_tabu(vec![]));
    // a record with no iteration left forbids nothing
    assert!(!TabuMv::new(vec![4, 5, 6], 0).is_tabu(vec![4, 5, 6]));
    assert!(TabuMv::new(vec![4, 4, 5], 1).is_tabu(vec![5, 4]));
    let list = vec![TabuMv::new(vec![1, 2, 3], 1), record.clone(), record];
    assert_eq!(find_tabu(&list, &vec![5, 6, 4]), Some(1));
    assert_eq!(find_tabu(&list, &vec![5, 6, 7]), None);
}

#[test]
fn state_as_a_search_state() {
    let mut state = SaState::new(benchmark(5), 11);
    assert_eq!(State::get_cost(&state), 10);
    assert_eq!(
        State::to_string(&state),
        "   [1, 2, 3, 4, 5, 6, 8, 7, 9]\n    [0, 0, 0, 0, 2, 4, 5, 5, 10]"
    );
    let (cost, movement, activities) = State::get_neighbor(&mut state);
    assert!(movement >= 2 && movement <= 6);
    assert_eq!(activities.len(), 3);
    assert_eq!(
        activities,
        vec![state.planning[movement - 1], state.planning[movement], state.planning[movement + 1]]
    );
    State::set_neighbor(&mut state, movement);
    assert_eq!(State::get_cost(&state), cost);
}
