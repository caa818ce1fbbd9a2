use prcpsp::activity::Activity;
use prcpsp::error::ScheduleError;
use prcpsp::project::Project;
use prcpsp::rn_resource::RnResource;
use prcpsp::rn_resource_usage::RnResourceUsage;
use prcpsp::sa_state::SaState;
use prcpsp::text::decimal_string;
use prcpsp::utils::{
    get_log, get_time, log_head, write_current, write_log_random, write_log_sa, write_log_ts,
    write_neighbor,
};

fn link(activities: &mut Vec<Activity>, from: usize, to: usize) {
    let head = activities[to].id;
    let tail = activities[from].id;
    activities[from].add_successor(head);
    activities[to].add_anteccessor(tail);
}

fn unit(id: u32, duration: u32, usage: Vec<RnResourceUsage>) -> Activity {
    Activity::new(id, -1, id.to_string(), vec![], vec![], usage, duration, -1)
}

// The nine-activity benchmark on one resource of the given capacity.
fn network(capacity: u32) -> Project {
    let resource = RnResource::new(1, String::from("1"), capacity);
    let rows: Vec<(u32, u32, u32)> =
        vec![(2, 1, 1), (3, 2, 2), (4, 4, 2), (5, 3, 2), (6, 1, 2), (7, 5, 1), (8, 3, 2)];
    let mut activities = vec![unit(1, 0, vec![])];
    for (id, duration, usage) in rows {
        activities.push(unit(id, duration, vec![RnResourceUsage::new(resource.clone(), usage)]));
    }
    activities.push(unit(9, 0, vec![]));
    for (from, to) in
        [(0, 1), (0, 2), (0, 3), (0, 4), (1, 5), (5, 6), (4, 7), (2, 8), (3, 8), (6, 8), (7, 8)]
    {
        link(&mut activities, from, to);
    }
    Project::new(activities, vec![resource])
}

// A source, `inner` activities in a row, and a sink.
fn line(inner: u32) -> Project {
    let resource = RnResource::new(1, String::from("r"), 1);
    let mut activities = vec![unit(1, 0, vec![])];
    for k in 0..inner {
        activities.push(unit(k + 2, 1, vec![RnResourceUsage::new(resource.clone(), 1)]));
    }
    activities.push(unit(inner + 2, 0, vec![]));
    for k in 0..(inner as usize + 1) {
        link(&mut activities, k, k + 1);
    }
    Project::new(activities, vec![resource])
}

fn start_of(state: &SaState, id: u32) -> i32 {
    state.project.activities.iter().find(|a| a.id == id).unwrap().start_time
}

fn check_schedule(state: &SaState) {
    let activities = &state.project.activities;
    // every activity carries the time of its place in the list
    assert_eq!(state.planning.len(), activities.len());
    assert_eq!(state.times.len(), activities.len());
    for (i, id) in state.planning.iter().enumerate() {
        assert_eq!(start_of(state, *id), state.times[i]);
    }
    // precedence
    for a in activities {
        for p in &a.predecessors {
            let before = activities.iter().find(|x| x.id == *p).unwrap();
            assert!(before.start_time >= 0);
            assert!(before.start_time + before.duration as i32 <= a.start_time);
        }
    }
    // the times do not fall along the list
    for i in 1..state.times.len() {
        assert!(state.times[i - 1] <= state.times[i]);
    }
    // capacity at every instant
    let makespan = state.get_makespan() as i32;
    for r in &state.project.resources {
        for t in 0..makespan {
            let mut held = 0;
            for a in activities {
                if a.start_time <= t && t < a.start_time + a.duration as i32 {
                    for s in &a.supplies {
                        if s.resource.id == r.id {
                            held += s.usage;
                        }
                    }
                }
            }
            assert!(held <= r.capacity);
        }
    }
}

#[test]
fn first_schedule_of_the_benchmark() {
    let state = SaState::new(network(5), 11);
    assert_eq!(state.planning, vec![1, 2, 3, 4, 5, 6, 8, 7, 9]);
    assert_eq!(state.times, vec![0, 0, 0, 0, 2, 4, 5, 5, 10]);
    assert_eq!(state.get_makespan(), 10);
    check_schedule(&state);
}

#[test]
fn first_schedule_of_the_expansion() {
    let state = SaState::new(network(5).pre_emptive_project(), 11);
    assert_eq!(state.planning.len(), 21);
    assert_eq!(
        state.planning,
        vec![1, 2, 3, 5, 9, 12, 4, 6, 10, 13, 7, 11, 14, 8, 18, 15, 19, 16, 20, 17, 21]
    );
    assert_eq!(
        state.times,
        vec![0, 0, 0, 0, 1, 1, 2, 2, 3, 3, 3, 4, 4, 4, 5, 5, 6, 6, 7, 7, 8]
    );
    assert_eq!(state.get_makespan(), 8);
    check_schedule(&state);
}

#[test]
fn rotation_at_four() {
    let mut state = SaState::new(network(5), 11);
    assert!(state.is_admissible(4));
    let (cost, triple) = state.evaluate(4);
    assert_eq!(triple, vec![4, 5, 6]);
    assert_eq!(state.planning, vec![1, 2, 3, 4, 5, 6, 8, 7, 9]);
    state.change_planning(4);
    assert_eq!(state.planning, vec![1, 2, 3, 6, 4, 5, 8, 7, 9]);
    assert_eq!(state.get_makespan(), cost);
    assert!(state.get_makespan() >= 10);
    check_schedule(&state);
}

#[test]
fn tight_capacity_delays_the_end() {
    let state = SaState::new(network(3), 11);
    assert!(state.get_makespan() > 10);
    check_schedule(&state);
    let roomy = SaState::new(network(100), 11);
    // without a limit the order of the list alone delays the end
    assert_eq!(roomy.get_makespan(), 8);
    check_schedule(&roomy);
}

#[test]
fn the_first_schedule_is_repeatable() {
    let a = SaState::new(network(5), 1);
    let b = SaState::new(network(5), 2);
    assert_eq!(a.planning, b.planning);
    assert_eq!(a.times, b.times);
}

#[test]
fn rebuilding_twice_changes_nothing() {
    let mut state = SaState::new(network(5), 11);
    state.change_planning(4);
    let planning = state.planning.clone();
    state.get_planning();
    let once = (state.times.clone(), state.get_makespan());
    state.get_planning();
    assert_eq!(once, (state.times.clone(), state.get_makespan()));
    assert_eq!(planning, state.planning);
    // stale start times do not count
    for a in state.project.activities.iter_mut() {
        a.start_time = 3;
    }
    state.get_planning();
    assert_eq!(once, (state.times.clone(), state.get_makespan()));
}

#[test]
fn moves_rotate_independent_activities() {
    let mut state = SaState::new(network(5).pre_emptive_project(), 5);
    let n = state.planning.len();
    let mut places = vec![];
    for _ in 0..200 {
        let (cost, i, triple) = state.get_neighbor();
        assert!(i >= 2 && i <= n - 3);
        assert!(state.is_admissible(i));
        assert_eq!(triple, vec![state.planning[i - 1], state.planning[i], state.planning[i + 1]]);
        for x in &triple {
            let a = state.project.activities.iter().find(|a| a.id == *x).unwrap();
            for y in &triple {
                assert!(!a.predecessors.contains(y));
                assert!(!a.successors.contains(y));
            }
        }
        assert_eq!(state.evaluate(i).0, cost);
        if !places.contains(&i) {
            places.push(i);
        }
    }
    assert!(places.len() > 1);
}

#[test]
fn no_move_in_a_line() {
    // every two neighbours in the list are joined by an arc
    let mut state = SaState::new(line(6), 9);
    state.set_attempts(50);
    let (cost, i, triple) = state.get_neighbor();
    assert_eq!(i, 0);
    assert_eq!(cost, 6);
    assert!(triple.is_empty());
    for k in 0..state.planning.len() + 2 {
        assert!(!state.is_admissible(k));
    }
    // too short for a move
    let mut short = SaState::new(line(2), 9);
    assert_eq!(short.get_neighbor(), (2, 0, vec![]));
}

#[test]
fn expansion_replaces_each_activity_by_a_chain() {
    let project = network(5);
    let expanded = project.pre_emptive_project();
    let mut next = 2;
    for a in &project.activities[1..8] {
        let chain: Vec<&Activity> =
            expanded.activities.iter().filter(|s| s.parent == a.id as i32 && s.id != 1).collect();
        assert_eq!(chain.len() as u32, a.duration);
        for (o, s) in chain.iter().enumerate() {
            assert_eq!(s.id, next);
            assert_eq!(s.name, next.to_string());
            assert_eq!(s.duration, 1);
            assert_eq!(s.start_time, -1);
            assert_eq!(s.supplies.len(), 1);
            assert_eq!(s.supplies[0].usage, a.supplies[0].usage);
            if o > 0 {
                assert_eq!(s.predecessors, vec![next - 1]);
            }
            if o + 1 < chain.len() {
                assert_eq!(s.successors, vec![next + 1]);
            }
            next += 1;
        }
    }
    assert_eq!(expanded.activities.len(), 21);
    assert_eq!(expanded.activities[0].id, 1);
    assert_eq!(expanded.activities[0].parent, 1);
    assert_eq!(expanded.activities[0].duration, 0);
    assert_eq!(expanded.activities[0].successors, vec![2, 3, 5, 9]);
    assert_eq!(expanded.activities[20].id, 21);
    assert_eq!(expanded.activities[20].parent, 9);
    assert_eq!(expanded.activities[20].predecessors, vec![4, 8, 17, 20]);
    assert_eq!(expanded.activities[11].predecessors, vec![2]);
    assert_eq!(expanded.activities[10].successors, vec![18]);
    assert_eq!(expanded.resources.len(), 1);
    assert_eq!(expanded.resources[0].capacity, 5);
    assert!(expanded.validate().is_ok());
}

#[test]
fn validation_accepts_the_benchmark() {
    assert_eq!(network(5).validate(), Ok(()));
    assert_eq!(network(2).validate(), Ok(()));
    assert_eq!(line(1).validate(), Ok(()));
}

#[test]
fn validation_refuses_broken_projects() {
    let empty = Project::new(vec![], vec![]);
    assert_eq!(empty.validate(), Err(ScheduleError::ParameterOutOfRange));

    // usage above capacity
    assert_eq!(network(1).validate(), Err(ScheduleError::SchemaViolation));

    // an identity twice
    let mut twice = network(5);
    twice.activities[3].id = 3;
    assert_eq!(twice.validate(), Err(ScheduleError::SchemaViolation));

    // an arc recorded at one end only
    let mut lopsided = network(5);
    lopsided.activities[2].add_successor(8);
    assert_eq!(lopsided.validate(), Err(ScheduleError::SchemaViolation));

    // an arc to nowhere
    let mut astray = network(5);
    astray.activities[2].add_successor(77);
    assert_eq!(astray.validate(), Err(ScheduleError::SchemaViolation));

    // a cycle: 6 -> 7 -> 6
    let mut cyclic = network(5);
    link(&mut cyclic.activities, 6, 5);
    assert_eq!(cyclic.validate(), Err(ScheduleError::SchemaViolation));

    // a source that takes time
    let mut slow = network(5);
    slow.activities[0].duration = 1;
    assert_eq!(slow.validate(), Err(ScheduleError::SchemaViolation));

    // an activity that nothing leads to
    let mut loose = network(5);
    loose.activities.insert(1, unit(50, 1, vec![]));
    assert_eq!(loose.validate(), Err(ScheduleError::SchemaViolation));

    // a usage of a resource that the project does not have
    let mut foreign = network(5);
    let other = RnResource::new(2, String::from("2"), 9);
    foreign.activities[1].supplies.push(RnResourceUsage::new(other, 1));
    assert_eq!(foreign.validate(), Err(ScheduleError::SchemaViolation));

    // durations that leave no room on the time axis
    let mut long = network(5);
    long.activities[1].duration = 2_147_483_621;
    assert_eq!(long.validate(), Err(ScheduleError::ParameterOutOfRange));
    // the durations and one instant for each activity fit exactly
    long.activities[1].duration = 2_147_483_620;
    assert_eq!(long.validate(), Ok(()));
    assert_eq!(SaState::new(long, 1).get_makespan(), 2_147_483_626);
}

#[test]
fn earliest_start_refuses() {
    let mut project = network(5);
    let six = project.activities[5].clone();
    assert_eq!(project.earliest_start(&six, 0), Err(ScheduleError::NotPlanned));
    project.activities[1].start_time = 4;
    assert_eq!(project.earliest_start(&six, 0), Ok(5));
    assert_eq!(project.earliest_start(&six, 9), Ok(9));
    assert_eq!(project.earliest_start(&six, -3), Ok(5));
    let source = project.activities[0].clone();
    assert_eq!(project.earliest_start(&source, -3), Ok(-3));
    assert_eq!(project.earliest_start(&source, 0), Ok(0));
    assert_eq!(project.get_time_planning(source.clone(), -7), -7);
    let mut lost = six.clone();
    lost.add_anteccessor(77);
    assert_eq!(project.earliest_start(&lost, 0), Err(ScheduleError::SchemaViolation));
}

#[test]
fn primitives_on_the_benchmark() {
    let mut project = network(5);
    assert_eq!(project.find(4), Some(3));
    assert_eq!(project.find(40), None);
    let four = project.activities[3].clone();
    assert!(!project.predecessors_planned(four.clone()));
    project.set_time(project.activities[0].clone(), 0);
    assert!(project.predecessors_planned(four.clone()));
    assert_eq!(project.get_time_planning(four.clone(), 2), 2);
    // 3 runs from 0 to 2 and holds 2, 5 runs from 1 to 4 and holds 2
    project.set_time(project.activities[2].clone(), 0);
    project.set_time(project.activities[4].clone(), 1);
    assert!(!project.resource_conflict(four.clone(), 0));
    assert!(project.resource_conflict(four.clone(), 1));
    // 3 has ended at 2
    assert!(!project.resource_conflict(four.clone(), 2));
    assert!(!project.resource_conflict(four.clone(), 4));
    assert!(four.is_successor(project.activities[8].clone()));
    assert!(four.is_predecessor(project.activities[0].clone()));
    assert!(!four.is_predecessor(project.activities[8].clone()));
    project.clear_times();
    assert!(project.activities.iter().all(|a| a.start_time == -1));
    // an activity alone that asks for more than there is
    let greedy = unit(60, 1, vec![RnResourceUsage::new(RnResource::new(1, String::from("1"), 5), 6)]);
    assert!(project.resource_conflict(greedy, 0));
}

#[test]
fn state_from_a_planned_project() {
    let mut project = network(5);
    let times = [0, 0, 0, 0, 2, 4, 5, 5, 10];
    let planning = [1, 2, 3, 4, 5, 6, 8, 7, 9];
    for (i, id) in planning.iter().enumerate() {
        project.activities.iter_mut().find(|a| a.id == *id).unwrap().start_time = times[i];
    }
    let state = SaState::from_project_planned(project.clone(), 1).unwrap();
    // 7 and 8 both start at 5 and keep the order of the project
    assert_eq!(state.planning, vec![1, 2, 3, 4, 5, 6, 7, 8, 9]);
    assert_eq!(state.times, vec![0, 0, 0, 0, 2, 4, 5, 5, 10]);
    assert_eq!(state.get_makespan(), 10);

    project.activities[8].start_time = 4;
    assert!(matches!(
        SaState::from_project_planned(project.clone(), 1),
        Err(ScheduleError::SchemaViolation)
    ));
    project.activities[8].start_time = 10;
    project.activities[0].start_time = 1;
    assert!(matches!(
        SaState::from_project_planned(project, 1),
        Err(ScheduleError::SchemaViolation)
    ));
    assert!(matches!(
        SaState::from_project_planned(Project::new(vec![], vec![]), 1),
        Err(ScheduleError::ParameterOutOfRange)
    ));
}

#[test]
fn state_as_text() {
    let state = SaState::new(network(5), 11);
    assert_eq!(
        state.get_string(),
        "   [1, 2, 3, 4, 5, 6, 8, 7, 9]\n    [0, 0, 0, 0, 2, 4, 5, 5, 10]"
    );
    let mut planned = line(1);
    planned.activities[0].start_time = -7;
    planned.activities[1].start_time = -7;
    planned.activities[2].start_time = 12;
    let odd = SaState::from_project_planned(planned, 1).unwrap();
    assert_eq!(odd.get_string(), "   [1, 2, 3]\n    [-7, -7, 12]");
}

#[test]
fn numbers_as_text() {
    assert_eq!(decimal_string(0), "0");
    assert_eq!(decimal_string(7), "7");
    assert_eq!(decimal_string(10), "10");
    assert_eq!(decimal_string(4096), "4096");
    assert_eq!(decimal_string(u64::MAX), "18446744073709551615");
}

#[test]
fn spans_of_time() {
    assert_eq!(get_time(0), "0:0:0 (hh:mm:ss)");
    assert_eq!(get_time(59), "0:0:59 (hh:mm:ss)");
    assert_eq!(get_time(3661), "1:1:1 (hh:mm:ss)");
    assert_eq!(get_time(86399), "23:59:59 (hh:mm:ss)");
    assert_eq!(get_time(360000), "100:0:0 (hh:mm:ss)");
}

#[test]
fn names_of_the_charts() {
    let (chart, state) =
        write_current(3, String::from("<svg/>"), String::from("<s/>"), String::from("TS"));
    assert_eq!(chart.name, "it-3/TS-curr-it-3.svg");
    assert_eq!(chart.content, "<svg/>");
    assert_eq!(state.name, "it-3/TS-curr-it-3-state.svg");
    assert_eq!(state.content, "<s/>");
    let (chart, state) = write_neighbor(12, 0, String::from("a"), String::from("b"));
    assert_eq!(chart.name, "it-12/it-12-neig-1.svg");
    assert_eq!(chart.content, "a");
    assert_eq!(state.name, "it-12/it-12-neig-1-state.svg");
    assert_eq!(state.content, "b");
    let (chart, _) = write_neighbor(0, u32::MAX, String::new(), String::new());
    assert_eq!(chart.name, "it-0/it-0-neig-4294967296.svg");
}

#[test]
fn no_move_as_an_error() {
    let mut state = SaState::new(line(6), 9);
    state.set_attempts(20);
    assert_eq!(state.neighbor(), Err(ScheduleError::NoMove));
    let mut free = SaState::new(network(5), 9);
    let (cost, place, triple) = free.neighbor().unwrap();
    assert!(place >= 2 && place <= 6);
    assert_eq!(free.evaluate(place), (cost, triple));
}

#[test]
fn entries_of_the_log() {
    assert_eq!(
        write_log_random(42, 10, 7, 1, 5, 12),
        "\n Datos del ejemplar: \n  Semilla: 42, Costo optimo: 10, Actividades: 7, Recursos: 1, Unidades de recursos: 5, Costo inicial: 12"
    );
    let head = log_head(
        &String::from("   [1]\n    [0]"),
        "Recocido Simulado",
        9,
        7,
        1,
        &String::from("0:0:3 (hh:mm:ss)"),
    );
    assert_eq!(
        head,
        "\n >>>>>>>>>>> Ejemplar: \n   [1]\n    [0]\n Metaheuristica: Recocido Simulado, Costo: 9, Semilla: 7, Interrupciones: 1, Tiempo: 0:0:3 (hh:mm:ss), "
    );
    let (entry, history) = write_log_ts(
        String::from("S"),
        8,
        5,
        3,
        100,
        7,
        vec![String::from("10"), String::from("9"), String::from("8")],
        String::from("T"),
        0,
    );
    assert_eq!(
        entry,
        "\n >>>>>>>>>>> Ejemplar: \nS\n Metaheuristica: Busqueda Tabu, Costo: 8, Semilla: 7, Interrupciones: 0, Tiempo: T, Tiempo tabu: 5, Vecinos: 3, Iteraciones: 100"
    );
    assert_eq!(history, "0 10\n20 9\n40 8\n");
    let (entry, history) = write_log_sa(
        String::from("S"),
        8,
        50,
        100.0f32.to_string(),
        0.01f32.to_string(),
        0.95f32.to_string(),
        42,
        vec![String::from("10")],
        String::from("T"),
        1,
    );
    assert_eq!(
        entry,
        "\n >>>>>>>>>>> Ejemplar: \nS\n Metaheuristica: Recocido Simulado, Costo: 8, Semilla: 42, Interrupciones: 1, Tiempo: T, Iteraciones: 50, Temperatura: 100, Epsilon: 0.01, Decremento: 0.95"
    );
    assert_eq!(history, "0 10\n");
    assert_eq!(get_log(vec![]), "");
    assert_eq!(get_log(vec![String::from("x")]), "0 x\n");
}

#[test]
fn copies_draw_alike() {
    let state = SaState::new(network(5).pre_emptive_project(), 21);
    let mut a = state.clone();
    let mut b = state.clone();
    for _ in 0..20 {
        assert_eq!(a.get_neighbor(), b.get_neighbor());
    }
    assert_eq!(a.planning, b.planning);
}
