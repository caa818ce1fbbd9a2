use prcpsp::activity::Activity;
use prcpsp::error::ScheduleError;
use prcpsp::instance::{parse_number, read_random_prcpsp};
use prcpsp::project::Project;
use prcpsp::random_rcpsp::{get_intervals_resource, get_intervals_time};
use prcpsp::rn_resource::RnResource;
use prcpsp::rn_resource_usage::RnResourceUsage;
use prcpsp::sa_state::SaState;
use prcpsp::state::State;
use std::cmp::Ordering;

fn join(activities: &mut Vec<Activity>, from: usize, to: usize) {
    let head = activities[to].id;
    let tail = activities[from].id;
    activities[from].add_successor(head);
    activities[to].add_anteccessor(tail);
}

fn plain(id: u32, duration: u32, usage: Vec<RnResourceUsage>) -> Activity {
    Activity::new(id, -1, id.to_string(), vec![], vec![], usage, duration, -1)
}

// A source, one activity of the given duration and usage, and a sink.
fn single(duration: u32, usage: u32, capacity: u32) -> Project {
    let resource = RnResource::new(1, String::from("r"), capacity);
    let mut activities = vec![
        plain(1, 0, vec![]),
        plain(2, duration, vec![RnResourceUsage::new(resource.clone(), usage)]),
        plain(3, 0, vec![]),
    ];
    join(&mut activities, 0, 1);
    join(&mut activities, 1, 2);
    Project::new(activities, vec![resource])
}

// The nine-activity benchmark.
fn nine() -> Project {
    let resource = RnResource::new(1, String::from("1"), 5);
    let rows: Vec<(u32, u32, u32)> =
        vec![(2, 1, 1), (3, 2, 2), (4, 4, 2), (5, 3, 2), (6, 1, 2), (7, 5, 1), (8, 3, 2)];
    let mut activities = vec![plain(1, 0, vec![])];
    for (id, duration, usage) in rows {
        activities.push(plain(id, duration, vec![RnResourceUsage::new(resource.clone(), usage)]));
    }
    activities.push(plain(9, 0, vec![]));
    for (from, to) in
        [(0, 1), (0, 2), (0, 3), (0, 4), (1, 5), (5, 6), (4, 7), (2, 8), (3, 8), (6, 8), (7, 8)]
    {
        join(&mut activities, from, to);
    }
    Project::new(activities, vec![resource])
}

fn line(x1: u32, x2: u32, y1: u32, y2: u32) -> String {
    format!(
        "  <line x1='{}' x2='{}' y1='{}' y2='{}' stroke='black' stroke-width='5'/>\n",
        x1, x2, y1, y2
    )
}

fn mark(x: u32, y: u32, text: u32) -> String {
    format!("   <text x='{}' y='{}' font-size='60' text-anchor='middle'>{}</text>\n", x, y, text)
}

#[test]
fn chart_of_one_activity() {
    let state = SaState::new(single(2, 1, 2), 1);
    assert_eq!(state.times, vec![0, 0, 2]);
    let mut want = String::from(
        "<svg version='1.1' width='800' height='800' xmlns='http://www.w3.org/2000/svg'>\n",
    );
    want.push_str(&line(500, 700, 300, 300));
    want.push_str(&line(500, 500, 100, 300));
    want.push_str("   <text x='400' y='600' font-size='100' text-anchor='middle'>Tiempo</text>\n");
    for k in 0..3 {
        want.push_str(&line(500 + 100 * k, 500 + 100 * k, 300, 400));
        want.push_str(&mark(500 + 100 * k, 450, k));
    }
    want.push_str(
        "   <text x='-400' y='200' transform='rotate(270)' font-size='100' text-anchor='middle'>Recursos</text>\n",
    );
    for k in 0..3 {
        want.push_str(&line(400, 500, 300 - 100 * k, 300 - 100 * k));
        want.push_str(&mark(350, 320 - 100 * k, k));
    }
    want.push_str(
        "  <rect x='500' y='200' width='200' height='100' fill='rgb(100, 149, 237)' stroke='black' stroke-width='.7mm' />\n",
    );
    want.push_str("   <text x='600' y='250' font-size='50' text-anchor='middle'>2</text>\n");
    want.push_str("</svg>");
    assert_eq!(state.get_svg(), Some(want.clone()));
    assert_eq!(State::to_file(&state), want);
}

fn rect(x: u32, y: u32, width: u32, height: u32) -> String {
    format!(
        "  <rect x='{}' y='{}' width='{}' height='{}' fill='rgb(100, 149, 237)' stroke='black' stroke-width='.7mm' />\n",
        x, y, width, height
    )
}

#[test]
fn chart_of_the_benchmark() {
    let state = SaState::new(nine(), 11);
    let chart = state.get_svg().unwrap();
    assert!(chart.starts_with(
        "<svg version='1.1' width='1600' height='1100' xmlns='http://www.w3.org/2000/svg'>\n"
    ));
    assert!(chart.ends_with("</svg>"));
    // 2, 3 and 4 start at 0 and stand one above the other
    assert!(chart.contains(&rect(500, 500, 100, 100)));
    assert!(chart.contains(&rect(500, 300, 200, 200)));
    assert!(chart.contains(&rect(500, 100, 400, 200)));
    // 5 starts at 2 below 4, which still runs
    assert!(chart.contains(&rect(700, 400, 300, 200)));
    // 6 starts at 4 and goes above 5, which still runs; 8 and 7 start at 5
    assert!(chart.contains(&rect(900, 200, 100, 200)));
    assert!(chart.contains(&rect(1000, 400, 300, 200)));
    assert!(chart.contains(&rect(1000, 300, 500, 100)));
    assert_eq!(chart.matches("<rect").count(), 7);
    assert_eq!(chart.matches("<line").count(), 2 + 11 + 6);
    // the units of the expansion carry the name of their parent
    let pieces = SaState::new(nine().pre_emptive_project(), 11).get_svg().unwrap();
    assert_eq!(pieces.matches("<rect").count(), 19);
    assert_eq!(pieces.matches("text-anchor='middle'>7</text>").count(), 5 + 1);
}

#[test]
fn chart_moves_a_box_above_one_that_runs() {
    let resource = RnResource::new(1, String::from("r"), 3);
    let mut activities = vec![
        plain(1, 0, vec![]),
        plain(2, 3, vec![RnResourceUsage::new(resource.clone(), 1)]),
        plain(3, 1, vec![RnResourceUsage::new(resource.clone(), 3)]),
        plain(4, 1, vec![RnResourceUsage::new(resource.clone(), 1)]),
        plain(5, 0, vec![]),
    ];
    for (from, to) in [(0, 1), (0, 2), (2, 3), (1, 4), (3, 4)] {
        join(&mut activities, from, to);
    }
    let state = SaState::new(Project::new(activities, vec![resource]), 1);
    assert_eq!(state.planning, vec![1, 2, 3, 4, 5]);
    assert_eq!(state.times, vec![0, 0, 3, 4, 5]);
    let chart = state.get_svg().unwrap();
    assert!(chart.contains(&rect(500, 300, 300, 100)));
    assert!(chart.contains(&rect(800, 100, 100, 300)));
    assert!(chart.contains(&rect(900, 300, 100, 100)));
}

#[test]
fn chart_that_cannot_be_drawn() {
    // a time axis beyond the range of the chart
    let mut long = single(50_000_000, 1, 1);
    long.activities[1].start_time = 0;
    long.activities[0].start_time = 0;
    long.activities[2].start_time = 50_000_000;
    let state = SaState::from_project_planned(long, 1).unwrap();
    assert_eq!(state.get_svg(), None);
    assert_eq!(State::to_file(&state), "");
    // an activity of the list that the project does not have
    let mut state = SaState::new(single(2, 1, 2), 1);
    state.project.activities[1].id = 7;
    assert_eq!(state.get_svg(), None);
    // a box higher than the chart
    let mut state = SaState::new(single(2, 1, 2), 1);
    state.project.activities[1].supplies[0].usage = 4;
    assert_eq!(state.get_svg(), None);
}

#[test]
fn time_intervals_of_the_grid() {
    assert_eq!(get_intervals_time(10, 3), (vec![1, 3, 10], vec![1, 2, 4]));
    assert_eq!(get_intervals_time(10, 4), (vec![1, 3, 6, 10], vec![1, 2, 3, 4]));
    assert_eq!(get_intervals_time(10, 9), (vec![1, 3, 6, 10], vec![1, 2, 3, 4]));
    assert_eq!(get_intervals_time(7, 3), (vec![1, 3, 7], vec![1, 2, 1]));
    assert_eq!(get_intervals_time(7, 9), (vec![1, 3, 6, 7], vec![1, 2, 3, 1]));
    assert_eq!(get_intervals_time(2, 1), (vec![2], vec![1]));
    assert_eq!(get_intervals_time(1, 1), (vec![1], vec![1]));
    assert_eq!(get_intervals_time(1, 5), (vec![1], vec![1]));
    assert_eq!(get_intervals_time(2, 5), (vec![1, 2], vec![1, 1]));
    let (ends, lengths) = get_intervals_time(u32::MAX, u32::MAX);
    assert_eq!(ends.len(), 92682);
    assert_eq!(*ends.last().unwrap(), u32::MAX);
    assert_eq!(lengths[92680], 92681);
    assert_eq!(*lengths.last().unwrap(), u32::MAX - 4294930221);
}

#[test]
fn resource_intervals_of_the_grid() {
    assert_eq!(get_intervals_resource(4, 10, 10), (vec![3, 6, 10], vec![3, 3, 4]));
    assert_eq!(get_intervals_resource(4, 12, 10), (vec![2, 4, 6, 10], vec![2, 2, 2, 4]));
    assert_eq!(get_intervals_resource(4, 3, 10), (vec![10], vec![10]));
    assert_eq!(get_intervals_resource(1, 2, 2), (vec![0, 0, 2], vec![0, 0, 2]));
    assert_eq!(get_intervals_resource(5, 0, 7), (vec![7], vec![7]));
}

#[test]
fn numbers_of_an_instance() {
    assert_eq!(read_random_prcpsp(&b"3\n10\n7\n2\n9\n".to_vec()), Ok(vec![3, 10, 7, 2, 9]));
    assert_eq!(read_random_prcpsp(&b"3\r\n10\r\n\r\n\n7".to_vec()), Ok(vec![3, 10, 7]));
    assert_eq!(read_random_prcpsp(&b"".to_vec()), Ok(vec![]));
    assert_eq!(read_random_prcpsp(&b"\n\n".to_vec()), Ok(vec![]));
    assert_eq!(read_random_prcpsp(&b"+5\n007\n4294967295".to_vec()), Ok(vec![5, 7, 4294967295]));
    assert_eq!(read_random_prcpsp(&b"1\r2\n".to_vec()), Ok(vec![12]));
    for bad in ["4294967296", "-1", "1 2", "a", "+", "1\n \n2", "12x", "99999999999999999999999"] {
        assert_eq!(
            read_random_prcpsp(&bad.as_bytes().to_vec()),
            Err(ScheduleError::ParameterOutOfRange)
        );
    }
    assert_eq!(parse_number(&b"42".to_vec()), Some(42));
    assert_eq!(parse_number(&b"".to_vec()), None);
    assert_eq!(parse_number(&b"+0".to_vec()), Some(0));
    assert_eq!(parse_number(&b"++1".to_vec()), None);
}

#[test]
fn expansion_needs_time_and_room() {
    assert!(nine().can_expand());
    let mut idle = nine();
    idle.activities[3].duration = 0;
    assert!(!idle.can_expand());
    let mut wide = nine();
    wide.activities[8].id = 3_000_000_000;
    assert!(!wide.can_expand());
    let mut long = nine();
    long.activities[1].duration = u32::MAX - 10;
    assert!(!long.can_expand());
    long.activities[1].duration = u32::MAX - 19;
    assert!(!long.can_expand());
    long.activities[1].duration = u32::MAX - 20;
    assert!(long.can_expand());
    assert!(!Project::new(vec![plain(1, 0, vec![])], vec![]).can_expand());
    // dummies that take time are of no account
    let mut slow = single(1, 1, 1);
    slow.activities[0].duration = 5;
    assert!(slow.can_expand());
    assert_eq!(slow.pre_emptive_project().activities[0].duration, 0);
}

#[test]
fn searchable_states() {
    let mut state = SaState::new(nine(), 11);
    assert!(state.is_searchable());
    assert!(state.is_priority_list());
    state.planning.swap(4, 5);
    assert!(state.is_priority_list());
    // 6 before its predecessor 2
    state.planning = vec![1, 6, 2, 3, 4, 5, 8, 7, 9];
    assert!(!state.is_priority_list());
    assert!(!state.is_searchable());
    state.planning = vec![1, 2, 3, 4, 5, 6, 8, 7];
    assert!(!state.is_priority_list());
    state.planning = vec![1, 2, 3, 4, 5, 6, 8, 7, 7];
    assert!(!state.is_priority_list());
    state.planning = vec![1, 2, 3, 4, 5, 6, 8, 7, 10];
    assert!(!state.is_priority_list());
    state.planning = vec![1, 2, 3, 4, 5, 6, 8, 7, 9];
    state.project.activities[5].supplies[0].usage = 6;
    assert!(state.is_priority_list());
    assert!(!state.is_searchable());
    assert_eq!(state.project().activities.len(), 9);
    assert_eq!(state.planning(), &state.planning);
    assert_eq!(state.times(), &vec![0, 0, 0, 0, 2, 4, 5, 5, 10]);
}

#[test]
fn order_by_identity() {
    let a = plain(3, 7, vec![]);
    let b = plain(5, 1, vec![]);
    let c = plain(3, 1, vec![]);
    assert!(a == c);
    assert!(a != b);
    assert!(a < b);
    assert!(!(b < a));
    assert!(a <= c);
    assert_eq!(a.cmp(&b), Ordering::Less);
    assert_eq!(b.cmp(&a), Ordering::Greater);
    assert_eq!(a.cmp(&c), Ordering::Equal);
    assert_eq!(a.partial_cmp(&b), Some(Ordering::Less));
    let r = RnResource::new(2, String::from("x"), 1);
    let s = RnResource::new(2, String::from("y"), 9);
    let t = RnResource::new(1, String::from("x"), 1);
    assert!(r == s);
    assert!(r != t);
    assert!(t < r);
    assert_eq!(r.cmp(&s), Ordering::Equal);
    assert_eq!(r.cmp(&t), Ordering::Greater);
    assert_eq!(t.partial_cmp(&r), Some(Ordering::Less));
}

fn check_instance(project: &Project, cost: u32, activities: u32, resources: usize, capacity: u32) {
    assert_eq!(project.activities.len() as u32, activities + 2);
    assert_eq!(project.resources.len(), resources);
    assert_eq!(project.resources.iter().map(|r| r.capacity).sum::<u32>(), capacity);
    assert_eq!(project.activities[0].id, 1);
    assert_eq!(project.activities[0].start_time, 0);
    let sink = project.activities.last().unwrap();
    assert_eq!(sink.id, activities + 2);
    assert_eq!(sink.start_time, cost as i32);
    for a in &project.activities {
        assert!(a.start_time >= 0);
        assert!(a.start_time + a.duration as i32 <= cost as i32);
        for p in &a.predecessors {
            let before = project.activities.iter().find(|x| x.id == *p).unwrap();
            assert!(before.start_time + before.duration as i32 <= a.start_time);
            assert!(before.successors.contains(&a.id));
        }
    }
    // the known schedule holds no more of a resource than there is
    for r in &project.resources {
        for t in 0..cost as i32 {
            let mut held = 0;
            for a in &project.activities {
                if a.start_time <= t && t < a.start_time + a.duration as i32 {
                    held += a.supplies.iter().filter(|s| s.resource.id == r.id).map(|s| s.usage).sum::<u32>();
                }
            }
            assert!(held <= r.capacity);
        }
    }
}

#[test]
fn random_instances() {
    let project = prcpsp::random_rcpsp::get_random_rcpsp(3, 10, 7, 1, 5, 2).unwrap();
    check_instance(&project, 10, 7, 1, 5);
    // the grid: intervals that end at 1, 3, 6 and 10, two rows
    let starts: Vec<i32> = project.activities.iter().map(|a| a.start_time).collect();
    assert_eq!(starts, vec![0, 0, 1, 3, 6, 0, 1, 3, 10]);
    let durations: Vec<u32> = project.activities.iter().map(|a| a.duration).collect();
    assert_eq!(durations, vec![0, 1, 2, 3, 4, 1, 2, 7, 0]);
    let names: Vec<&str> = project.activities.iter().map(|a| a.name.as_str()).collect();
    assert_eq!(names, vec!["1", "2", "3", "4", "5", "6", "7", "8", "9"]);
    assert_eq!(project.validate(), Ok(()));
    let again = prcpsp::random_rcpsp::get_random_rcpsp(3, 10, 7, 1, 5, 2).unwrap();
    for (a, b) in project.activities.iter().zip(again.activities.iter()) {
        assert_eq!(a.successors, b.successors);
        assert_eq!(a.predecessors, b.predecessors);
    }
    // the known schedule as a state, and a schedule built for the instance
    let known = SaState::from_project_planned(project.clone(), 3).unwrap();
    assert_eq!(known.get_makespan(), 10);
    let mut plain = project.clone();
    plain.clear_times();
    let built = SaState::new(plain, 3);
    assert!(built.get_makespan() >= 10);

    for (seed, cost, activities, resources, capacity) in
        [(1u64, 30u32, 40u32, 3u32, 20u32), (2, 5, 1, 2, 7), (9, 2, 2, 4, 3), (5, 100, 12, 1, 1)]
    {
        let most = (activities as f32).sqrt().floor() as u32;
        let project = prcpsp::random_rcpsp::get_random_rcpsp(
            seed, cost, activities, resources, capacity, most,
        )
        .unwrap();
        check_instance(&project, cost, activities, resources as usize, capacity);
        assert_eq!(project.validate(), Ok(()));
        for a in &project.activities[1..project.activities.len() - 1] {
            assert!(a.successors.len() as u32 <= most + 1);
        }
        if activities == 40 {
            // the draws differ: not every activity has one successor, and not
            // every successor is the activity that comes next
            let inner = &project.activities[1..41];
            assert!(inner.iter().any(|a| a.successors.iter().filter(|s| **s != 42).count() >= 2));
            assert!(inner.iter().any(|a| a.successors.iter().any(|s| *s != 42 && *s != a.id + 1)));
        }
    }
}

#[test]
fn random_instances_that_cannot_be() {
    for (cost, activities, resources, most) in
        [(0u32, 5u32, 1u32, 2u32), (10, 0, 1, 2), (10, 5, 0, 2), (10, 5, 1, 0), (1, 2, 1, 1)]
    {
        assert!(matches!(
            prcpsp::random_rcpsp::get_random_rcpsp(1, cost, activities, resources, 5, most),
            Err(ScheduleError::ParameterOutOfRange)
        ));
    }
    assert!(matches!(
        prcpsp::random_rcpsp::get_random_rcpsp(1, 3_000_000_000, 5, 1, 5, 2),
        Err(ScheduleError::ParameterOutOfRange)
    ));
    assert!(prcpsp::random_rcpsp::get_random_rcpsp(1, 1, 1, 1, 5, 1).is_ok());
}

#[test]
fn rows_share_the_resources() {
    // 8 intervals of time, so 6 rows: five of them 1 unit high and the last 5
    let project = prcpsp::random_rcpsp::get_random_rcpsp(1, 30, 44, 3, 10, 6).unwrap();
    let capacities: Vec<u32> = project.resources.iter().map(|r| r.capacity).collect();
    assert_eq!(capacities, vec![3, 3, 4]);
    let held = |id: u32| -> Vec<(u32, u32)> {
        let a = project.activities.iter().find(|a| a.id == id).unwrap();
        a.supplies.iter().map(|s| (s.resource.id, s.usage)).collect()
    };
    // the first three rows use the first resource up
    for id in 2..26 {
        assert_eq!(held(id), vec![(1, 1)]);
    }
    // the next two rows take from the second
    for id in 26..42 {
        assert_eq!(held(id), vec![(2, 1)]);
    }
    // the last row takes what the second has left and the rest from the third
    for id in 42..46 {
        assert_eq!(held(id), vec![(2, 1), (3, 4)]);
    }
    assert_eq!(project.validate(), Ok(()));
}
