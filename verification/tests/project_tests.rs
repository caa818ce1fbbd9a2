use prcpsp::activity::Activity;
use prcpsp::project::Project;
use prcpsp::rn_resource::RnResource;
use prcpsp::rn_resource_usage::RnResourceUsage;

// The nine-activity example project.
fn initial() -> Project {
    let mut initial = Activity::new(1,-1,String::from("1"),vec![],vec![],vec![],0,-1);
    let mut last = Activity::new(9,-1,String::from("9"),vec![],vec![],vec![],0,-1);

    let resource = RnResource::new(1, String::from("1"), 5);

    let a_r = RnResourceUsage::new(resource.clone(),1);
    let mut a = Activity::new(2,-1,String::from("2"),vec![],vec![],vec![a_r],1,-1);
    a.add_anteccessor(initial.id);
    initial.add_successor(a.id);

    let b_r = RnResourceUsage::new(resource.clone(),2);
    let mut b = Activity::new(3,-1,String::from("3"),vec![],vec![],vec![b_r],2,-1);
    b.add_anteccessor(initial.id);
    initial.add_successor(b.id);
    last.add_anteccessor(b.id);
    b.add_successor(last.id);

    let c_r = RnResourceUsage::new(resource.clone(),2);
    let mut c = Activity::new(4,-1,String::from("4"),vec![],vec![],vec![c_r],4,-1);
    c.add_anteccessor(initial.id);
    initial.add_successor(c.id);

    last.add_anteccessor(c.id);
    c.add_successor(last.id);

    let d_r = RnResourceUsage::new(resource.clone(),2);
    let mut d = Activity::new(5,-1,String::from("5"),vec![],vec![],vec![d_r],3,-1);
    d.add_anteccessor(initial.id);
    initial.add_successor(d.id);

    let e_r = RnResourceUsage::new(resource.clone(),2);
    let mut e = Activity::new(6,-1,String::from("6"),vec![],vec![],vec![e_r],1,-1);
    e.add_anteccessor(a.id);
    a.add_successor(e.id);

    let f_r = RnResourceUsage::new(resource.clone(),1);
    let mut f = Activity::new(7,-1,String::from("7"),vec![],vec![],vec![f_r],5,-1);
    f.add_anteccessor(e.id);
    e.add_successor(f.id);
    last.add_anteccessor(f.id);
    f.add_successor(last.id);

    let g_r = RnResourceUsage::new(resource.clone(),2);
    let mut g = Activity::new(8,-1,String::from("8"),vec![],vec![],vec![g_r],3,-1);
    g.add_anteccessor(d.id);
    d.add_successor(g.id);
    last.add_anteccessor(g.id);
    g.add_successor(last.id);

    let activities = vec![initial,a,b,c,d,e,f,g,last];
    let resources = vec![resource];
    let project = Project::new(activities, resources);
    project
}

// The same activities with more arcs.
fn initial_1() -> Project {
    let mut initial = Activity::new(1,-1,String::from("1"),vec![],vec![],vec![],0,-1);
    let mut last = Activity::new(9,-1,String::from("9"),vec![],vec![],vec![],0,-1);

    let resource = RnResource::new(1, String::from("1"), 5);

    let a_r = RnResourceUsage::new(resource.clone(),1);
    let mut a = Activity::new(2,-1,String::from("2"),vec![],vec![],vec![a_r],1,-1);
    a.add_anteccessor(initial.id);
    initial.add_successor(a.id);

    let b_r = RnResourceUsage::new(resource.clone(),2);
    let mut b = Activity::new(3,-1,String::from("3"),vec![],vec![],vec![b_r],2,-1);
    b.add_anteccessor(initial.id);
    initial.add_successor(b.id);
    last.add_anteccessor(b.id);
    b.add_successor(last.id);

    b.add_anteccessor(a.id);
    a.add_successor(b.id);

    let c_r = RnResourceUsage::new(resource.clone(),2);
    let mut c = Activity::new(4,-1,String::from("4"),vec![],vec![],vec![c_r],4,-1);
    c.add_anteccessor(initial.id);
    initial.add_successor(c.id);

    last.add_anteccessor(c.id);
    c.add_successor(last.id);

    let d_r = RnResourceUsage::new(resource.clone(),2);
    let mut d = Activity::new(5,-1,String::from("5"),vec![],vec![],vec![d_r],3,-1);
    d.add_anteccessor(initial.id);
    initial.add_successor(d.id);

    d.add_successor(c.id);
    c.add_anteccessor(d.id);

    let e_r = RnResourceUsage::new(resource.clone(),2);
    let mut e = Activity::new(6,-1,String::from("6"),vec![],vec![],vec![e_r],1,-1);
    e.add_anteccessor(a.id);
    a.add_successor(e.id);

    let f_r = RnResourceUsage::new(resource.clone(),1);
    let mut f = Activity::new(7,-1,String::from("7"),vec![],vec![],vec![f_r],5,-1);
    f.add_anteccessor(e.id);
    e.add_successor(f.id);
    last.add_anteccessor(f.id);
    f.add_successor(last.id);
    f.add_anteccessor(b.id);
    b.add_successor(f.id);

    let g_r = RnResourceUsage::new(resource.clone(),2);
    let mut g = Activity::new(8,-1,String::from("8"),vec![],vec![],vec![g_r],3,-1);
    g.add_anteccessor(d.id);
    d.add_successor(g.id);
    last.add_anteccessor(g.id);
    g.add_successor(last.id);
    c.add_anteccessor(g.id);
    g.add_successor(c.id);

    let activities = vec![initial,a,b,c,d,e,f,g,last];
    let resources = vec![resource];
    let project = Project::new(activities, resources);
    project
}

#[test]
fn test_split_activities() {
    let project = initial();
    let pairs = project.split_activities();
    for pair in pairs {
        let activity = pair.0;
        let subactivities = pair.1;
        if activity.id != 1 && activity.id != 9  {
            assert_eq!(activity.duration, subactivities.len() as u32);
        }
    }
}

#[test]
fn test_set_neighbor_subactivities_project () {
    let project = initial();
    let pre_emptive_project = project.pre_emptive_project();
    let subactivities = pre_emptive_project.activities;
    let subactivity = subactivities.iter().find(|x|x.id == 1).unwrap();
    assert!(subactivity.predecessors.is_empty());
    assert_subactivity(subactivity.clone(), 1, vec![], vec![2,3,5,9]);

    let subactivity = subactivities.iter().find(|x|x.id == 2).unwrap();
    assert_subactivity(subactivity.clone(), 2, vec![1], vec![12]);

    let subactivity = subactivities.iter().find(|x|x.id == 3).unwrap();
    assert_subactivity(subactivity.clone(), 3, vec![1], vec![4]);

    let subactivity = subactivities.iter().find(|x|x.id == 4).unwrap();
    assert_subactivity(subactivity.clone(), 3, vec![3], vec![21]);

    let subactivity = subactivities.iter().find(|x|x.id == 5).unwrap();
    assert_subactivity(subactivity.clone(), 4, vec![1], vec![6]);

    let subactivity = subactivities.iter().find(|x|x.id == 6).unwrap();
    assert_subactivity(subactivity.clone(), 4, vec![5], vec![7]);

    let subactivity = subactivities.iter().find(|x|x.id == 7).unwrap();
    assert_subactivity(subactivity.clone(), 4, vec![6], vec![8]);

    let subactivity = subactivities.iter().find(|x|x.id == 8).unwrap();
    assert_subactivity(subactivity.clone(), 4, vec![7], vec![21]);

    let subactivity = subactivities.iter().find(|x|x.id == 9).unwrap();
    assert_subactivity(subactivity.clone(), 5, vec![1], vec![10]);

    let subactivity = subactivities.iter().find(|x|x.id == 10).unwrap();
    assert_subactivity(subactivity.clone(), 5, vec![9], vec![11]);

    let subactivity = subactivities.iter().find(|x|x.id == 11).unwrap();
    assert_subactivity(subactivity.clone(), 5, vec![10], vec![18]);

    let subactivity = subactivities.iter().find(|x|x.id == 12).unwrap();
    assert_subactivity(subactivity.clone(), 6, vec![2], vec![13]);

    let subactivity = subactivities.iter().find(|x|x.id == 13).unwrap();
    assert_subactivity(subactivity.clone(), 7, vec![12], vec![14]);

    let subactivity = subactivities.iter().find(|x|x.id == 14).unwrap();
    assert_subactivity(subactivity.clone(), 7, vec![13], vec![15]);

    let subactivity = subactivities.iter().find(|x|x.id == 15).unwrap();
    assert_subactivity(subactivity.clone(), 7, vec![14], vec![16]);

    let subactivity = subactivities.iter().find(|x|x.id == 16).unwrap();
    assert_subactivity(subactivity.clone(), 7, vec![15], vec![17]);

    let subactivity = subactivities.iter().find(|x|x.id == 17).unwrap();
    assert_subactivity(subactivity.clone(), 7, vec![16], vec![21]);

    let subactivity = subactivities.iter().find(|x|x.id == 18).unwrap();
    assert_subactivity(subactivity.clone(), 8, vec![11], vec![19]);

    let subactivity = subactivities.iter().find(|x|x.id == 19).unwrap();
    assert_subactivity(subactivity.clone(), 8, vec![18], vec![20]);

    let subactivity = subactivities.iter().find(|x|x.id == 20).unwrap();
    assert_subactivity(subactivity.clone(), 8, vec![19], vec![21]);

    let subactivity = subactivities.iter().find(|x|x.id == 21).unwrap();
    assert_subactivity(subactivity.clone(), 9, vec![17,4,8,20], vec![]);
}

#[test]
fn test_set_neighbor_subactivities_project_1 () {
    let project = initial_1();
    let pre_emptive_project = project.pre_emptive_project();
    let subactivities = pre_emptive_project.activities;
    let subactivity = subactivities.iter().find(|x|x.id == 1).unwrap();
    assert!(subactivity.predecessors.is_empty());
    assert_subactivity(subactivity.clone(), 1, vec![], vec![2,3,5,9]);

    let subactivity = subactivities.iter().find(|x|x.id == 2).unwrap();
    assert_subactivity(subactivity.clone(), 2, vec![1], vec![12,3]);

    let subactivity = subactivities.iter().find(|x|x.id == 3).unwrap();
    assert_subactivity(subactivity.clone(), 3, vec![1,2], vec![4]);

    let subactivity = subactivities.iter().find(|x|x.id == 4).unwrap();
    assert_subactivity(subactivity.clone(), 3, vec![3], vec![21,13]);

    let subactivity = subactivities.iter().find(|x|x.id == 5).unwrap();
    assert_subactivity(subactivity.clone(), 4, vec![1,11,20], vec![6]);

    let subactivity = subactivities.iter().find(|x|x.id == 6).unwrap();
    assert_subactivity(subactivity.clone(), 4, vec![5], vec![7]);

    let subactivity = subactivities.iter().find(|x|x.id == 7).unwrap();
    assert_subactivity(subactivity.clone(), 4, vec![6], vec![8]);

    let subactivity = subactivities.iter().find(|x|x.id == 8).unwrap();
    assert_subactivity(subactivity.clone(), 4, vec![7], vec![21]);

    let subactivity = subactivities.iter().find(|x|x.id == 9).unwrap();
    assert_subactivity(subactivity.clone(), 5, vec![1], vec![10]);

    let subactivity = subactivities.iter().find(|x|x.id == 10).unwrap();
    assert_subactivity(subactivity.clone(), 5, vec![9], vec![11]);

    let subactivity = subactivities.iter().find(|x|x.id == 11).unwrap();
    assert_subactivity(subactivity.clone(), 5, vec![10], vec![18,5]);

    let subactivity = subactivities.iter().find(|x|x.id == 12).unwrap();
    assert_subactivity(subactivity.clone(), 6, vec![2], vec![13]);

    let subactivity = subactivities.iter().find(|x|x.id == 13).unwrap();
    assert_subactivity(subactivity.clone(), 7, vec![12,4], vec![14]);

    let subactivity = subactivities.iter().find(|x|x.id == 14).unwrap();
    assert_subactivity(subactivity.clone(), 7, vec![13], vec![15]);

    let subactivity = subactivities.iter().find(|x|x.id == 15).unwrap();
    assert_subactivity(subactivity.clone(), 7, vec![14], vec![16]);

    let subactivity = subactivities.iter().find(|x|x.id == 16).unwrap();
    assert_subactivity(subactivity.clone(), 7, vec![15], vec![17]);

    let subactivity = subactivities.iter().find(|x|x.id == 17).unwrap();
    assert_subactivity(subactivity.clone(), 7, vec![16], vec![21]);

    let subactivity = subactivities.iter().find(|x|x.id == 18).unwrap();
    assert_subactivity(subactivity.clone(), 8, vec![11], vec![19]);

    let subactivity = subactivities.iter().find(|x|x.id == 19).unwrap();
    assert_subactivity(subactivity.clone(), 8, vec![18], vec![20]);

    let subactivity = subactivities.iter().find(|x|x.id == 20).unwrap();
    assert_subactivity(subactivity.clone(), 8, vec![19], vec![21,5]);

    let subactivity = subactivities.iter().find(|x|x.id == 21).unwrap();
    assert_subactivity(subactivity.clone(), 9, vec![17,4,8,20], vec![]);
}

/**
* Assert if subactivity has a specified parent, predecessors, successors.
*/
fn assert_subactivity(subactivity: Activity, parent: i32, predecessors: Vec<u32>, successors: Vec<u32>){
    assert_eq!(subactivity.parent, parent);
    assert_eq!(subactivity.predecessors.len(), predecessors.len());
    assert_eq!(subactivity.successors.len(), successors.len());
    if subactivity.id != 1 && subactivity.id != 21 {
        assert_eq!(subactivity.duration, 1);
    }
    assert_contains_antecessor(subactivity.clone(), predecessors);
    assert_contains_successor(subactivity, successors);
}

/**
* Assert if activity has elements as successors.
*/
fn assert_contains_successor (activity: Activity, elements: Vec<u32>) {
    for i in elements {
        assert!(activity.successors.contains(&i));
    }
}

/**
* Assert if activity has elements as predecessors.
*/
fn assert_contains_antecessor (activity: Activity, elements: Vec<u32>) {
    for i in elements {
        assert!(activity.predecessors.contains(&i));
    }
}

#[test]
fn test_get_time_planning() {
    let mut project = initial();
    let planning = vec![1,2,3,4,5,6,8,7,9];
    let times = vec![0,0,0,0,2,4,5,5,10];
    for activity in &mut project.activities {
        let j = planning.iter().position(|x|*x == activity.id).unwrap();
        let time = times[j];
        activity.start_time = time;
    }

    let input = vec![0,0,0,0,2,4,3,4,4];
    for activity in &project.activities {
        let j = planning.iter().position(|x|*x == activity.id).unwrap();
        let time = times[j];
        let index = (activity.id-1) as usize;
        assert_eq!(project.get_time_planning(activity.clone(), input[index]) , time);
    }

    let mut p_project = project.pre_emptive_project();
    let planning = vec![1,2,3,5,9,12,4,6,10,13,7,11,14,8,18,15,19,16,20,17,21];
    let times = vec![0,0,0,0,1,1,2,2,3,3,3,4,4,4,5,5,6,6,7,7,8];

    for activity in &mut p_project.activities {
        let j = planning.iter().position(|x|*x == activity.id).unwrap();
        let time = times[j];
        activity.start_time = time;
    }

    let input = vec![0,0,0,2,0,2,2,2,1,3,2,1,3,1,1,1,1,2,1,1,1];
    for activity in &p_project.activities {
        let j = planning.iter().position(|x|*x == activity.id).unwrap();
        let time = times[j];
        let index = (activity.id-1) as usize;
        assert_eq!(p_project.get_time_planning(activity.clone(), input[index]) , time);
    }

    let mut project = initial_1();
    let planning = vec![1,2,3,5,6,7,8,4,9];
    let times = vec![0,0,1,1,3,4,4,7,11];

    for activity in &mut project.activities {
        let j = planning.iter().position(|x|*x == activity.id).unwrap();
        let time = times[j];
        activity.start_time = time;
    }

    let input = vec![0,0,0,1,1,3,2,3,1];
    for activity in &project.activities {
        let j = planning.iter().position(|x|*x == activity.id).unwrap();
        let time = times[j];
        let index = (activity.id-1) as usize;
        assert_eq!(project.get_time_planning(activity.clone(), input[index]) , time);
    }

    let mut p_project = project.pre_emptive_project();
    let planning = vec![1,2,3,9,12,4,10,13,11,14,18,15,19,16,20,17,5,6,7,8,21];
    let times = vec![0,0,1,1,2,2,3,3,4,4,5,5,6,6,7,7,8,9,10,11,12];

    for activity in &mut p_project.activities {
        let j = planning.iter().position(|x|*x == activity.id).unwrap();
        let time = times[j];
        activity.start_time = time;
    }

    let input = vec![0,0,0,0,8,8,8,8,1,3,2,2,2,2,3,4,4,4,5,5,1];
    for activity in &p_project.activities {
        let j = planning.iter().position(|x|*x == activity.id).unwrap();
        let time = times[j];
        let index = (activity.id-1) as usize;
        assert_eq!(p_project.get_time_planning(activity.clone(), input[index]) , time);
    }
}

#[test]
fn test_resource_conflict() {
    let mut project = initial();
    let planning = vec![1,2,3,4,5,6,8,7,9];
    let times = vec![0,0,0,0,2,4,5,5,10];

    for activity in &mut project.activities {
        let j = planning.iter().position(|x|*x == activity.id).unwrap();
        let time = times[j];
        activity.start_time = time;
    }

    let other = project.clone();
    let input = vec![9,1,2,4,3,8,8,8,1];
    let is_conflict = vec![false,false,true,true,false,false,false,false,false];
    for activity in &mut project.activities {
        let index = (activity.id-1) as usize;
        let conflict = is_conflict[index as usize];
        assert_eq!(other.resource_conflict(activity.clone(), input[index]),conflict);
    }

    let mut p_project = project.pre_emptive_project();
    let planning = vec![1,2,3,5,9,12,4,6,10,13,7,11,14,8,18,15,19,16,20,17,21];
    let times = vec![0,0,0,0,1,1,2,2,3,3,3,4,4,4,5,5,6,6,7,7,8];

    for activity in &mut p_project.activities {
        let j = planning.iter().position(|x|*x == activity.id).unwrap();
        let time = times[j];
        activity.start_time = time;
    }

    let other = p_project.clone();
    let input = vec![3,1,5,1,5,7,0,2,0,8,1,0,1,2,6,8,0,9,9,8,0];
    let is_conflict = vec![false,false,false,true,false,false,true,true,true,false,
                           true,true,false,false,false,false,true,false,false,false,false];
    for activity in &mut p_project.activities {
        let index = (activity.id-1) as usize;
        let conflict = is_conflict[index as usize];
        assert_eq!(other.resource_conflict(activity.clone(), input[index]),conflict);
    }


    let mut project = initial_1();
    let planning = vec![1,2,3,5,6,7,8,4,9];
    let times = vec![0,0,1,1,3,4,4,7,11];

    for activity in &mut project.activities {
        let j = planning.iter().position(|x|*x == activity.id).unwrap();
        let time = times[j];
        activity.start_time = time;
    }

    let input = vec![10,1,5,1,8,0,1,1,1];
    let other = project.clone();
    let is_conflict = vec![false,false,false,true,false,false,false,true,false];
    for activity in &project.activities {
        let index = (activity.id-1) as usize;
        let conflict = is_conflict[index];
        assert_eq!(other.resource_conflict(activity.clone(), input[index]), conflict);
    }

    let mut p_project = project.pre_emptive_project();
    let planning = vec![1,2,3,9,12,4,10,13,11,14,18,15,19,16,20,17,5,6,7,8,21];
    let times = vec![0,0,1,1,2,2,3,3,4,4,5,5,6,6,7,7,8,9,10,11,12];

    for activity in &mut p_project.activities {
        let j = planning.iter().position(|x|*x == activity.id).unwrap();
        let time = times[j];
        activity.start_time = time;
    }

    let input = vec![0,1,6,1,2,8,3,2,0,4,5,0,1,1,2,11,9,2,1,1,3];
    let other = p_project.clone();
    let is_conflict = vec![false,false,false,true,true,false,false,true,false,false,false,false,
    false,false,false,false,false,true,true,true,false];

    for activity in &p_project.activities {
        let index = (activity.id-1) as usize;
        let conflict = is_conflict[index];
        assert_eq!(other.resource_conflict(activity.clone(), input[index]), conflict);
    }


}
