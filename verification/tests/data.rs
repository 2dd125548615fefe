use std::collections::HashMap;

use libredu_timetable::data::{create_acts_data, create_data, create_ng};
use libredu_timetable::msgs::activities::FullActivity;
use libredu_timetable::msgs::classes::ClassLimitation;
use libredu_timetable::msgs::teachers::TeacherLimitation;
use libredu_timetable::msgs::timetables::Schedule;

fn act(id: i32, classes: Vec<i32>, teachers: Vec<i32>) -> FullActivity {
    FullActivity { id, subject: 1, hour: 1, classes, teachers, blocks: Some("b".to_string()), partner_activity: Some(3) }
}

#[test]
fn neighbours_share_a_class_or_a_teacher() {
    let acts = vec![act(1, vec![10], vec![5]), act(2, vec![11], vec![5]), act(3, vec![10], vec![6]), act(4, vec![12], vec![7])];
    let ng = create_ng(&acts);
    assert_eq!(ng.len(), 4);
    let mut n1: Vec<i32> = ng[&1].keys().cloned().collect();
    n1.sort();
    assert_eq!(n1, vec![2, 3]);
    assert!(ng[&4].is_empty());
    assert_eq!(ng[&2][&1].id, 1);
    for (a, ns) in ng.iter() {
        for b in ns.keys() {
            assert!(ng[b].contains_key(a));
        }
    }
}

#[test]
fn no_activity_is_its_own_neighbour() {
    let acts = vec![act(1, vec![10], vec![5]), act(1, vec![10], vec![5])];
    let ng = create_ng(&acts);
    assert!(ng[&1].is_empty());
}

#[test]
fn acts_data_lists_the_covering_activities() {
    let acts = vec![act(1, vec![10], vec![5]), act(2, vec![10, 11], vec![5, 6]), act(3, vec![11], vec![5])];
    let mut ta: HashMap<i32, Vec<FullActivity>> = HashMap::new();
    ta.insert(99, vec![]);
    create_acts_data(&mut ta, &acts);
    assert_eq!(ta.len(), 4);
    let ids = |k: i32| -> Vec<i32> { ta[&k].iter().map(|a| a.id).collect() };
    assert_eq!(ids(1), vec![1, 2]);
    assert_eq!(ids(2), vec![2]);
    assert_eq!(ids(3), vec![2, 3]);
    assert!(ta[&99].is_empty());
    assert_eq!(ta[&1][0].blocks, Some("b".to_string()));
}

#[test]
fn create_data_keeps_clean_copies() {
    let mut tat = HashMap::new();
    tat.insert(5, vec![TeacherLimitation { user_id: 5, school_id: 1, group_id: 1, day: 1, hours: vec![true, false] }]);
    let mut cat = HashMap::new();
    cat.insert(10, vec![ClassLimitation { class_id: 10, day: 1, hours: vec![false, true] }]);
    let acts = vec![act(1, vec![10], vec![5])];
    let sched = vec![Schedule { day_id: 1, hour: 0, activity: 1, locked: true }];
    let d = create_data(tat, cat, &acts, HashMap::new(), vec![], vec![], sched);
    assert_eq!(d.tat[&5][0].hours, d.clean_tat[&5][0].hours);
    assert_eq!(d.cat[&10][0].hours, vec![false, true]);
    assert_eq!(d.clean_cat[&10][0].hours, vec![false, true]);
    assert_eq!(d.acts.len(), 1);
    assert_eq!(d.acts[0].teachers, vec![5]);
    assert_eq!(d.teachers_acts[&1].len(), 1);
    assert!(d.neighbour_acts[&1].is_empty());
    assert_eq!(d.timetables.len(), 1);
}
