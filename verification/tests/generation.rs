use std::collections::HashMap;

use libredu_timetable::data::{create_data, generation_step, total_hour};
use libredu_timetable::generator::TimetableData;
use libredu_timetable::msgs::activities::{Activity, FullActivity};
use libredu_timetable::msgs::classes::{Class, ClassLimitation};
use libredu_timetable::msgs::teachers::{Teacher, TeacherLimitation};
use libredu_timetable::msgs::timetables::{Params, Schedule};

fn teacher_week(user_id: i32, t_len: usize) -> Vec<TeacherLimitation> {
    (1..=7)
        .map(|day| TeacherLimitation { user_id, school_id: 1, group_id: 2, day, hours: vec![true; t_len] })
        .collect()
}

fn class_week(class_id: i32, t_len: usize) -> Vec<ClassLimitation> {
    (1..=7).map(|day| ClassLimitation { class_id, day, hours: vec![true; t_len] }).collect()
}

fn full(id: i32, classes: Vec<i32>, teachers: Vec<i32>, hour: i16) -> FullActivity {
    FullActivity { id, subject: 5, hour, classes, teachers, blocks: None, partner_activity: None }
}

fn as_activity(a: &FullActivity) -> Activity {
    Activity { id: a.id, subject: a.subject, classes: a.classes.clone(), teachers: a.teachers.clone(), hour: a.hour }
}

fn teacher() -> Teacher {
    Teacher { id: 1, first_name: "Ada".to_string(), last_name: "Lovelace".to_string(), short_name: "AL".to_string() }
}

fn class() -> Class {
    Class { id: 10, kademe: "9".to_string(), sube: "A".to_string(), group_id: 2 }
}

fn data_with(acts: &Vec<FullActivity>, t_len: usize, schedules: Vec<Schedule>) -> TimetableData {
    let mut tat = HashMap::new();
    tat.insert(1, teacher_week(1, t_len));
    let mut cat = HashMap::new();
    cat.insert(10, class_week(10, t_len));
    create_data(tat, cat, acts, HashMap::new(), vec![class()], vec![teacher()], schedules)
}

fn params(hour: i32) -> Params {
    Params { hour, depth: 4, depth2: 4 }
}

#[test]
fn ready_len_is_the_day_length() {
    let acts = vec![full(100, vec![10], vec![1], 2)];
    let data = data_with(&acts, 5, vec![]);
    assert_eq!(data.ready_len(), Some(5));
}

#[test]
fn ready_len_refuses_uneven_days() {
    let acts = vec![full(100, vec![10], vec![1], 2)];
    let mut data = data_with(&acts, 5, vec![]);
    data.tat.get_mut(&1).unwrap()[3].hours.push(true);
    assert_eq!(data.ready_len(), None);
}

#[test]
fn ready_len_refuses_a_teacher_without_limitations() {
    let acts = vec![full(100, vec![10], vec![7], 2)];
    let data = data_with(&acts, 5, vec![]);
    assert_eq!(data.ready_len(), None);
}

#[test]
fn ready_len_refuses_hours_outside_the_day() {
    let acts = vec![full(100, vec![10], vec![1], 2)];
    let data = data_with(&acts, 5, vec![Schedule { day_id: 1, hour: 5, activity: 100, locked: false }]);
    assert_eq!(data.ready_len(), None);
}

#[test]
fn find_timeslot_takes_the_first_free_hour() {
    let acts = vec![full(100, vec![10], vec![1], 2)];
    let data = data_with(&acts, 5, vec![]);
    let (day, hour) = data.find_timeslot(&as_activity(&acts[0]), &params(3)).unwrap();
    assert!((1..=7).contains(&day));
    assert_eq!(hour, 0);
}

#[test]
fn find_timeslot_skips_taken_hours() {
    let acts = vec![full(100, vec![10], vec![1], 2)];
    let mut data = data_with(&acts, 5, vec![]);
    for lims in data.tat.values_mut() {
        for l in lims.iter_mut() {
            l.hours[0] = false;
            l.hours[2] = false;
        }
    }
    let (_, hour) = data.find_timeslot(&as_activity(&acts[0]), &params(3)).unwrap();
    assert_eq!(hour, 3);
}

#[test]
fn find_timeslot_finds_nothing_in_a_full_week() {
    let acts = vec![full(100, vec![10], vec![1], 2)];
    let mut data = data_with(&acts, 5, vec![]);
    for lims in data.cat.values_mut() {
        for l in lims.iter_mut() {
            l.hours = vec![true, false, true, false, true];
        }
    }
    assert_eq!(data.find_timeslot(&as_activity(&acts[0]), &params(3)), None);
}

#[test]
fn generate_places_an_activity() {
    let acts = vec![full(100, vec![10], vec![1], 2)];
    let mut data = data_with(&acts, 5, vec![]);
    assert!(data.generate(&params(3)));
    assert_eq!(data.timetables.len(), 2);
    let day = data.timetables[0].day_id;
    assert!(data.timetables.iter().all(|s| s.activity == 100 && s.day_id == day));
    assert_eq!(data.timetables[0].hour, 0);
    assert_eq!(data.timetables[1].hour, 1);
    let t = &data.tat[&1].iter().find(|l| l.day == day).unwrap().hours;
    assert_eq!(t, &vec![false, false, true, true, true]);
    let c = &data.cat[&10].iter().find(|l| l.day == day).unwrap().hours;
    assert_eq!(c, &vec![false, false, true, true, true]);
    assert!(!data.generate(&params(3)));
    assert_eq!(data.timetables.len(), 2);
}

#[test]
fn generate_keeps_the_same_day_limit() {
    let acts = vec![full(100, vec![10], vec![1], 2), full(101, vec![10], vec![1], 2)];
    for _ in 0..20 {
        let mut data = data_with(&acts, 5, vec![]);
        assert!(data.generate(&params(3)));
        assert!(data.generate(&params(3)));
        let d100 = data.timetables.iter().find(|s| s.activity == 100).unwrap().day_id;
        let d101 = data.timetables.iter().find(|s| s.activity == 101).unwrap().day_id;
        assert_ne!(d100, d101);
    }
}

#[test]
fn generate_without_teachers_does_nothing() {
    let acts = vec![full(100, vec![10], vec![], 2)];
    let mut data = data_with(&acts, 5, vec![]);
    assert!(!data.generate(&params(3)));
    assert!(data.timetables.is_empty());
}

#[test]
fn generate_fills_the_open_days() {
    let acts = vec![full(100, vec![10], vec![1], 1), full(101, vec![10], vec![1], 1)];
    let mut data = data_with(&acts, 1, vec![]);
    for lims in data.tat.values_mut() {
        for l in lims.iter_mut() {
            if l.day != 1 && l.day != 2 {
                l.hours[0] = false;
            }
        }
    }
    for lims in data.clean_tat.values_mut() {
        for l in lims.iter_mut() {
            if l.day != 1 && l.day != 2 {
                l.hours[0] = false;
            }
        }
    }
    assert_eq!(data.ready_len(), Some(1));
    let mut rounds = 0;
    while data.generate(&params(3)) && rounds < 10 {
        rounds += 1;
    }
    assert_eq!(data.timetables.len(), 2);
    let mut days: Vec<i32> = data.timetables.iter().map(|s| s.day_id).collect();
    days.sort();
    assert_eq!(days, vec![1, 2]);
}

#[test]
fn change_tat_takes_out_activities_at_closed_hours() {
    let acts = vec![full(100, vec![10], vec![1], 2)];
    let mut data = data_with(&acts, 5, vec![]);
    assert!(data.generate(&params(3)));
    let day = data.timetables[0].day_id;
    let schedules = data.timetables.as_ref().clone();
    let t_lim = vec![TeacherLimitation { user_id: 1, school_id: 1, group_id: 2, day, hours: vec![true, false, true, true, true] }];
    data.change_tat(&t_lim, &schedules, &acts);
    assert!(data.timetables.is_empty());
    for (id, lims) in data.tat.iter() {
        let clean = &data.clean_tat[id];
        for (l, c) in lims.iter().zip(clean.iter()) {
            assert_eq!(l.hours, c.hours);
        }
    }
    for lims in data.cat.values() {
        for l in lims {
            assert!(l.hours.iter().all(|h| *h));
        }
    }
}

#[test]
fn change_tat_keeps_activities_at_open_hours() {
    let acts = vec![full(100, vec![10], vec![1], 2)];
    let mut data = data_with(&acts, 5, vec![]);
    assert!(data.generate(&params(3)));
    let day = data.timetables[0].day_id;
    let schedules = data.timetables.as_ref().clone();
    let t_lim = vec![TeacherLimitation { user_id: 1, school_id: 1, group_id: 2, day, hours: vec![true, true, false, false, false] }];
    data.change_tat(&t_lim, &schedules, &acts);
    assert_eq!(data.timetables.len(), 2);
}

#[test]
fn generation_step_stops_when_all_hours_are_placed() {
    let acts = vec![full(100, vec![10], vec![1], 2)];
    let mut data = data_with(&acts, 5, vec![]);
    let total = total_hour(&acts);
    assert_eq!(total, 2);
    assert!(generation_step(&mut data, &params(3), total, false));
    assert_eq!(data.timetables.len(), 2);
    assert!(!generation_step(&mut data, &params(3), total, false));
    assert_eq!(data.timetables.len(), 2);
}

#[test]
fn generation_step_stops_when_asked() {
    let acts = vec![full(100, vec![10], vec![1], 2)];
    let mut data = data_with(&acts, 5, vec![]);
    assert!(!generation_step(&mut data, &params(3), 2, true));
}

#[test]
fn total_hour_adds_the_hours() {
    let acts = vec![full(1, vec![10], vec![1], 2), full(2, vec![10], vec![1], 3), full(3, vec![10], vec![1], 0)];
    assert_eq!(total_hour(&acts), 5);
    assert_eq!(total_hour(&vec![]), 0);
}

#[test]
fn find_timeslot_tries_the_days_in_random_order() {
    let acts = vec![full(100, vec![10], vec![1], 2)];
    let data = data_with(&acts, 5, vec![]);
    let mut days = std::collections::HashSet::new();
    for _ in 0..60 {
        let (day, _) = data.find_timeslot(&as_activity(&acts[0]), &params(3)).unwrap();
        days.insert(day);
    }
    assert!(days.len() > 1);
}

#[test]
fn generate_never_books_a_teacher_twice() {
    let acts = vec![
        full(100, vec![10], vec![1], 2),
        full(101, vec![10], vec![1], 3),
        full(102, vec![10], vec![1], 1),
        full(103, vec![10], vec![1], 2),
    ];
    for _ in 0..10 {
        let mut data = data_with(&acts, 4, vec![]);
        let mut rounds = 0;
        while data.generate(&params(3)) && rounds < 40 {
            rounds += 1;
        }
        let s = &data.timetables;
        for i in 0..s.len() {
            for j in 0..s.len() {
                if i != j && s[i].day_id == s[j].day_id && s[i].hour == s[j].hour {
                    panic!("two lessons at day {} hour {}", s[i].day_id, s[i].hour);
                }
            }
        }
        for s1 in s.iter() {
            let t = &data.tat[&1].iter().find(|l| l.day == s1.day_id).unwrap().hours;
            assert!(!t[s1.hour as usize]);
        }
    }
}

#[test]
fn find_timeslot_without_teacher_limitations_finds_nothing() {
    let acts = vec![full(100, vec![10], vec![1], 2)];
    let mut data = data_with(&acts, 5, vec![]);
    data.tat.clear();
    assert_eq!(data.find_timeslot(&as_activity(&acts[0]), &params(3)), None);
}
