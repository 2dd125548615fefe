use libredu_timetable::limits::{
    add_lim_classes, all_days, all_hours, change_day_lim, change_lim, create_classes_limitations, create_default_lim,
    create_teacher_lim, create_teachers_limitations, day_hour, sort_by_day, update_class_limitations,
    update_teacher_limitations,
};
use libredu_timetable::msgs::classes::{Class, ClassDownMsgs, ClassLimitation};
use libredu_timetable::msgs::teachers::{Teacher, TeacherDownMsgs, TeacherLimitation};
use libredu_timetable::msgs::timetables::TimetableDownMsgs;
use libredu_timetable::DownMsg;

fn class(id: i32) -> Class {
    Class { id, kademe: "9".to_string(), sube: "A".to_string(), group_id: 2 }
}

fn teacher(id: i32) -> Teacher {
    Teacher { id, first_name: "A".to_string(), last_name: "B".to_string(), short_name: String::new() }
}

fn clim(class_id: i32, day: i32, hours: Vec<bool>) -> ClassLimitation {
    ClassLimitation { class_id, day, hours }
}

fn tlim(user_id: i32, day: i32, hours: Vec<bool>) -> TeacherLimitation {
    TeacherLimitation { user_id, school_id: 3, group_id: 4, day, hours }
}

fn class_form_error(m: &DownMsg) -> bool {
    matches!(m, DownMsg::Timetable(TimetableDownMsgs::Class(ClassDownMsgs::UpdateClassLimitationsError(e))) if e == "No valid form")
}

fn teacher_form_error(m: &DownMsg) -> bool {
    matches!(m, DownMsg::Timetable(TimetableDownMsgs::Teacher(TeacherDownMsgs::UpdateLimitationsError(e))) if e == "No valid form")
}

#[test]
fn default_lim_is_a_free_week() {
    let l = create_default_lim(8, 3);
    assert_eq!(l.len(), 7);
    for (i, d) in l.iter().enumerate() {
        assert_eq!(d.class_id, 8);
        assert_eq!(d.day, i as i32 + 1);
        assert_eq!(d.hours, vec![true, true, true]);
    }
}

#[test]
fn teacher_lim_is_a_free_week() {
    let l = create_teacher_lim(5, 3, 4, 2);
    assert_eq!(l.len(), 7);
    for (i, d) in l.iter().enumerate() {
        assert_eq!((d.user_id, d.school_id, d.group_id, d.day), (5, 3, 4, i as i32 + 1));
        assert_eq!(d.hours, vec![true, true]);
    }
}

#[test]
fn classes_keep_complete_weeks() {
    let mut lims: Vec<ClassLimitation> = (1..=7).map(|d| clim(1, d, vec![d % 2 == 0, true])).collect();
    lims.push(clim(2, 1, vec![true, true]));
    let (map, reset) = create_classes_limitations(lims.clone(), &vec![class(1), class(2)], 2);
    assert_eq!(map.len(), 2);
    let mine: Vec<(i32, Vec<bool>)> = map[&1].iter().map(|l| (l.day, l.hours.clone())).collect();
    let expected: Vec<(i32, Vec<bool>)> = lims[..7].iter().map(|l| (l.day, l.hours.clone())).collect();
    assert_eq!(mine, expected);
    assert_eq!(reset, vec![2]);
    assert_eq!(map[&2].len(), 7);
    assert!(map[&2].iter().all(|l| l.hours == vec![true, true] && l.class_id == 2));
}

#[test]
fn classes_with_short_days_are_reset() {
    let lims: Vec<ClassLimitation> = (1..=7).map(|d| clim(1, d, vec![true; if d == 4 { 1 } else { 3 }])).collect();
    let (map, reset) = create_classes_limitations(lims, &vec![class(1)], 3);
    assert_eq!(reset, vec![1]);
    assert!(map[&1].iter().all(|l| l.hours == vec![true, true, true]));
}

#[test]
fn longer_days_are_kept() {
    let lims: Vec<ClassLimitation> = (1..=7).map(|d| clim(1, d, vec![false; 5])).collect();
    let (map, reset) = create_classes_limitations(lims, &vec![class(1)], 3);
    assert!(reset.is_empty());
    assert!(map[&1].iter().all(|l| l.hours.len() == 5));
}

#[test]
fn a_class_listed_twice_is_reset_once() {
    let (map, reset) = create_classes_limitations(vec![], &vec![class(1), class(1)], 2);
    assert_eq!(reset, vec![1]);
    assert_eq!(map.len(), 1);
}

#[test]
fn teachers_weeks_come_sorted_by_day() {
    let lims: Vec<TeacherLimitation> = [7, 3, 1, 2, 6, 4, 5].iter().map(|d| tlim(9, *d, vec![true])).collect();
    let (map, reset) = create_teachers_limitations(lims, &vec![teacher(9), teacher(10)], 1, 3, 4);
    assert_eq!(reset, vec![10]);
    let days: Vec<i32> = map[&9].iter().map(|l| l.day).collect();
    assert_eq!(days, vec![1, 2, 3, 4, 5, 6, 7]);
    let free: Vec<(i32, i32, i32)> = map[&10].iter().map(|l| (l.user_id, l.school_id, l.group_id)).collect();
    assert_eq!(free, vec![(10, 3, 4); 7]);
}

#[test]
fn sorting_by_day_keeps_order_within_a_day() {
    let v = vec![tlim(1, 2, vec![true]), tlim(2, 1, vec![]), tlim(3, 2, vec![false]), tlim(4, 1, vec![true])];
    let r = sort_by_day(&v);
    let ids: Vec<i32> = r.iter().map(|l| l.user_id).collect();
    assert_eq!(ids, vec![2, 4, 1, 3]);
}

#[test]
fn class_form_is_accepted_in_week_order() {
    let form: Vec<ClassLimitation> = [3, 1, 2, 7, 5, 4, 6].iter().map(|d| clim(6, *d, vec![*d > 3])).collect();
    let v = update_class_limitations(6, form).unwrap();
    let days: Vec<i32> = v.iter().map(|l| l.day).collect();
    assert_eq!(days, vec![1, 2, 3, 4, 5, 6, 7]);
    assert_eq!(v[4].hours, vec![true]);
}

#[test]
fn class_form_of_six_days_is_refused() {
    let form: Vec<ClassLimitation> = (1..=6).map(|d| clim(6, d, vec![true])).collect();
    assert!(class_form_error(&update_class_limitations(6, form).unwrap_err()));
}

#[test]
fn class_form_of_another_class_is_refused() {
    let mut form: Vec<ClassLimitation> = (1..=7).map(|d| clim(6, d, vec![true])).collect();
    form[2].class_id = 7;
    assert!(class_form_error(&update_class_limitations(6, form).unwrap_err()));
}

#[test]
fn class_form_with_a_missing_day_is_refused() {
    let form: Vec<ClassLimitation> = [1, 2, 3, 4, 5, 6, 6].iter().map(|d| clim(6, *d, vec![true])).collect();
    assert!(class_form_error(&update_class_limitations(6, form).unwrap_err()));
}

#[test]
fn teacher_form_is_accepted_in_week_order() {
    let form: Vec<TeacherLimitation> = [2, 1, 4, 3, 6, 5, 7].iter().map(|d| tlim(8, *d, vec![])).collect();
    let v = update_teacher_limitations(form).unwrap();
    let days: Vec<i32> = v.iter().map(|l| l.day).collect();
    assert_eq!(days, vec![1, 2, 3, 4, 5, 6, 7]);
    assert!(v.iter().all(|l| l.user_id == 8));
}

#[test]
fn teacher_form_of_two_teachers_is_refused() {
    let mut form: Vec<TeacherLimitation> = (1..=7).map(|d| tlim(8, d, vec![])).collect();
    form[6].user_id = 9;
    assert!(teacher_form_error(&update_teacher_limitations(form).unwrap_err()));
}

#[test]
fn teacher_form_of_eight_days_is_refused() {
    let form: Vec<TeacherLimitation> = (1..=8).map(|d| tlim(8, d, vec![])).collect();
    assert!(teacher_form_error(&update_teacher_limitations(form).unwrap_err()));
}

#[test]
fn teacher_form_with_day_zero_is_refused() {
    let form: Vec<TeacherLimitation> = (0..=6).map(|d| tlim(8, d, vec![])).collect();
    assert!(teacher_form_error(&update_teacher_limitations(form).unwrap_err()));
}

#[test]
fn free_week_is_an_accepted_form() {
    let form = create_default_lim(4, 6);
    assert!(update_class_limitations(4, form).is_ok());
    let form = create_teacher_lim(4, 1, 1, 6);
    assert!(update_teacher_limitations(form).is_ok());
}

#[test]
fn change_lim_turns_one_hour_over() {
    let mut lims: Vec<ClassLimitation> = (1..=7).map(|d| clim(1, d, vec![true, true])).collect();
    change_lim(&mut lims, 5, 3, 1);
    assert_eq!(lims[2].hours, vec![true, false]);
    assert_eq!(lims[2].class_id, 5);
    assert_eq!(lims[1].hours, vec![true, true]);
}

#[test]
fn change_day_lim_frees_or_takes_the_day() {
    let mut lims: Vec<ClassLimitation> = (1..=7).map(|d| clim(1, d, vec![true, false])).collect();
    change_day_lim(&mut lims, 1, 2);
    assert_eq!(lims[1].hours, vec![true, true]);
    change_day_lim(&mut lims, 1, 2);
    assert_eq!(lims[1].hours, vec![false, false]);
}

#[test]
fn all_hours_frees_or_takes_an_hour_everywhere() {
    let mut lims: Vec<ClassLimitation> = (1..=7).map(|d| clim(1, d, vec![true, d != 3])).collect();
    all_hours(&mut lims, 1);
    assert!(lims.iter().all(|l| l.hours == vec![true, true]));
    all_hours(&mut lims, 1);
    assert!(lims.iter().all(|l| l.hours == vec![true, false]));
}

#[test]
fn day_hour_twice_gives_the_day_back() {
    let mut lims: Vec<TeacherLimitation> = (1..=7).map(|d| tlim(1, d, vec![true, false, true])).collect();
    let before: Vec<Vec<bool>> = lims.iter().map(|l| l.hours.clone()).collect();
    day_hour(&mut lims, 4, 1);
    assert_eq!(lims[4].hours, vec![true, true, true]);
    day_hour(&mut lims, 4, 1);
    let after: Vec<Vec<bool>> = lims.iter().map(|l| l.hours.clone()).collect();
    assert_eq!(before, after);
}

#[test]
fn all_days_sets_the_whole_day() {
    let mut lims: Vec<TeacherLimitation> = (1..=7).map(|d| tlim(1, d, vec![true, false])).collect();
    all_days(&mut lims, 0, 3);
    assert_eq!(lims[0].hours, vec![true, true, true]);
    all_days(&mut lims, 0, 3);
    assert_eq!(lims[0].hours, vec![false, false, false]);
    all_days(&mut lims, 9, 3);
    assert_eq!(lims.len(), 7);
}

#[test]
fn add_lim_classes_gives_the_week_to_each_class() {
    let form: Vec<ClassLimitation> = (1..=7).map(|d| clim(1, d, vec![d == 2])).collect();
    let r = add_lim_classes(&form, &vec![class(4), class(6)]);
    assert_eq!(r.len(), 2);
    assert_eq!(r[0].0, 4);
    assert_eq!(r[1].0, 6);
    assert!(r[1].1.iter().all(|l| l.class_id == 6));
    assert_eq!(r[1].1[1].hours, vec![true]);
    assert_eq!(r[0].1[2].hours, vec![false]);
}
