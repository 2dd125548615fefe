use std::collections::HashMap;

use libredu_timetable::client::{select_class, select_teacher, toggle_class, toggle_teacher};
use libredu_timetable::sheets::delete_click;
use libredu_timetable::msgs::classes::{Class, ClassLimitation};
use libredu_timetable::msgs::teachers::{Teacher, TeacherLimitation};

fn class(id: i32, kademe: &str, sube: &str) -> Class {
    Class { id, kademe: kademe.to_string(), sube: sube.to_string(), group_id: 1 }
}

fn teacher(id: i32, short: &str) -> Teacher {
    Teacher { id, first_name: "A".to_string(), last_name: "B".to_string(), short_name: short.to_string() }
}

#[test]
fn clicking_a_class_selects_it_and_shows_its_limitations() {
    let classes = vec![class(1, "9", "A"), class(2, "9", "B")];
    let mut lims = HashMap::new();
    lims.insert(2, vec![ClassLimitation { class_id: 2, day: 1, hours: vec![true, false] }]);
    let (sel, form, shown) = select_class(&None, &classes, 2, &lims);
    assert_eq!(sel.unwrap().id, 2);
    let form = form.unwrap();
    assert_eq!(form.len(), 1);
    assert_eq!(form[0].sube, "B");
    let shown = shown.unwrap();
    assert_eq!(shown.len(), 1);
    assert_eq!(shown[0].hours, vec![true, false]);
}

#[test]
fn clicking_the_selected_class_unselects_it() {
    let classes = vec![class(1, "9", "A")];
    let lims = HashMap::new();
    let (sel, form, shown) = select_class(&Some(class(1, "9", "A")), &classes, 1, &lims);
    assert!(sel.is_none() && form.is_none() && shown.is_none());
}

#[test]
fn clicking_another_class_without_limitations_shows_none() {
    let classes = vec![class(1, "9", "A"), class(2, "10", "C")];
    let lims = HashMap::new();
    let (sel, form, shown) = select_class(&Some(class(1, "9", "A")), &classes, 2, &lims);
    assert_eq!(sel.unwrap().kademe, "10");
    assert_eq!(form.unwrap()[0].id, 2);
    assert!(shown.is_none());
}

#[test]
fn clicking_a_teacher_selects_it() {
    let teachers = vec![teacher(5, "AB"), teacher(6, "CD")];
    let mut lims = HashMap::new();
    lims.insert(6, vec![TeacherLimitation { user_id: 6, school_id: 1, group_id: 2, day: 3, hours: vec![false] }]);
    let (sel, form, shown) = select_teacher(&teachers, 6, &lims);
    assert_eq!(sel, Some(6));
    assert_eq!(form.len(), 1);
    assert_eq!(form[0].short_name, "CD");
    let shown = shown.unwrap();
    assert_eq!(shown[0].day, 3);
    assert_eq!(shown[0].hours, vec![false]);
    let (_, _, none) = select_teacher(&teachers, 5, &lims);
    assert!(none.is_none());
}

#[test]
fn toggling_a_form_teacher_adds_or_removes_it() {
    let form = vec![teacher(5, "AB"), teacher(6, "CD")];
    let r = toggle_teacher(&form, &teacher(5, "AB"));
    assert_eq!(r.len(), 1);
    assert_eq!(r[0].id, 6);
    let r = toggle_teacher(&r, &teacher(7, "EF"));
    assert_eq!(r.iter().map(|t| t.id).collect::<Vec<_>>(), vec![6, 7]);
}

#[test]
fn toggling_a_form_class_adds_or_removes_it() {
    let form = vec![class(1, "9", "A")];
    let r = toggle_class(&form, &class(2, "9", "B"));
    assert_eq!(r.iter().map(|c| c.id).collect::<Vec<_>>(), vec![1, 2]);
    let r = toggle_class(&r, &class(1, "9", "A"));
    assert_eq!(r.iter().map(|c| c.id).collect::<Vec<_>>(), vec![2]);
}

#[test]
fn deleting_a_card_asks_first() {
    assert_eq!(delete_click(false), (false, true));
    assert_eq!(delete_click(true), (true, true));
}
