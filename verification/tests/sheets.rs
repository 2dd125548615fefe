use libredu_timetable::msgs::activities::FullActivity;
use libredu_timetable::msgs::classes::Class;
use libredu_timetable::msgs::lectures::Lecture;
use libredu_timetable::msgs::teachers::Teacher;
use libredu_timetable::msgs::timetables::Schedule;
use libredu_timetable::sheets::{
    acts_to_place, class_overview, delete_label, move_label, print_name, sheet, sheet_find, toggle_move, SheetOf,
};

fn act(id: i32, subject: i32, classes: Vec<i32>, teachers: Vec<i32>) -> FullActivity {
    FullActivity { id, subject, hour: 1, classes, teachers, blocks: None, partner_activity: None }
}

fn sch(day_id: i32, hour: i16, activity: i32) -> Schedule {
    Schedule { day_id, hour, activity, locked: false }
}

fn lectures() -> Vec<Lecture> {
    vec![
        Lecture { id: 1, name: "Matematik".to_string(), short_name: "MAT".to_string() },
        Lecture { id: 2, name: "Fizik".to_string(), short_name: "F".to_string() },
    ]
}

fn classes() -> Vec<Class> {
    vec![Class { id: 10, kademe: "9".to_string(), sube: "A".to_string(), group_id: 1 }]
}

fn teachers() -> Vec<Teacher> {
    vec![Teacher { id: 5, first_name: "Ali".to_string(), last_name: "Can".to_string(), short_name: "AC".to_string() }]
}

#[test]
fn teacher_sheet_shows_classes_and_lectures() {
    let acts = vec![act(1, 1, vec![10], vec![5]), act(2, 2, vec![10], vec![6])];
    let s = vec![sch(2, 1, 2), sch(2, 1, 1), sch(3, 0, 1)];
    let r = sheet(&s, &acts, &classes(), &teachers(), &lectures(), SheetOf::Teacher(5), 2);
    assert_eq!(r.len(), 2);
    assert_eq!(r[0].len(), 7);
    assert_eq!(r[1][1], Some(("9A".to_string(), "MAT".to_string())));
    assert_eq!(r[0][2], Some(("9A".to_string(), "MAT".to_string())));
    assert_eq!(r[0][0], None);
    assert_eq!(r[1][2], None);
}

#[test]
fn class_sheet_shows_teachers_and_lectures() {
    let acts = vec![act(1, 1, vec![10], vec![5])];
    let s = vec![sch(1, 0, 1)];
    let r = sheet(&s, &acts, &classes(), &teachers(), &lectures(), SheetOf::Class(10), 1);
    assert_eq!(r[0][0], Some(("AliCan ".to_string(), "MAT".to_string())));
}

#[test]
fn sheet_find_takes_the_first_hour() {
    let acts = vec![act(1, 1, vec![10], vec![5]), act(2, 1, vec![10], vec![5])];
    let s = vec![sch(1, 0, 2), sch(1, 0, 1)];
    assert_eq!(sheet_find(&s, &acts, SheetOf::Class(10), 1, 0), Some(1));
    assert_eq!(sheet_find(&s, &acts, SheetOf::Class(11), 1, 0), None);
}

#[test]
fn overview_shows_two_letters_of_each_lecture() {
    let acts = vec![act(1, 1, vec![10], vec![5]), act(2, 2, vec![10], vec![5])];
    let s = vec![sch(0, 1, 1), sch(4, 0, 2)];
    let r = class_overview(&s, &acts, &classes(), &lectures(), 2);
    assert_eq!(r.len(), 1);
    assert_eq!(r[0].0, "9A");
    assert_eq!(r[0].1.len(), 5);
    assert_eq!(r[0].1[0], vec![None, Some("MA".to_string())]);
    assert_eq!(r[0].1[4], vec![Some("F".to_string()), None]);
}

#[test]
fn printed_names_leave_out_isolate_marks() {
    let t = Teacher {
        id: 1,
        first_name: "\u{2068}Ayşe\u{2069}".to_string(),
        last_name: "Yıl\u{2069}maz".to_string(),
        short_name: String::new(),
    };
    assert_eq!(print_name(&t), "Ayşe Yılmaz");
}

#[test]
fn waiting_activities_are_those_not_placed() {
    let acts = vec![act(1, 1, vec![10], vec![5]), act(2, 1, vec![10], vec![6]), act(3, 1, vec![11], vec![5])];
    let s = vec![sch(1, 0, 1)];
    let ids: Vec<i32> = acts_to_place(&acts, &s, SheetOf::Class(10)).iter().map(|a| a.id).collect();
    assert_eq!(ids, vec![2]);
    let ids: Vec<i32> = acts_to_place(&acts, &s, SheetOf::Teacher(5)).iter().map(|a| a.id).collect();
    assert_eq!(ids, vec![3]);
}

#[test]
fn card_controls() {
    assert_eq!(toggle_move(None, 4), Some(4));
    assert_eq!(toggle_move(Some(4), 4), None);
    assert_eq!(toggle_move(Some(3), 4), Some(4));
    assert_eq!(move_label(None, 4), "Taşı");
    assert_eq!(move_label(Some(4), 4), "Vazgeç");
    assert_eq!(move_label(Some(3), 4), "");
    assert_eq!(delete_label(false), "Sil");
    assert_eq!(delete_label(true), "Emin misin?");
}
