use std::collections::HashMap;

use libredu_timetable::msgs::activities::{ActivityDownMsgs, FullActivity};
use libredu_timetable::msgs::classes::{Class, ClassDownMsgs, ClassLimitation, ClassUpMsgs};
use libredu_timetable::msgs::lectures::Lecture;
use libredu_timetable::msgs::teachers::{Teacher, TeacherDownMsgs, TeacherLimitation, TeacherUpMsgs};
use libredu_timetable::msgs::timetables::{Schedule, Timetable, TimetableDownMsgs, TimetableUpMsgs};
use libredu_timetable::msgs::users::User;
use libredu_timetable::store::{handle_down_msg, ClientState, Effect, School};
use libredu_timetable::view::{Pages, TimetablePages};
use libredu_timetable::{DownMsg, UpMsg};

fn state() -> ClientState {
    ClientState {
        page: Pages::NotReady,
        school: None,
        lectures: vec![],
        timetables: vec![],
        selected_timetable: 0,
        timetable_hours: 0,
        selected_page: TimetablePages::Generator,
        selected_class: Some(Class { id: 1, kademe: "9".to_string(), sube: "A".to_string(), group_id: 1 }),
        selected_teacher: Some(5),
        classes: vec![],
        teachers: vec![],
        activities: vec![],
        schedules: vec![],
        classes_limitations: HashMap::new(),
        teachers_limitations: HashMap::new(),
        loaded_lims: false,
        teacher_totals: HashMap::new(),
        class_totals: HashMap::new(),
    }
}

fn act(id: i32, classes: Vec<i32>, teachers: Vec<i32>, hour: i16) -> FullActivity {
    FullActivity { id, subject: 1, hour, classes, teachers, blocks: None, partner_activity: None }
}

fn sends(e: &[Effect]) -> Vec<String> {
    e.iter()
        .map(|x| match x {
            Effect::Send(m) => format!("{:?}", m),
            other => format!("{:?}", other),
        })
        .collect()
}

#[test]
fn logged_user_asks_for_the_school() {
    let mut s = state();
    let e = handle_down_msg(&mut s, DownMsg::LoggedUser(User { id: 1, first_name: "A".to_string(), auth_token: "t".to_string() }));
    assert_eq!(e.len(), 3);
    assert!(matches!(e[0], Effect::Send(UpMsg::GetSchool)));
    assert!(matches!(e[1], Effect::ClearLoginError));
    assert!(matches!(&e[2], Effect::StoreUser(u) if u.auth_token == "t"));
}

#[test]
fn school_opens_the_home_page() {
    let mut s = state();
    let e = handle_down_msg(&mut s, DownMsg::GetSchool { id: 3, name: "Okul".to_string() });
    assert_eq!(s.page, Pages::Home);
    assert!(matches!(&s.school, Some(School { id: 3, name }) if name == "Okul"));
    assert_eq!(sends(&e), vec!["GetTimetables", "GetTeachers", "GetLectures"]);
}

#[test]
fn lectures_are_kept_sorted_by_short_name() {
    let mut s = state();
    let lectures = vec![
        Lecture { id: 1, name: "x".to_string(), short_name: "TÜR".to_string() },
        Lecture { id: 2, name: "y".to_string(), short_name: "MAT".to_string() },
        Lecture { id: 3, name: "z".to_string(), short_name: "FİZ".to_string() },
        Lecture { id: 4, name: "w".to_string(), short_name: "MAT".to_string() },
    ];
    let e = handle_down_msg(&mut s, DownMsg::GetLectures(lectures));
    assert!(e.is_empty());
    let ids: Vec<i32> = s.lectures.iter().map(|l| l.id).collect();
    assert_eq!(ids, vec![3, 2, 4, 1]);
}

#[test]
fn teachers_and_classes_are_kept_sorted_by_name() {
    let mut s = state();
    let t = |id: i32, f: &str, l: &str| Teacher { id, first_name: f.to_string(), last_name: l.to_string(), short_name: String::new() };
    handle_down_msg(&mut s, DownMsg::GetTeachers(vec![t(1, "Zeki", "A"), t(2, "Ali", "B"), t(3, "Ali", "A")]));
    let ids: Vec<i32> = s.teachers.iter().map(|t| t.id).collect();
    assert_eq!(ids, vec![3, 2, 1]);
    let c = |id: i32, k: &str, sb: &str| Class { id, kademe: k.to_string(), sube: sb.to_string(), group_id: 1 };
    handle_down_msg(&mut s, DownMsg::Timetable(TimetableDownMsgs::GetClasses(vec![c(1, "9", "B"), c(2, "10", "A"), c(3, "9", "A")])));
    let ids: Vec<i32> = s.classes.iter().map(|c| c.id).collect();
    assert_eq!(ids, vec![2, 3, 1]);
}

#[test]
fn timetables_open_the_first_one() {
    let mut s = state();
    let ts = vec![Timetable { id: 8, name: "A".to_string(), hour: 6 }, Timetable { id: 9, name: "B".to_string(), hour: 7 }];
    let e = handle_down_msg(&mut s, DownMsg::GetTimetables(ts));
    assert_eq!(s.timetables.len(), 2);
    assert_eq!(s.selected_timetable, 8);
    assert_eq!(s.timetable_hours, 6);
    assert_eq!(s.page, Pages::Home);
    assert_eq!(s.selected_page, TimetablePages::Classes);
    assert!(s.selected_class.is_none());
    assert!(s.selected_teacher.is_none());
    assert_eq!(
        sends(&e),
        vec![
            "Timetable(GetClasses(8))",
            "Timetable(GetClassesLimitations(8))",
            "Timetable(GetTeachersLimitations(8))",
            "Timetable(GetSchedules(8))",
            "Timetable(GetActivities(8))",
        ]
    );
}

#[test]
fn no_timetables_change_nothing_else() {
    let mut s = state();
    let e = handle_down_msg(&mut s, DownMsg::GetTimetables(vec![]));
    assert!(e.is_empty());
    assert_eq!(s.page, Pages::NotReady);
}

#[test]
fn class_limitations_are_settled_and_missing_ones_stored() {
    let mut s = state();
    s.timetable_hours = 2;
    s.classes = vec![
        Class { id: 1, kademe: "9".to_string(), sube: "A".to_string(), group_id: 1 },
        Class { id: 2, kademe: "9".to_string(), sube: "B".to_string(), group_id: 1 },
    ];
    let lims: Vec<ClassLimitation> = (1..=7).map(|d| ClassLimitation { class_id: 1, day: d, hours: vec![false, true] }).collect();
    let e = handle_down_msg(&mut s, DownMsg::Timetable(TimetableDownMsgs::GetClassesLimitations(lims)));
    assert!(s.loaded_lims);
    assert!(s.classes_limitations[&1].iter().all(|l| l.hours == vec![false, true]));
    assert!(s.classes_limitations[&2].iter().all(|l| l.hours == vec![true, true]));
    assert_eq!(e.len(), 1);
    match &e[0] {
        Effect::Send(UpMsg::Timetable(TimetableUpMsgs::Class(ClassUpMsgs::UpdateLimitations((id, l))))) => {
            assert_eq!(*id, 2);
            assert_eq!(l.len(), 7);
        },
        _ => panic!("a stored week"),
    }
}

#[test]
fn teacher_limitations_are_settled_and_missing_ones_stored() {
    let mut s = state();
    s.timetable_hours = 1;
    s.selected_timetable = 8;
    s.school = Some(School { id: 3, name: "Okul".to_string() });
    s.teachers = vec![Teacher { id: 5, first_name: "A".to_string(), last_name: "B".to_string(), short_name: String::new() }];
    let e = handle_down_msg(&mut s, DownMsg::Timetable(TimetableDownMsgs::GetTeachersLimitations(vec![])));
    assert_eq!(s.teachers_limitations[&5].len(), 7);
    assert!(s.teachers_limitations[&5].iter().all(|l| l.school_id == 3 && l.group_id == 8));
    match &e[0] {
        Effect::Send(UpMsg::Timetable(TimetableUpMsgs::Teacher(TeacherUpMsgs::UpdateLimitations((g, l))))) => {
            assert_eq!(*g, 8);
            assert!(l.iter().all(|x| x.user_id == 5));
        },
        _ => panic!("a stored week"),
    }
}

#[test]
fn updated_limitations_replace_the_old_ones() {
    let mut s = state();
    let lims = vec![ClassLimitation { class_id: 4, day: 1, hours: vec![true] }];
    handle_down_msg(&mut s, DownMsg::Timetable(TimetableDownMsgs::Class(ClassDownMsgs::UpdateClassLimitations(lims))));
    assert_eq!(s.classes_limitations[&4].len(), 1);
    let tl = vec![TeacherLimitation { user_id: 5, school_id: 1, group_id: 1, day: 1, hours: vec![] }];
    handle_down_msg(&mut s, DownMsg::Timetable(TimetableDownMsgs::Teacher(TeacherDownMsgs::UpdateLimitations(tl))));
    assert_eq!(s.teachers_limitations[&5].len(), 1);
}

#[test]
fn activities_and_schedules_are_kept() {
    let mut s = state();
    handle_down_msg(&mut s, DownMsg::Timetable(TimetableDownMsgs::GetActivities(vec![act(1, vec![], vec![], 1)])));
    handle_down_msg(&mut s, DownMsg::Timetable(TimetableDownMsgs::GetSchedules(vec![Schedule { day_id: 1, hour: 0, activity: 1, locked: false }])));
    assert_eq!(s.activities.len(), 1);
    assert_eq!(s.schedules.len(), 1);
}

#[test]
fn added_activity_counts_its_hours() {
    let mut s = state();
    s.teacher_totals.insert(5, 10);
    s.class_totals.insert(7, 20);
    handle_down_msg(&mut s, DownMsg::Activity(ActivityDownMsgs::AddedAct(act(1, vec![7], vec![5], 3))));
    assert_eq!(s.activities.len(), 1);
    assert_eq!(s.teacher_totals[&5], 13);
    assert_eq!(s.teacher_totals[&7], 23);
    assert_eq!(s.class_totals[&7], 20);
}

#[test]
fn deleted_activity_gives_its_hours_back() {
    let mut s = state();
    s.activities = vec![act(1, vec![7], vec![5], 3), act(2, vec![7], vec![6], 1)];
    s.teacher_totals.insert(5, 10);
    handle_down_msg(&mut s, DownMsg::Activity(ActivityDownMsgs::DeletedAct(1)));
    assert_eq!(s.activities.len(), 1);
    assert_eq!(s.activities[0].id, 2);
    assert_eq!(s.teacher_totals[&5], 7);
}

#[test]
fn other_answers_change_nothing() {
    let mut s = state();
    let e = handle_down_msg(&mut s, DownMsg::AuthError("x".to_string()));
    assert!(e.is_empty());
    assert_eq!(s.page, Pages::NotReady);
    assert_eq!(s.selected_teacher, Some(5));
}
