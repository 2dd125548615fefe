use libredu_timetable::client::{
    act_forms, change_timetable, classes_full_name, filter_classes, filter_lectures, filter_teachers, get_t_acts,
    if_schedule, is_placed, lecture_name, matches_search, placed, remove_act, teacher_short_name, teachers_full_name,
};
use libredu_timetable::msgs::activities::FullActivity;
use libredu_timetable::msgs::classes::Class;
use libredu_timetable::msgs::lectures::Lecture;
use libredu_timetable::msgs::teachers::Teacher;
use libredu_timetable::msgs::timetables::{Schedule, Timetable};
use libredu_timetable::text::{act_hours, parse_i32};

fn act(id: i32, subject: i32, classes: Vec<i32>, teachers: Vec<i32>, hour: i16) -> FullActivity {
    FullActivity { id, subject, hour, classes, teachers, blocks: None, partner_activity: None }
}

fn teacher(id: i32, first: &str, last: &str, short: &str) -> Teacher {
    Teacher { id, first_name: first.to_string(), last_name: last.to_string(), short_name: short.to_string() }
}

fn class(id: i32, kademe: &str, sube: &str) -> Class {
    Class { id, kademe: kademe.to_string(), sube: sube.to_string(), group_id: 1 }
}

fn lecture(id: i32, name: &str, short: &str) -> Lecture {
    Lecture { id, name: name.to_string(), short_name: short.to_string() }
}

fn sch(day_id: i32, hour: i16, activity: i32) -> Schedule {
    Schedule { day_id, hour, activity, locked: false }
}

#[test]
fn lecture_name_is_the_first_match() {
    let lectures = vec![lecture(1, "Matematik", "MAT"), lecture(2, "Fizik", "FİZ"), lecture(2, "Fizik 2", "F2")];
    assert_eq!(lecture_name(&act(9, 2, vec![], vec![], 1), &lectures), "FİZ");
}

#[test]
fn teacher_names_follow_the_teacher_list() {
    let teachers = vec![teacher(1, "Ali", "Can", ""), teacher(2, "Ece", "Su", "ES"), teacher(3, "Oya", "Ak", "OA")];
    let a = act(9, 1, vec![], vec![3, 1], 1);
    assert_eq!(teacher_short_name(&a, &teachers), "AliCanOA");
    assert_eq!(teachers_full_name(&a, &teachers), "AliCan OyaAk ");
    assert_eq!(teachers_full_name(&act(9, 1, vec![], vec![], 1), &teachers), "");
}

#[test]
fn class_names_follow_the_activity() {
    let classes = vec![class(1, "9", "A"), class(2, "10", "B")];
    assert_eq!(classes_full_name(&act(9, 1, vec![2, 1], vec![], 1), &classes), "10B9A");
}

#[test]
fn placed_adds_the_hours_of_an_activity() {
    let mut s = vec![sch(1, 0, 5)];
    placed(&mut s, &act(7, 1, vec![], vec![], 3), 2, 4);
    assert_eq!(s.len(), 4);
    assert_eq!((s[1].day_id, s[1].hour, s[1].activity, s[1].locked), (4, 2, 7, false));
    assert_eq!(s[3].hour, 4);
    placed(&mut s, &act(8, 1, vec![], vec![], 0), 2, 4);
    assert_eq!(s.len(), 4);
}

#[test]
fn remove_act_undoes_placed() {
    let mut s = vec![sch(1, 0, 5), sch(2, 1, 6)];
    let before = s.clone();
    placed(&mut s, &act(7, 1, vec![], vec![], 2), 3, 5);
    remove_act(&mut s, 7);
    assert_eq!(s.len(), before.len());
    for (a, b) in s.iter().zip(before.iter()) {
        assert_eq!((a.day_id, a.hour, a.activity), (b.day_id, b.hour, b.activity));
    }
}

#[test]
fn is_placed_looks_for_an_hour() {
    let s = vec![sch(1, 0, 5)];
    assert!(is_placed(5, &s));
    assert!(!is_placed(6, &s));
}

#[test]
fn get_t_acts_keeps_the_teachers_activities() {
    let acts = vec![act(1, 1, vec![], vec![4], 1), act(2, 1, vec![], vec![5], 1), act(3, 1, vec![], vec![5, 4], 1)];
    let ids: Vec<i32> = get_t_acts(&acts, 4).iter().map(|a| a.id).collect();
    assert_eq!(ids, vec![1, 3]);
}

#[test]
fn if_schedule_finds_the_teachers_hour() {
    let acts = vec![act(1, 1, vec![], vec![4], 1), act(2, 1, vec![], vec![5], 1)];
    let s = vec![sch(1, 2, 2), sch(1, 2, 1), sch(1, 3, 1)];
    let hit = if_schedule(&s, 1, 2, &acts, 4).unwrap();
    assert_eq!((hit.day_id, hit.hour, hit.activity), (1, 2, 1));
    assert!(if_schedule(&s, 2, 2, &acts, 4).is_none());
}

#[test]
fn hours_are_read_between_spaces() {
    assert_eq!(act_hours("2 3 1"), vec![2, 3, 1]);
    assert_eq!(act_hours("2  x 4\t\n"), vec![2, 4]);
    assert_eq!(act_hours("+5 -1 40000 07"), vec![5, -1, 7]);
    assert_eq!(act_hours(""), Vec::<i16>::new());
    assert_eq!(act_hours("3\t4"), Vec::<i16>::new());
    assert_eq!(act_hours("2 6\u{3000}\u{a0}"), vec![2, 6]);
    assert_eq!(act_hours("2 6\u{200b}"), vec![2]);
}

#[test]
fn numbers_are_read_like_from_str() {
    assert_eq!(parse_i32("42"), Some(42));
    assert_eq!(parse_i32("-2147483648"), Some(i32::MIN));
    assert_eq!(parse_i32("2147483648"), None);
    assert_eq!(parse_i32("+7"), Some(7));
    assert_eq!(parse_i32("-"), None);
    assert_eq!(parse_i32(" 1"), None);
    assert_eq!(parse_i32("1_0"), None);
    for v in [0, 1, -1, 123456, i32::MAX, i32::MIN] {
        assert_eq!(parse_i32(&v.to_string()), Some(v));
    }
}

#[test]
fn act_forms_make_one_activity_per_hour_count() {
    let forms = act_forms(3, &vec![1, 2], &vec![9], "2 1");
    assert_eq!(forms.len(), 2);
    assert_eq!(forms[0].hour, 2);
    assert_eq!(forms[1].hour, 1);
    assert_eq!(forms[1].subject, 3);
    assert_eq!(forms[1].classes, vec![1, 2]);
    assert_eq!(forms[1].teachers, vec![9]);
}

#[test]
fn change_timetable_reads_the_id() {
    let ts = vec![Timetable { id: 4, name: "A".to_string(), hour: 6 }, Timetable { id: 4, name: "B".to_string(), hour: 8 }];
    assert_eq!(change_timetable("4", &ts), (4, Some(6)));
    assert_eq!(change_timetable("5", &ts), (5, None));
}

#[test]
fn searches_ignore_case() {
    assert!(matches_search("Matematik", "mat"));
    assert!(matches_search("GEOMETRI", "geo"));
    assert!(!matches_search("FİZİK", "fiz"));
    assert!(matches_search("Fizik", ""));
    assert!(!matches_search("Fizik", "kimya"));
    let lectures = vec![lecture(1, "Matematik", "MAT"), lecture(2, "Fizik", "FİZ"), lecture(3, "Geometri", "GEO")];
    let ids: Vec<i32> = filter_lectures(&lectures, "ma").iter().map(|l| l.id).collect();
    assert_eq!(ids, vec![1]);
    let classes = vec![class(1, "9", "a"), class(2, "10", "B")];
    let ids: Vec<i32> = filter_classes(&classes, "9A").iter().map(|c| c.id).collect();
    assert_eq!(ids, vec![1]);
}

#[test]
fn teacher_search_leaves_out_chosen_teachers() {
    let teachers = vec![teacher(1, "Ali", "Can", ""), teacher(2, "Ali", "Su", ""), teacher(3, "Oya", "Ak", "")];
    let chosen = vec![teacher(2, "Ali", "Su", "")];
    let ids: Vec<i32> = filter_teachers(&teachers, "ali", &chosen).iter().map(|t| t.id).collect();
    assert_eq!(ids, vec![1]);
}
