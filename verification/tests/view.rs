use libredu_timetable::order::{sort_by_key, text_le_exec};
use libredu_timetable::msgs::lectures::Lecture;
use libredu_timetable::view::{home, root, Pages, Screen, TimetablePages};

#[test]
fn root_shows_login_before_home() {
    assert!(matches!(root(&Pages::NotReady, TimetablePages::Teachers), Screen::Login));
    match root(&Pages::Home, TimetablePages::Teachers) {
        Screen::Home { tabs, page } => {
            assert_eq!(tabs, vec![TimetablePages::Classes, TimetablePages::Teachers, TimetablePages::Generator]);
            assert_eq!(page, TimetablePages::Teachers);
        },
        _ => panic!("home"),
    }
    assert_eq!(Pages::default(), Pages::NotReady);
}

#[test]
fn home_shows_the_selected_tab() {
    assert!(matches!(home(TimetablePages::Generator), Screen::Home { page: TimetablePages::Generator, .. }));
    assert_eq!(TimetablePages::default(), TimetablePages::Classes);
    assert_eq!(TimetablePages::Classes.label(), "classes");
    assert_eq!(TimetablePages::Teachers.label(), "teachers");
    assert_eq!(TimetablePages::Generator.label(), "generator");
}

#[test]
fn texts_compare_like_strings() {
    let words = ["", "a", "ab", "b", "B", "ç", "ı", "İ", "z", "10", "9"];
    for x in words {
        for y in words {
            assert_eq!(text_le_exec(x, y), x <= y, "{x} {y}");
        }
    }
}

#[test]
fn sorting_keeps_ties_in_order() {
    let l = |id: i32, s: &str| Lecture { id, name: String::new(), short_name: s.to_string() };
    let v = vec![l(1, "b"), l(2, "a"), l(3, "b"), l(4, "a")];
    let ids: Vec<i32> = sort_by_key(&v).iter().map(|x| x.id).collect();
    assert_eq!(ids, vec![2, 4, 1, 3]);
}
