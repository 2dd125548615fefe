use libredu_timetable::msgs::activities::{ActivityDownMsgs, ActivityUpMsgs, AddActivity};
use libredu_timetable::msgs::teachers::Teacher;
use libredu_timetable::msgs::timetables::TimetableUpMsgs;
use libredu_timetable::server::{
    check_act_classes, check_act_teachers, is_teachers_valid, login, login_outcome, login_reply, school_task,
    up_msg_handler, LoginError, LoginUser, Route, SchoolTask,
};
use libredu_timetable::{DownMsg, UpMsg};

fn user(hash: &str) -> LoginUser {
    LoginUser::new(7, "Ayşe".to_string(), hash.to_string())
}

fn teacher(id: i32) -> Teacher {
    Teacher { id, first_name: "A".to_string(), last_name: "B".to_string(), short_name: "AB".to_string() }
}

fn auth_error(r: &Route, text: &str) -> bool {
    matches!(r, Route::Reply(DownMsg::AuthError(e)) if e == text)
}

#[test]
fn login_with_the_right_password() {
    let hash = bcrypt::hash("gizli", 4).unwrap();
    match login(Some(user(&hash)), "gizli") {
        Ok(Some(u)) => {
            assert_eq!(u.id, 7);
            assert_eq!(u.first_name, "Ayşe");
        },
        _ => panic!("the password matches"),
    }
}

#[test]
fn login_with_a_wrong_password() {
    let hash = bcrypt::hash("gizli", 4).unwrap();
    assert!(matches!(login(Some(user(&hash)), "yanlis"), Ok(None)));
}

#[test]
fn login_without_a_user() {
    assert!(matches!(login(None, "gizli"), Ok(None)));
}

#[test]
fn login_with_an_unreadable_hash() {
    assert!(matches!(login(Some(user("not a hash")), "gizli"), Err(LoginError::UnreadableHash)));
}

#[test]
fn login_outcome_follows_the_check() {
    assert!(matches!(login_outcome(Some(user("x")), Some(true)), Ok(Some(_))));
    assert!(matches!(login_outcome(Some(user("x")), Some(false)), Ok(None)));
    assert!(matches!(login_outcome(Some(user("x")), None), Err(LoginError::UnreadableHash)));
    assert!(matches!(login_outcome(None, None), Ok(None)));
}

#[test]
fn login_reply_gives_the_user_and_token() {
    let hash = bcrypt::hash("gizli", 4).unwrap();
    let u = login(Some(user(&hash)), "gizli").unwrap();
    match login_reply(u, "7:abc".to_string()) {
        DownMsg::LoggedUser(u) => {
            assert_eq!(u.id, 7);
            assert_eq!(u.first_name, "Ayşe");
            assert_eq!(u.auth_token, "7:abc");
        },
        _ => panic!("a logged user"),
    }
    match login_reply(None, String::new()) {
        DownMsg::AuthError(e) => assert_eq!(e, "Sorry, invalid name or password."),
        _ => panic!("a refusal"),
    }
}

#[test]
fn requests_route_by_kind() {
    let r = up_msg_handler(UpMsg::Login { email: "a@b.c".to_string(), password: "p".to_string() }, None);
    assert!(matches!(r, Route::Login { email, password } if email == "a@b.c" && password == "p"));
    assert!(matches!(up_msg_handler(UpMsg::Logout, Some("t".to_string())), Route::Logout(t) if t == "t"));
    assert!(matches!(up_msg_handler(UpMsg::GetSchool, Some("t".to_string())), Route::OwnSchool(t) if t == "t"));
    assert!(matches!(
        up_msg_handler(UpMsg::GetTeachers, Some("t".to_string())),
        Route::ForSchool(_, SchoolTask::Teachers)
    ));
    assert!(matches!(
        up_msg_handler(UpMsg::GetLectures, Some("t".to_string())),
        Route::ForSchool(_, SchoolTask::Lectures)
    ));
    assert!(matches!(
        up_msg_handler(UpMsg::GetTimetables, Some("t".to_string())),
        Route::ForSchool(_, SchoolTask::Timetables)
    ));
    assert!(matches!(
        up_msg_handler(UpMsg::Timetable(TimetableUpMsgs::GetClasses(3)), Some("t".to_string())),
        Route::ForSchool(_, SchoolTask::Timetable(TimetableUpMsgs::GetClasses(3)))
    ));
    let form = AddActivity { subject: 1, hour: 2, classes: vec![3], teachers: vec![4] };
    assert!(matches!(
        up_msg_handler(UpMsg::Activity(ActivityUpMsgs::AddAct((5, form))), Some("t".to_string())),
        Route::ForSchool(_, SchoolTask::Activity(ActivityUpMsgs::AddAct((5, _))))
    ));
}

#[test]
fn requests_without_a_session_are_refused() {
    assert!(auth_error(&up_msg_handler(UpMsg::GetSchool, None), "Not auth"));
    assert!(auth_error(&up_msg_handler(UpMsg::GetTeachers, None), "Not auth"));
    assert!(auth_error(&up_msg_handler(UpMsg::GetLectures, None), "Not Auth"));
    assert!(auth_error(&up_msg_handler(UpMsg::GetTimetables, None), "Not Auth"));
    assert!(auth_error(&up_msg_handler(UpMsg::Timetable(TimetableUpMsgs::GetActivities(1)), None), "Not Auth"));
}

#[test]
fn school_task_needs_a_school() {
    let r = school_task(SchoolTask::Lectures, DownMsg::GetSchool { id: 12, name: "Okul".to_string() });
    assert!(matches!(r, Ok((SchoolTask::Lectures, 12))));
    let r = school_task(SchoolTask::Lectures, DownMsg::AuthError("Not auth for school".to_string()));
    assert!(matches!(r, Err(DownMsg::AuthError(e)) if e == "Not auth for school"));
}

#[test]
fn activities_need_a_class_of_the_timetable() {
    assert!(check_act_classes(&vec![1, 2, 3], &vec![9, 2]).is_none());
    match check_act_classes(&vec![1, 2, 3], &vec![9]) {
        Some(DownMsg::Activity(ActivityDownMsgs::AddActError(e))) => assert_eq!(e, "No classes"),
        _ => panic!("refused"),
    }
    assert!(check_act_classes(&vec![], &vec![]).is_some());
}

#[test]
fn activities_need_teachers_of_the_school() {
    let school = vec![teacher(1), teacher(2)];
    assert!(is_teachers_valid(&vec![2, 1], &school));
    assert!(is_teachers_valid(&vec![], &school));
    assert!(!is_teachers_valid(&vec![3], &school));
    assert!(check_act_teachers(&vec![1], &school).is_none());
    match check_act_teachers(&vec![1, 5], &school) {
        Some(DownMsg::Activity(ActivityDownMsgs::AddActError(e))) => assert_eq!(e, "Not valid teachers"),
        _ => panic!("refused"),
    }
}
