pub mod activities;
pub mod classes;
pub mod lectures;
pub mod teachers;
pub mod timetables;
pub mod users;

use vstd::prelude::*;
use crate::msgs::activities::{ActivityUpMsgs, ActivityDownMsgs};
use crate::msgs::classes::ClassLimitation;
use crate::msgs::lectures::Lecture;
use crate::msgs::teachers::Teacher;
use crate::msgs::timetables::{Timetable, TimetableUpMsgs, TimetableDownMsgs};
use crate::msgs::users::User;

verus! {

/// A request from the client to the server.
#[derive(Debug)]
pub enum UpMsg {
    Login { email: String, password: String },
    Logout,
    GetSchool,
    GetTeachers,
    GetLectures,
    GetTimetables,
    Timetable(TimetableUpMsgs),
    Activity(ActivityUpMsgs),
}

/// An answer from the server to the client.
#[derive(Debug)]
pub enum DownMsg {
    LoggedUser(User),
    AuthError(String),
    LoggedOut,
    LoggedOutError(String),
    GetSchool { id: i32, name: String },
    GetSchoolError(String),
    GetTimetables(Vec<Timetable>),
    GetTeachers(Vec<Teacher>),
    GetLectures(Vec<Lecture>),
    GetClassesLimitationsError,
    GetClassesLimitations(Vec<ClassLimitation>),
    Timetable(TimetableDownMsgs),
    Activity(ActivityDownMsgs),
    Empty,
}

} // verus!
