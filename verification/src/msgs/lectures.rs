use vstd::prelude::*;

verus! {

/// Requests about lectures sent by the client.
#[derive(Debug)]
pub enum LecturesUpMsg {
    GetLectures,
}

/// Answers about lectures sent by the server.
#[derive(Debug)]
pub enum LecturesDownMsg {
    GetLectures(Vec<Lecture>),
    GetLectureError(String),
}

/// The form with which a new lecture is requested.
#[derive(Debug, Clone)]
pub struct AddLecture {
    pub name: String,
    pub short_name: String,
}

/// A subject taught at a school.
#[derive(Debug, Clone)]
pub struct Lecture {
    pub id: i32,
    pub name: String,
    pub short_name: String,
}

impl Lecture {
    /// A copy of the lecture.
    pub fn duplicate(&self) -> (r: Lecture)
        ensures
            r == *self,
    {
        Lecture { id: self.id, name: self.name.clone(), short_name: self.short_name.clone() }
    }
}

} // verus!
