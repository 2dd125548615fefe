use vstd::prelude::*;
use vstd::string::StringExecFns;

verus! {

/// Requests about teachers sent by the client.
#[derive(Debug)]
pub enum TeacherUpMsgs {
    UpdateLimitations((i32, Vec<TeacherLimitation>)),
}

/// Answers about teachers sent by the server.
#[derive(Debug)]
pub enum TeacherDownMsgs {
    UpdateLimitations(Vec<TeacherLimitation>),
    UpdateLimitationsError(String),
}

/// A teacher of a school.
#[derive(Debug, Clone)]
pub struct Teacher {
    pub id: i32,
    pub first_name: String,
    pub last_name: String,
    pub short_name: String,
}

/// The hours of one day at which a teacher can give lessons.
#[derive(Debug, Clone)]
pub struct TeacherLimitation {
    pub user_id: i32,
    pub school_id: i32,
    pub group_id: i32,
    pub day: i32,
    pub hours: Vec<bool>,
}

impl Teacher {
    /// A copy of the teacher.
    pub fn duplicate(&self) -> (r: Teacher)
        ensures
            r == *self,
    {
        Teacher {
            id: self.id,
            first_name: self.first_name.clone(),
            last_name: self.last_name.clone(),
            short_name: self.short_name.clone(),
        }
    }

    /// The name shown for the teacher: the short name, or the full name when the
    /// short name is empty.
    pub fn label(&self) -> (r: String)
        ensures
            r@ == self.spec_label(),
    {
        if self.short_name.as_str().is_empty() {
            self.label_full()
        } else {
            self.short_name.clone()
        }
    }

    pub open spec fn spec_label(&self) -> Seq<char> {
        if self.short_name@.len() == 0 {
            self.spec_label_full()
        } else {
            self.short_name@
        }
    }

    /// The first name followed by the last name.
    pub fn label_full(&self) -> (r: String)
        ensures
            r@ == self.spec_label_full(),
    {
        self.first_name.clone().concat(self.last_name.as_str())
    }

    pub open spec fn spec_label_full(&self) -> Seq<char> {
        self.first_name@ + self.last_name@
    }
}

} // verus!
