use vstd::prelude::*;

verus! {

/// Requests about activities sent by the client.
#[derive(Debug)]
pub enum ActivityUpMsgs {
    AddAct((i32, AddActivity)),
    DelAct((i32, FullActivity)),
}

/// Answers about activities sent by the server.
#[derive(Debug)]
pub enum ActivityDownMsgs {
    AddedAct(FullActivity),
    AddActError(String),
    DeletedAct(i32),
    DeleteActError(String),
}

/// A lesson block to place: a subject taught to some classes by some teachers
/// for `hour` consecutive hours.
#[derive(Debug, Clone, PartialEq)]
pub struct Activity {
    pub id: i32,
    pub subject: i32,
    pub classes: Vec<i32>,
    pub teachers: Vec<i32>,
    pub hour: i16,
}

/// The mathematical value of an [`Activity`].
pub struct ActivityView {
    pub id: i32,
    pub subject: i32,
    pub classes: Seq<i32>,
    pub teachers: Seq<i32>,
    pub hour: i16,
}

impl View for Activity {
    type V = ActivityView;

    open spec fn view(&self) -> ActivityView {
        ActivityView {
            id: self.id,
            subject: self.subject,
            classes: self.classes@,
            teachers: self.teachers@,
            hour: self.hour,
        }
    }
}

impl Activity {
    /// A copy of the activity with the same value.
    pub fn duplicate(&self) -> (r: Activity)
        ensures
            r@ == self@,
    {
        Activity {
            id: self.id,
            subject: self.subject,
            classes: self.classes.clone(),
            teachers: self.teachers.clone(),
            hour: self.hour,
        }
    }
}

/// An activity as stored on the server.
#[derive(Debug, Clone)]
pub struct FullActivity {
    pub id: i32,
    pub subject: i32,
    pub hour: i16,
    pub classes: Vec<i32>,
    pub teachers: Vec<i32>,
    pub blocks: Option<String>,
    pub partner_activity: Option<i32>,
}

/// The mathematical value of a [`FullActivity`].
pub struct FullActivityView {
    pub id: i32,
    pub subject: i32,
    pub hour: i16,
    pub classes: Seq<i32>,
    pub teachers: Seq<i32>,
    pub blocks: Option<String>,
    pub partner_activity: Option<i32>,
}

impl View for FullActivity {
    type V = FullActivityView;

    open spec fn view(&self) -> FullActivityView {
        FullActivityView {
            id: self.id,
            subject: self.subject,
            hour: self.hour,
            classes: self.classes@,
            teachers: self.teachers@,
            blocks: self.blocks,
            partner_activity: self.partner_activity,
        }
    }
}

impl FullActivity {
    /// A copy of the activity with the same value.
    pub fn duplicate(&self) -> (r: FullActivity)
        ensures
            r@ == self@,
    {
        let blocks = match &self.blocks {
            Some(b) => Some(b.clone()),
            None => None,
        };
        FullActivity {
            id: self.id,
            subject: self.subject,
            hour: self.hour,
            classes: self.classes.clone(),
            teachers: self.teachers.clone(),
            blocks,
            partner_activity: self.partner_activity,
        }
    }

    /// The activity the generator works with: the same id, subject, classes,
    /// teachers and hour.
    pub fn to_activity(&self) -> (r: Activity)
        ensures
            r@ == self.activity_view(),
    {
        Activity {
            id: self.id,
            subject: self.subject,
            classes: self.classes.clone(),
            teachers: self.teachers.clone(),
            hour: self.hour,
        }
    }

    pub open spec fn activity_view(&self) -> ActivityView {
        ActivityView {
            id: self.id,
            subject: self.subject,
            classes: self.classes@,
            teachers: self.teachers@,
            hour: self.hour,
        }
    }
}

/// The form with which a new activity is requested.
#[derive(Debug, Clone)]
pub struct AddActivity {
    pub subject: i32,
    pub hour: i16,
    pub classes: Vec<i32>,
    pub teachers: Vec<i32>,
}

} // verus!
