use vstd::prelude::*;
use crate::msgs::activities::{Activity, FullActivity};
use crate::msgs::classes::{Class, ClassLimitation, ClassUpMsgs, ClassDownMsgs};
use crate::msgs::teachers::{TeacherLimitation, TeacherUpMsgs, TeacherDownMsgs};

pub use crate::generator::TimetableData;

verus! {

/// Requests about a timetable sent by the client.
#[derive(Debug)]
pub enum TimetableUpMsgs {
    GetClasses(i32),
    GetClassesLimitations(i32),
    GetTeachersLimitations(i32),
    GetActivities(i32),
    Class(ClassUpMsgs),
    Teacher(TeacherUpMsgs),
    GetSchedules(i32),
    DelSchedules(Vec<i32>),
    UpdateSchedules(Vec<Schedule>),
}

/// Answers about a timetable sent by the server.
#[derive(Debug)]
pub enum TimetableDownMsgs {
    GetClasses(Vec<Class>),
    GetActivities(Vec<FullActivity>),
    GetClassesLimitations(Vec<ClassLimitation>),
    GetClassesLimitationsError,
    Class(ClassDownMsgs),
    Teacher(TeacherDownMsgs),
    GetTeachersLimitations(Vec<TeacherLimitation>),
    GetTeachersLimitationsError,
    GetSchedules(Vec<Schedule>),
    UpdateSchedules(Vec<Schedule>),
    DelSchedules,
}

/// A group of classes that share one weekly timetable of `hour` hours a day.
#[derive(Debug, Clone)]
pub struct Timetable {
    pub id: i32,
    pub name: String,
    pub hour: i32,
}

/// One hour of one activity placed in the week.
#[derive(Debug, Clone, Copy)]
pub struct Schedule {
    pub day_id: i32,
    pub hour: i16,
    pub activity: i32,
    pub locked: bool,
}

/// The settings of the generator: the most hours a teacher may give to the
/// same classes on one day, and how wide and how deep conflicts are searched.
#[derive(Debug, Default, Clone, Copy)]
pub struct Params {
    pub hour: i32,
    pub depth: usize,
    pub depth2: usize,
}

/// `i` is the first position of `acts` that holds the activity `id`.
pub open spec fn is_first_with_id(acts: Seq<Activity>, id: i32, i: int) -> bool {
    &&& 0 <= i < acts.len()
    &&& acts[i].id == id
    &&& forall|j: int| 0 <= j < i ==> acts[j].id != id
}

impl Schedule {
    /// The first activity of `acts` whose id is the one this hour belongs to.
    pub fn get_activity(&self, acts: &Vec<Activity>) -> (r: Activity)
        requires
            exists|i: int| 0 <= i < acts@.len() && acts@[i].id == self.activity,
        ensures
            exists|i: int| is_first_with_id(acts@, self.activity, i) && r@ == acts@[i]@,
    {
        let mut i: usize = 0;
        while i < acts.len()
            invariant
                i <= acts.len(),
                forall|j: int| 0 <= j < i ==> acts@[j].id != self.activity,
                exists|k: int| 0 <= k < acts@.len() && acts@[k].id == self.activity,
            decreases acts.len() - i,
        {
            if acts[i].id == self.activity {
                let r = acts[i].duplicate();
                assert(is_first_with_id(acts@, self.activity, i as int));
                return r;
            }
            i = i + 1;
        }
        assert(false);
        acts[0].duplicate()
    }
}

} // verus!
