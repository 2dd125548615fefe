use vstd::prelude::*;
use vstd::string::StringExecFns;

verus! {

/// Requests about classes sent by the client.
#[derive(Debug)]
pub enum ClassUpMsgs {
    UpdateLimitations((i32, Vec<ClassLimitation>)),
}

/// Answers about classes sent by the server.
#[derive(Debug)]
pub enum ClassDownMsgs {
    UpdateClassLimitations(Vec<ClassLimitation>),
    UpdateClassLimitationsError(String),
}

/// A class of a school: its grade (`kademe`) and its section (`sube`).
#[derive(Debug, Clone, Default)]
pub struct Class {
    pub id: i32,
    pub kademe: String,
    pub sube: String,
    pub group_id: i32,
}

impl Class {
    /// A copy of the class.
    pub fn duplicate(&self) -> (r: Class)
        ensures
            r == *self,
    {
        Class { id: self.id, kademe: self.kademe.clone(), sube: self.sube.clone(), group_id: self.group_id }
    }

    /// The name of the class: its grade followed by its section.
    pub fn label(&self) -> (r: String)
        ensures
            r@ == self.kademe@ + self.sube@,
    {
        let label = self.kademe.clone().concat(self.sube.as_str());
        label
    }
}

/// The hours of one day at which a class can have lessons.
#[derive(Debug, Clone, Default)]
pub struct ClassLimitation {
    pub class_id: i32,
    pub day: i32,
    pub hours: Vec<bool>,
}

} // verus!
