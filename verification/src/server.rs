use vstd::prelude::*;
use vstd::string::StringExecFns;
use crate::msgs::{UpMsg, DownMsg};
use crate::msgs::users::User;
use crate::msgs::teachers::Teacher;
use crate::msgs::timetables::TimetableUpMsgs;
use crate::msgs::activities::{ActivityUpMsgs, ActivityDownMsgs};
use crate::ids::{holds_id, shares_any, seq_shares};

verus! {

#[verifier::external_type_specification]
#[verifier::external_body]
pub struct ExBcryptError(bcrypt::BcryptError);

/// What `bcrypt::verify` answers for `password` against the stored `hash`:
/// `Some` of whether they match, or `None` when it refuses the hash.
pub uninterp spec fn bcrypt_verify(password: Seq<char>, hash: Seq<char>) -> Option<bool>;

/// A hash that `bcrypt::verify` can read at all: sixty ASCII characters.
pub open spec fn hash_shaped(hash: Seq<char>) -> bool {
    &&& hash.len() == 60
    &&& forall|i: int| 0 <= i < hash.len() ==> (hash[i] as u32) < 128
}

/// Checks `password` against the bcrypt `hash` with `bcrypt::verify`. What it
/// answers is named [`bcrypt_verify`]: whether the password matches, or that
/// the hash was refused. The crate refuses every hash that is not sixty ASCII
/// characters long before anything else; which other hashes it refuses (an
/// unknown prefix, a cost out of range, bad base64) and when a password
/// matches is left unsaid.
#[verifier::external_body]
fn verify_password(password: &str, hash: &str) -> (r: Result<bool, bcrypt::BcryptError>)
    ensures
        match r {
            Ok(b) => bcrypt_verify(password@, hash@) == Some(b),
            Err(_) => bcrypt_verify(password@, hash@) is None,
        },
        !hash_shaped(hash@) ==> r is Err,
{
    bcrypt::verify(password, hash)
}

/// A user found by email, with the bcrypt hash of its password.
#[derive(Debug)]
pub struct LoginUser {
    pub id: i32,
    pub first_name: String,
    password: String,
}

impl LoginUser {
    pub fn new(id: i32, first_name: String, password: String) -> (r: LoginUser)
        ensures
            r.user_id() == id,
            r.user_first_name() == first_name,
            r.password_hash() == password@,
    {
        LoginUser { id, first_name, password }
    }

    pub closed spec fn user_id(&self) -> i32 {
        self.id
    }

    pub closed spec fn user_first_name(&self) -> String {
        self.first_name
    }

    /// The stored bcrypt hash of the user's password.
    pub closed spec fn password_hash(&self) -> Seq<char> {
        self.password@
    }
}

/// Why a login could not be decided.
#[derive(Debug)]
pub enum LoginError {
    /// The stored hash of the user's password cannot be read.
    UnreadableHash,
}

/// The outcome of a login from the user found by email, if any, and what
/// checking the password against that user's stored hash answered: the user
/// when the password matches, no one when there is no such user or the
/// password does not match, and an error when the hash was refused.
pub fn login_outcome(user: Option<LoginUser>, verified: Option<bool>) -> (r: Result<Option<LoginUser>, LoginError>)
    ensures
        user is None ==> r is Ok && r->Ok_0 is None,
        user is Some ==> match verified {
            Some(true) => r is Ok && r->Ok_0 == user,
            Some(false) => r is Ok && r->Ok_0 is None,
            None => r is Err,
        },
{
    match user {
        None => Ok(None),
        Some(u) => match verified {
            Some(true) => Ok(Some(u)),
            Some(false) => Ok(None),
            None => Err(LoginError::UnreadableHash),
        },
    }
}

/// Logs in with `password` the user found by email, if any: the user when the
/// password matches its stored hash, no one when there is no such user or the
/// password does not match, and an error when the stored hash is refused.
pub fn login(user: Option<LoginUser>, password: &str) -> (r: Result<Option<LoginUser>, LoginError>)
    ensures
        user is None ==> r is Ok && r->Ok_0 is None,
        user is Some ==> match bcrypt_verify(password@, user->Some_0.password_hash()) {
            Some(true) => r is Ok && r->Ok_0 == user,
            Some(false) => r is Ok && r->Ok_0 is None,
            None => r is Err,
        },
{
    let verified = match &user {
        None => None,
        Some(u) => match verify_password(password, u.password.as_str()) {
            Ok(b) => Some(b),
            Err(_) => None,
        },
    };
    login_outcome(user, verified)
}

/// The answer to a login: the user with its session token when it logged
/// in, and a refusal otherwise.
pub fn login_reply(user: Option<LoginUser>, auth_token: String) -> (r: DownMsg)
    ensures
        match user {
            Some(u) => r == DownMsg::LoggedUser(User { id: u.user_id(), first_name: u.user_first_name(), auth_token }),
            None => r matches DownMsg::AuthError(e) && e@ == "Sorry, invalid name or password."@,
        },
{
    match user {
        Some(u) => DownMsg::LoggedUser(User { id: u.id, first_name: u.first_name, auth_token }),
        None => DownMsg::AuthError(String::from_str("Sorry, invalid name or password.")),
    }
}

/// What is done for a school once it is known.
#[derive(Debug)]
pub enum SchoolTask {
    Teachers,
    Lectures,
    Timetables,
    Timetable(TimetableUpMsgs),
    Activity(ActivityUpMsgs),
}

/// What the server does with a request.
#[derive(Debug)]
pub enum Route {
    /// Answer at once.
    Reply(DownMsg),
    /// Look the user up by email and check the password.
    Login { email: String, password: String },
    /// Look up the user of the session token and end the session.
    Logout(String),
    /// Look up the manager of the session token and answer with his school.
    OwnSchool(String),
    /// Look up the manager of the session token and his school, then do the
    /// task for that school.
    ForSchool(String, SchoolTask),
}

/// The refusal of a request without a session token.
pub open spec fn is_auth_error(r: Route, text: Seq<char>) -> bool {
    r matches Route::Reply(DownMsg::AuthError(e)) && e@ == text
}

/// Routes a request: logins go to the password check, and every other
/// request needs the session token; without one it is refused.
pub fn up_msg_handler(up_msg: UpMsg, auth_token: Option<String>) -> (r: Route)
    requires
        up_msg is Logout ==> auth_token is Some,
    ensures
        match up_msg {
            UpMsg::Login { email, password } => r == (Route::Login { email, password }),
            UpMsg::Logout => r == Route::Logout(auth_token->Some_0),
            UpMsg::GetSchool => match auth_token {
                Some(t) => r == Route::OwnSchool(t),
                None => is_auth_error(r, "Not auth"@),
            },
            UpMsg::GetTeachers => match auth_token {
                Some(t) => r == Route::ForSchool(t, SchoolTask::Teachers),
                None => is_auth_error(r, "Not auth"@),
            },
            UpMsg::GetLectures => match auth_token {
                Some(t) => r == Route::ForSchool(t, SchoolTask::Lectures),
                None => is_auth_error(r, "Not Auth"@),
            },
            UpMsg::GetTimetables => match auth_token {
                Some(t) => r == Route::ForSchool(t, SchoolTask::Timetables),
                None => is_auth_error(r, "Not Auth"@),
            },
            UpMsg::Timetable(m) => match auth_token {
                Some(t) => r == Route::ForSchool(t, SchoolTask::Timetable(m)),
                None => is_auth_error(r, "Not Auth"@),
            },
            UpMsg::Activity(m) => match auth_token {
                Some(t) => r == Route::ForSchool(t, SchoolTask::Activity(m)),
                None => is_auth_error(r, "Not Auth"@),
            },
        },
{
    match up_msg {
        UpMsg::Login { email, password } => Route::Login { email, password },
        UpMsg::Logout => match auth_token {
            Some(t) => Route::Logout(t),
            None => Route::Reply(DownMsg::AuthError(String::from_str("Not auth"))),
        },
        UpMsg::GetSchool => match auth_token {
            Some(t) => Route::OwnSchool(t),
            None => Route::Reply(DownMsg::AuthError(String::from_str("Not auth"))),
        },
        UpMsg::GetTeachers => match auth_token {
            Some(t) => Route::ForSchool(t, SchoolTask::Teachers),
            None => Route::Reply(DownMsg::AuthError(String::from_str("Not auth"))),
        },
        UpMsg::GetLectures => match auth_token {
            Some(t) => Route::ForSchool(t, SchoolTask::Lectures),
            None => Route::Reply(DownMsg::AuthError(String::from_str("Not Auth"))),
        },
        UpMsg::GetTimetables => match auth_token {
            Some(t) => Route::ForSchool(t, SchoolTask::Timetables),
            None => Route::Reply(DownMsg::AuthError(String::from_str("Not Auth"))),
        },
        UpMsg::Timetable(m) => match auth_token {
            Some(t) => Route::ForSchool(t, SchoolTask::Timetable(m)),
            None => Route::Reply(DownMsg::AuthError(String::from_str("Not Auth"))),
        },
        UpMsg::Activity(m) => match auth_token {
            Some(t) => Route::ForSchool(t, SchoolTask::Activity(m)),
            None => Route::Reply(DownMsg::AuthError(String::from_str("Not Auth"))),
        },
    }
}

/// Goes on with `task` for the school that the lookup found, or answers with
/// what the lookup answered when it found none.
pub fn school_task(task: SchoolTask, school_msg: DownMsg) -> (r: Result<(SchoolTask, i32), DownMsg>)
    ensures
        match school_msg {
            DownMsg::GetSchool { id, name } => r == Ok::<(SchoolTask, i32), DownMsg>((task, id)),
            _ => r == Err::<(SchoolTask, i32), DownMsg>(school_msg),
        },
{
    match school_msg {
        DownMsg::GetSchool { id, name } => Ok((task, id)),
        other => Err(other),
    }
}

/// The answer to a request about an activity that is refused for `reason`.
pub open spec fn is_act_error(m: DownMsg, reason: Seq<char>) -> bool {
    m matches DownMsg::Activity(ActivityDownMsgs::AddActError(e)) && e@ == reason
}

/// Refuses a request about an activity none of whose classes is among the
/// classes `ids` of the timetable.
pub fn check_act_classes(ids: &Vec<i32>, classes: &Vec<i32>) -> (r: Option<DownMsg>)
    ensures
        r is None <==> seq_shares(classes@, ids@),
        r matches Some(m) ==> is_act_error(m, "No classes"@),
{
    if shares_any(classes, ids) {
        None
    } else {
        Some(DownMsg::Activity(ActivityDownMsgs::AddActError(String::from_str("No classes"))))
    }
}

/// `id` is the id of one of the teachers of the school.
pub open spec fn known_teacher(school_teachers: Seq<Teacher>, id: i32) -> bool {
    exists|j: int| 0 <= j < school_teachers.len() && #[trigger] school_teachers[j].id == id
}

/// Every one of `teachers` is a teacher of the school.
pub open spec fn teachers_valid(teachers: Seq<i32>, school_teachers: Seq<Teacher>) -> bool {
    forall|i: int| 0 <= i < teachers.len() ==> known_teacher(school_teachers, #[trigger] teachers[i])
}

/// Whether every one of `teachers` is among the teachers of the school.
pub fn is_teachers_valid(teachers: &Vec<i32>, school_teachers: &Vec<Teacher>) -> (r: bool)
    ensures
        r == teachers_valid(teachers@, school_teachers@),
{
    let mut i: usize = 0;
    while i < teachers.len()
        invariant
            i <= teachers@.len(),
            forall|x: int| 0 <= x < i ==> known_teacher(school_teachers@, #[trigger] teachers@[x]),
        decreases teachers.len() - i,
    {
        let mut found = false;
        let mut j: usize = 0;
        while j < school_teachers.len()
            invariant
                i < teachers@.len(),
                j <= school_teachers@.len(),
                found == exists|y: int| 0 <= y < j && #[trigger] school_teachers@[y].id == teachers@[i as int],
            decreases school_teachers.len() - j,
        {
            if school_teachers[j].id == teachers[i] {
                found = true;
            }
            j = j + 1;
        }
        if !found {
            proof {
                assert(!known_teacher(school_teachers@, teachers@[i as int]));
            }
            return false;
        }
        i = i + 1;
    }
    true
}

/// Refuses a new activity whose teachers are not all teachers of the school.
pub fn check_act_teachers(teachers: &Vec<i32>, school_teachers: &Vec<Teacher>) -> (r: Option<DownMsg>)
    ensures
        r is None <==> teachers_valid(teachers@, school_teachers@),
        r matches Some(m) ==> is_act_error(m, "Not valid teachers"@),
{
    if is_teachers_valid(teachers, school_teachers) {
        None
    } else {
        Some(DownMsg::Activity(ActivityDownMsgs::AddActError(String::from_str("Not valid teachers"))))
    }
}

/// The ids of the teachers of a school.
pub open spec fn school_ids(school_teachers: Seq<Teacher>) -> Set<i32> {
    Set::new(|x: i32| exists|j: int| 0 <= j < school_teachers.len() && school_teachers[j].id == x)
}

/// An activity's teachers pass the check exactly when every one of them, in
/// every position, is the id of a teacher of the school: the set of its
/// teacher ids lies within the school's.
pub proof fn lemma_teachers_valid_all_known(teachers: Seq<i32>, school_teachers: Seq<Teacher>)
    ensures
        teachers_valid(teachers, school_teachers) <==> teachers.to_set().subset_of(school_ids(school_teachers)),
{
    if teachers_valid(teachers, school_teachers) {
        assert forall|x: i32| #[trigger] teachers.to_set().contains(x) implies school_ids(school_teachers).contains(x) by {
            let i = choose|i: int| 0 <= i < teachers.len() && teachers[i] == x;
            assert(known_teacher(school_teachers, teachers[i]));
            let j = choose|j: int| 0 <= j < school_teachers.len() && #[trigger] school_teachers[j].id == teachers[i];
            assert(school_teachers[j].id == x);
        }
    }
    if teachers.to_set().subset_of(school_ids(school_teachers)) {
        assert forall|i: int| 0 <= i < teachers.len() implies known_teacher(school_teachers, #[trigger] teachers[i]) by {
            assert(teachers.to_set().contains(teachers[i]));
            assert(school_ids(school_teachers).contains(teachers[i]));
            let j = choose|j: int| 0 <= j < school_teachers.len() && school_teachers[j].id == teachers[i];
            assert(school_teachers[j].id == teachers[i]);
        }
    }
}

} // verus!
