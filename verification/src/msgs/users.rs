use vstd::prelude::*;

verus! {

/// A logged-in user with the token that authenticates the session.
#[derive(Debug, Clone)]
pub struct User {
    pub id: i32,
    pub first_name: String,
    pub auth_token: String,
}

} // verus!
