//! The login page's request data: plain values the transport layer fills in.

use vstd::prelude::*;

verus! {

/// The query string of the login page: where to go after a successful login.
pub struct LoginQuery {
    pub redirect: Option<String>,
}

/// The submitted login form.
pub struct LoginForm {
    pub username: String,
    pub password: String,
}

} // verus!
