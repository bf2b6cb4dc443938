//! The authenticated caller's claims, as carried in an access token. The
//! application's transport layer decodes and verifies tokens; the claims
//! themselves are plain data.

use vstd::prelude::*;

verus! {

/// The claims of an access token: the subject it was issued to, and its
/// expiry as seconds since the Unix epoch.
#[derive(Debug)]
pub struct Claims {
    pub sub: String,
    pub exp: u64,
}

} // verus!
