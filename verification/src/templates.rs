//! The data each page is rendered from. Rendering itself is the transport
//! layer's concern; these are the values it fills in.

use vstd::prelude::*;

use crate::auth::Claims;

verus! {

/// The data of the redirect page.
pub struct Redirect<'a> {
    /// Title of the page.
    pub title: &'a str,
    /// Seconds after which to redirect; three by default.
    pub time: Option<u8>,
    /// The URL to redirect to.
    pub url: &'a str,
    /// Whether the message is a success message.
    pub success: bool,
    /// The icon to display.
    pub icon: Option<&'a str>,
    /// An optional message to display.
    pub message: &'a str,
}

impl<'a> Default for Redirect<'a> {
    /// The default redirect: straight to the root, as a success, with the
    /// default delay and icon.
    fn default() -> (r: Self)
        ensures
            r.title@ == "Redirecting"@,
            r.time is None,
            r.url@ == "/"@,
            r.success,
            r.icon is None,
            r.message@ == ""@,
    {
        Self { title: "Redirecting", time: None, url: "/", success: true, icon: None, message: "" }
    }
}

/// The data of the home page.
pub struct Home {
    /// The caller's claims, when logged in.
    pub claims: Option<Claims>,
    /// The URL of the jump button.
    pub jump_url: &'static str,
}

/// The data of the login page.
pub struct Login<'a> {
    /// The URL the login form posts to.
    pub url: &'static str,
    /// The redirect URL after login.
    pub redirect: Option<&'a str>,
}

} // verus!
