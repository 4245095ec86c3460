//! The credential store of the service's basic authentication.
#![allow(unused_imports)]
use vstd::prelude::*;

verus! {

/// The one `(username, password)` pair requests are checked against.
#[derive(Debug, Clone)]
pub struct AuthInfo {
    /// The expected user name.
    pub username: String,
    /// The expected password.
    pub password: String,
}

impl AuthInfo {
    /// Check offered credentials by exact string equality against the
    /// stored pair.
    pub fn check(&self, username: &str, password: &str) -> (r: bool)
        ensures
            r == (self.username@ == username@ && self.password@ == password@),
    {
        crate::text::str_eq(self.username.as_str(), username) && crate::text::str_eq(
            self.password.as_str(),
            password,
        )
    }
}

} // verus!
