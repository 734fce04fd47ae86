//! Plain state tags of the login flows. The flows themselves (network,
//! single sign-on, credential storage) live outside the library.

use vstd::prelude::*;

verus! {

/// Where a single-sign-on attempt stands.
pub enum SSOStatus {
    Waiting { url: String },
    Initializing,
}

/// Which provider an active single-sign-on belongs to.
#[derive(Debug, Clone, PartialEq)]
pub enum SSOIdent {
    SF(String),
    Google(String),
    Steam(String),
}

/// Whether a single-sign-on finished.
#[derive(Debug)]
pub enum SSOLoginStatus {
    Loading,
    Success,
}

/// One active single-sign-on.
#[derive(Debug)]
pub struct SSOLogin {
    pub ident: SSOIdent,
    pub status: SSOLoginStatus,
}

/// Which login view is selected.
#[derive(Debug, Clone, PartialEq, Eq, Copy, Structural)]
pub enum LoginType {
    Regular,
    SFAccount,
    Steam,
    Google,
    Saved,
    SSOAccounts,
    SSOChars,
}

} // verus!
