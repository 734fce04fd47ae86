//! Plain selection tags of the overview screen; the screens themselves
//! live outside the library.

use vstd::prelude::*;

use crate::AccountIdent;

verus! {

/// A bulk action applied to selected accounts.
#[derive(Debug, Clone, Copy, PartialEq, Eq, Structural)]
pub enum OverviewAction {
    Logout,
    AutoBattle(bool),
}

/// Whom a chosen action applies to.
#[derive(Debug, PartialEq, Eq, Clone, Copy, Structural)]
pub enum ActionSelection {
    Multi,
    Character(AccountIdent),
}

} // verus!
