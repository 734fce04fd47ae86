//! Core logic of a leaderboard crawler and scrapbook optimizer.
//!
//! The library owns the work queue that partitions outstanding fetches,
//! the player database with its inverted equipment index, the greedy
//! target optimizer, the failure supervisor that drives re-authentication,
//! and the value-level backup codec. All I/O, sessions and presentation
//! live outside; the library works on plain values.

use vstd::prelude::*;

pub mod backup;
pub mod character;
pub mod cli;
pub mod config;
pub mod crawler;
pub mod db;
pub mod idset;
pub mod login;
pub mod observer;
pub mod optimizer;
pub mod server;
pub mod supervisor;
pub mod ui;
pub mod vecmap;

verus! {

/// Number of ranked player entries on one leaderboard page.
pub const PER_PAGE: usize = 51;

/// Identity of one remote server, derived from its url.
#[derive(Debug, Clone, Copy, PartialEq, Eq, Structural, Hash)]
pub struct ServerID(pub u64);

/// Epoch token of the work queue: bumped whenever the queue is wholesale
/// reset, so that late results issued under an older epoch can be told
/// apart and discarded.
#[derive(Debug, Clone, Copy, PartialEq, Eq, Structural, Hash)]
pub struct QueID(pub u64);

/// Identity of one local account.
#[derive(Debug, Clone, Copy, PartialEq, Eq, Structural, Hash)]
pub struct AccountID(pub u64);

/// Identity of one local account on one server.
#[derive(Debug, Clone, Copy, PartialEq, Eq, Structural, Hash)]
pub struct AccountIdent {
    pub server_id: ServerID,
    pub account: AccountID,
}

} // verus!
