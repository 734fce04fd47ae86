//! Messages of the headless observer: what a driving loop may ask of
//! the crawl, and what it reports back.

use vstd::prelude::*;

use crate::character::CharacterInfo;

verus! {

/// What the observer reports after each pass.
pub struct ObserverInfo {
    /// Ranked candidates with their missing counts.
    pub best_players: Vec<(usize, CharacterInfo)>,
    /// The greedy battle order, joined for the clipboard.
    pub target_list: String,
}

/// What a driving loop may ask of the crawl.
pub enum ObserverCommand {
    SetAccounts(usize),
    SetMaxLevel(u16),
    UpdateFight(u32),
    Start,
    Pause,
    Export,
    Restore,
    Clear,
}

} // verus!
