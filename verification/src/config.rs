//! Configuration data consumed by the core: per-character switches and
//! the saved-account shapes. The file format itself is owned elsewhere;
//! only the plain values live here.

use vstd::prelude::*;

verus! {

/// Switches saved per character.
#[derive(Debug, Clone)]
pub struct CharacterConfig {
    pub login: bool,
    pub auto_battle: bool,
    pub auto_lure: bool,
}

impl Default for CharacterConfig {
    fn default() -> (r: Self)
        ensures
            !r.login && !r.auto_battle && !r.auto_lure,
    {
        CharacterConfig { login: false, auto_battle: false, auto_lure: false }
    }
}

/// Name and server of one character under a shared account.
#[derive(Debug, Clone)]
pub struct SFCharIdent {
    pub name: String,
    pub server: String,
}

/// One character of a shared account, with its switches.
#[derive(Debug, Clone)]
pub struct SFAccCharacter {
    pub ident: SFCharIdent,
    pub config: CharacterConfig,
}

/// The color themes a user can pick.
#[derive(Debug, Clone, Copy, PartialEq, Eq, Structural)]
pub enum AvailableTheme {
    Light,
    Dark,
    Dracula,
    Nord,
    SolarizedLight,
    SolarizedDark,
    GruvboxLight,
    GruvboxDark,
    CatppuccinLatte,
    CatppuccinFrappe,
    CatppuccinMacchiato,
    CatppuccinMocha,
    TokyoNight,
    TokyoNightStorm,
    TokyoNightLight,
    KanagawaWave,
    KanagawaDragon,
    KanagawaLotus,
    Moonfly,
    Nightfly,
    Oxocarbon,
}

/// Worker threads allowed per server unless configured otherwise.
pub fn default_threads() -> (r: usize)
    ensures
        r == 10,
{
    10
}

/// Losses against one opponent before the ranking drops them.
pub fn default_blacklist_threshhold() -> (r: usize)
    ensures
        r == 3,
{
    3
}

/// Whether class icons are shown unless configured otherwise.
pub fn default_class_icons() -> (r: bool)
    ensures
        r,
{
    true
}

} // verus!
