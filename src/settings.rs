use vstd::prelude::*;

verus! {

/// The variant of the game being played.
#[derive(Clone, Copy, Debug, PartialEq, Eq, Structural)]
pub enum GameType {
    Standard,
    Royale,
    Constrictor,
    Wrapped,
}

/// Settings of royale games.
#[derive(Clone, Copy, Debug, PartialEq, Eq, Structural)]
pub struct RulesetRoyaleSettings {
    /// Turns between two shrinks of the map.
    pub shrink_every_n_turns: u32,
}

/// Settings of squad games.
#[derive(Clone, Copy, Debug, PartialEq, Eq, Structural)]
pub struct RulesetSquadSettings {
    pub allow_body_collisions: bool,
    pub shared_elimination: bool,
    pub shared_health: bool,
    pub shared_length: bool,
}

/// Per-session numeric rules.
#[derive(Clone, Copy, Debug, PartialEq, Eq, Structural)]
pub struct RulesetSettings {
    /// Chance, in percent, that a food item spawns on a tick.
    pub food_spawn_chance: u32,
    /// Food count below which an item always spawns.
    pub minimum_food: u32,
    /// Health lost per tick on a hazard cell.
    pub hazard_damage_per_turn: u32,
    pub royale: RulesetRoyaleSettings,
    pub squad: RulesetSquadSettings,
}

/// The rules of a session.
#[derive(Clone, Copy, Debug, PartialEq, Eq, Structural)]
pub struct Ruleset {
    pub name: GameType,
    pub settings: RulesetSettings,
}

} // verus!
