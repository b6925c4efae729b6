use vstd::prelude::*;

verus! {

/// Tunables of the tree search.
#[derive(Clone, Copy, Debug, PartialEq, Eq, Structural)]
pub struct MCTSConfig {
    /// Rollouts run for each expansion.
    pub games_per_search: u32,
    /// The most ticks one rollout may play. Rollouts are capped so that each one ends; a
    /// rollout that reaches the cap before the game is over counts as no win.
    pub max_depth: u32,
}

impl MCTSConfig {
    fn default_games_per_search() -> (r: u32)
        ensures
            r == 5,
    {
        5
    }

    fn default_max_depth() -> (r: u32)
        ensures
            r == 100,
    {
        100
    }
}

impl Default for MCTSConfig {
    fn default() -> (r: MCTSConfig)
        ensures
            r.games_per_search == 5,
            r.max_depth == 100,
    {
        MCTSConfig {
            games_per_search: MCTSConfig::default_games_per_search(),
            max_depth: MCTSConfig::default_max_depth(),
        }
    }
}

/// Tunables of the decision engine.
#[derive(Clone, Copy, Debug, PartialEq, Eq, Structural)]
pub struct EngineConfig {
    /// Turns at the start of a game during which the agent seeks food.
    pub hungry_moves: u32,
    /// Rounds of tree search per turn.
    pub search_iterations: u32,
    pub mcts: MCTSConfig,
}

impl EngineConfig {
    fn default_hungry_moves() -> (r: u32)
        ensures
            r == 50,
    {
        50
    }

    fn default_search_iterations() -> (r: u32)
        ensures
            r == 200,
    {
        200
    }
}

impl Default for EngineConfig {
    fn default() -> (r: EngineConfig)
        ensures
            r.hungry_moves == 50,
            r.search_iterations == 200,
            r.mcts.games_per_search == 5,
            r.mcts.max_depth == 100,
    {
        EngineConfig {
            hungry_moves: EngineConfig::default_hungry_moves(),
            search_iterations: EngineConfig::default_search_iterations(),
            mcts: MCTSConfig::default(),
        }
    }
}

/// Appearance of the agent.
#[derive(Clone, Debug)]
pub struct SnakeConfig {
    pub color: String,
    /// Colour used by development builds, if set.
    pub debug_color: Option<String>,
    pub head: String,
    pub tail: String,
}

/// Process-wide configuration.
#[derive(Clone, Debug)]
pub struct Config {
    pub battlesnake_username: String,
    pub snake: SnakeConfig,
    pub engine: EngineConfig,
}

} // verus!
