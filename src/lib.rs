//! Decision core of a grid-survival agent: board primitives, a deterministic
//! tick simulator, and a Monte-Carlo tree search planner built on it.

mod board;
mod config;
mod heuristics;
mod moves;
mod moveset;
mod node;
mod planner;
mod point;
mod random;
mod settings;
mod simulation;
mod snake;

pub use board::{Battlesnake, Board, Game, GameState};
pub use moves::Move;
pub use moveset::{HeapItem, MoveSet};
pub use config::{Config, EngineConfig, MCTSConfig, SnakeConfig};
pub use node::{Node, NodeState};
pub use planner::{Engine, Mode, MonteCarlo};
pub use point::{Coord, Point};
pub use settings::{GameType, Ruleset, RulesetRoyaleSettings, RulesetSettings, RulesetSquadSettings};
pub use simulation::Simulation;
pub use snake::{Snake, SnakeID};
