//! Server-side simulation core of a turn-based tactical battle: a bounded
//! grid of tiles occupied by units, a wait-turn scheduler that grants turns,
//! per-unit action queues whose moves are expanded into single-step actions
//! along shortest paths, and melee/ranged combat with counter-attacks.

pub mod actions;
pub mod boundary;
pub mod combat;
pub mod grid;
pub mod pathfind;
pub mod state;
pub mod units;
