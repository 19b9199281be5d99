//! Turn-based tile-grid simulation kernel: map geometry, per-entity
//! visibility, dynamic occupancy and blocking, a turn-sequencing state
//! machine, and NPC decision and movement logic.

pub mod components;
pub mod errors;
pub mod gamelog;
pub mod map;
pub mod map_indexing_system;
pub mod moonshot_ai;
pub mod pathfinding;
pub mod player;
pub mod scheduler;
pub mod spawners;
pub mod rect;
pub mod rng;
pub mod visibility_system;
