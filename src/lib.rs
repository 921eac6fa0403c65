//! Simulation core of a tile-based strategy game: a grid pathfinder, an
//! ordered request queue, world-state snapshots and a tick engine that
//! rewinds and replays when a late request arrives.

pub mod tiledmap;
pub mod pathfinding;
pub mod requests;
pub mod sprites;
pub mod gamestate;
pub mod gamemanager;
