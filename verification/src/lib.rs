//! Verified core of a proof-of-work mining agent for a grid game: the
//! proof-of-work check and nonce search, the round-robin mining queue, the
//! game-state bookkeeping driven by server messages, and the breadth-first
//! pathfinding towards the nearest challenge.

pub mod id;
pub mod protocol;
pub mod pow;
pub mod miner;
pub mod state;
pub mod grid;
pub mod bfs;
pub mod pathfinding;
