//! Verified Minesweeper rule engine: board generation with precomputed
//! adjacency counts, flood-fill revelation, flag tracking with win
//! detection, and a passive UI cursor.

pub mod grid;
pub mod game;
pub mod flood;
pub mod laws;
