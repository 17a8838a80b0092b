//! A leaderboard core for a racing-game map/record model.
//!
//! Players submit completion times for maps; the store keeps one record per
//! (map, player) pair — the player's personal best — assigns tie-aware ranks
//! within each map, and serves windowed and paginated read views.
#![verifier::loop_isolation(false)]

pub mod laws;
pub mod listing;
pub mod model;
pub mod ordering;
pub mod overview;
pub mod rank;
pub mod registry;
pub mod store;
pub mod submit;
