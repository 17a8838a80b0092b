//! Data model: players, maps, records, and the error taxonomy.
use vstd::prelude::*;

verus! {

/// A player, identified by an externally assigned login.
pub struct Player {
    pub login: String,
    pub nickname: String,
}

/// A map, identified by an opaque map id; `player_id` is the author's login.
pub struct GameMap {
    pub map_id: String,
    pub name: String,
    pub player_id: String,
}

/// One row per (map, player) pair: the player's personal best on that map.
/// Timestamps are milliseconds on a caller-supplied clock.
pub struct Record {
    pub rank: usize,
    pub time: i32,
    pub respawn_count: i32,
    pub try_count: i32,
    pub created_at: u64,
    pub updated_at: u64,
    pub player_id: String,
    pub map_id: String,
}

/// A record joined with the owning player's nickname, for listing output.
pub struct RankedRecord {
    pub rank: usize,
    pub player_id: String,
    pub nickname: String,
    pub time: i32,
}

/// The error kinds the core can surface.
#[derive(Debug)]
pub enum RecordsError {
    /// A banned player attempted a submission; no mutation was performed.
    Forbidden,
    /// A map or player required to pre-exist was absent.
    NotFound,
    /// Malformed input (a negative time or counter) reached the core.
    ValidationError,
    /// The storage collaborator failed; reserved for gateway-backed deployments.
    StorageError,
}

impl Clone for Player {
    fn clone(&self) -> (res: Self)
        ensures
            res == *self,
    {
        Player { login: self.login.clone(), nickname: self.nickname.clone() }
    }
}

impl Clone for GameMap {
    fn clone(&self) -> (res: Self)
        ensures
            res == *self,
    {
        GameMap {
            map_id: self.map_id.clone(),
            name: self.name.clone(),
            player_id: self.player_id.clone(),
        }
    }
}

impl Clone for Record {
    fn clone(&self) -> (res: Self)
        ensures
            res == *self,
    {
        Record {
            rank: self.rank,
            time: self.time,
            respawn_count: self.respawn_count,
            try_count: self.try_count,
            created_at: self.created_at,
            updated_at: self.updated_at,
            player_id: self.player_id.clone(),
            map_id: self.map_id.clone(),
        }
    }
}

impl Clone for RankedRecord {
    fn clone(&self) -> (res: Self)
        ensures
            res == *self,
    {
        RankedRecord {
            rank: self.rank,
            player_id: self.player_id.clone(),
            nickname: self.nickname.clone(),
            time: self.time,
        }
    }
}

/// Field bounds every stored record satisfies.
pub open spec fn valid_record(r: Record) -> bool {
    &&& r.time >= 0
    &&& r.respawn_count >= 0
    &&& r.try_count >= 1
    &&& r.created_at <= r.updated_at
}

/// The two records agree on every field except possibly `rank`.
pub open spec fn same_core(a: Record, b: Record) -> bool {
    &&& a.map_id@ == b.map_id@
    &&& a.player_id@ == b.player_id@
    &&& a.time == b.time
    &&& a.respawn_count == b.respawn_count
    &&& a.try_count == b.try_count
    &&& a.created_at == b.created_at
    &&& a.updated_at == b.updated_at
}

} // verus!
