//! The in-memory relational store: three tables and their integrity rules.
use vstd::prelude::*;

use crate::model::{GameMap, Player, Record, valid_record};
use crate::rank::ranks_consistent;

verus! {

/// The leaderboard store: players, maps, records, and the banned-player set.
///
/// The banned set is external configuration, fixed at construction; the
/// submission service consults it before any mutation.
pub struct Leaderboard {
    pub players: Vec<Player>,
    pub maps: Vec<GameMap>,
    pub records: Vec<Record>,
    pub banned: Vec<String>,
}

/// Index of the first player with the given login, or -1 if there is none.
pub open spec fn player_index(players: Seq<Player>, login: Seq<char>) -> int
    decreases players.len(),
{
    if players.len() == 0 {
        -1
    } else if players[0].login@ == login {
        0
    } else {
        let r = player_index(players.drop_first(), login);
        if r < 0 {
            -1
        } else {
            r + 1
        }
    }
}

/// Index of the first map with the given id, or -1 if there is none.
pub open spec fn map_index(maps: Seq<GameMap>, map_id: Seq<char>) -> int
    decreases maps.len(),
{
    if maps.len() == 0 {
        -1
    } else if maps[0].map_id@ == map_id {
        0
    } else {
        let r = map_index(maps.drop_first(), map_id);
        if r < 0 {
            -1
        } else {
            r + 1
        }
    }
}

/// Index of the first record with the given (map, player) key, or -1.
pub open spec fn record_index(recs: Seq<Record>, map_id: Seq<char>, player_id: Seq<char>) -> int
    decreases recs.len(),
{
    if recs.len() == 0 {
        -1
    } else if recs[0].map_id@ == map_id && recs[0].player_id@ == player_id {
        0
    } else {
        let r = record_index(recs.drop_first(), map_id, player_id);
        if r < 0 {
            -1
        } else {
            r + 1
        }
    }
}

pub proof fn lemma_player_index(players: Seq<Player>, login: Seq<char>)
    ensures
        player_index(players, login) >= 0 ==> {
            let i = player_index(players, login);
            &&& i < players.len()
            &&& players[i].login@ == login
            &&& forall|q: int| 0 <= q < i ==> players[q].login@ != login
        },
        player_index(players, login) == -1 ==> forall|q: int|
            0 <= q < players.len() ==> players[q].login@ != login,
        player_index(players, login) >= 0 || player_index(players, login) == -1,
    decreases players.len(),
{
    if players.len() > 0 && players[0].login@ != login {
        lemma_player_index(players.drop_first(), login);
        let r = player_index(players.drop_first(), login);
        if r >= 0 {
            assert(players.drop_first()[r] == players[r + 1]);
            assert forall|q: int| 0 <= q < r + 1 implies players[q].login@ != login by {
                if q > 0 {
                    assert(players.drop_first()[q - 1] == players[q]);
                }
            }
        } else {
            assert forall|q: int| 0 <= q < players.len() implies players[q].login@ != login by {
                if q > 0 {
                    assert(players.drop_first()[q - 1] == players[q]);
                }
            }
        }
    }
}

pub proof fn lemma_map_index(maps: Seq<GameMap>, map_id: Seq<char>)
    ensures
        map_index(maps, map_id) >= 0 ==> {
            let i = map_index(maps, map_id);
            &&& i < maps.len()
            &&& maps[i].map_id@ == map_id
            &&& forall|q: int| 0 <= q < i ==> maps[q].map_id@ != map_id
        },
        map_index(maps, map_id) == -1 ==> forall|q: int|
            0 <= q < maps.len() ==> maps[q].map_id@ != map_id,
        map_index(maps, map_id) >= 0 || map_index(maps, map_id) == -1,
    decreases maps.len(),
{
    if maps.len() > 0 && maps[0].map_id@ != map_id {
        lemma_map_index(maps.drop_first(), map_id);
        let r = map_index(maps.drop_first(), map_id);
        if r >= 0 {
            assert(maps.drop_first()[r] == maps[r + 1]);
            assert forall|q: int| 0 <= q < r + 1 implies maps[q].map_id@ != map_id by {
                if q > 0 {
                    assert(maps.drop_first()[q - 1] == maps[q]);
                }
            }
        } else {
            assert forall|q: int| 0 <= q < maps.len() implies maps[q].map_id@ != map_id by {
                if q > 0 {
                    assert(maps.drop_first()[q - 1] == maps[q]);
                }
            }
        }
    }
}

pub proof fn lemma_record_index(recs: Seq<Record>, map_id: Seq<char>, player_id: Seq<char>)
    ensures
        record_index(recs, map_id, player_id) >= 0 ==> {
            let i = record_index(recs, map_id, player_id);
            &&& i < recs.len()
            &&& recs[i].map_id@ == map_id
            &&& recs[i].player_id@ == player_id
            &&& forall|q: int|
                0 <= q < i ==> !(recs[q].map_id@ == map_id && recs[q].player_id@ == player_id)
        },
        record_index(recs, map_id, player_id) == -1 ==> forall|q: int|
            0 <= q < recs.len() ==> !(recs[q].map_id@ == map_id && recs[q].player_id@
                == player_id),
        record_index(recs, map_id, player_id) >= 0 || record_index(recs, map_id, player_id) == -1,
    decreases recs.len(),
{
    if recs.len() > 0 && !(recs[0].map_id@ == map_id && recs[0].player_id@ == player_id) {
        lemma_record_index(recs.drop_first(), map_id, player_id);
        let r = record_index(recs.drop_first(), map_id, player_id);
        if r >= 0 {
            assert(recs.drop_first()[r] == recs[r + 1]);
            assert forall|q: int|
                0 <= q < r + 1 implies !(recs[q].map_id@ == map_id && recs[q].player_id@
                == player_id) by {
                if q > 0 {
                    assert(recs.drop_first()[q - 1] == recs[q]);
                }
            }
        } else {
            assert forall|q: int|
                0 <= q < recs.len() implies !(recs[q].map_id@ == map_id && recs[q].player_id@
                == player_id) by {
                if q > 0 {
                    assert(recs.drop_first()[q - 1] == recs[q]);
                }
            }
        }
    }
}

impl Leaderboard {
    /// The given login belongs to some stored player.
    pub open spec fn has_player(self, login: Seq<char>) -> bool {
        exists|i: int| 0 <= i < self.players@.len() && self.players@[i].login@ == login
    }

    /// The given id belongs to some stored map.
    pub open spec fn has_map(self, map_id: Seq<char>) -> bool {
        exists|i: int| 0 <= i < self.maps@.len() && self.maps@[i].map_id@ == map_id
    }

    /// Some record exists for the (map, player) pair.
    pub open spec fn has_record(self, map_id: Seq<char>, player_id: Seq<char>) -> bool {
        exists|i: int|
            0 <= i < self.records@.len() && self.records@[i].map_id@ == map_id
                && self.records@[i].player_id@ == player_id
    }

    /// The stored player with the given login.
    pub open spec fn player_of(self, login: Seq<char>) -> crate::model::Player {
        self.players@[player_index(self.players@, login)]
    }

    /// The stored map with the given id.
    pub open spec fn map_of(self, map_id: Seq<char>) -> GameMap {
        self.maps@[map_index(self.maps@, map_id)]
    }

    /// The nickname stored for the first player with the given login.
    pub open spec fn nickname_of(self, login: Seq<char>) -> Seq<char> {
        self.player_of(login).nickname@
    }

    /// The login is in the banned-player set.
    pub open spec fn is_banned(self, login: Seq<char>) -> bool {
        exists|i: int| 0 <= i < self.banned@.len() && self.banned@[i]@ == login
    }

    /// The table-level integrity rules:
    /// unique player logins, unique map ids, one record per (map, player),
    /// field bounds on every record, and referential integrity (each record's
    /// player and map exist, each map's author exists).
    pub open spec fn tables_ok(self) -> bool {
        &&& forall|i: int, j: int|
            0 <= i < j < self.players@.len() ==> self.players@[i].login@ != self.players@[j].login@
        &&& forall|i: int, j: int|
            0 <= i < j < self.maps@.len() ==> self.maps@[i].map_id@ != self.maps@[j].map_id@
        &&& forall|i: int, j: int|
            0 <= i < j < self.records@.len() ==> !(self.records@[i].map_id@
                == self.records@[j].map_id@ && self.records@[i].player_id@
                == self.records@[j].player_id@)
        &&& forall|i: int| 0 <= i < self.records@.len() ==> valid_record(#[trigger] self.records@[i])
        &&& forall|i: int|
            0 <= i < self.records@.len() ==> self.has_player(#[trigger] self.records@[i].player_id@)
        &&& forall|i: int|
            0 <= i < self.records@.len() ==> self.has_map(#[trigger] self.records@[i].map_id@)
        &&& forall|i: int|
            0 <= i < self.maps@.len() ==> self.has_player(#[trigger] self.maps@[i].player_id@)
    }

    /// Every integrity rule of the store: the table rules, and ranks
    /// consistent with the tie-aware ordering of each map's times.
    pub open spec fn well_formed(self) -> bool {
        &&& self.tables_ok()
        &&& ranks_consistent(self.records@)
    }

    /// An empty store with the given banned-player configuration.
    pub fn new(banned: Vec<String>) -> (res: Leaderboard)
        ensures
            res.well_formed(),
            res.players@.len() == 0,
            res.maps@.len() == 0,
            res.records@.len() == 0,
            res.banned == banned,
    {
        Leaderboard { players: Vec::new(), maps: Vec::new(), records: Vec::new(), banned }
    }

    /// Position of the player with the given login, if stored.
    pub fn find_player(&self, login: &str) -> (res: Option<usize>)
        ensures
            match res {
                Some(i) => i == player_index(self.players@, login@) && i < self.players@.len()
                    && self.players@[i as int].login@ == login@ && self.has_player(login@),
                None => !self.has_player(login@),
            },
    {
        proof {
            lemma_player_index(self.players@, login@);
        }
        let n = self.players.len();
        let mut i: usize = 0;
        while i < n
            invariant
                i <= n,
                forall|q: int| 0 <= q < i ==> self.players@[q].login@ != login@,
            decreases n - i,
        {
            if str_eq(self.players[i].login.as_str(), login) {
                return Some(i);
            }
            i += 1;
        }
        None
    }

    /// Position of the map with the given id, if stored.
    pub fn find_map(&self, map_id: &str) -> (res: Option<usize>)
        ensures
            match res {
                Some(i) => i == map_index(self.maps@, map_id@) && i < self.maps@.len()
                    && self.maps@[i as int].map_id@ == map_id@ && self.has_map(map_id@),
                None => !self.has_map(map_id@),
            },
    {
        proof {
            lemma_map_index(self.maps@, map_id@);
        }
        let n = self.maps.len();
        let mut i: usize = 0;
        while i < n
            invariant
                i <= n,
                forall|q: int| 0 <= q < i ==> self.maps@[q].map_id@ != map_id@,
            decreases n - i,
        {
            if str_eq(self.maps[i].map_id.as_str(), map_id) {
                return Some(i);
            }
            i += 1;
        }
        None
    }

    /// Position of the record for the (map, player) pair, if stored.
    pub fn find_record(&self, map_id: &str, player_id: &str) -> (res: Option<usize>)
        ensures
            match res {
                Some(i) => i == record_index(self.records@, map_id@, player_id@) && i
                    < self.records@.len() && self.records@[i as int].map_id@ == map_id@
                    && self.records@[i as int].player_id@ == player_id@ && self.has_record(
                    map_id@,
                    player_id@,
                ),
                None => !self.has_record(map_id@, player_id@),
            },
    {
        proof {
            lemma_record_index(self.records@, map_id@, player_id@);
        }
        let n = self.records.len();
        let mut i: usize = 0;
        while i < n
            invariant
                i <= n,
                forall|q: int|
                    0 <= q < i ==> !(self.records@[q].map_id@ == map_id@
                        && self.records@[q].player_id@ == player_id@),
            decreases n - i,
        {
            if str_eq(self.records[i].map_id.as_str(), map_id) && str_eq(
                self.records[i].player_id.as_str(),
                player_id,
            ) {
                return Some(i);
            }
            i += 1;
        }
        None
    }

    /// The submitting login is in the banned set.
    pub fn check_banned(&self, login: &str) -> (res: bool)
        ensures
            res == self.is_banned(login@),
    {
        let n = self.banned.len();
        let mut i: usize = 0;
        while i < n
            invariant
                i <= n,
                forall|q: int| 0 <= q < i ==> self.banned@[q]@ != login@,
            decreases n - i,
        {
            if str_eq(self.banned[i].as_str(), login) {
                return true;
            }
            i += 1;
        }
        false
    }
}

/// Relies on str's PartialEq: two string slices are equal exactly when their
/// character sequences are.
#[verifier::external_body]
pub fn str_eq(a: &str, b: &str) -> (res: bool)
    ensures
        res == (a@ == b@),
{
    a == b
}

} // verus!
