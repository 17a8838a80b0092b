//! The paginated listing queries: per-map pages, per-player history, and the
//! global recent-activity feed.
use vstd::prelude::*;

use crate::model::{GameMap, Player, Record};
use crate::ordering::{
    RecordOrder, lemma_sort_records_contains, lemma_sort_records_props, sort_records,
    sort_records_spec,
};
use crate::store::Leaderboard;

verus! {

/// The page-size rule: a requested limit outside (0, 100] is coerced to 100.
pub open spec fn clamped_limit(limit: int) -> int {
    if 1 <= limit <= 100 {
        limit
    } else {
        100
    }
}

/// Apply the clamp rule to a requested limit.
pub fn clamp_limit(limit: usize) -> (res: usize)
    ensures
        res == clamped_limit(limit as int),
{
    if limit == 0 || limit > 100 {
        100
    } else {
        limit
    }
}

/// The page starting at `offset` with at most `limit` entries, both clipped
/// to the sequence's end.
pub open spec fn page_of<T>(s: Seq<T>, offset: int, limit: int) -> Seq<T> {
    let lo = if offset <= s.len() {
        offset
    } else {
        s.len() as int
    };
    let hi = if offset + limit <= s.len() {
        offset + limit
    } else {
        s.len() as int
    };
    s.subrange(lo, hi)
}

/// Selects the records of one map.
pub open spec fn on_map(map_id: Seq<char>) -> spec_fn(Record) -> bool {
    |r: Record| r.map_id@ == map_id
}

/// Selects the records of one player.
pub open spec fn by_player(player_id: Seq<char>) -> spec_fn(Record) -> bool {
    |r: Record| r.player_id@ == player_id
}

impl Leaderboard {
    /// The records of the given map, in store order.
    pub fn records_of_map(&self, map_id: &str) -> (v: Vec<Record>)
        ensures
            v@ == self.records@.filter(on_map(map_id@)),
    {
        proof {
            reveal(Seq::filter);
        }
        let n = self.records.len();
        let mut v: Vec<Record> = Vec::new();
        let mut i: usize = 0;
        while i < n
            invariant
                i <= n,
                v@ == self.records@.take(i as int).filter(on_map(map_id@)),
            decreases n - i,
        {
            proof {
                reveal(Seq::filter);
                assert(self.records@.take(i + 1).drop_last() =~= self.records@.take(i as int));
            }
            if crate::store::str_eq(self.records[i].map_id.as_str(), map_id) {
                v.push(self.records[i].clone());
            }
            i += 1;
        }
        proof {
            assert(self.records@.take(n as int) =~= self.records@);
        }
        v
    }

    /// The records of the given player, in store order.
    pub fn records_of_player(&self, player_id: &str) -> (v: Vec<Record>)
        ensures
            v@ == self.records@.filter(by_player(player_id@)),
    {
        proof {
            reveal(Seq::filter);
        }
        let n = self.records.len();
        let mut v: Vec<Record> = Vec::new();
        let mut i: usize = 0;
        while i < n
            invariant
                i <= n,
                v@ == self.records@.take(i as int).filter(by_player(player_id@)),
            decreases n - i,
        {
            proof {
                reveal(Seq::filter);
                assert(self.records@.take(i + 1).drop_last() =~= self.records@.take(i as int));
            }
            if crate::store::str_eq(self.records[i].player_id.as_str(), player_id) {
                v.push(self.records[i].clone());
            }
            i += 1;
        }
        proof {
            assert(self.records@.take(n as int) =~= self.records@);
        }
        v
    }

    /// The global recent-activity feed: a page of all records, most recently
    /// updated first (ties keep store order), each joined with its player and
    /// its map. There is no not-found case; the page may be empty.
    pub fn latest_records(&self, offset: usize, limit: usize) -> (res: Vec<
        (Record, Player, GameMap),
    >)
        requires
            self.well_formed(),
        ensures
            ({
                let page = page_of(
                    sort_records_spec(self.records@, RecordOrder::LatestFirst),
                    offset as int,
                    clamped_limit(limit as int),
                );
                &&& res@.len() == page.len()
                &&& forall|q: int|
                    0 <= q < page.len() ==> {
                        &&& (#[trigger] res@[q]).0 == page[q]
                        &&& res@[q].1 == self.player_of(page[q].player_id@)
                        &&& res@[q].2 == self.map_of(page[q].map_id@)
                    }
            }),
    {
        proof {
            lemma_sort_records_props(self.records@, RecordOrder::LatestFirst);
        }
        let sorted = sort_records(&self.records, RecordOrder::LatestFirst);
        let len = sorted.len();
        let lo = if offset > len {
            len
        } else {
            offset
        };
        let climit = clamp_limit(limit);
        let hi = if climit > len - lo {
            len
        } else {
            lo + climit
        };
        let ghost page = page_of(
            sort_records_spec(self.records@, RecordOrder::LatestFirst),
            offset as int,
            clamped_limit(limit as int),
        );
        proof {
            assert(page =~= sorted@.subrange(lo as int, hi as int));
        }
        let mut res: Vec<(Record, Player, GameMap)> = Vec::new();
        let mut j: usize = lo;
        while j < hi
            invariant
                lo <= j <= hi,
                res@.len() == j - lo,
                forall|q: int|
                    0 <= q < res@.len() ==> {
                        &&& (#[trigger] res@[q]).0 == page[q]
                        &&& res@[q].1 == self.player_of(page[q].player_id@)
                        &&& res@[q].2 == self.map_of(page[q].map_id@)
                    },
            decreases hi - j,
        {
            proof {
                assert(sorted@.contains(sorted@[j as int]));
                lemma_sort_records_contains(
                    self.records@,
                    RecordOrder::LatestFirst,
                    sorted@[j as int],
                );
                let w = choose|w: int|
                    0 <= w < self.records@.len() && self.records@[w] == sorted@[j as int];
                assert(self.has_player(self.records@[w].player_id@));
                assert(self.has_map(self.records@[w].map_id@));
            }
            let rec = sorted[j].clone();
            let pi = self.find_player(rec.player_id.as_str()).unwrap();
            let p = self.players[pi].clone();
            let mi = self.find_map(rec.map_id.as_str()).unwrap();
            let m = self.maps[mi].clone();
            res.push((rec, p, m));
            j += 1;
        }
        res
    }

    /// A page of one map's records ascending by time (ties keep store order),
    /// each joined with its player, together with the map and its author.
    /// `None` exactly when the map id is unknown — distinct from an empty
    /// page.
    pub fn map_records(&self, map_id: &str, offset: usize, limit: usize) -> (res: Option<
        (GameMap, Player, Vec<(Record, Player)>),
    >)
        requires
            self.well_formed(),
        ensures
            res is None <==> !self.has_map(map_id@),
            res matches Some(t) ==> {
                let page = page_of(
                    sort_records_spec(
                        self.records@.filter(on_map(map_id@)),
                        RecordOrder::TimeAsc,
                    ),
                    offset as int,
                    clamped_limit(limit as int),
                );
                &&& t.0 == self.map_of(map_id@)
                &&& t.1 == self.player_of(self.map_of(map_id@).player_id@)
                &&& t.2@.len() == page.len()
                &&& forall|q: int|
                    0 <= q < page.len() ==> {
                        &&& (#[trigger] t.2@[q]).0 == page[q]
                        &&& t.2@[q].1 == self.player_of(page[q].player_id@)
                    }
            },
    {
        let mi = match self.find_map(map_id) {
            Some(mi) => mi,
            None => {
                return None;
            },
        };
        let m = self.maps[mi].clone();
        let ai = self.find_player(m.player_id.as_str()).unwrap();
        let author = self.players[ai].clone();
        let mrecs = self.records_of_map(map_id);
        proof {
            lemma_sort_records_props(self.records@.filter(on_map(map_id@)), RecordOrder::TimeAsc);
        }
        let sorted = sort_records(&mrecs, RecordOrder::TimeAsc);
        let len = sorted.len();
        let lo = if offset > len {
            len
        } else {
            offset
        };
        let climit = clamp_limit(limit);
        let hi = if climit > len - lo {
            len
        } else {
            lo + climit
        };
        let ghost page = page_of(
            sort_records_spec(self.records@.filter(on_map(map_id@)), RecordOrder::TimeAsc),
            offset as int,
            clamped_limit(limit as int),
        );
        proof {
            assert(page =~= sorted@.subrange(lo as int, hi as int));
        }
        let mut v: Vec<(Record, Player)> = Vec::new();
        let mut j: usize = lo;
        while j < hi
            invariant
                lo <= j <= hi,
                v@.len() == j - lo,
                forall|q: int|
                    0 <= q < v@.len() ==> {
                        &&& (#[trigger] v@[q]).0 == page[q]
                        &&& v@[q].1 == self.player_of(page[q].player_id@)
                    },
            decreases hi - j,
        {
            proof {
                broadcast use vstd::prelude::Seq::lemma_filter_contains_rev;

                assert(sorted@.contains(sorted@[j as int]));
                lemma_sort_records_contains(
                    self.records@.filter(on_map(map_id@)),
                    RecordOrder::TimeAsc,
                    sorted@[j as int],
                );
                assert(self.records@.contains(sorted@[j as int]));
                let w = choose|w: int|
                    0 <= w < self.records@.len() && self.records@[w] == sorted@[j as int];
                assert(self.has_player(self.records@[w].player_id@));
            }
            let rec = sorted[j].clone();
            let pi = self.find_player(rec.player_id.as_str()).unwrap();
            let p = self.players[pi].clone();
            v.push((rec, p));
            j += 1;
        }
        Some((m, author, v))
    }

    /// A player's complete history: every record they hold, most recently
    /// updated first (ties keep store order), each joined with its map.
    /// `None` exactly when the login is unknown.
    pub fn player_records(&self, player_id: &str) -> (res: Option<(Player, Vec<(Record, GameMap)>)>)
        requires
            self.well_formed(),
        ensures
            res is None <==> !self.has_player(player_id@),
            res matches Some(t) ==> {
                let sorted = sort_records_spec(
                    self.records@.filter(by_player(player_id@)),
                    RecordOrder::LatestFirst,
                );
                &&& t.0 == self.player_of(player_id@)
                &&& t.1@.len() == sorted.len()
                &&& forall|q: int|
                    0 <= q < sorted.len() ==> {
                        &&& (#[trigger] t.1@[q]).0 == sorted[q]
                        &&& t.1@[q].1 == self.map_of(sorted[q].map_id@)
                    }
            },
    {
        let pi = match self.find_player(player_id) {
            Some(pi) => pi,
            None => {
                return None;
            },
        };
        let p = self.players[pi].clone();
        let mine = self.records_of_player(player_id);
        proof {
            lemma_sort_records_props(
                self.records@.filter(by_player(player_id@)),
                RecordOrder::LatestFirst,
            );
        }
        let sorted = sort_records(&mine, RecordOrder::LatestFirst);
        let len = sorted.len();
        let mut v: Vec<(Record, GameMap)> = Vec::new();
        let mut j: usize = 0;
        while j < len
            invariant
                j <= len,
                v@.len() == j,
                forall|q: int|
                    0 <= q < v@.len() ==> {
                        &&& (#[trigger] v@[q]).0 == sorted@[q]
                        &&& v@[q].1 == self.map_of(sorted@[q].map_id@)
                    },
            decreases len - j,
        {
            proof {
                broadcast use vstd::prelude::Seq::lemma_filter_contains_rev;

                assert(sorted@.contains(sorted@[j as int]));
                lemma_sort_records_contains(
                    self.records@.filter(by_player(player_id@)),
                    RecordOrder::LatestFirst,
                    sorted@[j as int],
                );
                assert(self.records@.contains(sorted@[j as int]));
                let w = choose|w: int|
                    0 <= w < self.records@.len() && self.records@[w] == sorted@[j as int];
                assert(self.has_map(self.records@[w].map_id@));
            }
            let rec = sorted[j].clone();
            let mi = self.find_map(rec.map_id.as_str()).unwrap();
            let m = self.maps[mi].clone();
            v.push((rec, m));
            j += 1;
        }
        Some((p, v))
    }
}

} // verus!
