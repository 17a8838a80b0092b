//! The overview window: a bounded slice of a map's ranked list that always
//! shows the leaders and centres on the requesting player.
use vstd::prelude::*;

use crate::listing::on_map;
use crate::model::{RankedRecord, Record};
use crate::ordering::{
    RecordOrder, lemma_sort_records_contains, lemma_sort_records_props, sort_records,
    sort_records_spec,
};
use crate::store::{Leaderboard, record_index};

verus! {

/// The fixed window size of an overview.
pub const OVERVIEW_SIZE: usize = 15;

/// How many leading entries are always shown.
pub const OVERVIEW_LEADERS: usize = 3;

/// The half-width of the block centred on the player.
pub const OVERVIEW_HALF: usize = (15 - 3) / 2;

/// A map's records ascending by time, ties in store order.
pub open spec fn map_sorted(lb: Leaderboard, map_id: Seq<char>) -> Seq<Record> {
    sort_records_spec(lb.records@.filter(on_map(map_id)), RecordOrder::TimeAsc)
}

/// A record dressed for display: joined with its player's nickname.
pub open spec fn ranked_of(lb: Leaderboard, r: Record) -> RankedRecord {
    (RankedRecord {
        rank: r.rank,
        player_id: r.player_id,
        nickname: lb.player_of(r.player_id@).nickname,
        time: r.time,
    })
}

/// Dresses each record of a sequence for display.
pub open spec fn ranked_fn(lb: Leaderboard) -> spec_fn(Record) -> RankedRecord {
    |r: Record| ranked_of(lb, r)
}

/// A map's full display list, ascending by time.
pub open spec fn map_ranked(lb: Leaderboard, map_id: Seq<char>) -> Seq<RankedRecord> {
    map_sorted(lb, map_id).map_values(ranked_fn(lb))
}

/// Index of the first record with the given time, or -1 if there is none;
/// the documented deterministic tie-break for the windowing pivot.
pub open spec fn first_time_index(s: Seq<Record>, t: int) -> int
    decreases s.len(),
{
    if s.len() == 0 {
        -1
    } else if s[0].time == t {
        0
    } else {
        let r = first_time_index(s.drop_first(), t);
        if r < 0 {
            -1
        } else {
            r + 1
        }
    }
}

pub proof fn lemma_first_time_index(s: Seq<Record>, t: int)
    ensures
        first_time_index(s, t) >= 0 ==> {
            let i = first_time_index(s, t);
            &&& i < s.len()
            &&& s[i].time == t
            &&& forall|q: int| 0 <= q < i ==> s[q].time != t
        },
        first_time_index(s, t) == -1 ==> forall|q: int| 0 <= q < s.len() ==> s[q].time != t,
        first_time_index(s, t) >= 0 || first_time_index(s, t) == -1,
    decreases s.len(),
{
    if s.len() > 0 && s[0].time != t {
        lemma_first_time_index(s.drop_first(), t);
        let r = first_time_index(s.drop_first(), t);
        if r >= 0 {
            assert(s.drop_first()[r] == s[r + 1]);
            assert forall|q: int| 0 <= q < r + 1 implies s[q].time != t by {
                if q > 0 {
                    assert(s.drop_first()[q - 1] == s[q]);
                }
            }
        } else {
            assert forall|q: int| 0 <= q < s.len() implies s[q].time != t by {
                if q > 0 {
                    assert(s.drop_first()[q - 1] == s[q]);
                }
            }
        }
    }
}

/// The first `n` entries, or everything when fewer exist.
pub open spec fn prefix_up_to(s: Seq<RankedRecord>, n: int) -> Seq<RankedRecord> {
    if n <= s.len() {
        s.take(n)
    } else {
        s
    }
}

/// The overview of `map_id` as seen by `player_id`.
///
/// With no record for the player, the first `OVERVIEW_SIZE - 1` entries (the
/// caller reserves the trailing slot for the player's own line). With a
/// record near the top, simply the first `OVERVIEW_SIZE` entries. Otherwise
/// the three leaders, then a block of `OVERVIEW_SIZE - OVERVIEW_LEADERS`
/// entries centred on the player's position, slid left when it would run
/// past the end of the list and never starting before the leaders.
pub open spec fn overview_spec(lb: Leaderboard, player_id: Seq<char>, map_id: Seq<char>) -> Seq<
    RankedRecord,
> {
    let s = map_ranked(lb, map_id);
    let k = record_index(lb.records@, map_id, player_id);
    if k < 0 {
        prefix_up_to(s, OVERVIEW_SIZE - 1)
    } else {
        let t = lb.records@[k].time as int;
        let idx = first_time_index(map_sorted(lb, map_id), t);
        if idx < OVERVIEW_SIZE {
            prefix_up_to(s, OVERVIEW_SIZE as int)
        } else {
            let len = s.len() as int;
            let start0 = idx - OVERVIEW_HALF;
            let end0 = idx + OVERVIEW_HALF;
            let start1 = if end0 > len {
                start0 - (end0 - len)
            } else {
                start0
            };
            let end1 = if end0 > len {
                len
            } else {
                end0
            };
            let start2 = if start1 < OVERVIEW_LEADERS {
                OVERVIEW_LEADERS as int
            } else {
                start1
            };
            s.take(OVERVIEW_LEADERS as int) + s.subrange(start2, end1)
        }
    }
}

/// Copy the first `n` entries, or everything when fewer exist.
fn clone_prefix(v: &Vec<RankedRecord>, n: usize) -> (res: Vec<RankedRecord>)
    ensures
        res@ == prefix_up_to(v@, n as int),
{
    let cap = if n > v.len() {
        v.len()
    } else {
        n
    };
    let mut res: Vec<RankedRecord> = Vec::new();
    let mut j: usize = 0;
    while j < cap
        invariant
            j <= cap <= v@.len(),
            res@ == v@.take(j as int),
        decreases cap - j,
    {
        proof {
            assert(v@.take(j + 1) =~= v@.take(j as int).push(v@[j as int]));
        }
        res.push(v[j].clone());
        j += 1;
    }
    proof {
        assert(prefix_up_to(v@, n as int) =~= v@.take(cap as int));
    }
    res
}

impl Leaderboard {
    /// The map's display list ascending by time, each entry joined with its
    /// player's nickname.
    fn ranked_list(&self, map_id: &str) -> (res: Vec<RankedRecord>)
        requires
            self.well_formed(),
        ensures
            res@ == map_ranked(*self, map_id@),
            res@.len() == map_sorted(*self, map_id@).len(),
    {
        let mrecs = self.records_of_map(map_id);
        proof {
            lemma_sort_records_props(self.records@.filter(on_map(map_id@)), RecordOrder::TimeAsc);
        }
        let sorted = sort_records(&mrecs, RecordOrder::TimeAsc);
        let len = sorted.len();
        let mut res: Vec<RankedRecord> = Vec::new();
        let mut i: usize = 0;
        while i < len
            invariant
                i <= len,
                len == sorted@.len(),
                res@ == sorted@.take(i as int).map_values(ranked_fn(*self)),
            decreases len - i,
        {
            proof {
                broadcast use vstd::prelude::Seq::lemma_filter_contains_rev;

                assert(sorted@.contains(sorted@[i as int]));
                lemma_sort_records_contains(
                    self.records@.filter(on_map(map_id@)),
                    RecordOrder::TimeAsc,
                    sorted@[i as int],
                );
                assert(self.records@.contains(sorted@[i as int]));
                let w = choose|w: int|
                    0 <= w < self.records@.len() && self.records@[w] == sorted@[i as int];
                assert(self.has_player(self.records@[w].player_id@));
            }
            let rec = &sorted[i];
            let pi = self.find_player(rec.player_id.as_str()).unwrap();
            let rr = RankedRecord {
                rank: rec.rank,
                player_id: rec.player_id.clone(),
                nickname: self.players[pi].nickname.clone(),
                time: rec.time,
            };
            proof {
                assert(sorted@.take(i + 1).map_values(ranked_fn(*self)) =~= sorted@.take(
                    i as int,
                ).map_values(ranked_fn(*self)).push(ranked_of(*self, sorted@[i as int])));
            }
            res.push(rr);
            i += 1;
        }
        proof {
            assert(sorted@.take(len as int) =~= sorted@);
        }
        res
    }

    /// The overview slice for one player on one map: at most `OVERVIEW_SIZE`
    /// entries of the map's ranked list, as `overview_spec` lays them out.
    pub fn overview(&self, player_id: &str, map_id: &str) -> (res: Vec<RankedRecord>)
        requires
            self.well_formed(),
        ensures
            res@ == overview_spec(*self, player_id@, map_id@),
            res@.len() <= OVERVIEW_SIZE,
    {
        let ranked = self.ranked_list(map_id);
        let ghost srecs = map_sorted(*self, map_id@);
        proof {
            crate::store::lemma_record_index(self.records@, map_id@, player_id@);
        }
        match self.find_record(map_id, player_id) {
            None => {
                let res = clone_prefix(&ranked, OVERVIEW_SIZE - 1);
                res
            },
            Some(k) => {
                let t = self.records[k].time;
                // the player's record is on this map, so its time occurs in
                // the sorted list and the pivot scan terminates
                proof {
                    self.records@.lemma_filter_contains(on_map(map_id@), k as int);
                    lemma_sort_records_contains(
                        self.records@.filter(on_map(map_id@)),
                        RecordOrder::TimeAsc,
                        self.records@[k as int],
                    );
                    let w = choose|w: int|
                        0 <= w < srecs.len() && srecs[w] == self.records@[k as int];
                    assert(srecs[w].time == t);
                    lemma_first_time_index(srecs, t as int);
                }
                let sorted_len = ranked.len();
                let mut idx: usize = 0;
                while idx < sorted_len && !(ranked[idx].time == t)
                    invariant
                        idx <= sorted_len,
                        forall|q: int| 0 <= q < idx ==> srecs[q].time != t,
                        exists|w: int| 0 <= w < srecs.len() && srecs[w].time == t,
                    decreases sorted_len - idx,
                {
                    idx += 1;
                }
                proof {
                    if idx == sorted_len {
                        let w = choose|w: int| 0 <= w < srecs.len() && srecs[w].time == t;
                        assert(srecs[w].time != t);
                    }
                    assert(ranked@[idx as int] == ranked_of(*self, srecs[idx as int]));
                    assert(srecs[idx as int].time == t);
                    lemma_first_time_index(srecs, t as int);
                    assert(idx as int == first_time_index(srecs, t as int));
                }
                if idx < OVERVIEW_SIZE {
                    let res = clone_prefix(&ranked, OVERVIEW_SIZE);
                    res
                } else {
                    let len = sorted_len;
                    let mut start: usize;
                    let end: usize;
                    if idx > len - OVERVIEW_HALF {
                        start = len - (OVERVIEW_SIZE - OVERVIEW_LEADERS);
                        end = len;
                    } else {
                        start = idx - OVERVIEW_HALF;
                        end = idx + OVERVIEW_HALF;
                    }
                    if start < OVERVIEW_LEADERS {
                        start = OVERVIEW_LEADERS;
                    }
                    proof {
                        let s = map_ranked(*self, map_id@);
                        let leng = s.len() as int;
                        let start0 = idx - OVERVIEW_HALF;
                        let end0 = idx + OVERVIEW_HALF;
                        let start1 = if end0 > leng {
                            start0 - (end0 - leng)
                        } else {
                            start0
                        };
                        let end1 = if end0 > leng {
                            leng
                        } else {
                            end0
                        };
                        let start2 = if start1 < OVERVIEW_LEADERS {
                            OVERVIEW_LEADERS as int
                        } else {
                            start1
                        };
                        assert(leng == len);
                        assert(end0 > leng <==> idx > len - OVERVIEW_HALF);
                        assert(start as int == start2);
                        assert(end as int == end1);
                    }
                    let mut res: Vec<RankedRecord> = Vec::new();
                    let mut j: usize = 0;
                    while j < OVERVIEW_LEADERS
                        invariant
                            j <= OVERVIEW_LEADERS,
                            OVERVIEW_LEADERS <= ranked@.len(),
                            res@ == ranked@.take(j as int),
                        decreases OVERVIEW_LEADERS - j,
                    {
                        proof {
                            assert(ranked@.take(j + 1) =~= ranked@.take(j as int).push(
                                ranked@[j as int],
                            ));
                        }
                        res.push(ranked[j].clone());
                        j += 1;
                    }
                    let mut q: usize = start;
                    while q < end
                        invariant
                            start <= q <= end <= ranked@.len(),
                            res@ == ranked@.take(3) + ranked@.subrange(start as int, q as int),
                        decreases end - q,
                    {
                        proof {
                            assert(ranked@.take(3) + ranked@.subrange(start as int, q + 1)
                                =~= (ranked@.take(3) + ranked@.subrange(start as int, q as int)).push(
                                ranked@[q as int],
                            ));
                        }
                        res.push(ranked[q].clone());
                        q += 1;
                    }
                    res
                }
            },
        }
    }
}

} // verus!
