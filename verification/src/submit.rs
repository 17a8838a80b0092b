//! The submission service: the personal-best upsert protocol.
use vstd::prelude::*;

use crate::model::{GameMap, Player, Record, RecordsError, same_core, valid_record};
use crate::rank::{count_better, lemma_count_better_congruent, ranks_consistent, spec_rank};
use crate::store::{Leaderboard, record_index, lemma_record_index};

verus! {

/// The try counter after one successful improvement; it saturates at the
/// type's limit rather than wrap.
pub open spec fn inc_try(t: int) -> int {
    if t < i32::MAX {
        t + 1
    } else {
        t
    }
}

/// The update timestamp written by an improvement: the clock reading, clamped
/// so it never falls before the record's creation.
pub open spec fn stamp_after(now: u64, created: u64) -> u64 {
    if now >= created {
        now
    } else {
        created
    }
}

/// A player that was present stays present when the player table only grows.
pub proof fn lemma_has_player_extend(pre: Leaderboard, post: Leaderboard, x: Seq<char>)
    requires
        pre.players@.len() <= post.players@.len(),
        forall|j: int| 0 <= j < pre.players@.len() ==> post.players@[j] == pre.players@[j],
        pre.has_player(x),
    ensures
        post.has_player(x),
{
    let w = choose|w: int| 0 <= w < pre.players@.len() && pre.players@[w].login@ == x;
    assert(post.players@[w].login@ == x);
}

/// A map that was present stays present when the map table only grows.
pub proof fn lemma_has_map_extend(pre: Leaderboard, post: Leaderboard, x: Seq<char>)
    requires
        pre.maps@.len() <= post.maps@.len(),
        forall|j: int| 0 <= j < pre.maps@.len() ==> post.maps@[j] == pre.maps@[j],
        pre.has_map(x),
    ensures
        post.has_map(x),
{
    let w = choose|w: int| 0 <= w < pre.maps@.len() && pre.maps@[w].map_id@ == x;
    assert(post.maps@[w].map_id@ == x);
}

/// After re-ranking map `mid` over a staged record table whose other maps
/// still carry consistent ranks, the whole store is well formed again.
proof fn lemma_wf_after_rerank(stage: Leaderboard, post: Leaderboard, mid: Seq<char>)
    requires
        stage.tables_ok(),
        post.players == stage.players,
        post.maps == stage.maps,
        post.banned == stage.banned,
        post.records@.len() == stage.records@.len(),
        forall|i: int|
            0 <= i < post.records@.len() && (#[trigger] stage.records@[i]).map_id@ != mid
                ==> post.records@[i] == stage.records@[i],
        forall|i: int|
            0 <= i < post.records@.len() && (#[trigger] stage.records@[i]).map_id@ == mid ==> {
                &&& same_core(post.records@[i], stage.records@[i])
                &&& post.records@[i].rank == spec_rank(
                    stage.records@,
                    mid,
                    stage.records@[i].time as int,
                )
            },
        forall|i: int|
            0 <= i < stage.records@.len() && (#[trigger] stage.records@[i]).map_id@ != mid
                ==> stage.records@[i].rank == spec_rank(
                stage.records@,
                stage.records@[i].map_id@,
                stage.records@[i].time as int,
            ),
    ensures
        post.well_formed(),
{
    // the two record tables agree on every key, map id and time
    assert forall|i: int| 0 <= i < post.records@.len() implies same_core(
        #[trigger] post.records@[i],
        stage.records@[i],
    ) by {
        if stage.records@[i].map_id@ != mid {
        }
    }
    assert forall|i: int| 0 <= i < post.records@.len() implies (#[trigger] post.records@[i]).rank
        == spec_rank(post.records@, post.records@[i].map_id@, post.records@[i].time as int) by {
        lemma_count_better_congruent(
            post.records@,
            stage.records@,
            post.records@[i].map_id@,
            post.records@[i].time as int,
        );
        if stage.records@[i].map_id@ == mid {
        } else {
            assert(post.records@[i] == stage.records@[i]);
        }
    }
    assert(ranks_consistent(post.records@));
    // table rules carry over field by field
    assert forall|i: int| 0 <= i < post.records@.len() implies valid_record(
        #[trigger] post.records@[i],
    ) by {
        assert(same_core(post.records@[i], stage.records@[i]));
    }
    assert forall|i: int| 0 <= i < post.records@.len() implies post.has_player(
        #[trigger] post.records@[i].player_id@,
    ) by {
        assert(same_core(post.records@[i], stage.records@[i]));
        lemma_has_player_extend(stage, post, stage.records@[i].player_id@);
    }
    assert forall|i: int| 0 <= i < post.records@.len() implies post.has_map(
        #[trigger] post.records@[i].map_id@,
    ) by {
        assert(same_core(post.records@[i], stage.records@[i]));
        lemma_has_map_extend(stage, post, stage.records@[i].map_id@);
    }
    assert forall|i: int| 0 <= i < post.maps@.len() implies post.has_player(
        #[trigger] post.maps@[i].player_id@,
    ) by {
        lemma_has_player_extend(stage, post, stage.maps@[i].player_id@);
    }
    assert forall|i: int, j: int|
        0 <= i < j < post.records@.len() implies !(post.records@[i].map_id@
        == post.records@[j].map_id@ && post.records@[i].player_id@
        == post.records@[j].player_id@) by {
        assert(same_core(post.records@[i], stage.records@[i]));
        assert(same_core(post.records@[j], stage.records@[j]));
    }
}

impl Leaderboard {
    /// Make sure a player with this login exists, creating it with the login
    /// as placeholder nickname if absent; nothing else changes.
    pub fn ensure_player(&mut self, login: &str)
        requires
            old(self).well_formed(),
        ensures
            final(self).well_formed(),
            final(self).maps == old(self).maps,
            final(self).records == old(self).records,
            final(self).banned == old(self).banned,
            final(self).has_player(login@),
            old(self).players@.len() <= final(self).players@.len() <= old(self).players@.len() + 1,
            forall|j: int|
                0 <= j < old(self).players@.len() ==> final(self).players@[j] == old(
                    self,
                ).players@[j],
            old(self).has_player(login@) ==> final(self).players == old(self).players,
            !old(self).has_player(login@) ==> {
                &&& final(self).players@.len() == old(self).players@.len() + 1
                &&& final(self).players@.last().login@ == login@
                &&& final(self).players@.last().nickname@ == login@
            },
    {
        match self.find_player(login) {
            Some(_) => {
            },
            None => {
                let p = Player { login: login.to_owned(), nickname: login.to_owned() };
                self.players.push(p);
                proof {
                    let pre = *old(self);
                    let post = *self;
                    assert forall|i: int|
                        0 <= i < post.records@.len() implies post.has_player(
                        #[trigger] post.records@[i].player_id@,
                    ) by {
                        lemma_has_player_extend(pre, post, post.records@[i].player_id@);
                    }
                    assert forall|i: int|
                        0 <= i < post.maps@.len() implies post.has_player(
                        #[trigger] post.maps@[i].player_id@,
                    ) by {
                        lemma_has_player_extend(pre, post, post.maps@[i].player_id@);
                    }
                    assert(post.players@.last().login@ == login@);
                }
            },
        }
    }

    /// Make sure a map with this id exists, creating it with a placeholder
    /// name and the default system author if absent (the author player is
    /// auto-created first); nothing else changes.
    pub fn ensure_map(&mut self, map_id: &str)
        requires
            old(self).well_formed(),
        ensures
            final(self).well_formed(),
            final(self).records == old(self).records,
            final(self).banned == old(self).banned,
            final(self).has_map(map_id@),
            old(self).players@.len() <= final(self).players@.len() <= old(self).players@.len() + 1,
            forall|j: int|
                0 <= j < old(self).players@.len() ==> final(self).players@[j] == old(
                    self,
                ).players@[j],
            old(self).maps@.len() <= final(self).maps@.len() <= old(self).maps@.len() + 1,
            forall|j: int|
                0 <= j < old(self).maps@.len() ==> final(self).maps@[j] == old(self).maps@[j],
            old(self).has_map(map_id@) ==> *final(self) == *old(self),
            !old(self).has_map(map_id@) ==> {
                &&& final(self).maps@.len() == old(self).maps@.len() + 1
                &&& final(self).maps@.last().map_id@ == map_id@
                &&& final(self).maps@.last().name@ == "Unknwown map"@
                &&& final(self).maps@.last().player_id@ == "smokegun"@
            },
            forall|j: int|
                old(self).players@.len() <= j < final(self).players@.len() ==> {
                    &&& (#[trigger] final(self).players@[j]).login@ == "smokegun"@
                    &&& final(self).players@[j].nickname@ == "smokegun"@
                },
    {
        match self.find_map(map_id) {
            Some(_) => {
            },
            None => {
                let author = "smokegun";
                self.ensure_player(author);
                let m = GameMap {
                    map_id: map_id.to_owned(),
                    name: "Unknwown map".to_owned(),
                    player_id: author.to_owned(),
                };
                self.maps.push(m);
                proof {
                    let pre = *old(self);
                    let post = *self;
                    assert forall|i: int|
                        0 <= i < post.records@.len() implies post.has_player(
                        #[trigger] post.records@[i].player_id@,
                    ) by {
                        lemma_has_player_extend(pre, post, post.records@[i].player_id@);
                    }
                    assert forall|i: int|
                        0 <= i < post.records@.len() implies post.has_map(
                        #[trigger] post.records@[i].map_id@,
                    ) by {
                        lemma_has_map_extend(pre, post, post.records@[i].map_id@);
                    }
                    assert(post.maps@.last().map_id@ == map_id@);
                }
            },
        }
    }

    /// The personal-best upsert (`submitTime`).
    ///
    /// Rejects malformed input, then banned players, then auto-creates the
    /// map and player if absent, and finally decides create / improve /
    /// no-op. A create or an improvement re-ranks the whole map; a
    /// non-improving submission changes nothing at all. The returned triple
    /// is `(isNewBest, old, new)` where `new` always echoes the submitted
    /// time and `old` is the previously stored time, or the submitted time on
    /// a first submission.
    pub fn has_finished(
        &mut self,
        time: i32,
        respawn_count: i32,
        player_id: &str,
        map_id: &str,
        now: u64,
    ) -> (res: Result<(bool, i32, i32), RecordsError>)
        requires
            old(self).well_formed(),
        ensures
            final(self).well_formed(),
            final(self).banned == old(self).banned,
            // malformed input: rejected before anything else, no mutation
            (time < 0 || respawn_count < 0) <==> res == Err::<(bool, i32, i32), RecordsError>(
                RecordsError::ValidationError,
            ),
            res == Err::<(bool, i32, i32), RecordsError>(RecordsError::ValidationError)
                ==> *final(self) == *old(self),
            // banned player: rejected before any mutation
            (time >= 0 && respawn_count >= 0 && old(self).is_banned(player_id@)) <==> res
                == Err::<(bool, i32, i32), RecordsError>(RecordsError::Forbidden),
            res == Err::<(bool, i32, i32), RecordsError>(RecordsError::Forbidden) ==> *final(self)
                == *old(self),
            // success exactly on valid input from a player who is not banned
            (time >= 0 && respawn_count >= 0 && !old(self).is_banned(player_id@)) <==> res is Ok,
            res is Ok ==> {
                let k = record_index(old(self).records@, map_id@, player_id@);
                &&& final(self).has_map(map_id@)
                &&& final(self).has_player(player_id@)
                &&& forall|j: int|
                    0 <= j < old(self).players@.len() ==> final(self).players@[j] == old(
                        self,
                    ).players@[j]
                &&& forall|j: int|
                    0 <= j < old(self).maps@.len() ==> final(self).maps@[j] == old(self).maps@[j]
                &&& old(self).players@.len() <= final(self).players@.len() <= old(
                    self,
                ).players@.len() + 2
                &&& old(self).maps@.len() <= final(self).maps@.len() <= old(self).maps@.len() + 1
                &&& (old(self).has_map(map_id@) ==> final(self).maps == old(self).maps)
                &&& (!old(self).has_map(map_id@) ==> {
                    &&& final(self).maps@.len() == old(self).maps@.len() + 1
                    &&& final(self).maps@.last().map_id@ == map_id@
                    &&& final(self).maps@.last().name@ == "Unknwown map"@
                    &&& final(self).maps@.last().player_id@ == "smokegun"@
                })
                &&& (old(self).has_player(player_id@) && old(self).has_map(map_id@)
                    ==> final(self).players == old(self).players)
                &&& forall|j: int|
                    old(self).players@.len() <= j < final(self).players@.len() ==> {
                        &&& (#[trigger] final(self).players@[j]).nickname@
                            == final(self).players@[j].login@
                        &&& (final(self).players@[j].login@ == player_id@
                            || final(self).players@[j].login@ == "smokegun"@)
                    }
                &&& if k < 0 {
                    // first submission for this (map, player): a fresh record
                    &&& res == Ok::<(bool, i32, i32), RecordsError>((true, time, time))
                    &&& final(self).records@.len() == old(self).records@.len() + 1
                    &&& forall|j: int|
                        0 <= j < old(self).records@.len() ==> same_core(
                            #[trigger] final(self).records@[j],
                            old(self).records@[j],
                        )
                    &&& forall|j: int|
                        0 <= j < old(self).records@.len() && (#[trigger] old(
                            self,
                        ).records@[j]).map_id@ != map_id@ ==> final(self).records@[j] == old(
                            self,
                        ).records@[j]
                    &&& final(self).records@.last().map_id@ == map_id@
                    &&& final(self).records@.last().player_id@ == player_id@
                    &&& final(self).records@.last().time == time
                    &&& final(self).records@.last().respawn_count == respawn_count
                    &&& final(self).records@.last().try_count == 1
                    &&& final(self).records@.last().created_at == now
                    &&& final(self).records@.last().updated_at == now
                } else {
                    let prev = old(self).records@[k];
                    &&& res == Ok::<(bool, i32, i32), RecordsError>((time < prev.time, prev.time, time))
                    &&& if time < prev.time {
                        // improvement: the record is rewritten and the map re-ranked
                        &&& final(self).records@.len() == old(self).records@.len()
                        &&& forall|j: int|
                            0 <= j < old(self).records@.len() && j != k ==> same_core(
                                #[trigger] final(self).records@[j],
                                old(self).records@[j],
                            )
                        &&& forall|j: int|
                            0 <= j < old(self).records@.len() && j != k && (#[trigger] old(
                                self,
                            ).records@[j]).map_id@ != map_id@ ==> final(self).records@[j] == old(
                                self,
                            ).records@[j]
                        &&& final(self).records@[k].map_id@ == map_id@
                        &&& final(self).records@[k].player_id@ == player_id@
                        &&& final(self).records@[k].time == time
                        &&& final(self).records@[k].respawn_count == respawn_count
                        &&& final(self).records@[k].try_count == inc_try(prev.try_count as int)
                        &&& final(self).records@[k].created_at == prev.created_at
                        &&& final(self).records@[k].updated_at == stamp_after(now, prev.created_at)
                    } else {
                        // equal or worse: no mutation at all
                        *final(self) == *old(self)
                    }
                }
            },
    {
        if time < 0 || respawn_count < 0 {
            return Err(RecordsError::ValidationError);
        }
        if self.check_banned(player_id) {
            return Err(RecordsError::Forbidden);
        }
        proof {
            lemma_record_index(old(self).records@, map_id@, player_id@);
        }
        self.ensure_map(map_id);
        self.ensure_player(player_id);
        let ghost mid_state = *self;
        match self.find_record(map_id, player_id) {
            Some(k) => {
                proof {
                    // the record pre-exists, so both auto-creates were no-ops
                    assert(old(self).has_map(map_id@));
                    assert(old(self).has_player(player_id@));
                    assert(*self == *old(self));
                    assert(k == record_index(old(self).records@, map_id@, player_id@));
                }
                let prev_time = self.records[k].time;
                if time < prev_time {
                    let mut r = self.records[k].clone();
                    r.time = time;
                    r.respawn_count = respawn_count;
                    r.try_count = if r.try_count < i32::MAX {
                        r.try_count + 1
                    } else {
                        r.try_count
                    };
                    r.updated_at = if now >= r.created_at {
                        now
                    } else {
                        r.created_at
                    };
                    self.records.set(k, r);
                    let ghost stage = *self;
                    proof {
                        lemma_stage_update_ok(*old(self), stage, k as int, map_id@);
                    }
                    self.update_ranks(map_id);
                    proof {
                        lemma_wf_after_rerank(stage, *self, map_id@);
                        let pre = *old(self);
                        let n = pre.records@.len() as int;
                        assert forall|j: int| 0 <= j < n && j != k implies same_core(
                            #[trigger] self.records@[j],
                            pre.records@[j],
                        ) by {
                            assert(stage.records@[j] == pre.records@[j]);
                            if stage.records@[j].map_id@ == map_id@ {
                                assert(same_core(self.records@[j], stage.records@[j]));
                            } else {
                                assert(self.records@[j] == stage.records@[j]);
                            }
                        }
                        assert forall|j: int|
                            0 <= j < n && j != k && (#[trigger] pre.records@[j]).map_id@
                            != map_id@ implies self.records@[j] == pre.records@[j] by {
                            assert(stage.records@[j] == pre.records@[j]);
                        }
                        assert(stage.records@[k as int].map_id@ == map_id@);
                        assert(same_core(self.records@[k as int], stage.records@[k as int]));
                        lemma_has_map_extend(stage, *self, map_id@);
                        lemma_has_player_extend(stage, *self, player_id@);
                    }
                    Ok((true, prev_time, time))
                } else {
                    Ok((false, prev_time, time))
                }
            },
            None => {
                let r = Record {
                    rank: 0,
                    time,
                    respawn_count,
                    try_count: 1,
                    created_at: now,
                    updated_at: now,
                    player_id: player_id.to_owned(),
                    map_id: map_id.to_owned(),
                };
                self.records.push(r);
                let ghost stage = *self;
                proof {
                    lemma_stage_insert_ok(mid_state, stage, map_id@, player_id@);
                }
                self.update_ranks(map_id);
                proof {
                    lemma_wf_after_rerank(stage, *self, map_id@);
                    let pre = *old(self);
                    let n = pre.records@.len() as int;
                    assert(record_index(pre.records@, map_id@, player_id@) < 0);
                    assert forall|j: int| 0 <= j < n implies same_core(
                        #[trigger] self.records@[j],
                        pre.records@[j],
                    ) by {
                        assert(stage.records@[j] == pre.records@[j]);
                        if stage.records@[j].map_id@ == map_id@ {
                            assert(same_core(self.records@[j], stage.records@[j]));
                        } else {
                            assert(self.records@[j] == stage.records@[j]);
                        }
                    }
                    assert forall|j: int|
                        0 <= j < n && (#[trigger] pre.records@[j]).map_id@
                        != map_id@ implies self.records@[j] == pre.records@[j] by {
                        assert(stage.records@[j] == pre.records@[j]);
                    }
                    assert(stage.records@.last().map_id@ == map_id@);
                    assert(same_core(self.records@[n], stage.records@[n]));
                    lemma_has_map_extend(stage, *self, map_id@);
                    lemma_has_player_extend(stage, *self, player_id@);
                }
                Ok((true, time, time))
            },
        }
    }
}

/// A staged single-record rewrite on map `mid` keeps the table rules, and
/// every other map's ranks stay consistent.
proof fn lemma_stage_update_ok(pre: Leaderboard, stage: Leaderboard, k: int, mid: Seq<char>)
    requires
        pre.well_formed(),
        stage.players == pre.players,
        stage.maps == pre.maps,
        stage.banned == pre.banned,
        stage.records@.len() == pre.records@.len(),
        0 <= k < pre.records@.len(),
        forall|j: int| 0 <= j < pre.records@.len() && j != k ==> stage.records@[j] == pre.records@[j],
        stage.records@[k].map_id@ == mid,
        pre.records@[k].map_id@ == mid,
        stage.records@[k].player_id@ == pre.records@[k].player_id@,
        valid_record(stage.records@[k]),
    ensures
        stage.tables_ok(),
        forall|i: int|
            0 <= i < stage.records@.len() && (#[trigger] stage.records@[i]).map_id@ != mid
                ==> stage.records@[i].rank == spec_rank(
                stage.records@,
                stage.records@[i].map_id@,
                stage.records@[i].time as int,
            ),
{
    assert forall|i: int| 0 <= i < stage.records@.len() implies stage.has_player(
        #[trigger] stage.records@[i].player_id@,
    ) by {
        if i == k {
            lemma_has_player_extend(pre, stage, pre.records@[k].player_id@);
        } else {
            lemma_has_player_extend(pre, stage, pre.records@[i].player_id@);
        }
    }
    assert forall|i: int| 0 <= i < stage.records@.len() implies stage.has_map(
        #[trigger] stage.records@[i].map_id@,
    ) by {
        if i == k {
            lemma_has_map_extend(pre, stage, pre.records@[k].map_id@);
        } else {
            lemma_has_map_extend(pre, stage, pre.records@[i].map_id@);
        }
    }
    assert forall|i: int| 0 <= i < stage.maps@.len() implies stage.has_player(
        #[trigger] stage.maps@[i].player_id@,
    ) by {
        lemma_has_player_extend(pre, stage, pre.maps@[i].player_id@);
    }
    assert(stage.tables_ok());
    assert forall|i: int|
        0 <= i < stage.records@.len() && (#[trigger] stage.records@[i]).map_id@ != mid
            implies stage.records@[i].rank == spec_rank(
        stage.records@,
        stage.records@[i].map_id@,
        stage.records@[i].time as int,
    ) by {
        assert(stage.records@[i] == pre.records@[i]);
        lemma_count_better_congruent(
            stage.records@,
            pre.records@,
            stage.records@[i].map_id@,
            stage.records@[i].time as int,
        );
    }
}

/// A staged insertion of one record of map `mid` keeps the table rules, and
/// every other map's ranks stay consistent.
proof fn lemma_stage_insert_ok(pre: Leaderboard, stage: Leaderboard, mid: Seq<char>, pid: Seq<char>)
    requires
        pre.well_formed(),
        stage.players == pre.players,
        stage.maps == pre.maps,
        stage.banned == pre.banned,
        stage.records@.len() == pre.records@.len() + 1,
        forall|j: int| 0 <= j < pre.records@.len() ==> stage.records@[j] == pre.records@[j],
        stage.records@.last().map_id@ == mid,
        stage.records@.last().player_id@ == pid,
        !pre.has_record(mid, pid),
        pre.has_map(mid),
        pre.has_player(pid),
        valid_record(stage.records@.last()),
    ensures
        stage.tables_ok(),
        forall|i: int|
            0 <= i < stage.records@.len() && (#[trigger] stage.records@[i]).map_id@ != mid
                ==> stage.records@[i].rank == spec_rank(
                stage.records@,
                stage.records@[i].map_id@,
                stage.records@[i].time as int,
            ),
{
    let n = pre.records@.len() as int;
    assert forall|i: int, j: int|
        0 <= i < j < stage.records@.len() implies !(stage.records@[i].map_id@
        == stage.records@[j].map_id@ && stage.records@[i].player_id@
        == stage.records@[j].player_id@) by {
        if j == n {
            assert(stage.records@[i] == pre.records@[i]);
        }
    }
    assert forall|i: int| 0 <= i < stage.records@.len() implies stage.has_player(
        #[trigger] stage.records@[i].player_id@,
    ) by {
        if i == n {
            lemma_has_player_extend(pre, stage, pid);
        } else {
            lemma_has_player_extend(pre, stage, pre.records@[i].player_id@);
        }
    }
    assert forall|i: int| 0 <= i < stage.records@.len() implies stage.has_map(
        #[trigger] stage.records@[i].map_id@,
    ) by {
        if i == n {
            lemma_has_map_extend(pre, stage, mid);
        } else {
            lemma_has_map_extend(pre, stage, pre.records@[i].map_id@);
        }
    }
    assert forall|i: int| 0 <= i < stage.maps@.len() implies stage.has_player(
        #[trigger] stage.maps@[i].player_id@,
    ) by {
        lemma_has_player_extend(pre, stage, pre.maps@[i].player_id@);
    }
    assert(stage.tables_ok());
    assert forall|i: int|
        0 <= i < stage.records@.len() && (#[trigger] stage.records@[i]).map_id@ != mid
            implies stage.records@[i].rank == spec_rank(
        stage.records@,
        stage.records@[i].map_id@,
        stage.records@[i].time as int,
    ) by {
        assert(i < n);
        assert(stage.records@[i] == pre.records@[i]);
        let m = stage.records@[i].map_id@;
        let t = stage.records@[i].time as int;
        assert(stage.records@.drop_last() =~= pre.records@);
        assert(count_better(stage.records@, m, t) == count_better(pre.records@, m, t));
    }
}

} // verus!
