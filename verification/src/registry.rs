//! Explicit registration: create-or-update of players and maps.
use vstd::prelude::*;

use crate::model::{GameMap, Player};
use crate::store::{Leaderboard, map_index, player_index};
use crate::submit::{lemma_has_map_extend, lemma_has_player_extend};

verus! {

impl Player {
    /// Store this player: update the nickname when the login is taken,
    /// insert a new row otherwise. Maps and records are untouched.
    pub fn insert_or_replace(&self, store: &mut Leaderboard)
        requires
            old(store).well_formed(),
        ensures
            final(store).well_formed(),
            final(store).maps == old(store).maps,
            final(store).records == old(store).records,
            final(store).banned == old(store).banned,
            final(store).has_player(self.login@),
            old(store).has_player(self.login@) ==> final(store).players@ == old(
                store,
            ).players@.update(
                player_index(old(store).players@, self.login@),
                (Player {
                    login: old(store).players@[player_index(old(store).players@, self.login@)].login,
                    nickname: self.nickname,
                }),
            ),
            !old(store).has_player(self.login@) ==> final(store).players@ == old(
                store,
            ).players@.push(*self),
    {
        proof {
            crate::store::lemma_player_index(store.players@, self.login@);
        }
        match store.find_player(self.login.as_str()) {
            Some(pi) => {
                let mut p = store.players[pi].clone();
                p.nickname = self.nickname.clone();
                store.players.set(pi, p);
                proof {
                    let pre = *old(store);
                    let post = *store;
                    assert forall|i: int|
                        0 <= i < post.records@.len() implies post.has_player(
                        #[trigger] post.records@[i].player_id@,
                    ) by {
                        let w = choose|w: int|
                            0 <= w < pre.players@.len() && pre.players@[w].login@
                                == pre.records@[i].player_id@;
                        assert(post.players@[w].login@ == pre.players@[w].login@);
                    }
                    assert forall|i: int|
                        0 <= i < post.maps@.len() implies post.has_player(
                        #[trigger] post.maps@[i].player_id@,
                    ) by {
                        let w = choose|w: int|
                            0 <= w < pre.players@.len() && pre.players@[w].login@
                                == pre.maps@[i].player_id@;
                        assert(post.players@[w].login@ == pre.players@[w].login@);
                    }
                    assert(post.players@[pi as int].login@ == self.login@);
                }
            },
            None => {
                store.players.push(self.clone());
                proof {
                    let pre = *old(store);
                    let post = *store;
                    assert forall|i: int|
                        0 <= i < post.records@.len() implies post.has_player(
                        #[trigger] post.records@[i].player_id@,
                    ) by {
                        lemma_has_player_extend(pre, post, post.records@[i].player_id@);
                    }
                    assert forall|i: int|
                        0 <= i < post.maps@.len() implies post.has_player(
                        #[trigger] post.maps@[i].player_id@,
                    ) by {
                        lemma_has_player_extend(pre, post, post.maps@[i].player_id@);
                    }
                    assert(post.players@.last().login@ == self.login@);
                }
            },
        }
    }
}

impl GameMap {
    /// Store this map: update name and author when the id is taken, insert a
    /// new row otherwise. The author player is auto-created first when
    /// absent, with its login as placeholder nickname. Records are untouched.
    pub fn insert_or_replace(&self, store: &mut Leaderboard)
        requires
            old(store).well_formed(),
        ensures
            final(store).well_formed(),
            final(store).records == old(store).records,
            final(store).banned == old(store).banned,
            final(store).has_map(self.map_id@),
            final(store).has_player(self.player_id@),
            old(store).players@.len() <= final(store).players@.len() <= old(
                store,
            ).players@.len() + 1,
            forall|j: int|
                0 <= j < old(store).players@.len() ==> final(store).players@[j] == old(
                    store,
                ).players@[j],
            old(store).has_player(self.player_id@) ==> final(store).players == old(store).players,
            !old(store).has_player(self.player_id@) ==> {
                &&& final(store).players@.len() == old(store).players@.len() + 1
                &&& final(store).players@.last().login@ == self.player_id@
                &&& final(store).players@.last().nickname@ == self.player_id@
            },
            old(store).has_map(self.map_id@) ==> final(store).maps@ == old(store).maps@.update(
                map_index(old(store).maps@, self.map_id@),
                (GameMap {
                    map_id: old(store).maps@[map_index(old(store).maps@, self.map_id@)].map_id,
                    name: self.name,
                    player_id: self.player_id,
                }),
            ),
            !old(store).has_map(self.map_id@) ==> final(store).maps@ == old(store).maps@.push(
                *self,
            ),
    {
        proof {
            crate::store::lemma_map_index(store.maps@, self.map_id@);
        }
        store.ensure_player(self.player_id.as_str());
        let ghost mid_state = *store;
        match store.find_map(self.map_id.as_str()) {
            Some(mi) => {
                let mut m = store.maps[mi].clone();
                m.name = self.name.clone();
                m.player_id = self.player_id.clone();
                store.maps.set(mi, m);
                proof {
                    let pre = *old(store);
                    let post = *store;
                    assert forall|i: int|
                        0 <= i < post.records@.len() implies post.has_map(
                        #[trigger] post.records@[i].map_id@,
                    ) by {
                        let w = choose|w: int|
                            0 <= w < pre.maps@.len() && pre.maps@[w].map_id@
                                == pre.records@[i].map_id@;
                        assert(post.maps@[w].map_id@ == pre.maps@[w].map_id@);
                    }
                    assert forall|i: int|
                        0 <= i < post.maps@.len() implies post.has_player(
                        #[trigger] post.maps@[i].player_id@,
                    ) by {
                        if i == mi as int {
                            lemma_has_player_extend(mid_state, post, self.player_id@);
                        } else {
                            lemma_has_player_extend(pre, post, pre.maps@[i].player_id@);
                        }
                    }
                    assert forall|i: int|
                        0 <= i < post.records@.len() implies post.has_player(
                        #[trigger] post.records@[i].player_id@,
                    ) by {
                        lemma_has_player_extend(pre, post, pre.records@[i].player_id@);
                    }
                    assert(post.maps@[mi as int].map_id@ == self.map_id@);
                    assert(mid_state.maps@ == pre.maps@);
                    assert(post.maps@ =~= pre.maps@.update(
                        map_index(pre.maps@, self.map_id@),
                        (GameMap {
                            map_id: pre.maps@[map_index(pre.maps@, self.map_id@)].map_id,
                            name: self.name,
                            player_id: self.player_id,
                        }),
                    ));
                }
            },
            None => {
                store.maps.push(self.clone());
                proof {
                    let pre = *old(store);
                    let post = *store;
                    assert forall|i: int|
                        0 <= i < post.records@.len() implies post.has_map(
                        #[trigger] post.records@[i].map_id@,
                    ) by {
                        lemma_has_map_extend(pre, post, pre.records@[i].map_id@);
                    }
                    assert forall|i: int|
                        0 <= i < post.maps@.len() implies post.has_player(
                        #[trigger] post.maps@[i].player_id@,
                    ) by {
                        if i == post.maps@.len() - 1 {
                            lemma_has_player_extend(mid_state, post, self.player_id@);
                        } else {
                            lemma_has_player_extend(pre, post, pre.maps@[i].player_id@);
                        }
                    }
                    assert forall|i: int|
                        0 <= i < post.records@.len() implies post.has_player(
                        #[trigger] post.records@[i].player_id@,
                    ) by {
                        lemma_has_player_extend(pre, post, pre.records@[i].player_id@);
                    }
                    assert(post.maps@.last().map_id@ == self.map_id@);
                }
            },
        }
    }
}

} // verus!
