//! The rank engine: tie-aware ("RANK" semantics) rank assignment per map.
use vstd::prelude::*;

use crate::model::Record;

verus! {

/// How many records of map `map_id` have a time strictly better than `t`.
pub open spec fn count_better(recs: Seq<Record>, map_id: Seq<char>, t: int) -> nat
    decreases recs.len(),
{
    if recs.len() == 0 {
        0
    } else {
        count_better(recs.drop_last(), map_id, t) + (if recs.last().map_id@ == map_id
            && recs.last().time < t {
            1nat
        } else {
            0nat
        })
    }
}

/// The tie-aware rank of time `t` within map `map_id`: one more than the
/// number of strictly better records, so equal times share a rank and a
/// tie group opens a gap after itself.
pub open spec fn spec_rank(recs: Seq<Record>, map_id: Seq<char>, t: int) -> nat {
    count_better(recs, map_id, t) + 1
}

/// Every stored rank matches the tie-aware rank of its record's time within
/// its record's map.
pub open spec fn ranks_consistent(recs: Seq<Record>) -> bool {
    forall|i: int|
        0 <= i < recs.len() ==> (#[trigger] recs[i]).rank == spec_rank(
            recs,
            recs[i].map_id@,
            recs[i].time as int,
        )
}

pub proof fn lemma_count_better_le_len(recs: Seq<Record>, map_id: Seq<char>, t: int)
    ensures
        count_better(recs, map_id, t) <= recs.len(),
    decreases recs.len(),
{
    if recs.len() > 0 {
        lemma_count_better_le_len(recs.drop_last(), map_id, t);
    }
}

/// A record of the map whose time is not better than `t` is never counted,
/// so the count stays below the length.
pub proof fn lemma_count_better_lt_len(recs: Seq<Record>, map_id: Seq<char>, t: int, w: int)
    requires
        0 <= w < recs.len(),
        recs[w].map_id@ == map_id,
        recs[w].time >= t,
    ensures
        count_better(recs, map_id, t) < recs.len(),
    decreases recs.len(),
{
    if w == recs.len() - 1 {
        lemma_count_better_le_len(recs.drop_last(), map_id, t);
    } else {
        lemma_count_better_lt_len(recs.drop_last(), map_id, t, w);
    }
}

/// The count reads only each record's map id and time, so two sequences that
/// agree on those agree on the count.
pub proof fn lemma_count_better_congruent(
    s1: Seq<Record>,
    s2: Seq<Record>,
    map_id: Seq<char>,
    t: int,
)
    requires
        s1.len() == s2.len(),
        forall|i: int|
            0 <= i < s1.len() ==> ((#[trigger] s1[i]).map_id@ == map_id <==> (
            #[trigger] s2[i]).map_id@ == map_id),
        forall|i: int|
            0 <= i < s1.len() && (#[trigger] s1[i]).map_id@ == map_id ==> s1[i].time == s2[i].time,
    ensures
        count_better(s1, map_id, t) == count_better(s2, map_id, t),
    decreases s1.len(),
{
    if s1.len() > 0 {
        lemma_count_better_congruent(s1.drop_last(), s2.drop_last(), map_id, t);
    }
}

/// Counting with a weaker threshold never counts more.
pub proof fn lemma_count_better_monotone(recs: Seq<Record>, map_id: Seq<char>, t1: int, t2: int)
    requires
        t1 <= t2,
    ensures
        count_better(recs, map_id, t1) <= count_better(recs, map_id, t2),
    decreases recs.len(),
{
    if recs.len() > 0 {
        lemma_count_better_monotone(recs.drop_last(), map_id, t1, t2);
    }
}

/// Exact count of the records of `map_id` with a time strictly below `t`.
pub fn count_better_exec(records: &Vec<Record>, map_id: &str, t: i32) -> (c: usize)
    ensures
        c == count_better(records@, map_id@, t as int),
{
    let n = records.len();
    let mut c: usize = 0;
    let mut j: usize = 0;
    while j < n
        invariant
            j <= n,
            c == count_better(records@.take(j as int), map_id@, t as int),
        decreases n - j,
    {
        proof {
            assert(records@.take(j + 1).drop_last() =~= records@.take(j as int));
            lemma_count_better_le_len(records@.take(j as int), map_id@, t as int);
        }
        if records[j].time < t && crate::store::str_eq(records[j].map_id.as_str(), map_id) {
            c += 1;
        }
        j += 1;
    }
    proof {
        assert(records@.take(n as int) =~= records@);
    }
    c
}

impl crate::store::Leaderboard {
    /// Recompute the rank of every record of the given map so that rank order
    /// matches ascending time with ties sharing a rank; every other record,
    /// and the other tables, are untouched.
    pub fn update_ranks(&mut self, map_id: &str)
        ensures
            final(self).players == old(self).players,
            final(self).maps == old(self).maps,
            final(self).banned == old(self).banned,
            final(self).records@.len() == old(self).records@.len(),
            forall|i: int|
                0 <= i < final(self).records@.len() && (#[trigger] old(self).records@[i]).map_id@
                    != map_id@ ==> final(self).records@[i] == old(self).records@[i],
            forall|i: int|
                0 <= i < final(self).records@.len() && (#[trigger] old(self).records@[i]).map_id@
                    == map_id@ ==> {
                    &&& crate::model::same_core(final(self).records@[i], old(self).records@[i])
                    &&& final(self).records@[i].rank == spec_rank(
                        old(self).records@,
                        map_id@,
                        old(self).records@[i].time as int,
                    )
                },
    {
        let n = self.records.len();
        let mut i: usize = 0;
        while i < n
            invariant
                i <= n,
                n == self.records@.len(),
                self.records@.len() == old(self).records@.len(),
                self.players == old(self).players,
                self.maps == old(self).maps,
                self.banned == old(self).banned,
                forall|q: int| i <= q < n ==> self.records@[q] == old(self).records@[q],
                forall|q: int|
                    0 <= q < i && (#[trigger] old(self).records@[q]).map_id@ != map_id@
                        ==> self.records@[q] == old(self).records@[q],
                forall|q: int|
                    0 <= q < i && (#[trigger] old(self).records@[q]).map_id@ == map_id@ ==> {
                        &&& crate::model::same_core(self.records@[q], old(self).records@[q])
                        &&& self.records@[q].rank == spec_rank(
                            old(self).records@,
                            map_id@,
                            old(self).records@[q].time as int,
                        )
                    },
            decreases n - i,
        {
            if crate::store::str_eq(self.records[i].map_id.as_str(), map_id) {
                let t = self.records[i].time;
                let c = count_better_exec(&self.records, map_id, t);
                proof {
                    lemma_count_better_congruent(
                        self.records@,
                        old(self).records@,
                        map_id@,
                        t as int,
                    );
                    lemma_count_better_lt_len(old(self).records@, map_id@, t as int, i as int);
                }
                let mut r = self.records[i].clone();
                r.rank = c + 1;
                self.records.set(i, r);
            }
            i += 1;
        }
    }
}

} // verus!
