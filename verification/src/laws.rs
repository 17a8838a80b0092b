//! The store-wide laws: rank ordering, overview shape, and feed ordering.
use vstd::prelude::*;

use crate::listing::{clamped_limit, on_map, page_of};
use crate::model::Record;
use crate::ordering::{
    RecordOrder, lemma_sort_records_contains, lemma_sort_records_props, rec_le, sort_records_spec,
};
use crate::overview::{
    OVERVIEW_SIZE, first_time_index, lemma_first_time_index, map_ranked, map_sorted, overview_spec,
    prefix_up_to, ranked_of,
};
use crate::model::valid_record;
use crate::rank::{count_better, lemma_count_better_monotone};
use crate::store::{Leaderboard, record_index};
use crate::submit::stamp_after;

verus! {

/// No record of the map beats `t`, so nothing is counted.
proof fn lemma_count_better_zero(recs: Seq<Record>, map_id: Seq<char>, t: int)
    requires
        forall|j: int|
            0 <= j < recs.len() && (#[trigger] recs[j]).map_id@ == map_id ==> recs[j].time >= t,
    ensures
        count_better(recs, map_id, t) == 0,
    decreases recs.len(),
{
    if recs.len() > 0 {
        assert(recs[recs.len() - 1] == recs.last());
        lemma_count_better_zero(recs.drop_last(), map_id, t);
    }
}

/// In a well-formed store, ranks within one map follow the times: an equal
/// time means an equal rank, and a better or equal time never ranks worse.
pub proof fn lemma_rank_follows_time(lb: Leaderboard, i: int, j: int)
    requires
        lb.well_formed(),
        0 <= i < lb.records@.len(),
        0 <= j < lb.records@.len(),
        lb.records@[i].map_id@ == lb.records@[j].map_id@,
    ensures
        lb.records@[i].time <= lb.records@[j].time ==> lb.records@[i].rank <= lb.records@[j].rank,
        lb.records@[i].time == lb.records@[j].time ==> lb.records@[i].rank == lb.records@[j].rank,
{
    let mid = lb.records@[i].map_id@;
    if lb.records@[i].time <= lb.records@[j].time {
        lemma_count_better_monotone(
            lb.records@,
            mid,
            lb.records@[i].time as int,
            lb.records@[j].time as int,
        );
    }
    if lb.records@[j].time <= lb.records@[i].time {
        lemma_count_better_monotone(
            lb.records@,
            mid,
            lb.records@[j].time as int,
            lb.records@[i].time as int,
        );
    }
}

/// In a well-formed store, a record no other record of its map beats holds
/// rank 1.
pub proof fn lemma_best_rank_one(lb: Leaderboard, i: int)
    requires
        lb.well_formed(),
        0 <= i < lb.records@.len(),
        forall|j: int|
            0 <= j < lb.records@.len() && (#[trigger] lb.records@[j]).map_id@
                == lb.records@[i].map_id@ ==> lb.records@[i].time <= lb.records@[j].time,
    ensures
        lb.records@[i].rank == 1,
{
    lemma_count_better_zero(lb.records@, lb.records@[i].map_id@, lb.records@[i].time as int);
}

/// Any entry of a map's sorted list is one of the store's records of that
/// map.
proof fn lemma_sorted_elem_source(lb: Leaderboard, map_id: Seq<char>, w: int) -> (u: int)
    requires
        0 <= w < map_sorted(lb, map_id).len(),
    ensures
        0 <= u < lb.records@.len(),
        lb.records@[u] == map_sorted(lb, map_id)[w],
        lb.records@[u].map_id@ == map_id,
{
    broadcast use vstd::prelude::Seq::lemma_filter_contains_rev;
    broadcast use vstd::prelude::Seq::lemma_filter_pred;

    let filtered = lb.records@.filter(on_map(map_id));
    let x = map_sorted(lb, map_id)[w];
    assert(map_sorted(lb, map_id).contains(x));
    lemma_sort_records_contains(filtered, RecordOrder::TimeAsc, x);
    assert(filtered.contains(x));
    let fi = choose|fi: int| 0 <= fi < filtered.len() && filtered[fi] == x;
    assert(on_map(map_id)(filtered[fi]));
    assert(lb.records@.contains(x));
    let u = choose|u: int| 0 <= u < lb.records@.len() && lb.records@[u] == x;
    u
}

/// The record a player holds on a map occupies some position of the map's
/// sorted list.
proof fn lemma_player_record_position(lb: Leaderboard, map_id: Seq<char>, pid: Seq<char>) -> (w:
    int)
    requires
        record_index(lb.records@, map_id, pid) >= 0,
    ensures
        0 <= w < map_sorted(lb, map_id).len(),
        map_sorted(lb, map_id)[w] == lb.records@[record_index(lb.records@, map_id, pid)],
{
    let k = record_index(lb.records@, map_id, pid);
    crate::store::lemma_record_index(lb.records@, map_id, pid);
    let filtered = lb.records@.filter(on_map(map_id));
    lb.records@.lemma_filter_contains(on_map(map_id), k);
    lemma_sort_records_contains(filtered, RecordOrder::TimeAsc, lb.records@[k]);
    let w = choose|w: int|
        0 <= w < map_sorted(lb, map_id).len() && map_sorted(lb, map_id)[w] == lb.records@[k];
    w
}

/// When a player holds the sole best time on a map with a full window of
/// records, the overview opens with that player's own entry.
pub proof fn lemma_overview_shows_leader(lb: Leaderboard, pid: Seq<char>, map_id: Seq<char>)
    requires
        lb.well_formed(),
        record_index(lb.records@, map_id, pid) >= 0,
        lb.records@.filter(on_map(map_id)).len() >= OVERVIEW_SIZE,
        forall|j: int|
            0 <= j < lb.records@.len() && j != record_index(lb.records@, map_id, pid) && (
            #[trigger] lb.records@[j]).map_id@ == map_id ==> lb.records@[j].time > lb.records@[
                record_index(lb.records@, map_id, pid)
            ].time,
    ensures
        overview_spec(lb, pid, map_id).len() == OVERVIEW_SIZE,
        overview_spec(lb, pid, map_id)[0].player_id@ == pid,
        overview_spec(lb, pid, map_id)[0].time == lb.records@[
            record_index(lb.records@, map_id, pid)
        ].time,
{
    let k = record_index(lb.records@, map_id, pid);
    crate::store::lemma_record_index(lb.records@, map_id, pid);
    let srecs = map_sorted(lb, map_id);
    let filtered = lb.records@.filter(on_map(map_id));
    lemma_sort_records_props(filtered, RecordOrder::TimeAsc);
    let t = lb.records@[k].time as int;
    let w = lemma_player_record_position(lb, map_id, pid);
    // the head of the sorted list is the player's record
    let u = lemma_sorted_elem_source(lb, map_id, 0);
    if u != k {
        assert(lb.records@[u].time > lb.records@[k].time);
        if w > 0 {
            assert(rec_le(srecs[0], srecs[w], RecordOrder::TimeAsc));
        }
        assert(false);
    }
    assert(srecs[0] == lb.records@[k]);
    assert(srecs[0].time == t);
    lemma_first_time_index(srecs, t);
    if first_time_index(srecs, t) != 0 {
        assert(false);
    }
    assert(overview_spec(lb, pid, map_id) == prefix_up_to(
        map_ranked(lb, map_id),
        OVERVIEW_SIZE as int,
    ));
    assert(map_ranked(lb, map_id).len() == srecs.len());
    assert(overview_spec(lb, pid, map_id)[0] == map_ranked(lb, map_id)[0]);
    assert(map_ranked(lb, map_id)[0] == ranked_of(lb, srecs[0]));
}

/// For a player far down a full list — no tie at their time — the overview
/// is exactly one window: the three leaders followed by a block that
/// contains the player's own entry, fifteen entries in all.
pub proof fn lemma_overview_window(lb: Leaderboard, pid: Seq<char>, map_id: Seq<char>)
    requires
        lb.well_formed(),
        record_index(lb.records@, map_id, pid) >= 0,
        first_time_index(
            map_sorted(lb, map_id),
            lb.records@[record_index(lb.records@, map_id, pid)].time as int,
        ) >= OVERVIEW_SIZE,
        forall|j: int|
            0 <= j < lb.records@.len() && j != record_index(lb.records@, map_id, pid) && (
            #[trigger] lb.records@[j]).map_id@ == map_id ==> lb.records@[j].time != lb.records@[
                record_index(lb.records@, map_id, pid)
            ].time,
    ensures
        overview_spec(lb, pid, map_id).len() == OVERVIEW_SIZE,
        forall|q: int|
            0 <= q < 3 ==> overview_spec(lb, pid, map_id)[q] == map_ranked(lb, map_id)[q],
        exists|q: int|
            3 <= q < OVERVIEW_SIZE && overview_spec(lb, pid, map_id)[q].player_id@ == pid,
{
    let k = record_index(lb.records@, map_id, pid);
    crate::store::lemma_record_index(lb.records@, map_id, pid);
    let srecs = map_sorted(lb, map_id);
    let s = map_ranked(lb, map_id);
    let t = lb.records@[k].time as int;
    let idx = first_time_index(srecs, t);
    lemma_first_time_index(srecs, t);
    let len = s.len() as int;
    assert(s.len() == srecs.len());
    assert(idx < len);
    assert(len >= OVERVIEW_SIZE + 1);
    let start0 = idx - 6;
    let end0 = idx + 6;
    let start1 = if end0 > len {
        start0 - (end0 - len)
    } else {
        start0
    };
    let end1 = if end0 > len {
        len
    } else {
        end0
    };
    assert(start1 >= 4);
    let out = overview_spec(lb, pid, map_id);
    assert(out == s.take(3) + s.subrange(start1, end1));
    assert(out.len() == OVERVIEW_SIZE);
    assert forall|q: int| 0 <= q < 3 implies out[q] == s[q] by {
        assert(out[q] == s.take(3)[q]);
    }
    // the pivot position lies inside the block
    assert(start1 <= idx < end1);
    let qpos = 3 + (idx - start1);
    assert(out[qpos] == s.subrange(start1, end1)[idx - start1]);
    assert(out[qpos] == s[idx]);
    assert(s[idx] == ranked_of(lb, srecs[idx]));
    // and the entry at the pivot is the player's own record
    let u = lemma_sorted_elem_source(lb, map_id, idx);
    if u != k {
        assert(lb.records@[u].time != lb.records@[k].time);
        assert(false);
    }
    assert(out[qpos].player_id@ == pid);
}

/// An improvement written with a clock reading later than the record's
/// current update stamp strictly advances that stamp.
pub proof fn lemma_update_stamp_advances(prev: Record, now: u64)
    requires
        valid_record(prev),
        now > prev.updated_at,
    ensures
        stamp_after(now, prev.created_at) > prev.updated_at,
{
}

/// The recent-activity feed is ordered strictly by update time descending;
/// equal stamps keep their store order, so the page is deterministic.
pub proof fn lemma_latest_page_sorted(recs: Seq<Record>, offset: int, limit: int)
    requires
        offset >= 0,
    ensures
        ({
            let page = page_of(
                sort_records_spec(recs, RecordOrder::LatestFirst),
                offset,
                clamped_limit(limit),
            );
            forall|i: int, j: int|
                0 <= i < j < page.len() ==> (#[trigger] page[i]).updated_at >= (
                #[trigger] page[j]).updated_at
        }),
{
    let sorted = sort_records_spec(recs, RecordOrder::LatestFirst);
    lemma_sort_records_props(recs, RecordOrder::LatestFirst);
    let page = page_of(sorted, offset, clamped_limit(limit));
    let lo = if offset <= sorted.len() {
        offset
    } else {
        sorted.len() as int
    };
    let hi = if offset + clamped_limit(limit) <= sorted.len() {
        offset + clamped_limit(limit)
    } else {
        sorted.len() as int
    };
    assert(page =~= sorted.subrange(lo, hi));
    assert forall|i: int, j: int|
        0 <= i < j < page.len() implies (#[trigger] page[i]).updated_at >= (
    #[trigger] page[j]).updated_at by {
        assert(page[i] == sorted[lo + i]);
        assert(page[j] == sorted[lo + j]);
        assert(rec_le(sorted[lo + i], sorted[lo + j], RecordOrder::LatestFirst));
    }
}

/// A map's listing page is ordered ascending by time; equal times keep their
/// store order, so the page is deterministic.
pub proof fn lemma_map_page_sorted(recs: Seq<Record>, map_id: Seq<char>, offset: int, limit: int)
    requires
        offset >= 0,
    ensures
        ({
            let page = page_of(
                sort_records_spec(recs.filter(on_map(map_id)), RecordOrder::TimeAsc),
                offset,
                clamped_limit(limit),
            );
            forall|i: int, j: int|
                0 <= i < j < page.len() ==> (#[trigger] page[i]).time <= (#[trigger] page[j]).time
        }),
{
    let sorted = sort_records_spec(recs.filter(on_map(map_id)), RecordOrder::TimeAsc);
    lemma_sort_records_props(recs.filter(on_map(map_id)), RecordOrder::TimeAsc);
    let page = page_of(sorted, offset, clamped_limit(limit));
    let lo = if offset <= sorted.len() {
        offset
    } else {
        sorted.len() as int
    };
    let hi = if offset + clamped_limit(limit) <= sorted.len() {
        offset + clamped_limit(limit)
    } else {
        sorted.len() as int
    };
    assert(page =~= sorted.subrange(lo, hi));
    assert forall|i: int, j: int|
        0 <= i < j < page.len() implies (#[trigger] page[i]).time <= (#[trigger] page[j]).time by {
        assert(page[i] == sorted[lo + i]);
        assert(page[j] == sorted[lo + j]);
        assert(rec_le(sorted[lo + i], sorted[lo + j], RecordOrder::TimeAsc));
    }
}

} // verus!
