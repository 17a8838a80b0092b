//! Stable ordering of records for the read views.
//!
//! One insertion sort serves every listing: ascending by time for per-map
//! views, and most-recently-updated first for the activity feeds. The sort is
//! stable, so ties keep their store order — a deterministic secondary key.
use vstd::prelude::*;

use crate::model::Record;

verus! {

/// The two orders the read views use.
#[derive(Clone, Copy)]
pub enum RecordOrder {
    /// Ascending by time: better records first.
    TimeAsc,
    /// Descending by update timestamp: most recent activity first.
    LatestFirst,
}

/// `a` may stand at or before `b` under the given order.
pub open spec fn rec_le(a: Record, b: Record, o: RecordOrder) -> bool {
    match o {
        RecordOrder::TimeAsc => a.time <= b.time,
        RecordOrder::LatestFirst => a.updated_at >= b.updated_at,
    }
}

/// Insert `x` behind every element it does not have to precede, which keeps
/// the sort stable.
pub open spec fn insert_ordered(s: Seq<Record>, x: Record, o: RecordOrder) -> Seq<Record>
    decreases s.len(),
{
    if s.len() == 0 {
        seq![x]
    } else if rec_le(s[0], x, o) {
        seq![s[0]] + insert_ordered(s.drop_first(), x, o)
    } else {
        seq![x] + s
    }
}

/// Stable insertion sort of `s` under the given order.
pub open spec fn sort_records_spec(s: Seq<Record>, o: RecordOrder) -> Seq<Record>
    decreases s.len(),
{
    if s.len() == 0 {
        Seq::empty()
    } else {
        insert_ordered(sort_records_spec(s.drop_last(), o), s.last(), o)
    }
}

/// Every pair of positions respects the order.
pub open spec fn sorted_by(s: Seq<Record>, o: RecordOrder) -> bool {
    forall|i: int, j: int| 0 <= i < j < s.len() ==> rec_le(#[trigger] s[i], #[trigger] s[j], o)
}

pub proof fn lemma_insert_ordered_props(s: Seq<Record>, x: Record, o: RecordOrder)
    requires
        sorted_by(s, o),
    ensures
        sorted_by(insert_ordered(s, x, o), o),
        insert_ordered(s, x, o).len() == s.len() + 1,
        insert_ordered(s, x, o).to_multiset() == s.to_multiset().insert(x),
    decreases s.len(),
{
    broadcast use vstd::seq_lib::group_seq_properties;
    broadcast use vstd::seq_lib::lemma_multiset_commutative;
    broadcast use vstd::seq_lib::group_to_multiset_ensures;

    let out = insert_ordered(s, x, o);
    if s.len() == 0 {
        assert(out =~= seq![x]);
        assert(seq![x] =~= Seq::empty().push(x));
        assert(out.to_multiset() == s.to_multiset().insert(x));
    } else if rec_le(s[0], x, o) {
        let tail = s.drop_first();
        assert(forall|i: int, j: int|
            0 <= i < j < tail.len() ==> rec_le(#[trigger] tail[i], #[trigger] tail[j], o));
        lemma_insert_ordered_props(tail, x, o);
        let rec = insert_ordered(tail, x, o);
        assert(out =~= seq![s[0]] + rec);
        // head precedes everything in the recursive result
        assert forall|j: int| 0 <= j < rec.len() implies rec_le(s[0], rec[j], o) by {
            assert(rec.to_multiset().contains(rec[j]));
            assert(rec.to_multiset() == tail.to_multiset().insert(x));
            if rec[j] == x {
            } else {
                assert(tail.to_multiset().contains(rec[j]));
                let w = choose|w: int| 0 <= w < tail.len() && tail[w] == rec[j];
                assert(rec_le(s[0], tail[w], o));
            }
        }
        assert(sorted_by(out, o));
        assert(s =~= seq![s[0]] + tail);
        assert(out.to_multiset() =~= s.to_multiset().insert(x)) by {
            assert((seq![s[0]] + rec).to_multiset() == seq![s[0]].to_multiset().add(
                rec.to_multiset(),
            ));
            assert((seq![s[0]] + tail).to_multiset() == seq![s[0]].to_multiset().add(
                tail.to_multiset(),
            ));
        }
    } else {
        assert(out =~= seq![x] + s);
        // x precedes the old head, hence everything in s
        assert forall|j: int| 0 <= j < s.len() implies rec_le(x, s[j], o) by {
            assert(rec_le(x, s[0], o));
            if j > 0 {
                assert(rec_le(s[0], s[j], o));
            }
        }
        assert(sorted_by(out, o));
        assert(out.to_multiset() =~= s.to_multiset().insert(x)) by {
            assert((seq![x] + s).to_multiset() == seq![x].to_multiset().add(s.to_multiset()));
            assert(seq![x] =~= Seq::empty().push(x));
        }
    }
}

pub proof fn lemma_sort_records_props(s: Seq<Record>, o: RecordOrder)
    ensures
        sorted_by(sort_records_spec(s, o), o),
        sort_records_spec(s, o).len() == s.len(),
        sort_records_spec(s, o).to_multiset() == s.to_multiset(),
    decreases s.len(),
{
    broadcast use vstd::seq_lib::group_seq_properties;

    if s.len() > 0 {
        lemma_sort_records_props(s.drop_last(), o);
        lemma_insert_ordered_props(sort_records_spec(s.drop_last(), o), s.last(), o);
        assert(s.to_multiset() == s.drop_last().push(s.last()).to_multiset()) by {
            assert(s =~= s.drop_last().push(s.last()));
        }
        assert(s.drop_last().push(s.last()).to_multiset() == s.drop_last().to_multiset().insert(
            s.last(),
        ));
    }
}

/// Everything sorted is drawn from the input, and conversely.
pub proof fn lemma_sort_records_contains(s: Seq<Record>, o: RecordOrder, x: Record)
    ensures
        sort_records_spec(s, o).contains(x) <==> s.contains(x),
{
    broadcast use vstd::seq_lib::group_seq_properties;
    broadcast use vstd::seq_lib::group_to_multiset_ensures;

    lemma_sort_records_props(s, o);
    let out = sort_records_spec(s, o);
    if out.contains(x) {
        assert(out.to_multiset().contains(x));
        assert(s.to_multiset().contains(x));
    }
    if s.contains(x) {
        assert(s.to_multiset().contains(x));
        assert(out.to_multiset().contains(x));
    }
}

/// Splitting `insert_ordered` at the first position whose element must follow
/// `x`: the result is the prefix, then `x`, then the rest.
pub proof fn lemma_insert_ordered_split(s: Seq<Record>, x: Record, o: RecordOrder, p: int)
    requires
        0 <= p <= s.len(),
        forall|q: int| 0 <= q < p ==> rec_le(#[trigger] s[q], x, o),
        p == s.len() || !rec_le(s[p], x, o),
    ensures
        insert_ordered(s, x, o) =~= s.subrange(0, p) + seq![x] + s.subrange(p, s.len() as int),
    decreases s.len(),
{
    if s.len() == 0 {
        assert(insert_ordered(s, x, o) =~= seq![x]);
    } else if p == 0 {
        assert(!rec_le(s[0], x, o));
        assert(insert_ordered(s, x, o) =~= seq![x] + s);
        assert(s.subrange(0, 0) + seq![x] + s.subrange(0, s.len() as int) =~= seq![x] + s);
    } else {
        assert(rec_le(s[0], x, o));
        let tail = s.drop_first();
        assert forall|q: int| 0 <= q < p - 1 implies rec_le(#[trigger] tail[q], x, o) by {
            assert(tail[q] == s[q + 1]);
        }
        if p < s.len() {
            assert(tail[p - 1] == s[p]);
        }
        lemma_insert_ordered_split(tail, x, o, p - 1);
        assert(insert_ordered(s, x, o) =~= seq![s[0]] + insert_ordered(tail, x, o));
        assert(seq![s[0]] + (tail.subrange(0, p - 1) + seq![x] + tail.subrange(
            p - 1,
            tail.len() as int,
        )) =~= s.subrange(0, p) + seq![x] + s.subrange(p, s.len() as int));
    }
}

/// Compare two records under the given order.
pub fn rec_le_exec(a: &Record, b: &Record, o: RecordOrder) -> (res: bool)
    ensures
        res == rec_le(*a, *b, o),
{
    match o {
        RecordOrder::TimeAsc => a.time <= b.time,
        RecordOrder::LatestFirst => a.updated_at >= b.updated_at,
    }
}

/// Stable insertion sort of the records under the given order.
pub fn sort_records(v: &Vec<Record>, o: RecordOrder) -> (out: Vec<Record>)
    ensures
        out@ == sort_records_spec(v@, o),
{
    let n = v.len();
    let mut out: Vec<Record> = Vec::new();
    let mut i: usize = 0;
    while i < n
        invariant
            i <= n,
            out@ == sort_records_spec(v@.take(i as int), o),
        decreases n - i,
    {
        proof {
            lemma_sort_records_props(v@.take(i as int), o);
        }
        let x = v[i].clone();
        let m = out.len();
        let mut p: usize = 0;
        while p < m && rec_le_exec(&out[p], &x, o)
            invariant
                p <= m,
                m == out.len(),
                forall|q: int| 0 <= q < p ==> rec_le(#[trigger] out@[q], x, o),
            decreases m - p,
        {
            p += 1;
        }
        proof {
            lemma_insert_ordered_split(out@, x, o, p as int);
            assert(v@.take(i + 1).drop_last() =~= v@.take(i as int));
            assert(v@.take(i + 1).last() == v@[i as int]);
        }
        out.insert(p, x);
        proof {
            assert(out@ =~= sort_records_spec(v@.take(i as int), o).subrange(0, p as int)
                + seq![x] + sort_records_spec(v@.take(i as int), o).subrange(
                p as int,
                sort_records_spec(v@.take(i as int), o).len() as int,
            ));
        }
        i += 1;
    }
    proof {
        assert(v@.take(n as int) =~= v@);
    }
    out
}

} // verus!
