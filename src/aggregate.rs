use vstd::prelude::*;
use crate::station::{Summary, single, observe, combine};
use crate::line::{record_name, record_temp};

verus! {

/// One observation: a station name and its temperature scaled by ten.
pub type Record = (Seq<u8>, int);

/// Per-station summaries, keyed by station name.
pub type Table = Map<Seq<u8>, Summary>;

/// The table after one more observation.
pub open spec fn observe_record(m: Table, r: Record) -> Table {
    if m.contains_key(r.0) {
        m.insert(r.0, observe(m[r.0], r.1))
    } else {
        m.insert(r.0, single(r.1))
    }
}

/// The table after a sequence of observations, in order.
pub open spec fn aggregate(m: Table, recs: Seq<Record>) -> Table
    decreases recs.len(),
{
    if recs.len() == 0 {
        m
    } else {
        observe_record(aggregate(m, recs.drop_last()), recs.last())
    }
}

/// The observations that record lines denote.
pub open spec fn records_of(ls: Seq<Seq<u8>>) -> Seq<Record> {
    ls.map_values(|l: Seq<u8>| (record_name(l), record_temp(l)))
}

/// Two tables combined station by station.
pub open spec fn merge(a: Table, b: Table) -> Table {
    Map::new(
        |k: Seq<u8>| a.contains_key(k) || b.contains_key(k),
        |k: Seq<u8>|
            if a.contains_key(k) && b.contains_key(k) {
                combine(a[k], b[k])
            } else if a.contains_key(k) {
                a[k]
            } else {
                b[k]
            },
    )
}

pub proof fn lemma_aggregate_push(m: Table, recs: Seq<Record>, r: Record)
    ensures
        aggregate(m, recs.push(r)) == observe_record(aggregate(m, recs), r),
{
    assert(recs.push(r).drop_last() == recs);
}

pub proof fn lemma_records_of_push(ls: Seq<Seq<u8>>, l: Seq<u8>)
    ensures
        records_of(ls.push(l)) == records_of(ls).push((record_name(l), record_temp(l))),
{
    assert(records_of(ls.push(l)) =~= records_of(ls).push((record_name(l), record_temp(l))));
}

} // verus!

verus! {

/// All tables combined, the last first.
pub open spec fn merge_all(ts: Seq<Table>) -> Table
    decreases ts.len(),
{
    if ts.len() == 0 {
        Map::empty()
    } else {
        merge(merge_all(ts.drop_first()), ts[0])
    }
}

/// Combining keeps every name of the first table and never lowers a count.
pub proof fn lemma_merge_grows(a: Table, b: Table)
    ensures
        forall|k: Seq<u8>| #[trigger] a.contains_key(k) ==> merge(a, b).contains_key(k)
            && a[k].count <= merge(a, b)[k].count,
        forall|k: Seq<u8>| #[trigger] b.contains_key(k) ==> merge(a, b).contains_key(k)
            && b[k].count <= merge(a, b)[k].count,
{
}

/// The tables from position `r` on combine into a part of all of them.
pub proof fn lemma_merge_all_suffix(ts: Seq<Table>, r: int)
    requires
        0 <= r <= ts.len(),
    ensures
        forall|k: Seq<u8>| #[trigger] merge_all(ts.subrange(r, ts.len() as int)).contains_key(k)
            ==> merge_all(ts).contains_key(k)
            && merge_all(ts.subrange(r, ts.len() as int))[k].count <= merge_all(ts)[k].count,
    decreases r,
{
    if r == 0 {
        assert(ts.subrange(0, ts.len() as int) == ts);
    } else {
        let s1 = ts.subrange(r - 1, ts.len() as int);
        assert(s1.drop_first() == ts.subrange(r, ts.len() as int));
        lemma_merge_grows(merge_all(s1.drop_first()), s1[0]);
        lemma_merge_all_suffix(ts, r - 1);
        assert(merge_all(s1) == merge(merge_all(s1.drop_first()), s1[0]));
        assert forall|k: Seq<u8>| #[trigger] merge_all(ts.subrange(r, ts.len() as int)).contains_key(k)
            implies merge_all(ts).contains_key(k)
            && merge_all(ts.subrange(r, ts.len() as int))[k].count <= merge_all(ts)[k].count by {
            assert(merge_all(s1).contains_key(k));
        }
    }
}

/// Combining with a table that gains one new name.
pub proof fn lemma_merge_insert(a: Table, b: Table, k: Seq<u8>, v: Summary)
    requires
        !b.contains_key(k),
    ensures
        merge(a, b.insert(k, v)) == if a.contains_key(k) {
            merge(a, b).insert(k, combine(a[k], v))
        } else {
            merge(a, b).insert(k, v)
        },
{
    assert(merge(a, b.insert(k, v)) =~= if a.contains_key(k) {
        merge(a, b).insert(k, combine(a[k], v))
    } else {
        merge(a, b).insert(k, v)
    });
}

pub proof fn lemma_merge_empty(a: Table)
    ensures
        merge(a, Map::empty()) == a,
{
    assert(merge(a, Map::empty()) =~= a);
}

} // verus!
