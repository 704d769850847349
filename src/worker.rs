use vstd::prelude::*;
use crate::aggregate::{Record, Table, observe_record, aggregate, records_of, lemma_aggregate_push, lemma_records_of_push, merge, lemma_merge_insert, lemma_merge_empty, merge_all, lemma_merge_all_suffix};
use crate::line::{Line, check_record, is_record, record_temp, lemma_temp_bound, last_semicolon};
use crate::lines::{NEWLINE, tail, lines, content, lemma_lines_segment, lemma_lines_concat, lemma_content_len_is, no_newline};
use crate::ref_hashmap::{RefHashMap, map_of, keys_ascending, lemma_map_of};
use crate::order::{lex_lt, lemma_lex_trichotomy};
use crate::search::find_byte;
use crate::station::{Station, Summary, MAX_COUNT, temp_in_range};

verus! {

/// Initial capacity of each parser's table.
pub const TABLE_CAPACITY: usize = 512;

/// Every line of the block's content is a record.
pub open spec fn block_well_formed(b: Seq<u8>) -> bool {
    forall|i: int| 0 <= i < lines(content(b)).len() ==> is_record(#[trigger] lines(content(b))[i])
}

/// The observations of a block: one per line of its content.
pub open spec fn block_records(b: Seq<u8>) -> Seq<Record> {
    records_of(lines(content(b)))
}

proof fn lemma_record_in_range(l: Seq<u8>)
    requires
        is_record(l),
    ensures
        temp_in_range(record_temp(l)),
{
    lemma_temp_bound(l.subrange(last_semicolon(l) + 1, l.len() as int));
}

/// One line of a text, from `start` to the next newline or the end.
proof fn lemma_segment_step(c: Seq<u8>, start: int, stop: int)
    requires
        0 <= start <= stop <= c.len(),
        start < c.len(),
        tail(c.subrange(0, start)).len() == 0,
        no_newline(c.subrange(start, stop)),
        stop == c.len() || c[stop] == NEWLINE,
    ensures
        ({
            let seg = c.subrange(start, stop);
            let next = if stop < c.len() { stop + 1 } else { stop };
            &&& lines(c.subrange(0, next)) == if seg.len() > 0 { lines(c.subrange(0, start)).push(seg) } else { lines(c.subrange(0, start)) }
            &&& next < c.len() ==> tail(c.subrange(0, next)).len() == 0
            &&& seg.len() > 0 ==> lines(c.subrange(0, start)).len() < lines(c).len()
            &&& seg.len() > 0 ==> lines(c)[lines(c.subrange(0, start)).len() as int] == seg
        }),
{
    let p = c.subrange(0, start);
    let seg = c.subrange(start, stop);
    let rest = c.subrange(start, c.len() as int);
    assert(c == p + rest);
    lemma_lines_concat(p, rest);
    lemma_lines_segment(p, seg);
    lemma_lines_segment(Seq::<u8>::empty(), seg);
    assert(Seq::<u8>::empty() + seg == seg);
    assert(lines(Seq::<u8>::empty()) =~= Seq::<Seq<u8>>::empty());
    if stop < c.len() {
        let more = c.subrange(stop + 1, c.len() as int);
        assert(rest == seg.push(NEWLINE) + more);
        lemma_lines_concat(seg.push(NEWLINE), more);
        assert(c.subrange(0, stop + 1) == (p + seg).push(NEWLINE));
        if seg.len() > 0 {
            assert(lines(rest) == seq![seg] + lines(more));
        }
    } else {
        assert(rest == seg);
        assert(c.subrange(0, stop) == p + seg);
    }
    if seg.len() == 0 {
        assert(p + seg == p);
    }
}

/// Whether every line of the block's content is a record.
pub fn check_block(buf: &[u8]) -> (r: bool)
    ensures
        r == block_well_formed(buf@),
{
    let len: usize = buf.len();
    let end: usize = match find_byte(0, buf) {
        Some(z) => z,
        None => len,
    };
    proof {
        lemma_content_len_is(buf@, end as int);
    }
    let ghost c = content(buf@);
    assert(c == buf@.subrange(0, end as int));
    assert(c.subrange(0, 0) =~= Seq::<u8>::empty());
    assert(lines(Seq::<u8>::empty()) =~= Seq::<Seq<u8>>::empty());
    let mut start: usize = 0;
    while start < end
        invariant
            start <= end <= len,
            len == buf@.len(),
            c == buf@.subrange(0, end as int),
            c == content(buf@),
            start < end ==> tail(c.subrange(0, start as int)).len() == 0,
            forall|i: int| 0 <= i < lines(c.subrange(0, start as int)).len()
                ==> is_record(#[trigger] lines(c.subrange(0, start as int))[i]),
            start < end ==> forall|i: int| 0 <= i < lines(c.subrange(0, start as int)).len()
                ==> #[trigger] lines(c)[i] == lines(c.subrange(0, start as int))[i],
        decreases end - start,
    {
        let ghost p = c.subrange(0, start as int);
        let window = &buf[start..end];
        let stop: usize = match find_byte(NEWLINE, window) {
            Some(i) => start + i,
            None => end,
        };
        let next: usize = if stop < end { stop + 1 } else { stop };
        let seg = &buf[start..stop];
        proof {
            assert(seg@ == c.subrange(start as int, stop as int));
            assert(forall|j: int| 0 <= j < seg@.len() ==> seg@[j] == window@[j]);
            lemma_segment_step(c, start as int, stop as int);
            lemma_prefix_lines(c, start as int, next as int);
        }
        if start < stop {
            if !check_record(seg) {
                assert(!is_record(lines(c)[lines(p).len() as int]));
                return false;
            }
        }
        start = next;
    }
    assert(c.subrange(0, end as int) == c);
    true
}

/// The lines of a text that ends a line lead the lines of any longer text.
proof fn lemma_prefix_lines(c: Seq<u8>, start: int, next: int)
    requires
        0 <= start <= next <= c.len(),
        next < c.len() ==> tail(c.subrange(0, next)).len() == 0,
    ensures
        next < c.len() ==> forall|i: int| 0 <= i < lines(c.subrange(0, next)).len()
            ==> #[trigger] lines(c)[i] == lines(c.subrange(0, next))[i],
{
    if next < c.len() {
        let a = c.subrange(0, next);
        let b = c.subrange(next, c.len() as int);
        assert(c == a + b);
        lemma_lines_concat(a, b);
    }
}

/// Adds one parsed record to the table.
pub fn update(map: &mut RefHashMap, line: Line)
    requires
        old(map).wf(),
        old(map).has_room(1),
        temp_in_range(line.measurement as int),
    ensures
        final(map).wf(),
        final(map)@ == observe_record(old(map)@, (line.station@, line.measurement as int)),
{
    let station = Station::new(line.measurement);
    let entry = map.entry_ref(line.station);
    let entry = entry.and_modify(map, &station);
    entry.or_insert_with(map, station);
}

/// Parses every record of a block into the table. The block's content ends
/// at its first zero byte; each non-empty line of it is one record, the
/// last line with or without its newline.
pub fn buf_parse(map: &mut RefHashMap, buf: &[u8])
    requires
        old(map).wf(),
        old(map).has_room(buf@.len() as int),
        buf@.len() < MAX_COUNT,
        block_well_formed(buf@),
    ensures
        final(map).wf(),
        final(map)@ == aggregate(old(map)@, block_records(buf@)),
{
    let len: usize = buf.len();
    let end: usize = match find_byte(0, buf) {
        Some(z) => z,
        None => len,
    };
    proof {
        lemma_content_len_is(buf@, end as int);
    }
    let ghost c = content(buf@);
    assert(c == buf@.subrange(0, end as int));
    assert(c.subrange(0, 0) == Seq::<u8>::empty());
    assert(aggregate(old(map)@, records_of(lines(Seq::<u8>::empty()))) == old(map)@) by {
        assert(records_of(lines(Seq::<u8>::empty())) =~= Seq::<Record>::empty());
    }
    let mut start: usize = 0;
    while start < end
        invariant
            start <= end <= len,
            len == buf@.len(),
            len < MAX_COUNT,
            c == buf@.subrange(0, end as int),
            block_well_formed(buf@),
            c == content(buf@),
            start < end ==> tail(c.subrange(0, start as int)).len() == 0,
            map.wf(),
            map@ == aggregate(old(map)@, records_of(lines(c.subrange(0, start as int)))),
            forall|k: Seq<u8>| #[trigger] map@.contains_key(k) ==> map@[k].count + (len - start) <= MAX_COUNT,
        decreases end - start,
    {
        let ghost p = c.subrange(0, start as int);
        let window = &buf[start..end];
        let stop: usize = match find_byte(NEWLINE, window) {
            Some(i) => start + i,
            None => end,
        };
        let next: usize = if stop < end { stop + 1 } else { stop };
        let seg = &buf[start..stop];
        proof {
            assert(seg@ == c.subrange(start as int, stop as int));
            assert(forall|j: int| 0 <= j < seg@.len() ==> seg@[j] == window@[j]);
            lemma_segment_step(c, start as int, stop as int);
        }
        if start < stop {
            proof {
                assert(is_record(lines(c)[lines(p).len() as int]));
                lemma_record_in_range(seg@);
                assert(map.has_room(1));
            }
            let line = Line::parse_bytes(seg);
            update(map, line);
            proof {
                lemma_records_of_push(lines(p), seg@);
                lemma_aggregate_push(old(map)@, records_of(lines(p)), (line.station@, line.measurement as int));
                assert(records_of(lines(p).push(seg@)) == records_of(lines(p)).push((line.station@, line.measurement as int)));
                assert(lines(c.subrange(0, next as int)) == lines(p).push(seg@));
                assert(map@ == aggregate(old(map)@, records_of(lines(c.subrange(0, next as int)))));
            }
        } else {
            assert(lines(c.subrange(0, next as int)) == lines(p));
        }
        start = next;
    }
    assert(c.subrange(0, end as int) == c);
}

} // verus!

verus! {

/// Merges the stations of `other` into `total`, combining the accumulators
/// of names that both hold.
pub fn merge_into(total: &mut RefHashMap, other: RefHashMap)
    requires
        old(total).wf(),
        other.wf(),
        forall|k: Seq<u8>| old(total)@.contains_key(k) && other@.contains_key(k)
            ==> #[trigger] old(total)@[k].count + other@[k].count <= MAX_COUNT,
    ensures
        final(total).wf(),
        final(total)@ == merge(old(total)@, other@),
{
    proof {
        other.lemma_view();
        lemma_map_of(other.entries());
    }
    let ghost e = other.entries();
    let ghost a = total@;
    let n: usize = other.len();
    let mut it = other.into_iter();
    let mut i: usize = 0;
    proof {
        assert(e.subrange(0, 0) =~= Seq::<(Seq<u8>, Summary)>::empty());
        lemma_merge_empty(a);
        assert(e.subrange(0, e.len() as int) == e);
    }
    while i < n
        invariant
            n == e.len(),
            i <= n,
            keys_ascending(e),
            it.wf(),
            it.remaining() == e.subrange(i as int, n as int),
            total.wf(),
            total@ == merge(a, map_of(e.subrange(0, i as int))),
            forall|j: int| 0 <= j < e.len() ==> #[trigger] other@.contains_key(e[j].0) && other@[e[j].0] == e[j].1,
            forall|k: Seq<u8>| a.contains_key(k) && other@.contains_key(k)
                ==> #[trigger] a[k].count + other@[k].count <= MAX_COUNT,
        decreases n - i,
    {
        let ghost prefix = e.subrange(0, i as int);
        let item = it.next();
        let (name, station) = match item {
            Some(x) => x,
            None => {
                assert(false);
                return;
            },
        };
        let ghost k = name@;
        proof {
            assert(e[i as int] == (k, station@));
            assert(keys_ascending(prefix));
            lemma_map_of(prefix);
            assert(!map_of(prefix).contains_key(k)) by {
                if map_of(prefix).contains_key(k) {
                    let j = choose|j: int| 0 <= j < prefix.len() && prefix[j].0 == k;
                    assert(lex_lt(e[j].0, e[i as int].0));
                    lemma_lex_trichotomy(e[j].0, k);
                }
            }
            assert(e.subrange(0, i + 1) == prefix.push(e[i as int]));
            assert(prefix.push(e[i as int]).drop_last() == prefix);
            assert(map_of(e.subrange(0, i + 1)) == map_of(prefix).insert(k, station@));
            lemma_merge_insert(a, map_of(prefix), k, station@);
            assert(other@.contains_key(e[i as int].0));
            total.lemma_view();
        }
        let entry = total.entry_ref(name.as_slice());
        let entry = entry.and_modify(total, &station);
        entry.or_insert_with(total, station);
        i += 1;
    }
    proof {
        assert(e.subrange(0, n as int) == e);
        other.lemma_view();
    }
}

} // verus!

verus! {

/// The tables' views, in order.
pub open spec fn views(ts: Seq<RefHashMap>) -> Seq<Table> {
    ts.map_values(|t: RefHashMap| t@)
}

/// Combines the tables of all parsers into one.
pub fn join_tables(tables: Vec<RefHashMap>) -> (r: RefHashMap)
    requires
        forall|i: int| 0 <= i < tables@.len() ==> (#[trigger] tables@[i]).wf(),
        forall|k: Seq<u8>| #[trigger] merge_all(views(tables@)).contains_key(k)
            ==> merge_all(views(tables@))[k].count <= MAX_COUNT,
    ensures
        r.wf(),
        r@ == merge_all(views(tables@)),
{
    let ghost vs = views(tables@);
    let ghost n = tables@.len() as int;
    let mut tables = tables;
    let mut total = RefHashMap::with_capacity(TABLE_CAPACITY);
    proof {
        assert(vs.subrange(n, n) =~= Seq::<Table>::empty());
    }
    while tables.len() > 0
        invariant
            tables@.len() <= n,
            n == vs.len(),
            forall|i: int| 0 <= i < tables@.len() ==> (#[trigger] tables@[i]).wf() && tables@[i]@ == vs[i],
            forall|k: Seq<u8>| #[trigger] merge_all(vs).contains_key(k) ==> merge_all(vs)[k].count <= MAX_COUNT,
            total.wf(),
            total@ == merge_all(vs.subrange(tables@.len() as int, n)),
        decreases tables@.len(),
    {
        let r: usize = tables.len();
        let t = tables.pop().unwrap();
        proof {
            let s1 = vs.subrange(r - 1, n);
            assert(s1.drop_first() == vs.subrange(r as int, n));
            assert(s1[0] == t@);
            lemma_merge_all_suffix(vs, r - 1);
            assert forall|k: Seq<u8>| total@.contains_key(k) && t@.contains_key(k)
                implies #[trigger] total@[k].count + t@[k].count <= MAX_COUNT by {
                assert(merge_all(s1).contains_key(k));
            }
        }
        merge_into(&mut total, t);
    }
    proof {
        assert(vs.subrange(0, n) == vs);
    }
    total
}

} // verus!
