use vstd::prelude::*;
use vstd::seq_lib::{to_multiset_remove, to_multiset_contains, to_multiset_len, lemma_seq_union_to_multiset_commutative};
use crate::aggregate::{Record, Table, observe_record, aggregate, merge, merge_all, records_of};
use crate::station::{Summary, single, summary_wf, temp_in_range, lemma_combine_wf};
use crate::lines::{NEWLINE, tail, lines, lemma_lines_concat, lemma_lines_final_newline};
use crate::ref_hashmap::{map_of, keys_ascending, lemma_map_of, lemma_map_of_len};
use crate::order::{lex_lt, lemma_lex_trichotomy, lemma_lex_transitive};
use crate::render::{mean_tenths, lemma_mean_between, results_text, decimal};
use crate::line::{SEMICOLON, MINUS, DOT, ZERO, is_record, record_name, record_temp, last_semicolon, digits_value, all_digits, is_unsigned_temp, unsigned_temp_value};

verus! {

/// Two observations give the same table in either order.
pub proof fn lemma_observe_commutes(m: Table, a: Record, b: Record)
    ensures
        observe_record(observe_record(m, a), b) == observe_record(observe_record(m, b), a),
{
    assert(observe_record(observe_record(m, a), b) =~= observe_record(observe_record(m, b), a));
}

/// Any one observation may be taken last.
pub proof fn lemma_aggregate_remove(m: Table, s: Seq<Record>, i: int)
    requires
        0 <= i < s.len(),
    ensures
        aggregate(m, s) == observe_record(aggregate(m, s.remove(i)), s[i]),
    decreases s.len(),
{
    if i < s.len() - 1 {
        let init = s.drop_last();
        lemma_aggregate_remove(m, init, i);
        assert(s.remove(i).drop_last() == init.remove(i));
        assert(s.remove(i).last() == s.last());
        lemma_observe_commutes(aggregate(m, init.remove(i)), s[i], s.last());
    } else {
        assert(s.remove(i) == s.drop_last());
    }
}

/// The table depends only on the multiset of observations, not on their
/// order: inputs whose records are a permutation of each other aggregate
/// alike.
pub proof fn lemma_permutation(m: Table, r1: Seq<Record>, r2: Seq<Record>)
    requires
        r1.to_multiset() == r2.to_multiset(),
    ensures
        aggregate(m, r1) == aggregate(m, r2),
    decreases r1.len(),
{
    to_multiset_len(r1);
    to_multiset_len(r2);
    if r1.len() > 0 {
        let x = r1.last();
        let n = r1.len() - 1;
        to_multiset_contains(r1, x);
        assert(r1.contains(x)) by {
            assert(r1[n] == x);
        }
        to_multiset_contains(r2, x);
        let j = choose|j: int| 0 <= j < r2.len() && r2[j] == x;
        to_multiset_remove(r1, n);
        to_multiset_remove(r2, j);
        assert(r1.remove(n) == r1.drop_last());
        lemma_permutation(m, r1.drop_last(), r2.remove(j));
        lemma_aggregate_remove(m, r2, j);
    } else {
        assert(r2.len() == 0);
    }
}

/// Observations in two runs give what they give in one.
pub proof fn lemma_aggregate_concat(m: Table, a: Seq<Record>, b: Seq<Record>)
    ensures
        aggregate(m, a + b) == aggregate(aggregate(m, a), b),
    decreases b.len(),
{
    if b.len() == 0 {
        assert(a + b == a);
    } else {
        lemma_aggregate_concat(m, a, b.drop_last());
        assert((a + b).drop_last() == a + b.drop_last());
    }
}

/// Combining with a table built from observations is observing them.
pub proof fn lemma_merge_aggregate(m: Table, recs: Seq<Record>)
    ensures
        merge(m, aggregate(Map::empty(), recs)) == aggregate(m, recs),
    decreases recs.len(),
{
    if recs.len() == 0 {
        assert(merge(m, Map::empty()) =~= m);
    } else {
        lemma_merge_aggregate(m, recs.drop_last());
        let b = aggregate(Map::empty(), recs.drop_last());
        let r = recs.last();
        assert(merge(m, observe_record(b, r)) =~= observe_record(merge(m, b), r));
    }
}

/// The observations of all parts, one part per parser.
pub open spec fn tables_of(parts: Seq<Seq<Record>>) -> Seq<Table> {
    parts.map_values(|p: Seq<Record>| aggregate(Map::empty(), p))
}

/// However the observations are split among parsers, combining the parsers'
/// tables gives the table of all observations: the result does not depend
/// on the number of parsers.
pub proof fn lemma_partition(parts: Seq<Seq<Record>>)
    ensures
        merge_all(tables_of(parts)) == aggregate(Map::empty(), parts.flatten()),
    decreases parts.len(),
{
    if parts.len() > 0 {
        let rest = parts.drop_first();
        assert(tables_of(parts).drop_first() == tables_of(rest));
        lemma_partition(rest);
        lemma_merge_aggregate(aggregate(Map::empty(), rest.flatten()), parts[0]);
        lemma_aggregate_concat(Map::empty(), rest.flatten(), parts[0]);
        lemma_seq_union_to_multiset_commutative(rest.flatten(), parts[0]);
        lemma_permutation(Map::empty(), rest.flatten() + parts[0], parts[0] + rest.flatten());
    } else {
        assert(tables_of(parts) =~= Seq::<Table>::empty());
    }
}

/// Cutting the input after a line break, as the reader does between
/// blocks, leaves the table unchanged: the records of the two pieces are
/// those of the whole, in order.
pub proof fn lemma_block_boundary(m: Table, a: Seq<u8>, b: Seq<u8>)
    requires
        tail(a).len() == 0,
    ensures
        aggregate(m, records_of(lines(a + b)))
            == aggregate(aggregate(m, records_of(lines(a))), records_of(lines(b))),
{
    lemma_lines_concat(a, b);
    assert(records_of(lines(a) + lines(b)) =~= records_of(lines(a)) + records_of(lines(b)));
    lemma_aggregate_concat(m, records_of(lines(a)), records_of(lines(b)));
}

/// The table after the records of each piece, one piece after the other.
pub open spec fn aggregate_pieces(m: Table, pieces: Seq<Seq<u8>>) -> Table
    decreases pieces.len(),
{
    if pieces.len() == 0 {
        m
    } else {
        aggregate_pieces(aggregate(m, records_of(lines(pieces[0]))), pieces.drop_first())
    }
}

/// Wherever an input is cut into blocks, each but the last ending at a line
/// break, parsing the blocks one after the other gives the table of the
/// whole input.
pub proof fn lemma_blocks(m: Table, pieces: Seq<Seq<u8>>)
    requires
        forall|i: int| 0 <= i < pieces.len() - 1 ==> tail(#[trigger] pieces[i]).len() == 0,
    ensures
        aggregate_pieces(m, pieces) == aggregate(m, records_of(lines(pieces.flatten()))),
    decreases pieces.len(),
{
    if pieces.len() == 0 {
        assert(records_of(lines(Seq::<u8>::empty())) =~= Seq::<Record>::empty());
    } else {
        let rest = pieces.drop_first();
        assert forall|i: int| 0 <= i < rest.len() - 1 implies tail(#[trigger] rest[i]).len() == 0 by {
            assert(rest[i] == pieces[i + 1]);
        }
        lemma_blocks(aggregate(m, records_of(lines(pieces[0]))), rest);
        if pieces.len() == 1 {
            assert(rest.flatten() =~= Seq::<u8>::empty());
            assert(pieces.flatten() == pieces[0] + rest.flatten());
            assert(pieces[0] + rest.flatten() =~= pieces[0]);
            assert(records_of(lines(Seq::<u8>::empty())) =~= Seq::<Record>::empty());
        } else {
            assert(tail(pieces[0]).len() == 0);
            lemma_block_boundary(m, pieces[0], rest.flatten());
        }
    }
}

/// An input whose last line lacks its newline gives the table of the same
/// input with the newline.
pub proof fn lemma_final_newline(m: Table, s: Seq<u8>)
    ensures
        aggregate(m, records_of(lines(s.push(NEWLINE)))) == aggregate(m, records_of(lines(s))),
{
    lemma_lines_final_newline(s);
}

/// Observations of in-range temperatures.
pub open spec fn temps_in_range(recs: Seq<Record>) -> bool {
    forall|i: int| 0 <= i < recs.len() ==> temp_in_range(#[trigger] recs[i].1)
}

/// Every station of the table has `min <= mean <= max`.
pub proof fn lemma_min_mean_max(recs: Seq<Record>)
    requires
        temps_in_range(recs),
    ensures
        forall|k: Seq<u8>| #[trigger] aggregate(Map::empty(), recs).contains_key(k) ==> {
            let s = aggregate(Map::empty(), recs)[k];
            &&& summary_wf(s)
            &&& s.min <= mean_tenths(s) <= s.max
        },
    decreases recs.len(),
{
    if recs.len() > 0 {
        let init = recs.drop_last();
        let r = recs.last();
        assert(temps_in_range(init)) by {
            assert forall|i: int| 0 <= i < init.len() implies temp_in_range(#[trigger] init[i].1) by {
                assert(init[i] == recs[i]);
            }
        }
        assert(temp_in_range(recs[recs.len() - 1].1));
        lemma_min_mean_max(init);
        let m = aggregate(Map::empty(), init);
        assert(summary_wf(single(r.1)));
        if m.contains_key(r.0) {
            lemma_combine_wf(m[r.0], single(r.1));
        }
        assert forall|k: Seq<u8>| #[trigger] aggregate(Map::empty(), recs).contains_key(k) implies {
            let s = aggregate(Map::empty(), recs)[k];
            &&& summary_wf(s)
            &&& s.min <= mean_tenths(s) <= s.max
        } by {
            let s = aggregate(Map::empty(), recs)[k];
            if k != r.0 {
                assert(m.contains_key(k));
            }
            lemma_mean_between(s);
        }
    }
}

/// How many observations name `k`.
pub open spec fn name_count(recs: Seq<Record>, k: Seq<u8>) -> nat
    decreases recs.len(),
{
    if recs.len() == 0 {
        0
    } else if recs.last().0 == k {
        name_count(recs.drop_last(), k) + 1
    } else {
        name_count(recs.drop_last(), k)
    }
}

/// The sum of the counts of a list of entries.
pub open spec fn sum_counts(es: Seq<(Seq<u8>, Summary)>) -> int
    decreases es.len(),
{
    if es.len() == 0 {
        0
    } else {
        sum_counts(es.drop_last()) + es.last().1.count
    }
}

/// The sum over some names of how many observations carry each.
pub open spec fn sum_names(ks: Seq<Seq<u8>>, recs: Seq<Record>) -> int
    decreases ks.len(),
{
    if ks.len() == 0 {
        0
    } else {
        sum_names(ks.drop_last(), recs) + name_count(recs, ks.last())
    }
}

/// How many times `x` occurs in `ks`.
pub open spec fn occurrences(ks: Seq<Seq<u8>>, x: Seq<u8>) -> int
    decreases ks.len(),
{
    if ks.len() == 0 {
        0
    } else {
        occurrences(ks.drop_last(), x) + if ks.last() == x { 1int } else { 0int }
    }
}

pub open spec fn distinct(ks: Seq<Seq<u8>>) -> bool {
    forall|i: int, j: int| 0 <= i < j < ks.len() ==> ks[i] != ks[j]
}

/// A station's count in the table is the number of its observations.
proof fn lemma_count_is_name_count(recs: Seq<Record>)
    ensures
        forall|k: Seq<u8>| #[trigger] aggregate(Map::empty(), recs).contains_key(k)
            <==> name_count(recs, k) > 0,
        forall|k: Seq<u8>| #[trigger] aggregate(Map::empty(), recs).contains_key(k)
            ==> aggregate(Map::empty(), recs)[k].count == name_count(recs, k),
    decreases recs.len(),
{
    if recs.len() > 0 {
        let init = recs.drop_last();
        let r = recs.last();
        let m = aggregate(Map::empty(), init);
        lemma_count_is_name_count(init);
        assert(aggregate(Map::empty(), recs) == observe_record(m, r));
        assert forall|k: Seq<u8>| #[trigger] aggregate(Map::empty(), recs).contains_key(k)
            <==> name_count(recs, k) > 0 by {
            if k != r.0 {
                assert(m.contains_key(k) <==> name_count(init, k) > 0);
            }
        }
        assert forall|k: Seq<u8>| #[trigger] aggregate(Map::empty(), recs).contains_key(k)
            implies aggregate(Map::empty(), recs)[k].count == name_count(recs, k) by {
            if k != r.0 {
                assert(m.contains_key(k));
            } else if m.contains_key(k) {
                assert(m[k].count == name_count(init, k));
            } else {
                assert(!(name_count(init, k) > 0));
            }
        }
    } else {
        assert(aggregate(Map::empty(), recs) == Map::<Seq<u8>, Summary>::empty());
    }
}

proof fn lemma_sum_names_step(ks: Seq<Seq<u8>>, recs: Seq<Record>)
    requires
        recs.len() > 0,
    ensures
        sum_names(ks, recs) == sum_names(ks, recs.drop_last()) + occurrences(ks, recs.last().0),
    decreases ks.len(),
{
    if ks.len() > 0 {
        lemma_sum_names_step(ks.drop_last(), recs);
    }
}

proof fn lemma_occurrences_distinct(ks: Seq<Seq<u8>>, x: Seq<u8>)
    requires
        distinct(ks),
    ensures
        occurrences(ks, x) == if ks.contains(x) { 1int } else { 0int },
    decreases ks.len(),
{
    if ks.len() > 0 {
        let init = ks.drop_last();
        assert(distinct(init));
        lemma_occurrences_distinct(init, x);
        if ks.last() == x {
            assert(!init.contains(x)) by {
                if init.contains(x) {
                    let i = choose|i: int| 0 <= i < init.len() && init[i] == x;
                    assert(ks[i] == ks[ks.len() - 1]);
                }
            }
            assert(ks[ks.len() - 1] == x);
        } else {
            if ks.contains(x) {
                let i = choose|i: int| 0 <= i < ks.len() && ks[i] == x;
                assert(init[i] == x);
            }
            if init.contains(x) {
                let i = choose|i: int| 0 <= i < init.len() && init[i] == x;
                assert(ks[i] == x);
            }
        }
    }
}

/// Over distinct names that include every name observed, the counts add up
/// to the number of observations.
proof fn lemma_sum_names_total(ks: Seq<Seq<u8>>, recs: Seq<Record>)
    requires
        distinct(ks),
        forall|i: int| 0 <= i < recs.len() ==> ks.contains(#[trigger] recs[i].0),
    ensures
        sum_names(ks, recs) == recs.len(),
    decreases recs.len(),
{
    if recs.len() == 0 {
        lemma_sum_names_zero(ks, recs);
    } else {
        let init = recs.drop_last();
        assert forall|i: int| 0 <= i < init.len() implies ks.contains(#[trigger] init[i].0) by {
            assert(init[i] == recs[i]);
        }
        lemma_sum_names_total(ks, init);
        lemma_sum_names_step(ks, recs);
        assert(ks.contains(recs[recs.len() - 1].0));
        lemma_occurrences_distinct(ks, recs.last().0);
    }
}

proof fn lemma_sum_names_zero(ks: Seq<Seq<u8>>, recs: Seq<Record>)
    requires
        recs.len() == 0,
    ensures
        sum_names(ks, recs) == 0,
    decreases ks.len(),
{
    if ks.len() > 0 {
        lemma_sum_names_zero(ks.drop_last(), recs);
    }
}

proof fn lemma_sum_counts_names(es: Seq<(Seq<u8>, Summary)>, recs: Seq<Record>)
    requires
        forall|i: int| 0 <= i < es.len() ==> (#[trigger] es[i]).1.count == name_count(recs, es[i].0),
    ensures
        sum_counts(es) == sum_names(es.map_values(|e: (Seq<u8>, Summary)| e.0), recs),
    decreases es.len(),
{
    if es.len() > 0 {
        let init = es.drop_last();
        assert forall|i: int| 0 <= i < init.len() implies (#[trigger] init[i]).1.count == name_count(recs, init[i].0) by {
            assert(init[i] == es[i]);
        }
        lemma_sum_counts_names(init, recs);
        assert(es.map_values(|e: (Seq<u8>, Summary)| e.0).drop_last() == init.map_values(|e: (Seq<u8>, Summary)| e.0));
    } else {
        assert(es.map_values(|e: (Seq<u8>, Summary)| e.0).len() == 0);
    }
}

/// The counts of the emitted stations add up to the number of records.
pub proof fn lemma_count_total(es: Seq<(Seq<u8>, Summary)>, recs: Seq<Record>)
    requires
        keys_ascending(es),
        map_of(es) == aggregate(Map::empty(), recs),
    ensures
        sum_counts(es) == recs.len(),
{
    let ks = es.map_values(|e: (Seq<u8>, Summary)| e.0);
    let m = aggregate(Map::empty(), recs);
    lemma_map_of(es);
    lemma_count_is_name_count(recs);
    assert forall|i: int| 0 <= i < es.len() implies (#[trigger] es[i]).1.count == name_count(recs, es[i].0) by {
        assert(m.contains_key(es[i].0));
    }
    lemma_sum_counts_names(es, recs);
    assert(distinct(ks)) by {
        assert forall|i: int, j: int| 0 <= i < j < ks.len() implies ks[i] != ks[j] by {
            assert(lex_lt(es[i].0, es[j].0));
            lemma_lex_trichotomy(es[i].0, es[j].0);
        }
    }
    assert forall|i: int| 0 <= i < recs.len() implies ks.contains(#[trigger] recs[i].0) by {
        lemma_name_count_pos(recs, i);
        assert(m.contains_key(recs[i].0));
        let j = choose|j: int| 0 <= j < es.len() && es[j].0 == recs[i].0;
        assert(ks[j] == recs[i].0);
    }
    lemma_sum_names_total(ks, recs);
}

proof fn lemma_name_count_pos(recs: Seq<Record>, i: int)
    requires
        0 <= i < recs.len(),
    ensures
        name_count(recs, recs[i].0) > 0,
    decreases recs.len(),
{
    if i < recs.len() - 1 {
        lemma_name_count_pos(recs.drop_last(), i);
        assert(recs.drop_last()[i] == recs[i]);
    }
}

/// A table has one list of entries in ascending order of names.
pub proof fn lemma_sorted_entries_unique(e1: Seq<(Seq<u8>, Summary)>, e2: Seq<(Seq<u8>, Summary)>)
    requires
        keys_ascending(e1),
        keys_ascending(e2),
        map_of(e1) == map_of(e2),
    ensures
        e1 == e2,
    decreases e1.len(),
{
    lemma_map_of_len(e1);
    lemma_map_of_len(e2);
    lemma_map_of(e1);
    lemma_map_of(e2);
    if e1.len() > 0 {
        let n = e1.len() - 1;
        let k1 = e1[n].0;
        let k2 = e2[n].0;
        assert(map_of(e2).contains_key(k1));
        let j = choose|j: int| 0 <= j < e2.len() && e2[j].0 == k1;
        assert(map_of(e1).contains_key(k2));
        let i = choose|i: int| 0 <= i < e1.len() && e1[i].0 == k2;
        if j < n {
            assert(lex_lt(e2[j].0, e2[n].0));
            if i < n {
                assert(lex_lt(e1[i].0, e1[n].0));
                lemma_lex_transitive(k1, k2, k1);
            }
            lemma_lex_trichotomy(k1, k2);
        }
        assert(e2[n].0 == k1);
        assert(e1[n].1 == e2[n].1);
        let i1 = e1.drop_last();
        let i2 = e2.drop_last();
        assert(keys_ascending(i1));
        assert(keys_ascending(i2));
        lemma_map_of(i1);
        lemma_map_of(i2);
        assert(!map_of(i1).contains_key(k1)) by {
            if map_of(i1).contains_key(k1) {
                let a = choose|a: int| 0 <= a < i1.len() && i1[a].0 == k1;
                assert(lex_lt(e1[a].0, e1[n].0));
                lemma_lex_trichotomy(k1, k1);
            }
        }
        assert(!map_of(i2).contains_key(k1)) by {
            if map_of(i2).contains_key(k1) {
                let a = choose|a: int| 0 <= a < i2.len() && i2[a].0 == k1;
                assert(lex_lt(e2[a].0, e2[n].0));
                lemma_lex_trichotomy(k1, k1);
            }
        }
        assert(map_of(i1) =~= map_of(e1).remove(k1));
        assert(map_of(i2) =~= map_of(e2).remove(k1));
        lemma_sorted_entries_unique(i1, i2);
        assert(e1 =~= e2) by {
            assert forall|a: int| 0 <= a < e1.len() implies e1[a] == e2[a] by {
                if a < n {
                    assert(i1[a] == e1[a]);
                    assert(i2[a] == e2[a]);
                }
            }
        }
    } else {
        assert(e2.len() == 0);
        assert(e1 =~= e2);
    }
}

/// The output line is a function of the table alone: runs that build the
/// same table, whatever the number of parsers or the order of records, emit
/// the same bytes.
pub proof fn lemma_output_determined(e1: Seq<(Seq<u8>, Summary)>, e2: Seq<(Seq<u8>, Summary)>)
    requires
        keys_ascending(e1),
        keys_ascending(e2),
        map_of(e1) == map_of(e2),
    ensures
        results_text(e1) == results_text(e2),
{
    lemma_sorted_entries_unique(e1, e2);
}

proof fn lemma_decimal(x: nat)
    ensures
        all_digits(decimal(x)),
        digits_value(decimal(x)) == x,
        1 <= decimal(x).len(),
        x < 10 ==> decimal(x).len() <= 1,
        x < 100 ==> decimal(x).len() <= 2,
        x < 1000 ==> decimal(x).len() <= 3,
        x < 10000 ==> decimal(x).len() <= 4,
        forall|i: int| 0 <= i < decimal(x).len() ==> #[trigger] decimal(x)[i] != SEMICOLON && decimal(x)[i] != MINUS,
    decreases x,
{
    if x >= 10 {
        lemma_decimal(x / 10);
        let d = decimal(x);
        assert(d.drop_last() == decimal(x / 10));
        assert(x == 10 * (x / 10) + x % 10);
        assert(d.last() == ZERO + x % 10);
        assert(digits_value(d) == digits_value(d.drop_last()) * 10 + (d.last() - ZERO));
        assert forall|i: int| 0 <= i < d.len() implies crate::line::is_digit(#[trigger] d[i]) by {
            if i < d.len() - 1 {
                assert(d[i] == decimal(x / 10)[i]);
            }
        }
    } else {
        let d = decimal(x);
        assert(d.drop_last() =~= Seq::<u8>::empty());
        assert(d.last() == ZERO + x);
        assert(digits_value(d) == digits_value(d.drop_last()) * 10 + (d.last() - ZERO));
        assert(digits_value(d.drop_last()) == 0);
    }
}

proof fn lemma_last_semicolon_after(p: Seq<u8>, t: Seq<u8>)
    requires
        forall|i: int| 0 <= i < t.len() ==> t[i] != SEMICOLON,
    ensures
        last_semicolon(p + t) == last_semicolon(p),
    decreases t.len(),
{
    if t.len() > 0 {
        lemma_last_semicolon_after(p, t.drop_last());
        assert((p + t).drop_last() == p + t.drop_last());
    } else {
        assert(p + t == p);
    }
}

/// The temperature text of `[-]X.Y`.
pub open spec fn temp_text(neg: bool, x: nat, y: nat) -> Seq<u8> {
    (if neg { seq![MINUS] } else { Seq::<u8>::empty() }) + decimal(x) + seq![DOT, (ZERO + y) as u8]
}

/// A record written as `NAME;X.Y` or `NAME;-X.Y`, with up to four integer
/// digits, parses back to its name and to ten times its value.
pub proof fn lemma_parse_round_trip(name: Seq<u8>, neg: bool, x: nat, y: nat)
    requires
        x < 10000,
        y < 10,
    ensures
        is_record(name.push(SEMICOLON) + temp_text(neg, x, y)),
        record_name(name.push(SEMICOLON) + temp_text(neg, x, y)) == name,
        record_temp(name.push(SEMICOLON) + temp_text(neg, x, y)) == if neg { -(10 * x + y) } else { (10 * x + y) as int },
{
    let t = temp_text(neg, x, y);
    let s = name.push(SEMICOLON) + t;
    let u = decimal(x) + seq![DOT, (ZERO + y) as u8];
    lemma_decimal(x);
    assert forall|i: int| 0 <= i < t.len() implies t[i] != SEMICOLON by {
        if neg && i == 0 {
        } else {
            let off: int = if neg { 1 } else { 0 };
            if i - off < decimal(x).len() {
                assert(t[i] == decimal(x)[i - off]);
            }
        }
    }
    lemma_last_semicolon_after(name.push(SEMICOLON), t);
    assert(last_semicolon(s) == name.len());
    assert(s.subrange(name.len() + 1int, s.len() as int) == t);
    assert(s.subrange(0, name.len() as int) == name);
    assert(u.subrange(0, u.len() - 2) == decimal(x));
    assert(is_unsigned_temp(u));
    if neg {
        assert(t.subrange(1, t.len() as int) == u);
        assert(t[0] == MINUS);
    } else {
        assert(t == u);
        assert(u[0] != MINUS);
    }
    assert(unsigned_temp_value(u) == 10 * x + y);
}

} // verus!
