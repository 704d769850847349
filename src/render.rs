use vstd::prelude::*;
use vstd::arithmetic::div_mod::{lemma_fundamental_div_mod, lemma_div_multiples_vanish_fancy};
use crate::station::{Station, Summary, summary_wf, lemma_sum_fits};
use crate::line::{ZERO, DOT, MINUS};

verus! {

pub const SLASH: u8 = 47;
pub const EQUALS: u8 = 61;
pub const COMMA: u8 = 44;
pub const SPACE: u8 = 32;
pub const OPEN_BRACE: u8 = 123;
pub const CLOSE_BRACE: u8 = 125;
pub const LINE_FEED: u8 = 10;

/// Decimal digits of a natural number, without leading zeros.
pub open spec fn decimal(n: nat) -> Seq<u8>
    decreases n,
{
    if n < 10 {
        seq![(ZERO + n) as u8]
    } else {
        decimal(n / 10).push((ZERO + n % 10) as u8)
    }
}

pub open spec fn abs(v: int) -> nat {
    if v < 0 { (-v) as nat } else { v as nat }
}

/// A value scaled by ten written with one digit after the point.
pub open spec fn tenths_text(v: int) -> Seq<u8> {
    let a = abs(v);
    let sign = if v < 0 { seq![MINUS] } else { Seq::<u8>::empty() };
    sign + decimal(a / 10) + seq![DOT, (ZERO + a % 10) as u8]
}

/// The mean in tenths, rounded to the nearest tenth, halves upwards.
pub open spec fn mean_tenths(s: Summary) -> int {
    (2 * s.sum + s.count) / (2 * s.count) as int
}

/// `min/mean/max` of a station.
pub open spec fn station_text(s: Summary) -> Seq<u8> {
    tenths_text(s.min) + seq![SLASH] + tenths_text(mean_tenths(s)) + seq![SLASH] + tenths_text(s.max)
}

/// `name=min/mean/max`.
pub open spec fn entry_text(e: (Seq<u8>, Summary)) -> Seq<u8> {
    e.0 + seq![EQUALS] + station_text(e.1)
}

/// The entries' texts separated by `, `.
pub open spec fn entries_text(es: Seq<(Seq<u8>, Summary)>) -> Seq<u8>
    decreases es.len(),
{
    if es.len() == 0 {
        Seq::empty()
    } else if es.len() == 1 {
        entry_text(es[0])
    } else {
        entries_text(es.drop_last()) + seq![COMMA, SPACE] + entry_text(es.last())
    }
}

/// The output line: `{` entries `}` and a newline.
pub open spec fn results_text(es: Seq<(Seq<u8>, Summary)>) -> Seq<u8> {
    seq![OPEN_BRACE] + entries_text(es) + seq![CLOSE_BRACE, LINE_FEED]
}

/// The rounded mean lies between the minimum and the maximum.
pub proof fn lemma_mean_between(s: Summary)
    requires
        summary_wf(s),
    ensures
        s.min <= mean_tenths(s) <= s.max,
{
    let d: int = (2 * s.count) as int;
    let n = 2 * s.sum + s.count - d * s.min;
    assert(n >= s.count) by (nonlinear_arith)
        requires s.count * s.min <= s.sum, n == 2 * s.sum + s.count - d * s.min, d == 2 * s.count;
    lemma_fundamental_div_mod(n, d);
    let q = n / d;
    let r = n % d;
    lemma_div_multiples_vanish_fancy(q + s.min, r, d);
    assert(2 * s.sum + s.count == d * (q + s.min) + r) by (nonlinear_arith)
        requires n == d * q + r, n == 2 * s.sum + s.count - d * s.min;
    assert(q >= 0) by (nonlinear_arith)
        requires n == d * q + r, 0 <= r < d, n >= 0, d > 0;
    assert(q <= s.max - s.min) by (nonlinear_arith)
        requires n == d * q + r, 0 <= r < d, d > 0, d == 2 * s.count,
            n == 2 * s.sum + s.count - d * s.min, s.sum <= s.count * s.max;
}

/// Appends the decimal digits of `n`.
pub fn push_decimal(out: &mut Vec<u8>, n: u64)
    ensures
        final(out)@ == old(out)@ + decimal(n as nat),
    decreases n,
{
    if n >= 10 {
        push_decimal(out, n / 10);
    }
    out.push(ZERO + (n % 10) as u8);
    proof {
        if n < 10 {
            assert(old(out)@ + decimal(n as nat) == old(out)@.push((ZERO + n) as u8));
        } else {
            assert(old(out)@ + decimal(n as nat) == (old(out)@ + decimal((n / 10) as nat)).push((ZERO + n % 10) as u8));
        }
    }
}

/// Appends a value scaled by ten with one digit after the point.
pub fn push_tenths(out: &mut Vec<u8>, v: i64)
    requires
        v > i64::MIN,
    ensures
        final(out)@ == old(out)@ + tenths_text(v as int),
{
    if v < 0 {
        out.push(MINUS);
    }
    let a: u64 = if v < 0 { (-v) as u64 } else { v as u64 };
    push_decimal(out, a / 10);
    out.push(DOT);
    out.push(ZERO + (a % 10) as u8);
    let ghost sign = if v < 0 { seq![MINUS] } else { Seq::<u8>::empty() };
    assert(out@ =~= old(out)@ + (sign + decimal((a / 10) as nat) + seq![DOT, (ZERO + a % 10) as u8]));
}

/// The rounded mean of a station, in tenths.
pub fn mean_of(s: &Station) -> (r: i64)
    requires
        s.wf(),
    ensures
        r as int == mean_tenths(s@),
        s@.min <= r <= s@.max,
{
    proof {
        lemma_mean_between(s@);
        lemma_sum_fits(s@);
    }
    let count = s.count() as i128;
    let min = s.min() as i128;
    let sum = s.sum() as i128;
    let d: i128 = 2 * count;
    assert(-2_000_000_000_000_000_000_000_000_000 <= d * min <= 2_000_000_000_000_000_000_000_000_000) by (nonlinear_arith)
        requires 0 <= d <= 2_000_000_000_000_000_000, -1_000_000_000 <= min <= 1_000_000_000;
    let n: i128 = 2 * sum + count - d * min;
    proof {
        let ss = s@;
        assert(n >= 0) by (nonlinear_arith)
            requires ss.count * ss.min <= ss.sum, n == 2 * ss.sum + ss.count - d * ss.min, d == 2 * ss.count, ss.count >= 1;
        lemma_fundamental_div_mod(n as int, d as int);
        lemma_div_multiples_vanish_fancy(n as int / d as int + ss.min, n as int % d as int, d as int);
        assert(2 * ss.sum + ss.count == d * (n as int / d as int + ss.min) + n as int % d as int) by (nonlinear_arith)
            requires n == d * (n as int / d as int) + n as int % d as int, n == 2 * ss.sum + ss.count - d * ss.min;
    }
    let q: i128 = n / d;
    (min + q) as i64
}

/// The text `min/mean/max` of a station.
pub fn station_to_text(out: &mut Vec<u8>, s: &Station)
    requires
        s.wf(),
    ensures
        final(out)@ == old(out)@ + station_text(s@),
{
    push_tenths(out, s.min() as i64);
    out.push(SLASH);
    push_tenths(out, mean_of(s));
    out.push(SLASH);
    push_tenths(out, s.max() as i64);
    assert(out@ =~= old(out)@ + station_text(s@));
}

/// The views of a result list.
pub open spec fn results_view(res: Seq<(Vec<u8>, Station)>) -> Seq<(Seq<u8>, Summary)> {
    res.map_values(|e: (Vec<u8>, Station)| (e.0@, e.1@))
}

/// Writes the output line `{name=min/mean/max, ...}` and a newline.
pub fn show_results(res: &Vec<(Vec<u8>, Station)>) -> (r: Vec<u8>)
    requires
        forall|i: int| 0 <= i < res@.len() ==> (#[trigger] res@[i]).1.wf(),
    ensures
        r@ == results_text(results_view(res@)),
{
    let mut out: Vec<u8> = Vec::new();
    out.push(OPEN_BRACE);
    let ghost es = results_view(res@);
    let mut i: usize = 0;
    while i < res.len()
        invariant
            i <= res@.len(),
            es == results_view(res@),
            forall|j: int| 0 <= j < res@.len() ==> (#[trigger] res@[j]).1.wf(),
            out@ == seq![OPEN_BRACE] + entries_text(es.subrange(0, i as int)),
        decreases res@.len() - i,
    {
        let ghost before = out@;
        if i != 0 {
            out.push(COMMA);
            out.push(SPACE);
        }
        let name = &res[i].0;
        let mut j: usize = 0;
        let ghost mid = out@;
        while j < name.len()
            invariant
                j <= name@.len(),
                out@ == mid + name@.subrange(0, j as int),
            decreases name@.len() - j,
        {
            out.push(name[j]);
            assert(name@.subrange(0, j + 1) == name@.subrange(0, j as int).push(name@[j as int]));
            j += 1;
        }
        assert(name@.subrange(0, name@.len() as int) == name@);
        out.push(EQUALS);
        station_to_text(&mut out, &res[i].1);
        proof {
            let pre = es.subrange(0, i as int);
            let cur = es.subrange(0, i + 1);
            assert(cur.drop_last() == pre);
            assert(cur.last() == es[i as int]);
            if i == 0 {
                assert(cur.len() == 1);
                assert(entries_text(pre) =~= Seq::<u8>::empty());
                assert(out@ =~= seq![OPEN_BRACE] + entries_text(cur));
            } else {
                assert(out@ =~= seq![OPEN_BRACE] + entries_text(cur));
            }
        }
        i += 1;
    }
    out.push(CLOSE_BRACE);
    out.push(LINE_FEED);
    assert(es.subrange(0, res@.len() as int) == es);
    assert(out@ =~= results_text(es));
    out
}

} // verus!
