use vstd::prelude::*;
use crate::search::{rfind_byte, is_last_index};

verus! {

/// The byte that separates a station name from its temperature.
pub const SEMICOLON: u8 = 59;

/// The byte of a decimal point.
pub const DOT: u8 = 46;

/// The byte of a minus sign.
pub const MINUS: u8 = 45;

/// The byte of the digit zero.
pub const ZERO: u8 = 48;

/// Most integer digits that a temperature may have, so that its value
/// scaled by ten fits an `i32`.
pub const MAX_INT_DIGITS: usize = 8;

pub open spec fn is_digit(b: u8) -> bool {
    ZERO <= b <= ZERO + 9
}

pub open spec fn all_digits(d: Seq<u8>) -> bool {
    forall|i: int| 0 <= i < d.len() ==> is_digit(#[trigger] d[i])
}

/// The value of a sequence of decimal digits, most significant first.
pub open spec fn digits_value(d: Seq<u8>) -> int
    decreases d.len(),
{
    if d.len() == 0 {
        0
    } else {
        digits_value(d.drop_last()) * 10 + (d.last() - ZERO)
    }
}

pub open spec fn pow10(n: nat) -> int
    decreases n,
{
    if n == 0 {
        1
    } else {
        10 * pow10((n - 1) as nat)
    }
}

/// The unsigned part of a temperature: `D+.D`, with at most
/// `MAX_INT_DIGITS` integer digits.
pub open spec fn is_unsigned_temp(t: Seq<u8>) -> bool {
    &&& 3 <= t.len() <= MAX_INT_DIGITS + 2
    &&& t[t.len() - 2] == DOT
    &&& all_digits(t.subrange(0, t.len() - 2))
    &&& is_digit(t.last())
}

/// Temperature text `-?D+.D`.
pub open spec fn is_temp(t: Seq<u8>) -> bool {
    if t.len() > 0 && t[0] == MINUS {
        is_unsigned_temp(t.subrange(1, t.len() as int))
    } else {
        is_unsigned_temp(t)
    }
}

/// The value ten times that of an unsigned temperature text.
pub open spec fn unsigned_temp_value(t: Seq<u8>) -> int {
    digits_value(t.subrange(0, t.len() - 2)) * 10 + (t.last() - ZERO)
}

/// The value ten times that of a temperature text.
pub open spec fn temp_value(t: Seq<u8>) -> int {
    if t.len() > 0 && t[0] == MINUS {
        -unsigned_temp_value(t.subrange(1, t.len() as int))
    } else {
        unsigned_temp_value(t)
    }
}

/// Position of the last `;` of a record, or -1.
pub open spec fn last_semicolon(s: Seq<u8>) -> int
    decreases s.len(),
{
    if s.len() == 0 {
        -1
    } else if s.last() == SEMICOLON {
        s.len() - 1
    } else {
        last_semicolon(s.drop_last())
    }
}

/// A record `NAME;TEMP`, where the last `;` ends the name.
pub open spec fn is_record(s: Seq<u8>) -> bool {
    let p = last_semicolon(s);
    p >= 0 && is_temp(s.subrange(p + 1, s.len() as int))
}

/// The station name of a record.
pub open spec fn record_name(s: Seq<u8>) -> Seq<u8> {
    s.subrange(0, last_semicolon(s))
}

/// The temperature of a record, scaled by ten.
pub open spec fn record_temp(s: Seq<u8>) -> int {
    temp_value(s.subrange(last_semicolon(s) + 1, s.len() as int))
}

pub proof fn lemma_last_semicolon(s: Seq<u8>)
    ensures
        -1 <= last_semicolon(s) < s.len(),
        last_semicolon(s) >= 0 ==> is_last_index(s, SEMICOLON, last_semicolon(s)),
        last_semicolon(s) < 0 ==> forall|j: int| 0 <= j < s.len() ==> s[j] != SEMICOLON,
    decreases s.len(),
{
    if s.len() > 0 {
        let init = s.drop_last();
        lemma_last_semicolon(init);
        assert(forall|j: int| 0 <= j < init.len() ==> init[j] == s[j]);
    }
}

/// The last `;` is the one that a search from the end finds.
proof fn lemma_last_semicolon_is(s: Seq<u8>, i: int)
    requires
        is_last_index(s, SEMICOLON, i),
    ensures
        last_semicolon(s) == i,
{
    lemma_last_semicolon(s);
}

proof fn lemma_digits_bound(d: Seq<u8>)
    requires
        all_digits(d),
    ensures
        0 <= digits_value(d) < pow10(d.len()),
    decreases d.len(),
{
    if d.len() > 0 {
        assert(all_digits(d.drop_last()));
        lemma_digits_bound(d.drop_last());
    }
}

proof fn lemma_pow10_8()
    ensures
        pow10(8) == 100_000_000,
{
    reveal_with_fuel(pow10, 9);
}

proof fn lemma_pow10_mono(a: nat, b: nat)
    requires
        a <= b,
    ensures
        0 < pow10(a) <= pow10(b),
    decreases b,
{
    if a < b {
        lemma_pow10_mono(a, (b - 1) as nat);
    } else if b > 0 {
        lemma_pow10_mono((a - 1) as nat, (b - 1) as nat);
    }
}

/// Bound on the value of any temperature text.
pub proof fn lemma_temp_bound(t: Seq<u8>)
    requires
        is_temp(t),
    ensures
        -1_000_000_000 < temp_value(t) < 1_000_000_000,
{
    let u = if t.len() > 0 && t[0] == MINUS { t.subrange(1, t.len() as int) } else { t };
    let d = u.subrange(0, u.len() - 2);
    lemma_digits_bound(d);
    lemma_pow10_mono(d.len(), 8);
    lemma_pow10_8();
}

/// A record parsed: the name as a borrowed slice and the temperature
/// scaled by ten.
pub struct Line<'a> {
    pub station: &'a [u8],
    pub measurement: i32,
}

impl<'a> Line<'a> {
    /// Parses one record `NAME;[-]D+.D` without its newline.
    pub fn parse_bytes(s: &'a [u8]) -> (r: Line<'a>)
        requires
            is_record(s@),
        ensures
            r.station@ == record_name(s@),
            r.measurement as int == record_temp(s@),
    {
        proof {
            lemma_last_semicolon(s@);
        }
        let colon_pos: usize = match rfind_byte(SEMICOLON, s) {
            Some(p) => p,
            None => 0,
        };
        proof {
            assert(is_last_index(s@, SEMICOLON, colon_pos as int));
            lemma_last_semicolon_is(s@, colon_pos as int);
        }
        let ghost t = s@.subrange(colon_pos + 1, s@.len() as int);
        assert(is_temp(t));
        assert(t.len() >= 3);
        assert(colon_pos + 4 <= s@.len());
        let n: usize = s.len();
        let neg = s[colon_pos + 1] == MINUS;
        let start: usize = if neg { colon_pos + 2 } else { colon_pos + 1 };
        let ghost u = s@.subrange(start as int, s@.len() as int);
        assert(u == if neg { t.subrange(1, t.len() as int) } else { t });
        let end: usize = s.len() - 2;
        let ghost d = s@.subrange(start as int, end as int);
        assert(d == u.subrange(0, u.len() - 2));
        assert(is_unsigned_temp(u));
        assert(d.len() <= 8);
        proof {
            lemma_digits_bound(d);
            lemma_pow10_mono(d.len(), 8);
            lemma_pow10_8();
        }
        let mut acc: i32 = 0;
        let mut i: usize = start;
        while i < end
            invariant
                start <= i <= end,
                end == s@.len() - 2,
                d == s@.subrange(start as int, end as int),
                all_digits(d),
                d.len() <= 8,
                acc as int == digits_value(s@.subrange(start as int, i as int)),
            decreases end - i,
        {
            let ghost prefix = s@.subrange(start as int, i as int + 1);
            assert(prefix.drop_last() == s@.subrange(start as int, i as int));
            assert(prefix == d.subrange(0, i - start + 1));
            assert(is_digit(d[i - start]));
            proof {
                assert(all_digits(prefix.drop_last()));
                lemma_digits_bound(prefix.drop_last());
                lemma_pow10_mono(prefix.drop_last().len(), 7);
                reveal_with_fuel(pow10, 8);
            }
            acc = acc * 10 + (s[i] - ZERO) as i32;
            i += 1;
        }
        assert(s@.subrange(start as int, i as int) == d);
        let frac = (s[s.len() - 1] - ZERO) as i32;
        let mut num = acc * 10 + frac;
        if neg {
            num = -num;
        }
        Line { station: &s[0..colon_pos], measurement: num }
    }
}

/// Whether a byte is a decimal digit.
pub fn is_digit_byte(b: u8) -> (r: bool)
    ensures
        r == is_digit(b),
{
    ZERO <= b && b <= ZERO + 9
}

/// Whether bytes are the unsigned part of a temperature, `D+.D`.
pub fn check_unsigned_temp(t: &[u8]) -> (r: bool)
    ensures
        r == is_unsigned_temp(t@),
{
    let n: usize = t.len();
    if n < 3 || n > MAX_INT_DIGITS + 2 {
        return false;
    }
    if t[n - 2] != DOT || !is_digit_byte(t[n - 1]) {
        return false;
    }
    let ghost d = t@.subrange(0, n - 2);
    let mut i: usize = 0;
    while i < n - 2
        invariant
            n == t@.len(),
            3 <= n,
            i <= n - 2,
            d == t@.subrange(0, n - 2),
            forall|j: int| 0 <= j < i ==> is_digit(#[trigger] d[j]),
        decreases n - 2 - i,
    {
        if !is_digit_byte(t[i]) {
            assert(!is_digit(d[i as int]));
            return false;
        }
        i += 1;
    }
    true
}

/// Whether bytes are one record `NAME;[-]D+.D`.
pub fn check_record(s: &[u8]) -> (r: bool)
    ensures
        r == is_record(s@),
{
    proof {
        lemma_last_semicolon(s@);
    }
    let p: usize = match rfind_byte(SEMICOLON, s) {
        Some(p) => p,
        None => {
            return false;
        },
    };
    proof {
        lemma_last_semicolon_is(s@, p as int);
    }
    let n: usize = s.len();
    let t = &s[p + 1..n];
    if t.len() > 0 && t[0] == MINUS {
        let u = &t[1..t.len()];
        check_unsigned_temp(u)
    } else {
        check_unsigned_temp(t)
    }
}

} // verus!
