//! Due-date normalization.
//!
//! A stored due date has exactly one of two canonical textual forms:
//! `YYYY-MM-DD` or `YYYY-MM-DD HH:MM` (24-hour clock, no time zone).
//! `normalize` turns a raw user-supplied string into one of those forms, or
//! rejects it. Parsing of raw input is delegated to chrono; rendering back
//! into the canonical form is verified here, and a canonical input is proved
//! to come back unchanged.

use chrono::Datelike;
use chrono::Timelike;
use vstd::prelude::*;

verus! {

// ---------------------------------------------------------------------------
// Decimal digits
// ---------------------------------------------------------------------------

/// The numeric value of a decimal digit character; 10 for everything else.
pub open spec fn spec_digit_val(c: char) -> int {
    if c == '0' {
        0
    } else if c == '1' {
        1
    } else if c == '2' {
        2
    } else if c == '3' {
        3
    } else if c == '4' {
        4
    } else if c == '5' {
        5
    } else if c == '6' {
        6
    } else if c == '7' {
        7
    } else if c == '8' {
        8
    } else if c == '9' {
        9
    } else {
        10
    }
}

pub open spec fn spec_is_digit(c: char) -> bool {
    spec_digit_val(c) < 10
}

/// The decimal digit character for a value between 0 and 9.
pub open spec fn spec_digit_char(v: int) -> char {
    if v == 0 {
        '0'
    } else if v == 1 {
        '1'
    } else if v == 2 {
        '2'
    } else if v == 3 {
        '3'
    } else if v == 4 {
        '4'
    } else if v == 5 {
        '5'
    } else if v == 6 {
        '6'
    } else if v == 7 {
        '7'
    } else if v == 8 {
        '8'
    } else {
        '9'
    }
}

fn digit_val(c: char) -> (v: u8)
    ensures
        v == spec_digit_val(c),
{
    match c {
        '0' => 0,
        '1' => 1,
        '2' => 2,
        '3' => 3,
        '4' => 4,
        '5' => 5,
        '6' => 6,
        '7' => 7,
        '8' => 8,
        '9' => 9,
        _ => 10,
    }
}

fn digit_char(v: u8) -> (c: char)
    requires
        v <= 9,
    ensures
        c == spec_digit_char(v as int),
{
    match v {
        0 => '0',
        1 => '1',
        2 => '2',
        3 => '3',
        4 => '4',
        5 => '5',
        6 => '6',
        7 => '7',
        8 => '8',
        _ => '9',
    }
}

// ---------------------------------------------------------------------------
// Calendar validity
// ---------------------------------------------------------------------------

pub open spec fn spec_is_leap_year(y: int) -> bool {
    y % 4 == 0 && (y % 100 != 0 || y % 400 == 0)
}

pub open spec fn spec_days_in_month(y: int, m: int) -> int {
    if m == 2 {
        if spec_is_leap_year(y) {
            29
        } else {
            28
        }
    } else if m == 4 || m == 6 || m == 9 || m == 11 {
        30
    } else {
        31
    }
}

/// A calendar date that the canonical forms can hold: the year must have
/// four digits.
pub open spec fn spec_valid_date(y: int, m: int, d: int) -> bool {
    &&& 0 <= y <= 9999
    &&& 1 <= m <= 12
    &&& 1 <= d <= spec_days_in_month(y, m)
}

pub open spec fn spec_valid_time(h: int, mi: int) -> bool {
    0 <= h <= 23 && 0 <= mi <= 59
}

// ---------------------------------------------------------------------------
// The canonical textual forms
// ---------------------------------------------------------------------------

pub open spec fn year_of(s: Seq<char>) -> int {
    spec_digit_val(s[0]) * 1000 + spec_digit_val(s[1]) * 100 + spec_digit_val(s[2]) * 10
        + spec_digit_val(s[3])
}

pub open spec fn month_of(s: Seq<char>) -> int {
    spec_digit_val(s[5]) * 10 + spec_digit_val(s[6])
}

pub open spec fn day_of(s: Seq<char>) -> int {
    spec_digit_val(s[8]) * 10 + spec_digit_val(s[9])
}

pub open spec fn hour_of(s: Seq<char>) -> int {
    spec_digit_val(s[11]) * 10 + spec_digit_val(s[12])
}

pub open spec fn minute_of(s: Seq<char>) -> int {
    spec_digit_val(s[14]) * 10 + spec_digit_val(s[15])
}

/// `YYYY-MM-DD`: the shape alone, not calendar validity.
pub open spec fn date_shaped(s: Seq<char>) -> bool {
    &&& s.len() == 10
    &&& spec_is_digit(s[0])
    &&& spec_is_digit(s[1])
    &&& spec_is_digit(s[2])
    &&& spec_is_digit(s[3])
    &&& s[4] == '-'
    &&& spec_is_digit(s[5])
    &&& spec_is_digit(s[6])
    &&& s[7] == '-'
    &&& spec_is_digit(s[8])
    &&& spec_is_digit(s[9])
}

/// `YYYY-MM-DD HH:MM`: the shape alone.
pub open spec fn datetime_shaped(s: Seq<char>) -> bool {
    &&& s.len() == 16
    &&& spec_is_digit(s[0])
    &&& spec_is_digit(s[1])
    &&& spec_is_digit(s[2])
    &&& spec_is_digit(s[3])
    &&& s[4] == '-'
    &&& spec_is_digit(s[5])
    &&& spec_is_digit(s[6])
    &&& s[7] == '-'
    &&& spec_is_digit(s[8])
    &&& spec_is_digit(s[9])
    &&& s[10] == ' '
    &&& spec_is_digit(s[11])
    &&& spec_is_digit(s[12])
    &&& s[13] == ':'
    &&& spec_is_digit(s[14])
    &&& spec_is_digit(s[15])
}

/// A canonical bare date: right shape and a real calendar date.
pub open spec fn is_canonical_date(s: Seq<char>) -> bool {
    date_shaped(s) && spec_valid_date(year_of(s), month_of(s), day_of(s))
}

/// A canonical date-time: right shape, real calendar date, real time of day.
pub open spec fn is_canonical_datetime(s: Seq<char>) -> bool {
    datetime_shaped(s) && spec_valid_date(year_of(s), month_of(s), day_of(s))
        && spec_valid_time(hour_of(s), minute_of(s))
}

/// What may stand in a task's `due` field.
pub open spec fn is_canonical_due(s: Seq<char>) -> bool {
    is_canonical_date(s) || is_canonical_datetime(s)
}

// ---------------------------------------------------------------------------
// Rendering the canonical forms
// ---------------------------------------------------------------------------

/// Two decimal digits, zero-padded.
pub open spec fn spec_render2(v: int) -> Seq<char> {
    seq![spec_digit_char(v / 10), spec_digit_char(v % 10)]
}

/// Four decimal digits, zero-padded.
pub open spec fn spec_render4(v: int) -> Seq<char> {
    seq![
        spec_digit_char(v / 1000),
        spec_digit_char((v / 100) % 10),
        spec_digit_char((v / 10) % 10),
        spec_digit_char(v % 10),
    ]
}

pub open spec fn spec_render_date(y: int, m: int, d: int) -> Seq<char> {
    spec_render4(y) + seq!['-'] + spec_render2(m) + seq!['-'] + spec_render2(d)
}

pub open spec fn spec_render_datetime(y: int, m: int, d: int, h: int, mi: int) -> Seq<char> {
    spec_render_date(y, m, d) + seq![' '] + spec_render2(h) + seq![':'] + spec_render2(mi)
}

// ---------------------------------------------------------------------------
// The chrono parsers, behind trusted items
// ---------------------------------------------------------------------------

/// What `chrono::NaiveDateTime::parse_from_str` with `"%Y-%m-%d %H:%M"`
/// makes of a string: the (year, month, day, hour, minute) fields, or
/// nothing.
pub uninterp spec fn chrono_datetime_parse(s: Seq<char>) -> Option<(i32, u32, u32, u32, u32)>;

/// What `chrono::NaiveDate::parse_from_str` with `"%Y-%m-%d"` makes of a
/// string: the (year, month, day) fields, or nothing.
pub uninterp spec fn chrono_date_parse(s: Seq<char>) -> Option<(i32, u32, u32)>;

/// Relies on `chrono::NaiveDateTime::parse_from_str` with the format
/// `"%Y-%m-%d %H:%M"`, and on the `Datelike` and `Timelike` accessors: the
/// result depends on the input string alone; a parsed value carries a real
/// calendar date and time of day; a string that is exactly in the canonical
/// `YYYY-MM-DD HH:MM` form parses to its own fields; and a bare canonical
/// `YYYY-MM-DD` date fails to parse, because after the day the format still
/// demands an hour and a minute, and that input has ended.
#[verifier::external_body]
fn chrono_parse_datetime(s: &str) -> (r: Option<(i32, u32, u32, u32, u32)>)
    ensures
        r == chrono_datetime_parse(s@),
        r matches Some(p) ==> 1 <= p.1 <= 12 && 1 <= p.2 <= spec_days_in_month(
            p.0 as int,
            p.1 as int,
        ) && p.3 <= 23 && p.4 <= 59,
        is_canonical_datetime(s@) ==> r == Some(
            (
                year_of(s@) as i32,
                month_of(s@) as u32,
                day_of(s@) as u32,
                hour_of(s@) as u32,
                minute_of(s@) as u32,
            ),
        ),
        is_canonical_date(s@) ==> r is None,
{
    match chrono::NaiveDateTime::parse_from_str(s, "%Y-%m-%d %H:%M") {
        Ok(dt) => Some((dt.year(), dt.month(), dt.day(), dt.hour(), dt.minute())),
        Err(_) => None,
    }
}

/// Relies on `chrono::NaiveDate::parse_from_str` with the format
/// `"%Y-%m-%d"`, and on the `Datelike` accessors: the result depends on the
/// input string alone; a parsed value carries a real calendar date; and a
/// string that is exactly in the canonical `YYYY-MM-DD` form parses to its
/// own fields.
#[verifier::external_body]
fn chrono_parse_date(s: &str) -> (r: Option<(i32, u32, u32)>)
    ensures
        r == chrono_date_parse(s@),
        r matches Some(p) ==> 1 <= p.1 <= 12 && 1 <= p.2 <= spec_days_in_month(
            p.0 as int,
            p.1 as int,
        ),
        is_canonical_date(s@) ==> r == Some(
            (year_of(s@) as i32, month_of(s@) as u32, day_of(s@) as u32),
        ),
{
    match chrono::NaiveDate::parse_from_str(s, "%Y-%m-%d") {
        Ok(d) => Some((d.year(), d.month(), d.day())),
        Err(_) => None,
    }
}

// ---------------------------------------------------------------------------
// Building canonical strings
// ---------------------------------------------------------------------------

/// Relies on `String::push`: it appends exactly the one character.
#[verifier::external_body]
fn push_char(out: &mut String, c: char)
    ensures
        final(out)@ == old(out)@.push(c),
{
    out.push(c);
}

proof fn lemma_two_digit_parts(v: int)
    by (nonlinear_arith)
    requires
        0 <= v <= 99,
    ensures
        0 <= v / 10 <= 9,
        0 <= v % 10 <= 9,
        (v / 10) * 10 + v % 10 == v,
{
}

proof fn lemma_four_digit_parts(v: int)
    by (nonlinear_arith)
    requires
        0 <= v <= 9999,
    ensures
        0 <= v / 1000 <= 9,
        0 <= (v / 100) % 10 <= 9,
        0 <= (v / 10) % 10 <= 9,
        0 <= v % 10 <= 9,
        (v / 1000) * 1000 + ((v / 100) % 10) * 100 + ((v / 10) % 10) * 10 + v % 10 == v,
{
}

fn push_two_digits(out: &mut String, v: u32)
    requires
        v <= 99,
    ensures
        final(out)@ == old(out)@ + spec_render2(v as int),
{
    proof {
        lemma_two_digit_parts(v as int);
    }
    let hi = digit_char((v / 10) as u8);
    let lo = digit_char((v % 10) as u8);
    push_char(out, hi);
    push_char(out, lo);
    assert(old(out)@.push(hi).push(lo) =~= old(out)@ + spec_render2(v as int));
}

fn push_four_digits(out: &mut String, v: u32)
    requires
        v <= 9999,
    ensures
        final(out)@ == old(out)@ + spec_render4(v as int),
{
    proof {
        lemma_four_digit_parts(v as int);
    }
    let c0 = digit_char((v / 1000) as u8);
    let c1 = digit_char(((v / 100) % 10) as u8);
    let c2 = digit_char(((v / 10) % 10) as u8);
    let c3 = digit_char((v % 10) as u8);
    push_char(out, c0);
    push_char(out, c1);
    push_char(out, c2);
    push_char(out, c3);
    assert(old(out)@.push(c0).push(c1).push(c2).push(c3) =~= old(out)@ + spec_render4(v as int));
}

proof fn lemma_digit_roundtrip(c: char)
    requires
        spec_is_digit(c),
    ensures
        spec_digit_char(spec_digit_val(c)) == c,
{
}

proof fn lemma_two_digit_compose(a: int, b: int)
    by (nonlinear_arith)
    requires
        0 <= a <= 9,
        0 <= b <= 9,
    ensures
        (a * 10 + b) / 10 == a,
        (a * 10 + b) % 10 == b,
{
}

proof fn lemma_four_digit_compose(a: int, b: int, c: int, d: int)
    by (nonlinear_arith)
    requires
        0 <= a <= 9,
        0 <= b <= 9,
        0 <= c <= 9,
        0 <= d <= 9,
    ensures
        (a * 1000 + b * 100 + c * 10 + d) / 1000 == a,
        ((a * 1000 + b * 100 + c * 10 + d) / 100) % 10 == b,
        ((a * 1000 + b * 100 + c * 10 + d) / 10) % 10 == c,
        (a * 1000 + b * 100 + c * 10 + d) % 10 == d,
{
}

/// Rendering a date in range yields a string of the canonical shape whose
/// fields read back as the rendered values.
proof fn lemma_render_date_fields(y: int, m: int, d: int)
    requires
        0 <= y <= 9999,
        0 <= m <= 99,
        0 <= d <= 99,
    ensures
        date_shaped(spec_render_date(y, m, d)),
        year_of(spec_render_date(y, m, d)) == y,
        month_of(spec_render_date(y, m, d)) == m,
        day_of(spec_render_date(y, m, d)) == d,
{
    lemma_four_digit_parts(y);
    lemma_two_digit_parts(m);
    lemma_two_digit_parts(d);
    let s = spec_render_date(y, m, d);
    assert(s[0] == spec_digit_char(y / 1000));
    assert(s[1] == spec_digit_char((y / 100) % 10));
    assert(s[2] == spec_digit_char((y / 10) % 10));
    assert(s[3] == spec_digit_char(y % 10));
    assert(s[4] == '-');
    assert(s[5] == spec_digit_char(m / 10));
    assert(s[6] == spec_digit_char(m % 10));
    assert(s[7] == '-');
    assert(s[8] == spec_digit_char(d / 10));
    assert(s[9] == spec_digit_char(d % 10));
}

/// The same for the date-time form.
proof fn lemma_render_datetime_fields(y: int, m: int, d: int, h: int, mi: int)
    requires
        0 <= y <= 9999,
        0 <= m <= 99,
        0 <= d <= 99,
        0 <= h <= 99,
        0 <= mi <= 99,
    ensures
        datetime_shaped(spec_render_datetime(y, m, d, h, mi)),
        year_of(spec_render_datetime(y, m, d, h, mi)) == y,
        month_of(spec_render_datetime(y, m, d, h, mi)) == m,
        day_of(spec_render_datetime(y, m, d, h, mi)) == d,
        hour_of(spec_render_datetime(y, m, d, h, mi)) == h,
        minute_of(spec_render_datetime(y, m, d, h, mi)) == mi,
{
    lemma_four_digit_parts(y);
    lemma_two_digit_parts(m);
    lemma_two_digit_parts(d);
    lemma_two_digit_parts(h);
    lemma_two_digit_parts(mi);
    let s = spec_render_datetime(y, m, d, h, mi);
    assert(s[0] == spec_digit_char(y / 1000));
    assert(s[1] == spec_digit_char((y / 100) % 10));
    assert(s[2] == spec_digit_char((y / 10) % 10));
    assert(s[3] == spec_digit_char(y % 10));
    assert(s[4] == '-');
    assert(s[5] == spec_digit_char(m / 10));
    assert(s[6] == spec_digit_char(m % 10));
    assert(s[7] == '-');
    assert(s[8] == spec_digit_char(d / 10));
    assert(s[9] == spec_digit_char(d % 10));
    assert(s[10] == ' ');
    assert(s[11] == spec_digit_char(h / 10));
    assert(s[12] == spec_digit_char(h % 10));
    assert(s[13] == ':');
    assert(s[14] == spec_digit_char(mi / 10));
    assert(s[15] == spec_digit_char(mi % 10));
}

/// A canonical bare date, rendered from its own fields, is itself.
proof fn lemma_date_roundtrip(s: Seq<char>)
    requires
        is_canonical_date(s),
    ensures
        spec_render_date(year_of(s), month_of(s), day_of(s)) == s,
{
    let y = year_of(s);
    let m = month_of(s);
    let d = day_of(s);
    lemma_four_digit_compose(
        spec_digit_val(s[0]),
        spec_digit_val(s[1]),
        spec_digit_val(s[2]),
        spec_digit_val(s[3]),
    );
    lemma_two_digit_compose(spec_digit_val(s[5]), spec_digit_val(s[6]));
    lemma_two_digit_compose(spec_digit_val(s[8]), spec_digit_val(s[9]));
    lemma_digit_roundtrip(s[0]);
    lemma_digit_roundtrip(s[1]);
    lemma_digit_roundtrip(s[2]);
    lemma_digit_roundtrip(s[3]);
    lemma_digit_roundtrip(s[5]);
    lemma_digit_roundtrip(s[6]);
    lemma_digit_roundtrip(s[8]);
    lemma_digit_roundtrip(s[9]);
    assert(spec_render_date(y, m, d) =~= s);
}

/// A canonical date-time, rendered from its own fields, is itself.
proof fn lemma_datetime_roundtrip(s: Seq<char>)
    requires
        is_canonical_datetime(s),
    ensures
        spec_render_datetime(year_of(s), month_of(s), day_of(s), hour_of(s), minute_of(s)) == s,
{
    let y = year_of(s);
    let m = month_of(s);
    let d = day_of(s);
    lemma_four_digit_compose(
        spec_digit_val(s[0]),
        spec_digit_val(s[1]),
        spec_digit_val(s[2]),
        spec_digit_val(s[3]),
    );
    lemma_two_digit_compose(spec_digit_val(s[5]), spec_digit_val(s[6]));
    lemma_two_digit_compose(spec_digit_val(s[8]), spec_digit_val(s[9]));
    lemma_two_digit_compose(spec_digit_val(s[11]), spec_digit_val(s[12]));
    lemma_two_digit_compose(spec_digit_val(s[14]), spec_digit_val(s[15]));
    lemma_digit_roundtrip(s[0]);
    lemma_digit_roundtrip(s[1]);
    lemma_digit_roundtrip(s[2]);
    lemma_digit_roundtrip(s[3]);
    lemma_digit_roundtrip(s[5]);
    lemma_digit_roundtrip(s[6]);
    lemma_digit_roundtrip(s[8]);
    lemma_digit_roundtrip(s[9]);
    lemma_digit_roundtrip(s[11]);
    lemma_digit_roundtrip(s[12]);
    lemma_digit_roundtrip(s[14]);
    lemma_digit_roundtrip(s[15]);
    assert(spec_render_datetime(y, m, d, hour_of(s), minute_of(s)) =~= s);
}

fn render_date(y: u32, m: u32, d: u32) -> (r: String)
    requires
        y <= 9999,
        m <= 99,
        d <= 99,
    ensures
        r@ == spec_render_date(y as int, m as int, d as int),
{
    let mut out = String::new();
    push_four_digits(&mut out, y);
    push_char(&mut out, '-');
    push_two_digits(&mut out, m);
    push_char(&mut out, '-');
    push_two_digits(&mut out, d);
    proof {
        assert(out@ =~= spec_render_date(y as int, m as int, d as int));
    }
    out
}

fn render_datetime(y: u32, m: u32, d: u32, h: u32, mi: u32) -> (r: String)
    requires
        y <= 9999,
        m <= 99,
        d <= 99,
        h <= 99,
        mi <= 99,
    ensures
        r@ == spec_render_datetime(y as int, m as int, d as int, h as int, mi as int),
{
    let mut out = String::new();
    push_four_digits(&mut out, y);
    push_char(&mut out, '-');
    push_two_digits(&mut out, m);
    push_char(&mut out, '-');
    push_two_digits(&mut out, d);
    push_char(&mut out, ' ');
    push_two_digits(&mut out, h);
    push_char(&mut out, ':');
    push_two_digits(&mut out, mi);
    proof {
        assert(out@ =~= spec_render_datetime(y as int, m as int, d as int, h as int, mi as int));
    }
    out
}

// ---------------------------------------------------------------------------
// Normalization
// ---------------------------------------------------------------------------

/// What `normalize` returns: the date-time reading of the input wins; a bare
/// date is tried second; a parse whose year cannot be written with four
/// digits is rejected, since no canonical form could hold it.
pub open spec fn spec_normalize(s: Seq<char>) -> Option<Seq<char>> {
    match chrono_datetime_parse(s) {
        Some(p) => if 0 <= p.0 <= 9999 {
            Some(spec_render_datetime(p.0 as int, p.1 as int, p.2 as int, p.3 as int, p.4 as int))
        } else {
            None
        },
        None => match chrono_date_parse(s) {
            Some(p) => if 0 <= p.0 <= 9999 {
                Some(spec_render_date(p.0 as int, p.1 as int, p.2 as int))
            } else {
                None
            },
            None => None,
        },
    }
}

/// Parse a raw due-date string and re-render it canonically.
///
/// A raw string that chrono reads as `YYYY-MM-DD HH:MM` (tried first) or as
/// `YYYY-MM-DD` (tried second) comes back in exactly that canonical form;
/// anything else is rejected. An input that is already canonical comes back
/// unchanged.
pub fn normalize(raw: &str) -> (r: Option<String>)
    ensures
        r matches Some(t) ==> spec_normalize(raw@) == Some(t@),
        r is None ==> spec_normalize(raw@) is None,
        r matches Some(t) ==> is_canonical_due(t@),
        is_canonical_due(raw@) ==> (r matches Some(t) && t@ == raw@),
{
    proof {
        if is_canonical_date(raw@) {
            lemma_date_roundtrip(raw@);
        }
        if is_canonical_datetime(raw@) {
            lemma_datetime_roundtrip(raw@);
        }
    }
    if let Some(p) = chrono_parse_datetime(raw) {
        let (y, mo, d, h, mi) = p;
        if 0 <= y && y <= 9999 {
            let out = render_datetime(y as u32, mo, d, h, mi);
            proof {
                lemma_render_datetime_fields(y as int, mo as int, d as int, h as int, mi as int);
            }
            Some(out)
        } else {
            None
        }
    } else if let Some(p) = chrono_parse_date(raw) {
        let (y, mo, d) = p;
        if 0 <= y && y <= 9999 {
            let out = render_date(y as u32, mo, d);
            proof {
                lemma_render_date_fields(y as int, mo as int, d as int);
            }
            Some(out)
        } else {
            None
        }
    } else {
        None
    }
}

} // verus!
