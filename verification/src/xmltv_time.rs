//! XMLTV timestamps ("YYYYMMDDHHMMSS ±HHMM") and clock times.
use vstd::prelude::*;
use vstd::utf8::{encode_utf8, is_char_boundary};
use crate::text::{chars_of, string_of, trim, trim_chars};

verus! {

// ─── Decimal fields ──────────────────────────────────────────────────────────

/// An ASCII digit.
pub open spec fn is_digit_byte(c: u8) -> bool {
    48 <= c && c <= 57
}

/// The number that a run of ASCII digits spells.
pub open spec fn digits_value(ds: Seq<u8>) -> int
    decreases ds.len(),
{
    if ds.len() == 0 {
        0
    } else {
        digits_value(ds.drop_last()) * 10 + (ds.last() - 48)
    }
}

pub open spec fn all_digits(ds: Seq<u8>) -> bool {
    forall|i: int| 0 <= i < ds.len() ==> is_digit_byte(#[trigger] ds[i])
}

/// What `str::parse` gives for an integer written in `b` (short enough that
/// it cannot overflow): an optional `+` (or `-` when `signed`) and at least
/// one ASCII digit; `None` for anything else.
pub open spec fn parse_integer(b: Seq<u8>, signed: bool) -> Option<int> {
    if b.len() == 0 {
        None
    } else if b[0] == 43 || (signed && b[0] == 45) {
        let ds = b.drop_first();
        if ds.len() > 0 && all_digits(ds) {
            Some(
                if b[0] == 45 {
                    -digits_value(ds)
                } else {
                    digits_value(ds)
                },
            )
        } else {
            None
        }
    } else if all_digits(b) {
        Some(digits_value(b))
    } else {
        None
    }
}

/// The integer in `b[lo..hi]`, or 0 where it does not parse.
pub open spec fn field(b: Seq<u8>, lo: int, hi: int, signed: bool) -> int {
    match parse_integer(b.subrange(lo, hi), signed) {
        Some(v) => v,
        None => 0,
    }
}

pub open spec fn pow10(n: nat) -> int
    decreases n,
{
    if n == 0 {
        1
    } else {
        10 * pow10((n - 1) as nat)
    }
}

proof fn lemma_digits_bound(ds: Seq<u8>)
    requires
        all_digits(ds),
    ensures
        0 <= digits_value(ds) < pow10(ds.len()),
    decreases ds.len(),
{
    if ds.len() > 0 {
        lemma_digits_bound(ds.drop_last());
    }
}

/// The value of the ASCII digits `b[lo..hi]`, or `None` when one is not a digit.
fn digits_in(b: &[u8], lo: usize, hi: usize) -> (r: Option<u64>)
    requires
        lo <= hi <= b@.len(),
        hi - lo <= 4,
    ensures
        all_digits(b@.subrange(lo as int, hi as int)) <==> r is Some,
        r matches Some(v) ==> v == digits_value(b@.subrange(lo as int, hi as int)) && v < pow10(
            (hi - lo) as nat,
        ),
{
    let mut v: u64 = 0;
    let mut i = lo;
    while i < hi
        invariant
            lo <= i <= hi <= b@.len(),
            hi - lo <= 4,
            all_digits(b@.subrange(lo as int, i as int)),
            v == digits_value(b@.subrange(lo as int, i as int)),
            v < pow10((i - lo) as nat),
        decreases hi - i,
    {
        let c = b[i];
        if c < 48 || c > 57 {
            assert(b@.subrange(lo as int, hi as int)[i - lo] == c);
            return None;
        }
        assert(b@.subrange(lo as int, i + 1).drop_last() == b@.subrange(lo as int, i as int));
        assert(pow10((i + 1 - lo) as nat) == 10 * pow10((i - lo) as nat));
        assert(pow10(4) == 10000) by {
            reveal_with_fuel(pow10, 5);
        }
        assert(pow10((i - lo) as nat) <= 1000) by {
            reveal_with_fuel(pow10, 5);
        }
        v = v * 10 + (c - 48) as u64;
        i += 1;
    }
    Some(v)
}

/// `str::parse` of the integer in `b[lo..hi]`, at most 4 bytes long, or 0.
fn field_in(b: &[u8], lo: usize, hi: usize, signed: bool) -> (r: i64)
    requires
        lo < hi <= b@.len(),
        hi - lo <= 4,
    ensures
        r == field(b@, lo as int, hi as int, signed),
        -1000 < r < 10000,
        !signed ==> 0 <= r,
        hi - lo <= 2 ==> -100 < r < 100,
{
    let ghost f = b@.subrange(lo as int, hi as int);
    let c = b[lo];
    assert(f[0] == c);
    assert(pow10(1) == 10 && pow10(2) == 100 && pow10(3) == 1000 && pow10(4) == 10000) by {
        reveal_with_fuel(pow10, 5);
    }
    if c == 43 || (signed && c == 45) {
        assert(f.drop_first() == b@.subrange(lo + 1, hi as int));
        if hi - lo < 2 {
            return 0;
        }
        match digits_in(b, lo + 1, hi) {
            Some(v) => {
                if c == 45 {
                    -(v as i64)
                } else {
                    v as i64
                }
            },
            None => 0,
        }
    } else {
        match digits_in(b, lo, hi) {
            Some(v) => v as i64,
            None => 0,
        }
    }
}

// ─── Calendar ────────────────────────────────────────────────────────────────

/// Days from 1970-01-01 to year `y`, month `m`, day `d` of the proleptic
/// Gregorian calendar, by Howard Hinnant's `days_from_civil` (with floor
/// division; out-of-range months and days fall where the formula puts them).
pub open spec fn civil_days(y: int, m: int, d: int) -> int {
    let y2 = if m <= 2 {
        y - 1
    } else {
        y
    };
    let era = y2 / 400;
    let yoe = y2 - era * 400;
    let mp = if m > 2 {
        m - 3
    } else {
        m + 9
    };
    let doy = (153 * mp + 2) / 5 + d - 1;
    let doe = yoe * 365 + yoe / 4 - yoe / 100 + doy;
    era * 146097 + doe - 719468
}

/// The day of the year (from March) is computed without going below zero.
pub open spec fn day_of_year_defined(m: int, d: int) -> bool {
    let mp = if m > 2 {
        m - 3
    } else {
        m + 9
    };
    (153 * mp + 2) / 5 + d >= 1
}

fn days_from_civil(y: i64, m: u64, d: u64) -> (r: i64)
    requires
        -1000 < y < 10000,
        m < 100,
        d < 100,
        day_of_year_defined(m as int, d as int),
    ensures
        r == civil_days(y as int, m as int, d as int),
{
    let y2: i64 = if m <= 2 {
        y - 1
    } else {
        y
    };
    let era: i64 = if y2 >= 0 {
        y2 / 400
    } else {
        let n = (-y2) as u64;
        -(((n + 399) / 400) as i64)
    };
    assert(era == y2 / 400) by (nonlinear_arith)
        requires
            -1001 <= y2 < 10000,
            y2 >= 0 ==> era == y2 / 400,
            y2 < 0 ==> era == -((-y2 + 399) / 400),
    ;
    let yoe = (y2 - era * 400) as u64;
    assert(0 <= y2 - era * 400 < 400);
    let mp: u64 = if m > 2 {
        m - 3
    } else {
        m + 9
    };
    let doy = (153 * mp + 2) / 5 + d - 1;
    let doe = yoe * 365 + yoe / 4 - yoe / 100 + doy;
    era * 146097 + doe as i64 - 719468
}

// ─── Timestamps ──────────────────────────────────────────────────────────────

/// The UTF-8 bytes of the trimmed timestamp text.
pub open spec fn stamp_bytes(s: Seq<char>) -> Seq<u8> {
    encode_utf8(trim(s))
}

/// Seconds since the epoch of the local date and time in `b`.
pub open spec fn local_seconds(b: Seq<u8>) -> int {
    let days = civil_days(field(b, 0, 4, true), field(b, 4, 6, false), field(b, 6, 8, false));
    days * 86400 + field(b, 8, 10, false) * 3600 + field(b, 10, 12, false) * 60 + field(
        b,
        12,
        14,
        false,
    )
}

/// The time-zone offset in seconds: `±HHMM` at byte 15 when the text has at
/// least 20 bytes (a `-` at byte 15 makes it negative), else 0.
pub open spec fn zone_offset(b: Seq<u8>) -> int {
    if b.len() >= 20 {
        let magnitude = field(b, 16, 18, true) * 3600 + field(b, 18, 20, true) * 60;
        if b[15] == 45 {
            -magnitude
        } else {
            magnitude
        }
    } else {
        0
    }
}

/// The UNIX time of an XMLTV timestamp: 0 for text shorter than 14 bytes;
/// otherwise local time minus the zone offset, wrapped into `u64`.
pub open spec fn xmltv_timestamp(s: Seq<char>) -> u64 {
    let b = stamp_bytes(s);
    if b.len() < 14 {
        0
    } else {
        let v = local_seconds(b) - zone_offset(b);
        if v >= 0 {
            v as u64
        } else {
            (v + 0x1_0000_0000_0000_0000) as u64
        }
    }
}

/// The inputs on which the timestamp is computed without a fault: the fields
/// are cut at character boundaries, the day of the year does not go below
/// zero, and the date is not before 1970.
pub open spec fn timestamp_defined(s: Seq<char>) -> bool {
    let b = stamp_bytes(s);
    b.len() < 14 || {
        &&& is_char_boundary(b, 4)
        &&& is_char_boundary(b, 6)
        &&& is_char_boundary(b, 8)
        &&& is_char_boundary(b, 10)
        &&& is_char_boundary(b, 12)
        &&& is_char_boundary(b, 14)
        &&& day_of_year_defined(field(b, 4, 6, false), field(b, 6, 8, false))
        &&& civil_days(field(b, 0, 4, true), field(b, 4, 6, false), field(b, 6, 8, false)) >= 0
        &&& b.len() >= 20 ==> {
            &&& is_char_boundary(b, 16)
            &&& is_char_boundary(b, 18)
            &&& is_char_boundary(b, 20)
        }
    }
}

/// Parses an XMLTV timestamp "YYYYMMDDHHMMSS ±HHMM" into a UNIX time,
/// or `None` on the inputs that `parse_xmltv_timestamp` does not accept.
pub fn parse_xmltv_timestamp_checked(s: &str) -> (r: Option<u64>)
    ensures
        r is Some <==> timestamp_defined(s@),
        r matches Some(t) ==> t == xmltv_timestamp(s@),
{
    let cs = chars_of(s);
    let tc = trim_chars(&cs);
    let owned = string_of(&tc);
    let t = owned.as_str();
    let b = t.as_bytes();
    assert(b@ == stamp_bytes(s@));
    if b.len() < 14 {
        return Some(0);
    }
    if !(t.is_char_boundary(4) && t.is_char_boundary(6) && t.is_char_boundary(8)
        && t.is_char_boundary(10) && t.is_char_boundary(12) && t.is_char_boundary(14)) {
        return None;
    }
    let year = field_in(b, 0, 4, true);
    let month = field_in(b, 4, 6, false) as u64;
    let day = field_in(b, 6, 8, false) as u64;
    let hour = field_in(b, 8, 10, false) as u64;
    let minute = field_in(b, 10, 12, false) as u64;
    let second = field_in(b, 12, 14, false) as u64;
    let mp: u64 = if month > 2 {
        month - 3
    } else {
        month + 9
    };
    if (153 * mp + 2) / 5 + day < 1 {
        return None;
    }
    let days = days_from_civil(year, month, day);
    if days < 0 {
        return None;
    }
    assert(days <= 4_000_000) by (nonlinear_arith)
        requires
            days == civil_days(year as int, month as int, day as int),
            year < 10000,
            month < 100,
            day < 100,
    ;
    let unix_local = days as u64 * 86400 + hour * 3600 + minute * 60 + second;
    let tz: i64 = if b.len() >= 20 {
        if !(t.is_char_boundary(16) && t.is_char_boundary(18) && t.is_char_boundary(20)) {
            return None;
        }
        let h = field_in(b, 16, 18, true);
        let m = field_in(b, 18, 20, true);
        if b[15] == 45 {
            -(h * 3600 + m * 60)
        } else {
            h * 3600 + m * 60
        }
    } else {
        0
    };
    assert(unix_local == local_seconds(b@));
    assert(tz == zone_offset(b@));
    assert(unix_local < 0x1000_0000_0000);
    assert(-1_000_000 < tz < 1_000_000);
    let v = unix_local as i64 - tz;
    if v >= 0 {
        Some(v as u64)
    } else {
        let w = (-v) as u64;
        Some(u64::MAX - w + 1)
    }
}

/// Parses an XMLTV timestamp "YYYYMMDDHHMMSS ±HHMM" into a UNIX time.
pub fn parse_xmltv_timestamp(s: &str) -> (t: u64)
    requires
        timestamp_defined(s@),
    ensures
        t == xmltv_timestamp(s@),
{
    match parse_xmltv_timestamp_checked(s) {
        Some(t) => t,
        None => 0,
    }
}

// ─── Clock times ─────────────────────────────────────────────────────────────

/// The ASCII digit for `n` (0..=9).
pub open spec fn digit_char(n: int) -> char {
    (48 + n) as char
}

/// `n` (0..=99) as two digits.
pub open spec fn two_digits(n: int) -> Seq<char> {
    seq![digit_char(n / 10), digit_char(n % 10)]
}

/// "HH:MM" of the time of day of a UNIX time.
pub open spec fn clock_text(ts: u64) -> Seq<char> {
    let day_secs = ts % 86400;
    two_digits((day_secs / 3600) as int) + seq![':'] + two_digits(((day_secs % 3600) / 60) as int)
}

fn digit(n: u64) -> (c: char)
    requires
        n < 10,
    ensures
        c == digit_char(n as int),
{
    ((48 + n) as u8) as char
}

/// Formats the time of day of a UNIX time as "HH:MM".
pub fn format_time(ts: u64) -> (r: String)
    ensures
        r@ == clock_text(ts),
{
    let secs_in_day = ts % 86400;
    let h = secs_in_day / 3600;
    let m = (secs_in_day % 3600) / 60;
    let v: Vec<char> = vec![digit(h / 10), digit(h % 10), ':', digit(m / 10), digit(m % 10)];
    assert(v@ == clock_text(ts));
    string_of(&v)
}

// ─── Laws ────────────────────────────────────────────────────────────────────

/// The Gregorian leap years.
pub open spec fn is_leap_year(y: int) -> bool {
    (y % 4 == 0 && y % 100 != 0) || y % 400 == 0
}

/// Day numbers count days: 1970-01-01 is day 0, the day after a day is
/// the next number, and the first of March follows the last day of
/// February, which is the 29th in leap years and the 28th otherwise.
pub proof fn civil_days_count_days(y: int, m: int, d: int)
    ensures
        civil_days(1970, 1, 1) == 0,
        civil_days(y, m, d + 1) == civil_days(y, m, d) + 1,
        civil_days(y, 3, 1) == civil_days(
            y,
            2,
            if is_leap_year(y) {
                29
            } else {
                28
            },
        ) + 1,
{
    let era = y / 400;
    let yoe = y - era * 400;
    let era1 = (y - 1) / 400;
    let yoe1 = (y - 1) - era1 * 400;
    assert(0 <= yoe < 400 && y == era * 400 + yoe);
    assert(0 <= yoe1 < 400 && y - 1 == era1 * 400 + yoe1);
    if yoe == 0 {
        assert(era1 == era - 1 && yoe1 == 399) by (nonlinear_arith)
            requires
                y == era * 400,
                y - 1 == era1 * 400 + yoe1,
                0 <= yoe1 < 400,
        ;
        assert(is_leap_year(y)) by (nonlinear_arith)
            requires
                y == era * 400,
        ;
    } else {
        assert(era1 == era && yoe1 == yoe - 1) by (nonlinear_arith)
            requires
                y == era * 400 + yoe,
                1 <= yoe < 400,
                y - 1 == era1 * 400 + yoe1,
                0 <= yoe1 < 400,
        ;
        assert(is_leap_year(y) <==> (yoe % 4 == 0 && yoe % 100 != 0)) by (nonlinear_arith)
            requires
                y == era * 400 + yoe,
                1 <= yoe < 400,
        ;
        assert(yoe / 4 - (yoe - 1) / 4 == if yoe % 4 == 0 { 1int } else { 0 }) by (nonlinear_arith)
            requires
                1 <= yoe < 400,
        ;
        assert(yoe / 100 - (yoe - 1) / 100 == if yoe % 100 == 0 { 1int } else { 0 }) by (nonlinear_arith)
            requires
                1 <= yoe < 400,
        ;
    }
}

/// A timestamp with no zone, or zone +0000, reads as the local time itself;
/// a zone east of UTC puts the instant earlier.
pub proof fn zone_offset_shifts_time(b: Seq<u8>)
    requires
        b.len() >= 20,
        b[15] == 43,
    ensures
        zone_offset(b) == field(b, 16, 18, true) * 3600 + field(b, 18, 20, true) * 60,
{
}

} // verus!
