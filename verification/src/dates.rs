//! Verified calendar arithmetic and timestamp parsing.
//!
//! The staleness reports turn `YYYY-MM-DD` dates and RFC 3339 timestamps
//! into seconds since the Unix epoch using the standard civil-calendar
//! day count; only the current time itself comes from outside.

use vstd::prelude::*;
use vstd::string::StrSliceExecFns;
use vstd::string::StringExecFns;

verus! {

/// Is `c` an ASCII decimal digit?
pub open spec fn is_digit(c: char) -> bool {
    '0' as u32 <= c as u32 && c as u32 <= '9' as u32
}

/// Every character of `s` is a digit.
pub open spec fn all_digits(s: Seq<char>) -> bool {
    forall|i: int| 0 <= i < s.len() ==> is_digit(#[trigger] s[i])
}

/// The value of a digit sequence read in base ten.
pub open spec fn digits_val(s: Seq<char>) -> int
    decreases s.len()
{
    if s.len() == 0 {
        0
    } else {
        digits_val(s.drop_last()) * 10 + (s.last() as u32 - '0' as u32)
    }
}

/// Reads the digit run `s[from..to]` as a number.
///
/// Returns `None` when any character there is not a digit.
pub fn read_digits(s: &str, from: usize, to: usize) -> (r: Option<u32>)
    requires
        from <= to <= s@.len(),
        to - from <= 6,
    ensures
        r is Some <==> all_digits(s@.subrange(from as int, to as int)),
        r is Some ==> r->Some_0 == digits_val(s@.subrange(from as int, to as int)),
{
    let mut val: u32 = 0;
    let mut j: usize = from;
    while j < to
        invariant
            from <= j <= to,
            to <= s@.len(),
            to - from <= 6,
            all_digits(s@.subrange(from as int, j as int)),
            val == digits_val(s@.subrange(from as int, j as int)),
            val < 1000000,
        decreases to - j,
    {
        let c = s.get_char(j);
        let cu: u32 = c as u32;
        if cu < 48 || cu > 57 {
            proof {
                assert(!is_digit(s@[j as int]));
                assert(s@.subrange(from as int, to as int)[j - from] == s@[j as int]);
            }
            return None;
        }
        proof {
            assert(s@.subrange(from as int, j as int + 1).drop_last() =~= s@.subrange(
                from as int,
                j as int,
            ));
            assert(s@.subrange(from as int, j as int + 1).last() == s@[j as int]);
            assert(digits_val(s@.subrange(from as int, j as int)) < 100000) by {
                lemma_digits_val_bound(s@.subrange(from as int, j as int));
            }
        }
        val = val * 10 + (cu - 48);
        j = j + 1;
    }
    proof {
        assert(s@.subrange(from as int, to as int) == s@.subrange(from as int, j as int));
    }
    Some(val)
}

/// A digit run of length at most five is below one hundred thousand.
proof fn lemma_digits_val_bound(s: Seq<char>)
    requires
        all_digits(s),
        s.len() <= 5,
    ensures
        0 <= digits_val(s) < 100000,
{
    lemma_digits_val_bound_gen(s, s.len());
    assert(pow10(0) == 1);
    assert(pow10(1) == 10);
    assert(pow10(2) == 100);
    assert(pow10(3) == 1000);
    assert(pow10(4) == 10000);
    assert(pow10(5) == 100000);
}

pub proof fn lemma_digits_val_bound_gen(s: Seq<char>, k: nat)
    requires
        all_digits(s),
        s.len() == k,
    ensures
        0 <= digits_val(s) < pow10(k as int),
    decreases k,
{
    if s.len() > 0 {
        assert(forall|i: int| 0 <= i < s.len() - 1 ==> s.drop_last()[i] == s[i]);
        lemma_digits_val_bound_gen(s.drop_last(), (k - 1) as nat);
    }
}

/// Ten to a small power.
pub open spec fn pow10(k: int) -> int
    decreases k when k >= 0
{
    if k <= 0 {
        1
    } else {
        10 * pow10(k - 1)
    }
}

/// Is `y` a leap year of the Gregorian calendar?
pub open spec fn is_leap_year(y: int) -> bool {
    y % 4 == 0 && (y % 100 != 0 || y % 400 == 0)
}

/// The number of days in a month.
pub open spec fn days_in_month(y: int, m: int) -> int {
    if m == 2 {
        if is_leap_year(y) {
            29
        } else {
            28
        }
    } else if m == 4 || m == 6 || m == 9 || m == 11 {
        30
    } else {
        31
    }
}

/// What a ten-character `YYYY-MM-DD` date parses to: its fields, when
/// they form a real calendar date.
pub open spec fn spec_parse_ymd(s: Seq<char>) -> Option<(int, int, int)> {
    if s.len() == 10 && all_digits(s.subrange(0, 4)) && s[4] == '-' && all_digits(
        s.subrange(5, 7),
    ) && s[7] == '-' && all_digits(s.subrange(8, 10)) {
        let y = digits_val(s.subrange(0, 4));
        let m = digits_val(s.subrange(5, 7));
        let d = digits_val(s.subrange(8, 10));
        if 1 <= m <= 12 && 1 <= d <= days_in_month(y, m) {
            Some((y, m, d))
        } else {
            None
        }
    } else {
        None
    }
}

/// Parses a `YYYY-MM-DD` date, validating the calendar.
pub fn parse_ymd(s: &str) -> (r: Option<(u32, u32, u32)>)
    ensures
        r is Some <==> spec_parse_ymd(s@) is Some,
        r is Some ==> {
            let f = spec_parse_ymd(s@)->Some_0;
            r->Some_0.0 == f.0 && r->Some_0.1 == f.1 && r->Some_0.2 == f.2
        },
        r is Some ==> r->Some_0.0 <= 9999 && 1 <= r->Some_0.1 <= 12 && 1 <= r->Some_0.2 <= 31,
{
    if s.unicode_len() != 10 {
        return None;
    }
    if s.get_char(4) != '-' || s.get_char(7) != '-' {
        return None;
    }
    let y = match read_digits(s, 0, 4) {
        Some(v) => v,
        None => {
            return None;
        },
    };
    let m = match read_digits(s, 5, 7) {
        Some(v) => v,
        None => {
            return None;
        },
    };
    let d = match read_digits(s, 8, 10) {
        Some(v) => v,
        None => {
            return None;
        },
    };
    if m < 1 || m > 12 {
        return None;
    }
    let leap = (y % 4 == 0) && (y % 100 != 0 || y % 400 == 0);
    let dim: u32 = if m == 2 {
        if leap {
            29
        } else {
            28
        }
    } else if m == 4 || m == 6 || m == 9 || m == 11 {
        30
    } else {
        31
    };
    if d < 1 || d > dim {
        return None;
    }
    proof {
        lemma_digits_val_bound_gen(s@.subrange(0, 4), 4);
        assert(pow10(0) == 1);
        assert(pow10(1) == 10);
        assert(pow10(2) == 100);
        assert(pow10(3) == 1000);
        assert(pow10(4) == 10000);
    }
    Some((y, m, d))
}

/// Days between 1970-01-01 and the given civil date, by the standard
/// era-based count of the proleptic Gregorian calendar.
pub open spec fn spec_epoch_days(y: int, m: int, d: int) -> int {
    let yy = if m <= 2 {
        y - 1
    } else {
        y
    };
    let era = if yy >= 0 {
        yy / 400
    } else {
        -1
    };
    let yoe = yy - era * 400;
    let mp = if m > 2 {
        m - 3
    } else {
        m + 9
    };
    let doy = (153 * mp + 2) / 5 + d - 1;
    let doe = yoe * 365 + yoe / 4 - yoe / 100 + doy;
    era * 146097 + doe - 719468
}

/// Computes the epoch day number of a date.
pub fn epoch_days(y: u32, m: u32, d: u32) -> (r: i64)
    requires
        y <= 9999,
        1 <= m <= 12,
        1 <= d <= 31,
    ensures
        r == spec_epoch_days(y as int, m as int, d as int),
{
    let yy: i64 = if m <= 2 {
        y as i64 - 1
    } else {
        y as i64
    };
    let era: i64 = if yy >= 0 {
        ((yy as u64) / 400) as i64
    } else {
        -1
    };
    let yoe: u64 = (yy - era * 400) as u64;
    let mp: u64 = if m > 2 {
        (m - 3) as u64
    } else {
        (m + 9) as u64
    };
    let doy: u64 = (153 * mp + 2) / 5 + (d as u64) - 1;
    let doe: u64 = yoe * 365 + yoe / 4 - yoe / 100 + doy;
    (era * 146097 + doe as i64) - 719468
}

/// Seconds at midnight of the given civil date.
pub open spec fn spec_epoch_secs(y: int, m: int, d: int) -> int {
    spec_epoch_days(y, m, d) * 86400
}

/// Division truncating toward zero, as machine division does.
pub open spec fn trunc_div(a: int, b: int) -> int {
    if a >= 0 {
        a / b
    } else {
        -((-a) / b)
    }
}

/// The age in whole days of a moment `ts`, seen from `now`; a negative
/// difference truncates toward zero.
pub open spec fn age_in_days(now: int, ts: int) -> int {
    trunc_div(now - ts, 86400)
}

/// The bound this crate assumes of an externally supplied timestamp, so
/// that the day arithmetic cannot overflow.
pub open spec fn reasonable_timestamp(now: int) -> bool {
    -4000000000000000000 <= now <= 4000000000000000000
}

/// Computes the whole-day age of `ts` seen from `now`.
pub fn age_days(now: i64, ts: i64) -> (r: i64)
    requires
        reasonable_timestamp(now as int),
        reasonable_timestamp(ts as int),
    ensures
        r == age_in_days(now as int, ts as int),
{
    let diff: i64 = now - ts;
    if diff >= 0 {
        ((diff as u64) / 86400) as i64
    } else {
        -((((-diff) as u64) / 86400) as i64)
    }
}

/// The decimal digit of `n`, as text.
pub open spec fn dec_digit(n: int) -> Seq<char> {
    if n == 0 {
        "0"@
    } else if n == 1 {
        "1"@
    } else if n == 2 {
        "2"@
    } else if n == 3 {
        "3"@
    } else if n == 4 {
        "4"@
    } else if n == 5 {
        "5"@
    } else if n == 6 {
        "6"@
    } else if n == 7 {
        "7"@
    } else if n == 8 {
        "8"@
    } else {
        "9"@
    }
}

/// The decimal rendering of a non-negative number.
pub open spec fn dec_str(n: int) -> Seq<char>
    decreases n when n >= 0
{
    if n < 10 {
        dec_digit(n)
    } else {
        dec_str(n / 10) + dec_digit(n % 10)
    }
}

/// Renders a number in decimal.
pub fn u64_to_string(n: u64) -> (r: String)
    ensures
        r@ == dec_str(n as int),
    decreases n,
{
    let digit: &str = match n % 10 {
        0 => "0",
        1 => "1",
        2 => "2",
        3 => "3",
        4 => "4",
        5 => "5",
        6 => "6",
        7 => "7",
        8 => "8",
        _ => "9",
    };
    if n < 10 {
        digit.to_owned()
    } else {
        u64_to_string(n / 10).concat(digit)
    }
}

/// What an RFC 3339 timestamp parses to: seconds since the epoch.
///
/// The accepted shape is `YYYY-MM-DDTHH:MM:SS`, optionally followed by a
/// fractional-second part, then `Z` or a `±HH:MM` offset.  Fractional
/// seconds are ignored; the offset is subtracted to reach UTC.
pub open spec fn spec_parse_rfc3339(s: Seq<char>) -> Option<int> {
    if s.len() < 20 {
        None
    } else {
        match spec_parse_ymd(s.subrange(0, 10)) {
            None => None,
            Some(ymd) => {
                if s[10] == 'T' && all_digits(s.subrange(11, 13)) && s[13] == ':' && all_digits(
                    s.subrange(14, 16),
                ) && s[16] == ':' && all_digits(s.subrange(17, 19)) {
                    let hh = digits_val(s.subrange(11, 13));
                    let mi = digits_val(s.subrange(14, 16));
                    let ss = digits_val(s.subrange(17, 19));
                    if hh <= 23 && mi <= 59 && ss <= 59 {
                        let base = spec_epoch_secs(ymd.0, ymd.1, ymd.2) + hh * 3600 + mi * 60 + ss;
                        spec_apply_zone(s, frac_end(s, 19), base)
                    } else {
                        None
                    }
                } else {
                    None
                }
            },
        }
    }
}

/// The index after the optional fractional-second part at `i`.
pub open spec fn frac_end(s: Seq<char>, i: int) -> int {
    if i < s.len() && s[i] == '.' {
        digits_end(s, i + 1)
    } else {
        i
    }
}

/// The first index at or after `i` holding a non-digit.
pub open spec fn digits_end(s: Seq<char>, i: int) -> int
    decreases s.len() - i when 0 <= i <= s.len()
{
    if i >= s.len() || !is_digit(s[i]) {
        i
    } else {
        digits_end(s, i + 1)
    }
}

pub proof fn lemma_digits_end(s: Seq<char>, i: int)
    requires
        0 <= i <= s.len(),
    ensures
        i <= digits_end(s, i) <= s.len(),
    decreases s.len() - i,
{
    if !(i >= s.len() || !is_digit(s[i])) {
        lemma_digits_end(s, i + 1);
    }
}

/// The timestamp with its zone part applied: `Z` keeps `base`, a
/// `±HH:MM` offset is subtracted from it; the zone must end the text.
pub open spec fn spec_apply_zone(s: Seq<char>, i: int, base: int) -> Option<int> {
    if i == s.len() - 1 && s[i] == 'Z' {
        Some(base)
    } else if i == s.len() - 6 && (s[i] == '+' || s[i] == '-') && all_digits(s.subrange(i + 1, i + 3))
        && s[i + 3] == ':' && all_digits(s.subrange(i + 4, i + 6)) {
        let off = digits_val(s.subrange(i + 1, i + 3)) * 3600 + digits_val(
            s.subrange(i + 4, i + 6),
        ) * 60;
        if s[i] == '+' {
            Some(base - off)
        } else {
            Some(base + off)
        }
    } else {
        None
    }
}

/// Reads one character and tests it for being a digit.
fn digit_at(s: &str, i: usize) -> (r: bool)
    requires
        i < s@.len(),
    ensures
        r == is_digit(s@[i as int]),
{
    let cu: u32 = s.get_char(i) as u32;
    48 <= cu && cu <= 57
}

/// Scans past the digits at `i`.
fn scan_digits(s: &str, from: usize) -> (r: usize)
    requires
        from <= s@.len(),
    ensures
        r == digits_end(s@, from as int),
{
    let n: usize = s.unicode_len();
    let mut j: usize = from;
    while j < n && digit_at(s, j)
        invariant
            from <= j <= n,
            n == s@.len(),
            digits_end(s@, from as int) == digits_end(s@, j as int),
        decreases n - j,
    {
        j = j + 1;
    }
    j
}

/// Parses an RFC 3339 timestamp to seconds since the epoch.
pub fn parse_rfc3339(s: &str) -> (r: Option<i64>)
    ensures
        r is Some <==> spec_parse_rfc3339(s@) is Some,
        r is Some ==> r->Some_0 == spec_parse_rfc3339(s@)->Some_0,
        r is Some ==> reasonable_timestamp(r->Some_0 as int),
{
    let n: usize = s.unicode_len();
    if n < 20 {
        return None;
    }
    let date: &str = s.substring_char(0, 10);
    proof {
        assert(date@ =~= s@.subrange(0, 10));
    }
    let (y, m, d) = match parse_ymd(date) {
        Some(f) => f,
        None => {
            return None;
        },
    };
    if s.get_char(10) != 'T' || s.get_char(13) != ':' || s.get_char(16) != ':' {
        return None;
    }
    let hh = match read_digits(s, 11, 13) {
        Some(v) => v,
        None => {
            return None;
        },
    };
    let mi = match read_digits(s, 14, 16) {
        Some(v) => v,
        None => {
            return None;
        },
    };
    let ss = match read_digits(s, 17, 19) {
        Some(v) => v,
        None => {
            return None;
        },
    };
    if hh > 23 || mi > 59 || ss > 59 {
        return None;
    }
    let base: i64 = epoch_days(y, m, d) * 86400 + (hh as i64) * 3600 + (mi as i64) * 60 + (
    ss as i64);
    let z: usize = if s.get_char(19) == '.' {
        scan_digits(s, 20)
    } else {
        19
    };
    proof {
        lemma_digits_end(s@, 20);
        assert(z == frac_end(s@, 19));
    }
    if z == n - 1 && s.get_char(z) == 'Z' {
        return Some(base);
    }
    if n >= 6 && z == n - 6 && (s.get_char(z) == '+' || s.get_char(z) == '-') && s.get_char(z + 3)
        == ':' {
        let oh = match read_digits(s, z + 1, z + 3) {
            Some(v) => v,
            None => {
                return None;
            },
        };
        let om = match read_digits(s, z + 4, z + 6) {
            Some(v) => v,
            None => {
                return None;
            },
        };
        let off: i64 = (oh as i64) * 3600 + (om as i64) * 60;
        if s.get_char(z) == '+' {
            return Some(base - off);
        } else {
            return Some(base + off);
        }
    }
    None
}

} // verus!
