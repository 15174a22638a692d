//! Time spans of the ref filter, and its date-window decision.
//!
//! A span is one duration (`6m`) or a pair (`1y:6m`); a duration is a
//! signed number with a unit letter — years and months approximated as
//! fifty-two and four weeks.  The filter shows a ref exactly when its
//! commit time falls strictly between `now - span` and `now`.

use vstd::prelude::*;
use vstd::string::StrSliceExecFns;
use crate::dates::{
    all_digits, digits_val, is_digit, lemma_digits_val_bound_gen, pow10, reasonable_timestamp,
};
use crate::text::{find_from, lemma_find_from, scan_to_char};

verus! {

/// Seconds of one unit letter: approximated years and months, exact
/// weeks and days; anything else is no unit.
pub open spec fn unit_secs(c: char) -> Option<int> {
    if c == 'y' {
        Some((52 * 604800) as int)
    } else if c == 'm' {
        Some((4 * 604800) as int)
    } else if c == 'w' {
        Some(604800 as int)
    } else if c == 'd' {
        Some(86400 as int)
    } else {
        None
    }
}

/// The signed number a duration body holds: an optional sign, then one
/// to eighteen digits.
pub open spec fn spec_signed_val(b: Seq<char>) -> Option<int> {
    let digits = if b.len() > 0 && (b[0] == '+' || b[0] == '-') {
        b.skip(1)
    } else {
        b
    };
    if digits.len() < 1 || digits.len() > 18 || !all_digits(digits) {
        None
    } else if b.len() > 0 && b[0] == '-' {
        Some(-digits_val(digits))
    } else {
        Some(digits_val(digits))
    }
}

/// The cap on a span: what a count of signed 64-bit seconds safely
/// holds; a larger span is rejected rather than overflowed.
pub open spec fn span_bound() -> int {
    1000000000000000000
}

/// The seconds a duration text stands for: a signed number of units,
/// within [`span_bound`].
pub open spec fn spec_duration_secs(s: Seq<char>) -> Option<int> {
    if s.len() < 1 {
        None
    } else {
        match (spec_signed_val(s.take(s.len() - 1)), unit_secs(s.last())) {
            (Some(v), Some(u)) => if -span_bound() <= v * u <= span_bound() {
                Some(v * u)
            } else {
                None
            },
            _ => None,
        }
    }
}

/// Reads an unsigned digit run of one to eighteen digits.
fn read_magnitude(s: &str, from: usize, to: usize) -> (r: Option<u64>)
    requires
        from <= to <= s@.len(),
    ensures
        r is Some <==> 1 <= to - from <= 18 && all_digits(s@.subrange(from as int, to as int)),
        r is Some ==> r->Some_0 == digits_val(s@.subrange(from as int, to as int)),
        r is Some ==> r->Some_0 < 1000000000000000000,
{
    if to == from || to - from > 18 {
        return None;
    }
    let mut val: u64 = 0;
    let mut j: usize = from;
    while j < to
        invariant
            from <= j <= to,
            to <= s@.len(),
            1 <= to - from <= 18,
            all_digits(s@.subrange(from as int, j as int)),
            val == digits_val(s@.subrange(from as int, j as int)),
            val < 1000000000000000000,
        decreases to - j,
    {
        let cu: u32 = s.get_char(j) as u32;
        if cu < 48 || cu > 57 {
            proof {
                assert(!is_digit(s@[j as int]));
                assert(s@.subrange(from as int, to as int)[j - from] == s@[j as int]);
            }
            return None;
        }
        proof {
            assert(s@.subrange(from as int, j as int + 1).drop_last() =~= s@.subrange(
                from as int,
                j as int,
            ));
            assert(s@.subrange(from as int, j as int + 1).last() == s@[j as int]);
            assert(digits_val(s@.subrange(from as int, j as int)) < 100000000000000000) by {
                lemma_digits_val_bound_gen(
                    s@.subrange(from as int, j as int),
                    (j - from) as nat,
                );
                assert(pow10(0) == 1);
                assert(pow10(1) == 10);
                assert(pow10(2) == 100);
                assert(pow10(3) == 1000);
                assert(pow10(4) == 10000);
                assert(pow10(5) == 100000);
                assert(pow10(6) == 1000000);
                assert(pow10(7) == 10000000);
                assert(pow10(8) == 100000000);
                assert(pow10(9) == 1000000000);
                assert(pow10(10) == 10000000000);
                assert(pow10(11) == 100000000000);
                assert(pow10(12) == 1000000000000);
                assert(pow10(13) == 10000000000000);
                assert(pow10(14) == 100000000000000);
                assert(pow10(15) == 1000000000000000);
                assert(pow10(16) == 10000000000000000);
                assert(pow10(17) == 100000000000000000);
            }
        }
        val = val * 10 + ((cu - 48) as u64);
        j = j + 1;
    }
    proof {
        assert(s@.subrange(from as int, to as int) == s@.subrange(from as int, j as int));
    }
    Some(val)
}

/// Parses a duration such as `6m`, `-2w` or `90d` into seconds; a span
/// beyond [`span_bound`] seconds is rejected rather than overflowed.
pub fn parse_duration(s: &str) -> (r: Option<i64>)
    ensures
        r is Some <==> spec_duration_secs(s@) is Some,
        r is Some ==> r->Some_0 == spec_duration_secs(s@)->Some_0,
        r is Some ==> -1000000000000000000 <= r->Some_0 <= 1000000000000000000,
{
    let n: usize = s.unicode_len();
    if n < 1 {
        return None;
    }
    let unit: u64 = match s.get_char(n - 1) {
        'y' => 52 * 604800,
        'm' => 4 * 604800,
        'w' => 604800,
        'd' => 86400,
        _ => {
            return None;
        },
    };
    let body_end = n - 1;
    let (neg, start): (bool, usize) = if body_end > 0 && s.get_char(0) == '-' {
        (true, 1)
    } else if body_end > 0 && s.get_char(0) == '+' {
        (false, 1)
    } else {
        (false, 0)
    };
    let magnitude = match read_magnitude(s, start, body_end) {
        Some(v) => v,
        None => {
            proof {
                assert(s@.subrange(start as int, body_end as int) =~= if start == 1 {
                    s@.take(n - 1).skip(1)
                } else {
                    s@.take(n - 1)
                });
            }
            return None;
        },
    };
    proof {
        assert(s@.subrange(start as int, body_end as int) =~= if start == 1 {
            s@.take(n - 1).skip(1)
        } else {
            s@.take(n - 1)
        });
    }
    let ghost v: int = if neg {
        -(magnitude as int)
    } else {
        magnitude as int
    };
    proof {
        assert(spec_signed_val(s@.take(n - 1)) == Some(v));
        assert(unit_secs(s@.last()) == Some(unit as int));
        assert((magnitude as int) * (unit as int) < 0x10000000000000000000000000000) by (nonlinear_arith)
            requires
                magnitude < 1000000000000000000,
                unit <= 31449600,
        ;
        assert((-(magnitude as int)) * (unit as int) == -((magnitude as int) * (unit as int)))
            by (nonlinear_arith);
        assert(0 <= (magnitude as int) * (unit as int)) by (nonlinear_arith)
            requires
                magnitude >= 0,
                unit >= 0,
        ;
    }
    let product: u128 = (magnitude as u128) * (unit as u128);
    if product > 1000000000000000000 {
        proof {
            assert(!(-span_bound() <= v * (unit as int) <= span_bound()));
        }
        return None;
    }
    let secs: i64 = product as i64;
    proof {
        assert(v * (unit as int) == if neg {
            -(secs as int)
        } else {
            secs as int
        });
    }
    if neg {
        Some(-secs)
    } else {
        Some(secs)
    }
}

/// What a span text stands for: one duration, or a `first:second` pair.
pub open spec fn spec_parse_span(s: Seq<char>) -> Option<(Option<int>, int)> {
    let c = find_from(s, ':', 0);
    if c >= s.len() {
        match spec_duration_secs(s) {
            Some(d) => Some((None, d)),
            None => None,
        }
    } else if find_from(s, ':', c + 1) < s.len() {
        None
    } else {
        match (spec_duration_secs(s.take(c)), spec_duration_secs(s.skip(c + 1))) {
            (Some(a), Some(b)) => Some((Some(a), b)),
            _ => None,
        }
    }
}

/// Parses a span: `until` alone, or `since:until`.
pub fn parse_span(s: &str) -> (r: Option<(Option<i64>, i64)>)
    ensures
        r is Some <==> spec_parse_span(s@) is Some,
        r is Some ==> {
            let f = spec_parse_span(s@)->Some_0;
            &&& (r->Some_0.0 is Some <==> f.0 is Some)
            &&& (r->Some_0.0 is Some ==> r->Some_0.0->Some_0 == f.0->Some_0)
            &&& r->Some_0.1 == f.1
        },
        r is Some ==> -1000000000000000000 <= r->Some_0.1 <= 1000000000000000000,
{
    let n: usize = s.unicode_len();
    let c = scan_to_char(s, ':', 0);
    proof {
        lemma_find_from(s@, ':', 0);
    }
    if c == n {
        return match parse_duration(s) {
            Some(d) => Some((None, d)),
            None => None,
        };
    }
    let c2 = scan_to_char(s, ':', c + 1);
    proof {
        lemma_find_from(s@, ':', c as int + 1);
    }
    if c2 < n {
        return None;
    }
    let head: &str = s.substring_char(0, c);
    let tail: &str = s.substring_char(c + 1, n);
    proof {
        assert(head@ =~= s@.take(c as int));
        assert(tail@ =~= s@.skip(c as int + 1));
    }
    let a = match parse_duration(head) {
        Some(a) => a,
        None => {
            return None;
        },
    };
    let b = match parse_duration(tail) {
        Some(b) => b,
        None => {
            return None;
        },
    };
    Some((Some(a), b))
}

/// Does the commit time fall strictly inside the window that ends now
/// and reaches `until_secs` back?
pub fn commit_in_window(commit_ts: i64, now_ts: i64, until_secs: i64) -> (r: bool)
    requires
        reasonable_timestamp(commit_ts as int),
        reasonable_timestamp(now_ts as int),
        -1000000000000000000 <= until_secs <= 1000000000000000000,
    ensures
        r == (now_ts - until_secs < commit_ts < now_ts),
{
    let since: i64 = now_ts - until_secs;
    since < commit_ts && commit_ts < now_ts
}

} // verus!
