//! Turning a humanized date string (`today 9am`, `2018-1-1`) into a
//! timestamp, through the machine's local time zone.

use vstd::prelude::*;

use crate::dates::MAX_TS;
use crate::numtext::{digit_of, is_digit};

verus! {

/// Seven decimal digits in a row starting at `i`.
pub open spec fn digit_run_at(s: Seq<char>, i: int) -> bool {
    forall|j: int| i <= j <= i + 6 ==> is_digit(#[trigger] s[j])
}

/// Text the humanized-date parser handles without panicking: ASCII
/// throughout (its weekday, month and unit lookups slice the first
/// bytes of a word), with no run of seven decimal digits (six digits
/// cap every count at 999999, keeping the widest relative span — weeks
/// — thousands of years, well inside chrono's representable range, and
/// the zone-offset arithmetic inside its integer type).
pub open spec fn safe_date_text(s: Seq<char>) -> bool {
    &&& forall|i: int| 0 <= i < s.len() ==> ((#[trigger] s[i]) as u32) < 128
    &&& forall|i: int| 0 <= i && i + 6 < s.len() ==> !digit_run_at(s, i)
}

/// Whether a date string may be handed to the parser.
pub fn is_safe_date_text(s: &str) -> (r: bool)
    ensures
        r == safe_date_text(s@),
{
    let n = s.unicode_len();
    let mut run: usize = 0;
    let mut i: usize = 0;
    while i < n
        invariant
            i <= n,
            n == s@.len(),
            run <= i,
            run <= 6,
            forall|j: int| i - run <= j < i ==> is_digit(#[trigger] s@[j]),
            run < i ==> !is_digit(s@[i - run - 1]),
            forall|j: int| 0 <= j < i ==> ((#[trigger] s@[j]) as u32) < 128,
            forall|w: int| 0 <= w && w + 6 < i ==> !digit_run_at(s@, w),
        decreases n - i,
    {
        let ghost run0 = run as int;
        let c = s.get_char(i);
        if (c as u32) >= 128 {
            proof {
                assert(!safe_date_text(s@)) by {
                    if safe_date_text(s@) {
                        assert((s@[i as int] as u32) < 128);
                    }
                }
            }
            return false;
        }
        if digit_of(c).is_some() {
            if run == 6 {
                proof {
                    assert(digit_run_at(s@, i - 6)) by {
                        assert(forall|j: int|
                            i - 6 <= j < i ==> is_digit(#[trigger] s@[j]));
                        assert(is_digit(s@[i as int]));
                    }
                    assert(!safe_date_text(s@)) by {
                        if safe_date_text(s@) {
                            assert(!digit_run_at(s@, i - 6));
                        }
                    }
                }
                return false;
            }
            run = run + 1;
        } else {
            run = 0;
        }
        proof {
            assert forall|w: int| 0 <= w && w + 6 < i + 1 implies !digit_run_at(s@, w) by {
                if w + 6 == i {
                    if is_digit(s@[i as int]) {
                        // At most six digits end at `i` (a seventh
                        // returned above), so a non-digit sits inside
                        // the window, just left of them.
                        assert(run0 < i);
                        assert(!is_digit(s@[i - run0 - 1]));
                        assert(w <= i - run0 - 1 <= w + 6);
                    } else {
                        assert(!is_digit(s@[i as int]));
                    }
                }
            }
        }
        i = i + 1;
    }
    proof {
        assert(safe_date_text(s@));
    }
    true
}

/// Relies on `chrono_english::parse_date_string` with the US dialect,
/// anchored at `now_ts` in the machine's local time zone, and on
/// chrono's timestamp conversions. The result depends on the machine's
/// time zone, so nothing is promised of the value. The precondition
/// keeps out the parser's panic paths: its name lookups slice the
/// first one or three bytes of a word (so only ASCII may go in), and
/// its relative-date arithmetic unwraps the sum of the span with the
/// anchor (so counts stay at six digits and the anchor inside the
/// supported era, keeping every span chrono-representable).
#[verifier::external_body]
pub fn parse_date_local(text: &str, now_ts: i64) -> (r: Option<i64>)
    requires
        0 <= now_ts <= MAX_TS,
        safe_date_text(text@),
{
    let now_utc = match chrono::DateTime::from_timestamp(now_ts, 0) {
        Some(t) => t,
        None => {
            return None;
        },
    };
    let now_local = now_utc.with_timezone(&chrono::Local);
    match chrono_english::parse_date_string(text, now_local, chrono_english::Dialect::Us) {
        Ok(t) => Some(t.timestamp()),
        Err(_) => None,
    }
}

} // verus!
