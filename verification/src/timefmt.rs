//! Human-readable durations and local times.
//!
//! Durations are rendered in three tiers: seconds alone under a minute,
//! minutes and seconds under an hour, and hours, minutes and seconds
//! beyond that, with two-digit minute and second fields. Times are
//! rendered in the local time zone, which callers inject as an offset in
//! seconds east of UTC.

use vstd::prelude::*;

use crate::dates::{civil_from_days, civil_of_day, MAX_TS};
use crate::numtext::{
    append_dec, append_four_dec, append_two_dec, dec_seq, four_dec, two_dec,
};

verus! {

/// A time-zone offset is strictly less than one day in either direction.
pub open spec fn valid_offset(off: int) -> bool {
    -86400 < off < 86400
}

/// Seconds of local time since 1970-01-01T00:00:00 local, clamped at zero
/// for the instants just before the epoch that a western offset can reach.
pub open spec fn local_secs(t: int, off: int) -> int {
    if t + off < 0 {
        0
    } else {
        t + off
    }
}

/// The local calendar day a timestamp falls on, as days since
/// 1970-01-01 local (negative just before the epoch under a western
/// offset).
pub open spec fn local_day_of(t: int, off: int) -> int {
    (t + off + 86400) / 86400 - 1
}

/// The local calendar day of a timestamp, executable form.
pub fn local_day(t: i64, off: i32) -> (r: i64)
    requires
        0 <= t <= MAX_TS,
        valid_offset(off as int),
    ensures
        r == local_day_of(t as int, off as int),
        -1 <= r <= MAX_TS / 86400 + 1,
{
    let shifted = (t + (off as i64) + 86400) as u64;
    (shifted / 86400) as i64 - 1
}

/// A timestamp in range falls on a local day in range.
pub proof fn lemma_local_day_range(t: int, off: int)
    requires
        0 <= t <= MAX_TS,
        valid_offset(off),
    ensures
        -1 <= local_day_of(t, off) <= MAX_TS / 86400 + 1,
{
    vstd::arithmetic::div_mod::lemma_div_is_ordered(0, t + off + 86400, 86400);
    vstd::arithmetic::div_mod::lemma_div_is_ordered(t + off + 86400, MAX_TS + 2 * 86400, 86400);
}

/// The text `duration` returns: `"{s}s"` under a minute, `"{m}m {ss}s"`
/// under an hour, `"{h}h {mm}m {ss}s"` beyond, with two-digit minute and
/// second fields once a larger unit is shown.
pub open spec fn duration_text(d: int) -> Seq<char> {
    if d < 60 {
        dec_seq(d) + seq!['s']
    } else if d < 3600 {
        dec_seq(d / 60) + seq!['m', ' '] + two_dec(d % 60) + seq!['s']
    } else {
        dec_seq(d / 3600) + seq!['h', ' '] + two_dec((d / 60) % 60) + seq!['m', ' ']
            + two_dec(d % 60) + seq!['s']
    }
}

/// The text `time` returns: local `HH:MM`.
pub open spec fn time_text(t: int, off: int) -> Seq<char> {
    let secs = local_secs(t, off) % 86400;
    two_dec(secs / 3600) + seq![':'] + two_dec((secs / 60) % 60)
}

/// The text `datetime` returns: local `YYYY-MM-DD HH:MM`.
pub open spec fn datetime_text(t: int, off: int) -> Seq<char> {
    let (y, m, d) = civil_of_day(local_secs(t, off) / 86400);
    four_dec(y) + seq!['-'] + two_dec(m) + seq!['-'] + two_dec(d) + seq![' '] + time_text(t, off)
}

/// Render a non-negative duration of `d` seconds.
pub fn duration(d: u64) -> (r: String)
    ensures
        r@ == duration_text(d as int),
{
    let mut s = String::new();
    if d < 60 {
        append_dec(&mut s, d);
        proof {
            reveal_strlit("s");
        }
        s.append("s");
    } else if d < 3600 {
        append_dec(&mut s, d / 60);
        proof {
            reveal_strlit("m ");
        }
        s.append("m ");
        append_two_dec(&mut s, d % 60);
        proof {
            reveal_strlit("s");
        }
        s.append("s");
    } else {
        append_dec(&mut s, d / 3600);
        proof {
            reveal_strlit("h ");
        }
        s.append("h ");
        append_two_dec(&mut s, (d / 60) % 60);
        proof {
            reveal_strlit("m ");
        }
        s.append("m ");
        append_two_dec(&mut s, d % 60);
        proof {
            reveal_strlit("s");
        }
        s.append("s");
    }
    assert(s@ =~= duration_text(d as int));
    s
}

/// The local seconds of a timestamp, executable form.
pub fn local_secs_x(t: i64, off: i32) -> (r: u64)
    requires
        0 <= t <= MAX_TS,
        valid_offset(off as int),
    ensures
        r == local_secs(t as int, off as int),
        r < MAX_TS + 86400,
{
    let shifted = t + (off as i64);
    if shifted < 0 {
        0
    } else {
        shifted as u64
    }
}

/// Render a timestamp as a local `HH:MM`.
pub fn time(t: i64, off: i32) -> (r: String)
    requires
        0 <= t <= MAX_TS,
        valid_offset(off as int),
    ensures
        r@ == time_text(t as int, off as int),
{
    let secs = local_secs_x(t, off) % 86400;
    let mut s = String::new();
    append_two_dec(&mut s, secs / 3600);
    proof {
        reveal_strlit(":");
    }
    s.append(":");
    append_two_dec(&mut s, (secs / 60) % 60);
    assert(s@ =~= time_text(t as int, off as int));
    s
}

/// Render a timestamp as a local `YYYY-MM-DD HH:MM`.
pub fn datetime(t: i64, off: i32) -> (r: String)
    requires
        0 <= t <= MAX_TS,
        valid_offset(off as int),
    ensures
        r@ == datetime_text(t as int, off as int),
{
    let day = local_secs_x(t, off) / 86400;
    let (y, m, d) = civil_from_days(day);
    let mut s = String::new();
    append_four_dec(&mut s, y);
    proof {
        reveal_strlit("-");
        reveal_strlit(" ");
    }
    s.append("-");
    append_two_dec(&mut s, m);
    s.append("-");
    append_two_dec(&mut s, d);
    s.append(" ");
    let hm = time(t, off);
    s.append(hm.as_str());
    assert(s@ =~= datetime_text(t as int, off as int));
    s
}

} // verus!
