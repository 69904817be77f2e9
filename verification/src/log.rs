//! The log: every period, grouped by the local calendar day it
//! started on.
//!
//! Days appear in ascending order, each under a header with the day's
//! summed time; a day's periods appear ordered by start instant (ties
//! in the order the store holds them), with their durations
//! right-aligned.

use vstd::prelude::*;

use crate::dates::MAX_TS;
use crate::period::{Doug, Period, PeriodView};
use crate::report::{day_label, day_label_x, pad_left, period_secs_in, sat64, sat_add};
use crate::timefmt::{duration, duration_text, local_day, local_day_of, time, time_text,
    valid_offset};
use crate::DougError;

verus! {

/// Whether the day list holds `d`.
pub open spec fn days_has(days: Seq<i64>, d: int) -> bool {
    exists|i: int| 0 <= i < days.len() && (#[trigger] days[i]) == d
}

/// Whether some period of the store starts on local day `d`.
pub open spec fn store_has_day(s: Seq<PeriodView>, off: int, d: int) -> bool {
    exists|k: int| 0 <= k < s.len() && local_day_of((#[trigger] s[k]).start_time, off) == d
}

/// What the log's day list must be: strictly ascending, holding
/// exactly the local days on which some period starts.
pub open spec fn days_ok(s: Seq<PeriodView>, off: int, days: Seq<i64>) -> bool {
    &&& forall|i: int, j: int| 0 <= i < j < days.len() ==> days[i] < days[j]
    &&& forall|k: int|
        0 <= k < s.len() ==> days_has(days, local_day_of((#[trigger] s[k]).start_time, off))
    &&& forall|i: int| 0 <= i < days.len() ==> store_has_day(s, off, #[trigger] days[i] as int)
}

/// The summed seconds of the periods starting on local day `d`.
pub open spec fn day_total(s: Seq<PeriodView>, d: int, off: int, now: int) -> int
    decreases s.len(),
{
    if s.len() == 0 {
        0
    } else {
        day_total(s.drop_last(), d, off, now) + (if local_day_of(s.last().start_time, off)
            == d {
            period_secs_in(s.last(), None, now)
        } else {
            0
        })
    }
}

/// The width a day's duration column is aligned to: the widest
/// rendered duration of the day, and at least eleven.
pub open spec fn day_width(s: Seq<PeriodView>, d: int, off: int, now: int) -> int
    decreases s.len(),
{
    if s.len() == 0 {
        11
    } else {
        let r = day_width(s.drop_last(), d, off, now);
        if local_day_of(s.last().start_time, off) == d && duration_text(
            period_secs_in(s.last(), None, now),
        ).len() > r {
            duration_text(period_secs_in(s.last(), None, now)).len() as int
        } else {
            r
        }
    }
}

/// One line of the log: start, end (a running period ends now), the
/// aligned duration, and the project.
pub open spec fn log_line(p: PeriodView, now: int, off: int, wd: int) -> Seq<char> {
    "    "@ + time_text(p.start_time, off) + " to "@ + (match p.end_time {
        Some(e) => time_text(e, off),
        None => time_text(now, off),
    }) + " "@ + pad_left(duration_text(period_secs_in(p, None, now)), wd) + " "@ + p.project
        + "\n"@
}

/// The earliest start instant, later than `above`, of a period on
/// local day `d` — if the day still has one.
pub open spec fn least_start_above(
    s: Seq<PeriodView>,
    d: int,
    off: int,
    above: int,
) -> Option<int>
    decreases s.len(),
{
    if s.len() == 0 {
        None
    } else {
        let r = least_start_above(s.drop_last(), d, off, above);
        let p = s.last();
        if local_day_of(p.start_time, off) == d && p.start_time > above {
            match r {
                Some(x) => if p.start_time < x {
                    Some(p.start_time)
                } else {
                    Some(x)
                },
                None => Some(p.start_time),
            }
        } else {
            r
        }
    }
}

/// The lines of the day's periods starting exactly at `t`, in store
/// order.
pub open spec fn start_lines(
    s: Seq<PeriodView>,
    d: int,
    t: int,
    off: int,
    now: int,
    wd: int,
) -> Seq<char>
    decreases s.len(),
{
    if s.len() == 0 {
        Seq::empty()
    } else {
        start_lines(s.drop_last(), d, t, off, now, wd) + (if local_day_of(
            s.last().start_time,
            off,
        ) == d && s.last().start_time == t {
            log_line(s.last(), now, off, wd)
        } else {
            Seq::empty()
        })
    }
}

/// The lines of one day, ordered by start instant: the lines of each
/// start in turn, from the earliest on. Ties keep store order.
pub open spec fn day_lines(
    s: Seq<PeriodView>,
    d: int,
    off: int,
    now: int,
    wd: int,
    above: int,
) -> Seq<char>
    decreases MAX_TS - above,
{
    if above >= MAX_TS {
        Seq::empty()
    } else {
        match least_start_above(s, d, off, above) {
            None => Seq::empty(),
            Some(t) => if above < t <= MAX_TS {
                start_lines(s, d, t, off, now, wd) + day_lines(s, d, off, now, wd, t)
            } else {
                Seq::empty()
            },
        }
    }
}

/// One day of the log: its header and its lines.
pub open spec fn day_block(s: Seq<PeriodView>, d: int, off: int, now: int) -> Seq<char> {
    day_label(d) + " ("@ + duration_text(sat64(day_total(s, d, off, now))) + ")\n"@ + day_lines(
        s,
        d,
        off,
        now,
        day_width(s, d, off, now),
        -1,
    )
}

/// The blocks of the listed days, one after another.
pub open spec fn log_blocks(s: Seq<PeriodView>, days: Seq<i64>, off: int, now: int) -> Seq<char>
    decreases days.len(),
{
    if days.len() == 0 {
        Seq::empty()
    } else {
        log_blocks(s, days.drop_last(), off, now) + day_block(s, days.last() as int, off, now)
    }
}

/// What `log` promises of its message: the blocks of the store's days
/// in ascending order.
pub open spec fn log_msg_ok(s: Seq<PeriodView>, now: int, off: int, msg: Seq<char>) -> bool {
    exists|days: Seq<i64>|
        #![trigger days_ok(s, off, days)]
        days_ok(s, off, days) && msg == log_blocks(s, days, off, now)
}

/// A day's total is never negative.
proof fn lemma_day_total_nonneg(s: Seq<PeriodView>, d: int, off: int, now: int)
    ensures
        day_total(s, d, off, now) >= 0,
    decreases s.len(),
{
    if s.len() > 0 {
        lemma_day_total_nonneg(s.drop_last(), d, off, now);
    }
}

/// Every duration of the day fits the day's column width.
proof fn lemma_day_width_ge(s: Seq<PeriodView>, d: int, off: int, now: int, i: int)
    requires
        0 <= i < s.len(),
        local_day_of(s[i].start_time, off) == d,
    ensures
        day_width(s, d, off, now) >= duration_text(period_secs_in(s[i], None, now)).len(),
    decreases s.len(),
{
    if i < s.len() - 1 {
        lemma_day_width_ge(s.drop_last(), d, off, now, i);
    }
}

/// Sort distinct days ascending, keeping exactly the same days.
fn sort_days(days: Vec<i64>) -> (r: Vec<i64>)
    requires
        forall|i: int, j: int| 0 <= i < j < days@.len() ==> days@[i] != days@[j],
    ensures
        forall|i: int, j: int| 0 <= i < j < r@.len() ==> r@[i] < r@[j],
        forall|i: int| 0 <= i < r@.len() ==> days_has(days@, #[trigger] r@[i] as int),
        forall|j: int| 0 <= j < days@.len() ==> days_has(r@, #[trigger] days@[j] as int),
{
    let n = days.len();
    let mut out: Vec<i64> = Vec::new();
    let mut k: usize = 0;
    while k < n
        invariant
            k <= n,
            n == days@.len(),
            forall|i: int, j: int| 0 <= i < j < days@.len() ==> days@[i] != days@[j],
            forall|i: int, j: int| 0 <= i < j < out@.len() ==> out@[i] < out@[j],
            forall|i: int|
                0 <= i < out@.len() ==> exists|j: int|
                    0 <= j < k && (#[trigger] out@[i]) == days@[j],
            forall|j: int| 0 <= j < k ==> days_has(out@, #[trigger] days@[j] as int),
        decreases n - k,
    {
        let d = days[k];
        let m = out.len();
        let mut pos: usize = 0;
        while pos < m && out[pos] < d
            invariant
                pos <= m,
                m == out@.len(),
                forall|q: int| 0 <= q < pos ==> out@[q] < d,
            decreases m - pos,
        {
            pos = pos + 1;
        }
        let ghost before = out@;
        out.insert(pos, d);
        proof {
            before.insert_ensures(pos as int, d);
            assert(forall|q: int| 0 <= q < pos ==> out@[q] == before[q]);
            assert(forall|q: int| pos < q < out@.len() ==> out@[q] == before[q - 1]);
            assert(out@[pos as int] == d);
            assert forall|i: int|
                0 <= i < before.len() implies (#[trigger] before[i]) != d by {
                let j = choose|j: int| 0 <= j < k && before[i] == days@[j];
            }
            assert forall|i: int, j: int|
                0 <= i < j < out@.len() implies out@[i] < out@[j] by {
                if j == pos {
                    assert(out@[i] == before[i]);
                } else if i == pos {
                    assert(out@[j] == before[j - 1]);
                    if pos < before.len() {
                        assert(!(before[pos as int] < d));
                        assert(before[pos as int] != d);
                    }
                }
            }
            assert forall|j: int|
                0 <= j < k + 1 implies days_has(out@, #[trigger] days@[j] as int) by {
                if j == k {
                    assert(out@[pos as int] == days@[j]);
                } else {
                    let i = choose|i: int|
                        0 <= i < before.len() && (#[trigger] before[i]) == days@[j];
                    if i < pos {
                        assert(out@[i] == days@[j]);
                    } else {
                        assert(out@[i + 1] == days@[j]);
                    }
                }
            }
        }
        k = k + 1;
    }
    out
}

/// Render one line of the log.
fn log_line_x(p: &Period, now: i64, off: i32, wd: usize) -> (r: String)
    requires
        crate::period::period_wf(p@),
        0 <= now <= MAX_TS,
        valid_offset(off as int),
        wd >= duration_text(period_secs_in(p@, None, now as int)).len(),
    ensures
        r@ == log_line(p@, now as int, off as int, wd as int),
{
    let mut out = String::new();
    proof {
        reveal_strlit("    ");
        reveal_strlit(" to ");
        reveal_strlit(" ");
        reveal_strlit("\n");
    }
    out.append("    ");
    let t1 = time(p.start_time, off);
    out.append(t1.as_str());
    out.append(" to ");
    match p.end_time {
        Some(e) => {
            let t2 = time(e, off);
            out.append(t2.as_str());
        },
        None => {
            let t2 = time(now, off);
            out.append(t2.as_str());
        },
    }
    out.append(" ");
    let secs = crate::report::period_secs_x(p, None, now);
    let dtext = duration(secs);
    let dl = dtext.as_str().unicode_len();
    crate::numtext::append_spaces(&mut out, wd - dl);
    out.append(dtext.as_str());
    out.append(" ");
    out.append(p.project.as_str());
    out.append("\n");
    assert(out@ =~= log_line(p@, now as int, off as int, wd as int));
    out
}

impl Doug {
    /// The distinct local days the store's periods start on, in the
    /// order they first appear.
    fn collect_days(&self, off: i32) -> (r: Vec<i64>)
        requires
            self.wf(),
            valid_offset(off as int),
        ensures
            forall|i: int, j: int| 0 <= i < j < r@.len() ==> r@[i] != r@[j],
            forall|k: int|
                0 <= k < self@.len() ==> days_has(
                    r@,
                    local_day_of((#[trigger] self@[k]).start_time, off as int),
                ),
            forall|i: int| 0 <= i < r@.len() ==> store_has_day(self@, off as int, #[trigger] r@[i] as int),
    {
        let mut days: Vec<i64> = Vec::new();
        let n = self.periods.len();
        let mut k: usize = 0;
        while k < n
            invariant
                k <= n,
                n == self@.len(),
                self.wf(),
                valid_offset(off as int),
                forall|i: int, j: int| 0 <= i < j < days@.len() ==> days@[i] != days@[j],
                forall|q: int|
                    0 <= q < k ==> days_has(
                        days@,
                        local_day_of((#[trigger] self@[q]).start_time, off as int),
                    ),
                forall|i: int|
                    0 <= i < days@.len() ==> store_has_day(
                        self@,
                        off as int,
                        #[trigger] days@[i] as int,
                    ),
            decreases n - k,
        {
            let d = local_day(self.periods[k].start_time, off);
            let m = days.len();
            let mut found = false;
            let mut i: usize = 0;
            while i < m
                invariant
                    i <= m,
                    m == days@.len(),
                    d == local_day_of(self@[k as int].start_time, off as int),
                    k < n == self@.len(),
                    found <==> exists|q: int| 0 <= q < i && (#[trigger] days@[q]) == d,
                decreases m - i,
            {
                if days[i] == d {
                    found = true;
                }
                i = i + 1;
            }
            let ghost oldd = days@;
            if !found {
                days.push(d);
            }
            proof {
                assert forall|q: int|
                    0 <= q < k + 1 implies days_has(
                    days@,
                    local_day_of((#[trigger] self@[q]).start_time, off as int),
                ) by {
                    if q == k {
                        if found {
                            let i = choose|i: int|
                                0 <= i < oldd.len() && (#[trigger] oldd[i]) == d;
                            assert(days@[i] == d);
                        } else {
                            assert(days@[days@.len() - 1] == d);
                        }
                    } else {
                        let i = choose|i: int|
                            0 <= i < oldd.len() && (#[trigger] oldd[i]) == local_day_of(
                                self@[q].start_time,
                                off as int,
                            );
                        assert(days@[i] == oldd[i]);
                    }
                }
                assert forall|i: int|
                    0 <= i < days@.len() implies store_has_day(
                    self@,
                    off as int,
                    #[trigger] days@[i] as int,
                ) by {
                    if i < oldd.len() {
                        assert(days@[i] == oldd[i]);
                    } else {
                        assert(days@[i] == d);
                        assert(local_day_of(self@[k as int].start_time, off as int) == d as int);
                    }
                }
            }
            k = k + 1;
        }
        days
    }

    /// One day's total and column width.
    fn day_total_width(&self, d: i64, off: i32, now: i64) -> (r: (u64, usize))
        requires
            self.wf(),
            valid_offset(off as int),
            0 <= now <= MAX_TS,
        ensures
            r.0 == sat64(day_total(self@, d as int, off as int, now as int)),
            r.1 == day_width(self@, d as int, off as int, now as int),
    {
        let n = self.periods.len();
        let mut total: u64 = 0;
        let mut wd: usize = 11;
        let mut k: usize = 0;
        proof {
            assert(self@.subrange(0, 0) =~= Seq::<PeriodView>::empty());
        }
        while k < n
            invariant
                k <= n,
                n == self@.len(),
                self.wf(),
                valid_offset(off as int),
                0 <= now <= MAX_TS,
                total == sat64(day_total(self@.subrange(0, k as int), d as int, off as int,
                now as int)),
                wd == day_width(self@.subrange(0, k as int), d as int, off as int, now as int),
            decreases n - k,
        {
            let ghost pre = self@.subrange(0, k as int);
            proof {
                assert(self@.subrange(0, k as int + 1).drop_last() =~= pre);
                assert(self@.subrange(0, k as int + 1).last() == self@[k as int]);
                lemma_day_total_nonneg(pre, d as int, off as int, now as int);
            }
            let p = &self.periods[k];
            if local_day(p.start_time, off) == d {
                let secs = crate::report::period_secs_x(p, None, now);
                total = sat_add(total, secs);
                let dtext = duration(secs);
                let dl = dtext.as_str().unicode_len();
                if dl > wd {
                    wd = dl;
                }
            }
            k = k + 1;
        }
        proof {
            assert(self@.subrange(0, n as int) =~= self@);
        }
        (total, wd)
    }

    /// The earliest start instant, later than `above`, of a period on
    /// local day `d`.
    fn least_start_above_x(&self, d: i64, off: i32, above: i64) -> (r: Option<i64>)
        requires
            self.wf(),
            valid_offset(off as int),
        ensures
            match r {
                Some(t) => least_start_above(self@, d as int, off as int, above as int) == Some(
                    t as int,
                ) && above < t <= MAX_TS,
                None => least_start_above(self@, d as int, off as int, above as int) is None,
            },
    {
        let n = self.periods.len();
        let mut best: Option<i64> = None;
        let mut k: usize = 0;
        proof {
            assert(self@.subrange(0, 0) =~= Seq::<PeriodView>::empty());
        }
        while k < n
            invariant
                k <= n,
                n == self@.len(),
                self.wf(),
                valid_offset(off as int),
                match best {
                    Some(bt) => least_start_above(self@.subrange(0, k as int), d as int,
                    off as int, above as int) == Some(bt as int) && above < bt <= MAX_TS,
                    None => least_start_above(self@.subrange(0, k as int), d as int, off as int,
                    above as int) is None,
                },
            decreases n - k,
        {
            proof {
                assert(self@.subrange(0, k as int + 1).drop_last() =~= self@.subrange(
                    0,
                    k as int,
                ));
                assert(self@.subrange(0, k as int + 1).last() == self@[k as int]);
            }
            let p = &self.periods[k];
            if local_day(p.start_time, off) == d && p.start_time > above {
                best = match best {
                    Some(bt) => if p.start_time < bt {
                        Some(p.start_time)
                    } else {
                        Some(bt)
                    },
                    None => Some(p.start_time),
                };
            }
            k = k + 1;
        }
        proof {
            assert(self@.subrange(0, n as int) =~= self@);
        }
        best
    }

    /// The lines of the day's periods starting exactly at `t`, in
    /// store order.
    fn start_lines_x(&self, d: i64, t: i64, off: i32, now: i64, wd: usize) -> (r: String)
        requires
            self.wf(),
            valid_offset(off as int),
            0 <= now <= MAX_TS,
            wd >= day_width(self@, d as int, off as int, now as int),
        ensures
            r@ == start_lines(self@, d as int, t as int, off as int, now as int, wd as int),
    {
        let n = self.periods.len();
        let mut out = String::new();
        let mut k: usize = 0;
        proof {
            assert(self@.subrange(0, 0) =~= Seq::<PeriodView>::empty());
            assert(out@ =~= start_lines(self@.subrange(0, 0), d as int, t as int, off as int,
            now as int, wd as int));
        }
        while k < n
            invariant
                k <= n,
                n == self@.len(),
                self.wf(),
                valid_offset(off as int),
                0 <= now <= MAX_TS,
                wd >= day_width(self@, d as int, off as int, now as int),
                out@ == start_lines(self@.subrange(0, k as int), d as int, t as int, off as int,
                now as int, wd as int),
            decreases n - k,
        {
            let ghost pre = self@.subrange(0, k as int);
            proof {
                assert(self@.subrange(0, k as int + 1).drop_last() =~= pre);
                assert(self@.subrange(0, k as int + 1).last() == self@[k as int]);
            }
            let p = &self.periods[k];
            if local_day(p.start_time, off) == d && p.start_time == t {
                proof {
                    lemma_day_width_ge(self@, d as int, off as int, now as int, k as int);
                }
                let line = log_line_x(p, now, off, wd);
                out.append(line.as_str());
            }
            proof {
                assert(out@ =~= start_lines(self@.subrange(0, k as int + 1), d as int, t as int,
                off as int, now as int, wd as int));
            }
            k = k + 1;
        }
        proof {
            assert(self@.subrange(0, n as int) =~= self@);
        }
        out
    }

    /// One day's lines, ordered by start instant.
    fn day_lines_x(&self, d: i64, off: i32, now: i64, wd: usize) -> (r: String)
        requires
            self.wf(),
            valid_offset(off as int),
            0 <= now <= MAX_TS,
            wd >= day_width(self@, d as int, off as int, now as int),
        ensures
            r@ == day_lines(self@, d as int, off as int, now as int, wd as int, -1),
    {
        let mut out = String::new();
        let mut above: i64 = -1;
        proof {
            assert(out@ + day_lines(self@, d as int, off as int, now as int, wd as int, -1)
                =~= day_lines(self@, d as int, off as int, now as int, wd as int, -1));
        }
        loop
            invariant
                -1 <= above <= MAX_TS,
                self.wf(),
                valid_offset(off as int),
                0 <= now <= MAX_TS,
                wd >= day_width(self@, d as int, off as int, now as int),
                day_lines(self@, d as int, off as int, now as int, wd as int, -1) == out@
                    + day_lines(self@, d as int, off as int, now as int, wd as int, above as int),
            decreases MAX_TS - above,
        {
            match self.least_start_above_x(d, off, above) {
                None => {
                    proof {
                        assert(day_lines(self@, d as int, off as int, now as int, wd as int,
                        above as int) =~= Seq::<char>::empty());
                        assert(out@ + Seq::<char>::empty() =~= out@);
                    }
                    return out;
                },
                Some(t) => {
                    let lines = self.start_lines_x(d, t, off, now, wd);
                    let ghost pre = out@;
                    out.append(lines.as_str());
                    proof {
                        assert(day_lines(self@, d as int, off as int, now as int, wd as int,
                        above as int) == start_lines(self@, d as int, t as int, off as int,
                        now as int, wd as int) + day_lines(self@, d as int, off as int,
                        now as int, wd as int, t as int));
                        assert(pre + (start_lines(self@, d as int, t as int, off as int,
                        now as int, wd as int) + day_lines(self@, d as int, off as int,
                        now as int, wd as int, t as int)) =~= out@ + day_lines(self@, d as int,
                        off as int, now as int, wd as int, t as int));
                    }
                    above = t;
                },
            }
        }
    }

    /// The log: each day the store touches, in ascending order, with
    /// its total and its periods.
    pub fn log(&self, now: i64, off: i32) -> (r: Result<Option<String>, DougError>)
        requires
            self.wf(),
            0 <= now <= MAX_TS,
            valid_offset(off as int),
        ensures
            r matches Ok(Some(msg)) && log_msg_ok(self@, now as int, off as int, msg@),
    {
        let days0 = self.collect_days(off);
        let days = sort_days(days0);
        proof {
            assert forall|k: int|
                0 <= k < self@.len() implies days_has(
                days@,
                local_day_of((#[trigger] self@[k]).start_time, off as int),
            ) by {
                let i = choose|i: int|
                    0 <= i < days0@.len() && (#[trigger] days0@[i]) == local_day_of(
                        self@[k].start_time,
                        off as int,
                    );
                assert(days_has(days@, days0@[i] as int));
            }
            assert forall|i: int|
                0 <= i < days@.len() implies store_has_day(
                self@,
                off as int,
                #[trigger] days@[i] as int,
            ) by {
                let j = choose|j: int|
                    0 <= j < days0@.len() && (#[trigger] days0@[j]) == days@[i];
                assert(store_has_day(self@, off as int, days0@[j] as int));
            }
            assert(days_ok(self@, off as int, days@));
        }
        let m = days.len();
        let mut msg = String::new();
        let mut k: usize = 0;
        proof {
            assert(days@.subrange(0, 0) =~= Seq::<i64>::empty());
            assert(msg@ =~= log_blocks(self@, days@.subrange(0, 0), off as int, now as int));
        }
        while k < m
            invariant
                k <= m,
                m == days@.len(),
                self.wf(),
                0 <= now <= MAX_TS,
                valid_offset(off as int),
                forall|i: int| 0 <= i < days@.len() ==> store_has_day(self@, off as int, #[trigger] days@[i] as int),
                msg@ == log_blocks(self@, days@.subrange(0, k as int), off as int, now as int),
            decreases m - k,
        {
            let ghost pre = days@.subrange(0, k as int);
            proof {
                assert(days@.subrange(0, k as int + 1).drop_last() =~= pre);
                assert(days@.subrange(0, k as int + 1).last() == days@[k as int]);
            }
            let d = days[k];
            proof {
                let w = choose|w: int|
                    0 <= w < self@.len() && local_day_of(
                        (#[trigger] self@[w]).start_time,
                        off as int,
                    ) == d as int;
                crate::timefmt::lemma_local_day_range(self@[w].start_time, off as int);
            }
            let ghost bstart = msg@;
            let label = day_label_x(d);
            msg.append(label.as_str());
            proof {
                reveal_strlit(" (");
                reveal_strlit(")\n");
            }
            msg.append(" (");
            let (total, wd) = self.day_total_width(d, off, now);
            let dtext = duration(total);
            msg.append(dtext.as_str());
            msg.append(")\n");
            let lines = self.day_lines_x(d, off, now, wd);
            msg.append(lines.as_str());
            proof {
                assert(msg@ =~= bstart + day_block(self@, d as int, off as int, now as int));
                assert(msg@ =~= log_blocks(self@, days@.subrange(0, k as int + 1), off as int,
                now as int));
            }
            k = k + 1;
        }
        proof {
            assert(days@.subrange(0, m as int) =~= days@);
        }
        Ok(Some(msg))
    }
}

} // verus!
