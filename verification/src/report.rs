//! The report: time per project, summed over an optional window.
//!
//! A window is one of: all time; the trailing stretch of a fixed number
//! of days before `now`; or an explicit local-day range. Each period
//! contributes the part of its span that overlaps the window — clipped,
//! not all-or-nothing. Projects whose clipped total is zero are left
//! out, and the rest are listed in name order.

use vstd::prelude::*;

use crate::dates::{civil_from_days, civil_of_day, MAX_TS};
use crate::datefmt::{date_text, render_date};
use crate::numtext::spaces;
use crate::DougError;
use crate::period::{elapsed, end_or_now, period_wf, Doug, Period, PeriodView};
use crate::timefmt::{duration, duration_text, local_day, local_day_of, valid_offset};

verus! {

/// A value clamped to what a `u64` can hold.
pub open spec fn sat64(x: int) -> int {
    if x > u64::MAX {
        u64::MAX as int
    } else {
        x
    }
}

/// Saturating addition on `u64`.
pub fn sat_add(a: u64, b: u64) -> (r: u64)
    ensures
        r == sat64(a + b),
{
    if a > u64::MAX - b {
        u64::MAX
    } else {
        a + b
    }
}

/// Lexicographic order on character sequences, by code point.
pub open spec fn lex_le(a: Seq<char>, b: Seq<char>) -> bool
    decreases a.len(),
{
    if a.len() == 0 {
        true
    } else if b.len() == 0 {
        false
    } else if a[0] != b[0] {
        a[0] < b[0]
    } else {
        lex_le(a.skip(1), b.skip(1))
    }
}

/// Any two texts are ordered one way or the other.
pub proof fn lemma_lex_le_total(a: Seq<char>, b: Seq<char>)
    ensures
        lex_le(a, b) || lex_le(b, a),
    decreases a.len(),
{
    if a.len() > 0 && b.len() > 0 && a[0] == b[0] {
        lemma_lex_le_total(a.skip(1), b.skip(1));
    }
}

/// The order is transitive.
pub proof fn lemma_lex_le_trans(a: Seq<char>, b: Seq<char>, c: Seq<char>)
    requires
        lex_le(a, b),
        lex_le(b, c),
    ensures
        lex_le(a, c),
    decreases a.len(),
{
    if a.len() > 0 && b.len() > 0 && c.len() > 0 {
        if a[0] == b[0] && b[0] == c[0] {
            lemma_lex_le_trans(a.skip(1), b.skip(1), c.skip(1));
        }
    }
}

/// Whether some name in the list reads `nm`.
pub open spec fn has_name(v: Seq<String>, nm: Seq<char>) -> bool {
    exists|i: int| 0 <= i < v.len() && (#[trigger] v[i])@ == nm
}

/// Whether some period of the store belongs to project `nm`.
pub open spec fn store_has_project(s: Seq<PeriodView>, nm: Seq<char>) -> bool {
    exists|k: int| 0 <= k < s.len() && (#[trigger] s[k]).project == nm
}

/// Compare two names in lexicographic order.
pub fn str_le(a: &String, b: &String) -> (r: bool)
    ensures
        r == lex_le(a@, b@),
{
    let sa = a.as_str();
    let sb = b.as_str();
    let na = sa.unicode_len();
    let nb = sb.unicode_len();
    let mut i: usize = 0;
    proof {
        assert(a@.skip(0) =~= a@);
        assert(b@.skip(0) =~= b@);
    }
    loop
        invariant
            i <= na,
            i <= nb,
            na == a@.len(),
            nb == b@.len(),
            sa@ == a@,
            sb@ == b@,
            lex_le(a@, b@) == lex_le(a@.skip(i as int), b@.skip(i as int)),
        decreases na - i,
    {
        if i >= na {
            proof {
                assert(a@.skip(i as int).len() == 0);
            }
            return true;
        }
        if i >= nb {
            proof {
                assert(b@.skip(i as int).len() == 0);
                assert(a@.skip(i as int).len() > 0);
            }
            return false;
        }
        let ca = sa.get_char(i);
        let cb = sb.get_char(i);
        proof {
            assert(a@.skip(i as int)[0] == a@[i as int]);
            assert(b@.skip(i as int)[0] == b@[i as int]);
            assert(a@.skip(i as int).skip(1) =~= a@.skip(i as int + 1));
            assert(b@.skip(i as int).skip(1) =~= b@.skip(i as int + 1));
        }
        if ca != cb {
            return ca < cb;
        }
        i = i + 1;
    }
}

/// The optional report window, resolved to concrete bounds.
#[derive(Clone, Copy)]
pub enum Window {
    /// No filter: every period counts in full.
    All,
    /// The trailing `days` days before `now`.
    Trailing { days: i64 },
    /// An explicit local-day range; a missing `from` reaches back to
    /// the beginning, a missing `to` ends now.
    Range { from_day: Option<i64>, to_day: Option<i64> },
}

/// Bounds that keep the window arithmetic inside `i64`.
pub open spec fn window_wf(w: Window) -> bool {
    match w {
        Window::All => true,
        Window::Trailing { days } => 0 <= days <= 1_000_000_000_000,
        Window::Range { from_day, to_day } => (match from_day {
            Some(d) => -2 <= d <= 2_928_242,
            None => true,
        }) && (match to_day {
            Some(d) => -2 <= d <= 2_928_242,
            None => true,
        }),
    }
}

/// The window's clipping limits in seconds, or nothing for all time.
pub open spec fn window_limits(w: Window, now: int, off: int) -> Option<(int, int)> {
    match w {
        Window::All => None,
        Window::Trailing { days } => Some((now - days * 86400, now)),
        Window::Range { from_day, to_day } => Some(
            (
                match from_day {
                    Some(d) => d * 86400 - off,
                    None => -(MAX_TS as int),
                },
                match to_day {
                    Some(d) => d * 86400 - off,
                    None => now,
                },
            ),
        ),
    }
}

/// The window's clipping limits, executable form.
pub fn window_limits_x(w: Window, now: i64, off: i32) -> (r: Option<(i64, i64)>)
    requires
        window_wf(w),
        0 <= now <= MAX_TS,
        valid_offset(off as int),
    ensures
        limits_view(r) == window_limits(w, now as int, off as int),
        limits_wf(limits_view(r)),
{
    match w {
        Window::All => None,
        Window::Trailing { days } => Some((now - days * 86400, now)),
        Window::Range { from_day, to_day } => Some(
            (
                match from_day {
                    Some(d) => d * 86400 - (off as i64),
                    None => -MAX_TS,
                },
                match to_day {
                    Some(d) => d * 86400 - (off as i64),
                    None => now,
                },
            ),
        ),
    }
}

/// The mathematical value of executable limits.
pub open spec fn limits_view(l: Option<(i64, i64)>) -> Option<(int, int)> {
    match l {
        None => None,
        Some(p) => Some((p.0 as int, p.1 as int)),
    }
}

/// Limits small enough that the clipping arithmetic stays in `i64`.
pub open spec fn limits_wf(l: Option<(int, int)>) -> bool {
    match l {
        None => true,
        Some(p) => -100_000_000_000_000_000 <= p.0 <= 100_000_000_000_000_000
            && -100_000_000_000_000_000 <= p.1 <= 100_000_000_000_000_000,
    }
}

/// The seconds a period contributes under the given limits: its whole
/// span for all time, else the overlap of its span with the window.
pub open spec fn period_secs_in(p: PeriodView, l: Option<(int, int)>, now: int) -> int {
    match l {
        None => elapsed(p.start_time, end_or_now(p, now)),
        Some(lohi) => {
            let cs = if p.start_time < lohi.0 {
                lohi.0
            } else {
                p.start_time
            };
            let e = end_or_now(p, now);
            let ce = if e > lohi.1 {
                lohi.1
            } else {
                e
            };
            if ce > cs {
                ce - cs
            } else {
                0
            }
        },
    }
}

/// The instant a counted period starts inside the window.
pub open spec fn counted_start(p: PeriodView, l: Option<(int, int)>) -> int {
    match l {
        None => p.start_time,
        Some(lohi) => if p.start_time < lohi.0 {
            lohi.0
        } else {
            p.start_time
        },
    }
}

/// The instant a counted period ends inside the window.
pub open spec fn counted_end(p: PeriodView, l: Option<(int, int)>, now: int) -> int {
    match l {
        None => end_or_now(p, now),
        Some(lohi) => if end_or_now(p, now) > lohi.1 {
            lohi.1
        } else {
            end_or_now(p, now)
        },
    }
}

/// The seconds a period contributes, executable form.
pub fn period_secs_x(p: &Period, l: Option<(i64, i64)>, now: i64) -> (r: u64)
    requires
        period_wf(p@),
        0 <= now <= MAX_TS,
        limits_wf(limits_view(l)),
    ensures
        r == period_secs_in(p@, limits_view(l), now as int),
        r <= MAX_TS,
{
    let e = match p.end_time {
        Some(t) => t,
        None => now,
    };
    match l {
        None => {
            if e >= p.start_time {
                (e - p.start_time) as u64
            } else {
                0
            }
        },
        Some((lo, hi)) => {
            let cs = if p.start_time < lo {
                lo
            } else {
                p.start_time
            };
            let ce = if e > hi {
                hi
            } else {
                e
            };
            if ce > cs {
                (ce - cs) as u64
            } else {
                0
            }
        },
    }
}

/// The clipped seconds of `name`'s periods among the first ones of the
/// store.
pub open spec fn project_total(
    s: Seq<PeriodView>,
    name: Seq<char>,
    l: Option<(int, int)>,
    now: int,
) -> int
    decreases s.len(),
{
    if s.len() == 0 {
        0
    } else {
        project_total(s.drop_last(), name, l, now) + (if s.last().project == name {
            period_secs_in(s.last(), l, now)
        } else {
            0
        })
    }
}

/// A total of non-negative parts is non-negative.
pub proof fn lemma_project_total_nonneg(
    s: Seq<PeriodView>,
    name: Seq<char>,
    l: Option<(int, int)>,
    now: int,
)
    requires
        forall|i: int| 0 <= i < s.len() ==> period_wf(#[trigger] s[i]),
        limits_wf(l),
    ensures
        project_total(s, name, l, now) >= 0,
    decreases s.len(),
{
    if s.len() > 0 {
        lemma_project_total_nonneg(s.drop_last(), name, l, now);
    }
}

/// The earliest local day a counted period starts on, and `today` when
/// nothing counts.
pub open spec fn report_min_day(
    s: Seq<PeriodView>,
    l: Option<(int, int)>,
    now: int,
    off: int,
    today: int,
) -> int
    decreases s.len(),
{
    if s.len() == 0 {
        today
    } else {
        let r = report_min_day(s.drop_last(), l, now, off, today);
        if period_secs_in(s.last(), l, now) > 0 {
            let d = local_day_of(counted_start(s.last(), l), off);
            if d < r {
                d
            } else {
                r
            }
        } else {
            r
        }
    }
}

/// A day's header label: its date in English, days before the epoch
/// being shown as the epoch's first day.
pub open spec fn day_label(day: int) -> Seq<char> {
    let d = if day < 0 {
        0
    } else {
        day
    };
    let ymd = civil_of_day(d);
    date_text(ymd.0, ymd.1, ymd.2)
}

/// Render a day's header label.
pub fn day_label_x(day: i64) -> (r: String)
    requires
        day <= MAX_TS / 86400 + 2,
    ensures
        r@ == day_label(day as int),
{
    let d: u64 = if day < 0 {
        0
    } else {
        day as u64
    };
    let (y, m, dd) = civil_from_days(d);
    render_date(y, m, dd)
}

/// The views of the report's entries: each name with its seconds.
pub open spec fn entry_views(v: Seq<(String, u64)>) -> Seq<(Seq<char>, int)> {
    v.map_values(|e: (String, u64)| (e.0@, e.1 as int))
}

/// Whether some entry carries the name `nm`.
pub open spec fn has_entry(es: Seq<(Seq<char>, int)>, nm: Seq<char>) -> bool {
    exists|i: int| 0 <= i < es.len() && (#[trigger] es[i]).0 == nm
}

/// What the report's entry list must be: sorted by name without
/// repeats, each entry carrying its project's non-zero clipped total,
/// and no worked-on project missing.
pub open spec fn entries_ok(
    s: Seq<PeriodView>,
    l: Option<(int, int)>,
    now: int,
    es: Seq<(Seq<char>, int)>,
) -> bool {
    &&& forall|i: int, j: int|
        0 <= i < j < es.len() ==> lex_le(#[trigger] es[i].0, #[trigger] es[j].0) && es[i].0
            != es[j].0
    &&& forall|i: int|
        0 <= i < es.len() ==> (#[trigger] es[i]).1 == sat64(project_total(s, es[i].0, l, now))
            && es[i].1 > 0
    &&& forall|k: int|
        0 <= k < s.len() && sat64(project_total(s, (#[trigger] s[k]).project, l, now)) > 0
            ==> has_entry(es, s[k].project)
}

/// The widest name among the entries.
pub open spec fn max_name_len(es: Seq<(Seq<char>, int)>) -> int
    decreases es.len(),
{
    if es.len() == 0 {
        0
    } else {
        let r = max_name_len(es.drop_last());
        if es.last().0.len() > r {
            es.last().0.len() as int
        } else {
            r
        }
    }
}

/// The widest rendered duration among the entries.
pub open spec fn max_dur_len(es: Seq<(Seq<char>, int)>) -> int
    decreases es.len(),
{
    if es.len() == 0 {
        0
    } else {
        let r = max_dur_len(es.drop_last());
        if duration_text(es.last().1).len() > r {
            duration_text(es.last().1).len() as int
        } else {
            r
        }
    }
}

/// Pad on the right to the given width.
pub open spec fn pad_right(s: Seq<char>, w: int) -> Seq<char> {
    s + spaces(w - s.len())
}

/// Pad on the left to the given width.
pub open spec fn pad_left(s: Seq<char>, w: int) -> Seq<char> {
    spaces(w - s.len()) + s
}

/// One line of the report: the name, a space, and the duration.
pub open spec fn entry_line(name: Seq<char>, secs: int, pw: int, dw: int) -> Seq<char> {
    pad_right(name, pw) + seq![' '] + pad_left(duration_text(secs), dw) + seq!['\n']
}

/// The report's lines, one per entry.
pub open spec fn entries_lines(es: Seq<(Seq<char>, int)>, pw: int, dw: int) -> Seq<char>
    decreases es.len(),
{
    if es.len() == 0 {
        Seq::empty()
    } else {
        entries_lines(es.drop_last(), pw, dw) + entry_line(es.last().0, es.last().1, pw, dw)
    }
}

/// The whole report: the covered day range, then one line per project.
pub open spec fn report_text(es: Seq<(Seq<char>, int)>, start_day: int, end_day: int) -> Seq<
    char,
> {
    day_label(start_day) + " -> "@ + day_label(end_day) + "\n"@ + entries_lines(
        es,
        max_name_len(es),
        max_dur_len(es),
    )
}

/// The latest local day a counted period ends on, when anything
/// counts at all.
pub open spec fn report_max_day(
    s: Seq<PeriodView>,
    l: Option<(int, int)>,
    now: int,
    off: int,
) -> Option<int>
    decreases s.len(),
{
    if s.len() == 0 {
        None
    } else {
        let r = report_max_day(s.drop_last(), l, now, off);
        if period_secs_in(s.last(), l, now) > 0 {
            let d = local_day_of(counted_end(s.last(), l, now), off);
            match r {
                Some(x) => if d > x {
                    Some(d)
                } else {
                    Some(x)
                },
                None => Some(d),
            }
        } else {
            r
        }
    }
}

/// The day the report's header ends on: the latest counted clipped
/// end day, and today when nothing counts.
pub open spec fn report_end_day(
    s: Seq<PeriodView>,
    l: Option<(int, int)>,
    now: int,
    off: int,
    today: int,
) -> int {
    match report_max_day(s, l, now, off) {
        Some(d) => d,
        None => today,
    }
}

/// The window the occurrence counts ask for, by precedence: years,
/// then months, weeks, days, each read in days (365, 31, 7, 1).
pub open spec fn counts_window(py: i32, pm: i32, pw: i32, pd: i32) -> Window {
    if py > 0 {
        Window::Trailing { days: (py * 365) as i64 }
    } else if pm > 0 {
        Window::Trailing { days: (pm * 31) as i64 }
    } else if pw > 0 {
        Window::Trailing { days: (pw * 7) as i64 }
    } else {
        Window::Trailing { days: pd as i64 }
    }
}

/// What `report` promises of its message for a resolved window: the
/// canonical entry list rendered between the covered day range.
pub open spec fn report_msg_ok(
    s: Seq<PeriodView>,
    w: Window,
    now: int,
    off: int,
    msg: Seq<char>,
) -> bool {
    exists|es: Seq<(Seq<char>, int)>|
        #![trigger entries_ok(s, window_limits(w, now, off), now, es)]
        entries_ok(s, window_limits(w, now, off), now, es) && msg == report_text(
            es,
            report_min_day(s, window_limits(w, now, off), now, off, local_day_of(now, off)),
            report_end_day(s, window_limits(w, now, off), now, off, local_day_of(now, off)),
        )
}

/// What `report` promises when explicit date strings bound the
/// window: some pair of parsed days, absent where no string was given,
/// forms the range the message reports.
pub open spec fn range_msg_ok(
    s: Seq<PeriodView>,
    from_given: bool,
    to_given: bool,
    now: int,
    off: int,
    msg: Seq<char>,
) -> bool {
    exists|fd: Option<i64>, td: Option<i64>|
        {
            &&& !from_given ==> fd is None
            &&& !to_given ==> td is None
            &&& window_wf(Window::Range { from_day: fd, to_day: td })
            &&& #[trigger] report_msg_ok(
                s,
                Window::Range { from_day: fd, to_day: td },
                now,
                off,
                msg,
            )
        }
}

/// Every name's width is within the widest.
proof fn lemma_max_len_ge(es: Seq<(Seq<char>, int)>, i: int)
    requires
        0 <= i < es.len(),
    ensures
        max_name_len(es) >= es[i].0.len(),
        max_dur_len(es) >= duration_text(es[i].1).len(),
    decreases es.len(),
{
    if i < es.len() - 1 {
        lemma_max_len_ge(es.drop_last(), i);
    }
}

/// Sort distinct names in lexicographic order, keeping exactly the same
/// names.
fn sort_names(names: Vec<String>) -> (r: Vec<String>)
    requires
        forall|i: int, j: int|
            0 <= i < j < names@.len() ==> (#[trigger] names@[i])@ != (#[trigger] names@[j])@,
    ensures
        forall|i: int, j: int|
            0 <= i < j < r@.len() ==> lex_le((#[trigger] r@[i])@, (#[trigger] r@[j])@)
                && r@[i]@ != r@[j]@,
        forall|i: int| 0 <= i < r@.len() ==> has_name(names@, (#[trigger] r@[i])@),
        forall|j: int| 0 <= j < names@.len() ==> has_name(r@, (#[trigger] names@[j])@),
{
    let n = names.len();
    let mut out: Vec<String> = Vec::new();
    let mut k: usize = 0;
    while k < n
        invariant
            k <= n,
            n == names@.len(),
            forall|i: int, j: int|
                0 <= i < j < names@.len() ==> (#[trigger] names@[i])@ != (#[trigger] names@[j])@,
            forall|i: int, j: int|
                0 <= i < j < out@.len() ==> lex_le((#[trigger] out@[i])@, (#[trigger] out@[j])@)
                    && out@[i]@ != out@[j]@,
            forall|i: int|
                0 <= i < out@.len() ==> exists|j: int|
                    0 <= j < k && (#[trigger] out@[i])@ == names@[j]@,
            forall|j: int| 0 <= j < k ==> has_name(out@, (#[trigger] names@[j])@),
        decreases n - k,
    {
        let name = names[k].clone();
        let ghost nm = name@;
        let m = out.len();
        let mut pos: usize = 0;
        while pos < m && str_le(&out[pos], &name)
            invariant
                pos <= m,
                m == out@.len(),
                nm == name@,
                forall|q: int| 0 <= q < pos ==> lex_le((#[trigger] out@[q])@, nm),
            decreases m - pos,
        {
            pos = pos + 1;
        }
        proof {
            if pos < m {
                lemma_lex_le_total(out@[pos as int]@, nm);
            }
        }
        let ghost before = out@;
        out.insert(pos, name);
        proof {
            before.insert_ensures(pos as int, out@[pos as int]);
            assert(forall|q: int| 0 <= q < pos ==> out@[q] == before[q]);
            assert(forall|q: int| pos < q < out@.len() ==> out@[q] == before[q - 1]);
            assert(out@[pos as int]@ == nm);
            assert forall|i: int|
                0 <= i < before.len() implies (#[trigger] before[i])@ != nm by {
                let j = choose|j: int| 0 <= j < k && before[i]@ == names@[j]@;
                assert(names@[k as int]@ == nm);
            }
            assert forall|i: int, j: int|
                0 <= i < j < out@.len() implies lex_le(
                (#[trigger] out@[i])@,
                (#[trigger] out@[j])@,
            ) && out@[i]@ != out@[j]@ by {
                if j == pos {
                    assert(lex_le(out@[i]@, nm));
                    assert(before[i]@ != nm);
                } else if i == pos {
                    if pos < before.len() {
                        assert(lex_le(nm, before[pos as int]@));
                        if j - 1 > pos {
                            lemma_lex_le_trans(nm, before[pos as int]@, before[j - 1]@);
                        }
                        assert(before[j - 1]@ != nm);
                    }
                } else if i < pos && j > pos {
                    assert(lex_le(before[i]@, before[j - 1]@));
                }
            }
        }
        k = k + 1;
    }
    out
}

impl Doug {
    /// The distinct project names of the store, in the order they first
    /// appear.
    fn collect_names(&self) -> (r: Vec<String>)
        ensures
            forall|i: int, j: int|
                0 <= i < j < r@.len() ==> (#[trigger] r@[i])@ != (#[trigger] r@[j])@,
            forall|k: int| 0 <= k < self@.len() ==> has_name(r@, (#[trigger] self@[k]).project),
            forall|i: int| 0 <= i < r@.len() ==> store_has_project(self@, (#[trigger] r@[i])@),
    {
        let mut names: Vec<String> = Vec::new();
        let n = self.periods.len();
        let mut k: usize = 0;
        while k < n
            invariant
                k <= n,
                n == self@.len(),
                forall|i: int, j: int|
                    0 <= i < j < names@.len() ==> (#[trigger] names@[i])@
                        != (#[trigger] names@[j])@,
                forall|q: int|
                    0 <= q < k ==> has_name(names@, (#[trigger] self@[q]).project),
                forall|i: int|
                    0 <= i < names@.len() ==> store_has_project(self@, (#[trigger] names@[i])@),
            decreases n - k,
        {
            let name = self.periods[k].project.clone();
            let m = names.len();
            let mut found = false;
            let mut i: usize = 0;
            while i < m
                invariant
                    i <= m,
                    m == names@.len(),
                    name@ == self@[k as int].project,
                    k < n == self@.len(),
                    found <==> exists|q: int| 0 <= q < i && (#[trigger] names@[q])@ == name@,
                decreases m - i,
            {
                if names[i] == name {
                    found = true;
                }
                i = i + 1;
            }
            let ghost oldn = names@;
            if !found {
                names.push(name);
            }
            proof {
                assert forall|q: int|
                    0 <= q < k + 1 implies has_name(names@, (#[trigger] self@[q]).project) by {
                    if q == k {
                        if found {
                            let i = choose|i: int|
                                0 <= i < oldn.len() && (#[trigger] oldn[i])@ == name@;
                            assert(names@[i]@ == self@[q].project);
                        } else {
                            assert(names@[names@.len() - 1]@ == self@[q].project);
                        }
                    } else {
                        let i = choose|i: int|
                            0 <= i < oldn.len() && (#[trigger] oldn[i])@ == self@[q].project;
                        assert(names@[i]@ == self@[q].project);
                    }
                }
                assert forall|i: int, j: int|
                    0 <= i < j < names@.len() implies (#[trigger] names@[i])@
                    != (#[trigger] names@[j])@ by {
                    if j < oldn.len() {
                    } else {
                        assert(names@[i] == oldn[i]);
                        assert(names@[j]@ == name@);
                    }
                }
                assert forall|i: int|
                    0 <= i < names@.len() implies store_has_project(
                    self@,
                    (#[trigger] names@[i])@,
                ) by {
                    if i < oldn.len() {
                        assert(names@[i] == oldn[i]);
                        assert(store_has_project(self@, oldn[i]@));
                    } else {
                        assert(names@[i]@ == self@[k as int].project);
                        assert(self@[k as int].project == names@[i]@);
                    }
                }
            }
            k = k + 1;
        }
        names
    }

    /// The clipped total of one project, saturating at what fits.
    fn total_for(&self, name: &String, l: Option<(i64, i64)>, now: i64) -> (r: u64)
        requires
            self.wf(),
            0 <= now <= MAX_TS,
            limits_wf(limits_view(l)),
        ensures
            r == sat64(project_total(self@, name@, limits_view(l), now as int)),
    {
        let n = self.periods.len();
        let mut acc: u64 = 0;
        let mut k: usize = 0;
        proof {
            assert(self@.subrange(0, 0) =~= Seq::<PeriodView>::empty());
        }
        while k < n
            invariant
                k <= n,
                n == self@.len(),
                self.wf(),
                0 <= now <= MAX_TS,
                limits_wf(limits_view(l)),
                acc == sat64(project_total(self@.subrange(0, k as int), name@, limits_view(l),
                now as int)),
            decreases n - k,
        {
            let ghost pre = self@.subrange(0, k as int);
            proof {
                assert(self@.subrange(0, k as int + 1).drop_last() =~= pre);
                assert(self@.subrange(0, k as int + 1).last() == self@[k as int]);
                lemma_project_total_nonneg(pre, name@, limits_view(l), now as int);
            }
            if self.periods[k].project == *name {
                let secs = period_secs_x(&self.periods[k], l, now);
                acc = sat_add(acc, secs);
            }
            k = k + 1;
        }
        proof {
            assert(self@.subrange(0, n as int) =~= self@);
        }
        acc
    }

    /// The earliest local day a counted period starts on.
    fn min_counted_day(&self, l: Option<(i64, i64)>, now: i64, off: i32, today: i64) -> (r: i64)
        requires
            self.wf(),
            0 <= now <= MAX_TS,
            valid_offset(off as int),
            limits_wf(limits_view(l)),
            -3 <= today <= 3_000_000,
        ensures
            r == report_min_day(self@, limits_view(l), now as int, off as int, today as int),
            -3 <= r <= today,
    {
        let n = self.periods.len();
        let mut md: i64 = today;
        let mut k: usize = 0;
        proof {
            assert(self@.subrange(0, 0) =~= Seq::<PeriodView>::empty());
        }
        while k < n
            invariant
                k <= n,
                n == self@.len(),
                self.wf(),
                0 <= now <= MAX_TS,
                valid_offset(off as int),
                limits_wf(limits_view(l)),
                -3 <= today <= 3_000_000,
                -3 <= md <= today,
                md == report_min_day(self@.subrange(0, k as int), limits_view(l), now as int,
                off as int, today as int),
            decreases n - k,
        {
            proof {
                assert(self@.subrange(0, k as int + 1).drop_last() =~= self@.subrange(
                    0,
                    k as int,
                ));
                assert(self@.subrange(0, k as int + 1).last() == self@[k as int]);
            }
            let secs = period_secs_x(&self.periods[k], l, now);
            if secs > 0 {
                let p = &self.periods[k];
                let cs = match l {
                    Some((lo, _hi)) => if p.start_time < lo {
                        lo
                    } else {
                        p.start_time
                    },
                    None => p.start_time,
                };
                let d = local_day(cs, off);
                if d < md {
                    md = d;
                }
            }
            k = k + 1;
        }
        proof {
            assert(self@.subrange(0, n as int) =~= self@);
        }
        md
    }

    /// The day the report's header ends on: the latest counted clipped
    /// end day, and `today` when nothing counts.
    fn max_counted_day(&self, l: Option<(i64, i64)>, now: i64, off: i32, today: i64) -> (r: i64)
        requires
            self.wf(),
            0 <= now <= MAX_TS,
            valid_offset(off as int),
            limits_wf(limits_view(l)),
            -3 <= today <= 2_928_242,
        ensures
            r == report_end_day(self@, limits_view(l), now as int, off as int, today as int),
            -3 <= r <= 2_928_242,
    {
        let n = self.periods.len();
        let mut found = false;
        let mut md: i64 = today;
        let mut k: usize = 0;
        proof {
            assert(self@.subrange(0, 0) =~= Seq::<PeriodView>::empty());
        }
        while k < n
            invariant
                k <= n,
                n == self@.len(),
                self.wf(),
                0 <= now <= MAX_TS,
                valid_offset(off as int),
                limits_wf(limits_view(l)),
                -3 <= today <= 2_928_242,
                -3 <= md <= 2_928_242,
                match report_max_day(self@.subrange(0, k as int), limits_view(l), now as int,
                off as int) {
                    Some(d) => found && md == d,
                    None => !found && md == today,
                },
            decreases n - k,
        {
            proof {
                assert(self@.subrange(0, k as int + 1).drop_last() =~= self@.subrange(
                    0,
                    k as int,
                ));
                assert(self@.subrange(0, k as int + 1).last() == self@[k as int]);
            }
            let secs = period_secs_x(&self.periods[k], l, now);
            if secs > 0 {
                let p = &self.periods[k];
                let e = match p.end_time {
                    Some(t) => t,
                    None => now,
                };
                let ce = match l {
                    Some((_lo, hi)) => if e > hi {
                        hi
                    } else {
                        e
                    },
                    None => e,
                };
                let d = local_day(ce, off);
                if !found || d > md {
                    md = d;
                }
                found = true;
            }
            k = k + 1;
        }
        proof {
            assert(self@.subrange(0, n as int) =~= self@);
        }
        md
    }

    /// One report entry per worked-on project, in name order.
    fn build_entries(&self, sorted: &Vec<String>, l: Option<(i64, i64)>, now: i64) -> (r: Vec<
        (String, u64),
    >)
        requires
            self.wf(),
            0 <= now <= MAX_TS,
            limits_wf(limits_view(l)),
            forall|i: int, j: int|
                0 <= i < j < sorted@.len() ==> lex_le(
                    (#[trigger] sorted@[i])@,
                    (#[trigger] sorted@[j])@,
                ) && sorted@[i]@ != sorted@[j]@,
            forall|k: int|
                0 <= k < self@.len() ==> has_name(sorted@, (#[trigger] self@[k]).project),
        ensures
            entries_ok(self@, limits_view(l), now as int, entry_views(r@)),
    {
        let ghost lv = limits_view(l);
        let m = sorted.len();
        let mut es: Vec<(String, u64)> = Vec::new();
        let mut q: usize = 0;
        while q < m
            invariant
                q <= m,
                m == sorted@.len(),
                self.wf(),
                0 <= now <= MAX_TS,
                lv == limits_view(l),
                limits_wf(lv),
                forall|i: int, j: int|
                    0 <= i < j < sorted@.len() ==> lex_le(
                        (#[trigger] sorted@[i])@,
                        (#[trigger] sorted@[j])@,
                    ) && sorted@[i]@ != sorted@[j]@,
                forall|i: int, j: int|
                    0 <= i < j < entry_views(es@).len() ==> lex_le(
                        #[trigger] entry_views(es@)[i].0,
                        #[trigger] entry_views(es@)[j].0,
                    ) && entry_views(es@)[i].0 != entry_views(es@)[j].0,
                forall|i: int, w: int|
                    0 <= i < entry_views(es@).len() && q <= w < sorted@.len() ==> lex_le(
                        (#[trigger] entry_views(es@)[i]).0,
                        (#[trigger] sorted@[w])@,
                    ) && entry_views(es@)[i].0 != sorted@[w]@,
                forall|i: int|
                    0 <= i < entry_views(es@).len() ==> (#[trigger] entry_views(es@)[i]).1
                        == sat64(project_total(self@, entry_views(es@)[i].0, lv, now as int))
                        && entry_views(es@)[i].1 > 0,
                forall|w: int|
                    0 <= w < q ==> sat64(
                        project_total(self@, (#[trigger] sorted@[w])@, lv, now as int),
                    ) == 0 || has_entry(entry_views(es@), sorted@[w]@),
            decreases m - q,
        {
            let total = self.total_for(&sorted[q], l, now);
            let ghost pre = entry_views(es@);
            if total > 0 {
                es.push((sorted[q].clone(), total));
                proof {
                    assert(entry_views(es@) =~= pre.push((sorted@[q as int]@, total as int)));
                }
            }
            proof {
                assert forall|w: int|
                    0 <= w < q + 1 implies sat64(
                    project_total(self@, (#[trigger] sorted@[w])@, lv, now as int),
                ) == 0 || has_entry(entry_views(es@), sorted@[w]@) by {
                    if w == q {
                        if total > 0 {
                            assert(entry_views(es@)[entry_views(es@).len() - 1].0
                                == sorted@[w]@);
                        }
                    } else {
                        if sat64(project_total(self@, sorted@[w]@, lv, now as int)) != 0 {
                            let i = choose|i: int|
                                0 <= i < pre.len() && (#[trigger] pre[i]).0 == sorted@[w]@;
                            assert(entry_views(es@)[i].0 == sorted@[w]@);
                        }
                    }
                }
            }
            q = q + 1;
        }
        proof {
            assert forall|k: int|
                0 <= k < self@.len() && sat64(
                project_total(self@, (#[trigger] self@[k]).project, lv, now as int),
            ) > 0 implies has_entry(entry_views(es@), self@[k].project) by {
                let w = choose|w: int|
                    0 <= w < sorted@.len() && (#[trigger] sorted@[w])@ == self@[k].project;
            }
        }
        es
    }
}

/// Render the report's lines, one per entry, with the names and the
/// durations aligned.
fn entries_text(es: &Vec<(String, u64)>) -> (r: String)
    ensures
        r@ == entries_lines(
            entry_views(es@),
            max_name_len(entry_views(es@)),
            max_dur_len(entry_views(es@)),
        ),
{
    let ghost ev = entry_views(es@);
    let n = es.len();
    let mut pw: usize = 0;
    let mut dw: usize = 0;
    let mut k: usize = 0;
    while k < n
        invariant
            k <= n,
            n == es@.len(),
            ev == entry_views(es@),
            pw == max_name_len(ev.subrange(0, k as int)),
            dw == max_dur_len(ev.subrange(0, k as int)),
        decreases n - k,
    {
        proof {
            assert(ev.subrange(0, k as int + 1).drop_last() =~= ev.subrange(0, k as int));
            assert(ev.subrange(0, k as int + 1).last() == ev[k as int]);
        }
        let nl = es[k].0.as_str().unicode_len();
        if nl > pw {
            pw = nl;
        }
        let dtext = duration(es[k].1);
        let dl = dtext.as_str().unicode_len();
        if dl > dw {
            dw = dl;
        }
        k = k + 1;
    }
    proof {
        assert(ev.subrange(0, n as int) =~= ev);
    }
    let mut out = String::new();
    let mut k2: usize = 0;
    proof {
        assert(ev.subrange(0, 0) =~= Seq::<(Seq<char>, int)>::empty());
        assert(out@ =~= entries_lines(ev.subrange(0, 0), pw as int, dw as int));
    }
    while k2 < n
        invariant
            k2 <= n,
            n == es@.len(),
            ev == entry_views(es@),
            pw == max_name_len(ev),
            dw == max_dur_len(ev),
            out@ == entries_lines(ev.subrange(0, k2 as int), pw as int, dw as int),
        decreases n - k2,
    {
        let ghost prefix = ev.subrange(0, k2 as int);
        proof {
            assert(ev.subrange(0, k2 as int + 1).drop_last() =~= prefix);
            assert(ev.subrange(0, k2 as int + 1).last() == ev[k2 as int]);
            lemma_max_len_ge(ev, k2 as int);
            reveal_strlit(" ");
            reveal_strlit("\n");
        }
        let nl = es[k2].0.as_str().unicode_len();
        out.append(es[k2].0.as_str());
        crate::numtext::append_spaces(&mut out, pw - nl);
        out.append(" ");
        let dtext = duration(es[k2].1);
        let dl = dtext.as_str().unicode_len();
        crate::numtext::append_spaces(&mut out, dw - dl);
        out.append(dtext.as_str());
        out.append("\n");
        proof {
            assert(out@ =~= entries_lines(ev.subrange(0, k2 as int + 1), pw as int, dw as int));
        }
        k2 = k2 + 1;
    }
    proof {
        assert(ev.subrange(0, n as int) =~= ev);
    }
    out
}

impl Doug {
    /// The report for a resolved window: the covered day range, then
    /// each worked-on project with its clipped total, in name order.
    pub fn report_days(&self, w: Window, now: i64, off: i32) -> (r: String)
        requires
            self.wf(),
            0 <= now <= MAX_TS,
            valid_offset(off as int),
            window_wf(w),
        ensures
            report_msg_ok(self@, w, now as int, off as int, r@),
    {
        let l = window_limits_x(w, now, off);
        let names = self.collect_names();
        let sorted = sort_names(names);
        proof {
            assert forall|k: int|
                0 <= k < self@.len() implies has_name(
                sorted@,
                (#[trigger] self@[k]).project,
            ) by {
                let i = choose|i: int|
                    0 <= i < names@.len() && (#[trigger] names@[i])@ == self@[k].project;
                assert(has_name(sorted@, names@[i]@));
            }
        }
        let today = local_day(now, off);
        let md = self.min_counted_day(l, now, off, today);
        let end_day = self.max_counted_day(l, now, off, today);
        let entries = self.build_entries(&sorted, l, now);
        let lines = entries_text(&entries);
        let mut msg = day_label_x(md);
        proof {
            reveal_strlit(" -> ");
            reveal_strlit("\n");
        }
        msg.append(" -> ");
        let endlabel = day_label_x(end_day);
        msg.append(endlabel.as_str());
        msg.append("\n");
        msg.append(lines.as_str());
        proof {
            let ghost es = entry_views(entries@);
            assert(msg@ =~= report_text(
                es,
                report_min_day(self@, window_limits(w, now as int, off as int), now as int,
                off as int, local_day_of(now as int, off as int)),
                report_end_day(self@, window_limits(w, now as int, off as int), now as int,
                off as int, local_day_of(now as int, off as int)),
            ));
        }
        msg
    }

    /// The report the command line asks for. Occurrence counts pick a
    /// trailing window by precedence — years, months, weeks, days —
    /// and otherwise the optional `from`/`to` date strings bound an
    /// explicit range; dates that cannot be understood are `Parse`
    /// errors.
    pub fn report(
        &self,
        past_years: i32,
        past_months: i32,
        past_weeks: i32,
        past_days: i32,
        from_date: Option<&str>,
        to_date: Option<&str>,
        now: i64,
        off: i32,
    ) -> (r: Result<Option<String>, DougError>)
        requires
            self.wf(),
            0 <= now <= MAX_TS,
            valid_offset(off as int),
        ensures
            past_years > 0 || past_months > 0 || past_weeks > 0 || past_days > 0 ==> (r matches
                Ok(Some(msg)) && report_msg_ok(
                self@,
                counts_window(past_years, past_months, past_weeks, past_days),
                now as int,
                off as int,
                msg@,
            )),
            past_years <= 0 && past_months <= 0 && past_weeks <= 0 && past_days <= 0
                && from_date is None && to_date is None ==> (r matches Ok(Some(msg))
                && report_msg_ok(self@, Window::All, now as int, off as int, msg@)),
            r is Err ==> (r matches Err(e) && e == DougError::Parse),
            past_years <= 0 && past_months <= 0 && past_weeks <= 0 && past_days <= 0 && (
            from_date matches Some(t) && !crate::dateparse::safe_date_text(t@)) ==> r is Err,
            past_years <= 0 && past_months <= 0 && past_weeks <= 0 && past_days <= 0 && (
            to_date matches Some(t) && !crate::dateparse::safe_date_text(t@)) ==> r is Err,
            past_years <= 0 && past_months <= 0 && past_weeks <= 0 && past_days <= 0 && (
            from_date is Some || to_date is Some) && r is Ok ==> (r matches Ok(Some(msg))
                && range_msg_ok(
                self@,
                from_date is Some,
                to_date is Some,
                now as int,
                off as int,
                msg@,
            )),
    {
        if past_years > 0 {
            let w = Window::Trailing { days: (past_years as i64) * 365 };
            return Ok(Some(self.report_days(w, now, off)));
        }
        if past_months > 0 {
            let w = Window::Trailing { days: (past_months as i64) * 31 };
            return Ok(Some(self.report_days(w, now, off)));
        }
        if past_weeks > 0 {
            let w = Window::Trailing { days: (past_weeks as i64) * 7 };
            return Ok(Some(self.report_days(w, now, off)));
        }
        if past_days > 0 {
            let w = Window::Trailing { days: past_days as i64 };
            return Ok(Some(self.report_days(w, now, off)));
        }
        if from_date.is_none() && to_date.is_none() {
            return Ok(Some(self.report_days(Window::All, now, off)));
        }
        let fd: Option<i64> = match from_date {
            Some(text) => {
                if !crate::dateparse::is_safe_date_text(text) {
                    return Err(DougError::Parse);
                }
                match crate::dateparse::parse_date_local(text, now) {
                    Some(ts) => {
                        if 0 <= ts && ts <= MAX_TS {
                            Some(local_day(ts, off))
                        } else {
                            return Err(DougError::Parse);
                        }
                    },
                    None => {
                        return Err(DougError::Parse);
                    },
                }
            },
            None => None,
        };
        let td: Option<i64> = match to_date {
            Some(text) => {
                if !crate::dateparse::is_safe_date_text(text) {
                    return Err(DougError::Parse);
                }
                match crate::dateparse::parse_date_local(text, now) {
                    Some(ts) => {
                        if 0 <= ts && ts <= MAX_TS {
                            Some(local_day(ts, off))
                        } else {
                            return Err(DougError::Parse);
                        }
                    },
                    None => {
                        return Err(DougError::Parse);
                    },
                }
            },
            None => None,
        };
        let w = Window::Range { from_day: fd, to_day: td };
        let msg = self.report_days(w, now, off);
        proof {
            assert(report_msg_ok(
                self@,
                Window::Range { from_day: fd, to_day: td },
                now as int,
                off as int,
                msg@,
            ));
            assert(range_msg_ok(
                self@,
                from_date is Some,
                to_date is Some,
                now as int,
                off as int,
                msg@,
            ));
        }
        Ok(Some(msg))
    }
}

} // verus!
