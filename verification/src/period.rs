//! The period store and the tracking operations.
//!
//! A period is one tracked interval: a project name, a start instant,
//! and an end instant that is absent while the period is still running.
//! The store is an append-ordered sequence of periods in which at most
//! one period is open, and an open period is always the last one.

use vstd::prelude::*;

use crate::dates::MAX_TS;
use crate::timefmt::{
    datetime, datetime_text, duration, duration_text, time, time_text, valid_offset,
};
use crate::settings::Settings;
use crate::DougError;

verus! {

/// One tracked interval.
#[derive(Debug)]
pub struct Period {
    pub project: String,
    pub start_time: i64,
    pub end_time: Option<i64>,
}

/// The mathematical value of a period.
pub ghost struct PeriodView {
    pub project: Seq<char>,
    pub start_time: int,
    pub end_time: Option<int>,
}

impl View for Period {
    type V = PeriodView;

    open spec fn view(&self) -> PeriodView {
        PeriodView {
            project: self.project@,
            start_time: self.start_time as int,
            end_time: match self.end_time {
                Some(e) => Some(e as int),
                None => None,
            },
        }
    }
}

/// A period is well formed when its project name is non-empty, its
/// instants lie in the representable range, and its end does not precede
/// its start.
pub open spec fn period_wf(p: PeriodView) -> bool {
    &&& p.project.len() > 0
    &&& 0 <= p.start_time <= MAX_TS
    &&& match p.end_time {
        Some(e) => p.start_time <= e <= MAX_TS,
        None => true,
    }
}

/// A store is well formed when every period is well formed and every
/// period but the last is closed: at most one period is open, and an
/// open period is always the last.
pub open spec fn store_wf(s: Seq<PeriodView>) -> bool {
    &&& forall|i: int| 0 <= i < s.len() ==> period_wf(#[trigger] s[i])
    &&& forall|i: int| 0 <= i < s.len() - 1 ==> (#[trigger] s[i].end_time) is Some
}

/// Whether the store's last period is still running.
pub open spec fn has_open(s: Seq<PeriodView>) -> bool {
    s.len() > 0 && s.last().end_time is None
}

/// Seconds from `start` to `now`, and zero when `now` is earlier.
pub open spec fn elapsed(start: int, now: int) -> int {
    if now >= start {
        now - start
    } else {
        0
    }
}

/// The instant a period ends, an open period being read as ending `now`.
pub open spec fn end_or_now(p: PeriodView, now: int) -> int {
    match p.end_time {
        Some(e) => e,
        None => now,
    }
}

/// The end instant `stop` records: `now`, but never before the start.
pub open spec fn stop_end(start: int, now: int) -> int {
    if now < start {
        start
    } else {
        now
    }
}

/// The store after a successful `stop` at `now`: the last period closed,
/// everything else untouched.
pub open spec fn stop_transition(s: Seq<PeriodView>, now: int) -> Seq<PeriodView> {
    let last = s.last();
    s.update(
        s.len() - 1,
        PeriodView {
            project: last.project,
            start_time: last.start_time,
            end_time: Some(stop_end(last.start_time, now)),
        },
    )
}

/// The periods that survive `delete(name)`: those of every other project.
pub open spec fn keeps(name: Seq<char>) -> spec_fn(PeriodView) -> bool {
    |p: PeriodView| p.project != name
}

/// The last period after `edit` applies the given replacement instants.
pub open spec fn edited_view(last: PeriodView, ns: Option<i64>, ne: Option<i64>) -> PeriodView {
    PeriodView {
        project: last.project,
        start_time: match ns {
            Some(s) => s as int,
            None => last.start_time,
        },
        end_time: match ne {
            Some(e) => Some(e as int),
            None => last.end_time,
        },
    }
}

/// The line `edit` reports: start, end (or `present`), and duration.
pub open spec fn period_line_text(p: PeriodView, now: int, off: int) -> Seq<char> {
    time_text(p.start_time, off) + " to "@ + (match p.end_time {
        Some(e) => time_text(e, off),
        None => "present"@,
    }) + " "@ + duration_text(elapsed(p.start_time, end_or_now(p, now)))
}

/// What `edit` promises when it succeeds on given date strings: some
/// parsed instants, absent where no string was given, yield the
/// rewritten last period the message describes.
pub open spec fn edit_outcome_ok(
    before: Seq<PeriodView>,
    after: Seq<PeriodView>,
    start_given: bool,
    end_given: bool,
    now: int,
    off: int,
    msg: Seq<char>,
) -> bool {
    exists|ns: Option<i64>, ne: Option<i64>|
        {
            &&& !start_given ==> ns is None
            &&& !end_given ==> ne is None
            &&& before.len() > 0
            &&& period_wf(#[trigger] edited_view(before.last(), ns, ne))
            &&& after == before.update(before.len() - 1, edited_view(before.last(), ns, ne))
            &&& msg == period_line_text(edited_view(before.last(), ns, ne), now, off)
        }
}

/// Law: a store that has no periods has nothing open, so `start` on an
/// empty store never reports `AlreadyTracking`; and a store whose last
/// period is open is exactly one `start` reports it on.
pub proof fn lemma_start_gate(s: Seq<PeriodView>)
    ensures
        s.len() == 0 ==> !has_open(s),
        has_open(s) ==> s.len() > 0 && s.last().end_time is None,
{
}

/// Law: a `cancel` that immediately follows a successful `stop` always
/// fails with `NothingTracked` — stopping closes the last period, and
/// `cancel` only removes an open one.
pub proof fn lemma_cancel_after_stop(s: Seq<PeriodView>, now: int)
    requires
        s.len() > 0,
    ensures
        !has_open(stop_transition(s, now)),
{
}

pub open spec fn start_message(project: Seq<char>, now: int, off: int) -> Seq<char> {
    "Started tracking project "@ + project + " at "@ + time_text(now, off) + "\n"@
}

pub open spec fn stop_message(project: Seq<char>, start: int, now: int) -> Seq<char> {
    "Stopped project "@ + project + ", started "@ + duration_text(elapsed(start, now)) + " ago"@
}

pub open spec fn cancel_message(project: Seq<char>, start: int, now: int) -> Seq<char> {
    "Canceled project "@ + project + ", started "@ + duration_text(elapsed(start, now)) + " ago"@
}

pub open spec fn restart_message(project: Seq<char>) -> Seq<char> {
    "Tracking last running project: "@ + project
}

pub open spec fn amend_message(old_name: Seq<char>, new_name: Seq<char>) -> Seq<char> {
    "Renamed tracking project "@ + old_name + " -> "@ + new_name + "\n"@
}

pub open spec fn delete_message(project: Seq<char>) -> Seq<char> {
    "Deleted project "@ + project + "\n"@
}

pub open spec fn status_message(p: PeriodView, now: int, off: int) -> Seq<char> {
    "Project "@ + p.project + " started "@ + duration_text(elapsed(p.start_time, now))
        + " ago ("@ + datetime_text(p.start_time, off) + ")\n"@
}

impl Period {
    /// A new period for `project`, open and starting `now`.
    pub fn new(project: &str, now: i64) -> (r: Period)
        requires
            project@.len() > 0,
            0 <= now <= MAX_TS,
        ensures
            r@ == (PeriodView { project: project@, start_time: now as int, end_time: None }),
            period_wf(r@),
    {
        Period { project: String::from_str(project), start_time: now, end_time: None }
    }

    pub fn project(&self) -> (r: &String)
        ensures
            r@ == self@.project,
    {
        &self.project
    }

    pub fn start_time(&self) -> (r: i64)
        ensures
            r as int == self@.start_time,
    {
        self.start_time
    }

    pub fn end_time(&self) -> (r: Option<i64>)
        ensures
            match r {
                Some(e) => self@.end_time == Some(e as int),
                None => self@.end_time is None,
            },
    {
        self.end_time
    }
}

impl Clone for Period {
    fn clone(&self) -> (r: Self)
        ensures
            r == *self,
    {
        Period {
            project: self.project.clone(),
            start_time: self.start_time,
            end_time: self.end_time,
        }
    }
}

/// Seconds from `start` to `now` (zero when `now` is earlier),
/// executable form.
pub fn elapsed_x(start: i64, now: i64) -> (r: u64)
    requires
        0 <= start <= MAX_TS,
        0 <= now <= MAX_TS,
    ensures
        r == elapsed(start as int, now as int),
{
    if now >= start {
        (now - start) as u64
    } else {
        0
    }
}

/// The period store, and the settings it was opened with.
#[derive(Debug)]
pub struct Doug {
    pub periods: Vec<Period>,
    pub settings: Settings,
}

impl View for Doug {
    type V = Seq<PeriodView>;

    open spec fn view(&self) -> Seq<PeriodView> {
        self.periods@.map_values(|p: Period| p@)
    }
}

impl Doug {
    pub open spec fn wf(&self) -> bool {
        store_wf(self@)
    }

    /// An empty store.
    pub fn empty(settings: Settings) -> (r: Doug)
        ensures
            r@ =~= Seq::<PeriodView>::empty(),
            r.wf(),
    {
        Doug { periods: Vec::new(), settings }
    }

    pub fn period_count(&self) -> (n: usize)
        ensures
            n == self@.len(),
    {
        self.periods.len()
    }

    pub fn get(&self, i: usize) -> (r: &Period)
        requires
            i < self@.len(),
        ensures
            r@ == self@[i as int],
    {
        &self.periods[i]
    }

    pub fn data_location(&self) -> (r: &String)
        ensures
            r@ == self.settings.data_location@,
    {
        &self.settings.data_location
    }

    /// Begin tracking `project` at `now`.
    ///
    /// Fails with `AlreadyTracking` when the last period is still open;
    /// otherwise appends a new open period.
    pub fn start(&mut self, project: &str, now: i64, off: i32) -> (r: Result<
        Option<String>,
        DougError,
    >)
        requires
            old(self).wf(),
            project@.len() > 0,
            0 <= now <= MAX_TS,
            valid_offset(off as int),
        ensures
            final(self).wf(),
            has_open(old(self)@) ==> (r matches Err(e) && e == DougError::AlreadyTracking
                && final(self)@ == old(self)@),
            !has_open(old(self)@) ==> (r matches Ok(Some(msg)) && msg@ == start_message(
                project@,
                now as int,
                off as int,
            ) && final(self)@ == old(self)@.push(
                PeriodView { project: project@, start_time: now as int, end_time: None },
            )),
    {
        let n = self.periods.len();
        if n > 0 && self.periods[n - 1].end_time.is_none() {
            return Err(DougError::AlreadyTracking);
        }
        let p = Period::new(project, now);
        self.periods.push(p);
        assert(self@ =~= old(self)@.push(
            PeriodView { project: project@, start_time: now as int, end_time: None },
        ));
        let mut msg = String::new();
        msg.append("Started tracking project ");
        msg.append(project);
        msg.append(" at ");
        let t = time(now, off);
        msg.append(t.as_str());
        msg.append("\n");
        assert(msg@ =~= start_message(project@, now as int, off as int));
        Ok(Some(msg))
    }

    /// Close the running period at `now`.
    ///
    /// Fails with `NothingTracked` when no period is open; otherwise the
    /// last period's end becomes `now` (never moved before its start).
    pub fn stop(&mut self, now: i64) -> (r: Result<Option<String>, DougError>)
        requires
            old(self).wf(),
            0 <= now <= MAX_TS,
        ensures
            final(self).wf(),
            !has_open(old(self)@) ==> (r matches Err(e) && e == DougError::NothingTracked
                && final(self)@ == old(self)@),
            has_open(old(self)@) ==> ({
                &&& final(self)@ == stop_transition(old(self)@, now as int)
                &&& r matches Ok(Some(msg)) && msg@ == stop_message(
                    old(self)@.last().project,
                    old(self)@.last().start_time,
                    now as int,
                )
            }),
    {
        let n = self.periods.len();
        if n == 0 || self.periods[n - 1].end_time.is_some() {
            return Err(DougError::NothingTracked);
        }
        let p = self.periods.pop().unwrap();
        let Period { project, start_time, end_time: _ } = p;
        let end = if now < start_time {
            start_time
        } else {
            now
        };
        let mut msg = String::new();
        msg.append("Stopped project ");
        msg.append(project.as_str());
        msg.append(", started ");
        let d = duration(elapsed_x(start_time, now));
        msg.append(d.as_str());
        msg.append(" ago");
        assert(msg@ =~= stop_message(project@, start_time as int, now as int));
        self.periods.push(Period { project, start_time, end_time: Some(end) });
        assert(final(self)@ =~= old(self)@.update(
            old(self)@.len() - 1,
            PeriodView {
                project: old(self)@.last().project,
                start_time: old(self)@.last().start_time,
                end_time: Some(stop_end(old(self)@.last().start_time, now as int)),
            },
        ));
        Ok(Some(msg))
    }

    /// Discard the running period entirely.
    ///
    /// Fails with `NothingTracked` when no period is open; otherwise the
    /// last period is removed and no record of it is kept.
    pub fn cancel(&mut self, now: i64) -> (r: Result<Option<String>, DougError>)
        requires
            old(self).wf(),
            0 <= now <= MAX_TS,
        ensures
            final(self).wf(),
            !has_open(old(self)@) ==> (r matches Err(e) && e == DougError::NothingTracked
                && final(self)@ == old(self)@),
            has_open(old(self)@) ==> (r matches Ok(Some(msg)) && msg@ == cancel_message(
                old(self)@.last().project,
                old(self)@.last().start_time,
                now as int,
            ) && final(self)@ == old(self)@.drop_last()),
    {
        let n = self.periods.len();
        if n == 0 || self.periods[n - 1].end_time.is_some() {
            return Err(DougError::NothingTracked);
        }
        let p = self.periods.pop().unwrap();
        assert(final(self)@ =~= old(self)@.drop_last());
        let mut msg = String::new();
        msg.append("Canceled project ");
        msg.append(p.project.as_str());
        msg.append(", started ");
        let d = duration(elapsed_x(p.start_time, now));
        msg.append(d.as_str());
        msg.append(" ago");
        assert(msg@ =~= cancel_message(
            old(self)@.last().project,
            old(self)@.last().start_time,
            now as int,
        ));
        Ok(Some(msg))
    }

    /// Begin a new period at `now` for the project of the last closed
    /// period.
    ///
    /// Fails with `AlreadyTracking` when a period is open, and with
    /// `NoHistory` when the store is empty.
    pub fn restart(&mut self, now: i64) -> (r: Result<Option<String>, DougError>)
        requires
            old(self).wf(),
            0 <= now <= MAX_TS,
        ensures
            final(self).wf(),
            has_open(old(self)@) ==> (r matches Err(e) && e == DougError::AlreadyTracking
                && final(self)@ == old(self)@),
            old(self)@.len() == 0 ==> (r matches Err(e) && e == DougError::NoHistory
                && final(self)@ == old(self)@),
            old(self)@.len() > 0 && !has_open(old(self)@) ==> (r matches Ok(Some(msg))
                && msg@ == restart_message(old(self)@.last().project)
                && final(self)@ == old(self)@.push(
                PeriodView {
                    project: old(self)@.last().project,
                    start_time: now as int,
                    end_time: None,
                },
            )),
    {
        let n = self.periods.len();
        if n == 0 {
            return Err(DougError::NoHistory);
        }
        if self.periods[n - 1].end_time.is_none() {
            return Err(DougError::AlreadyTracking);
        }
        let name = self.periods[n - 1].project.clone();
        let mut msg = String::new();
        msg.append("Tracking last running project: ");
        msg.append(name.as_str());
        assert(msg@ =~= restart_message(old(self)@.last().project));
        let p = Period { project: name, start_time: now, end_time: None };
        self.periods.push(p);
        assert(final(self)@ =~= old(self)@.push(
            PeriodView {
                project: old(self)@.last().project,
                start_time: now as int,
                end_time: None,
            },
        ));
        Ok(Some(msg))
    }

    /// Rename the running period's project in place.
    ///
    /// Fails with `NothingTracked` when no period is open.
    pub fn amend(&mut self, project: &str) -> (r: Result<Option<String>, DougError>)
        requires
            old(self).wf(),
            project@.len() > 0,
        ensures
            final(self).wf(),
            !has_open(old(self)@) ==> (r matches Err(e) && e == DougError::NothingTracked
                && final(self)@ == old(self)@),
            has_open(old(self)@) ==> ({
                let last = old(self)@.last();
                let renamed = PeriodView {
                    project: project@,
                    start_time: last.start_time,
                    end_time: last.end_time,
                };
                &&& final(self)@ == old(self)@.update(old(self)@.len() - 1, renamed)
                &&& r matches Ok(Some(msg)) && msg@ == amend_message(
                    last.project,
                    project@,
                )
            }),
    {
        let n = self.periods.len();
        if n == 0 || self.periods[n - 1].end_time.is_some() {
            return Err(DougError::NothingTracked);
        }
        let p = self.periods.pop().unwrap();
        let Period { project: old_name, start_time, end_time } = p;
        let mut msg = String::new();
        msg.append("Renamed tracking project ");
        msg.append(old_name.as_str());
        msg.append(" -> ");
        msg.append(project);
        msg.append("\n");
        assert(msg@ =~= amend_message(old(self)@.last().project, project@));
        self.periods.push(
            Period { project: String::from_str(project), start_time, end_time },
        );
        assert(final(self)@ =~= old(self)@.update(
            old(self)@.len() - 1,
            PeriodView {
                project: project@,
                start_time: old(self)@.last().start_time,
                end_time: old(self)@.last().end_time,
            },
        ));
        Ok(Some(msg))
    }

    /// Describe the running period.
    ///
    /// With `simple_name` the project name alone, with `simple_time` the
    /// elapsed time alone, otherwise a full sentence. With no open period
    /// the result is `NothingTracked`, softened to no output when either
    /// flag asks for plain output.
    pub fn status(&self, simple_name: bool, simple_time: bool, now: i64, off: i32) -> (r: Result<
        Option<String>,
        DougError,
    >)
        requires
            self.wf(),
            0 <= now <= MAX_TS,
            valid_offset(off as int),
        ensures
            has_open(self@) ==> ({
                let last = self@.last();
                r matches Ok(Some(msg)) && msg@ == (if simple_name {
                    last.project + "\n"@
                } else if simple_time {
                    duration_text(elapsed(last.start_time, now as int)) + "\n"@
                } else {
                    status_message(last, now as int, off as int)
                })
            }),
            !has_open(self@) && !simple_name && !simple_time ==> (r matches Err(e) && e
                == DougError::NothingTracked),
            !has_open(self@) && (simple_name || simple_time) ==> (r matches Ok(m) && m is None),
    {
        let n = self.periods.len();
        if n > 0 && self.periods[n - 1].end_time.is_none() {
            let last = &self.periods[n - 1];
            let mut msg = String::new();
            if simple_name {
                msg.append(last.project.as_str());
                msg.append("\n");
                assert(msg@ =~= self@.last().project + "\n"@);
            } else if simple_time {
                let d = duration(elapsed_x(last.start_time, now));
                msg.append(d.as_str());
                msg.append("\n");
                assert(msg@ =~= duration_text(elapsed(self@.last().start_time, now as int))
                    + "\n"@);
            } else {
                msg.append("Project ");
                msg.append(last.project.as_str());
                msg.append(" started ");
                let d = duration(elapsed_x(last.start_time, now));
                msg.append(d.as_str());
                msg.append(" ago (");
                let dt = datetime(last.start_time, off);
                msg.append(dt.as_str());
                msg.append(")\n");
                assert(msg@ =~= status_message(self@.last(), now as int, off as int));
            }
            return Ok(Some(msg));
        }
        if !(simple_name || simple_time) {
            Err(DougError::NothingTracked)
        } else {
            Ok(None)
        }
    }

    /// Replace the start and/or end instant of the last period, each
    /// given as a humanized date string read in the local time zone.
    ///
    /// With neither string given this does nothing (the surrounding
    /// command opens the raw data file instead). A string that cannot
    /// be understood, or an instant that would leave the last period
    /// ill-formed, is a `Parse` error; an empty store is `NoPeriod`.
    pub fn edit(&mut self, start: Option<&str>, end: Option<&str>, now: i64, off: i32) -> (r:
        Result<Option<String>, DougError>)
        requires
            old(self).wf(),
            0 <= now <= MAX_TS,
            valid_offset(off as int),
        ensures
            final(self).wf(),
            start is None && end is None ==> (r matches Ok(m) && m is None && final(self)@
                == old(self)@),
            r is Err ==> final(self)@ == old(self)@ && (r matches Err(e) && (e
                == DougError::Parse || e == DougError::NoPeriod)),
            start matches Some(t) && !crate::dateparse::safe_date_text(t@) ==> (r matches Err(e)
                && e == DougError::Parse && final(self)@ == old(self)@),
            end matches Some(t) && !crate::dateparse::safe_date_text(t@) ==> (r matches Err(e)
                && e == DougError::Parse && final(self)@ == old(self)@),
            (start is Some || end is Some) && old(self)@.len() == 0 ==> r is Err,
            (start is Some || end is Some) && r is Ok ==> (r matches Ok(Some(msg))
                && edit_outcome_ok(
                old(self)@,
                final(self)@,
                start is Some,
                end is Some,
                now as int,
                off as int,
                msg@,
            )),
    {
        if start.is_none() && end.is_none() {
            return Ok(None);
        }
        let ns: Option<i64> = match start {
            Some(text) => {
                if !crate::dateparse::is_safe_date_text(text) {
                    return Err(DougError::Parse);
                }
                match crate::dateparse::parse_date_local(text, now) {
                    Some(ts) => Some(ts),
                    None => {
                        return Err(DougError::Parse);
                    },
                }
            },
            None => None,
        };
        let ne: Option<i64> = match end {
            Some(text) => {
                if !crate::dateparse::is_safe_date_text(text) {
                    return Err(DougError::Parse);
                }
                match crate::dateparse::parse_date_local(text, now) {
                    Some(ts) => Some(ts),
                    None => {
                        return Err(DougError::Parse);
                    },
                }
            },
            None => None,
        };
        match self.edit_times(ns, ne, now, off) {
            Ok(Some(msg)) => {
                proof {
                    assert(edit_outcome_ok(
                        old(self)@,
                        final(self)@,
                        start is Some,
                        end is Some,
                        now as int,
                        off as int,
                        msg@,
                    ));
                }
                Ok(Some(msg))
            },
            Ok(None) => Ok(None),
            Err(e) => Err(e),
        }
    }

    /// Point the store at another data directory, or describe the
    /// current settings. Clearing and rewriting the settings file, and
    /// moving the data, are the caller's work.
    pub fn settings(&mut self, path: Option<&str>, clear: bool) -> (r: Result<
        Option<String>,
        DougError,
    >)
        requires
            old(self).wf(),
        ensures
            final(self).wf(),
            final(self)@ == old(self)@,
            clear ==> (r matches Ok(Some(msg)) && msg@ == "Cleared settings file"@
                && final(self).settings == old(self).settings),
            !clear ==> ({
                &&& match path {
                    Some(p) => final(self).settings.data_location@ == p@,
                    None => final(self).settings == old(self).settings,
                }
                &&& r matches Ok(Some(msg)) && msg@ == final(self).settings.data_location@
                    + "\n"@
            }),
    {
        if clear {
            let mut msg = String::new();
            msg.append("Cleared settings file");
            proof {
                assert(msg@ =~= "Cleared settings file"@);
            }
            return Ok(Some(msg));
        }
        if let Some(p) = path {
            self.settings.data_location = String::from_str(p);
        }
        let mut msg = self.settings.data_location.clone();
        msg.append("\n");
        assert(msg@ =~= self.settings.data_location@ + "\n"@);
        Ok(Some(msg))
    }

    /// Remove every period of `project`.
    ///
    /// Fails with `ProjectNotFound`, leaving the store unchanged, when no
    /// period carries that name.
    pub fn delete(&mut self, project: &str) -> (r: Result<Option<String>, DougError>)
        requires
            old(self).wf(),
        ensures
            final(self).wf(),
            !(exists|j: int|
                0 <= j < old(self)@.len() && old(self)@[j].project == project@) ==> (r matches Err(
                e,
            ) && e == DougError::ProjectNotFound && final(self)@ == old(self)@),
            (exists|j: int|
                0 <= j < old(self)@.len() && old(self)@[j].project == project@) ==> (r matches Ok(
                Some(msg),
            ) && msg@ == delete_message(project@) && final(self)@ == old(self)@.filter(
                keeps(project@),
            )),
    {
        let name = String::from_str(project);
        let n = self.periods.len();
        let mut kept: Vec<Period> = Vec::new();
        let mut found = false;
        let mut i: usize = 0;
        proof {
            assert(self@.subrange(0, 0).filter(keeps(project@)) =~= Seq::<PeriodView>::empty());
        }
        while i < n
            invariant
                i <= n,
                n == self@.len(),
                self == old(self),
                old(self).wf(),
                project@ == name@,
                found <==> exists|j: int| 0 <= j < i && self@[j].project == project@,
                kept@.map_values(|p: Period| p@) == self@.subrange(0, i as int).filter(
                    keeps(project@),
                ),
                forall|k: int| 0 <= k < kept@.len() ==> period_wf((#[trigger] kept@[k])@),
                forall|k: int|
                    0 <= k < kept@.len() ==> ((#[trigger] kept@[k])@.end_time is Some || (i
                        == self@.len() && k == kept@.len() - 1)),
            decreases n - i,
        {
            let ghost pre = kept@.map_values(|p: Period| p@);
            proof {
                assert(self@.subrange(0, i as int + 1) =~= self@.subrange(0, i as int).push(
                    self@[i as int],
                ));
                self@.subrange(0, i as int).lemma_filter_push(self@[i as int], keeps(project@));
            }
            if self.periods[i].project == name {
                found = true;
            } else {
                kept.push(self.periods[i].clone());
                proof {
                    assert(kept@.map_values(|p: Period| p@) =~= pre.push(self@[i as int]));
                }
            }
            i = i + 1;
        }
        if !found {
            return Err(DougError::ProjectNotFound);
        }
        proof {
            assert(self@.subrange(0, n as int) =~= self@);
        }
        self.periods = kept;
        let mut msg = String::new();
        msg.append("Deleted project ");
        msg.append(project);
        msg.append("\n");
        assert(msg@ =~= delete_message(project@));
        Ok(Some(msg))
    }

    /// Replace the start and/or end instant of the last period.
    ///
    /// With neither instant given this does nothing (the surrounding
    /// command opens the raw data file instead). Fails with `NoPeriod`
    /// on an empty store, and with `Parse` when the replacement would
    /// leave the last period outside the representable range or ending
    /// before it starts.
    pub fn edit_times(
        &mut self,
        new_start: Option<i64>,
        new_end: Option<i64>,
        now: i64,
        off: i32,
    ) -> (r: Result<Option<String>, DougError>)
        requires
            old(self).wf(),
            0 <= now <= MAX_TS,
            valid_offset(off as int),
        ensures
            final(self).wf(),
            new_start is None && new_end is None ==> (r matches Ok(m) && m is None && final(self)@
                == old(self)@),
            (new_start is Some || new_end is Some) && old(self)@.len() == 0 ==> (r matches Err(e)
                && e == DougError::NoPeriod && final(self)@ == old(self)@),
            (new_start is Some || new_end is Some) && old(self)@.len() > 0 ==> ({
                let cand = edited_view(old(self)@.last(), new_start, new_end);
                if period_wf(cand) {
                    r matches Ok(Some(msg)) && msg@ == period_line_text(cand, now as int, off as int)
                        && final(self)@ == old(self)@.update(old(self)@.len() - 1, cand)
                } else {
                    r matches Err(e) && e == DougError::Parse && final(self)@ == old(self)@
                }
            }),
    {
        if new_start.is_none() && new_end.is_none() {
            return Ok(None);
        }
        let n = self.periods.len();
        if n == 0 {
            return Err(DougError::NoPeriod);
        }
        let p = self.periods.pop().unwrap();
        let start2 = match new_start {
            Some(s) => s,
            None => p.start_time,
        };
        let end2: Option<i64> = match new_end {
            Some(e) => Some(e),
            None => p.end_time,
        };
        let range_ok = 0 <= start2 && start2 <= MAX_TS && match end2 {
            Some(e) => start2 <= e && e <= MAX_TS,
            None => true,
        };
        if !range_ok {
            self.periods.push(p);
            assert(final(self)@ =~= old(self)@);
            return Err(DougError::Parse);
        }
        let mut msg = String::new();
        let t1 = time(start2, off);
        msg.append(t1.as_str());
        msg.append(" to ");
        match end2 {
            Some(e) => {
                let t2 = time(e, off);
                msg.append(t2.as_str());
            },
            None => {
                msg.append("present");
            },
        }
        msg.append(" ");
        let end_instant = match end2 {
            Some(e) => e,
            None => now,
        };
        let d = duration(elapsed_x(start2, end_instant));
        msg.append(d.as_str());
        let cand = Period { project: p.project, start_time: start2, end_time: end2 };
        self.periods.push(cand);
        proof {
            let candv = edited_view(old(self)@.last(), new_start, new_end);
            assert(final(self)@ =~= old(self)@.update(old(self)@.len() - 1, candv));
            assert(msg@ =~= period_line_text(candv, now as int, off as int));
        }
        Ok(Some(msg))
    }
}

} // verus!
