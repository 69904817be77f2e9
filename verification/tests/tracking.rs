use doug::{Doug, DougError, Settings};

fn empty_store() -> Doug {
    Doug::empty(Settings::with_location("/tmp/doug-data"))
}

#[test]
fn start_on_empty_succeeds() {
    let mut d = empty_store();
    let r = d.start("alpha", 1000, 0);
    assert_eq!(r.unwrap().unwrap(), "Started tracking project alpha at 00:16\n");
    assert_eq!(d.period_count(), 1);
    assert!(d.get(0).end_time().is_none());
}

#[test]
fn start_while_open_fails() {
    let mut d = empty_store();
    d.start("alpha", 1000, 0).unwrap();
    let r = d.start("beta", 2000, 0);
    assert_eq!(r.unwrap_err(), DougError::AlreadyTracking);
    assert_eq!(d.period_count(), 1);
}

#[test]
fn stop_closes_the_open_period() {
    let mut d = empty_store();
    d.start("alpha", 1000, 0).unwrap();
    let r = d.stop(2000);
    assert_eq!(r.unwrap().unwrap(), "Stopped project alpha, started 16m 40s ago");
    assert_eq!(d.get(0).end_time(), Some(2000));
}

#[test]
fn cancel_after_stop_fails() {
    let mut d = empty_store();
    d.start("alpha", 1000, 0).unwrap();
    d.stop(2000).unwrap();
    let r = d.cancel(2500);
    assert_eq!(r.unwrap_err(), DougError::NothingTracked);
    assert_eq!(d.period_count(), 1);
}

#[test]
fn cancel_removes_the_open_period() {
    let mut d = empty_store();
    d.start("alpha", 1000, 0).unwrap();
    let r = d.cancel(2000);
    assert_eq!(r.unwrap().unwrap(), "Canceled project alpha, started 16m 40s ago");
    assert_eq!(d.period_count(), 0);
}

#[test]
fn stop_without_open_fails() {
    let mut d = empty_store();
    assert_eq!(d.stop(1000).unwrap_err(), DougError::NothingTracked);
}

#[test]
fn restart_on_empty_fails() {
    let mut d = empty_store();
    assert_eq!(d.restart(1000).unwrap_err(), DougError::NoHistory);
}

#[test]
fn restart_repeats_the_last_project() {
    let mut d = empty_store();
    d.start("alpha", 1000, 0).unwrap();
    d.stop(2000).unwrap();
    let r = d.restart(3000);
    assert_eq!(r.unwrap().unwrap(), "Tracking last running project: alpha");
    assert_eq!(d.period_count(), 2);
    assert_eq!(d.get(1).start_time(), 3000);
    assert!(d.get(1).end_time().is_none());
}

#[test]
fn restart_while_open_fails() {
    let mut d = empty_store();
    d.start("alpha", 1000, 0).unwrap();
    assert_eq!(d.restart(2000).unwrap_err(), DougError::AlreadyTracking);
}

#[test]
fn amend_renames_the_open_period() {
    let mut d = empty_store();
    d.start("alpha", 1000, 0).unwrap();
    let r = d.amend("beta");
    assert_eq!(r.unwrap().unwrap(), "Renamed tracking project alpha -> beta\n");
    let s = d.status(true, false, 2000, 0);
    assert_eq!(s.unwrap().unwrap(), "beta\n");
}

#[test]
fn amend_without_open_fails() {
    let mut d = empty_store();
    d.start("alpha", 1000, 0).unwrap();
    d.stop(2000).unwrap();
    assert_eq!(d.amend("beta").unwrap_err(), DougError::NothingTracked);
}

#[test]
fn status_reports_the_running_project() {
    let mut d = empty_store();
    d.start("alpha", 1000, 0).unwrap();
    let full = d.status(false, false, 2000, 0);
    assert_eq!(
        full.unwrap().unwrap(),
        "Project alpha started 16m 40s ago (1970-01-01 00:16)\n"
    );
    let t = d.status(false, true, 2000, 0);
    assert_eq!(t.unwrap().unwrap(), "16m 40s\n");
}

#[test]
fn status_without_open_fails_or_stays_quiet() {
    let d = empty_store();
    assert_eq!(d.status(false, false, 1000, 0).unwrap_err(), DougError::NothingTracked);
    assert_eq!(d.status(true, false, 1000, 0).unwrap(), None);
    assert_eq!(d.status(false, true, 1000, 0).unwrap(), None);
}

#[test]
fn delete_missing_project_leaves_store_unchanged() {
    let mut d = empty_store();
    d.start("alpha", 1000, 0).unwrap();
    d.stop(2000).unwrap();
    let before = d.save();
    let r = d.delete("missing-project");
    assert_eq!(r.unwrap_err(), DougError::ProjectNotFound);
    assert_eq!(d.save(), before);
}

#[test]
fn delete_removes_every_period_of_the_project() {
    let mut d = empty_store();
    d.start("alpha", 1000, 0).unwrap();
    d.stop(2000).unwrap();
    d.start("beta", 3000, 0).unwrap();
    d.stop(4000).unwrap();
    d.start("alpha", 5000, 0).unwrap();
    d.stop(6000).unwrap();
    let r = d.delete("alpha");
    assert_eq!(r.unwrap().unwrap(), "Deleted project alpha\n");
    assert_eq!(d.period_count(), 1);
    assert_eq!(d.get(0).project(), "beta");
}

#[test]
fn stop_never_moves_the_end_before_the_start() {
    let mut d = empty_store();
    d.start("alpha", 5000, 0).unwrap();
    d.stop(4000).unwrap();
    assert_eq!(d.get(0).end_time(), Some(5000));
}

#[test]
fn edit_times_rewrites_the_last_period() {
    let mut d = empty_store();
    d.start("alpha", 1000, 0).unwrap();
    d.stop(2000).unwrap();
    let r = d.edit_times(Some(500), Some(1500), 3000, 0);
    assert_eq!(r.unwrap().unwrap(), "00:08 to 00:25 16m 40s");
    assert_eq!(d.get(0).start_time(), 500);
    assert_eq!(d.get(0).end_time(), Some(1500));
}

#[test]
fn edit_times_rejects_an_inverted_interval() {
    let mut d = empty_store();
    d.start("alpha", 1000, 0).unwrap();
    d.stop(2000).unwrap();
    let r = d.edit_times(Some(3000), Some(2500), 4000, 0);
    assert_eq!(r.unwrap_err(), DougError::Parse);
    assert_eq!(d.get(0).start_time(), 1000);
}

#[test]
fn edit_times_on_empty_fails() {
    let mut d = empty_store();
    assert_eq!(d.edit_times(Some(500), None, 1000, 0).unwrap_err(), DougError::NoPeriod);
}

#[test]
fn edit_times_with_nothing_given_does_nothing() {
    let mut d = empty_store();
    d.start("alpha", 1000, 0).unwrap();
    assert_eq!(d.edit_times(None, None, 2000, 0).unwrap(), None);
    assert_eq!(d.period_count(), 1);
}

#[test]
fn settings_reports_and_moves_the_data_location() {
    let mut d = empty_store();
    let r = d.settings(None, false);
    assert_eq!(r.unwrap().unwrap(), "/tmp/doug-data\n");
    let r2 = d.settings(Some("/tmp/elsewhere"), false);
    assert_eq!(r2.unwrap().unwrap(), "/tmp/elsewhere\n");
    assert_eq!(d.data_location(), "/tmp/elsewhere");
    let r3 = d.settings(None, true);
    assert_eq!(r3.unwrap().unwrap(), "Cleared settings file");
}

#[test]
fn error_messages_name_the_failure() {
    assert_eq!(DougError::NothingTracked.message(), "No project started.");
    assert_eq!(DougError::ProjectNotFound.message(), "Project not found.");
    assert_eq!(DougError::NoHistory.message(), "No previous project to restart.");
    assert_eq!(DougError::AlreadyTracking.message(), "A project is already being tracked.");
    assert_eq!(DougError::Parse.message(), "Couldn't parse the input.");
    assert_eq!(DougError::NoPeriod.message(), "No period to edit.");
    assert_eq!(DougError::Io.message(), "Couldn't read or write the data file.");
}
