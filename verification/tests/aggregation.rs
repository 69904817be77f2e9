use doug::report::{period_secs_x, Window};
use doug::{Doug, DougError, Period, Settings};

fn settings() -> Settings {
    Settings::with_location("/tmp/doug-data")
}

#[test]
fn clipping_keeps_only_the_overlap() {
    // A period over 10:00-14:00 against a window of 12:00-13:00 yields
    // one hour, not four and not zero.
    let p = Period { project: String::from("alpha"), start_time: 36000, end_time: Some(50400) };
    assert_eq!(period_secs_x(&p, Some((43200, 46800)), 60000), 3600);
}

#[test]
fn clipping_an_open_period_uses_now() {
    let p = Period { project: String::from("alpha"), start_time: 36000, end_time: None };
    assert_eq!(period_secs_x(&p, Some((43200, 46800)), 45000), 1800);
}

#[test]
fn clipping_a_disjoint_period_yields_zero() {
    // A period over 08:00-09:00 against a window of 10:00-11:00.
    let closed = Period { project: String::from("alpha"), start_time: 28800, end_time: Some(32400) };
    assert_eq!(period_secs_x(&closed, Some((36000, 39600)), 60000), 0);
    let open = Period { project: String::from("alpha"), start_time: 28800, end_time: None };
    assert_eq!(period_secs_x(&open, Some((36000, 39600)), 32400), 0);
}

#[test]
fn clipping_straddling_periods_keeps_the_inside_part() {
    // Starts before the window, ends inside it.
    let p = Period { project: String::from("alpha"), start_time: 1000, end_time: Some(6000) };
    assert_eq!(period_secs_x(&p, Some((5000, 9000)), 60000), 1000);
    // Starts inside the window, ends after it.
    let q = Period { project: String::from("alpha"), start_time: 8000, end_time: Some(12000) };
    assert_eq!(period_secs_x(&q, Some((5000, 9000)), 60000), 1000);
}

#[test]
fn report_sums_projects_in_name_order() {
    let mut d = Doug::empty(settings());
    d.start("alpha", 0, 0).unwrap();
    d.stop(3600).unwrap();
    d.start("alpha", 7200, 0).unwrap();
    d.stop(12600).unwrap();
    d.start("beta", 13000, 0).unwrap();
    d.stop(15700).unwrap();
    let r = d.report(0, 0, 0, 0, None, None, 16000, 0);
    assert_eq!(
        r.unwrap().unwrap(),
        "Thursday 1 January 1970 -> Thursday 1 January 1970\nalpha 2h 30m 00s\nbeta     45m 00s\n"
    );
}

#[test]
fn report_leaves_out_projects_outside_the_window() {
    let mut d = Doug::empty(settings());
    d.start("alpha", 28800, 0).unwrap();
    d.stop(32400).unwrap();
    let now = 2 * 86400 + 3600;
    let msg = d.report_days(Window::Range { from_day: Some(2), to_day: Some(3) }, now, 0);
    // Nothing counts, so both header dates fall back to today.
    assert_eq!(msg, "Saturday 3 January 1970 -> Saturday 3 January 1970\n");
}

#[test]
fn report_trailing_day_keeps_only_recent_work() {
    let mut d = Doug::empty(settings());
    d.start("beta", 0, 0).unwrap();
    d.stop(3600).unwrap();
    d.start("alpha", 2 * 86400 + 36000, 0).unwrap();
    d.stop(2 * 86400 + 39600).unwrap();
    let now = 2 * 86400 + 46800;
    let r = d.report(0, 0, 0, 1, None, None, now, 0);
    assert_eq!(
        r.unwrap().unwrap(),
        "Saturday 3 January 1970 -> Saturday 3 January 1970\nalpha 1h 00m 00s\n"
    );
}

#[test]
fn report_rejects_a_bad_date_string() {
    let d = Doug::empty(settings());
    let r = d.report(0, 0, 0, 0, Some("certainly not a date"), None, 16000, 0);
    assert_eq!(r.unwrap_err(), DougError::Parse);
}

#[test]
fn report_accepts_plain_date_strings() {
    let mut d = Doug::empty(settings());
    d.start("alpha", 1521651909, 0).unwrap();
    d.stop(1521655509).unwrap();
    let r = d.report(0, 0, 0, 0, Some("2018-03-01"), Some("2018-04-01"), 1521655600, 0);
    assert!(r.is_ok());
}

#[test]
fn log_groups_a_day_under_one_header() {
    let mut d = Doug::empty(settings());
    d.start("alpha", 3600, 0).unwrap();
    d.stop(7200).unwrap();
    d.start("beta", 10800, 0).unwrap();
    d.stop(14400).unwrap();
    let r = d.log(15000, 0);
    assert_eq!(
        r.unwrap().unwrap(),
        "Thursday 1 January 1970 (2h 00m 00s)\n    01:00 to 02:00  1h 00m 00s alpha\n    03:00 to 04:00  1h 00m 00s beta\n"
    );
}

#[test]
fn log_shows_a_running_period_ending_now() {
    let mut d = Doug::empty(settings());
    d.start("alpha", 3600, 0).unwrap();
    let r = d.log(5400, 0);
    assert_eq!(
        r.unwrap().unwrap(),
        "Thursday 1 January 1970 (30m 00s)\n    01:00 to 01:30     30m 00s alpha\n"
    );
}

#[test]
fn log_orders_days_even_when_the_store_does_not() {
    let text = "[{\"project\":\"late\",\"start_time\":\"1970-01-03T10:00:00Z\",\"end_time\":\"1970-01-03T11:00:00Z\"},{\"project\":\"early\",\"start_time\":\"1970-01-01T10:00:00Z\",\"end_time\":\"1970-01-01T11:00:00Z\"}]";
    let d = Doug::new(text, settings()).unwrap();
    let msg = d.log(3 * 86400, 0).unwrap().unwrap();
    let early = msg.find("early").unwrap();
    let late = msg.find("late").unwrap();
    assert!(early < late);
    assert!(msg.starts_with("Thursday 1 January 1970"));
    assert!(msg.contains("Saturday 3 January 1970"));
}

#[test]
fn edit_reads_humanized_dates_in_local_time() {
    let mut d = Doug::empty(settings());
    d.start("alpha", 1521651909, 0).unwrap();
    d.stop(1521655509).unwrap();
    let r = d.edit(Some("2018-03-21"), None, 1521655600, 0);
    assert!(r.is_ok());
    // Local midnight of 2018-03-21 lies within fourteen hours of the
    // UTC midnight 1521590400, whatever the machine's time zone.
    let start = d.get(0).start_time();
    assert!(start >= 1521590400 - 14 * 3600 && start <= 1521590400 + 14 * 3600);
}

#[test]
fn edit_rejects_a_bad_date_string() {
    let mut d = Doug::empty(settings());
    d.start("alpha", 1000, 0).unwrap();
    let r = d.edit(Some("certainly not a date"), None, 2000, 0);
    assert_eq!(r.unwrap_err(), DougError::Parse);
}

#[test]
fn report_clips_a_period_straddling_the_window_edge() {
    let mut d = Doug::empty(settings());
    // 23:00 on the first day to 01:00 on the second: two hours, one
    // inside a trailing one-day window taken at the start of the third.
    d.start("alpha", 86400 - 3600, 0).unwrap();
    d.stop(86400 + 3600).unwrap();
    let now = 2 * 86400;
    let r = d.report(0, 0, 0, 1, None, None, now, 0);
    // The clipped hour both starts and ends on the second day.
    assert_eq!(
        r.unwrap().unwrap(),
        "Friday 2 January 1970 -> Friday 2 January 1970\nalpha 1h 00m 00s\n"
    );
}

#[test]
fn report_year_window_reaches_back_a_year() {
    let mut d = Doug::empty(settings());
    d.start("alpha", 100 * 86400, 0).unwrap();
    d.stop(100 * 86400 + 1800).unwrap();
    let now = 200 * 86400;
    // A year window (365 days) covers the work; a ten-day window does not.
    let wide = d.report(1, 0, 0, 0, None, None, now, 0).unwrap().unwrap();
    assert!(wide.contains("alpha"));
    let narrow = d.report(0, 0, 0, 10, None, None, now, 0).unwrap().unwrap();
    assert!(!narrow.contains("alpha"));
}

#[test]
fn log_orders_a_days_periods_by_start() {
    // Two same-day periods stored out of chronological order.
    let text = "[{\"project\":\"second\",\"start_time\":\"1970-01-01T10:00:00Z\",\"end_time\":\"1970-01-01T11:00:00Z\"},{\"project\":\"first\",\"start_time\":\"1970-01-01T08:00:00Z\",\"end_time\":\"1970-01-01T09:00:00Z\"}]";
    let d = Doug::new(text, settings()).unwrap();
    let msg = d.log(86400, 0).unwrap().unwrap();
    assert_eq!(
        msg,
        "Thursday 1 January 1970 (2h 00m 00s)\n    08:00 to 09:00  1h 00m 00s first\n    10:00 to 11:00  1h 00m 00s second\n"
    );
}

#[test]
fn date_strings_that_could_trip_the_parser_are_rejected() {
    let mut d = Doug::empty(settings());
    d.start("alpha", 1000, 0).unwrap();
    // A seven-digit count could push the parsed date outside what the
    // date library represents.
    let r = d.report(0, 0, 0, 0, Some("20000000 weeks ago"), None, 16000, 0);
    assert_eq!(r.unwrap_err(), DougError::Parse);
    // A non-ASCII word could land inside a multi-byte character in the
    // parser's name lookups.
    let r2 = d.report(0, 0, 0, 0, None, Some("\u{e9}\u{e9}"), 16000, 0);
    assert_eq!(r2.unwrap_err(), DougError::Parse);
    let r3 = d.edit(Some("9999999"), None, 2000, 0);
    assert_eq!(r3.unwrap_err(), DougError::Parse);
}

#[test]
fn bounded_relative_dates_still_parse() {
    let mut d = Doug::empty(settings());
    d.start("alpha", 1521651909, 0).unwrap();
    d.stop(1521655509).unwrap();
    // Six-digit counts stay within the safe bound and parse normally.
    let r = d.edit(Some("2 weeks ago"), None, 1521655600, 0);
    assert!(r.is_ok());
    let start = d.get(0).start_time();
    let two_weeks = 14 * 86400;
    assert!(start >= 1521655600 - two_weeks - 86400 && start <= 1521655600 - two_weeks + 86400);
}
