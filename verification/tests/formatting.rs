use doug::timefmt::{datetime, duration, local_day, time};

#[test]
fn durations_under_a_minute_show_seconds_alone() {
    assert_eq!(duration(0), "0s");
    assert_eq!(duration(9), "9s");
    assert_eq!(duration(59), "59s");
}

#[test]
fn durations_under_an_hour_show_minutes_and_seconds() {
    assert_eq!(duration(60), "1m 00s");
    assert_eq!(duration(65), "1m 05s");
    assert_eq!(duration(2700), "45m 00s");
    assert_eq!(duration(3599), "59m 59s");
}

#[test]
fn longer_durations_show_hours_too() {
    assert_eq!(duration(3600), "1h 00m 00s");
    assert_eq!(duration(3661), "1h 01m 01s");
    assert_eq!(duration(9000), "2h 30m 00s");
    assert_eq!(duration(90061), "25h 01m 01s");
}

#[test]
fn times_render_in_the_given_offset() {
    assert_eq!(time(1000, 0), "00:16");
    assert_eq!(time(36000, 0), "10:00");
    assert_eq!(time(36000, 3600), "11:00");
    assert_eq!(time(36000, -7200), "08:00");
}

#[test]
fn times_just_before_the_epoch_clamp_to_its_first_instant() {
    assert_eq!(time(1000, -7200), "00:00");
}

#[test]
fn datetimes_show_the_local_calendar_date() {
    assert_eq!(datetime(1000, 0), "1970-01-01 00:16");
    assert_eq!(datetime(1521651909, 0), "2018-03-21 17:05");
    assert_eq!(datetime(1521651909, 25200), "2018-03-22 00:05");
    assert_eq!(datetime(951827696, 0), "2000-02-29 12:34");
}

#[test]
fn local_days_follow_the_offset() {
    assert_eq!(local_day(1000, 0), 0);
    assert_eq!(local_day(1000, -7200), -1);
    assert_eq!(local_day(86399, 0), 0);
    assert_eq!(local_day(86400, 0), 1);
    assert_eq!(local_day(86000, 3600), 1);
}
