use doug::{Doug, DougError, Settings};

fn settings() -> Settings {
    Settings::with_location("/tmp/doug-data")
}

#[test]
fn save_empty_store() {
    let d = Doug::empty(settings());
    assert_eq!(d.save(), "[]");
}

#[test]
fn save_one_open_period() {
    let mut d = Doug::empty(settings());
    d.start("alpha", 3600, 0).unwrap();
    assert_eq!(
        d.save(),
        "[{\"project\":\"alpha\",\"start_time\":\"1970-01-01T01:00:00Z\",\"end_time\":null}]"
    );
}

#[test]
fn save_two_periods() {
    let mut d = Doug::empty(settings());
    d.start("alpha", 3600, 0).unwrap();
    d.stop(7200).unwrap();
    d.start("beta", 10800, 0).unwrap();
    assert_eq!(
        d.save(),
        "[{\"project\":\"alpha\",\"start_time\":\"1970-01-01T01:00:00Z\",\"end_time\":\"1970-01-01T02:00:00Z\"},{\"project\":\"beta\",\"start_time\":\"1970-01-01T03:00:00Z\",\"end_time\":null}]"
    );
}

#[test]
fn load_what_was_saved() {
    let mut d = Doug::empty(settings());
    d.start("web app", 1521651909, 0).unwrap();
    d.stop(1521655509).unwrap();
    d.start("thesis", 1521660000, 0).unwrap();
    let text = d.save();
    let d2 = Doug::new(text.as_str(), settings()).unwrap();
    assert_eq!(d2.period_count(), 2);
    assert_eq!(d2.get(0).project(), "web app");
    assert_eq!(d2.get(0).start_time(), 1521651909);
    assert_eq!(d2.get(0).end_time(), Some(1521655509));
    assert_eq!(d2.get(1).project(), "thesis");
    assert!(d2.get(1).end_time().is_none());
    assert_eq!(d2.save(), text);
}

#[test]
fn load_round_trips_awkward_project_names() {
    let mut d = Doug::empty(settings());
    d.start("a\"b\\c\nd\te", 1000, 0).unwrap();
    d.stop(2000).unwrap();
    let text = d.save();
    let d2 = Doug::new(text.as_str(), settings()).unwrap();
    assert_eq!(d2.get(0).project(), "a\"b\\c\nd\te");
    assert_eq!(d2.save(), text);
}

#[test]
fn load_empty_file_gives_empty_store() {
    let d = Doug::new("", settings()).unwrap();
    assert_eq!(d.period_count(), 0);
    let d2 = Doug::new("[]", settings()).unwrap();
    assert_eq!(d2.period_count(), 0);
}

#[test]
fn load_parses_rfc3339_instants() {
    let text = "[{\"project\":\"alpha\",\"start_time\":\"2018-03-21T17:05:09Z\",\"end_time\":null}]";
    let d = Doug::new(text, settings()).unwrap();
    assert_eq!(d.get(0).start_time(), 1521651909);
}

#[test]
fn load_rejects_text_that_is_not_the_format() {
    assert_eq!(Doug::new("not json", settings()).unwrap_err(), DougError::Parse);
    assert_eq!(Doug::new("[", settings()).unwrap_err(), DougError::Parse);
    assert_eq!(Doug::new("{}", settings()).unwrap_err(), DougError::Parse);
    assert_eq!(Doug::new("[{}]", settings()).unwrap_err(), DougError::Parse);
    // A fourth field, a missing field, or a repeated field is not the
    // period schema.
    let extra = "[{\"project\":\"a\",\"start_time\":\"1970-01-01T00:00:00Z\",\"end_time\":null,\"note\":\"x\"}]";
    assert_eq!(Doug::new(extra, settings()).unwrap_err(), DougError::Parse);
    let missing = "[{\"project\":\"a\",\"start_time\":\"1970-01-01T00:00:00Z\"}]";
    assert_eq!(Doug::new(missing, settings()).unwrap_err(), DougError::Parse);
    let doubled = "[{\"project\":\"a\",\"project\":\"b\",\"end_time\":null}]";
    assert_eq!(Doug::new(doubled, settings()).unwrap_err(), DougError::Parse);
}

#[test]
fn load_accepts_whitespace_between_tokens() {
    assert_eq!(Doug::new("[ ]", settings()).unwrap().period_count(), 0);
    assert_eq!(Doug::new(" [\n]\t", settings()).unwrap().period_count(), 0);
    assert_eq!(Doug::new("  \n", settings()).unwrap().period_count(), 0);
    let spaced = " [ { \"project\" : \"alpha\" , \"start_time\" : \"1970-01-01T01:00:00Z\" , \"end_time\" : null } ]\n";
    let d = Doug::new(spaced, settings()).unwrap();
    assert_eq!(d.period_count(), 1);
    assert_eq!(d.get(0).project(), "alpha");
    assert_eq!(d.get(0).start_time(), 3600);
}

#[test]
fn load_accepts_fields_in_any_order() {
    let text = "[{\"end_time\":\"1970-01-01T02:00:00Z\",\"project\":\"alpha\",\"start_time\":\"1970-01-01T01:00:00Z\"}]";
    let d = Doug::new(text, settings()).unwrap();
    assert_eq!(d.get(0).start_time(), 3600);
    assert_eq!(d.get(0).end_time(), Some(7200));
}

#[test]
fn load_accepts_json_string_escapes() {
    let text = "[{\"project\":\"\\u0070roject\\tA\\u00e9\\uD83D\\uDE00\\n\",\"start_time\":\"1970-01-01T00:00:00Z\",\"end_time\":null}]";
    let d = Doug::new(text, settings()).unwrap();
    assert_eq!(d.get(0).project(), "project\tA\u{e9}\u{1F600}\n");
    // A lone surrogate decodes to no character at all.
    let lone = "[{\"project\":\"\\uD83D\",\"start_time\":\"1970-01-01T00:00:00Z\",\"end_time\":null}]";
    assert_eq!(Doug::new(lone, settings()).unwrap_err(), DougError::Parse);
}

#[test]
fn load_accepts_rfc3339_variants() {
    // Lowercase separator and zone, fractional seconds, and offsets.
    let text = "[{\"project\":\"a\",\"start_time\":\"1970-01-01t01:00:00.25z\",\"end_time\":\"1970-01-01T03:30:00+02:30\"}]";
    let d = Doug::new(text, settings()).unwrap();
    assert_eq!(d.get(0).start_time(), 3600);
    assert_eq!(d.get(0).end_time(), Some(3600));
    let west = "[{\"project\":\"a\",\"start_time\":\"1970-01-01T01:00:00-02:00\",\"end_time\":null}]";
    let d2 = Doug::new(west, settings()).unwrap();
    assert_eq!(d2.get(0).start_time(), 10800);
    // A date-time without any zone is not an instant.
    let bare = "[{\"project\":\"a\",\"start_time\":\"1970-01-01T01:00:00\",\"end_time\":null}]";
    assert_eq!(Doug::new(bare, settings()).unwrap_err(), DougError::Parse);
}

#[test]
fn load_rejects_an_open_period_that_is_not_last() {
    let text = "[{\"project\":\"a\",\"start_time\":\"1970-01-01T00:00:00Z\",\"end_time\":null},{\"project\":\"b\",\"start_time\":\"1970-01-01T01:00:00Z\",\"end_time\":null}]";
    assert_eq!(Doug::new(text, settings()).unwrap_err(), DougError::Parse);
}

#[test]
fn load_rejects_an_end_before_its_start() {
    let text = "[{\"project\":\"a\",\"start_time\":\"1970-01-01T02:00:00Z\",\"end_time\":\"1970-01-01T01:00:00Z\"}]";
    assert_eq!(Doug::new(text, settings()).unwrap_err(), DougError::Parse);
}

#[test]
fn load_rejects_an_empty_project_name() {
    let text = "[{\"project\":\"\",\"start_time\":\"1970-01-01T00:00:00Z\",\"end_time\":null}]";
    assert_eq!(Doug::new(text, settings()).unwrap_err(), DougError::Parse);
}

#[test]
fn load_rejects_out_of_range_dates() {
    let text = "[{\"project\":\"a\",\"start_time\":\"1969-12-31T23:59:59Z\",\"end_time\":null}]";
    assert_eq!(Doug::new(text, settings()).unwrap_err(), DougError::Parse);
    let text2 = "[{\"project\":\"a\",\"start_time\":\"1970-02-30T00:00:00Z\",\"end_time\":null}]";
    assert_eq!(Doug::new(text2, settings()).unwrap_err(), DougError::Parse);
}

#[test]
fn settings_file_round_trips() {
    let s = Settings::with_location("/home/someone/.doug");
    let text = s.save();
    assert_eq!(text, "{\"data_location\":\"/home/someone/.doug\"}");
    let s2 = Settings::new(text.as_str(), "/unused").unwrap();
    assert_eq!(s2.data_location, "/home/someone/.doug");
}

#[test]
fn settings_empty_file_falls_back_to_the_folder() {
    let s = Settings::new("", "/home/someone/.doug").unwrap();
    assert_eq!(s.data_location, "/home/someone/.doug");
}

#[test]
fn settings_accepts_whitespace_between_tokens() {
    let s = Settings::new("{ \"data_location\": \"/home/someone/.doug\" }\n", "/x").unwrap();
    assert_eq!(s.data_location, "/home/someone/.doug");
}

#[test]
fn settings_rejects_other_text() {
    assert_eq!(Settings::new("nonsense", "/x").unwrap_err(), DougError::Parse);
    assert_eq!(Settings::new("{}", "/x").unwrap_err(), DougError::Parse);
}
