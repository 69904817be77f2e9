//! Rendering a civil date as English text for report and log headers,
//! in the form `Friday 1 January 2021`.

use vstd::prelude::*;

use crate::dates::valid_ymd;

verus! {

/// The English text `Weekday D Month YYYY` for a civil date: what
/// chrono's `%A %-d %B %Y` format produces. It depends on the date
/// alone.
pub uninterp spec fn date_text(y: int, m: int, d: int) -> Seq<char>;

/// Relies on chrono's `NaiveDate::from_ymd_opt`, which is `Some` for
/// every valid civil date, and on `format("%A %-d %B %Y")`: English
/// weekday name, day without padding, English month name, year — a
/// function of the date alone.
#[verifier::external_body]
pub fn render_date(y: u64, m: u64, d: u64) -> (r: String)
    requires
        valid_ymd(y as int, m as int, d as int),
    ensures
        r@ == date_text(y as int, m as int, d as int),
{
    let nd = chrono::NaiveDate::from_ymd_opt(y as i32, m as u32, d as u32).unwrap();
    nd.format("%A %-d %B %Y").to_string()
}

} // verus!
