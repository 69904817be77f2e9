//! The settings that are stored beside the period data: where the data
//! file lives.

use vstd::prelude::*;

verus! {

/// Settings kept on disk in their own small JSON document.
#[derive(Debug)]
pub struct Settings {
    /// The directory that holds the period data file.
    pub data_location: String,
}

impl Settings {
    /// A settings value pointing at the given data directory.
    pub fn with_location(folder: &str) -> (r: Settings)
        ensures
            r.data_location@ == folder@,
    {
        Settings { data_location: String::from_str(folder) }
    }
}

impl Clone for Settings {
    fn clone(&self) -> (r: Self)
        ensures
            r == *self,
    {
        Settings { data_location: self.data_location.clone() }
    }
}

} // verus!
