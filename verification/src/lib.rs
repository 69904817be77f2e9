//! A personal command-line time tracker: an append-ordered store of
//! start/stop periods tagged with project names, with verified tracking
//! operations, window-clipped aggregation for reports and logs, and a
//! verified codec for the persisted JSON format.

pub mod datefmt;
pub mod dateparse;
pub mod dates;
pub mod json;
pub mod log;
pub mod numtext;
pub mod period;
pub mod report;
pub mod settings;
pub mod timefmt;

pub use period::{Doug, Period};
pub use report::Window;
pub use settings::Settings;

use vstd::prelude::*;

verus! {

/// The error kinds an operation can report.
#[derive(Clone, Copy, PartialEq, Eq, Structural, Debug)]
pub enum DougError {
    /// A file could not be created, opened, read, written or backed up.
    Io,
    /// The data file held text that is not the period-array format, or a
    /// date string could not be understood.
    Parse,
    /// `start` or `restart` was asked while a period is still open.
    AlreadyTracking,
    /// `stop`, `cancel`, `amend` or `status` was asked with no open period.
    NothingTracked,
    /// `restart` was asked on an empty store.
    NoHistory,
    /// `delete` named a project with no recorded period.
    ProjectNotFound,
    /// `edit` was asked on an empty store.
    NoPeriod,
}

impl DougError {
    /// A short sentence describing the error, for the command line.
    pub fn message(&self) -> (r: &'static str)
        ensures
            r@ == message_of(*self),
    {
        match self {
            DougError::Io => "Couldn't read or write the data file.",
            DougError::Parse => "Couldn't parse the input.",
            DougError::AlreadyTracking => "A project is already being tracked.",
            DougError::NothingTracked => "No project started.",
            DougError::NoHistory => "No previous project to restart.",
            DougError::ProjectNotFound => "Project not found.",
            DougError::NoPeriod => "No period to edit.",
        }
    }
}

/// The text `DougError::message` returns for each error kind.
pub open spec fn message_of(e: DougError) -> Seq<char> {
    match e {
        DougError::Io => "Couldn't read or write the data file."@,
        DougError::Parse => "Couldn't parse the input."@,
        DougError::AlreadyTracking => "A project is already being tracked."@,
        DougError::NothingTracked => "No project started."@,
        DougError::NoHistory => "No previous project to restart."@,
        DougError::ProjectNotFound => "Project not found."@,
        DougError::NoPeriod => "No period to edit."@,
    }
}

} // verus!
