//! Process-wide display preferences. The library itself never reads a
//! configuration file; the surrounding program parses one and hands the
//! result around as plain values.

use vstd::prelude::*;

verus! {

/// How times of day are meant to be rendered by a presentation layer.
#[derive(Copy, Clone, PartialEq, Eq, Structural, Debug)]
pub enum TimeFormat {
    H24,
    H12,
}

/// The one configuration record: an optional time-format preference.
#[derive(Copy, Clone, PartialEq, Eq, Structural, Debug)]
pub struct AppConfig {
    pub time_format: Option<TimeFormat>,
}

impl Default for AppConfig {
    /// The default preference is the 24-hour clock.
    fn default() -> (c: AppConfig)
        ensures
            c.time_format == Some(TimeFormat::H24),
    {
        AppConfig { time_format: Some(TimeFormat::H24) }
    }
}

/// How a task listing is meant to be rendered: as a table or as a
/// machine-readable document.
#[derive(Copy, Clone, PartialEq, Eq, Structural, Debug)]
pub enum OutputFormat {
    Table,
    Json,
}

} // verus!
