//! Editing an iCalendar as ergonomic TOML: a calendar is projected as a
//! fillable form, a person edits that form, and the edits are folded back onto
//! the calendar's own bytes.

pub mod cli;
pub mod datetime;
pub mod duration;
pub mod edit;
pub mod error;
pub mod ical;
pub mod line;
pub mod merge;
pub mod model;
pub mod number;
pub mod patch;
pub mod recurrence;
pub mod template;
pub mod text;
pub mod toml;
pub mod util;

