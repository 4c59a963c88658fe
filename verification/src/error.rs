//! # Errors
//!
//! The crate-wide error and result types.

use vstd::prelude::*;

use crate::text::{chars_of, push_all, string_of};
use crate::toml::TomlRefusal;

verus! {

/// The TOML parser's own error, carried through untouched.
#[verifier::external_type_specification]
#[verifier::external_body]
pub struct ExTomlError(toml_edit::TomlError);

/// The global `Error` enum of the library.
#[derive(Debug)]
pub enum TcalError {
    /// The input does not read as an iCalendar.
    ParseICalendar(String),
    /// One of a merge's three calendars does not read.
    ///
    /// It is named by the side it was given as, since the three are otherwise
    /// indistinguishable to the reader.
    ReadCalendar {
        /// The side the unreadable calendar was given as.
        side: &'static str,
        /// What the reader made of it.
        message: String,
    },
    /// A merged document still holds a collision.
    ///
    /// It is written as one key per side, which TOML refuses as a duplicate
    /// key, so an undecided document cannot be applied.
    Undecided(String),
    /// The edited TOML buffer is not valid TOML: the parser's refusal.
    ParseToml(TomlRefusal),
    /// A requested component type key names no modelled component type.
    UnknownComponent(String),
}

/// The global `Result` alias of the library.
pub type TcalResult<T> = Result<T, TcalError>;

/// How a text reads through `str`'s `Debug`: quoted, with its special
/// characters escaped.
pub uninterp spec fn debug_text(s: Seq<char>) -> Seq<char>;

/// Render a text through `str`'s `Debug`, as `{:?}` does.
#[verifier::external_body]
fn debug_of(s: &str) -> (r: String)
    ensures
        r@ == debug_text(s@),
{
    format!("{s:?}")
}

/// What an error says to a reader.
pub open spec fn spec_message(e: TcalError) -> Seq<char> {
    match e {
        TcalError::ParseICalendar(message) => "Cannot parse iCalendar: "@ + message@,
        TcalError::ReadCalendar { side, message } => "Cannot read the "@ + side@ + " calendar: "@ + message@,
        TcalError::Undecided(key) => "Property "@ + key@
            + " is left undecided: keep one of its lines and delete the others"@,
        TcalError::ParseToml(_) => "Cannot parse TOML buffer"@,
        TcalError::UnknownComponent(key) => "Unknown component "@ + debug_text(key@)
            + "; expected event, todo, journal, free-busy or timezone"@,
    }
}

impl TcalError {
    /// What the error says to a reader.
    pub fn message(&self) -> (m: String)
        ensures
            m@ == spec_message(*self),
    {
        let mut out: Vec<char> = Vec::new();
        match self {
            TcalError::ParseICalendar(message) => {
                out = chars_of("Cannot parse iCalendar: ");
                push_all(&mut out, &chars_of(message.as_str()));
            },
            TcalError::ReadCalendar { side, message } => {
                out = chars_of("Cannot read the ");
                push_all(&mut out, &chars_of(side));
                push_all(&mut out, &chars_of(" calendar: "));
                push_all(&mut out, &chars_of(message.as_str()));
            },
            TcalError::Undecided(key) => {
                out = chars_of("Property ");
                push_all(&mut out, &chars_of(key.as_str()));
                push_all(&mut out, &chars_of(" is left undecided: keep one of its lines and delete the others"));
            },
            TcalError::ParseToml(_) => {
                out = chars_of("Cannot parse TOML buffer");
            },
            TcalError::UnknownComponent(key) => {
                out = chars_of("Unknown component ");
                push_all(&mut out, &chars_of(debug_of(key.as_str()).as_str()));
                push_all(&mut out, &chars_of("; expected event, todo, journal, free-busy or timezone"));
            },
        }
        string_of(&out)
    }
}

} // verus!
