//! The closed set of ways a parse call can fail.

use vstd::prelude::*;
use vstd::string::StringExecFns;

verus! {

/// Why a token sequence was rejected.
///
/// `Unexpected` carries a token that matched no registered long name,
/// short alias or open positional slot, or an option token that arrived
/// while another option was still awaiting its value. `Duplicate` carries
/// the token whose argument name was about to enter the result mapping a
/// second time. `Missing` reports that the sequence ended while an option
/// still awaited its value, or that a positional parameter was never
/// supplied.
#[derive(Debug)]
pub enum InvalidCommandReasons {
    Unexpected(String),
    Missing,
    Duplicate(String),
}

/// Ghost counterpart of a failure reason, over character sequences.
pub enum ReasonModel {
    Unexpected(Seq<char>),
    Missing,
    Duplicate(Seq<char>),
}

impl View for InvalidCommandReasons {
    type V = ReasonModel;

    open spec fn view(&self) -> ReasonModel {
        match self {
            InvalidCommandReasons::Unexpected(s) => ReasonModel::Unexpected(s@),
            InvalidCommandReasons::Missing => ReasonModel::Missing,
            InvalidCommandReasons::Duplicate(s) => ReasonModel::Duplicate(s@),
        }
    }
}

/// The error a failed parse call returns; it wraps one failure reason.
#[derive(Debug)]
pub struct InvalidCommandError {
    pub reason: InvalidCommandReasons,
}

impl View for InvalidCommandError {
    type V = ReasonModel;

    open spec fn view(&self) -> ReasonModel {
        self.reason@
    }
}

/// The diagnostic line rendered for a failure reason.
pub open spec fn spec_message(r: ReasonModel) -> Seq<char> {
    match r {
        ReasonModel::Unexpected(s) => "Invalid command, unexpected token '"@ + s + "'"@,
        ReasonModel::Missing => "Invalid command, missing argument"@,
        ReasonModel::Duplicate(s) => "Invalid command, duplicate token '"@ + s + "'"@,
    }
}

impl InvalidCommandError {
    /// Wraps a failure reason.
    pub fn new(reason: InvalidCommandReasons) -> (r: InvalidCommandError)
        ensures
            r.reason == reason,
    {
        InvalidCommandError { reason }
    }

    /// Renders the human-readable diagnostic, naming the offending token
    /// where there is one.
    pub fn message(&self) -> (r: String)
        ensures
            r@ == spec_message(self@),
    {
        match &self.reason {
            InvalidCommandReasons::Unexpected(s) => {
                String::from_str("Invalid command, unexpected token '").concat(s.as_str()).concat("'")
            },
            InvalidCommandReasons::Missing => String::from_str("Invalid command, missing argument"),
            InvalidCommandReasons::Duplicate(s) => {
                String::from_str("Invalid command, duplicate token '").concat(s.as_str()).concat("'")
            },
        }
    }
}

} // verus!
