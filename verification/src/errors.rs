//! What can go wrong while a graph is built.

use vstd::prelude::*;
use vstd::string::*;

verus! {

/// A failure of the library.
#[derive(Debug)]
pub enum Error {
    /// The slicing criterion names nothing in the graph.
    StatementLookupError(String),
    /// The trace declares no clock or no reset below the scope root.
    ClockNotFoundError,
    /// The trace declares no variable at this path.
    VariableNotFoundError(String),
    /// The static graph refers to a vertex or predicate that it does not hold.
    MalformedPDG,
    /// The trace holds a change that cannot be read, or more commands
    /// than cycles can be counted.
    MalformedVCD,
    /// The typed trace holds no signal for a vertex.
    TywavesSignalNotFound,
    /// A variable of the typed trace is of another kind than expected.
    TywavesDowncastFailed,
    /// An argument of the program names no file or directory.
    ArgumentValidationError(String),
}

impl Error {
    /// The text of this error.
    pub open spec fn spec_message(self) -> Seq<char> {
        match self {
            Error::StatementLookupError(s) => "Invalid slicing statement: "@ + s@,
            Error::ClockNotFoundError => "Clock signal not found"@,
            Error::VariableNotFoundError(s) => "Variable \""@ + s@ + "\" not found"@,
            Error::MalformedPDG => "Malformed program dependence graph"@,
            Error::MalformedVCD => "Malformed value change dump"@,
            Error::TywavesSignalNotFound => "Tywaves signal not found"@,
            Error::TywavesDowncastFailed => "Tywaves variable downcast failed"@,
            Error::ArgumentValidationError(s) => "Failed to validate input arguments: "@ + s@,
        }
    }

    /// The text of this error.
    pub fn message(&self) -> (text: String)
        ensures
            text@ == self.spec_message(),
    {
        match self {
            Error::StatementLookupError(s) => "Invalid slicing statement: ".to_owned().concat(
                s.as_str(),
            ),
            Error::ClockNotFoundError => "Clock signal not found".to_owned(),
            Error::VariableNotFoundError(s) => "Variable \"".to_owned().concat(s.as_str()).concat(
                "\" not found",
            ),
            Error::MalformedPDG => "Malformed program dependence graph".to_owned(),
            Error::MalformedVCD => "Malformed value change dump".to_owned(),
            Error::TywavesSignalNotFound => "Tywaves signal not found".to_owned(),
            Error::TywavesDowncastFailed => "Tywaves variable downcast failed".to_owned(),
            Error::ArgumentValidationError(s) => "Failed to validate input arguments: ".to_owned().concat(
                s.as_str(),
            ),
        }
    }
}

/// Turns the failure of an outcome into its text.
pub fn map_err_to_string<T>(outcome: Result<T, Error>) -> (r: Result<T, String>)
    ensures
        match (outcome, r) {
            (Ok(a), Ok(b)) => a == b,
            (Err(e), Err(text)) => text@ == e.spec_message(),
            _ => false,
        },
{
    match outcome {
        Ok(value) => Ok(value),
        Err(e) => Err(e.message()),
    }
}

} // verus!
