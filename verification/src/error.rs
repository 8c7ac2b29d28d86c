use vstd::prelude::*;

verus! {

/// Spec-level image of a [`TextFsmError`]: the same five kinds, each with
/// the character sequence of its message.
pub enum ErrorV {
    IoError(Seq<char>),
    CsvError(Seq<char>),
    ParseError(Seq<char>),
    StateError(Seq<char>),
    InternalError(Seq<char>),
}

/// The failures that template compilation, parsing and index loading surface.
#[derive(Debug, Clone)]
pub enum TextFsmError {
    /// Reading an input failed; raised by callers that do the reading.
    IoError(String),
    /// An index file could not be decoded as CSV.
    CsvError(String),
    /// A template, a variable string or a rule regex could not be parsed.
    ParseError(String),
    /// An undeclared state was entered, an `Error` transition fired, or a
    /// state was defined twice.
    StateError(String),
    /// An invariant that callers cannot influence was violated.
    InternalError(String),
}

impl View for TextFsmError {
    type V = ErrorV;

    open spec fn view(&self) -> ErrorV {
        match self {
            TextFsmError::IoError(m) => ErrorV::IoError(m@),
            TextFsmError::CsvError(m) => ErrorV::CsvError(m@),
            TextFsmError::ParseError(m) => ErrorV::ParseError(m@),
            TextFsmError::StateError(m) => ErrorV::StateError(m@),
            TextFsmError::InternalError(m) => ErrorV::InternalError(m@),
        }
    }
}

/// The message text of an error, prefixed with its kind.
pub open spec fn error_text(e: ErrorV) -> Seq<char> {
    match e {
        ErrorV::IoError(m) => "I/O error: "@ + m,
        ErrorV::CsvError(m) => "CSV error: "@ + m,
        ErrorV::ParseError(m) => "Parse error: "@ + m,
        ErrorV::StateError(m) => "State error: "@ + m,
        ErrorV::InternalError(m) => "Internal error: "@ + m,
    }
}

impl TextFsmError {
    /// A readable description of the error: the kind, then the message.
    pub fn message(&self) -> (r: String)
        ensures
            r@ == error_text(self@),
    {
        let mut out: String = String::new();
        match self {
            TextFsmError::IoError(m) => {
                out.append("I/O error: ");
                out.append(m.as_str());
            },
            TextFsmError::CsvError(m) => {
                out.append("CSV error: ");
                out.append(m.as_str());
            },
            TextFsmError::ParseError(m) => {
                out.append("Parse error: ");
                out.append(m.as_str());
            },
            TextFsmError::StateError(m) => {
                out.append("State error: ");
                out.append(m.as_str());
            },
            TextFsmError::InternalError(m) => {
                out.append("Internal error: ");
                out.append(m.as_str());
            },
        }
        out
    }
}

} // verus!
