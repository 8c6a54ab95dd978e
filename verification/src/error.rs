//! The error type of the library.

use crate::text;
use crate::text::{push_decimal, push_text};
use vstd::prelude::*;
use vstd::string::*;

verus! {

/// Why an operation was refused.
#[derive(Clone, Debug, PartialEq, Eq)]
pub enum AkitaError {
    /// An argument is malformed.
    InvalidInput(String),
    /// A setup, schedule or policy is malformed.
    InvalidSetup(String),
    /// A length differs from the one that was called for.
    InvalidSize { expected: usize, actual: usize },
    /// No schedule covers the request.
    UnsupportedSchedule(String),
    /// A proof was rejected.
    InvalidProof,
}

/// What an error says.
pub enum ErrorModel {
    InvalidInput(Seq<char>),
    InvalidSetup(Seq<char>),
    InvalidSize { expected: usize, actual: usize },
    UnsupportedSchedule(Seq<char>),
    InvalidProof,
}

/// Whether a question that may have no answer is answered: by its value, or by
/// the refusal of a question that has none.
pub open spec fn answers<T>(
    r: Result<T, AkitaError>,
    value: Option<T>,
    refusal: Option<ErrorModel>,
) -> bool {
    match r {
        Ok(v) => value == Some(v),
        Err(e) => value is None && refusal == Some(e@),
    }
}

/// Whether a check is settled: it passes, or it is refused as it should be.
pub open spec fn settles(
    r: Result<(), AkitaError>,
    allowed: bool,
    refusal: Option<ErrorModel>,
) -> bool {
    match r {
        Ok(()) => allowed,
        Err(e) => !allowed && refusal == Some(e@),
    }
}

/// The refusal of a malformed setup.
pub open spec fn setup_refusal(text: Seq<char>) -> Option<ErrorModel> {
    Some(ErrorModel::InvalidSetup(text))
}

/// A string between quotes, with what needs it escaped.
pub uninterp spec fn quoted_text(text: Seq<char>) -> Seq<char>;

/// The `Debug` form of a string: `{:?}` of std's `str`. Which characters it
/// escapes rests on std's tables and is named, not stated.
#[verifier::external_body]
fn quoted(text: &str) -> (r: String)
    ensures
        r@ == quoted_text(text@),
{
    format!("{:?}", text)
}

/// An error, written out with its variant.
pub open spec fn error_text(e: ErrorModel) -> Seq<char> {
    match e {
        ErrorModel::InvalidInput(m) => "InvalidInput("@ + quoted_text(m) + ")"@,
        ErrorModel::InvalidSetup(m) => "InvalidSetup("@ + quoted_text(m) + ")"@,
        ErrorModel::InvalidSize { expected, actual } => "InvalidSize { expected: "@
            + text::decimal(expected as nat) + ", actual: "@ + text::decimal(actual as nat) + " }"@,
        ErrorModel::UnsupportedSchedule(m) => "UnsupportedSchedule("@ + quoted_text(m) + ")"@,
        ErrorModel::InvalidProof => "InvalidProof"@,
    }
}

/// An owned copy of a message.
pub fn message(text: &str) -> (s: String)
    ensures
        s@ == text@,
{
    String::from_str(text)
}

impl AkitaError {
    /// What the error says.
    pub open spec fn view(self) -> ErrorModel {
        match self {
            AkitaError::InvalidInput(m) => ErrorModel::InvalidInput(m@),
            AkitaError::InvalidSetup(m) => ErrorModel::InvalidSetup(m@),
            AkitaError::InvalidSize { expected, actual } => ErrorModel::InvalidSize {
                expected,
                actual,
            },
            AkitaError::UnsupportedSchedule(m) => ErrorModel::UnsupportedSchedule(m@),
            AkitaError::InvalidProof => ErrorModel::InvalidProof,
        }
    }

    /// The error, written out with its variant.
    pub fn describe(&self) -> (r: String)
        ensures
            r@ == error_text(self@),
    {
        match self {
            AkitaError::InvalidInput(text) => Self::described("InvalidInput(", text.as_str()),
            AkitaError::InvalidSetup(text) => Self::described("InvalidSetup(", text.as_str()),
            AkitaError::UnsupportedSchedule(text) => Self::described(
                "UnsupportedSchedule(",
                text.as_str(),
            ),
            AkitaError::InvalidSize { expected, actual } => {
                let mut out = message("InvalidSize { expected: ");
                push_decimal(&mut out, *expected as u128);
                push_text(&mut out, message(", actual: "));
                push_decimal(&mut out, *actual as u128);
                push_text(&mut out, message(" }"));
                out
            },
            AkitaError::InvalidProof => message("InvalidProof"),
        }
    }

    fn described(head: &str, text: &str) -> (r: String)
        ensures
            r@ == head@ + quoted_text(text@) + ")"@,
    {
        let mut out = message(head);
        push_text(&mut out, quoted(text));
        push_text(&mut out, message(")"));
        out
    }

    /// Whether this is an invalid-input error with the given message.
    pub open spec fn is_input(self, text: Seq<char>) -> bool {
        self matches AkitaError::InvalidInput(m) && m@ == text
    }

    /// Whether this is an invalid-setup error with the given message.
    pub open spec fn is_setup(self, text: Seq<char>) -> bool {
        self matches AkitaError::InvalidSetup(m) && m@ == text
    }

    /// Whether this is an unsupported-schedule error with the given message.
    pub open spec fn is_unsupported(self, text: Seq<char>) -> bool {
        self matches AkitaError::UnsupportedSchedule(m) && m@ == text
    }

    /// Whether two errors are of one kind and say the same.
    pub open spec fn alike(self, other: AkitaError) -> bool {
        match (self, other) {
            (AkitaError::InvalidInput(a), AkitaError::InvalidInput(b)) => a@ == b@,
            (AkitaError::InvalidSetup(a), AkitaError::InvalidSetup(b)) => a@ == b@,
            (AkitaError::UnsupportedSchedule(a), AkitaError::UnsupportedSchedule(b)) => a@ == b@,
            (AkitaError::InvalidSize { .. }, AkitaError::InvalidSize { .. }) => self == other,
            (AkitaError::InvalidProof, AkitaError::InvalidProof) => true,
            _ => false,
        }
    }

    /// An error that says the same.
    pub fn repeat(&self) -> (e: AkitaError)
        ensures
            e.alike(*self),
    {
        match self {
            AkitaError::InvalidInput(text) => AkitaError::InvalidInput(message(text.as_str())),
            AkitaError::InvalidSetup(text) => AkitaError::InvalidSetup(message(text.as_str())),
            AkitaError::UnsupportedSchedule(text) => AkitaError::UnsupportedSchedule(
                message(text.as_str()),
            ),
            AkitaError::InvalidSize { expected, actual } => AkitaError::InvalidSize {
                expected: *expected,
                actual: *actual,
            },
            AkitaError::InvalidProof => AkitaError::InvalidProof,
        }
    }

    /// An invalid-input error.
    pub fn input(text: &str) -> (e: AkitaError)
        ensures
            e.is_input(text@),
    {
        AkitaError::InvalidInput(message(text))
    }

    /// An invalid-setup error.
    pub fn setup(text: &str) -> (e: AkitaError)
        ensures
            e.is_setup(text@),
    {
        AkitaError::InvalidSetup(message(text))
    }

    /// An unsupported-schedule error.
    pub fn unsupported(text: &str) -> (e: AkitaError)
        ensures
            e.is_unsupported(text@),
    {
        AkitaError::UnsupportedSchedule(message(text))
    }
}

} // verus!
