//! The crate-wide error type and its coarse categories.

use vstd::prelude::*;
use vstd::string::*;
use crate::text::{decimal, decimal_string};

verus! {

#[verifier::external_type_specification]
#[verifier::external_body]
pub struct ExIoError(std::io::Error);

/// Coarse-grained category for an [`AsterError`], used where callers need to
/// branch on the error without matching the full enum.
#[derive(Debug, Clone, Copy, PartialEq, Eq, Structural)]
pub enum ErrorKind {
    Io,
    Config,
    TraceParse,
    InvalidTrace,
    InvalidPolicyConfig,
}

/// Crate-wide error type covering config loading, trace parsing, and
/// replacement policy setup.
#[derive(Debug)]
pub enum AsterError {
    Io(std::io::Error),
    Config(String),
    TraceParse { instr: usize, msg: String },
    InvalidTrace { fmt: String },
    InvalidPolicyConfig(String),
}

/// Result alias used throughout the crate; the error type is always [`AsterError`].
pub type Result<T> = core::result::Result<T, AsterError>;

/// The category of `e`.
pub open spec fn kind_of(e: AsterError) -> ErrorKind {
    match e {
        AsterError::Io(_) => ErrorKind::Io,
        AsterError::Config(_) => ErrorKind::Config,
        AsterError::TraceParse { .. } => ErrorKind::TraceParse,
        AsterError::InvalidTrace { .. } => ErrorKind::InvalidTrace,
        AsterError::InvalidPolicyConfig(_) => ErrorKind::InvalidPolicyConfig,
    }
}

/// `e` is of category `kind` and carries the text `text` (its message, its
/// format name, or its parse message).
pub open spec fn error_is(e: AsterError, kind: ErrorKind, text: Seq<char>) -> bool {
    kind_of(e) == kind && match e {
        AsterError::Io(_) => false,
        AsterError::Config(m) => m@ == text,
        AsterError::TraceParse { msg, .. } => msg@ == text,
        AsterError::InvalidTrace { fmt } => fmt@ == text,
        AsterError::InvalidPolicyConfig(m) => m@ == text,
    }
}

/// The text that describes every error but an I/O one.
pub open spec fn message_of(e: AsterError) -> Seq<char> {
    match e {
        AsterError::Io(_) => "Failed to read or write data: "@,
        AsterError::Config(m) => "Invalid config: "@ + m@,
        AsterError::TraceParse { instr, msg } => "Trace parse error at instruction "@ + decimal(
            instr as nat,
        ) + ": "@ + msg@,
        AsterError::InvalidTrace { fmt } => "Unrecognized trace format "@ + fmt@,
        AsterError::InvalidPolicyConfig(m) => "Invalid replacement policy config: "@ + m@,
    }
}

/// The text of an I/O error as the standard library displays it.
///
/// Calls `<std::io::Error as Display>::fmt`; nothing is claimed of the text,
/// which can come from the operating system.
#[verifier::external_body]
fn io_error_text(e: &std::io::Error) -> String {
    format!("{}", e)
}

/// The text payload an I/O error was built with by `std::io::Error::new`
/// (the error that `std::io::Error::get_ref` hands back).
pub uninterp spec fn io_error_payload(e: std::io::Error) -> Seq<char>;

/// An I/O error of kind `Other` whose payload is `text`, by
/// `std::io::Error::new`.
///
/// Claims only what the standard library documents of `Error::new`: the
/// error carries `text` as its payload (`get_ref` returns it). How the error
/// is displayed is not claimed.
#[verifier::external_body]
pub(crate) fn io_error_from_text(text: String) -> (r: std::io::Error)
    ensures
        io_error_payload(r) == text@,
{
    std::io::Error::new(std::io::ErrorKind::Other, text)
}

impl AsterError {
    /// Returns the [`ErrorKind`] category for this error.
    pub fn kind(&self) -> (k: ErrorKind)
        ensures
            k == kind_of(*self),
    {
        match self {
            AsterError::Io(_) => ErrorKind::Io,
            AsterError::Config(_) => ErrorKind::Config,
            AsterError::TraceParse { .. } => ErrorKind::TraceParse,
            AsterError::InvalidTrace { .. } => ErrorKind::InvalidTrace,
            AsterError::InvalidPolicyConfig(_) => ErrorKind::InvalidPolicyConfig,
        }
    }

    /// The human-readable description of this error; for an I/O error it is
    /// the fixed prefix followed by the standard library's text of the error.
    pub fn message(&self) -> (s: String)
        ensures
            !(*self is Io) ==> s@ == message_of(*self),
            *self is Io ==> s@.len() >= message_of(*self).len() && s@.subrange(
                0,
                message_of(*self).len() as int,
            ) == message_of(*self),
    {
        match self {
            AsterError::Io(e) => {
                let mut s = String::from_str("Failed to read or write data: ");
                let text = io_error_text(e);
                let ghost head = s@;
                s.append(text.as_str());
                proof {
                    assert(s@.subrange(0, head.len() as int) =~= head);
                }
                s
            },
            AsterError::Config(m) => {
                let mut s = String::from_str("Invalid config: ");
                s.append(m.as_str());
                s
            },
            AsterError::TraceParse { instr, msg } => {
                let mut s = String::from_str("Trace parse error at instruction ");
                let n = decimal_string(*instr);
                s.append(n.as_str());
                s.append(": ");
                s.append(msg.as_str());
                s
            },
            AsterError::InvalidTrace { fmt } => {
                let mut s = String::from_str("Unrecognized trace format ");
                s.append(fmt.as_str());
                s
            },
            AsterError::InvalidPolicyConfig(m) => {
                let mut s = String::from_str("Invalid replacement policy config: ");
                s.append(m.as_str());
                s
            },
        }
    }
}

impl From<std::io::Error> for AsterError {
    fn from(e: std::io::Error) -> (r: Self) {
        AsterError::Io(e)
    }
}

impl vstd::std_specs::convert::FromSpecImpl<std::io::Error> for AsterError {
    open spec fn obeys_from_spec() -> bool {
        true
    }

    open spec fn from_spec(e: std::io::Error) -> Self {
        AsterError::Io(e)
    }
}

} // verus!
