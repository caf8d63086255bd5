//! The library's error type.

use vstd::prelude::*;

verus! {

/// What kind of failure an [`Error`] reports.
#[derive(Debug, Clone, Copy, PartialEq, Eq, Structural)]
pub enum ErrorKind {
    InvalidFormat,
    UnsupportedFormat,
    Corruption,
    InvalidOptions,
    ReadOnly,
}

/// Errors reported by the library.
#[derive(Debug, Clone, PartialEq, Eq)]
pub enum Error {
    /// Bytes that do not follow the expected format.
    InvalidFormat { message: String },
    /// A format version or tag this build does not support.
    UnsupportedFormat { message: String },
    /// Stored data that contradicts itself.
    Corruption { message: String },
    /// Options or arguments that cannot be used.
    InvalidOptions { message: String },
    /// A write to a database opened read-only.
    ReadOnly,
}

pub type Result<T> = core::result::Result<T, Error>;

impl Error {
    pub open spec fn kind(self) -> ErrorKind {
        match self {
            Error::InvalidFormat { .. } => ErrorKind::InvalidFormat,
            Error::UnsupportedFormat { .. } => ErrorKind::UnsupportedFormat,
            Error::Corruption { .. } => ErrorKind::Corruption,
            Error::InvalidOptions { .. } => ErrorKind::InvalidOptions,
            Error::ReadOnly => ErrorKind::ReadOnly,
        }
    }

    pub open spec fn message_view(self) -> Seq<char> {
        match self {
            Error::InvalidFormat { message } => message@,
            Error::UnsupportedFormat { message } => message@,
            Error::Corruption { message } => message@,
            Error::InvalidOptions { message } => message@,
            Error::ReadOnly => "database is read-only"@,
        }
    }

    pub fn invalid_options(message: &str) -> (r: Error)
        ensures
            r.kind() == ErrorKind::InvalidOptions,
            r.message_view() == message@,
    {
        Error::InvalidOptions { message: message.to_owned() }
    }

    pub fn corruption(message: &str) -> (r: Error)
        ensures
            r.kind() == ErrorKind::Corruption,
            r.message_view() == message@,
    {
        Error::Corruption { message: message.to_owned() }
    }

    pub fn invalid_format(message: &str) -> (r: Error)
        ensures
            r.kind() == ErrorKind::InvalidFormat,
            r.message_view() == message@,
    {
        Error::InvalidFormat { message: message.to_owned() }
    }

    pub fn unsupported_format(message: &str) -> (r: Error)
        ensures
            r.kind() == ErrorKind::UnsupportedFormat,
            r.message_view() == message@,
    {
        Error::UnsupportedFormat { message: message.to_owned() }
    }

    /// The text that describes the error: its kind, a colon and its message.
    pub fn describe(&self) -> (r: String)
        ensures
            r@ == error_prefix(self.kind())@ + self.message_view(),
    {
        let (mut text, message) = match self {
            Error::InvalidFormat { message } => (String::from_str(error_prefix_text(ErrorKind::InvalidFormat)), message),
            Error::UnsupportedFormat { message } => (String::from_str(error_prefix_text(ErrorKind::UnsupportedFormat)), message),
            Error::Corruption { message } => (String::from_str(error_prefix_text(ErrorKind::Corruption)), message),
            Error::InvalidOptions { message } => (String::from_str(error_prefix_text(ErrorKind::InvalidOptions)), message),
            Error::ReadOnly => {
                let mut text = String::from_str(error_prefix_text(ErrorKind::ReadOnly));
                text.append("database is read-only");
                return text;
            },
        };
        text.append(message.as_str());
        text
    }
}

pub open spec fn error_prefix(kind: ErrorKind) -> &'static str {
    match kind {
        ErrorKind::InvalidFormat => "invalid format: ",
        ErrorKind::UnsupportedFormat => "unsupported format: ",
        ErrorKind::Corruption => "corruption: ",
        ErrorKind::InvalidOptions => "invalid options: ",
        ErrorKind::ReadOnly => "",
    }
}

fn error_prefix_text(kind: ErrorKind) -> (r: &'static str)
    ensures
        r == error_prefix(kind),
{
    match kind {
        ErrorKind::InvalidFormat => "invalid format: ",
        ErrorKind::UnsupportedFormat => "unsupported format: ",
        ErrorKind::Corruption => "corruption: ",
        ErrorKind::InvalidOptions => "invalid options: ",
        ErrorKind::ReadOnly => "",
    }
}

} // verus!
