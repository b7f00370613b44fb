//! The library's error type.

use crate::text::joined;
use vstd::prelude::*;

verus! {

/// What can go wrong while building a title.
#[derive(Debug)]
pub enum Error {
    /// A file or stream operation failed.
    Io { path: String, detail: String },
    /// A value does not fit the on-disc or package format.
    FormatLimit(String),
    /// The input disc or staged tree cannot be packaged.
    UnsupportedDisc(String),
    /// The base title is not what it should be.
    InvalidTitle(String),
    /// A required file is missing.
    MissingFile(String),
    /// A key or certificate is not usable.
    InvalidKey { name: String, reason: String },
    /// Anything else.
    Other(String),
}

/// The value of an [`Error`].
pub enum ErrorView {
    Io { path: Seq<char>, detail: Seq<char> },
    FormatLimit(Seq<char>),
    UnsupportedDisc(Seq<char>),
    InvalidTitle(Seq<char>),
    MissingFile(Seq<char>),
    InvalidKey { name: Seq<char>, reason: Seq<char> },
    Other(Seq<char>),
}

impl View for Error {
    type V = ErrorView;

    open spec fn view(&self) -> ErrorView {
        match *self {
            Error::Io { path, detail } => ErrorView::Io { path: path@, detail: detail@ },
            Error::FormatLimit(m) => ErrorView::FormatLimit(m@),
            Error::UnsupportedDisc(m) => ErrorView::UnsupportedDisc(m@),
            Error::InvalidTitle(m) => ErrorView::InvalidTitle(m@),
            Error::MissingFile(m) => ErrorView::MissingFile(m@),
            Error::InvalidKey { name, reason } => ErrorView::InvalidKey {
                name: name@,
                reason: reason@,
            },
            Error::Other(m) => ErrorView::Other(m@),
        }
    }
}

/// The text an error is shown as.
pub open spec fn error_message(e: ErrorView) -> Seq<char> {
    match e {
        ErrorView::Io { path, detail } => "I/O error at "@ + path + ": "@ + detail,
        ErrorView::FormatLimit(m) => "format limit exceeded: "@ + m,
        ErrorView::UnsupportedDisc(m) => "unsupported disc: "@ + m,
        ErrorView::InvalidTitle(m) => "invalid title: "@ + m,
        ErrorView::MissingFile(m) => "missing file: "@ + m,
        ErrorView::InvalidKey { name, reason } => "invalid key '"@ + name + "': "@ + reason,
        ErrorView::Other(m) => m,
    }
}

impl Error {
    /// The text the error is shown as.
    pub fn message(&self) -> (r: String)
        ensures
            r@ == error_message(self@),
    {
        match self {
            Error::Io { path, detail } => {
                let mut m = joined("I/O error at ", path.as_str());
                m.append(": ");
                m.append(detail.as_str());
                m
            },
            Error::FormatLimit(m) => joined("format limit exceeded: ", m.as_str()),
            Error::UnsupportedDisc(m) => joined("unsupported disc: ", m.as_str()),
            Error::InvalidTitle(m) => joined("invalid title: ", m.as_str()),
            Error::MissingFile(m) => joined("missing file: ", m.as_str()),
            Error::InvalidKey { name, reason } => {
                let mut m = joined("invalid key '", name.as_str());
                m.append("': ");
                m.append(reason.as_str());
                m
            },
            Error::Other(m) => m.clone(),
        }
    }
}

/// An error is shown with what it is about in front of its own words.
pub proof fn errors_say_what_they_are_about(m: Seq<char>, n: Seq<char>)
    ensures
        error_message(ErrorView::Io { path: n, detail: m }) == "I/O error at "@ + n + ": "@ + m,
        error_message(ErrorView::FormatLimit(m)) == "format limit exceeded: "@ + m,
        error_message(ErrorView::UnsupportedDisc(m)) == "unsupported disc: "@ + m,
        error_message(ErrorView::InvalidTitle(m)) == "invalid title: "@ + m,
        error_message(ErrorView::MissingFile(m)) == "missing file: "@ + m,
        error_message(ErrorView::InvalidKey { name: n, reason: m }) == "invalid key '"@ + n + "': "@
            + m,
        error_message(ErrorView::Other(m)) == m,
{
}

} // verus!
