//! Errors of the library.

use vstd::prelude::*;

verus! {

/// Class of an I/O failure.
#[derive(Clone, Copy, Debug, PartialEq, Eq, Structural)]
pub enum IoKind {
    /// Fewer bytes were available than asked for.
    UnexpectedEof,
    /// An argument was out of its domain.
    InvalidInput,
    /// The bytes read do not form what was expected.
    InvalidData,
    /// Any other failure of the platform.
    Other,
}

/// A failed read, write or seek.
#[derive(Debug)]
pub struct IoError {
    pub kind: IoKind,
    pub message: String,
}

/// What went wrong, with a message for the user.
#[derive(Debug)]
pub enum Error {
    /// The input is not a well-formed MP4 or MUXL wrapper.
    InvalidMp4(String),
    /// The platform failed to read or write.
    Io(IoError),
}

/// Contents of an [`Error`].
pub enum ErrorView {
    InvalidMp4(Seq<char>),
    Io(IoKind, Seq<char>),
}

impl View for IoError {
    type V = (IoKind, Seq<char>);

    open spec fn view(&self) -> (IoKind, Seq<char>) {
        (self.kind, self.message@)
    }
}

impl View for Error {
    type V = ErrorView;

    open spec fn view(&self) -> ErrorView {
        match self {
            Error::InvalidMp4(m) => ErrorView::InvalidMp4(m@),
            Error::Io(e) => ErrorView::Io(e.kind, e.message@),
        }
    }
}

/// An [`Error::InvalidMp4`] with the given message.
pub fn invalid_mp4(message: &str) -> (e: Error)
    ensures
        e@ == ErrorView::InvalidMp4(message@),
{
    Error::InvalidMp4(message.to_string())
}

impl Error {
    /// The text shown to the user.
    pub fn message(&self) -> (m: String)
        ensures
            m@ == match self@ {
                ErrorView::InvalidMp4(s) => s,
                ErrorView::Io(_, s) => s,
            },
    {
        match self {
            Error::InvalidMp4(m) => m.clone(),
            Error::Io(e) => e.message.clone(),
        }
    }
}

} // verus!
