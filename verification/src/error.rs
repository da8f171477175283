//! The library's error type and its user-facing messages.

use crate::text::{dec, decimal};
use vstd::prelude::*;
use vstd::string::*;

verus! {

/// What can go wrong while reading, planning or composing.
#[derive(Debug)]
pub enum MimicError {
    /// A file or socket operation failed.
    Io(String),
    /// The graph store failed.
    Store(String),
    /// Audio data, or the wire format that carries it, is malformed.
    Wav(String),
    /// A unit, a plan or a span does not exist.
    NotFound(String),
    /// Two pieces of audio that should be joined differ in sample rate.
    SampleRateMismatch(u32, u32),
}

pub type Result<T> = core::result::Result<T, MimicError>;

/// The value of a [`MimicError`].
pub enum ErrorView {
    Io(Seq<char>),
    Store(Seq<char>),
    Wav(Seq<char>),
    NotFound(Seq<char>),
    SampleRateMismatch(u32, u32),
}

impl View for MimicError {
    type V = ErrorView;

    open spec fn view(&self) -> ErrorView {
        match self {
            MimicError::Io(m) => ErrorView::Io(m@),
            MimicError::Store(m) => ErrorView::Store(m@),
            MimicError::Wav(m) => ErrorView::Wav(m@),
            MimicError::NotFound(m) => ErrorView::NotFound(m@),
            MimicError::SampleRateMismatch(a, b) => ErrorView::SampleRateMismatch(*a, *b),
        }
    }
}

/// The value of a result: that of its content or that of its error.
pub open spec fn outcome<T: View>(r: core::result::Result<T, MimicError>) -> core::result::Result<
    T::V,
    ErrorView,
> {
    match r {
        Ok(v) => Ok(v@),
        Err(e) => Err(e@),
    }
}

/// The sentence shown to a user for an error.
pub open spec fn error_message(e: ErrorView) -> Seq<char> {
    match e {
        ErrorView::Io(m) => "io error: "@ + m + "; check the path and retry"@,
        ErrorView::Store(m) => "padagonia store error: "@ + m + "; validate the store and retry"@,
        ErrorView::Wav(m) => "wav error: "@ + m + "; provide 16 kHz mono PCM and retry"@,
        ErrorView::NotFound(m) => "not found: "@ + m + "; create a new plan and retry"@,
        ErrorView::SampleRateMismatch(a, b) => "sample rate mismatch: "@ + dec(a as nat) + " Hz vs "@
            + dec(b as nat) + " Hz; resample to 16 kHz and retry"@,
    }
}

impl MimicError {
    /// The sentence shown to a user: what failed, and what to do next.
    pub fn message(&self) -> (r: String)
        ensures
            r@ == error_message(self@),
    {
        let mut out = String::new();
        match self {
            MimicError::Io(m) => {
                out.append("io error: ");
                out.append(m.as_str());
                out.append("; check the path and retry");
            },
            MimicError::Store(m) => {
                out.append("padagonia store error: ");
                out.append(m.as_str());
                out.append("; validate the store and retry");
            },
            MimicError::Wav(m) => {
                out.append("wav error: ");
                out.append(m.as_str());
                out.append("; provide 16 kHz mono PCM and retry");
            },
            MimicError::NotFound(m) => {
                out.append("not found: ");
                out.append(m.as_str());
                out.append("; create a new plan and retry");
            },
            MimicError::SampleRateMismatch(a, b) => {
                out.append("sample rate mismatch: ");
                out.append(decimal(*a as u64).as_str());
                out.append(" Hz vs ");
                out.append(decimal(*b as u64).as_str());
                out.append(" Hz; resample to 16 kHz and retry");
            },
        }
        assert(out@ =~= error_message(self@));
        out
    }
}

} // verus!
