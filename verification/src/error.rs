//! What can go wrong when records are encoded, decoded or written.

use vstd::prelude::*;

verus! {

/// Which piece of a field the reader was at when it stopped.
#[derive(Debug, Clone, Copy, PartialEq, Eq, Structural)]
pub enum Part {
    /// The field itself.
    Body,
    /// The length prefix of a blob.
    Length,
    /// The flag that says whether an optional field follows.
    Presence,
    /// The bytes of a blob, after their length.
    Blob,
}

/// Why a byte sequence is not a valid encoding.
#[derive(Debug, PartialEq, Eq)]
pub enum Fault {
    /// The input ended inside the field: it needs `need` bytes and `got` are left.
    Truncated { what: &'static str, part: Part, need: usize, got: usize },
    /// The input ended inside the count prefix of an array.
    TruncatedCount,
    /// A boolean byte is neither 0 nor 1.
    InvalidBool { what: &'static str, part: Part, byte: u8 },
    /// No scalar type has this tag.
    InvalidTag { byte: u8 },
    /// No change operation has this byte.
    InvalidOp { byte: u8 },
    /// A decoded text is not UTF-8, and why.
    InvalidUtf8 { what: &'static str, cause: String },
    /// An external id to be stored is not UTF-8, and why.
    XidNotUtf8 { cause: String },
    /// Bytes are left over after a complete record.
    Trailing { what: &'static str, extra: usize },
    /// A fixed-width value has the wrong number of bytes.
    WrongWidth { what: &'static str, got: usize },
    /// A serialized bitmap cannot be read back, and why.
    CorruptBitmap { what: &'static str, cause: String },
}

/// What a [`Fault`] holds.
pub enum FaultView {
    Truncated { what: &'static str, part: Part, need: usize, got: usize },
    TruncatedCount,
    InvalidBool { what: &'static str, part: Part, byte: u8 },
    InvalidTag { byte: u8 },
    InvalidOp { byte: u8 },
    InvalidUtf8 { what: &'static str, cause: Seq<char> },
    XidNotUtf8 { cause: Seq<char> },
    Trailing { what: &'static str, extra: usize },
    WrongWidth { what: &'static str, got: usize },
    CorruptBitmap { what: &'static str, cause: Seq<char> },
}

impl View for Fault {
    type V = FaultView;

    open spec fn view(&self) -> FaultView {
        match *self {
            Fault::Truncated { what, part, need, got } => FaultView::Truncated {
                what,
                part,
                need,
                got,
            },
            Fault::TruncatedCount => FaultView::TruncatedCount,
            Fault::InvalidBool { what, part, byte } => FaultView::InvalidBool { what, part, byte },
            Fault::InvalidTag { byte } => FaultView::InvalidTag { byte },
            Fault::InvalidOp { byte } => FaultView::InvalidOp { byte },
            Fault::InvalidUtf8 { what, cause } => FaultView::InvalidUtf8 { what, cause: cause@ },
            Fault::XidNotUtf8 { cause } => FaultView::XidNotUtf8 { cause: cause@ },
            Fault::Trailing { what, extra } => FaultView::Trailing { what, extra },
            Fault::WrongWidth { what, got } => FaultView::WrongWidth { what, got },
            Fault::CorruptBitmap { what, cause } => FaultView::CorruptBitmap {
                what,
                cause: cause@,
            },
        }
    }
}

impl Clone for Fault {
    fn clone(&self) -> (r: Fault)
        ensures
            r@ == self@,
    {
        match self {
            Fault::Truncated { what, part, need, got } => Fault::Truncated {
                what: *what,
                part: *part,
                need: *need,
                got: *got,
            },
            Fault::TruncatedCount => Fault::TruncatedCount,
            Fault::InvalidBool { what, part, byte } => Fault::InvalidBool {
                what: *what,
                part: *part,
                byte: *byte,
            },
            Fault::InvalidTag { byte } => Fault::InvalidTag { byte: *byte },
            Fault::InvalidOp { byte } => Fault::InvalidOp { byte: *byte },
            Fault::InvalidUtf8 { what, cause } => Fault::InvalidUtf8 {
                what: *what,
                cause: cause.clone(),
            },
            Fault::XidNotUtf8 { cause } => Fault::XidNotUtf8 { cause: cause.clone() },
            Fault::Trailing { what, extra } => Fault::Trailing { what: *what, extra: *extra },
            Fault::WrongWidth { what, got } => Fault::WrongWidth { what: *what, got: *got },
            Fault::CorruptBitmap { what, cause } => Fault::CorruptBitmap {
                what: *what,
                cause: cause.clone(),
            },
        }
    }
}

/// An error of this library.
#[derive(Debug, PartialEq, Eq)]
pub enum Error {
    /// Bytes do not decode.
    Encoding(Fault),
    /// A node's encoding has `size` bytes, over the cap of `cap` bytes.
    OversizeNode { size: usize, cap: usize },
    /// Storage failed; whoever drives the storage holds the cause.
    Storage,
}

/// What an [`Error`] holds.
pub enum ErrorView {
    Encoding(FaultView),
    OversizeNode { size: usize, cap: usize },
    Storage,
}

impl View for Error {
    type V = ErrorView;

    open spec fn view(&self) -> ErrorView {
        match *self {
            Error::Encoding(f) => ErrorView::Encoding(f@),
            Error::OversizeNode { size, cap } => ErrorView::OversizeNode { size, cap },
            Error::Storage => ErrorView::Storage,
        }
    }
}

impl Clone for Error {
    fn clone(&self) -> (r: Error)
        ensures
            r@ == self@,
    {
        match self {
            Error::Encoding(f) => Error::Encoding(f.clone()),
            Error::OversizeNode { size, cap } => Error::OversizeNode { size: *size, cap: *cap },
            Error::Storage => Error::Storage,
        }
    }
}

/// Whether a result is the given error.
pub open spec fn fails<T>(r: Result<T, Error>, e: ErrorView) -> bool {
    r is Err && r->Err_0@ == e
}

/// Whether a result is the given value or error.
pub open spec fn agrees<T>(r: Result<T, Error>, goal: Result<T, ErrorView>) -> bool {
    match goal {
        Ok(v) => r == Ok::<T, Error>(v),
        Err(e) => fails(r, e),
    }
}

/// What a result holds.
pub open spec fn result_view<T>(r: Result<T, Error>) -> Result<T, ErrorView> {
    match r {
        Ok(v) => Ok(v),
        Err(e) => Err(e@),
    }
}

} // verus!
