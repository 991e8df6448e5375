//! What can be wrong with a datagram or an event payload.

use vstd::prelude::*;

use crate::text;
use crate::text::{push_decimal, push_text};

verus! {

/// Errors produced while framing or parsing datagrams.
#[derive(Debug, Clone, PartialEq, Eq)]
pub enum Error {
    /// Buffer ended before a field could be read.
    Truncated { wanted: usize, at: usize, len: usize },
    /// Leading byte was not a known envelope kind.
    UnknownKind(u8),
    /// A variable-length field claimed a size that cannot fit.
    ImplausibleLength { field: &'static str, value: u64, at: usize },
    /// A `u32` discriminant with no known meaning.
    UnknownDiscriminant { what: &'static str, value: u32 },
    /// An `Option` tag other than 0 or 1.
    BadOptionTag { at: usize, value: u8 },
    /// Text field was not valid UTF-8.
    InvalidUtf8 { at: usize },
}

/// An [`Error`] in words.
pub open spec fn error_text(e: Error) -> Seq<char> {
    match e {
        Error::Truncated { wanted, at, len } => "truncated: wanted "@ + text::decimal(
            wanted as nat,
        ) + " bytes at "@ + text::decimal(at as nat) + ", datagram is "@ + text::decimal(
            len as nat,
        ),
        Error::UnknownKind(k) => "unknown envelope kind "@ + text::decimal(k as nat),
        Error::ImplausibleLength { field, value, at } => "implausible length "@ + text::decimal(
            value as nat,
        ) + " for "@ + field@ + " at "@ + text::decimal(at as nat),
        Error::UnknownDiscriminant { what, value } => "unknown "@ + what@ + " discriminant "@
            + text::decimal(value as nat),
        Error::BadOptionTag { at, value } => "bad option tag "@ + text::decimal(value as nat)
            + " at "@ + text::decimal(at as nat),
        Error::InvalidUtf8 { at } => "invalid UTF-8 at "@ + text::decimal(at as nat),
    }
}

impl Error {
    /// The error in words.
    pub fn text(&self) -> (s: String)
        ensures
            s@ == error_text(*self),
    {
        let mut s = String::new();
        match self {
            Error::Truncated { wanted, at, len } => {
                push_text(&mut s, "truncated: wanted ");
                push_decimal(&mut s, *wanted as u64);
                push_text(&mut s, " bytes at ");
                push_decimal(&mut s, *at as u64);
                push_text(&mut s, ", datagram is ");
                push_decimal(&mut s, *len as u64);
            },
            Error::UnknownKind(k) => {
                push_text(&mut s, "unknown envelope kind ");
                push_decimal(&mut s, *k as u64);
            },
            Error::ImplausibleLength { field, value, at } => {
                push_text(&mut s, "implausible length ");
                push_decimal(&mut s, *value);
                push_text(&mut s, " for ");
                push_text(&mut s, field);
                push_text(&mut s, " at ");
                push_decimal(&mut s, *at as u64);
            },
            Error::UnknownDiscriminant { what, value } => {
                push_text(&mut s, "unknown ");
                push_text(&mut s, what);
                push_text(&mut s, " discriminant ");
                push_decimal(&mut s, *value as u64);
            },
            Error::BadOptionTag { at, value } => {
                push_text(&mut s, "bad option tag ");
                push_decimal(&mut s, *value as u64);
                push_text(&mut s, " at ");
                push_decimal(&mut s, *at as u64);
            },
            Error::InvalidUtf8 { at } => {
                push_text(&mut s, "invalid UTF-8 at ");
                push_decimal(&mut s, *at as u64);
            },
        }
        assert(s@ =~= error_text(*self));
        s
    }
}

} // verus!
