//! One error type for the whole crate.
use vstd::prelude::*;

use crate::text::{push_dec, quoted};

verus! {

/// What went wrong, with enough context to point at the offending offset or
/// field.
#[derive(Debug, Clone, PartialEq, Eq)]
pub enum Error {
    /// A model artifact does not follow its format.
    Format(String),
    /// The pipeline was asked for something the format cannot express.
    Unsupported(String),
    /// Caller-supplied ink or parameters are inconsistent.
    Invalid(String),
    /// No model pack covers the requested BCP-47 tag.
    NoSuchLanguage(String),
}

/// An [`Error`] by its text.
#[verifier::ext_equal]
pub enum ErrorView {
    Format(Seq<char>),
    Unsupported(Seq<char>),
    Invalid(Seq<char>),
    NoSuchLanguage(Seq<char>),
}

impl View for Error {
    type V = ErrorView;

    open spec fn view(&self) -> ErrorView {
        match self {
            Error::Format(m) => ErrorView::Format(m@),
            Error::Unsupported(m) => ErrorView::Unsupported(m@),
            Error::Invalid(m) => ErrorView::Invalid(m@),
            Error::NoSuchLanguage(m) => ErrorView::NoSuchLanguage(m@),
        }
    }
}

impl Error {
    /// The error as one line for a reader.
    pub fn message(&self) -> (r: String)
        ensures
            r@ == match self@ {
                ErrorView::Format(m) => "malformed model artifact: "@ + m,
                ErrorView::Unsupported(m) => "unsupported: "@ + m,
                ErrorView::Invalid(m) => "invalid input: "@ + m,
                ErrorView::NoSuchLanguage(t) => "no Digital Ink model for language tag "@
                    + crate::text::quoted_text(t),
            },
    {
        match self {
            Error::Format(m) => String::from_str("malformed model artifact: ").concat(m.as_str()),
            Error::Unsupported(m) => String::from_str("unsupported: ").concat(m.as_str()),
            Error::Invalid(m) => String::from_str("invalid input: ").concat(m.as_str()),
            Error::NoSuchLanguage(t) => String::from_str(
                "no Digital Ink model for language tag ",
            ).concat(quoted(t.as_str()).as_str()),
        }
    }
}

/// The first of two problems.
pub open spec fn first_of(a: Option<ErrorView>, b: Option<ErrorView>) -> Option<ErrorView> {
    if a is Some {
        a
    } else {
        b
    }
}

/// A `Format` error with this text.
pub fn format_error(text: &str) -> (r: Error)
    ensures
        r@ == ErrorView::Format(text@),
{
    Error::Format(String::from_str(text))
}

/// An `Unsupported` error with this text.
pub fn unsupported(text: &str) -> (r: Error)
    ensures
        r@ == ErrorView::Unsupported(text@),
{
    Error::Unsupported(String::from_str(text))
}

/// An `Invalid` error with this text.
pub fn invalid(text: &str) -> (r: Error)
    ensures
        r@ == ErrorView::Invalid(text@),
{
    Error::Invalid(String::from_str(text))
}

/// A text with one number in it.
pub fn text_with(before: &str, n: u64, after: &str) -> (r: String)
    ensures
        r@ == before@ + crate::text::dec(n as nat) + after@,
{
    let mut s: String = String::from_str(before);
    push_dec(&mut s, n);
    s.append(after);
    s
}

/// A text with two numbers in it.
pub fn text_with2(before: &str, n: u64, between: &str, m: u64, after: &str) -> (r: String)
    ensures
        r@ == before@ + crate::text::dec(n as nat) + between@ + crate::text::dec(m as nat)
            + after@,
{
    let mut s: String = text_with(before, n, between);
    push_dec(&mut s, m);
    s.append(after);
    s
}

} // verus!
