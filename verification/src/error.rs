//! What can go wrong with a metafile.

use crate::number::{decimal, render_number, NumberError};
use vstd::prelude::*;
use vstd::string::StringExecFns;

verus! {

/// `std::io::Error`, carried through as it is: nothing is known of what it holds.
#[verifier::external_type_specification]
#[verifier::external_body]
pub struct ExIoError(std::io::Error);

/// An error in reading, writing or understanding a metafile.
#[derive(Debug)]
pub enum MetafileError {
    /// The file system refused an operation.
    Io(std::io::Error),
    /// The text is not in the metafile format; holds the cause.
    Malformed(String),
    /// The header names a version of the format other than the supported one.
    UnsupportedVersion(u32),
}

/// A `MetafileError` as a mathematical value. Of an I/O error nothing is modelled.
pub enum ErrorView {
    Io,
    Malformed(Seq<char>),
    UnsupportedVersion(u32),
}

impl View for MetafileError {
    type V = ErrorView;

    open spec fn view(&self) -> ErrorView {
        match self {
            MetafileError::Io(_) => ErrorView::Io,
            MetafileError::Malformed(cause) => ErrorView::Malformed(cause@),
            MetafileError::UnsupportedVersion(version) => ErrorView::UnsupportedVersion(*version),
        }
    }
}

/// The words for a number that could not be read.
pub open spec fn number_error_text(e: NumberError) -> Seq<char> {
    match e {
        NumberError::Empty => "cannot parse integer from empty string"@,
        NumberError::InvalidDigit => "invalid digit found in string"@,
        NumberError::TooLarge => "number too large to fit in target type"@,
    }
}

/// The text shown for a format error, or for a version that is not supported.
pub open spec fn error_text(e: ErrorView) -> Seq<char>
    recommends
        !(e is Io),
{
    match e {
        ErrorView::Io => Seq::empty(),
        ErrorView::Malformed(cause) => "malformed metafile: "@ + cause,
        ErrorView::UnsupportedVersion(version) => "unsupported metafile version \""@
            + render_number(version as nat, 10) + "\""@,
    }
}

impl NumberError {
    /// The words for this error.
    pub fn message(&self) -> (s: String)
        ensures
            s@ == number_error_text(*self),
    {
        match self {
            NumberError::Empty => "cannot parse integer from empty string".to_owned(),
            NumberError::InvalidDigit => "invalid digit found in string".to_owned(),
            NumberError::TooLarge => "number too large to fit in target type".to_owned(),
        }
    }
}

impl MetafileError {
    /// The format error with the words of a number that could not be read as its cause.
    pub fn from_number_error(e: NumberError) -> (r: MetafileError)
        ensures
            r@ == ErrorView::Malformed(number_error_text(e)),
    {
        MetafileError::Malformed(e.message())
    }

    /// The text to show for this error. For an I/O error it is what the
    /// operating system says.
    pub fn message(&self) -> (s: String)
        ensures
            !(self@ is Io) ==> s@ == error_text(self@),
    {
        match self {
            MetafileError::Io(e) => e.to_string(),
            MetafileError::Malformed(cause) => {
                let mut s = "malformed metafile: ".to_owned();
                s.append(cause.as_str());
                s
            },
            MetafileError::UnsupportedVersion(version) => {
                let mut s = "unsupported metafile version \"".to_owned();
                s.append(decimal(*version).as_str());
                s.append("\"");
                s
            },
        }
    }
}

} // verus!
