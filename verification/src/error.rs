//! The errors of reading and writing ADIF.
use vstd::prelude::*;
use vstd::string::*;

verus! {

/// What can go wrong while reading or writing ADIF.
#[derive(Debug)]
pub enum Error {
    /// A free-form message, such as a field value that does not convert to
    /// the type asked for.
    Message(String),
    /// The input ended where more was needed.
    Eof,
    /// A tag was opened with "<" but no matching ">" was found. Carries at
    /// most the first 20 characters from the "<" on.
    ExpectedClosingTag(String),
    /// A `<FIELD:LENGTH:TYPE>` tag has no length section. Carries the text
    /// between "<" and ">".
    MalformedTag(String),
    /// A tag's length section is not an unsigned integer. Carries that
    /// section.
    InvalidLength(String),
    /// A kind of value that ADIF has no representation for.
    Unsupported(&'static str),
}

/// The mathematical content of an `Error`: its variant and its text.
pub enum ErrorView {
    Message(Seq<char>),
    Eof,
    ExpectedClosingTag(Seq<char>),
    MalformedTag(Seq<char>),
    InvalidLength(Seq<char>),
    Unsupported(Seq<char>),
}

impl View for Error {
    type V = ErrorView;

    open spec fn view(&self) -> ErrorView {
        match self {
            Error::Message(m) => ErrorView::Message(m@),
            Error::Eof => ErrorView::Eof,
            Error::ExpectedClosingTag(s) => ErrorView::ExpectedClosingTag(s@),
            Error::MalformedTag(s) => ErrorView::MalformedTag(s@),
            Error::InvalidLength(s) => ErrorView::InvalidLength(s@),
            Error::Unsupported(s) => ErrorView::Unsupported(s@),
        }
    }
}

/// The human-readable text of an error.
pub open spec fn message_text(e: ErrorView) -> Seq<char> {
    match e {
        ErrorView::Message(m) => m,
        ErrorView::Eof => "unexpected end of input"@,
        ErrorView::ExpectedClosingTag(s) => "missing closing tag \">\" after \""@ + s + "\""@,
        ErrorView::MalformedTag(s) => "the tag \""@ + s + "\" is missing its key or value length"@,
        ErrorView::InvalidLength(s) => "\""@ + s + "\" is not a valid value length"@,
        ErrorView::Unsupported(s) => "Unsupported type "@ + s,
    }
}

impl Error {
    /// The human-readable text of this error.
    pub fn message(&self) -> (r: String)
        ensures
            r@ == message_text(self@),
    {
        let mut out = String::new();
        match self {
            Error::Message(m) => {
                out.append(m.as_str());
            },
            Error::Eof => {
                out.append("unexpected end of input");
            },
            Error::ExpectedClosingTag(s) => {
                out.append("missing closing tag \">\" after \"");
                out.append(s.as_str());
                out.append("\"");
            },
            Error::MalformedTag(s) => {
                out.append("the tag \"");
                out.append(s.as_str());
                out.append("\" is missing its key or value length");
            },
            Error::InvalidLength(s) => {
                out.append("\"");
                out.append(s.as_str());
                out.append("\" is not a valid value length");
            },
            Error::Unsupported(s) => {
                out.append("Unsupported type ");
                out.append(s);
            },
        }
        out
    }
}

} // verus!
