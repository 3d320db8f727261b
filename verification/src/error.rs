//! The error type of the crate.

use vstd::prelude::*;
use vstd::string::*;
use crate::text::{decimal_digits, push_decimal};

verus! {

/// What can go wrong while reading, merging or writing STEP data.
///
/// The variants that stand for a failure of the operating system carry its
/// message as text.
#[derive(Debug, PartialEq, Eq)]
pub enum Error {
    /// The assembly description could not be decoded.
    LoadAssembly(String),
    /// A node lists a child that is no node: the child index and the label of
    /// the node.
    InvalidFormat(usize, String),
    /// The output could not be written.
    StepFileWrite(String),
    /// The input ended before a `DATA` section began.
    NoDataSection(),
    /// An identifier stands where none is allowed.
    UnexpectedIdentifier(String),
    /// The input holds text that is no token.
    ParsingTokenError(),
    /// A token other than the expected one: what was expected and what was
    /// found.
    UnexpectedToken(String, String),
    /// A number that does not fit into 64 bits.
    InvalidNumber(String),
    /// A line could not be read.
    ReadLineError(String),
    /// The input ended inside an element.
    EndOfInput(),
    /// A file could not be opened: the reason and the path.
    FailedOpenFile(String, String),
    /// The input could not be read.
    IO(String),
    /// The input is not UTF-8.
    UTF8(String),
    /// A part file without an `APPLICATION_CONTEXT` entry: the name of the file.
    AppContextMissing(String),
}

impl Clone for Error {
    fn clone(&self) -> (res: Self)
        ensures
            res == *self,
    {
        match self {
            Error::LoadAssembly(m) => Error::LoadAssembly(m.clone()),
            Error::InvalidFormat(i, l) => Error::InvalidFormat(*i, l.clone()),
            Error::StepFileWrite(m) => Error::StepFileWrite(m.clone()),
            Error::NoDataSection() => Error::NoDataSection(),
            Error::UnexpectedIdentifier(n) => Error::UnexpectedIdentifier(n.clone()),
            Error::ParsingTokenError() => Error::ParsingTokenError(),
            Error::UnexpectedToken(e, g) => Error::UnexpectedToken(e.clone(), g.clone()),
            Error::InvalidNumber(n) => Error::InvalidNumber(n.clone()),
            Error::ReadLineError(m) => Error::ReadLineError(m.clone()),
            Error::EndOfInput() => Error::EndOfInput(),
            Error::FailedOpenFile(m, p) => Error::FailedOpenFile(m.clone(), p.clone()),
            Error::IO(m) => Error::IO(m.clone()),
            Error::UTF8(m) => Error::UTF8(m.clone()),
            Error::AppContextMissing(f) => Error::AppContextMissing(f.clone()),
        }
    }
}

impl Error {
    /// The text of `message`.
    pub open spec fn message_text(self) -> Seq<char> {
        match self {
            Error::LoadAssembly(_) => "Failed to parse assembly JSON"@,
            Error::InvalidFormat(index, label) => "Invalid child index "@ + decimal_digits(
                index as nat,
            ) + " in node "@ + label@,
            Error::StepFileWrite(_) => "Failed to write step file"@,
            Error::NoDataSection() => "Data section not found"@,
            Error::UnexpectedIdentifier(name) => "Unexpected identifier: "@ + name@,
            Error::ParsingTokenError() => "Failed to parsing token"@,
            Error::UnexpectedToken(expected, got) => "Unexpected token. Expected "@ + expected@
                + ", got "@ + got@,
            Error::InvalidNumber(_) => "Invalid number"@,
            Error::ReadLineError(_) => "Failed to read line from file"@,
            Error::EndOfInput() => "Unexpected end of input"@,
            Error::FailedOpenFile(_, path) => "Failed to open file: "@ + path@,
            Error::IO(_) => "Failed to read"@,
            Error::UTF8(reason) => "Failed to parse utf8 string: "@ + reason@,
            Error::AppContextMissing(file) => "No APPLICATION_CONTEXT entry found in step file "@
                + file@,
        }
    }

    /// A short description of the error for people to read.
    pub fn message(&self) -> (text: String)
        ensures
            text@ == self.message_text(),
    {
        let mut text = String::new();
        match self {
            Error::LoadAssembly(_) => {
                text.append("Failed to parse assembly JSON");
            },
            Error::InvalidFormat(index, label) => {
                text.append("Invalid child index ");
                push_decimal(&mut text, *index as u64);
                text.append(" in node ");
                text.append(label.as_str());
            },
            Error::StepFileWrite(_) => {
                text.append("Failed to write step file");
            },
            Error::NoDataSection() => {
                text.append("Data section not found");
            },
            Error::UnexpectedIdentifier(name) => {
                text.append("Unexpected identifier: ");
                text.append(name.as_str());
            },
            Error::ParsingTokenError() => {
                text.append("Failed to parsing token");
            },
            Error::UnexpectedToken(expected, got) => {
                text.append("Unexpected token. Expected ");
                text.append(expected.as_str());
                text.append(", got ");
                text.append(got.as_str());
            },
            Error::InvalidNumber(_) => {
                text.append("Invalid number");
            },
            Error::ReadLineError(_) => {
                text.append("Failed to read line from file");
            },
            Error::EndOfInput() => {
                text.append("Unexpected end of input");
            },
            Error::FailedOpenFile(_, path) => {
                text.append("Failed to open file: ");
                text.append(path.as_str());
            },
            Error::IO(_) => {
                text.append("Failed to read");
            },
            Error::UTF8(reason) => {
                text.append("Failed to parse utf8 string: ");
                text.append(reason.as_str());
            },
            Error::AppContextMissing(file) => {
                text.append("No APPLICATION_CONTEXT entry found in step file ");
                text.append(file.as_str());
            },
        }
        text
    }
}

} // verus!
