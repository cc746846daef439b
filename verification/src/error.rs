//! The errors of the queue.

use vstd::prelude::*;
use vstd::string::StringExecFns;
use crate::names::{decimal, push_decimal};

verus! {

/// Cause of an input or output failure, carried through unread.
#[verifier::external_type_specification]
#[verifier::external_body]
pub struct ExIoError(std::io::Error);

/// What can go wrong when opening or using a queue.
#[derive(Debug)]
pub enum Error {
    /// Bytes could not be written at the requested offset.
    Write,
    /// The path is not a directory.
    IsDir(String),
    /// The path is not writable.
    CanWrite(String),
    /// A file or directory that should be there is missing.
    Exist(String),
    /// The queue holds no record.
    QueueEmpty,
    /// The file could not be brought to the given length.
    OpenFileWithLength(String, usize),
    /// The length word of a record could not be read.
    ReadLength,
    /// The payload of a record could not be read.
    Read,
    /// The file system failed.
    Io(std::io::Error),
}

impl Error {
    /// The message of an error, but for one of the file system, whose message is its
    /// own.
    pub open spec fn message(&self) -> Seq<char> {
        match self {
            Error::Write => "fail to write."@,
            Error::IsDir(path) => path@ + " is not directory."@,
            Error::CanWrite(path) => path@ + " is not writable."@,
            Error::Exist(path) => path@ + " not exist."@,
            Error::QueueEmpty => "queue is empty."@,
            Error::OpenFileWithLength(path, size) => "fail to open "@ + path@ + " with length "@
                + decimal(*size as nat) + "."@,
            Error::ReadLength => "fail to read length."@,
            Error::Read => "fail to read."@,
            Error::Io(_) => Seq::empty(),
        }
    }

    /// The message of the error.
    pub fn to_string(&self) -> (text: String)
        ensures
            !(self is Io) ==> text@ == self.message(),
    {
        match self {
            Error::Write => String::from_str("fail to write."),
            Error::IsDir(path) => {
                let mut text = path.clone();
                text.append(" is not directory.");
                text
            },
            Error::CanWrite(path) => {
                let mut text = path.clone();
                text.append(" is not writable.");
                text
            },
            Error::Exist(path) => {
                let mut text = path.clone();
                text.append(" not exist.");
                text
            },
            Error::QueueEmpty => String::from_str("queue is empty."),
            Error::OpenFileWithLength(path, size) => {
                let mut text = String::from_str("fail to open ");
                text.append(path.as_str());
                text.append(" with length ");
                push_decimal(&mut text, *size);
                text.append(".");
                text
            },
            Error::ReadLength => String::from_str("fail to read length."),
            Error::Read => String::from_str("fail to read."),
            Error::Io(cause) => cause.to_string(),
        }
    }
}

} // verus!
