//! The errors of a run.

use vstd::prelude::*;
use crate::flags::{usage_line, usage_text};
use crate::moves::{duplicates_text, ConsError};
use crate::path::views;
use crate::plan::BuildError;
use crate::records::RecordError;

verus! {

/// Everything that can stop a run.
pub enum Error {
    /// The command line is not accepted; the text says why, if anything.
    BadArgs(Option<String>),
    /// A record from the helper could not be decoded.
    BadDecoding(String),
    /// The helper returned a different number of records.
    BadLengths,
    /// Some sources or destinations were listed more than once.
    Duplicates(ConsError<String>),
    /// An input stream held an empty record.
    EmptyRecord,
    /// An input stream held a record that is not UTF-8.
    NotUtf8,
    /// The scratch directory overlaps a source or destination subtree.
    ScratchConflict,
    /// A filesystem or pipe operation failed.
    IO(String),
    /// The helper failed and reported its own error.
    Nop,
    /// The helper could not be started.
    SpawnFailed(String, String),
}

impl Error {
    /// The error for a batch that could not be planned.
    pub fn from_build(e: BuildError) -> (r: Error)
        ensures
            match e {
                BuildError::SourceDestinationCount => r is BadLengths,
                BuildError::Duplicates(c) => r matches Error::Duplicates(d) && d.sources()
                    == c.sources() && d.destinations() == c.destinations(),
                BuildError::ScratchConflict => r is ScratchConflict,
            },
    {
        match e {
            BuildError::SourceDestinationCount => Error::BadLengths,
            BuildError::Duplicates(c) => Error::Duplicates(c),
            BuildError::ScratchConflict => Error::ScratchConflict,
        }
    }

    /// The error for a stream that could not be read.
    pub fn from_record(e: RecordError) -> (r: Error)
        ensures
            match e {
                RecordError::EmptyRecord => r is EmptyRecord,
                RecordError::NotUtf8 => r is NotUtf8,
                RecordError::BadDecoding(d) => r matches Error::BadDecoding(t) && t@ == d.text@,
            },
    {
        match e {
            RecordError::EmptyRecord => Error::EmptyRecord,
            RecordError::NotUtf8 => Error::NotUtf8,
            RecordError::BadDecoding(d) => Error::BadDecoding(d.text),
        }
    }
}

/// The one-line message for `e` from the program invoked as `prog`; `mcp`
/// says whether that is the copy variant.  A failed helper has already
/// reported its error, so its message is empty.
pub open spec fn error_text(e: Error, prog: Seq<char>, mcp: bool) -> Seq<char> {
    let pre = prog + ": "@;
    match e {
        Error::BadArgs(o) => pre + (match o {
            Some(v) => v@ + "; "@,
            None => seq![],
        }) + usage_text(prog, mcp),
        Error::BadDecoding(s) => pre + "Decoding the file “"@ + s@ + "” failed!"@,
        Error::BadLengths => pre + "Files have been added or removed during editing"@,
        Error::Duplicates(c) => pre + duplicates_text(views(c.sources()), views(c.destinations())),
        Error::EmptyRecord => pre + "Empty records are not allowed"@,
        Error::NotUtf8 => pre + "A path is not valid UTF-8"@,
        Error::ScratchConflict => pre + "The scratch directory overlaps the paths being moved"@,
        Error::IO(s) => pre + s@,
        Error::Nop => seq![],
        Error::SpawnFailed(c, s) => pre + "Failed to spawn utility “"@ + c@ + "”: "@ + s@,
    }
}

impl Error {
    /// The message that reports this error.
    pub fn message(&self, prog: &str, mcp: bool) -> (r: String)
        ensures
            r@ == error_text(*self, prog@, mcp),
    {
        let mut r = String::new();
        if let Error::Nop = self {
            return r;
        }
        let ghost pre = prog@ + ": "@;
        r.append(prog);
        r.append(": ");
        assert(r@ =~= pre);
        match self {
            Error::BadArgs(o) => {
                if let Some(v) = o {
                    r.append(v.as_str());
                    r.append("; ");
                }
                let u = usage_line(prog, mcp);
                r.append(u.as_str());
            },
            Error::BadDecoding(s) => {
                r.append("Decoding the file “");
                r.append(s.as_str());
                r.append("” failed!");
            },
            Error::BadLengths => {
                r.append("Files have been added or removed during editing");
            },
            Error::Duplicates(c) => {
                let d = c.describe();
                r.append(d.as_str());
            },
            Error::EmptyRecord => {
                r.append("Empty records are not allowed");
            },
            Error::NotUtf8 => {
                r.append("A path is not valid UTF-8");
            },
            Error::ScratchConflict => {
                r.append("The scratch directory overlaps the paths being moved");
            },
            Error::IO(s) => {
                r.append(s.as_str());
            },
            Error::Nop => {},
            Error::SpawnFailed(c, s) => {
                r.append("Failed to spawn utility “");
                r.append(c.as_str());
                r.append("”: ");
                r.append(s.as_str());
            },
        }
        proof {
            assert(r@ =~= error_text(*self, prog@, mcp));
        }
        r
    }
}

} // verus!
