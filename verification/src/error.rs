//! Error values for path resolution, tree mutation, policy loading and
//! document indexing, with the exact rendered message of each.

use vstd::prelude::*;
use crate::digits::{spec_digits, usize_to_string};

verus! {

/// Mathematical image of a [`DiffError`].
#[verifier::ext_equal]
pub enum ErrorV {
    /// A path did not resolve during a read, or a required key was missing.
    KeyNotFound(Seq<char>),
    /// A write met a non-container node where a container was required;
    /// carries the path prefix up to (not including) the offending segment.
    WrongType(Seq<char>),
    /// An index segment was out of bounds during a write; carries the index
    /// and the path prefix before it.
    InvalidArrayIndex(int, Seq<char>),
    /// A rename directive named a target field that is not supported.
    UnknownRenameField(Seq<char>),
    /// A rule's regular expression did not compile; carries the pattern.
    PatternSyntax(Seq<char>),
}

/// An error raised while reading, writing or indexing a document tree, or
/// while loading a policy.
#[derive(Debug)]
pub enum DiffError {
    KeyNotFound(String),
    WrongType(String),
    InvalidArrayIndex(usize, String),
    UnknownRenameField(String),
    PatternSyntax(String),
}

impl View for DiffError {
    type V = ErrorV;

    open spec fn view(&self) -> ErrorV {
        match self {
            DiffError::KeyNotFound(k) => ErrorV::KeyNotFound(k@),
            DiffError::WrongType(k) => ErrorV::WrongType(k@),
            DiffError::InvalidArrayIndex(i, k) => ErrorV::InvalidArrayIndex(*i as int, k@),
            DiffError::UnknownRenameField(f) => ErrorV::UnknownRenameField(f@),
            DiffError::PatternSyntax(p) => ErrorV::PatternSyntax(p@),
        }
    }
}

/// The rendered message of an error.
pub open spec fn spec_message(e: ErrorV) -> Seq<char> {
    match e {
        ErrorV::KeyNotFound(k) => "key '"@ + k + "' not found in YAML document, or is wrong type"@,
        ErrorV::WrongType(k) => "value found at '"@ + k
            + "' in YAML document is not the correct type"@,
        ErrorV::InvalidArrayIndex(i, k) => "invalid array index "@ + spec_digits(i as nat) + " at '"@
            + k + "' in YAML document"@,
        ErrorV::UnknownRenameField(f) => "Unknown field '"@ + f + "' not found in rename directive"@,
        ErrorV::PatternSyntax(p) => "invalid regular expression '"@ + p + "'"@,
    }
}

impl DiffError {
    /// Renders the error as the message a caller prints.
    pub fn message(&self) -> (r: String)
        ensures
            r@ == spec_message(self@),
    {
        match self {
            DiffError::KeyNotFound(k) => {
                let mut s: String = "key '".to_owned();
                s.append(k.as_str());
                s.append("' not found in YAML document, or is wrong type");
                s
            },
            DiffError::WrongType(k) => {
                let mut s: String = "value found at '".to_owned();
                s.append(k.as_str());
                s.append("' in YAML document is not the correct type");
                s
            },
            DiffError::InvalidArrayIndex(i, k) => {
                let mut s: String = "invalid array index ".to_owned();
                let digits = usize_to_string(*i);
                s.append(digits.as_str());
                s.append(" at '");
                s.append(k.as_str());
                s.append("' in YAML document");
                s
            },
            DiffError::UnknownRenameField(f) => {
                let mut s: String = "Unknown field '".to_owned();
                s.append(f.as_str());
                s.append("' not found in rename directive");
                s
            },
            DiffError::PatternSyntax(p) => {
                let mut s: String = "invalid regular expression '".to_owned();
                s.append(p.as_str());
                s.append("'");
                s
            },
        }
    }
}

} // verus!
