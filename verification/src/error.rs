//! The error type for fixture parsing and reference-resource
//! resolution: every failure is fatal and carries the offending line or
//! name so a reader can locate the mistake in the source text.

use vstd::prelude::*;

verus! {

/// Mathematical model of an error.
#[verifier::ext_equal]
pub enum ErrModel {
    /// A descriptor path does not begin with `/`.
    BadPath { path: Seq<char> },
    /// A settings token of an annotation line has no colon.
    BadToken { line: Seq<char> },
    /// A settings token names an unrecognized key.
    UnknownKey { token: Seq<char> },
    /// A line holds the annotation marker but does not start with it.
    IndentationMismatch { index: int, line: Seq<char> },
    /// A body line looks like an annotation line that lost its marker.
    SuspiciousLine { line: Seq<char> },
    /// A flag is named twice in one flag declaration.
    DuplicateFlag { flag: Seq<char> },
    /// A flag or region name is not among the declared valid flags.
    InvalidFlag { flag: Seq<char> },
    /// The documentation preamble ends at a non-blank line.
    PreambleEnd { line: Seq<char> },
    /// A region end marker appears while no region is open.
    RegionUnderflow { region: Seq<char> },
    /// A region end marker does not name the innermost open region.
    RegionMismatch { open: Seq<char>, close: Seq<char> },
    /// A region name begins with whitespace.
    RegionLeadingSpace { region: Seq<char> },
    /// A declared flag gates no region of the resource body.
    UnusedFlag { flag: Seq<char> },
}

/// A fatal parse or resolution failure, with the offending line or
/// name.
#[derive(Debug)]
pub enum FixtureError {
    BadPath { path: String },
    BadToken { line: String },
    UnknownKey { token: String },
    IndentationMismatch { index: usize, line: String },
    SuspiciousLine { line: String },
    DuplicateFlag { flag: String },
    InvalidFlag { flag: String },
    PreambleEnd { line: String },
    RegionUnderflow { region: String },
    RegionMismatch { open: String, close: String },
    RegionLeadingSpace { region: String },
    UnusedFlag { flag: String },
}

impl View for FixtureError {
    type V = ErrModel;

    open spec fn view(&self) -> ErrModel {
        match self {
            FixtureError::BadPath { path } => ErrModel::BadPath { path: path@ },
            FixtureError::BadToken { line } => ErrModel::BadToken { line: line@ },
            FixtureError::UnknownKey { token } => ErrModel::UnknownKey { token: token@ },
            FixtureError::IndentationMismatch { index, line } => ErrModel::IndentationMismatch {
                index: *index as int,
                line: line@,
            },
            FixtureError::SuspiciousLine { line } => ErrModel::SuspiciousLine { line: line@ },
            FixtureError::DuplicateFlag { flag } => ErrModel::DuplicateFlag { flag: flag@ },
            FixtureError::InvalidFlag { flag } => ErrModel::InvalidFlag { flag: flag@ },
            FixtureError::PreambleEnd { line } => ErrModel::PreambleEnd { line: line@ },
            FixtureError::RegionUnderflow { region } => ErrModel::RegionUnderflow {
                region: region@,
            },
            FixtureError::RegionMismatch { open, close } => ErrModel::RegionMismatch {
                open: open@,
                close: close@,
            },
            FixtureError::RegionLeadingSpace { region } => ErrModel::RegionLeadingSpace {
                region: region@,
            },
            FixtureError::UnusedFlag { flag } => ErrModel::UnusedFlag { flag: flag@ },
        }
    }
}

} // verus!
