//! Why a run ends before its last record.
use vstd::prelude::*;
use vstd::utf8::*;
use crate::transform::TransformError;

verus! {

/// A fatal error of a run.
#[derive(Debug, Clone, PartialEq, Eq)]
pub enum RunError {
    /// The compressed source could not be read, or is corrupted.
    Source { cause: String },
    /// The source ended before the closing marker was seen.
    UnexpectedEof,
    /// The filter expression is not valid.
    FilterCompile { cause: String },
    /// The bytes read are not valid UTF-8.
    Decode,
    /// The transform of one record failed and the run does not continue on
    /// errors.
    Transform(TransformError),
    /// The destination could not be written.
    Sink { cause: String },
}

/// The stage of the run at which an error arose.
#[derive(Debug, Clone, Copy, PartialEq, Eq)]
pub enum Stage {
    SourceRead,
    Decode,
    FilterCompile,
    Transform,
    SinkWrite,
}

/// A fatal error, over mathematical values.
pub enum Failure {
    Source { cause: Seq<char> },
    UnexpectedEof,
    FilterCompile { cause: Seq<char> },
    Decode,
    /// `record` is the UTF-8 text of the record that failed.
    Transform { record: Seq<u8>, cause: Seq<char> },
    Sink { cause: Seq<char> },
}

impl View for RunError {
    type V = Failure;

    open spec fn view(&self) -> Failure {
        match *self {
            RunError::Source { cause } => Failure::Source { cause: cause@ },
            RunError::UnexpectedEof => Failure::UnexpectedEof,
            RunError::FilterCompile { cause } => Failure::FilterCompile { cause: cause@ },
            RunError::Decode => Failure::Decode,
            RunError::Transform(e) => Failure::Transform {
                record: encode_utf8(e.record_text@),
                cause: e.cause@,
            },
            RunError::Sink { cause } => Failure::Sink { cause: cause@ },
        }
    }
}

/// The stage at which a failure arose. A source that ends too early is a
/// failure of reading the source.
pub open spec fn stage_of(f: Failure) -> Stage {
    match f {
        Failure::Source { .. } => Stage::SourceRead,
        Failure::UnexpectedEof => Stage::SourceRead,
        Failure::FilterCompile { .. } => Stage::FilterCompile,
        Failure::Decode => Stage::Decode,
        Failure::Transform { .. } => Stage::Transform,
        Failure::Sink { .. } => Stage::SinkWrite,
    }
}

impl RunError {
    /// The stage at which this error arose.
    pub fn stage(&self) -> (s: Stage)
        ensures
            s == stage_of(self@),
    {
        match self {
            RunError::Source { .. } => Stage::SourceRead,
            RunError::UnexpectedEof => Stage::SourceRead,
            RunError::FilterCompile { .. } => Stage::FilterCompile,
            RunError::Decode => Stage::Decode,
            RunError::Transform(_) => Stage::Transform,
            RunError::Sink { .. } => Stage::SinkWrite,
        }
    }

    /// The text of the record that the error is about: present for a
    /// failed transform and for no other error.
    pub fn record_text(&self) -> (r: Option<&String>)
        ensures
            r is Some <==> self@ is Transform,
            r matches Some(text) ==> encode_utf8(text@) == self@->record,
    {
        match self {
            RunError::Transform(e) => Some(&e.record_text),
            _ => None,
        }
    }
}

} // verus!
