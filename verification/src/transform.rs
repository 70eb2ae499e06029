//! The record transformer's side of the engine: what a transform of one
//! record can give, and what the continuation policy makes of it.
//!
//! The filter engine itself runs outside this library. The caller runs it
//! on the text of a record and hands back what it returned: `Ok` with the
//! output text, or `Err` with the engine's message.
use vstd::prelude::*;
use vstd::string::StringSliceAdditionalSpecFns;
use vstd::utf8::*;
use vstd::slice::slice_to_vec;

verus! {

/// What a transform that succeeded gives.
#[derive(Debug, Clone, PartialEq, Eq)]
pub enum TransformResult {
    /// Bytes to write.
    Emit(Vec<u8>),
    /// Nothing to write: the output was empty.
    Skip,
}

/// A transform that failed, with the record it failed on.
#[derive(Debug, Clone, PartialEq, Eq)]
pub struct TransformError {
    pub record_text: String,
    pub cause: String,
}

/// What becomes of one record once the continuation policy is applied.
#[derive(Debug, Clone, PartialEq, Eq)]
pub enum Outcome {
    /// Bytes to write.
    Emit(Vec<u8>),
    /// Nothing to write.
    Skip,
    /// The run ends here.
    Fatal(TransformError),
}

/// The output that stands for a record whose transform failed, where the
/// run continues on errors: the text `null`.
pub open spec fn sentinel_bytes() -> Seq<u8> {
    seq![0x6Eu8, 0x75u8, 0x6Cu8, 0x6Cu8]
}

/// The sentinel, see [`sentinel_bytes`].
pub fn sentinel() -> (s: Vec<u8>)
    ensures
        s@ == sentinel_bytes(),
{
    let mut s: Vec<u8> = Vec::new();
    s.push(0x6E);
    s.push(0x75);
    s.push(0x6C);
    s.push(0x6C);
    assert(s@ =~= sentinel_bytes());
    s
}

/// Turns what the engine returned for `record_text` into a transform
/// result: an empty output is `Skip`, any other output is emitted as its
/// UTF-8 bytes, and a failure keeps the record's text beside the cause.
pub fn adapt(record_text: &str, raw: Result<String, String>) -> (r: Result<
    TransformResult,
    TransformError,
>)
    ensures
        match raw {
            Ok(output) => if output@.len() == 0 {
                r == Ok::<TransformResult, TransformError>(TransformResult::Skip)
            } else {
                r matches Ok(TransformResult::Emit(bytes)) && bytes@ == encode_utf8(output@)
            },
            Err(cause) => r matches Err(e) && e.record_text@ == record_text@ && e.cause@
                == cause@,
        },
{
    match raw {
        Ok(output) => {
            if output.as_str().is_empty() {
                Ok(TransformResult::Skip)
            } else {
                Ok(TransformResult::Emit(slice_to_vec(output.as_str().as_bytes())))
            }
        },
        Err(cause) => Err(TransformError { record_text: record_text.to_owned(), cause }),
    }
}

/// The continuation policy. A result passes through. A failure ends the
/// run where `continue_on_error` is false, and is replaced by the sentinel
/// where it is true.
pub fn apply_policy(result: Result<TransformResult, TransformError>, continue_on_error: bool) -> (o:
    Outcome)
    ensures
        match result {
            Ok(TransformResult::Emit(bytes)) => o matches Outcome::Emit(out) && out@ == bytes@,
            Ok(TransformResult::Skip) => o is Skip,
            Err(e) => if continue_on_error {
                o matches Outcome::Emit(out) && out@ == sentinel_bytes()
            } else {
                o matches Outcome::Fatal(f) && f.record_text@ == e.record_text@ && f.cause@
                    == e.cause@
            },
        },
{
    match result {
        Ok(TransformResult::Emit(bytes)) => Outcome::Emit(bytes),
        Ok(TransformResult::Skip) => Outcome::Skip,
        Err(e) => {
            if continue_on_error {
                Outcome::Emit(sentinel())
            } else {
                Outcome::Fatal(e)
            }
        },
    }
}

} // verus!
