//! The run as a mathematical state machine: a state, the events that
//! change it and the action that each state asks for.
use vstd::prelude::*;
use vstd::utf8::*;
use crate::counters::Tally;
use crate::error::Failure;
use crate::markers::{ends_with_close, strip_close, OPEN_MARKER_LEN};
use crate::reassembly::{complete_part, incomplete_tail};
use crate::splitter::{records_of, tail_of};
use crate::transform::sentinel_bytes;

verus! {

/// The state of a run.
pub struct RunView {
    /// Whether a failed transform is replaced by the sentinel.
    pub continue_on_error: bool,
    /// Bytes of the opening marker that are still to be discarded.
    pub open_left: nat,
    /// Bytes of a character that a chunk boundary has cut.
    pub carry: Seq<u8>,
    /// Decoded text behind the last delimiter, as UTF-8.
    pub text: Seq<u8>,
    /// Records handed to the transform and settled, oldest first.
    pub handled: Seq<Seq<u8>>,
    /// Records found and not transformed yet, oldest first.
    pub queue: Seq<Seq<u8>>,
    /// The closing marker was seen: no chunk is read any more, and the last
    /// record found is the final one.
    pub closing: bool,
    pub tally: Tally,
    /// Output written and not flushed yet.
    pub written: Seq<u8>,
    pub failure: Option<Failure>,
}

/// The phases of a run.
#[derive(Debug, Clone, Copy, PartialEq, Eq)]
pub enum Phase {
    /// The opening marker is not discarded yet.
    Priming,
    /// Chunks are read and records transformed.
    Streaming,
    /// The closing marker was seen; the final record is transformed and
    /// the output flushed.
    Finalizing,
    /// All records are transformed and all output is flushed.
    Done,
    /// A fatal error ended the run.
    Aborted,
}

/// What the caller is to do next.
#[derive(Debug, Clone, Copy, PartialEq, Eq)]
pub enum Action {
    /// Read the next chunk from the source and feed it.
    Read,
    /// Transform the next record and settle what the transform returned.
    Transform,
    /// Flush the output and deliver it to the destination.
    Flush,
    /// The run is done: report the counters.
    Finish,
    /// The run is aborted: report the failure.
    Fail,
}

/// The state in which a run starts.
pub open spec fn initial(continue_on_error: bool) -> RunView {
    RunView {
        continue_on_error,
        open_left: OPEN_MARKER_LEN as nat,
        carry: Seq::empty(),
        text: Seq::empty(),
        handled: Seq::empty(),
        queue: Seq::empty(),
        closing: false,
        tally: Tally { bytes: 0, seen: 0, emitted: 0, skipped: 0 },
        written: Seq::empty(),
        failure: None,
    }
}

/// The phase of a run in the state `v`.
///
/// A failure makes it `Aborted`. Until the opening marker is discarded it
/// is `Priming`, then `Streaming`. Once the closing marker was seen it is
/// `Streaming` while records wait in front of the final one, `Finalizing`
/// while the final record waits or output is to be flushed, and `Done`
/// after that.
pub open spec fn phase_of(v: RunView) -> Phase {
    if v.failure is Some {
        Phase::Aborted
    } else if v.closing {
        if v.queue.len() > 1 {
            Phase::Streaming
        } else if v.queue.len() == 1 || v.written.len() > 0 {
            Phase::Finalizing
        } else {
            Phase::Done
        }
    } else if v.open_left > 0 {
        Phase::Priming
    } else {
        Phase::Streaming
    }
}

/// What a run in the state `v` asks for.
///
/// Records that wait are transformed first, unless the run is aborted.
/// Then output that was written is flushed, on an aborted run too, so that
/// what was written before a failure is delivered. After that an aborted
/// run fails, a run that has seen the closing marker finishes, and any
/// other run reads on.
pub open spec fn action_of(v: RunView) -> Action {
    if v.failure is None && v.queue.len() > 0 {
        Action::Transform
    } else if v.written.len() > 0 {
        Action::Flush
    } else if v.failure is Some {
        Action::Fail
    } else if v.closing {
        Action::Finish
    } else {
        Action::Read
    }
}

/// The run still takes chunks.
pub open spec fn accepts_chunks(v: RunView) -> bool {
    v.failure is None && !v.closing
}

/// How many bytes at the front of `chunk` belong to the opening marker.
pub open spec fn discarded(v: RunView, chunk: Seq<u8>) -> nat {
    if v.open_left <= chunk.len() {
        v.open_left
    } else {
        chunk.len()
    }
}

/// The chunk without its part of the opening marker.
pub open spec fn body_of(v: RunView, chunk: Seq<u8>) -> Seq<u8> {
    chunk.subrange(discarded(v, chunk) as int, chunk.len() as int)
}

/// The bytes that are up for decoding once `chunk` has arrived: the bytes
/// carried over, then the body of the chunk.
pub open spec fn raw_of(v: RunView, chunk: Seq<u8>) -> Seq<u8> {
    v.carry + body_of(v, chunk)
}

/// The newly decoded text: the complete characters of [`raw_of`].
pub open spec fn decoded_of(v: RunView, chunk: Seq<u8>) -> Seq<u8> {
    complete_part(raw_of(v, chunk))
}

/// The buffered text with the newly decoded text behind it.
pub open spec fn grown_text(v: RunView, chunk: Seq<u8>) -> Seq<u8> {
    v.text + decoded_of(v, chunk)
}

/// The buffered text ends the stream once `chunk` is decoded: its tail
/// ends with the closing marker.
pub open spec fn closes(v: RunView, chunk: Seq<u8>) -> bool {
    ends_with_close(tail_of(grown_text(v, chunk)))
}

/// The records that `chunk` completes, in the order of the text; the last
/// of them is the final record if the chunk closes the stream.
pub open spec fn found(v: RunView, chunk: Seq<u8>) -> Seq<Seq<u8>> {
    let grown = grown_text(v, chunk);
    if closes(v, chunk) {
        records_of(grown).push(strip_close(tail_of(grown)))
    } else {
        records_of(grown)
    }
}

/// The state after `chunk` was read.
///
/// A run that is closing or aborted ignores it. An empty chunk says that
/// the source is exhausted, which is too early. Any other chunk is counted,
/// freed of its part of the opening marker and decoded; bytes that are not
/// valid UTF-8 abort the run. The decoded text is split: the records found
/// join the queue, and the tail stays buffered unless it ends the stream.
pub open spec fn fed(v: RunView, chunk: Seq<u8>) -> RunView {
    if !accepts_chunks(v) {
        v
    } else if chunk.len() == 0 {
        RunView { failure: Some(Failure::UnexpectedEof), ..v }
    } else {
        let raw = raw_of(v, chunk);
        let counted = RunView {
            open_left: (v.open_left - discarded(v, chunk)) as nat,
            tally: Tally { bytes: v.tally.bytes + chunk.len(), ..v.tally },
            ..v
        };
        if !valid_utf8(decoded_of(v, chunk)) {
            RunView { carry: raw, failure: Some(Failure::Decode), ..counted }
        } else {
            RunView {
                carry: incomplete_tail(raw),
                text: if closes(v, chunk) {
                    Seq::empty()
                } else {
                    tail_of(grown_text(v, chunk))
                },
                queue: v.queue + found(v, chunk),
                closing: closes(v, chunk),
                ..counted
            }
        }
    }
}

/// What the transform of one record returned: `Ok` with the output text,
/// `Err` with the cause of the failure.
pub type Returned = Result<Seq<char>, Seq<char>>;

/// The bytes that are written for a record whose transform returned
/// `returned`.
pub open spec fn output_of(returned: Returned, continue_on_error: bool) -> Seq<u8> {
    match returned {
        Ok(output) => encode_utf8(output),
        Err(_) => if continue_on_error {
            sentinel_bytes()
        } else {
            Seq::empty()
        },
    }
}

/// The transform failed and the run does not continue on errors.
pub open spec fn is_fatal(returned: Returned, continue_on_error: bool) -> bool {
    returned is Err && !continue_on_error
}

/// The state after the transform of the oldest record in the queue
/// returned `returned`.
///
/// Without such a record, or after a failure, nothing changes. Else the
/// record moves from the queue to the records handled and is counted as
/// seen. An output that is not empty is written and counted as emitted; an
/// empty one is dropped. For a failure the sentinel is written and the
/// record counted as skipped, or, where the run does not continue on
/// errors, nothing is written and the run is aborted.
pub open spec fn settled(v: RunView, returned: Returned) -> RunView {
    if v.failure is Some || v.queue.len() == 0 {
        v
    } else {
        let seen = RunView {
            handled: v.handled.push(v.queue[0]),
            queue: v.queue.drop_first(),
            tally: Tally { seen: v.tally.seen + 1, ..v.tally },
            ..v
        };
        match returned {
            Ok(output) => if output.len() == 0 {
                seen
            } else {
                RunView {
                    written: v.written + encode_utf8(output),
                    tally: Tally { emitted: v.tally.emitted + 1, ..seen.tally },
                    ..seen
                }
            },
            Err(cause) => if v.continue_on_error {
                RunView {
                    written: v.written + sentinel_bytes(),
                    tally: Tally { skipped: v.tally.skipped + 1, ..seen.tally },
                    ..seen
                }
            } else {
                RunView {
                    failure: Some(Failure::Transform { record: v.queue[0], cause }),
                    ..seen
                }
            },
        }
    }
}

/// A failed transform has aborted the run.
pub open spec fn transform_failed(v: RunView) -> bool {
    match v.failure {
        Some(Failure::Transform { .. }) => true,
        _ => false,
    }
}

/// The state after the output was flushed.
pub open spec fn flushed(v: RunView) -> RunView {
    RunView { written: Seq::empty(), ..v }
}

/// The state after a collaborator reported the fatal error `f`. The first
/// failure stays.
pub open spec fn aborted(v: RunView, f: Failure) -> RunView {
    if v.failure is Some {
        v
    } else {
        RunView { failure: Some(f), ..v }
    }
}

/// The records found so far, in the order in which they stand in the
/// stream: those settled, then those that wait.
pub open spec fn discovered(v: RunView) -> Seq<Seq<u8>> {
    v.handled + v.queue
}

/// Every record found has cost at least the two bytes of the marker behind
/// it, and the records seen are those handled.
pub open spec fn accounted(v: RunView) -> bool {
    &&& v.open_left <= OPEN_MARKER_LEN
    &&& v.tally.seen == v.handled.len()
    &&& 2 * (v.tally.seen + v.queue.len()) + v.text.len() + v.carry.len() + (OPEN_MARKER_LEN
        - v.open_left) <= v.tally.bytes
    &&& v.tally.emitted + v.tally.skipped <= v.tally.seen
}

} // verus!
