//! Whole runs: the state machine of [`crate::model`] over sequences of
//! chunks and of results.
use vstd::prelude::*;
use crate::model::{fed, initial, output_of, settled, Returned, RunView};

verus! {

/// The chunks of `chunks` in a row, as one.
pub open spec fn joined(chunks: Seq<Seq<u8>>) -> Seq<u8>
    decreases chunks.len(),
{
    if chunks.len() == 0 {
        Seq::empty()
    } else {
        joined(chunks.drop_last()) + chunks.last()
    }
}

/// The state after the chunks of `chunks` were read one after the other.
pub open spec fn fed_all(v: RunView, chunks: Seq<Seq<u8>>) -> RunView
    decreases chunks.len(),
{
    if chunks.len() == 0 {
        v
    } else {
        fed(fed_all(v, chunks.drop_last()), chunks.last())
    }
}

/// The state after the transforms of the oldest records in the queue
/// returned `results`, one after the other.
pub open spec fn settled_all(v: RunView, results: Seq<Returned>) -> RunView
    decreases results.len(),
{
    if results.len() == 0 {
        v
    } else {
        settled(settled_all(v, results.drop_last()), results.last())
    }
}

/// What is written for `results`, in their order.
pub open spec fn outputs_of(results: Seq<Returned>, continue_on_error: bool) -> Seq<u8>
    decreases results.len(),
{
    if results.len() == 0 {
        Seq::empty()
    } else {
        outputs_of(results.drop_last(), continue_on_error) + output_of(
            results.last(),
            continue_on_error,
        )
    }
}

/// How many of `results` are failures.
pub open spec fn failures_in(results: Seq<Returned>) -> nat
    decreases results.len(),
{
    if results.len() == 0 {
        0
    } else {
        failures_in(results.drop_last()) + if results.last() is Err {
            1nat
        } else {
            0nat
        }
    }
}

/// How many of `results` are outputs that are not empty.
pub open spec fn outputs_in(results: Seq<Returned>) -> nat
    decreases results.len(),
{
    if results.len() == 0 {
        0
    } else {
        outputs_in(results.drop_last()) + if results.last() matches Ok(output) && output.len() > 0 {
            1nat
        } else {
            0nat
        }
    }
}

/// A transform returned an output that is empty.
pub open spec fn is_empty_output(returned: Returned) -> bool {
    returned matches Ok(output) && output.len() == 0
}

/// The state after every record that waits was settled, each with the
/// result that stands in `results` at its place in the order of discovery.
pub open spec fn settle_queue(v: RunView, results: Seq<Returned>) -> RunView
    decreases v.queue.len(),
{
    if v.failure is Some || v.queue.len() == 0 || v.handled.len() >= results.len() {
        v
    } else {
        settle_queue(settled(v, results[v.handled.len() as int]), results)
    }
}

/// The state after the chunks of `chunks` were read one after the other
/// and, after each, all records found were settled.
pub open spec fn driven(v: RunView, chunks: Seq<Seq<u8>>, results: Seq<Returned>) -> RunView
    decreases chunks.len(),
{
    if chunks.len() == 0 {
        v
    } else {
        settle_queue(fed(driven(v, chunks.drop_last(), results), chunks.last()), results)
    }
}

/// The state at the end of a whole run over `chunks`, after which the
/// source is exhausted, where the transform of the record found as the
/// `i`-th gave `results[i]`.
pub open spec fn processed(continue_on_error: bool, chunks: Seq<Seq<u8>>, results: Seq<Returned>)
    -> RunView {
    fed(driven(initial(continue_on_error), chunks, results), Seq::empty())
}

/// The state at the end of a run over `chunks` that only reads: no record
/// is settled. Its queue holds the records of the stream, in their order;
/// its failure tells whether the stream can be decoded and is closed.
pub open spec fn read_through(continue_on_error: bool, chunks: Seq<Seq<u8>>) -> RunView {
    fed(fed_all(initial(continue_on_error), chunks), Seq::empty())
}

} // verus!
