//! What holds of every run, proved of the state machine in
//! [`crate::model`].
use vstd::prelude::*;
use vstd::utf8::*;
use crate::error::Failure;
use crate::markers::{strip_close, OPEN_MARKER_LEN};
use crate::model::{
    aborted, accepts_chunks, body_of, closes, decoded_of, discarded, discovered, fed, flushed,
    found, grown_text, initial, is_fatal, raw_of, settled, transform_failed, Returned, RunView,
};
use crate::process::{gives, is_report_of};
use crate::reassembly::{
    complete_len, incomplete_tail, lemma_cut_is_safe, lemma_valid_text_survives_cut,
};
use crate::run::RunReport;
use crate::runs::{
    driven, failures_in, fed_all, is_empty_output, joined, outputs_in, outputs_of, processed,
    read_through, settle_queue, settled_all,
};
use crate::splitter::{
    framed, lemma_framed_text_splits, lemma_unfinished_text_is_open, well_framed,
    delimiter_free, lemma_records_delimiter_free, lemma_split_concat, lemma_tail_delimiter_free,
    records_of, tail_of,
};

verus! {

/// The opening marker is discarded from two chunks as it is from the two
/// as one chunk.
proof fn lemma_bodies(v: RunView, mid: RunView, a: Seq<u8>, b: Seq<u8>)
    requires
        mid.open_left == v.open_left - discarded(v, a),
    ensures
        discarded(v, a + b) == discarded(v, a) + discarded(mid, b),
        body_of(v, a + b) == body_of(v, a) + body_of(mid, b),
{
    assert(body_of(v, a + b) =~= body_of(v, a) + body_of(mid, b));
}

/// Two chunks are decoded as the two as one chunk are: what the first
/// leaves incomplete is completed by the second.
proof fn lemma_decoded_twice(v: RunView, mid: RunView, a: Seq<u8>, b: Seq<u8>)
    requires
        mid.open_left == v.open_left - discarded(v, a),
        mid.carry == incomplete_tail(raw_of(v, a)),
        valid_utf8(decoded_of(v, a + b)),
    ensures
        valid_utf8(decoded_of(v, a)),
        valid_utf8(decoded_of(mid, b)),
        decoded_of(v, a + b) == decoded_of(v, a) + decoded_of(mid, b),
        incomplete_tail(raw_of(v, a + b)) == incomplete_tail(raw_of(mid, b)),
{
    lemma_bodies(v, mid, a, b);
    assert(raw_of(v, a + b) =~= raw_of(v, a) + body_of(mid, b));
    lemma_cut_is_safe(raw_of(v, a), body_of(mid, b));
}

/// Text that grows in two steps is split as text that grows in one.
proof fn lemma_found_twice(text: Seq<u8>, first: Seq<u8>, second: Seq<u8>)
    ensures
        records_of(text + (first + second)) == records_of(text + first) + records_of(
            tail_of(text + first) + second,
        ),
        tail_of(text + (first + second)) == tail_of(tail_of(text + first) + second),
{
    lemma_split_concat(text + first, second);
    assert(text + (first + second) =~= (text + first) + second);
}

/// Two chunks read one after the other leave the run where the two read as
/// one chunk leave it, provided that the two as one can be decoded and that
/// the first alone does not end with the closing marker. That the two as
/// one can be decoded is enough for the first alone to be.
pub proof fn lemma_fed_twice(v: RunView, a: Seq<u8>, b: Seq<u8>)
    requires
        a.len() > 0,
        b.len() > 0,
        fed(v, a + b).failure is None,
    ensures
        fed(v, a).failure is None,
        !fed(v, a).closing ==> fed(fed(v, a), b) == fed(v, a + b),
{
    if accepts_chunks(v) {
        let ab = a + b;
        let mid = fed(v, a);
        let probe = RunView {
            open_left: (v.open_left - discarded(v, a)) as nat,
            carry: incomplete_tail(raw_of(v, a)),
            ..v
        };
        lemma_decoded_twice(v, probe, a, b);
        assert(mid.failure is None);
        if !mid.closing {
            let whole = fed(v, ab);
            let end = fed(mid, b);
            lemma_bodies(v, mid, a, b);
            lemma_decoded_twice(v, mid, a, b);
            assert(raw_of(mid, b) == raw_of(probe, b));
            lemma_found_twice(v.text, decoded_of(v, a), decoded_of(mid, b));
            assert(grown_text(mid, b) == tail_of(grown_text(v, a)) + decoded_of(mid, b));
            assert(grown_text(v, ab) == v.text + (decoded_of(v, a) + decoded_of(mid, b)));
            assert(closes(v, ab) == closes(mid, b));
            assert(end.queue =~= whole.queue);
            assert(end.text == whole.text);
            assert(end.carry == whole.carry);
            assert(end.tally == whole.tally);
            assert(end.open_left == whole.open_left);
            assert(end == whole);
        }
    }
}

/// Text that is valid is decoded wherever the chunks end. Where the bytes
/// that are up for decoding, with any bytes `rest` that may follow them, are
/// valid UTF-8, the chunk does not abort the run for its bytes, whether or
/// not it ends inside a character.
pub proof fn lemma_valid_text_decodes(v: RunView, chunk: Seq<u8>, rest: Seq<u8>)
    requires
        v.failure is None,
        valid_utf8(raw_of(v, chunk) + rest),
    ensures
        fed(v, chunk).failure != Some(Failure::Decode),
{
    lemma_valid_text_survives_cut(raw_of(v, chunk), rest);
}

/// A run that takes no chunks any more stays as it is, whatever is read.
pub proof fn lemma_fed_all_ignored(v: RunView, chunks: Seq<Seq<u8>>)
    requires
        !accepts_chunks(v),
    ensures
        fed_all(v, chunks) == v,
    decreases chunks.len(),
{
    if chunks.len() > 0 {
        lemma_fed_all_ignored(v, chunks.drop_last());
    }
}

/// Chunks that are not empty are not empty in a row.
pub proof fn lemma_joined_len(chunks: Seq<Seq<u8>>)
    requires
        chunks.len() > 0,
        forall|i: int| 0 <= i < chunks.len() ==> chunks[i].len() > 0,
    ensures
        joined(chunks).len() > 0,
{
}

/// Chunk-size invariance. However the source cuts the stream into chunks,
/// the run ends where it ends on the whole stream read as one chunk: the
/// same records in the same order, the same unresolved tail, the same
/// counters. In particular a record longer than a chunk, a delimiter that
/// a chunk boundary cuts, and a character that a chunk boundary cuts are
/// found as they stand in the stream.
///
/// Two kinds of input are left out. The stream must be decodable when read
/// as one chunk. And no chunk but the last may end right behind the bytes
/// of a closing marker that follows the last delimiter read so far: the
/// run takes such a chunk for the end of the stream and reads no more.
pub proof fn lemma_chunking_invariance(v: RunView, chunks: Seq<Seq<u8>>)
    requires
        chunks.len() > 0,
        forall|i: int| 0 <= i < chunks.len() ==> chunks[i].len() > 0,
        forall|k: int|
            0 < k < chunks.len() && !v.closing ==> !fed_all(v, #[trigger] chunks.take(k)).closing,
        fed(v, joined(chunks)).failure is None,
    ensures
        fed_all(v, chunks) == fed(v, joined(chunks)),
    decreases chunks.len(),
{
    let init = chunks.drop_last();
    let last = chunks.last();
    if !accepts_chunks(v) {
        lemma_fed_all_ignored(v, chunks);
    } else if chunks.len() == 1 {
        assert(joined(init) =~= Seq::<u8>::empty());
        assert(joined(chunks) =~= last);
    } else {
        assert forall|i: int| 0 <= i < init.len() implies init[i].len() > 0 by {
            assert(init[i] == chunks[i]);
        }
        lemma_joined_len(init);
        lemma_fed_twice(v, joined(init), last);
        assert forall|k: int| 0 < k < init.len() && !v.closing implies !fed_all(
            v,
            #[trigger] init.take(k),
        ).closing by {
            assert(init.take(k) =~= chunks.take(k));
        }
        lemma_chunking_invariance(v, init);
        assert(chunks.take(chunks.len() - 1) =~= init);
    }
}

/// Terminal record detection. Where the text of the whole stream ends with
/// the closing marker behind its last delimiter, the run finds the final
/// record after any number of chunk reads: it is the last record found, it
/// stands without the marker, nothing stays buffered as text, and the run
/// reads no more. The inputs are those of [`lemma_chunking_invariance`].
pub proof fn lemma_final_record_found(v: RunView, chunks: Seq<Seq<u8>>)
    requires
        accepts_chunks(v),
        chunks.len() > 0,
        forall|i: int| 0 <= i < chunks.len() ==> chunks[i].len() > 0,
        forall|k: int| 0 < k < chunks.len() ==> !fed_all(v, #[trigger] chunks.take(k)).closing,
        fed(v, joined(chunks)).failure is None,
        closes(v, joined(chunks)),
    ensures
        fed_all(v, chunks).closing,
        fed_all(v, chunks).text == Seq::<u8>::empty(),
        fed_all(v, chunks).queue == v.queue + records_of(grown_text(v, joined(chunks))).push(
            strip_close(tail_of(grown_text(v, joined(chunks)))),
        ),
{
    lemma_chunking_invariance(v, chunks);
    lemma_joined_len(chunks);
}

/// Byte accounting. As long as the run takes chunks, the bytes it has
/// counted as consumed are the lengths of all chunks read: the size of the
/// input read so far.
pub proof fn lemma_bytes_accounted(v: RunView, chunks: Seq<Seq<u8>>)
    requires
        forall|k: int| 0 <= k < chunks.len() ==> accepts_chunks(fed_all(v, #[trigger] chunks.take(k))),
    ensures
        fed_all(v, chunks).tally.bytes == v.tally.bytes + joined(chunks).len(),
    decreases chunks.len(),
{
    if chunks.len() > 0 {
        let init = chunks.drop_last();
        assert forall|k: int| 0 <= k < init.len() implies accepts_chunks(
            fed_all(v, #[trigger] init.take(k)),
        ) by {
            assert(init.take(k) =~= chunks.take(k));
        }
        lemma_bytes_accounted(v, init);
        assert(chunks.take(chunks.len() - 1) =~= init);
    }
}

/// Nothing but a chunk that is read changes the count of bytes consumed.
pub proof fn lemma_bytes_only_from_chunks(v: RunView, returned: Returned, f: Failure)
    ensures
        settled(v, returned).tally.bytes == v.tally.bytes,
        flushed(v).tally.bytes == v.tally.bytes,
        aborted(v, f).tally.bytes == v.tally.bytes,
{
}

/// Order preservation. The records leave the queue in the order in which
/// they were found, and as long as no transform fails fatally what is
/// written for them stands in the output in that same order, with nothing
/// between.
pub proof fn lemma_order_preserved(v: RunView, results: Seq<Returned>)
    requires
        v.failure is None,
        results.len() <= v.queue.len(),
        forall|i: int|
            0 <= i < results.len() ==> !is_fatal(
                #[trigger] results[i],
                v.continue_on_error,
            ),
    ensures
        settled_all(v, results).failure is None,
        settled_all(v, results).handled == v.handled + v.queue.take(results.len() as int),
        settled_all(v, results).queue == v.queue.skip(results.len() as int),
        settled_all(v, results).written == v.written + outputs_of(results, v.continue_on_error),
        settled_all(v, results).tally.seen == v.tally.seen + results.len(),
        settled_all(v, results).tally.emitted == v.tally.emitted + outputs_in(results),
        settled_all(v, results).tally.skipped == v.tally.skipped + failures_in(results),
        settled_all(v, results).tally.bytes == v.tally.bytes,
        settled_all(v, results).continue_on_error == v.continue_on_error,
    decreases results.len(),
{
    if results.len() == 0 {
        assert(v.queue.skip(0) =~= v.queue);
        assert(v.handled + v.queue.take(0) =~= v.handled);
        assert(v.written + outputs_of(results, v.continue_on_error) =~= v.written);
    } else {
        let init = results.drop_last();
        assert forall|i: int| 0 <= i < init.len() implies !is_fatal(
            #[trigger] init[i],
            v.continue_on_error,
        ) by {
            assert(init[i] == results[i]);
        }
        lemma_order_preserved(v, init);
        let mid = settled_all(v, init);
        let end = settled(mid, results.last());
        assert(!is_fatal(results[results.len() - 1], v.continue_on_error));
        assert(mid.queue.len() > 0);
        assert(mid.queue.drop_first() =~= v.queue.skip(results.len() as int));
        assert(mid.handled.push(mid.queue[0]) =~= v.handled + v.queue.take(results.len() as int));
        assert(encode_utf8(Seq::<char>::empty()) =~= Seq::<u8>::empty());
        assert(end.written =~= v.written + outputs_of(results, v.continue_on_error));
    }
}

/// Fail-fast policy. Where the run does not continue on errors, the first
/// record whose transform fails aborts the run: the failure names that
/// record, what was written for the records before it stays, and nothing is
/// written for it or for any record after it.
pub proof fn lemma_fail_fast(v: RunView, results: Seq<Returned>, k: int)
    requires
        !v.continue_on_error,
        v.failure is None,
        0 <= k < results.len() <= v.queue.len(),
        results[k] is Err,
        forall|i: int| 0 <= i < k ==> (#[trigger] results[i]) is Ok,
    ensures
        settled_all(v, results).failure == Some(
            Failure::Transform { record: v.queue[k], cause: results[k]->Err_0 },
        ),
        settled_all(v, results).written == v.written + outputs_of(results.take(k), false),
        settled_all(v, results).tally.seen == v.tally.seen + k + 1,
    decreases results.len(),
{
    let init = results.drop_last();
    if k == results.len() - 1 {
        assert(init =~= results.take(k));
        assert forall|i: int| 0 <= i < init.len() implies !is_fatal(
            #[trigger] init[i],
            v.continue_on_error,
        ) by {
            assert(init[i] == results[i]);
        }
        lemma_order_preserved(v, init);
        assert(v.queue.skip(k)[0] == v.queue[k]);
    } else {
        assert(init[k] == results[k]);
        assert forall|i: int| 0 <= i < k implies (#[trigger] init[i]) is Ok by {
            assert(init[i] == results[i]);
        }
        lemma_fail_fast(v, init, k);
        assert(init.take(k) =~= results.take(k));
    }
}

/// An aborted run writes nothing more: no chunk and no result of a
/// transform changes it.
pub proof fn lemma_nothing_after_abort(v: RunView, chunk: Seq<u8>, returned: Returned)
    requires
        v.failure is Some,
    ensures
        fed(v, chunk) == v,
        settled(v, returned) == v,
{
}

/// Fail-soft policy. Where the run continues on errors, no failed
/// transform ends it: every record is settled, the sentinel stands in the
/// output in place of each record that failed, and each such record is
/// counted as skipped. Of the records settled, as many are seen as are
/// skipped or emitted, as long as no transform gives an empty output
/// (such a record is seen, and neither emitted nor skipped).
pub proof fn lemma_fail_soft(v: RunView, results: Seq<Returned>)
    requires
        v.continue_on_error,
        v.failure is None,
        results.len() <= v.queue.len(),
    ensures
        settled_all(v, results).failure is None,
        settled_all(v, results).queue == v.queue.skip(results.len() as int),
        settled_all(v, results).written == v.written + outputs_of(results, true),
        settled_all(v, results).tally.skipped == v.tally.skipped + failures_in(results),
        (forall|i: int| 0 <= i < results.len() ==> !is_empty_output(#[trigger] results[i]))
            ==> settled_all(v, results).tally.seen - v.tally.seen == (settled_all(
            v,
            results,
        ).tally.emitted - v.tally.emitted) + (settled_all(v, results).tally.skipped
            - v.tally.skipped),
{
    lemma_order_preserved(v, results);
    if forall|i: int| 0 <= i < results.len() ==> !is_empty_output(#[trigger] results[i]) {
        lemma_counts_add_up(results);
    }
}

/// Each result is a failure, an output or an empty output.
pub proof fn lemma_counts_add_up(results: Seq<Returned>)
    requires
        forall|i: int| 0 <= i < results.len() ==> !is_empty_output(#[trigger] results[i]),
    ensures
        failures_in(results) + outputs_in(results) == results.len(),
    decreases results.len(),
{
    if results.len() > 0 {
        let init = results.drop_last();
        assert forall|i: int| 0 <= i < init.len() implies !is_empty_output(#[trigger] init[i]) by {
            assert(init[i] == results[i]);
        }
        lemma_counts_add_up(init);
        assert(!is_empty_output(results[results.len() - 1]));
    }
}

/// The buffered text is what no record boundary has resolved yet: once a
/// chunk is read it holds no delimiter, and every record that the chunk
/// completed but the final one holds none either.
pub proof fn lemma_buffer_is_unresolved(v: RunView, chunk: Seq<u8>)
    requires
        delimiter_free(v.text),
    ensures
        delimiter_free(fed(v, chunk).text),
        forall|i: int|
            0 <= i < records_of(grown_text(v, chunk)).len() ==> delimiter_free(
                #[trigger] records_of(grown_text(v, chunk))[i],
            ),
{
    let grown = grown_text(v, chunk);
    lemma_tail_delimiter_free(grown);
    assert(delimiter_free(Seq::<u8>::empty()));
    assert forall|i: int| 0 <= i < records_of(grown).len() implies delimiter_free(
        #[trigger] records_of(grown)[i],
    ) by {
        lemma_records_delimiter_free(grown, i);
    }
}

/// A chunk adds the records it completes behind those found before, and
/// changes nothing of those; settling a record changes nothing of the
/// records found or of their order.
pub proof fn lemma_discovery_order(v: RunView, chunk: Seq<u8>, returned: Returned)
    ensures
        accepts_chunks(v) && chunk.len() > 0 && valid_utf8(decoded_of(v, chunk))
            ==> discovered(fed(v, chunk)) == discovered(v) + found(
            v,
            chunk,
        ),
        discovered(settled(v, returned)) == discovered(v),
{
    if accepts_chunks(v) && chunk.len() > 0 && valid_utf8(decoded_of(v, chunk)) {
        assert(v.handled + (v.queue + found(v, chunk)) =~= (v.handled + v.queue) + found(
            v,
            chunk,
        ));
    }
    if !(v.failure is Some || v.queue.len() == 0) {
        assert(v.handled.push(v.queue[0]) + v.queue.drop_first() =~= v.handled + v.queue);
    }
}

/// Two runs have handled the same records with the same results: the
/// same output, the same counts of records, the same failure.
pub open spec fn same_outcome(a: RunView, b: RunView) -> bool {
    &&& a.handled == b.handled
    &&& a.written == b.written
    &&& a.failure == b.failure
    &&& a.tally.seen == b.tally.seen
    &&& a.tally.emitted == b.tally.emitted
    &&& a.tally.skipped == b.tally.skipped
}

/// Reading a chunk and settling a record do not get in each other's way:
/// either order leaves the same state, unless the record aborts the run.
proof fn lemma_feed_settle_commute(u: RunView, c: Seq<u8>, r: Returned)
    requires
        u.failure is None,
        u.queue.len() > 0,
        fed(u, c).failure is None,
        settled(u, r).failure is None,
    ensures
        fed(settled(u, r), c) == settled(fed(u, c), r),
{
    let first = settled(u, r);
    if accepts_chunks(u) {
        assert(raw_of(first, c) == raw_of(u, c));
        assert(decoded_of(first, c) == decoded_of(u, c));
        assert(grown_text(first, c) == grown_text(u, c));
        assert(found(first, c) == found(u, c));
        assert((u.queue + found(u, c)).drop_first() =~= u.queue.drop_first() + found(u, c));
        assert((u.queue + found(u, c))[0] == u.queue[0]);
    }
}

/// Whether the records that wait are settled before the next chunk is read
/// or after it makes no difference to what is handled and written.
proof fn lemma_settle_before_or_after(u: RunView, c: Seq<u8>, results: Seq<Returned>)
    requires
        u.failure is None,
        fed(u, c).failure is None,
    ensures
        same_outcome(
            settle_queue(fed(settle_queue(u, results), c), results),
            settle_queue(fed(u, c), results),
        ),
        settle_queue(fed(u, c), results).failure is None ==> settle_queue(
            fed(settle_queue(u, results), c),
            results,
        ) == settle_queue(fed(u, c), results),
    decreases u.queue.len(),
{
    if u.queue.len() == 0 || u.handled.len() >= results.len() {
    } else {
        let r = results[u.handled.len() as int];
        let first = settled(u, r);
        let f = fed(u, c);
        assert(f.handled == u.handled);
        assert(f.queue.len() > 0 && f.queue[0] == u.queue[0]) by {
            if accepts_chunks(u) {
                assert((u.queue + found(u, c))[0] == u.queue[0]);
            }
        }
        assert(settle_queue(f, results) == settle_queue(settled(f, r), results));
        if first.failure is Some {
            assert(settle_queue(first, results) == first);
            assert(fed(first, c) == first);
            assert(settled(f, r).failure is Some);
            assert(settle_queue(settled(f, r), results) == settled(f, r));
        } else {
            lemma_feed_settle_commute(u, c, r);
            lemma_settle_before_or_after(first, c, results);
        }
    }
}

/// The inputs of [`lemma_chunking_invariance`] hold of all but the last
/// chunk too.
proof fn lemma_all_but_last(v: RunView, chunks: Seq<Seq<u8>>)
    requires
        chunks.len() > 1,
        forall|i: int| 0 <= i < chunks.len() ==> chunks[i].len() > 0,
        forall|k: int|
            0 < k < chunks.len() && !v.closing ==> !fed_all(v, #[trigger] chunks.take(k)).closing,
        fed(v, joined(chunks)).failure is None,
    ensures
        forall|i: int| 0 <= i < chunks.drop_last().len() ==> chunks.drop_last()[i].len() > 0,
        forall|k: int|
            0 < k < chunks.drop_last().len() && !v.closing ==> !fed_all(
                v,
                #[trigger] chunks.drop_last().take(k),
            ).closing,
        fed(v, joined(chunks.drop_last())).failure is None,
        fed_all(v, chunks.drop_last()) == fed(v, joined(chunks.drop_last())),
        !v.closing ==> !fed_all(v, chunks.drop_last()).closing,
{
    let init = chunks.drop_last();
    assert forall|i: int| 0 <= i < init.len() implies init[i].len() > 0 by {
        assert(init[i] == chunks[i]);
    }
    assert forall|k: int| 0 < k < init.len() && !v.closing implies !fed_all(
        v,
        #[trigger] init.take(k),
    ).closing by {
        assert(init.take(k) =~= chunks.take(k));
    }
    lemma_joined_len(init);
    lemma_fed_twice(v, joined(init), chunks.last());
    lemma_chunking_invariance(v, init);
    assert(chunks.take(chunks.len() - 1) =~= init);
}

/// A run that settles its records after each chunk handles and writes what
/// a run does that reads all chunks first and settles all records then.
proof fn lemma_driven_is_fed_then_settled(
    v: RunView,
    chunks: Seq<Seq<u8>>,
    results: Seq<Returned>,
)
    requires
        chunks.len() > 0,
        forall|i: int| 0 <= i < chunks.len() ==> chunks[i].len() > 0,
        forall|k: int|
            0 < k < chunks.len() && !v.closing ==> !fed_all(v, #[trigger] chunks.take(k)).closing,
        fed(v, joined(chunks)).failure is None,
    ensures
        same_outcome(driven(v, chunks, results), settle_queue(fed_all(v, chunks), results)),
        settle_queue(fed_all(v, chunks), results).failure is None ==> driven(v, chunks, results)
            == settle_queue(fed_all(v, chunks), results),
    decreases chunks.len(),
{
    let init = chunks.drop_last();
    let last = chunks.last();
    if chunks.len() == 1 {
        assert(driven(v, init, results) == v);
        assert(fed_all(v, init) == v);
    } else {
        lemma_all_but_last(v, chunks);
        lemma_chunking_invariance(v, chunks);
        lemma_driven_is_fed_then_settled(v, init, results);
        let u = fed_all(v, init);
        let before = driven(v, init, results);
        lemma_settle_before_or_after(u, last, results);
        if settle_queue(u, results).failure is None {
            assert(before == settle_queue(u, results));
        } else {
            assert(before.failure is Some);
            assert(fed(before, last) == before);
            assert(settle_queue(before, results) == before);
            assert(fed(settle_queue(u, results), last) == settle_queue(u, results));
            assert(settle_queue(settle_queue(u, results), results) == settle_queue(u, results));
        }
    }
}

/// Chunk-size invariance of the whole run. However the source cuts the
/// stream into chunks, the run hands the same records to the transform in
/// the same order, writes the same output and ends with the same counts of
/// records and the same failure or none as on the whole stream read as one
/// chunk, provided that the transform gives the same results. A run that
/// is not aborted ends in the very same state. (A run that a failed
/// transform aborts has read fewer bytes where it has read fewer chunks.)
///
/// The inputs are those of [`lemma_chunking_invariance`].
pub proof fn lemma_outcome_chunking_invariance(
    continue_on_error: bool,
    chunks: Seq<Seq<u8>>,
    results: Seq<Returned>,
)
    requires
        chunks.len() > 0,
        forall|i: int| 0 <= i < chunks.len() ==> chunks[i].len() > 0,
        forall|k: int|
            0 < k < chunks.len() ==> !fed_all(
                initial(continue_on_error),
                #[trigger] chunks.take(k),
            ).closing,
        fed(initial(continue_on_error), joined(chunks)).failure is None,
    ensures
        same_outcome(
            processed(continue_on_error, chunks, results),
            processed(continue_on_error, seq![joined(chunks)], results),
        ),
        processed(continue_on_error, chunks, results).failure is None ==> processed(
            continue_on_error,
            chunks,
            results,
        ) == processed(continue_on_error, seq![joined(chunks)], results),
{
    let v = initial(continue_on_error);
    let one = seq![joined(chunks)];
    lemma_driven_is_fed_then_settled(v, chunks, results);
    lemma_chunking_invariance(v, chunks);
    assert(one.drop_last() =~= Seq::<Seq<u8>>::empty());
    assert(one.last() == joined(chunks));
    assert(driven(v, one.drop_last(), results) == v);
    assert(driven(v, one, results) == settle_queue(fed(v, joined(chunks)), results));
}

/// The state `v` is what the results `results` account for: the records
/// handled are the first that were found, each was settled with the result
/// at its place, and the output and the counts are those of these results,
/// in their order.
pub open spec fn accounts_for(results: Seq<Returned>, v: RunView) -> bool {
    let n = v.handled.len() as int;
    let used = results.take(n);
    &&& n <= results.len()
    &&& v.tally.seen == n
    &&& v.written == outputs_of(used, v.continue_on_error)
    &&& v.tally.emitted == outputs_in(used)
    &&& v.tally.skipped == if v.continue_on_error {
        failures_in(used)
    } else {
        0
    }
    &&& match v.failure {
        Some(Failure::Transform { record, cause }) => {
            &&& !v.continue_on_error
            &&& n > 0
            &&& record == v.handled[n - 1]
            &&& results[n - 1] == Err::<Seq<char>, Seq<char>>(cause)
            &&& forall|i: int| 0 <= i < n - 1 ==> (#[trigger] results[i]) is Ok
        },
        _ => forall|i: int| 0 <= i < n ==> !is_fatal(#[trigger] results[i], v.continue_on_error),
    }
}

/// Settling the next record with the result at its place keeps the
/// account.
proof fn lemma_settled_accounts(results: Seq<Returned>, v: RunView)
    requires
        accounts_for(results, v),
        v.failure is None,
        v.queue.len() > 0,
        v.handled.len() < results.len(),
    ensures
        accounts_for(results, settled(v, results[v.handled.len() as int])),
{
    let n = v.handled.len() as int;
    let next = settled(v, results[n]);
    let used = results.take(n + 1);
    assert(used.drop_last() =~= results.take(n));
    assert(used.last() == results[n]);
    assert(encode_utf8(Seq::<char>::empty()) =~= Seq::<u8>::empty());
    assert(next.written =~= outputs_of(used, v.continue_on_error));
    assert(next.handled[n] == v.queue[0]);
}

/// Settling all records that wait keeps the account.
proof fn lemma_settle_queue_accounts(results: Seq<Returned>, v: RunView)
    requires
        accounts_for(results, v),
    ensures
        accounts_for(results, settle_queue(v, results)),
        settle_queue(v, results).tally.bytes == v.tally.bytes,
    decreases v.queue.len(),
{
    if v.failure is Some || v.queue.len() == 0 || v.handled.len() >= results.len() {
    } else {
        lemma_settled_accounts(results, v);
        lemma_settle_queue_accounts(results, settled(v, results[v.handled.len() as int]));
    }
}

/// Reading chunks and settling records keeps the account.
proof fn lemma_driven_accounts(v: RunView, chunks: Seq<Seq<u8>>, results: Seq<Returned>)
    requires
        accounts_for(results, v),
    ensures
        accounts_for(results, driven(v, chunks, results)),
        driven(v, chunks, results).tally.bytes <= v.tally.bytes + joined(chunks).len(),
    decreases chunks.len(),
{
    if chunks.len() > 0 {
        lemma_driven_accounts(v, chunks.drop_last(), results);
        let before = driven(v, chunks.drop_last(), results);
        let f = fed(before, chunks.last());
        assert(accounts_for(results, f));
        lemma_settle_queue_accounts(results, f);
    }
}

/// Order preservation, fail-fast and fail-soft policy of the whole run.
/// At the end of a run the records handed to the transform are the first
/// that were found, in the order of the stream, and each was settled with
/// the result given for it. The output is what was written for these
/// records, in their order, with nothing between: for an output the output,
/// for a failure the sentinel where the run continues on errors. The
/// records seen are those handed to the transform, the records emitted
/// those with an output that is not empty, the records skipped those that
/// the sentinel replaced.
///
/// Where the run does not continue on errors, the first failure of a
/// transform aborts it: the failure names the last record handed to the
/// transform, and for it nothing is written. Where the run continues on
/// errors no transform aborts it.
pub proof fn lemma_whole_run_accounts(
    continue_on_error: bool,
    chunks: Seq<Seq<u8>>,
    results: Seq<Returned>,
)
    ensures
        accounts_for(results, processed(continue_on_error, chunks, results)),
        processed(continue_on_error, chunks, results).continue_on_error == continue_on_error,
        processed(continue_on_error, chunks, results).tally.bytes <= joined(chunks).len(),
        continue_on_error ==> !(processed(continue_on_error, chunks, results).failure matches Some(
            Failure::Transform { .. },
        )),
{
    let v = initial(continue_on_error);
    assert(results.take(0) =~= Seq::<Returned>::empty());
    assert(accounts_for(results, v));
    lemma_driven_accounts(v, chunks, results);
    lemma_driven_keeps_policy(v, chunks, results);
}

/// No event changes the continuation policy of a run.
proof fn lemma_driven_keeps_policy(v: RunView, chunks: Seq<Seq<u8>>, results: Seq<Returned>)
    ensures
        driven(v, chunks, results).continue_on_error == v.continue_on_error,
    decreases chunks.len(),
{
    if chunks.len() > 0 {
        lemma_driven_keeps_policy(v, chunks.drop_last(), results);
        lemma_settle_queue_keeps_policy(
            fed(driven(v, chunks.drop_last(), results), chunks.last()),
            results,
        );
    }
}

/// Settling records does not change the continuation policy of a run.
proof fn lemma_settle_queue_keeps_policy(v: RunView, results: Seq<Returned>)
    ensures
        settle_queue(v, results).continue_on_error == v.continue_on_error,
    decreases v.queue.len(),
{
    if v.failure is Some || v.queue.len() == 0 || v.handled.len() >= results.len() {
    } else {
        lemma_settle_queue_keeps_policy(settled(v, results[v.handled.len() as int]), results);
    }
}

/// Where the run continues on errors and no transform gives an empty
/// output, as many records are seen as are skipped or emitted.
pub proof fn lemma_whole_run_balance(
    continue_on_error: bool,
    chunks: Seq<Seq<u8>>,
    results: Seq<Returned>,
)
    requires
        continue_on_error,
        forall|i: int| 0 <= i < results.len() ==> !is_empty_output(#[trigger] results[i]),
    ensures
        processed(continue_on_error, chunks, results).tally.seen == processed(
            continue_on_error,
            chunks,
            results,
        ).tally.skipped + processed(continue_on_error, chunks, results).tally.emitted,
{
    lemma_whole_run_accounts(continue_on_error, chunks, results);
    let end = processed(continue_on_error, chunks, results);
    let used = results.take(end.handled.len() as int);
    assert forall|i: int| 0 <= i < used.len() implies !is_empty_output(#[trigger] used[i]) by {
        assert(used[i] == results[i]);
    }
    lemma_counts_add_up(used);
}

/// Two runs have read alike: the same bytes consumed, the same text and
/// bytes buffered, the same records found, in the same order, and the same
/// failure or none.
pub open spec fn same_reading(a: RunView, b: RunView) -> bool {
    &&& a.open_left == b.open_left
    &&& a.carry == b.carry
    &&& a.text == b.text
    &&& a.closing == b.closing
    &&& a.tally.bytes == b.tally.bytes
    &&& a.failure == b.failure
    &&& discovered(a) == discovered(b)
}

/// Settling a record changes nothing of what was read, and the only
/// failure that it can bring is that of the transform.
proof fn lemma_settled_keeps_reading(v: RunView, returned: Returned)
    ensures
        same_reading(settled(v, returned), v) || transform_failed(settled(v, returned)),
        discovered(settled(v, returned)) == discovered(v),
        transform_failed(v) ==> settled(v, returned) == v,
{
    lemma_discovery_order(v, Seq::empty(), returned);
}

/// Settling the records that wait changes nothing of what was read, and
/// the only failure that it can bring is that of a transform.
proof fn lemma_settle_queue_keeps_reading(v: RunView, results: Seq<Returned>)
    ensures
        same_reading(settle_queue(v, results), v) || transform_failed(settle_queue(v, results)),
        discovered(settle_queue(v, results)) == discovered(v),
        transform_failed(v) ==> settle_queue(v, results) == v,
    decreases v.queue.len(),
{
    if v.failure is Some || v.queue.len() == 0 || v.handled.len() >= results.len() {
    } else {
        let r = results[v.handled.len() as int];
        lemma_settled_keeps_reading(v, r);
        lemma_settle_queue_keeps_reading(settled(v, r), results);
    }
}

/// Runs that have read alike read the next chunk alike, and a chunk only
/// adds to the records found.
proof fn lemma_fed_reads_alike(a: RunView, b: RunView, chunk: Seq<u8>)
    requires
        same_reading(a, b),
    ensures
        same_reading(fed(a, chunk), fed(b, chunk)),
        discovered(b).is_prefix_of(discovered(fed(b, chunk))),
{
    if accepts_chunks(a) && chunk.len() > 0 {
        assert(raw_of(a, chunk) == raw_of(b, chunk));
        assert(grown_text(a, chunk) == grown_text(b, chunk));
        assert(found(a, chunk) == found(b, chunk));
        if valid_utf8(decoded_of(a, chunk)) {
            assert(a.handled + (a.queue + found(a, chunk)) =~= discovered(a) + found(a, chunk));
            assert(b.handled + (b.queue + found(b, chunk)) =~= discovered(b) + found(b, chunk));
        }
    }
    assert(discovered(b).is_prefix_of(discovered(fed(b, chunk)))) by {
        if accepts_chunks(b) && chunk.len() > 0 && valid_utf8(decoded_of(b, chunk)) {
            assert(b.handled + (b.queue + found(b, chunk)) =~= discovered(b) + found(b, chunk));
        }
        assert(discovered(b) =~= discovered(b).subrange(0, discovered(b).len() as int));
    }
}

/// A run that settles its records after each chunk reads what a run reads
/// that settles none, until a failed transform aborts it, and finds no
/// record that the other does not find.
proof fn lemma_driven_reads_what_is_fed(v: RunView, chunks: Seq<Seq<u8>>, results: Seq<Returned>)
    ensures
        !transform_failed(driven(v, chunks, results)) ==> same_reading(
            driven(v, chunks, results),
            fed_all(v, chunks),
        ),
        discovered(driven(v, chunks, results)).is_prefix_of(discovered(fed_all(v, chunks))),
    decreases chunks.len(),
{
    if chunks.len() == 0 {
        assert(discovered(v) =~= discovered(v).subrange(0, discovered(v).len() as int));
    } else {
        let init = chunks.drop_last();
        let last = chunks.last();
        let d = driven(v, init, results);
        let f = fed_all(v, init);
        lemma_driven_reads_what_is_fed(v, init, results);
        lemma_settle_queue_keeps_reading(fed(d, last), results);
        if transform_failed(d) {
            assert(fed(d, last) == d);
            lemma_fed_reads_alike(f, f, last);
            let x = discovered(d);
            let y = discovered(f);
            let z = discovered(fed(f, last));
            assert(x.is_prefix_of(z)) by {
                assert(x =~= y.subrange(0, x.len() as int));
                assert(y =~= z.subrange(0, y.len() as int));
                assert(x =~= z.subrange(0, x.len() as int));
            }
        } else {
            lemma_fed_reads_alike(d, f, last);
            let z = discovered(fed(f, last));
            assert(z =~= z.subrange(0, z.len() as int));
        }
    }
}

/// A whole run hands the records of the stream to the transform: all of
/// them, in their order, unless a failed transform aborts it, and then all
/// up to the one that failed. A run that no transform aborts has read what
/// a run reads that settles no record: it has consumed the same bytes and
/// ends with the same failure or none.
pub proof fn lemma_whole_run_handles_the_stream(
    continue_on_error: bool,
    chunks: Seq<Seq<u8>>,
    results: Seq<Returned>,
)
    ensures
        processed(continue_on_error, chunks, results).handled.is_prefix_of(
            read_through(continue_on_error, chunks).queue,
        ),
        !transform_failed(processed(continue_on_error, chunks, results)) ==> {
            &&& processed(continue_on_error, chunks, results).handled + processed(
                continue_on_error,
                chunks,
                results,
            ).queue == read_through(continue_on_error, chunks).queue
            &&& processed(continue_on_error, chunks, results).failure == read_through(
                continue_on_error,
                chunks,
            ).failure
            &&& processed(continue_on_error, chunks, results).tally.bytes == read_through(
                continue_on_error,
                chunks,
            ).tally.bytes
        },
{
    let v = initial(continue_on_error);
    let d = driven(v, chunks, results);
    let f = fed_all(v, chunks);
    let end = processed(continue_on_error, chunks, results);
    let read = read_through(continue_on_error, chunks);
    lemma_driven_reads_what_is_fed(v, chunks, results);
    lemma_fed_all_handles_nothing(v, chunks);
    assert(discovered(read) =~= read.queue);
    assert(discovered(f) == discovered(read));
    assert(discovered(end) == discovered(d));
    assert(end.handled.is_prefix_of(read.queue)) by {
        let x = end.handled;
        let y = discovered(end);
        assert(x =~= y.subrange(0, x.len() as int));
        assert(y =~= read.queue.subrange(0, y.len() as int));
        assert(x =~= read.queue.subrange(0, x.len() as int));
    }
    if !transform_failed(end) {
        assert(!transform_failed(d));
        lemma_fed_reads_alike(d, f, Seq::empty());
    }
}

/// Reading settles nothing.
proof fn lemma_fed_all_handles_nothing(v: RunView, chunks: Seq<Seq<u8>>)
    ensures
        fed_all(v, chunks).handled == v.handled,
    decreases chunks.len(),
{
    if chunks.len() > 0 {
        lemma_fed_all_handles_nothing(v, chunks.drop_last());
    }
}

/// What the report of a whole run says of the stream. One result was given
/// for each record of the stream, in the order of the stream, up to and
/// with the first that aborted the run; each is an answer of the transform
/// for the record at its place. The output is what was written for these
/// results, in their order, with nothing before, between or after, and the
/// counts of records are theirs. A run that no transform aborted has been
/// given a result for every record of the stream, has consumed the bytes
/// that reading alone consumes, and ends with the failure that reading
/// alone ends with, or with none. A run that a transform aborted names the
/// record that failed and the cause, and no result before it is a failure.
pub proof fn lemma_report_covers_the_stream<F: Fn(&str) -> Result<String, String>>(
    report: RunReport,
    transform: F,
    continue_on_error: bool,
    chunks: Seq<Seq<u8>>,
    results: Seq<Returned>,
)
    requires
        is_report_of(report, transform, continue_on_error, chunks, results),
    ensures
        results.len() <= read_through(continue_on_error, chunks).queue.len(),
        forall|i: int|
            0 <= i < results.len() ==> gives(
                transform,
                #[trigger] read_through(continue_on_error, chunks).queue[i],
                results[i],
            ),
        report@.output == outputs_of(results, continue_on_error),
        report@.tally.seen == results.len(),
        report@.tally.emitted == outputs_in(results),
        report@.tally.skipped == if continue_on_error {
            failures_in(results)
        } else {
            0
        },
        match report@.failure {
            Some(Failure::Transform { record, cause }) => {
                &&& !continue_on_error
                &&& results.len() > 0
                &&& record == read_through(continue_on_error, chunks).queue[results.len() - 1]
                &&& results[results.len() - 1] == Err::<Seq<char>, Seq<char>>(cause)
                &&& forall|i: int| 0 <= i < results.len() - 1 ==> (#[trigger] results[i]) is Ok
            },
            _ => {
                &&& results.len() == read_through(continue_on_error, chunks).queue.len()
                &&& forall|i: int|
                    0 <= i < results.len() ==> !is_fatal(#[trigger] results[i], continue_on_error)
                &&& report@.failure == read_through(continue_on_error, chunks).failure
                &&& report@.tally.bytes == read_through(continue_on_error, chunks).tally.bytes
            },
        },
{
    let end = processed(continue_on_error, chunks, results);
    let all = read_through(continue_on_error, chunks).queue;
    lemma_whole_run_accounts(continue_on_error, chunks, results);
    lemma_whole_run_handles_the_stream(continue_on_error, chunks, results);
    assert(results.take(results.len() as int) =~= results);
    assert forall|i: int| 0 <= i < results.len() implies gives(
        transform,
        #[trigger] all[i],
        results[i],
    ) by {
        assert(all[i] == end.handled[i]);
    }
    if !transform_failed(end) {
        assert(end.queue.len() == 0);
        assert(end.handled + end.queue =~= end.handled);
    }
}

/// `transform` gives one result for each record.
pub open spec fn single_valued<F: Fn(&str) -> Result<String, String>>(transform: F) -> bool {
    forall|record: Seq<u8>, x: Returned, y: Returned|
        #![trigger gives(transform, record, x), gives(transform, record, y)]
        gives(transform, record, x) && gives(transform, record, y) ==> x == y
}

/// Chunk-size invariance of the reports. Where the transform gives one
/// result for each record, the report of a run over a stream cut into
/// chunks and the report of a run over the same stream as one chunk hold
/// the same output, the same counts of records and the same failure or
/// none; the transform was given the same records in the same order. Two
/// runs that are not aborted leave the very same report.
///
/// The inputs are those of [`lemma_chunking_invariance`].
pub proof fn lemma_reports_agree<F: Fn(&str) -> Result<String, String>>(
    cut: RunReport,
    whole: RunReport,
    transform: F,
    continue_on_error: bool,
    chunks: Seq<Seq<u8>>,
    cut_results: Seq<Returned>,
    whole_results: Seq<Returned>,
)
    requires
        single_valued(transform),
        is_report_of(cut, transform, continue_on_error, chunks, cut_results),
        is_report_of(whole, transform, continue_on_error, seq![joined(chunks)], whole_results),
        chunks.len() > 0,
        forall|i: int| 0 <= i < chunks.len() ==> chunks[i].len() > 0,
        forall|k: int|
            0 < k < chunks.len() ==> !fed_all(
                initial(continue_on_error),
                #[trigger] chunks.take(k),
            ).closing,
        fed(initial(continue_on_error), joined(chunks)).failure is None,
    ensures
        cut_results == whole_results,
        cut@.output == whole@.output,
        cut@.failure == whole@.failure,
        cut@.tally.seen == whole@.tally.seen,
        cut@.tally.emitted == whole@.tally.emitted,
        cut@.tally.skipped == whole@.tally.skipped,
        cut@.failure is None ==> cut@ == whole@,
{
    let v = initial(continue_on_error);
    let one = seq![joined(chunks)];
    lemma_chunking_invariance(v, chunks);
    assert(one.drop_last() =~= Seq::<Seq<u8>>::empty());
    assert(fed_all(v, one.drop_last()) == v);
    assert(fed_all(v, one) == fed_all(v, chunks));
    let all = read_through(continue_on_error, chunks).queue;
    assert(read_through(continue_on_error, one) == read_through(continue_on_error, chunks));
    lemma_report_covers_the_stream(cut, transform, continue_on_error, chunks, cut_results);
    lemma_report_covers_the_stream(whole, transform, continue_on_error, one, whole_results);
    let a = cut_results;
    let b = whole_results;
    assert forall|i: int| 0 <= i < a.len() && i < b.len() implies a[i] == b[i] by {
        assert(gives(transform, all[i], a[i]));
        assert(gives(transform, all[i], b[i]));
    }
    if a.len() < b.len() {
        assert(a[a.len() - 1] == b[a.len() - 1]);
    }
    if b.len() < a.len() {
        assert(a[b.len() - 1] == b[b.len() - 1]);
    }
    assert(a.len() == b.len());
    assert(a =~= b);
    lemma_outcome_chunking_invariance(continue_on_error, chunks, a);
}

/// Byte accounting of the whole run. A run that no transform aborts has
/// consumed at its end the bytes of all chunks that reading alone takes:
/// where neither a failure nor the closing marker comes before the last
/// chunk, that is the size of the input.
pub proof fn lemma_whole_run_bytes(
    continue_on_error: bool,
    chunks: Seq<Seq<u8>>,
    results: Seq<Returned>,
)
    requires
        !transform_failed(processed(continue_on_error, chunks, results)),
        forall|k: int|
            0 <= k < chunks.len() ==> accepts_chunks(
                fed_all(initial(continue_on_error), #[trigger] chunks.take(k)),
            ),
    ensures
        processed(continue_on_error, chunks, results).tally.bytes == joined(chunks).len(),
{
    lemma_whole_run_handles_the_stream(continue_on_error, chunks, results);
    lemma_bytes_accounted(initial(continue_on_error), chunks);
}

/// What a run has read after the first `q` bytes of a well-framed stream
/// arrived as one chunk: it has not failed, it is not closing before the
/// last byte, and with the last byte it has found the records that were
/// framed.
proof fn lemma_framed_prefix_read(
    continue_on_error: bool,
    open: Seq<u8>,
    records: Seq<Seq<u8>>,
    q: int,
)
    requires
        open.len() == OPEN_MARKER_LEN,
        well_framed(records),
        valid_utf8(framed(records)),
        0 < q <= (open + framed(records)).len(),
    ensures
        fed(initial(continue_on_error), (open + framed(records)).subrange(0, q)).failure is None,
        q < (open + framed(records)).len() ==> !fed(
            initial(continue_on_error),
            (open + framed(records)).subrange(0, q),
        ).closing,
        q == (open + framed(records)).len() ==> {
            &&& fed(initial(continue_on_error), open + framed(records)).closing
            &&& fed(initial(continue_on_error), open + framed(records)).queue == records
            &&& fed(initial(continue_on_error), open + framed(records)).tally.bytes == (open
                + framed(records)).len()
        },
{
    let text = framed(records);
    let stream = open + text;
    let part = stream.subrange(0, q);
    let v = initial(continue_on_error);
    let body = body_of(v, part);
    lemma_framed_text_splits(records);
    assert(raw_of(v, part) =~= body);
    if q <= 2 {
        assert(body =~= Seq::<u8>::empty());
        assert(decoded_of(v, part) =~= Seq::<u8>::empty());
        assert(grown_text(v, part) =~= Seq::<u8>::empty());
    } else {
        let rest = text.subrange(q - 2, text.len() as int);
        assert(body =~= text.subrange(0, q - 2));
        assert(body + rest =~= text);
        lemma_valid_text_survives_cut(body, rest);
        let cut = complete_len(body);
        assert(decoded_of(v, part) =~= text.subrange(0, cut));
        assert(grown_text(v, part) =~= text.subrange(0, cut));
        if q < stream.len() {
            lemma_unfinished_text_is_open(records, cut);
        } else {
            assert(part =~= stream);
            assert(body =~= text);
            assert(body[body.len() - 1] == text.last());
            assert(cut == text.len());
            assert(text.subrange(0, cut) =~= text);
            assert(records.drop_last().push(records.last()) =~= records);
            assert(v.queue + found(v, part) =~= records);
        }
    }
}

/// The first chunks of a stream in a row are the first bytes of the stream.
proof fn lemma_joined_is_prefix(chunks: Seq<Seq<u8>>, k: int)
    requires
        0 <= k <= chunks.len(),
        forall|i: int| 0 <= i < chunks.len() ==> chunks[i].len() > 0,
    ensures
        joined(chunks.take(k)).len() <= joined(chunks).len(),
        joined(chunks.take(k)) == joined(chunks).subrange(0, joined(chunks.take(k)).len() as int),
        k < chunks.len() ==> joined(chunks.take(k)).len() < joined(chunks).len(),
        k > 0 ==> joined(chunks.take(k)).len() > 0,
    decreases chunks.len() - k,
{
    if k < chunks.len() {
        lemma_joined_is_prefix(chunks, k + 1);
        assert(chunks.take(k + 1).drop_last() =~= chunks.take(k));
        assert(chunks.take(k + 1).last() == chunks[k]);
        let shorter = joined(chunks.take(k));
        let longer = joined(chunks.take(k + 1));
        assert(longer == shorter + chunks[k]);
        assert(shorter =~= joined(chunks).subrange(0, shorter.len() as int));
        if k > 0 {
            assert(chunks.take(k).last() == chunks[k - 1]);
        }
    } else {
        assert(chunks.take(k) =~= chunks);
        assert(joined(chunks).subrange(0, joined(chunks).len() as int) =~= joined(chunks));
        if k > 0 {
            assert(chunks.last().len() > 0);
        }
    }
}

/// What a run has read after the first `k` chunks of a well-framed stream.
proof fn lemma_framed_chunks_read(
    continue_on_error: bool,
    chunks: Seq<Seq<u8>>,
    open: Seq<u8>,
    records: Seq<Seq<u8>>,
    k: int,
)
    requires
        0 < k <= chunks.len(),
        forall|i: int| 0 <= i < chunks.len() ==> chunks[i].len() > 0,
        open.len() == OPEN_MARKER_LEN,
        well_framed(records),
        valid_utf8(framed(records)),
        joined(chunks) == open + framed(records),
    ensures
        fed_all(initial(continue_on_error), chunks.take(k)) == fed(
            initial(continue_on_error),
            joined(chunks.take(k)),
        ),
        fed(initial(continue_on_error), joined(chunks.take(k))).failure is None,
        k < chunks.len() ==> !fed_all(initial(continue_on_error), chunks.take(k)).closing,
    decreases k,
{
    let v = initial(continue_on_error);
    let first = chunks.take(k);
    assert forall|j: int| 0 < j < first.len() && !v.closing implies !fed_all(
        v,
        #[trigger] first.take(j),
    ).closing by {
        lemma_framed_chunks_read(continue_on_error, chunks, open, records, j);
        assert(first.take(j) =~= chunks.take(j));
    }
    assert forall|i: int| 0 <= i < first.len() implies first[i].len() > 0 by {
        assert(first[i] == chunks[i]);
    }
    lemma_joined_is_prefix(chunks, k);
    let q = joined(first).len() as int;
    lemma_framed_prefix_read(continue_on_error, open, records, q);
    lemma_chunking_invariance(v, first);
}

/// A well-framed stream is read as it was framed, however it is cut into
/// chunks. Where the stream is two bytes of opening marker, then records
/// without a line feed with a delimiter between them, then the closing
/// marker, all of it valid UTF-8, a run finds exactly these records, in
/// their order, the last without the marker; no chunk but the last closes
/// the stream, no chunk fails, and at the end the run is closing and has
/// consumed the whole stream.
pub proof fn lemma_framed_stream_is_read(
    continue_on_error: bool,
    chunks: Seq<Seq<u8>>,
    open: Seq<u8>,
    records: Seq<Seq<u8>>,
)
    requires
        chunks.len() > 0,
        forall|i: int| 0 <= i < chunks.len() ==> chunks[i].len() > 0,
        open.len() == OPEN_MARKER_LEN,
        well_framed(records),
        valid_utf8(framed(records)),
        joined(chunks) == open + framed(records),
    ensures
        forall|k: int|
            0 < k < chunks.len() ==> !fed_all(
                initial(continue_on_error),
                #[trigger] chunks.take(k),
            ).closing,
        fed(initial(continue_on_error), joined(chunks)).failure is None,
        read_through(continue_on_error, chunks).queue == records,
        read_through(continue_on_error, chunks).failure is None,
        read_through(continue_on_error, chunks).closing,
        read_through(continue_on_error, chunks).tally.bytes == joined(chunks).len(),
{
    let v = initial(continue_on_error);
    assert forall|k: int| 0 < k < chunks.len() implies !fed_all(
        v,
        #[trigger] chunks.take(k),
    ).closing by {
        lemma_framed_chunks_read(continue_on_error, chunks, open, records, k);
    }
    lemma_framed_chunks_read(continue_on_error, chunks, open, records, chunks.len() as int);
    assert(chunks.take(chunks.len() as int) =~= chunks);
    let stream = open + framed(records);
    lemma_framed_prefix_read(continue_on_error, open, records, stream.len() as int);
    assert(stream.subrange(0, stream.len() as int) =~= stream);
}

/// The report of a run over a well-framed stream. Whatever the chunks, the
/// transform was given the framed records in their order, each once, up to
/// and with the first that aborted the run; the output holds what was
/// written for them and nothing else. A run that no transform aborted has
/// been given every record, has not failed, and has consumed the whole
/// stream.
pub proof fn lemma_report_of_framed_stream<F: Fn(&str) -> Result<String, String>>(
    report: RunReport,
    transform: F,
    continue_on_error: bool,
    chunks: Seq<Seq<u8>>,
    results: Seq<Returned>,
    open: Seq<u8>,
    records: Seq<Seq<u8>>,
)
    requires
        is_report_of(report, transform, continue_on_error, chunks, results),
        chunks.len() > 0,
        forall|i: int| 0 <= i < chunks.len() ==> chunks[i].len() > 0,
        open.len() == OPEN_MARKER_LEN,
        well_framed(records),
        valid_utf8(framed(records)),
        joined(chunks) == open + framed(records),
    ensures
        results.len() <= records.len(),
        forall|i: int|
            0 <= i < results.len() ==> gives(transform, #[trigger] records[i], results[i]),
        report@.output == outputs_of(results, continue_on_error),
        report@.tally.seen == results.len(),
        report@.tally.emitted == outputs_in(results),
        report@.tally.skipped == if continue_on_error {
            failures_in(results)
        } else {
            0
        },
        match report@.failure {
            Some(Failure::Transform { record, cause }) => {
                &&& !continue_on_error
                &&& results.len() > 0
                &&& record == records[results.len() - 1]
                &&& results[results.len() - 1] == Err::<Seq<char>, Seq<char>>(cause)
                &&& forall|i: int| 0 <= i < results.len() - 1 ==> (#[trigger] results[i]) is Ok
            },
            Some(_) => false,
            None => {
                &&& results.len() == records.len()
                &&& forall|i: int|
                    0 <= i < results.len() ==> !is_fatal(#[trigger] results[i], continue_on_error)
                &&& report@.tally.bytes == joined(chunks).len()
            },
        },
{
    lemma_framed_stream_is_read(continue_on_error, chunks, open, records);
    lemma_report_covers_the_stream(report, transform, continue_on_error, chunks, results);
}

} // verus!
