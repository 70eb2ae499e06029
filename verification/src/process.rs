//! A whole run over chunks that are already in memory.
use vstd::prelude::*;
use vstd::string::StringSliceAdditionalSpecFns;
use crate::model::{fed, initial, transform_failed, Returned};
use crate::runs::{driven, joined, processed, settle_queue};
use crate::run::{report_of, returned_view, Run, RunReport};

verus! {

/// `returned` is what `transform` can give for the record with the text
/// `record`.
pub open spec fn gives<F: Fn(&str) -> Result<String, String>>(
    transform: F,
    record: Seq<u8>,
    returned: Returned,
) -> bool {
    exists|text: &str, raw: Result<String, String>|
        #![trigger call_ensures(transform, (text,), raw)]
        text.spec_bytes() == record && returned_view(raw) == returned && call_ensures(
            transform,
            (text,),
            raw,
        )
}

/// The chunks as byte sequences.
pub open spec fn chunks_view(chunks: Seq<Vec<u8>>) -> Seq<Seq<u8>> {
    chunks.map_values(|c: Vec<u8>| c@)
}

/// `report` is what the run over `chunks` leaves behind where `transform`
/// gave `results`: one result for each record handed to it, in the order
/// of discovery. Every record found was handed to it: at the end none
/// waits, unless a failed transform has aborted the run.
pub open spec fn is_report_of<F: Fn(&str) -> Result<String, String>>(
    report: RunReport,
    transform: F,
    continue_on_error: bool,
    chunks: Seq<Seq<u8>>,
    results: Seq<Returned>,
) -> bool {
    let end = processed(continue_on_error, chunks, results);
    &&& results.len() == end.handled.len()
    &&& (end.queue.len() == 0 || transform_failed(end))
    &&& forall|i: int|
        0 <= i < results.len() ==> gives(transform, #[trigger] end.handled[i], results[i])
    &&& report@ == report_of(end)
}

/// `full` starts with `results`.
spec fn extends(full: Seq<Returned>, results: Seq<Returned>) -> bool {
    results.is_prefix_of(full)
}

/// Chunks in a row are at least as long as fewer of them.
proof fn lemma_joined_grows(chunks: Seq<Seq<u8>>, k: int)
    requires
        0 <= k <= chunks.len(),
    ensures
        joined(chunks.take(k)).len() <= joined(chunks).len(),
        k < chunks.len() ==> joined(chunks.take(k + 1)).len() == joined(chunks.take(k)).len()
            + chunks[k].len(),
    decreases chunks.len() - k,
{
    if k < chunks.len() {
        lemma_joined_grows(chunks, k + 1);
        assert(chunks.take(k + 1).drop_last() =~= chunks.take(k));
    } else {
        assert(chunks.take(k) =~= chunks);
    }
}

/// Runs the whole pipeline over a stream that was read as `chunks`: each
/// chunk is decoded and split, `transform` is called on each record in the
/// order of discovery, and the continuation policy is applied to what it
/// gives. After the last chunk the source counts as exhausted.
///
/// The report is that of the state machine for the results that
/// `transform` gave, whatever they were. Every record found is handed to
/// the transform and settled before the next chunk is read, so that at the
/// end no record waits unless a failed transform has aborted the run. The
/// output holds what was written for the records in their order, and the
/// run is aborted by the first fatal error, by bytes that are no text, or
/// by chunks that end before the closing marker.
pub fn process<F: Fn(&str) -> Result<String, String>>(
    chunks: &Vec<Vec<u8>>,
    transform: F,
    continue_on_error: bool,
) -> (report: RunReport)
    requires
        forall|text: &str| call_requires(transform, (text,)),
        joined(chunks_view(chunks@)).len() <= u64::MAX,
    ensures
        exists|results: Seq<Returned>| #[trigger]
            is_report_of(report, transform, continue_on_error, chunks_view(chunks@), results),
{
    let ghost all = chunks_view(chunks@);
    let ghost start = initial(continue_on_error);
    let mut run = Run::new(continue_on_error);
    let ghost mut results: Seq<Returned> = Seq::empty();
    let mut i: usize = 0;
    proof {
        assert(all.take(0) =~= Seq::<Seq<u8>>::empty());
        lemma_joined_grows(all, 0);
        run.lemma_wf();
    }
    while i < chunks.len()
        invariant
            i <= chunks.len(),
            all == chunks_view(chunks@),
            start == initial(continue_on_error),
            forall|text: &str| call_requires(transform, (text,)),
            joined(all).len() <= u64::MAX,
            run.wf(),
            run@.tally.bytes <= joined(all.take(i as int)).len(),
            results.len() == run@.handled.len(),
            run@.queue.len() == 0 || transform_failed(run@),
            forall|k: int|
                0 <= k < results.len() ==> gives(transform, #[trigger] run@.handled[k], results[k]),
            forall|full: Seq<Returned>| #[trigger]
                extends(full, results) ==> run@ == driven(start, all.take(i as int), full),
        decreases chunks.len() - i,
    {
        let ghost before = run@;
        let ghost upto = all.take(i + 1);
        proof {
            lemma_joined_grows(all, i as int);
            lemma_joined_grows(all, i + 1);
            assert(all[i as int] == chunks@[i as int]@);
            assert(upto.drop_last() =~= all.take(i as int));
            assert(upto.last() == chunks@[i as int]@);
        }
        run.feed(chunks[i].as_slice());
        loop
            invariant
                i < chunks.len(),
                forall|text: &str| call_requires(transform, (text,)),
                run.wf(),
                run@.tally.bytes == fed(before, chunks@[i as int]@).tally.bytes,
                results.len() == run@.handled.len(),
                run@.failure is None || run@.queue.len() == 0 || transform_failed(run@),
                forall|k: int|
                    0 <= k < results.len() ==> gives(
                        transform,
                        #[trigger] run@.handled[k],
                        results[k],
                    ),
                forall|full: Seq<Returned>| #[trigger]
                    extends(full, results) ==> settle_queue(run@, full) == driven(
                        start,
                        upto,
                        full,
                    ),
            ensures
                run@.queue.len() == 0 || transform_failed(run@),
            decreases run@.queue.len(),
        {
            let ghost waiting = run@;
            let ghost earlier = results;
            let raw = match run.next_record() {
                Some(record) => {
                    let text = record.as_str();
                    let raw = transform(text);
                    proof {
                        results = results.push(returned_view(raw));
                        assert(gives(transform, waiting.queue[0], returned_view(raw)));
                    }
                    raw
                },
                None => {
                    break ;
                },
            };
            run.settle(raw);
            proof {
                assert forall|full: Seq<Returned>| #[trigger] extends(full, results) implies
                    settle_queue(run@, full) == driven(start, upto, full) by {
                    assert(extends(full, earlier));
                    assert(full[earlier.len() as int] == results[earlier.len() as int]);
                }
                assert forall|k: int| 0 <= k < results.len() implies gives(
                    transform,
                    #[trigger] run@.handled[k],
                    results[k],
                ) by {
                    if k < earlier.len() {
                        assert(run@.handled[k] == waiting.handled[k]);
                        assert(results[k] == earlier[k]);
                    }
                }
            }
        }
        i = i + 1;
    }
    proof {
        assert(all.take(i as int) =~= all);
        assert(extends(results, results));
    }
    run.feed(&[]);
    let report = run.into_report();
    proof {
        assert(is_report_of(report, transform, continue_on_error, all, results));
    }
    report
}

} // verus!
