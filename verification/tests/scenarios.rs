use dump_filter::counters::RunCounters;
use dump_filter::error::{RunError, Stage};
use dump_filter::model::{Action, Phase};
use dump_filter::process::process;
use dump_filter::run::Run;

/// Stands in for the filter `.id`: the value of the one field "id" of a flat
/// object, as JSON, with a line feed behind it.
fn project_id(record: &str) -> Result<String, String> {
    let body = record.trim();
    if !body.starts_with('{') || !body.ends_with('}') {
        return Err(format!("not an object: {}", body));
    }
    let inner = &body[1..body.len() - 1];
    match inner.strip_prefix("\"id\":") {
        Some(value) if !value.is_empty() => Ok(format!("{}\n", value)),
        _ => Err(format!("no id in {}", body)),
    }
}

/// Cuts `stream` into chunks of at most `capacity` bytes.
fn chunked(stream: &[u8], capacity: usize) -> Vec<Vec<u8>> {
    let mut chunks = Vec::new();
    let mut at = 0;
    while at < stream.len() {
        let end = if stream.len() - at < capacity { stream.len() } else { at + capacity };
        chunks.push(stream[at..end].to_vec());
        at = end;
    }
    chunks
}

/// Runs the loop that the controller asks for: chunks from `chunks`, then
/// an empty chunk for the exhausted source.
fn drive(run: &mut Run, chunks: &[Vec<u8>]) -> Vec<u8> {
    let mut output = Vec::new();
    let mut at = 0;
    let mut action = run.next_action();
    loop {
        action = match action {
            Action::Read => {
                if at < chunks.len() {
                    at += 1;
                    run.feed(&chunks[at - 1])
                } else {
                    run.feed(&[])
                }
            }
            Action::Transform => {
                let record = run.next_record().unwrap().clone();
                run.settle(project_id(&record))
            }
            Action::Flush => {
                output.extend_from_slice(&run.flush());
                run.next_action()
            }
            Action::Finish | Action::Fail => return output,
        };
    }
}

#[test]
fn two_records_in_one_chunk() {
    let stream = b"[\n{\"id\":\"Q1\"},\n{\"id\":\"Q2\"}\n]".to_vec();
    let mut run = Run::new(false);
    let output = drive(&mut run, &[stream.clone()]);
    assert_eq!(output, b"\"Q1\"\n\"Q2\"\n".to_vec());
    assert_eq!(run.phase(), Phase::Done);
    assert!(run.failure().is_none());
    assert_eq!(
        run.counters(),
        RunCounters {
            bytes_consumed: stream.len() as u64,
            records_seen: 2,
            records_emitted: 2,
            records_skipped: 0,
        }
    );
}

#[test]
fn two_records_in_chunks_of_five_bytes() {
    let stream = b"[\n{\"id\":\"Q1\"},\n{\"id\":\"Q2\"}\n]".to_vec();
    let mut whole = Run::new(false);
    let expected = drive(&mut whole, &[stream.clone()]);
    let mut run = Run::new(false);
    let output = drive(&mut run, &chunked(&stream, 5));
    assert_eq!(output, b"\"Q1\"\n\"Q2\"\n".to_vec());
    assert_eq!(output, expected);
    assert_eq!(run.counters(), whole.counters());
    assert_eq!(run.counters().records_seen, 2);
    assert_eq!(run.counters().records_emitted, 2);
    assert_eq!(run.phase(), Phase::Done);
}

#[test]
fn malformed_second_record_is_replaced_by_the_sentinel() {
    let stream = b"[\n{\"id\":\"Q1\"},\n{\"name\":\"x\"}\n]".to_vec();
    let mut run = Run::new(true);
    let output = drive(&mut run, &[stream]);
    assert_eq!(output, b"\"Q1\"\nnull".to_vec());
    assert_eq!(run.counters().records_skipped, 1);
    assert_eq!(run.counters().records_seen, 2);
    assert_eq!(run.counters().records_emitted, 1);
    assert_eq!(run.phase(), Phase::Done);
}

#[test]
fn test_process() {
    // a dump whose second entity is no valid JSON, filtered by `.id`
    let stream = b"[\n{\"id\":\"Q1\"},\n{\"id\":,\n{\"id\":\"Q3\"}\n]".to_vec();
    let report = process(&chunked(&stream, 7), project_id, true);
    assert_eq!(report.output, b"\"Q1\"\nnull\"Q3\"\n".to_vec());
    assert!(report.failure.is_none());
    assert_eq!(report.counters.bytes_consumed, stream.len() as u64);
    assert_eq!(report.counters.records_seen, 3);
    assert_eq!(report.counters.records_emitted, 2);
    assert_eq!(report.counters.records_skipped, 1);
}

#[test]
fn process_two_records_in_one_chunk() {
    let stream = b"[\n{\"id\":\"Q1\"},\n{\"id\":\"Q2\"}\n]".to_vec();
    let report = process(&vec![stream.clone()], project_id, false);
    assert_eq!(report.output, b"\"Q1\"\n\"Q2\"\n".to_vec());
    assert!(report.failure.is_none());
    assert_eq!(
        report.counters,
        RunCounters {
            bytes_consumed: 28,
            records_seen: 2,
            records_emitted: 2,
            records_skipped: 0,
        }
    );
}

#[test]
fn process_gives_the_same_for_chunks_of_five_bytes() {
    let stream = b"[\n{\"id\":\"Q1\"},\n{\"id\":\"Q2\"}\n]".to_vec();
    let whole = process(&vec![stream.clone()], project_id, false);
    let pieces = process(&chunked(&stream, 5), project_id, false);
    assert_eq!(pieces.output, whole.output);
    assert_eq!(pieces.counters, whole.counters);
    assert_eq!(pieces.failure, whole.failure);
    assert_eq!(pieces.output, b"\"Q1\"\n\"Q2\"\n".to_vec());
}

#[test]
fn process_replaces_a_malformed_record_by_the_sentinel() {
    let stream = b"[\n{\"id\":\"Q1\"},\n{\"name\":\"x\"}\n]".to_vec();
    let report = process(&vec![stream], project_id, true);
    assert_eq!(report.output, b"\"Q1\"\nnull".to_vec());
    assert_eq!(report.counters.records_skipped, 1);
    assert!(report.failure.is_none());
}

#[test]
fn process_stops_at_the_first_failure() {
    let stream = b"[\n{\"id\":\"Q1\"},\n{\"name\":\"x\"},\n{\"id\":\"Q3\"}\n]".to_vec();
    let report = process(&chunked(&stream, 3), project_id, false);
    assert_eq!(report.output, b"\"Q1\"\n".to_vec());
    assert_eq!(
        report.failure,
        Some(RunError::Transform(dump_filter::transform::TransformError {
            record_text: "{\"name\":\"x\"}".to_string(),
            cause: "no id in {\"name\":\"x\"}".to_string(),
        }))
    );
    assert_eq!(report.counters.records_seen, 2);
    assert_eq!(report.counters.records_emitted, 1);
}

#[test]
fn process_calls_the_transform_once_for_each_record_in_order() {
    let seen = std::cell::RefCell::new(Vec::new());
    let stream = b"[\na,\nb,\n,\nd\n]".to_vec();
    let report = process(
        &chunked(&stream, 2),
        |record: &str| {
            seen.borrow_mut().push(record.to_string());
            Ok(format!("<{}>", record))
        },
        false,
    );
    assert_eq!(*seen.borrow(), vec!["a", "b", "", "d"]);
    assert_eq!(report.output, b"<a><b><><d>".to_vec());
    assert_eq!(report.counters.records_seen, 4);
    assert_eq!(report.counters.records_emitted, 4);
}

#[test]
fn process_without_closing_marker_ends_too_early() {
    let report = process(&vec![b"[\na,\nb".to_vec()], project_id, true);
    assert_eq!(report.failure, Some(RunError::UnexpectedEof));
    assert_eq!(report.output, b"null".to_vec());
    assert_eq!(report.counters.bytes_consumed, 6);
    let report = process(&Vec::new(), project_id, true);
    assert_eq!(report.failure, Some(RunError::UnexpectedEof));
    assert!(report.output.is_empty());
    assert_eq!(report.counters, RunCounters::new());
}

#[test]
fn process_reads_nothing_behind_the_closing_marker() {
    let chunks = vec![b"[\na\n]".to_vec(), b",\nb\n]".to_vec()];
    let report = process(&chunks, |r: &str| Ok(r.to_string()), false);
    assert_eq!(report.output, b"a".to_vec());
    assert!(report.failure.is_none());
    assert_eq!(report.counters.bytes_consumed, 5);
    assert_eq!(report.counters.records_seen, 1);
}

#[test]
fn process_reports_bytes_that_are_no_text() {
    let chunks = vec![b"[\na,\n".to_vec(), b"\xff,\nb\n]".to_vec()];
    let report = process(&chunks, |r: &str| Ok(r.to_string()), true);
    assert_eq!(report.failure, Some(RunError::Decode));
    assert_eq!(report.output, b"a".to_vec());
    assert_eq!(report.counters.records_seen, 1);
}

#[test]
fn first_failure_aborts_and_writes_nothing_more() {
    let stream = b"[\n{\"id\":\"Q1\"},\n{\"name\":\"x\"},\n{\"id\":\"Q3\"}\n]".to_vec();
    let mut run = Run::new(false);
    let output = drive(&mut run, &[stream]);
    assert_eq!(output, b"\"Q1\"\n".to_vec());
    assert_eq!(run.phase(), Phase::Aborted);
    match run.failure() {
        Some(RunError::Transform(e)) => {
            assert_eq!(e.record_text, "{\"name\":\"x\"}");
            assert_eq!(e.cause, "no id in {\"name\":\"x\"}");
        }
        other => panic!("unexpected failure {:?}", other),
    }
    assert_eq!(run.failure().unwrap().stage(), Stage::Transform);
    assert_eq!(
        run.failure().unwrap().record_text().map(|s| s.as_str()),
        Some("{\"name\":\"x\"}")
    );
    assert_eq!(run.counters().records_seen, 2);
    assert_eq!(run.counters().records_emitted, 1);
    assert_eq!(run.counters().records_skipped, 0);
    // the aborted run ignores what comes after
    assert_eq!(run.feed(b"{\"id\":\"Q9\"}\n]"), Action::Fail);
    assert_eq!(run.settle(Ok("late".to_string())), Action::Fail);
    assert!(run.flush().is_empty());
    assert!(run.next_record().is_none());
}

#[test]
fn seen_is_skipped_plus_emitted_when_the_run_continues() {
    let stream =
        b"[\n{\"id\":1},\n{\"x\":1},\n{\"id\":2},\nbroken,\n{\"id\":3}\n]".to_vec();
    let mut run = Run::new(true);
    let output = drive(&mut run, &chunked(&stream, 4));
    assert_eq!(output, b"1\nnull2\nnull3\n".to_vec());
    let c = run.counters();
    assert_eq!(c.records_seen, 5);
    assert_eq!(c.records_skipped, 2);
    assert_eq!(c.records_emitted, 3);
    assert_eq!(c.records_seen, c.records_skipped + c.records_emitted);
    assert_eq!(run.phase(), Phase::Done);
}

#[test]
fn every_chunk_size_gives_the_same_run() {
    let stream =
        "[\n{\"id\":\"Qé\"},\n{\"id\":\"日本語\"},\n{\"id\":\"𝄞\"},\n{\"id\":\"a,b\"}\n]".as_bytes().to_vec();
    let mut whole = Run::new(false);
    let expected = drive(&mut whole, &[stream.clone()]);
    assert_eq!(
        expected,
        "\"Qé\"\n\"日本語\"\n\"𝄞\"\n\"a,b\"\n".as_bytes().to_vec()
    );
    for capacity in 1..stream.len() + 1 {
        let mut run = Run::new(false);
        let output = drive(&mut run, &chunked(&stream, capacity));
        assert_eq!(output, expected);
        assert_eq!(run.counters(), whole.counters());
        assert_eq!(run.phase(), Phase::Done);
    }
}

#[test]
fn bytes_consumed_is_the_sum_of_the_chunk_lengths() {
    let stream = b"[\n{\"id\":\"Q1\"},\n{\"id\":\"Q2\"}\n]".to_vec();
    let mut run = Run::new(false);
    assert_eq!(run.counters().bytes_consumed, 0);
    assert_eq!(run.feed(&stream[..1]), Action::Read);
    assert_eq!(run.counters().bytes_consumed, 1);
    assert_eq!(run.phase(), Phase::Priming);
    assert_eq!(run.feed(&stream[1..2]), Action::Read);
    assert_eq!(run.counters().bytes_consumed, 2);
    assert_eq!(run.phase(), Phase::Streaming);
    assert_eq!(run.feed(&stream[2..20]), Action::Transform);
    assert_eq!(run.counters().bytes_consumed, 20);
    assert_eq!(run.settle(Ok("a".to_string())), Action::Flush);
    assert_eq!(run.counters().bytes_consumed, 20);
    assert_eq!(run.flush(), b"a".to_vec());
    assert_eq!(run.next_action(), Action::Read);
    assert_eq!(run.feed(&stream[20..]), Action::Transform);
    assert_eq!(run.counters().bytes_consumed, stream.len() as u64);
    assert_eq!(run.phase(), Phase::Finalizing);
}

#[test]
fn source_that_ends_before_the_closing_marker() {
    let mut run = Run::new(true);
    let output = drive(&mut run, &[b"[\n{\"id\":\"Q1\"},\n{\"id\":\"Q2\"}".to_vec()]);
    assert_eq!(output, b"\"Q1\"\n".to_vec());
    assert_eq!(run.phase(), Phase::Aborted);
    assert_eq!(run.failure(), Some(&RunError::UnexpectedEof));
    assert_eq!(run.failure().unwrap().stage(), Stage::SourceRead);
    assert!(run.failure().unwrap().record_text().is_none());
    assert_eq!(run.counters().records_seen, 1);
}

#[test]
fn empty_source_ends_too_early() {
    let mut run = Run::new(false);
    assert_eq!(run.phase(), Phase::Priming);
    assert_eq!(run.next_action(), Action::Read);
    assert_eq!(run.feed(&[]), Action::Fail);
    assert_eq!(run.failure(), Some(&RunError::UnexpectedEof));
    assert_eq!(run.counters().bytes_consumed, 0);
}

#[test]
fn bytes_that_are_not_text_abort_the_run() {
    let mut run = Run::new(true);
    assert_eq!(run.feed(b"[\n{\"id\":\"\xff\"},\n"), Action::Fail);
    assert_eq!(run.failure(), Some(&RunError::Decode));
    assert_eq!(run.failure().unwrap().stage(), Stage::Decode);
    assert_eq!(run.phase(), Phase::Aborted);
    assert!(run.next_record().is_none());
    assert_eq!(run.counters().bytes_consumed, 14);
    assert_eq!(run.counters().records_seen, 0);
}

#[test]
fn character_cut_by_a_chunk_boundary_is_no_error() {
    // "é" is C3 A9; the boundary falls between the two bytes
    let mut run = Run::new(false);
    assert_eq!(run.feed(b"[\n{\"id\":\"\xc3"), Action::Read);
    assert!(run.failure().is_none());
    assert_eq!(run.feed(b"\xa9\"},\n"), Action::Transform);
    assert_eq!(run.next_record().map(|s| s.as_str()), Some("{\"id\":\"é\"}"));
}

#[test]
fn character_that_is_never_completed_is_an_error() {
    let mut run = Run::new(false);
    assert_eq!(run.feed(b"[\n{\"id\":\"\xe6\x97"), Action::Read);
    assert_eq!(run.feed(b"x\"},\n"), Action::Fail);
    assert_eq!(run.failure(), Some(&RunError::Decode));
}

#[test]
fn delimiter_cut_by_a_chunk_boundary() {
    let mut run = Run::new(false);
    assert_eq!(run.feed(b"[\nfirst,"), Action::Read);
    assert!(run.next_record().is_none());
    assert_eq!(run.feed(b"\nsecond"), Action::Transform);
    assert_eq!(run.next_record().map(|s| s.as_str()), Some("first"));
    assert_eq!(run.settle(Ok(String::new())), Action::Read);
    assert_eq!(run.counters().records_seen, 1);
    assert_eq!(run.counters().records_emitted, 0);
    assert_eq!(run.counters().records_skipped, 0);
}

#[test]
fn closing_marker_cut_by_a_chunk_boundary() {
    let mut run = Run::new(false);
    assert_eq!(run.feed(b"[\nlast\n"), Action::Read);
    assert_eq!(run.feed(b"]"), Action::Transform);
    assert_eq!(run.phase(), Phase::Finalizing);
    assert_eq!(run.next_record().map(|s| s.as_str()), Some("last"));
    assert_eq!(run.settle(Ok("x".to_string())), Action::Flush);
    assert_eq!(run.phase(), Phase::Finalizing);
    assert_eq!(run.flush(), b"x".to_vec());
    assert_eq!(run.next_action(), Action::Finish);
    assert_eq!(run.phase(), Phase::Done);
    // a finished run reads no more
    assert_eq!(run.feed(b"more,\n"), Action::Finish);
    assert_eq!(run.counters().bytes_consumed, 8);
}

#[test]
fn two_delimiters_in_a_row_give_an_empty_record() {
    let mut run = Run::new(true);
    assert_eq!(run.feed(b"[\na,\n,\nb\n]"), Action::Transform);
    assert_eq!(run.phase(), Phase::Streaming);
    assert_eq!(run.next_record().map(|s| s.as_str()), Some("a"));
    run.settle(Ok("1".to_string()));
    assert_eq!(run.next_record().map(|s| s.as_str()), Some(""));
    assert_eq!(run.settle(Err("empty".to_string())), Action::Transform);
    assert_eq!(run.phase(), Phase::Finalizing);
    assert_eq!(run.next_record().map(|s| s.as_str()), Some("b"));
    assert_eq!(run.settle(Ok("2".to_string())), Action::Flush);
    assert_eq!(run.flush(), b"1null2".to_vec());
    assert_eq!(run.counters().records_seen, 3);
    assert_eq!(run.counters().records_skipped, 1);
    assert_eq!(run.counters().records_emitted, 2);
}

#[test]
fn stream_with_one_empty_record() {
    let mut run = Run::new(false);
    assert_eq!(run.feed(b"[\n\n]"), Action::Transform);
    assert_eq!(run.next_record().map(|s| s.as_str()), Some(""));
    assert_eq!(run.settle(Ok(String::new())), Action::Finish);
    assert_eq!(run.phase(), Phase::Done);
    assert_eq!(run.counters().records_seen, 1);
    assert_eq!(run.counters().records_emitted, 0);
}

#[test]
fn opening_marker_is_discarded_unread() {
    let mut run = Run::new(false);
    assert_eq!(run.feed(b"xya,\n"), Action::Transform);
    assert_eq!(run.next_record().map(|s| s.as_str()), Some("a"));
}

#[test]
fn collaborator_errors_abort_the_run() {
    let mut run = Run::new(true);
    run.feed(b"[\na,\n");
    run.settle(Ok("out".to_string()));
    assert_eq!(
        run.abort(RunError::Sink { cause: "disk full".to_string() }),
        Action::Flush
    );
    assert_eq!(run.phase(), Phase::Aborted);
    assert_eq!(run.flush(), b"out".to_vec());
    assert_eq!(run.next_action(), Action::Fail);
    assert_eq!(run.failure().unwrap().stage(), Stage::SinkWrite);
    // the first failure stays
    run.abort(RunError::Source { cause: "corrupted".to_string() });
    assert_eq!(run.failure(), Some(&RunError::Sink { cause: "disk full".to_string() }));

    let mut run = Run::new(true);
    assert_eq!(
        run.abort(RunError::FilterCompile { cause: "syntax".to_string() }),
        Action::Fail
    );
    assert_eq!(run.failure().unwrap().stage(), Stage::FilterCompile);
    let mut run = Run::new(true);
    run.abort(RunError::Source { cause: "corrupted".to_string() });
    assert_eq!(run.failure().unwrap().stage(), Stage::SourceRead);
    assert_eq!(run.feed(b"[\na,\n"), Action::Fail);
    assert_eq!(run.counters().bytes_consumed, 0);
}

#[test]
fn settle_without_a_record_changes_nothing() {
    let mut run = Run::new(false);
    assert_eq!(run.settle(Ok("x".to_string())), Action::Read);
    assert_eq!(run.counters(), RunCounters::new());
    assert!(run.flush().is_empty());
}

#[test]
fn comma_before_the_closing_marker_reads_as_a_delimiter() {
    // "a," and the line feed of the closing marker make a delimiter, so the
    // record is "a" and the stream is never closed
    let report = process(&vec![b"[\na,\n]".to_vec()], |r: &str| Ok(format!("<{}>", r)), false);
    assert_eq!(report.output, b"<a>".to_vec());
    assert_eq!(report.failure, Some(RunError::UnexpectedEof));
    assert_eq!(report.counters.records_seen, 1);
}

#[test]
fn process_hands_every_record_to_the_transform() {
    let stream = b"[\nr0,\nr1,\nr2,\nr3,\nr4\n]".to_vec();
    for capacity in 1..stream.len() + 1 {
        let calls = std::cell::RefCell::new(Vec::new());
        let report = process(
            &chunked(&stream, capacity),
            |record: &str| {
                calls.borrow_mut().push(record.to_string());
                Ok(format!("{};", record))
            },
            false,
        );
        assert_eq!(*calls.borrow(), vec!["r0", "r1", "r2", "r3", "r4"]);
        assert_eq!(report.output, b"r0;r1;r2;r3;r4;".to_vec());
        assert!(report.failure.is_none());
        assert_eq!(report.counters.records_seen, 5);
        assert_eq!(report.counters.records_emitted, 5);
        assert_eq!(report.counters.bytes_consumed, stream.len() as u64);
    }
}
