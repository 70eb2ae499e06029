use dump_filter::reassembly::{count_incomplete, DecodeError, ReassemblyBuffer};
use dump_filter::sink::OutputSink;
use dump_filter::splitter::{is_terminal, split};
use dump_filter::text::slice_text;
use dump_filter::transform::{
    adapt, apply_policy, sentinel, Outcome, TransformError, TransformResult,
};

#[test]
fn split_cuts_at_every_delimiter() {
    let s = split("a,\nbb,\nccc");
    assert_eq!(s.records, vec!["a".to_string(), "bb".to_string()]);
    assert_eq!(s.tail, "ccc");
}

#[test]
fn split_without_delimiter_is_all_tail() {
    let s = split("{\"id\":1, \"x\":\n2}");
    assert!(s.records.is_empty());
    assert_eq!(s.tail, "{\"id\":1, \"x\":\n2}");
    let s = split("");
    assert!(s.records.is_empty());
    assert_eq!(s.tail, "");
}

#[test]
fn split_with_delimiter_at_the_end_leaves_an_empty_tail() {
    let s = split("a,\n");
    assert_eq!(s.records, vec!["a".to_string()]);
    assert_eq!(s.tail, "");
    let s = split(",\n,\n");
    assert_eq!(s.records, vec![String::new(), String::new()]);
    assert_eq!(s.tail, "");
}

#[test]
fn split_takes_the_leftmost_delimiter() {
    let s = split("a,,\n\nb,");
    assert_eq!(s.records, vec!["a,".to_string()]);
    assert_eq!(s.tail, "\nb,");
}

#[test]
fn split_keeps_characters_of_several_bytes_whole() {
    let s = split("é,\n日本,\n𝄞");
    assert_eq!(s.records, vec!["é".to_string(), "日本".to_string()]);
    assert_eq!(s.tail, "𝄞");
}

#[test]
fn split_agrees_with_the_standard_library() {
    let texts = ["", ",", "\n", ",\n", "x,\ny", ",\n,\n,", "a,\n,\nb\n]", "\n],\n\n]"];
    for text in texts {
        let mut pieces: Vec<String> = text.split(",\n").map(|p| p.to_string()).collect();
        let tail = pieces.pop().unwrap();
        let s = split(text);
        assert_eq!(s.records, pieces);
        assert_eq!(s.tail, tail);
        // the pieces with the delimiters between them are the text
        let mut rejoined = String::new();
        for record in &s.records {
            rejoined.push_str(record);
            rejoined.push_str(",\n");
        }
        rejoined.push_str(&s.tail);
        assert_eq!(rejoined, text);
    }
}

#[test]
fn terminal_tail_loses_exactly_the_marker() {
    assert_eq!(is_terminal("{\"id\":\"Q2\"}\n]"), Some("{\"id\":\"Q2\"}".to_string()));
    assert_eq!(is_terminal("\n]"), Some(String::new()));
    assert_eq!(is_terminal("a\n]\n]"), Some("a\n]".to_string()));
    assert_eq!(is_terminal("é\n]"), Some("é".to_string()));
}

#[test]
fn other_tails_are_not_terminal() {
    assert_eq!(is_terminal(""), None);
    assert_eq!(is_terminal("]"), None);
    assert_eq!(is_terminal("\n"), None);
    assert_eq!(is_terminal("{\"id\":\"Q2\"}"), None);
    assert_eq!(is_terminal("a\n] "), None);
    assert_eq!(is_terminal("a]\n"), None);
}

#[test]
fn slice_text_by_byte_offsets() {
    assert_eq!(slice_text("aébc", 1, 3), "é");
    assert_eq!(slice_text("aébc", 0, 0), "");
    assert_eq!(slice_text("aébc", 3, 5), "bc");
}

#[test]
fn incomplete_characters_are_counted() {
    assert_eq!(count_incomplete(b""), 0);
    assert_eq!(count_incomplete(b"abc"), 0);
    assert_eq!(count_incomplete(b"a\xc3"), 1);
    assert_eq!(count_incomplete(b"a\xc3\xa9"), 0);
    assert_eq!(count_incomplete(b"\xe6"), 1);
    assert_eq!(count_incomplete(b"\xe6\x97"), 2);
    assert_eq!(count_incomplete(b"\xe6\x97\xa5"), 0);
    assert_eq!(count_incomplete(b"\xf0"), 1);
    assert_eq!(count_incomplete(b"\xf0\x9d"), 2);
    assert_eq!(count_incomplete(b"\xf0\x9d\x84"), 3);
    assert_eq!(count_incomplete(b"\xf0\x9d\x84\x9e"), 0);
    assert_eq!(count_incomplete(b"\x80\x80\x80"), 0);
    assert_eq!(count_incomplete(b"\xc3\x80\x80"), 0);
    assert_eq!(count_incomplete(b"\xff"), 0);
}

#[test]
fn buffer_carries_a_cut_character() {
    let mut b = ReassemblyBuffer::new();
    assert_eq!(b.as_text(), "");
    assert_eq!(b.absorb("日".as_bytes().split_at(1).0), Ok(()));
    assert_eq!(b.as_text(), "");
    assert_eq!(b.absorb("日".as_bytes().split_at(1).1), Ok(()));
    assert_eq!(b.as_text(), "日");
    assert_eq!(b.absorb(b"a\xf0\x9d"), Ok(()));
    assert_eq!(b.as_text(), "日a");
    assert_eq!(b.absorb(b"\x84\x9eb"), Ok(()));
    assert_eq!(b.as_text(), "日a𝄞b");
}

#[test]
fn buffer_rejects_invalid_bytes_and_keeps_its_text() {
    let mut b = ReassemblyBuffer::new();
    assert_eq!(b.absorb(b"ok"), Ok(()));
    assert_eq!(b.absorb(b"\x80"), Err(DecodeError {}));
    assert_eq!(b.as_text(), "ok");
    let mut b = ReassemblyBuffer::new();
    // an overlong encoding
    assert_eq!(b.absorb(b"\xc0\xaf"), Err(DecodeError {}));
    let mut b = ReassemblyBuffer::new();
    // a surrogate
    assert_eq!(b.absorb(b"\xed\xa0\x80"), Err(DecodeError {}));
}

#[test]
fn buffer_append_and_reset() {
    let mut b = ReassemblyBuffer::new();
    b.append("abc");
    b.append("dé");
    assert_eq!(b.as_text(), "abcdé");
    b.take_and_reset("tail".to_string());
    assert_eq!(b.as_text(), "tail");
    b.take_and_reset(String::new());
    assert_eq!(b.as_text(), "");
}

#[test]
fn sink_keeps_the_order_of_the_writes() {
    let mut s = OutputSink::new();
    assert!(s.is_empty());
    s.write(b"one");
    s.write(b"");
    s.write(b"two");
    assert!(!s.is_empty());
    assert_eq!(s.flush(), b"onetwo".to_vec());
    assert!(s.is_empty());
    assert!(s.flush().is_empty());
    s.write(b"three");
    assert_eq!(s.flush(), b"three".to_vec());
}

#[test]
fn sentinel_is_null() {
    assert_eq!(sentinel(), b"null".to_vec());
}

#[test]
fn adapt_tells_output_from_skip_and_failure() {
    assert_eq!(
        adapt("r", Ok("\"Q1\"\n".to_string())),
        Ok(TransformResult::Emit(b"\"Q1\"\n".to_vec()))
    );
    assert_eq!(adapt("r", Ok("é".to_string())), Ok(TransformResult::Emit(vec![0xc3, 0xa9])));
    assert_eq!(adapt("r", Ok(String::new())), Ok(TransformResult::Skip));
    assert_eq!(
        adapt("the record", Err("the cause".to_string())),
        Err(TransformError {
            record_text: "the record".to_string(),
            cause: "the cause".to_string()
        })
    );
}

#[test]
fn policy_passes_results_through() {
    for continue_on_error in [false, true] {
        assert_eq!(
            apply_policy(Ok(TransformResult::Emit(b"x".to_vec())), continue_on_error),
            Outcome::Emit(b"x".to_vec())
        );
        assert_eq!(apply_policy(Ok(TransformResult::Skip), continue_on_error), Outcome::Skip);
    }
}

#[test]
fn policy_on_failure() {
    let e = TransformError { record_text: "r".to_string(), cause: "c".to_string() };
    assert_eq!(apply_policy(Err(e.clone()), false), Outcome::Fatal(e.clone()));
    assert_eq!(apply_policy(Err(e), true), Outcome::Emit(b"null".to_vec()));
}
