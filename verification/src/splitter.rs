//! Boundary splitting: cutting text at every delimiter into complete records
//! and one unresolved tail.
//!
//! Text is modelled by its UTF-8 bytes. The delimiter is ASCII, so it can
//! neither start nor end inside a multi-byte character.
use vstd::prelude::*;
use vstd::string::StringSliceAdditionalSpecFns;
use vstd::utf8::*;
use crate::markers::{
    delim_at, ends_with_close, strip_close, CLOSE_FIRST, CLOSE_SECOND, DELIM_FIRST, DELIM_SECOND,
};
use crate::text::{lemma_ascii_is_boundary, slice_text, texts};

verus! {

/// Index of the leftmost delimiter of `s` that starts at or after `from`;
/// `s.len()` if there is none.
pub open spec fn next_delim(s: Seq<u8>, from: int) -> int
    decreases s.len() - from,
{
    if from < 0 || from + 1 >= s.len() {
        s.len() as int
    } else if delim_at(s, from) {
        from
    } else {
        next_delim(s, from + 1)
    }
}

/// `s` holds no delimiter.
pub open spec fn delimiter_free(s: Seq<u8>) -> bool {
    forall|i: int| !delim_at(s, i)
}

/// The complete records of `s`: the pieces that a delimiter closes on the
/// right, from left to right.
pub open spec fn records_of(s: Seq<u8>) -> Seq<Seq<u8>>
    decreases s.len(),
{
    let i = next_delim(s, 0);
    if 0 <= i && i + 2 <= s.len() {
        seq![s.subrange(0, i)] + records_of(s.subrange(i + 2, s.len() as int))
    } else {
        Seq::empty()
    }
}

/// The unresolved tail of `s`: what follows its last delimiter, or all of
/// `s` if it holds none.
pub open spec fn tail_of(s: Seq<u8>) -> Seq<u8>
    decreases s.len(),
{
    let i = next_delim(s, 0);
    if 0 <= i && i + 2 <= s.len() {
        tail_of(s.subrange(i + 2, s.len() as int))
    } else {
        s
    }
}

/// `next_delim` finds a delimiter, and the leftmost one.
pub proof fn lemma_next_delim(s: Seq<u8>, from: int)
    requires
        0 <= from <= s.len(),
    ensures
        from <= next_delim(s, from) <= s.len(),
        next_delim(s, from) < s.len() ==> delim_at(s, next_delim(s, from)),
        forall|j: int| from <= j < next_delim(s, from) ==> !delim_at(s, j),
    decreases s.len() - from,
{
    if from + 1 >= s.len() {
    } else if delim_at(s, from) {
    } else {
        lemma_next_delim(s, from + 1);
    }
}

/// A delimiter with none before it is the one that `next_delim` finds.
pub proof fn lemma_first_delim_is_next(s: Seq<u8>, k: int)
    requires
        delim_at(s, k),
        forall|j: int| 0 <= j < k ==> !delim_at(s, j),
    ensures
        next_delim(s, 0) == k,
{
    lemma_next_delim(s, 0);
}

/// Without a delimiter there is no record, and the tail is the whole text.
pub proof fn lemma_split_delimiter_free(s: Seq<u8>)
    requires
        delimiter_free(s),
    ensures
        records_of(s) == Seq::<Seq<u8>>::empty(),
        tail_of(s) == s,
{
    lemma_next_delim(s, 0);
}

/// At the leftmost delimiter the first record ends and the rest is split
/// on its own.
pub proof fn lemma_split_at_first(s: Seq<u8>, k: int)
    requires
        delim_at(s, k),
        forall|j: int| 0 <= j < k ==> !delim_at(s, j),
    ensures
        records_of(s) == seq![s.subrange(0, k)] + records_of(s.subrange(k + 2, s.len() as int)),
        tail_of(s) == tail_of(s.subrange(k + 2, s.len() as int)),
{
    lemma_first_delim_is_next(s, k);
}

/// The tail holds no delimiter.
pub proof fn lemma_tail_delimiter_free(s: Seq<u8>)
    ensures
        delimiter_free(tail_of(s)),
    decreases s.len(),
{
    lemma_next_delim(s, 0);
    let i = next_delim(s, 0);
    if 0 <= i && i + 2 <= s.len() {
        lemma_tail_delimiter_free(s.subrange(i + 2, s.len() as int));
    } else {
        assert forall|j: int| !delim_at(s, j) by {
            if delim_at(s, j) {
                assert(j < s.len());
            }
        }
    }
}

/// No record holds a delimiter.
pub proof fn lemma_records_delimiter_free(s: Seq<u8>, n: int)
    requires
        0 <= n < records_of(s).len(),
    ensures
        delimiter_free(records_of(s)[n]),
    decreases s.len(),
{
    lemma_next_delim(s, 0);
    let i = next_delim(s, 0);
    if 0 <= i && i + 2 <= s.len() {
        if n == 0 {
            let r = s.subrange(0, i);
            assert(records_of(s)[0] == r);
            assert forall|j: int| !delim_at(r, j) by {
                if delim_at(r, j) {
                    assert(delim_at(s, j));
                }
            }
        } else {
            let rest = s.subrange(i + 2, s.len() as int);
            assert(records_of(s)[n] == records_of(rest)[n - 1]);
            lemma_records_delimiter_free(rest, n - 1);
        }
    }
}

/// Every byte of the text is in a record, in a delimiter or in the tail.
pub proof fn lemma_split_lengths(s: Seq<u8>)
    ensures
        2 * records_of(s).len() + tail_of(s).len() <= s.len(),
    decreases s.len(),
{
    lemma_next_delim(s, 0);
    let i = next_delim(s, 0);
    if 0 <= i && i + 2 <= s.len() {
        lemma_split_lengths(s.subrange(i + 2, s.len() as int));
    }
}

/// Splitting what remained of `a`, with `b` appended, finds what splitting
/// `a + b` at once finds after the records of `a`.
pub proof fn lemma_split_concat(a: Seq<u8>, b: Seq<u8>)
    ensures
        records_of(a + b) == records_of(a) + records_of(tail_of(a) + b),
        tail_of(a + b) == tail_of(tail_of(a) + b),
    decreases a.len(),
{
    lemma_next_delim(a, 0);
    let i = next_delim(a, 0);
    if 0 <= i && i + 2 <= a.len() {
        let ab = a + b;
        assert(delim_at(ab, i));
        assert forall|j: int| 0 <= j < i implies !delim_at(ab, j) by {
            assert(!delim_at(a, j));
            assert(ab[j] == a[j]);
            assert(ab[j + 1] == a[j + 1]);
        }
        lemma_split_at_first(ab, i);
        let rest = a.subrange(i + 2, a.len() as int);
        assert(ab.subrange(i + 2, ab.len() as int) =~= rest + b);
        assert(ab.subrange(0, i) =~= a.subrange(0, i));
        lemma_split_concat(rest, b);
        assert(records_of(ab) =~= records_of(a) + records_of(tail_of(a) + b));
    } else {
        assert(records_of(a) =~= Seq::<Seq<u8>>::empty());
        assert(records_of(a) + records_of(a + b) =~= records_of(a + b));
    }
}

/// The pieces `records` and `tail` with a delimiter behind each record.
pub open spec fn rejoined(records: Seq<Seq<u8>>, tail: Seq<u8>) -> Seq<u8>
    decreases records.len(),
{
    if records.len() == 0 {
        tail
    } else {
        records[0] + seq![DELIM_FIRST, DELIM_SECOND] + rejoined(records.drop_first(), tail)
    }
}

/// Splitting loses nothing: the records and the tail with the delimiters
/// between them are the text.
pub proof fn lemma_split_rejoins(s: Seq<u8>)
    ensures
        rejoined(records_of(s), tail_of(s)) == s,
    decreases s.len(),
{
    lemma_next_delim(s, 0);
    let i = next_delim(s, 0);
    if 0 <= i && i + 2 <= s.len() {
        let rest = s.subrange(i + 2, s.len() as int);
        lemma_split_rejoins(rest);
        assert(records_of(s).drop_first() =~= records_of(rest));
        assert(s.subrange(0, i) + seq![DELIM_FIRST, DELIM_SECOND] + rest =~= s);
    }
}

/// Splitting is the only way to cut a text into pieces without a delimiter
/// that have delimiters between them: such pieces are what splitting their
/// text finds.
pub proof fn lemma_split_is_unique(records: Seq<Seq<u8>>, tail: Seq<u8>)
    requires
        forall|i: int| 0 <= i < records.len() ==> delimiter_free(#[trigger] records[i]),
        delimiter_free(tail),
    ensures
        records_of(rejoined(records, tail)) == records,
        tail_of(rejoined(records, tail)) == tail,
    decreases records.len(),
{
    if records.len() == 0 {
        lemma_split_delimiter_free(tail);
    } else {
        let first = records[0];
        let rest = rejoined(records.drop_first(), tail);
        let s = rejoined(records, tail);
        let k = first.len() as int;
        assert(s == first + seq![DELIM_FIRST, DELIM_SECOND] + rest);
        assert(s[k] == DELIM_FIRST && s[k + 1] == DELIM_SECOND);
        assert forall|j: int| 0 <= j < k implies !delim_at(s, j) by {
            assert(!delim_at(first, j));
            assert(s[j] == first[j]);
            if j + 1 < k {
                assert(s[j + 1] == first[j + 1]);
            }
        }
        lemma_split_at_first(s, k);
        assert(s.subrange(0, k) =~= first);
        assert(s.subrange(k + 2, s.len() as int) =~= rest);
        assert forall|i: int| 0 <= i < records.drop_first().len() implies delimiter_free(
            #[trigger] records.drop_first()[i],
        ) by {
            assert(records.drop_first()[i] == records[i + 1]);
        }
        lemma_split_is_unique(records.drop_first(), tail);
        assert(seq![first] + records.drop_first() =~= records);
    }
}

/// The tail is the end of the text.
pub proof fn lemma_tail_is_suffix(s: Seq<u8>)
    ensures
        tail_of(s).len() <= s.len(),
        tail_of(s) == s.subrange(s.len() - tail_of(s).len(), s.len() as int),
    decreases s.len(),
{
    lemma_next_delim(s, 0);
    let i = next_delim(s, 0);
    if 0 <= i && i + 2 <= s.len() {
        let rest = s.subrange(i + 2, s.len() as int);
        lemma_tail_is_suffix(rest);
        let t = tail_of(rest);
        assert(rest.subrange(rest.len() - t.len(), rest.len() as int) =~= s.subrange(
            s.len() - t.len(),
            s.len() as int,
        ));
    } else {
        assert(s.subrange(0, s.len() as int) =~= s);
    }
}

/// The tail starts behind every delimiter of the text.
pub proof fn lemma_tail_is_behind_delimiters(s: Seq<u8>, j: int)
    requires
        delim_at(s, j),
    ensures
        tail_of(s).len() <= s.len() - j - 2,
    decreases s.len(),
{
    lemma_next_delim(s, 0);
    let i = next_delim(s, 0);
    assert(i <= j) by {
        if j < i {
            assert(!delim_at(s, j));
        }
    }
    let rest = s.subrange(i + 2, s.len() as int);
    if i == j {
        lemma_tail_is_suffix(rest);
    } else {
        assert(j != i + 1);
        assert(delim_at(rest, j - i - 2));
        lemma_tail_is_behind_delimiters(rest, j - i - 2);
    }
}

/// `s` holds no line feed.
pub open spec fn line_feed_free(s: Seq<u8>) -> bool {
    forall|i: int| 0 <= i < s.len() ==> s[i] != DELIM_SECOND
}

/// The text of a whole stream behind its opening marker: the records with
/// a delimiter between them and the closing marker behind the last.
pub open spec fn framed(records: Seq<Seq<u8>>) -> Seq<u8>
    recommends
        records.len() > 0,
{
    rejoined(records.drop_last(), records.last() + seq![CLOSE_FIRST, CLOSE_SECOND])
}

/// Records that can be framed without doubt: there is at least one, none
/// holds a line feed, and the last does not end with a comma, which with
/// the line feed of the closing marker would read as a delimiter.
pub open spec fn well_framed(records: Seq<Seq<u8>>) -> bool {
    &&& records.len() > 0
    &&& forall|i: int| 0 <= i < records.len() ==> line_feed_free(#[trigger] records[i])
    &&& records.last().len() > 0 ==> records.last().last() != DELIM_FIRST
}

/// In framed text a line feed is that of a delimiter or that of the
/// closing marker.
proof fn lemma_line_feeds_of_framed(records: Seq<Seq<u8>>, last: Seq<u8>, p: int)
    requires
        forall|i: int| 0 <= i < records.len() ==> line_feed_free(#[trigger] records[i]),
        line_feed_free(last),
        0 <= p < rejoined(records, last + seq![CLOSE_FIRST, CLOSE_SECOND]).len(),
        rejoined(records, last + seq![CLOSE_FIRST, CLOSE_SECOND])[p] == DELIM_SECOND,
    ensures
        p == rejoined(records, last + seq![CLOSE_FIRST, CLOSE_SECOND]).len() - 2 || delim_at(
            rejoined(records, last + seq![CLOSE_FIRST, CLOSE_SECOND]),
            p - 1,
        ),
    decreases records.len(),
{
    let end = last + seq![CLOSE_FIRST, CLOSE_SECOND];
    let t = rejoined(records, end);
    if records.len() == 0 {
        if p < last.len() {
            assert(end[p] == last[p]);
        }
    } else {
        let first = records[0];
        let rest = rejoined(records.drop_first(), end);
        let k = first.len() as int;
        assert(t == first + seq![DELIM_FIRST, DELIM_SECOND] + rest);
        assert(line_feed_free(first));
        if p < k {
            assert(t[p] == first[p]);
        } else if p == k {
        } else if p == k + 1 {
            assert(t[k] == DELIM_FIRST);
        } else {
            assert(t[p] == rest[p - k - 2]);
            assert forall|i: int| 0 <= i < records.drop_first().len() implies line_feed_free(
                #[trigger] records.drop_first()[i],
            ) by {
                assert(records.drop_first()[i] == records[i + 1]);
            }
            lemma_line_feeds_of_framed(records.drop_first(), last, p - k - 2);
            if p - k - 2 != rest.len() - 2 {
                assert(t[p - 1] == rest[p - k - 3]);
            }
        }
    }
}

/// Framed text is split into the records it was framed from: all but the
/// last are complete records, and the tail is the last with the closing
/// marker behind it.
pub proof fn lemma_framed_text_splits(records: Seq<Seq<u8>>)
    requires
        well_framed(records),
    ensures
        records_of(framed(records)) == records.drop_last(),
        tail_of(framed(records)) == records.last() + seq![CLOSE_FIRST, CLOSE_SECOND],
        ends_with_close(tail_of(framed(records))),
        strip_close(tail_of(framed(records))) == records.last(),
        framed(records).len() >= 2,
        framed(records).last() == CLOSE_SECOND,
{
    let last = records.last();
    let end = last + seq![CLOSE_FIRST, CLOSE_SECOND];
    let init = records.drop_last();
    assert forall|i: int| 0 <= i < init.len() implies delimiter_free(#[trigger] init[i]) by {
        assert(init[i] == records[i]);
        assert(line_feed_free(records[i]));
        assert forall|j: int| !delim_at(init[i], j) by {}
    }
    assert(line_feed_free(last));
    assert forall|j: int| !delim_at(end, j) by {
        if delim_at(end, j) {
            if j + 1 < last.len() {
                assert(end[j + 1] == last[j + 1]);
            } else if j + 1 == last.len() {
                assert(end[j] == last[j]);
                assert(last.last() == last[j]);
            }
        }
    }
    lemma_split_is_unique(init, end);
    assert(strip_close(end) =~= last);
    let t = framed(records);
    lemma_tail_is_suffix(t);
    assert(tail_of(t) == end);
    assert(end.len() == last.len() + 2);
    assert(end[end.len() - 1] == CLOSE_SECOND);
    assert(end[end.len() - 2] == CLOSE_FIRST);
    assert(t.subrange(t.len() - end.len(), t.len() as int)[end.len() - 1] == t[t.len() - 1]);
}

/// Framed text that has not arrived whole does not look closed: no proper
/// prefix of it has a tail that ends with the closing marker.
pub proof fn lemma_unfinished_text_is_open(records: Seq<Seq<u8>>, m: int)
    requires
        well_framed(records),
        0 <= m < framed(records).len(),
    ensures
        !ends_with_close(tail_of(framed(records).subrange(0, m))),
{
    let t = framed(records);
    let x = t.subrange(0, m);
    let tail = tail_of(x);
    if ends_with_close(tail) {
        lemma_tail_is_suffix(x);
        assert(tail[tail.len() - 2] == x[m - 2]);
        assert(x[m - 2] == t[m - 2]);
        assert forall|i: int| 0 <= i < records.drop_last().len() implies line_feed_free(
            #[trigger] records.drop_last()[i],
        ) by {
            assert(records.drop_last()[i] == records[i]);
        }
        assert(line_feed_free(records.last()));
        lemma_line_feeds_of_framed(records.drop_last(), records.last(), m - 2);
        assert(delim_at(t, m - 3));
        assert(x[m - 3] == t[m - 3]);
        assert(delim_at(x, m - 3));
        lemma_tail_is_behind_delimiters(x, m - 3);
    }
}

/// What one splitting pass over the buffered text finds.
pub struct Split {
    /// The complete records, in the order in which they stand in the text.
    pub records: Vec<String>,
    /// The provisional last piece: an incomplete record, or the final
    /// record with the closing marker behind it.
    pub tail: String,
}

/// Cuts `text` at every delimiter. All pieces but the last are complete
/// records; the last is the unresolved tail. Two delimiters in a row give
/// an empty record.
pub fn split(text: &str) -> (r: Split)
    ensures
        texts(r.records@) == records_of(text.spec_bytes()),
        encode_utf8(r.tail@) == tail_of(text.spec_bytes()),
{
    let bytes = text.as_bytes();
    let n = bytes.len();
    let mut records: Vec<String> = Vec::new();
    let mut start: usize = 0;
    let mut i: usize = 0;
    proof {
        encode_utf8_valid_utf8(text@);
        is_char_boundary_start_end_of_seq(bytes@);
        assert(bytes@.subrange(0, n as int) =~= bytes@);
        assert(texts(records@) =~= Seq::<Seq<u8>>::empty());
    }
    while i < n && i + 1 < n
        invariant
            start <= i <= n,
            n == bytes@.len(),
            bytes@ == text.spec_bytes(),
            valid_utf8(bytes@),
            is_char_boundary(bytes@, start as int),
            forall|j: int| start <= j < i ==> !delim_at(bytes@, j),
            records_of(bytes@) == texts(records@) + records_of(
                bytes@.subrange(start as int, n as int),
            ),
            tail_of(bytes@) == tail_of(bytes@.subrange(start as int, n as int)),
        decreases n - i,
    {
        if bytes[i] == DELIM_FIRST && bytes[i + 1] == DELIM_SECOND {
            proof {
                lemma_ascii_is_boundary(bytes@, i as int);
                lemma_ascii_is_boundary(bytes@, i + 1);
            }
            let piece = slice_text(text, start, i);
            let ghost before = records@;
            let ghost rest = bytes@.subrange(start as int, n as int);
            let owned = piece.to_owned();
            records.push(owned);
            proof {
                assert(delim_at(rest, i - start));
                assert forall|j: int| 0 <= j < i - start implies !delim_at(rest, j) by {
                    assert(!delim_at(bytes@, start + j));
                }
                lemma_split_at_first(rest, i - start);
                assert(rest.subrange(0, i - start) =~= bytes@.subrange(start as int, i as int));
                assert(rest.subrange(i - start + 2, rest.len() as int) =~= bytes@.subrange(
                    i + 2,
                    n as int,
                ));
                assert(texts(records@) =~= texts(before).push(encode_utf8(owned@)));
                assert(texts(records@) + records_of(bytes@.subrange(i + 2, n as int))
                    =~= texts(before) + records_of(rest));
            }
            start = i + 2;
            i = start;
        } else {
            i = i + 1;
        }
    }
    let tail = slice_text(text, start, n).to_owned();
    proof {
        let rest = bytes@.subrange(start as int, n as int);
        assert forall|j: int| !delim_at(rest, j) by {
            if delim_at(rest, j) {
                assert(delim_at(bytes@, start + j));
            }
        }
        lemma_split_delimiter_free(rest);
        assert(texts(records@) + Seq::<Seq<u8>>::empty() =~= texts(records@));
    }
    Split { records, tail }
}

/// Tells whether `tail` is the final record of the stream: it is if it ends
/// with the closing marker, and then the record is `tail` without the
/// marker. Any other tail is an incomplete record that waits for more text.
pub fn is_terminal(tail: &str) -> (r: Option<String>)
    ensures
        r is Some <==> ends_with_close(tail.spec_bytes()),
        r matches Some(record) ==> encode_utf8(record@) == strip_close(tail.spec_bytes()),
{
    let bytes = tail.as_bytes();
    let n = bytes.len();
    if n >= 2 && bytes[n - 2] == CLOSE_FIRST && bytes[n - 1] == CLOSE_SECOND {
        proof {
            encode_utf8_valid_utf8(tail@);
            is_char_boundary_start_end_of_seq(bytes@);
            lemma_ascii_is_boundary(bytes@, n - 2);
        }
        Some(slice_text(tail, 0, n - 2).to_owned())
    } else {
        None
    }
}

} // verus!
