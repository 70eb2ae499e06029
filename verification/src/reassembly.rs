//! The reassembly buffer: decoded text that no record boundary has resolved
//! yet, and in front of the decoder the bytes of a character that a chunk
//! boundary has cut in two.
use vstd::prelude::*;
use vstd::slice::slice_subrange;
use vstd::string::{StringExecFns, StringSliceAdditionalSpecFns};
use vstd::utf8::*;
use crate::text::lemma_encode_concat;

verus! {

/// `b` starts a character that is more than `k` bytes long.
pub open spec fn starts_longer_than(b: u8, k: int) -> bool {
    if k <= 1 {
        0xC0 <= b <= 0xF7
    } else if k == 2 {
        0xE0 <= b <= 0xF7
    } else {
        0xF0 <= b <= 0xF7
    }
}

/// How many bytes at the end of `bytes` belong to a character whose last
/// bytes have not arrived: a lead byte with fewer continuation bytes behind
/// it than it announces. Between 0 and 3.
pub open spec fn incomplete_tail_len(bytes: Seq<u8>) -> int {
    let n = bytes.len() as int;
    if n >= 1 && starts_longer_than(bytes[n - 1], 1) {
        1
    } else if n >= 2 && starts_longer_than(bytes[n - 2], 2) && is_continuation_byte(bytes[n - 1]) {
        2
    } else if n >= 3 && starts_longer_than(bytes[n - 3], 3) && is_continuation_byte(bytes[n - 2])
        && is_continuation_byte(bytes[n - 1]) {
        3
    } else {
        0
    }
}

/// Where the complete characters of `bytes` end.
pub open spec fn complete_len(bytes: Seq<u8>) -> int {
    bytes.len() - incomplete_tail_len(bytes)
}

/// The bytes of `bytes` behind its complete characters.
pub open spec fn incomplete_tail(bytes: Seq<u8>) -> Seq<u8> {
    bytes.subrange(complete_len(bytes), bytes.len() as int)
}

/// The complete characters at the front of `bytes`.
pub open spec fn complete_part(bytes: Seq<u8>) -> Seq<u8> {
    bytes.subrange(0, complete_len(bytes))
}

/// Computes [`incomplete_tail_len`].
pub fn count_incomplete(bytes: &[u8]) -> (k: usize)
    ensures
        k == incomplete_tail_len(bytes@),
        k <= 3,
        k <= bytes@.len(),
{
    let n = bytes.len();
    if n >= 1 && bytes[n - 1] >= 0xC0 && bytes[n - 1] <= 0xF7 {
        1
    } else if n >= 2 && bytes[n - 2] >= 0xE0 && bytes[n - 2] <= 0xF7 && bytes[n - 1] >= 0x80
        && bytes[n - 1] <= 0xBF {
        2
    } else if n >= 3 && bytes[n - 3] >= 0xF0 && bytes[n - 3] <= 0xF7 && bytes[n - 2] >= 0x80
        && bytes[n - 2] <= 0xBF && bytes[n - 1] >= 0x80 && bytes[n - 1] <= 0xBF {
        3
    } else {
        0
    }
}

/// What is incomplete at the end of some bytes depends on their last three
/// bytes only, so it stays the same when complete characters are taken off
/// the front.
pub proof fn lemma_tail_len_after_cut(r: Seq<u8>, extra: Seq<u8>)
    ensures
        incomplete_tail_len(r + extra) == incomplete_tail_len(incomplete_tail(r) + extra),
{
    let whole = r + extra;
    let short = incomplete_tail(r) + extra;
    let n = whole.len() as int;
    let m = short.len() as int;
    let c = complete_len(r);
    if m >= 1 {
        assert(short[m - 1] == whole[n - 1]);
    }
    if m >= 2 {
        assert(short[m - 2] == whole[n - 2]);
    }
    if m >= 3 {
        assert(short[m - 3] == whole[n - 3]);
    }
    if n >= 1 && m < 1 {
        assert(whole[n - 1] == r[n - 1]);
    }
    if n >= 2 && m < 2 {
        assert(whole[n - 2] == r[n - 2]);
    }
    if n >= 3 && m < 3 {
        assert(whole[n - 3] == r[n - 3]);
    }
}

/// In valid UTF-8 a continuation byte continues a character: the bytes in
/// front of it end with a character that is not complete.
pub proof fn lemma_continuation_follows_incomplete(s: Seq<u8>, j: int)
    requires
        valid_utf8(s),
        0 <= j < s.len(),
        is_continuation_byte(s[j]),
    ensures
        incomplete_tail_len(s.subrange(0, j)) > 0,
    decreases s.len(),
{
    let len = length_of_first_scalar(s);
    let front = s.subrange(0, j);
    assert(valid_first_scalar(s));
    if j < len {
        assert(forall|i: int| 0 <= i < j ==> front[i] == s[i]);
    } else {
        let rest = pop_first_scalar(s);
        assert(rest[j - len] == s[j]);
        lemma_continuation_follows_incomplete(rest, j - len);
        let inner = rest.subrange(0, j - len);
        let m = inner.len() as int;
        let n = front.len() as int;
        if m >= 1 {
            assert(inner[m - 1] == front[n - 1]);
        }
        if m >= 2 {
            assert(inner[m - 2] == front[n - 2]);
        }
        if m >= 3 {
            assert(inner[m - 3] == front[n - 3]);
        }
    }
}

/// A chunk boundary does not break valid text. Where `bytes` with `rest`
/// behind it is valid UTF-8, the complete characters of `bytes` are valid
/// on their own, and so is what `bytes` leaves incomplete with `rest`
/// behind it.
pub proof fn lemma_valid_text_survives_cut(bytes: Seq<u8>, rest: Seq<u8>)
    requires
        valid_utf8(bytes + rest),
    ensures
        valid_utf8(complete_part(bytes)),
        valid_utf8(incomplete_tail(bytes) + rest),
{
    let whole = bytes + rest;
    let at = complete_len(bytes);
    if at == whole.len() {
        is_char_boundary_start_end_of_seq(whole);
    } else {
        if is_continuation_byte(whole[at]) {
            lemma_continuation_follows_incomplete(whole, at);
            assert(whole.subrange(0, at) =~= complete_part(bytes));
            if incomplete_tail_len(bytes) == 0 {
                assert(complete_part(bytes) =~= bytes);
            } else {
                assert(whole[at] == bytes[at]);
            }
        }
        is_char_boundary_iff_not_is_continuation_byte(whole, at);
    }
    valid_utf8_split(whole, at);
    assert(whole.subrange(0, at) =~= complete_part(bytes));
    assert(whole.subrange(at, whole.len() as int) =~= incomplete_tail(bytes) + rest);
}

/// Cutting bytes at the end of their complete characters does not break
/// the text: where the complete characters of `r + extra` are valid UTF-8,
/// so are those of `r`, and so are those of what `r` leaves incomplete with
/// `extra` behind it; the two in a row are the complete characters of
/// `r + extra`, and the same bytes stay incomplete.
pub proof fn lemma_cut_is_safe(r: Seq<u8>, extra: Seq<u8>)
    requires
        valid_utf8(complete_part(r + extra)),
    ensures
        valid_utf8(complete_part(r)),
        valid_utf8(complete_part(incomplete_tail(r) + extra)),
        complete_part(r + extra) == complete_part(r) + complete_part(incomplete_tail(r) + extra),
        incomplete_tail(r + extra) == incomplete_tail(incomplete_tail(r) + extra),
{
    lemma_tail_len_after_cut(r, extra);
    let whole = complete_part(r + extra);
    let first = complete_part(r);
    let second = complete_part(incomplete_tail(r) + extra);
    let at = first.len() as int;
    assert(whole =~= first + second);
    assert(incomplete_tail(r + extra) =~= incomplete_tail(incomplete_tail(r) + extra));
    if second.len() == 0 {
        is_char_boundary_start_end_of_seq(whole);
    } else {
        if is_continuation_byte(whole[at]) {
            lemma_continuation_follows_incomplete(whole, at);
            assert(whole.subrange(0, at) =~= first);
            if incomplete_tail_len(r) == 0 {
                assert(first =~= r);
            } else {
                assert(whole[at] == r[complete_len(r)]);
            }
        }
        is_char_boundary_iff_not_is_continuation_byte(whole, at);
    }
    valid_utf8_split(whole, at);
    assert(whole.subrange(0, at) =~= first);
    assert(whole.subrange(at, whole.len() as int) =~= second);
}

/// The complete characters of some bytes are not valid UTF-8.
#[derive(Debug, Clone, Copy, PartialEq, Eq)]
pub struct DecodeError {}

/// Decoded text that waits for a record boundary, and the bytes of a
/// character that waits for its last bytes.
pub struct ReassemblyBuffer {
    text: String,
    carry: Vec<u8>,
}

impl ReassemblyBuffer {
    /// The buffered text, as UTF-8.
    pub closed spec fn text(&self) -> Seq<u8> {
        encode_utf8(self.text@)
    }

    /// The bytes of the character that is not complete yet.
    pub closed spec fn carry(&self) -> Seq<u8> {
        self.carry@
    }

    /// An empty buffer.
    pub fn new() -> (b: Self)
        ensures
            b.text() == Seq::<u8>::empty(),
            b.carry() == Seq::<u8>::empty(),
    {
        ReassemblyBuffer { text: String::new(), carry: Vec::new() }
    }

    /// The buffered text, which is valid UTF-8 at all times: no part of a
    /// character is in it.
    pub fn as_text(&self) -> (s: &str)
        ensures
            s.spec_bytes() == self.text(),
            valid_utf8(self.text()),
    {
        proof {
            encode_utf8_valid_utf8(self.text@);
        }
        self.text.as_str()
    }

    /// Adds newly decoded text behind the buffered text.
    pub fn append(&mut self, text: &str)
        ensures
            final(self).text() == old(self).text() + text.spec_bytes(),
            final(self).carry() == old(self).carry(),
    {
        proof {
            lemma_encode_concat(self.text@, text@);
        }
        self.text.append(text);
    }

    /// Replaces the buffered text with `remainder`, the tail that a
    /// splitting pass has left unresolved.
    pub fn take_and_reset(&mut self, remainder: String)
        ensures
            final(self).text() == encode_utf8(remainder@),
            final(self).carry() == old(self).carry(),
    {
        self.text = remainder;
    }

    /// Decodes raw bytes into the buffer. The bytes carried over come
    /// first, then `bytes`; the complete characters of the two are checked
    /// and appended as text, and an incomplete one at the end is carried
    /// over to the next call.
    ///
    /// Fails if and only if the complete characters are not valid UTF-8;
    /// then the text stays as it was and all the bytes are carried.
    pub fn absorb(&mut self, bytes: &[u8]) -> (r: Result<(), DecodeError>)
        ensures
            r is Ok <==> valid_utf8(complete_part(old(self).carry() + bytes@)),
            r is Ok ==> final(self).text() == old(self).text() + complete_part(
                old(self).carry() + bytes@,
            ) && final(self).carry() == incomplete_tail(old(self).carry() + bytes@),
            r is Err ==> final(self).text() == old(self).text() && final(self).carry() == old(
                self,
            ).carry() + bytes@,
    {
        self.carry.extend_from_slice(bytes);
        assert(self.carry@ =~= old(self).carry@ + bytes@);
        let k = count_incomplete(self.carry.as_slice());
        let cut = self.carry.len() - k;
        let decoded = simdutf8::basic::from_utf8(slice_subrange(self.carry.as_slice(), 0, cut));
        match decoded {
            Ok(text) => {
                proof {
                    lemma_encode_concat(self.text@, text@);
                }
                self.text.append(text);
                let rest = self.carry.split_off(cut);
                self.carry = rest;
                Ok(())
            },
            Err(_) => Err(DecodeError {  }),
        }
    }
}

} // verus!
