//! Text as UTF-8 bytes: validation, character boundaries and slicing.
use vstd::prelude::*;
use vstd::string::StringSliceAdditionalSpecFns;
use vstd::utf8::*;

verus! {

/// The error of `simdutf8::basic::from_utf8`: a unit value that carries no
/// detail.
#[verifier::external_type_specification]
#[verifier::external_body]
pub struct ExUtf8Error(simdutf8::basic::Utf8Error);

/// `simdutf8::basic::from_utf8` checks the whole input and, if it is valid
/// UTF-8, returns the same bytes as a `str`; on any invalid input it returns
/// its error. It succeeds exactly on valid UTF-8, and the text it returns
/// has the input as its encoding.
pub assume_specification[ simdutf8::basic::from_utf8 ](input: &[u8]) -> (r: Result<
    &str,
    simdutf8::basic::Utf8Error,
>)
    ensures
        r is Ok <==> valid_utf8(input@),
        r matches Ok(s) ==> s.spec_bytes() == input@,
;

/// The UTF-8 bytes of each text of `v`.
pub open spec fn texts(v: Seq<String>) -> Seq<Seq<u8>> {
    v.map_values(|s: String| encode_utf8(s@))
}

/// In valid UTF-8 an ASCII byte is a character of its own: a character
/// starts at it and the next one right after it.
pub proof fn lemma_ascii_is_boundary(bytes: Seq<u8>, i: int)
    requires
        valid_utf8(bytes),
        0 <= i < bytes.len(),
        bytes[i] < 0x80,
    ensures
        is_char_boundary(bytes, i),
        is_char_boundary(bytes, i + 1),
{
    is_char_boundary_iff_not_is_continuation_byte(bytes, i);
    if i + 1 == bytes.len() {
        is_char_boundary_start_end_of_seq(bytes);
    } else {
        let rest = bytes.subrange(i, bytes.len() as int);
        valid_utf8_split(bytes, i);
        assert(rest[0] == bytes[i]);
        assert(valid_first_scalar(rest));
        assert(length_of_first_scalar(rest) == 1);
        assert(valid_utf8(pop_first_scalar(rest)));
        assert(is_char_boundary(rest, 1)) by {
            reveal_with_fuel(is_char_boundary, 2);
        }
        is_char_boundary_iff_not_is_continuation_byte(rest, 1);
        assert(rest[1] == bytes[i + 1]);
        is_char_boundary_iff_not_is_continuation_byte(bytes, i + 1);
    }
}

/// A character boundary of a text is one of each prefix that reaches it.
pub proof fn lemma_boundary_in_prefix(bytes: Seq<u8>, from: int, to: int)
    requires
        valid_utf8(bytes),
        0 <= from <= to <= bytes.len(),
        is_char_boundary(bytes, from),
        is_char_boundary(bytes, to),
    ensures
        valid_utf8(bytes.subrange(0, to)),
        is_char_boundary(bytes.subrange(0, to), from),
{
    let prefix = bytes.subrange(0, to);
    valid_utf8_split(bytes, to);
    if from == to {
        is_char_boundary_start_end_of_seq(prefix);
    } else {
        is_char_boundary_iff_not_is_continuation_byte(bytes, from);
        assert(prefix[from] == bytes[from]);
        is_char_boundary_iff_not_is_continuation_byte(prefix, from);
    }
}

/// The part of `s` between two of its character boundaries, given as byte
/// offsets.
pub fn slice_text<'a>(s: &'a str, from: usize, to: usize) -> (r: &'a str)
    requires
        from <= to <= s.spec_bytes().len(),
        is_char_boundary(s.spec_bytes(), from as int),
        is_char_boundary(s.spec_bytes(), to as int),
    ensures
        r.spec_bytes() == s.spec_bytes().subrange(from as int, to as int),
{
    proof {
        encode_utf8_valid_utf8(s@);
        lemma_boundary_in_prefix(s.spec_bytes(), from as int, to as int);
    }
    let (head, _) = s.split_at(to);
    let (_, r) = head.split_at(from);
    assert(r.spec_bytes() =~= s.spec_bytes().subrange(from as int, to as int));
    r
}

/// The encoding of two texts in a row is the two encodings in a row.
pub proof fn lemma_encode_concat(a: Seq<char>, b: Seq<char>)
    ensures
        encode_utf8(a + b) == encode_utf8(a) + encode_utf8(b),
    decreases a.len(),
{
    if a.len() == 0 {
        assert(a + b =~= b);
        assert(encode_utf8(a) + encode_utf8(b) =~= encode_utf8(b));
    } else {
        assert((a + b).drop_first() =~= a.drop_first() + b);
        lemma_encode_concat(a.drop_first(), b);
        assert(encode_utf8(a + b) =~= encode_utf8(a) + encode_utf8(b));
    }
}

} // verus!
