//! The fixed framing of the stream: an opening marker before the first
//! record, a delimiter between two records, a closing marker after the last.
//! All three are two ASCII bytes long.
use vstd::prelude::*;

verus! {

/// `,` — first byte of the delimiter, written as `",\n"` in text.
pub const DELIM_FIRST: u8 = 0x2C;

/// Line feed — second byte of the delimiter.
pub const DELIM_SECOND: u8 = 0x0A;

/// Line feed — first byte of the closing marker, written as `"\n]"` in text.
pub const CLOSE_FIRST: u8 = 0x0A;

/// `]` — second byte of the closing marker.
pub const CLOSE_SECOND: u8 = 0x5D;

/// Length in bytes of the opening marker, written as `"[\n"` in text. The
/// run discards that many bytes at the start of the stream without looking
/// at them.
pub const OPEN_MARKER_LEN: usize = 2;

/// A delimiter starts at index `i` of `s`.
pub open spec fn delim_at(s: Seq<u8>, i: int) -> bool {
    0 <= i && i + 1 < s.len() && s[i] == DELIM_FIRST && s[i + 1] == DELIM_SECOND
}

/// `s` ends with the closing marker.
pub open spec fn ends_with_close(s: Seq<u8>) -> bool {
    s.len() >= 2 && s[s.len() - 2] == CLOSE_FIRST && s[s.len() - 1] == CLOSE_SECOND
}

/// `s` without its last two bytes.
pub open spec fn strip_close(s: Seq<u8>) -> Seq<u8> {
    s.subrange(0, s.len() - 2)
}

} // verus!
