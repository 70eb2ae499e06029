//! The output sink: an ordered buffer of the bytes that the run has
//! written and the destination has not received yet.
use vstd::prelude::*;

verus! {

/// Bytes written, in the order of the calls, until they are flushed.
pub struct OutputSink {
    buffered: Vec<u8>,
}

impl View for OutputSink {
    type V = Seq<u8>;

    closed spec fn view(&self) -> Seq<u8> {
        self.buffered@
    }
}

impl OutputSink {
    /// A sink that holds nothing.
    pub fn new() -> (s: Self)
        ensures
            s@ == Seq::<u8>::empty(),
    {
        OutputSink { buffered: Vec::new() }
    }

    /// Appends exactly `bytes` behind what is held; nothing is put before,
    /// between or after.
    pub fn write(&mut self, bytes: &[u8])
        ensures
            final(self)@ == old(self)@ + bytes@,
    {
        self.buffered.extend_from_slice(bytes);
        assert(self.buffered@ =~= old(self).buffered@ + bytes@);
    }

    /// Whether nothing is held.
    pub fn is_empty(&self) -> (b: bool)
        ensures
            b == (self@.len() == 0),
    {
        self.buffered.len() == 0
    }

    /// Hands out all that is held, in the order written, and holds nothing
    /// afterwards.
    pub fn flush(&mut self) -> (bytes: Vec<u8>)
        ensures
            bytes@ == old(self)@,
            final(self)@ == Seq::<u8>::empty(),
    {
        let mut out: Vec<u8> = Vec::new();
        core::mem::swap(&mut self.buffered, &mut out);
        out
    }
}

} // verus!
