//! Byte sink: where the encoder pushes wire bytes.

use vstd::prelude::*;

verus! {

/// A place to push wire bytes to, one at a time. Each verified sink says what it was
/// offered and what it sent on; a sink of other code has nothing to say of either,
/// and is taken at its word.
pub trait Sink {
    /// Every byte pushed so far, in order, whether the sink kept it or not.
    open spec fn offered(&self) -> Seq<u8> {
        arbitrary()
    }

    /// How many of those bytes are known to have been sent on.
    open spec fn flushed(&self) -> nat {
        arbitrary()
    }

    /// Pushes one wire byte. Returns whether it was accepted; a full sink drops
    /// it. What was sent on stays so.
    fn push(&mut self, b: u8) -> (accepted: bool)
        ensures
            final(self).offered() == old(self).offered().push(b),
            final(self).flushed() >= old(self).flushed(),
    ;

    /// Makes sure that everything pushed so far is sent on. A sink that passes
    /// bytes straight through has nothing to do here.
    fn flush(&mut self)
        ensures
            final(self).offered() == old(self).offered(),
            final(self).flushed() == old(self).offered().len(),
    ;
}

/// A sink that records the bytes pushed to it: what would go over the wire.
#[derive(Debug)]
pub struct VecSink {
    pub bytes: Vec<u8>,
}

impl VecSink {
    /// A sink with nothing recorded.
    pub fn new() -> (sink: Self)
        ensures
            sink.offered() == Seq::<u8>::empty(),
            sink.bytes@ == Seq::<u8>::empty(),
    {
        VecSink { bytes: Vec::new() }
    }
}

impl Default for VecSink {
    fn default() -> (sink: Self)
        ensures
            sink.offered() == Seq::<u8>::empty(),
            sink.bytes@ == Seq::<u8>::empty(),
    {
        VecSink::new()
    }
}

impl Sink for VecSink {
    open spec fn offered(&self) -> Seq<u8> {
        self.bytes@
    }

    open spec fn flushed(&self) -> nat {
        self.bytes@.len()
    }

    fn push(&mut self, b: u8) -> (accepted: bool)
        ensures
            accepted,
    {
        self.bytes.push(b);
        true
    }

    fn flush(&mut self) {
    }
}

/// Pushes a list of bytes.
pub fn push_all<S: Sink>(bytes: &[u8], sink: &mut S)
    ensures
        final(sink).offered() == old(sink).offered() + bytes@,
        final(sink).flushed() >= old(sink).flushed(),
{
    let mut i: usize = 0;
    assert(bytes@.take(0) =~= Seq::<u8>::empty());
    assert(sink.offered() + Seq::<u8>::empty() =~= sink.offered());
    while i < bytes.len()
        invariant
            i <= bytes.len(),
            sink.offered() == old(sink).offered() + bytes@.take(i as int),
            sink.flushed() >= old(sink).flushed(),
        decreases bytes.len() - i,
    {
        sink.push(bytes[i]);
        assert(sink.offered() =~= old(sink).offered() + bytes@.take(i + 1));
        i += 1;
    }
    assert(bytes@.take(i as int) =~= bytes@);
}

} // verus!
