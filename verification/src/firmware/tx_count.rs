//! Counts what goes into the outbound pipe.

use vstd::prelude::*;

verus! {

/// Bytes that went into the pipe, modulo the counter, and bytes that a full pipe
/// dropped, up to the counter's end.
pub struct TxCount {
    pub dropped: u32,
    pub bytes_out: u32,
}

impl TxCount {
    pub fn new() -> (count: Self)
        ensures
            count == (TxCount { dropped: 0, bytes_out: 0 }),
    {
        TxCount { dropped: 0, bytes_out: 0 }
    }

    /// Counts one byte, and hands back whether it went in.
    pub fn count(&mut self, accepted: bool) -> (same: bool)
        ensures
            same == accepted,
            final(self).bytes_out == if accepted {
                (old(self).bytes_out + 1) % 0x1_0000_0000
            } else {
                old(self).bytes_out as int
            },
            final(self).dropped == if accepted || old(self).dropped == u32::MAX {
                old(self).dropped as int
            } else {
                old(self).dropped + 1
            },
    {
        if accepted {
            self.bytes_out = self.bytes_out.wrapping_add(1);
        } else {
            self.dropped = self.dropped.saturating_add(1);
        }
        accepted
    }
}

/// Every byte is counted once: as sent where it went in, and else as dropped.
pub proof fn law_every_byte_is_counted_once(count: &mut TxCount, accepted: bool, same: bool)
    requires
        call_ensures(TxCount::count, (count, accepted), same),
    ensures
        same == accepted,
        accepted ==> final(count).dropped == old(count).dropped,
        accepted ==> (final(count).bytes_out - old(count).bytes_out - 1) % 0x1_0000_0000 == 0,
        !accepted ==> final(count).bytes_out == old(count).bytes_out,
        !accepted && old(count).dropped < 0xffff_ffff ==> final(count).dropped
            == old(count).dropped + 1,
{
}

} // verus!
