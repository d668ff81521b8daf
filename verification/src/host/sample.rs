//! A single bus sample as the Pico's capture hardware delivers it.

use vstd::prelude::*;

verus! {

#[derive(Copy, Clone, Debug)]
pub struct Sample {
    pub data: u16,
    pub dc: bool,
    pub cs: bool,
}

impl Sample {
    /// Unpacks the 18-bit value:
    ///
    /// ```text
    /// bit  17 16 15 ............... 0
    ///      DC CS DB15 ............ DB0
    /// ```
    ///
    /// The two control lines sit the other way round than the capture program
    /// names them, because the adapter swaps them.
    pub fn from_raw(raw: u32) -> (sample: Self)
        ensures
            sample.data == raw % 65536,
            sample.cs == (raw / 65536 % 2 == 1),
            sample.dc == (raw / 131072 % 2 == 1),
    {
        Sample {
            data: (raw % 65536) as u16,
            cs: raw / 65536 % 2 == 1,
            dc: raw / 131072 % 2 == 1,
        }
    }
}

/// What is unpacked is all there is in the low 18 bits, and nothing above them counts:
/// put together again, data, CS and DC give the value back.
pub proof fn law_samples_unpack_without_loss(raw: u32, sample: Sample)
    requires
        call_ensures(Sample::from_raw, (raw,), sample),
    ensures
        raw % 0x4_0000 == sample.data + (if sample.cs {
            0x1_0000int
        } else {
            0int
        }) + (if sample.dc {
            0x2_0000int
        } else {
            0int
        }),
{
}

} // verus!
