//! Board wiring: a raw sample to the bus word it carries.
//!
//! Each capture board fans the 8080 bus across its ports in its own way. In a
//! sample, bits 0..15 are port A and bits 16..31 are port B.

use vstd::prelude::*;

verus! {

/// Bit `line` of the bus word is bit `pin` of the sample.
pub open spec fn wired(data: u16, line: u16, sample: u32, pin: u32) -> bool {
    ((data >> line) & 1 == 1) == ((sample >> pin) & 1 == 1)
}

/// A signal is bit `pin` of the sample.
pub open spec fn signal(sample: u32, pin: u32) -> bool {
    (sample >> pin) & 1 == 1
}

/// The Pico rig: DB0..DB15 on bits 0..15, and DC, which tells data words from
/// command words, on bit 17.
pub fn permute_pico(sample: u32) -> (word: (u16, bool))
    ensures
        word.0 == sample % 65536,
        word.1 == signal(sample, 17),
{
    let is_data: bool = sample & (1u32 << 17) != 0;
    assert((sample & (1u32 << 17) != 0) == ((sample >> 17) & 1 == 1)) by (bit_vector);
    ((sample % 65536) as u16, is_data)
}

/// The F103 rig's wiring:
///
/// ```text
/// PA1        -> DB8           PB0..PB1   -> DB14..DB15
/// PA2..PA4   -> DB11..DB13    PB5..PB12  -> DB0..DB7
/// PB15       -> DC            PB13..PB14 -> DB9..DB10
/// ```
pub open spec fn f103_wired(data: u16, sample: u32) -> bool {
    &&& wired(data, 0, sample, 21)
    &&& wired(data, 1, sample, 22)
    &&& wired(data, 2, sample, 23)
    &&& wired(data, 3, sample, 24)
    &&& wired(data, 4, sample, 25)
    &&& wired(data, 5, sample, 26)
    &&& wired(data, 6, sample, 27)
    &&& wired(data, 7, sample, 28)
    &&& wired(data, 8, sample, 1)
    &&& wired(data, 9, sample, 29)
    &&& wired(data, 10, sample, 30)
    &&& wired(data, 11, sample, 2)
    &&& wired(data, 12, sample, 3)
    &&& wired(data, 13, sample, 4)
    &&& wired(data, 14, sample, 16)
    &&& wired(data, 15, sample, 17)
}

/// The bus word that an F103 sample carries.
pub open spec fn f103_word(sample: u32) -> u16 {
    choose|data: u16| f103_wired(data, sample)
}

/// The F103 rig: the data lines lie scattered over both ports, and DC is the top
/// bit of port B.
pub fn permute_f103(sample: u32) -> (word: (u16, bool))
    ensures
        f103_wired(word.0, sample),
        word.0 == f103_word(sample),
        word.1 == signal(sample, 31),
{
    let pa: u16 = #[verifier::truncate] (sample as u16);
    let pb: u16 = (sample >> 16) as u16;
    let data: u16 = ((pb >> 5) & 0x007F)  // DB0..DB6   <- PB5..PB11
    | (((pb >> 12) & 0x0001) << 7)  // DB7        <- PB12
    | (((pa >> 1) & 0x0001) << 8)  // DB8        <- PA1
    | (((pb >> 13) & 0x0001) << 9)  // DB9        <- PB13
    | (((pb >> 14) & 0x0001) << 10)  // DB10       <- PB14
    | (((pa >> 2) & 0x0007) << 11)  // DB11..DB13 <- PA2..PA4
    | ((pb & 0x0001) << 14)  // DB14       <- PB0
    | (((pb >> 1) & 0x0001) << 15)  // DB15       <- PB1
    ;
    let is_data: bool = pb & (1u16 << 15) != 0;  // DC         <- PB15
    assert(f103_wired(data, sample) && is_data == signal(sample, 31)) by (bit_vector)
        requires
            pa == sample as u16,
            pb == (sample >> 16) as u16,
            data == ((pb >> 5) & 0x007F) | (((pb >> 12) & 0x0001) << 7) | (((pa >> 1) & 0x0001)
                << 8) | (((pb >> 13) & 0x0001) << 9) | (((pb >> 14) & 0x0001) << 10) | (((pa >> 2)
                & 0x0007) << 11) | ((pb & 0x0001) << 14) | (((pb >> 1) & 0x0001) << 15),
            is_data == (pb & (1u16 << 15) != 0),
    ;
    proof {
        law_f103_word_is_fixed(sample, data, f103_word(sample));
    }
    (data, is_data)
}

/// The wiring leaves no bit of the bus word open: only one word fits a sample.
pub proof fn law_f103_word_is_fixed(sample: u32, a: u16, b: u16)
    by (bit_vector)
    requires
        f103_wired(a, sample),
        f103_wired(b, sample),
    ensures
        a == b,
{
}

} // verus!
