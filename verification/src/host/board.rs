//! The capture boards.

use vstd::prelude::*;

use crate::firmware_stm32::capture;
use crate::host::permute;
use crate::host::permute::{permute_f103, permute_pico};

verus! {

/// The capture board on the other end.
#[derive(Copy, Clone, Debug, PartialEq, Eq, Structural)]
pub enum Board {
    /// Pico 2 W, over USB.
    Pico,
    /// F103 capture board, over a serial adapter.
    F103,
}

/// The bus word that a sample carries, and whether it is data.
pub open spec fn bus_word(board: Board, sample: u32) -> (u16, bool) {
    match board {
        Board::Pico => ((sample % 65536) as u16, permute::signal(sample, 17)),
        Board::F103 => (permute::f103_word(sample), permute::signal(sample, 31)),
    }
}

impl Board {
    /// The bus word that a sample carries, and whether it is data.
    pub fn permute(self, sample: u32) -> (word: (u16, bool))
        ensures
            word == bus_word(self, sample),
    {
        match self {
            Board::Pico => permute_pico(sample),
            Board::F103 => permute_f103(sample),
        }
    }

    /// The serial device that the board shows up as.
    pub fn default_port(self) -> (port: &'static str)
        ensures
            port@ == match self {
                Board::Pico => "/dev/ttyACM0"@,
                Board::F103 => "/dev/ttyUSB0"@,
            },
    {
        match self {
            Board::Pico => "/dev/ttyACM0",
            Board::F103 => "/dev/ttyUSB0",
        }
    }
}

/// The Pico's samples carry the bus as it is: the word in the low 16 bits, and DC two
/// bits above it.
pub proof fn law_pico_samples_carry_the_bus(sample: u32)
    ensures
        bus_word(Board::Pico, sample).0 == sample & 0xFFFF,
        bus_word(Board::Pico, sample).1 == (sample & 0x2_0000 != 0),
{
    assert(sample % 65536 == sample & 0xFFFF) by (bit_vector);
    assert(((sample >> 17) & 1 == 1) == (sample & 0x2_0000 != 0)) by (bit_vector);
}

/// The F103's samples carry the bus scattered over two ports: eight data lines side by
/// side on the second one, from its sixth bit on, and the others as their wires lie.
pub proof fn law_f103_samples_carry_the_bus(sample: u32)
    ensures
        ({
            let pa = sample % 0x1_0000;
            let pb = sample / 0x1_0000;
            &&& bus_word(Board::F103, sample).0 == pb / 32 % 256 + 256 * (pa / 2 % 2) + 512 * (pb
                / 8192 % 4) + 2048 * (pa / 4 % 8) + 16384 * (pb % 4)
            &&& bus_word(Board::F103, sample).1 == (pb / 32768 == 1)
        }),
        permute::f103_wired(bus_word(Board::F103, sample).0, sample),
{
    let pa = sample % 0x1_0000;
    let pb = sample / 0x1_0000;
    let data = (pb / 32 % 256 + 256 * (pa / 2 % 2) + 512 * (pb / 8192 % 4) + 2048 * (pa / 4 % 8)
        + 16384 * (pb % 4)) as u16;
    assert(permute::f103_wired(data, sample) && data == pb / 32 % 256 + 256 * (pa / 2 % 2) + 512 * (
    pb / 8192 % 4) + 2048 * (pa / 4 % 8) + 16384 * (pb % 4) && permute::signal(sample, 31) == (pb
        / 32768 == 1)) by (bit_vector)
        requires
            pa == sample % 0x1_0000,
            pb == sample / 0x1_0000,
            data == (pb / 32 % 256 + 256 * (pa / 2 % 2) + 512 * (pb / 8192 % 4) + 2048 * (pa / 4
                % 8) + 16384 * (pb % 4)) as u16,
    ;
    permute::law_f103_word_is_fixed(sample, data, permute::f103_word(sample));
}

/// What the STM32's capture leaves out of a sample, the bus word does not need: with
/// the unwired bits taken off, the word and DC are the same.
pub proof fn law_the_wired_bits_carry_the_bus(pa: u16, pb: u16)
    ensures
        bus_word(Board::F103, capture::packed(pa, pb)) == bus_word(
            Board::F103,
            ((pa as u32) | ((pb as u32) << 16)),
        ),
{
    let whole = (pa as u32) | ((pb as u32) << 16);
    let kept = capture::packed(pa, pb);
    let word = permute::f103_word(kept);
    law_f103_samples_carry_the_bus(whole);
    law_f103_samples_carry_the_bus(kept);
    assert(permute::f103_wired(word, whole) && permute::signal(kept, 31) == permute::signal(
        whole,
        31,
    )) by (bit_vector)
        requires
            kept == whole & 0xFFE3_001E,
            permute::f103_wired(word, kept),
    ;
    permute::law_f103_word_is_fixed(whole, word, permute::f103_word(whole));
}

/// What calls of [`Board::permute`] and [`Board::default_port`] give: a Pico's sample as
/// it is, and the device under which a board shows up.
pub proof fn law_boards_differ(sample: u32, word: (u16, bool), pico: &'static str, f103: &'static str)
    requires
        call_ensures(Board::permute, (Board::Pico, sample), word),
        call_ensures(Board::default_port, (Board::Pico,), pico),
        call_ensures(Board::default_port, (Board::F103,), f103),
    ensures
        word.0 == sample & 0xFFFF,
        word.1 == (sample & 0x2_0000 != 0),
        pico@ == "/dev/ttyACM0"@,
        f103@ == "/dev/ttyUSB0"@,
{
    law_pico_samples_carry_the_bus(sample);
}

} // verus!
