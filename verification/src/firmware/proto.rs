//! Framed transactions: header and limits.
//!
//! ```text
//! [0xAA] [0x55]         magic
//! [cmd   u8]            command byte, or 0xFF for a line of text
//! [count u16 LE]        number of data words, and flags
//! [data  u16 LE x N]    payload
//! ```

use vstd::prelude::*;

use crate::bytes;

verus! {

pub const MAGIC_0: u8 = 0xAA;

pub const MAGIC_1: u8 = 0x55;

pub const CMD_LOG: u8 = 0xFF;

pub const CMD_MEMORY_WRITE_CONTINUE: u8 = 0x3C;

/// Flag in the count: the data is run-length encoded as `(length, value)` pairs.
pub const RLE_FLAG: u16 = 0x8000;

/// Most data words of one frame.
pub const MAX_DATA_WORDS: u16 = 4096;

/// The bytes of a frame header. The count already holds its flags.
pub fn encode_header(cmd: u8, count_with_flags: u16) -> (header: [u8; 5])
    ensures
        header@ == seq![MAGIC_0, MAGIC_1, cmd] + bytes::le16(count_with_flags),
{
    let b = bytes::split_u16(count_with_flags);
    let header: [u8; 5] = [MAGIC_0, MAGIC_1, cmd, b[0], b[1]];
    assert(header@ =~= seq![MAGIC_0, MAGIC_1, cmd] + bytes::le16(count_with_flags));
    header
}

/// What a call of [`encode_header`] gives: two magic bytes, the command, and the count
/// with its low byte first.
pub proof fn law_a_header_is_laid_out(cmd: u8, count_with_flags: u16, header: [u8; 5])
    requires
        call_ensures(encode_header, (cmd, count_with_flags), header),
    ensures
        header@[0] == 0xaa,
        header@[1] == 0x55,
        header@[2] == cmd,
        header@[3] + 256 * header@[4] == count_with_flags,
{
}

} // verus!
