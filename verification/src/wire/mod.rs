//! The wire protocol between the capture boards and whoever reads them.
//!
//! A board turns a stream of packed `(pa, pb)` samples into a byte sequence of
//! tagged frames; the reader parses them back. Both sides are stated over one
//! description of a frame, so that they cannot drift apart.

use vstd::prelude::*;

pub mod decoder;
pub mod encoder;
pub mod frame;
pub mod round_trip;
pub mod sink;
pub mod stream;
pub mod traffic;

pub use decoder::{Decoder, WireError, WireEvent};
pub use encoder::Encoder;
pub use frame::{
    TAG_BLOCK, TAG_LOG, TAG_OVERRUN, TAG_REPEAT2, TAG_RUN, TAG_STARTED, TAG_STOPPED, TAG_TICK,
};
pub use sink::{Sink, VecSink};

verus! {

// Single bytes that the reader sends to a board.

/// Begin streaming.
pub const HOST_CMD_START: u8 = 0x01;

/// Halt streaming and drain.
pub const HOST_CMD_STOP: u8 = 0x02;

/// Health check: the board replies with a LOG of `ping`.
pub const HOST_CMD_LOG_TEST: u8 = 0x03;

/// Dump the capture counters as LOG frames.
pub const HOST_CMD_STATS: u8 = 0x04;

} // verus!
