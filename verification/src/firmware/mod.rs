//! The Pico capture board.

pub mod decoder;
pub mod lifetime;
pub mod lossless;
pub mod picotool_reset;
pub mod pio_capture;
pub mod proto;
pub mod session;
pub mod tx_count;
pub mod wire;
