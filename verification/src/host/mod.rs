//! The viewer's side: from raw samples to a picture and to sensor values.

pub mod board;
pub mod bus_decoder;
pub mod decoder;
pub mod dump;
pub mod framebuffer;
pub mod lines;
pub mod parser;
pub mod permute;
pub mod sample;
pub mod size;
pub mod sync;
pub mod templates;
pub mod viewer;
pub mod wire;
