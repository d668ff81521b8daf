//! Verified core of a display-bus grabber: the capture boards' wire protocol,
//! the bus decoders behind it, and the framebuffer and glyph readers that turn
//! a captured bus into pictures and sensor values.

pub mod bytes;
pub mod firmware;
pub mod firmware_esp32;
pub mod firmware_stm32;
pub mod fixed;
pub mod fnv;
pub mod framebuffer;
pub mod host;
pub mod panel;
pub mod text;
pub mod wire;
