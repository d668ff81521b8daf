//! The STM32F103 capture board.

pub mod capture;
pub mod lifetime;
pub mod session;
pub mod uart;
pub mod wire;
