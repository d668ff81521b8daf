//! The ESP32 gateway: decodes the bus on the chip, publishes the sensor values
//! and serves the picture.

pub mod build_time;
pub mod gateway;
pub mod http;
pub mod logger;
pub mod mqtt;
pub mod pipeline;
pub mod secrets;
pub mod timeline;
pub mod values;
