# aq-lcd-grab

Listens to the parallel bus between an air quality meter and its ILI9486 display,
rebuilds the picture, and reads the sensor values off it. The library is written in
Verus: what each function does is stated in its contract and proved.

## Layout

- `src/wire` is the capture stream between the boards and their readers: frames,
  the streaming encoder and decoder, and what survives the way from one to the other.
- `src/framebuffer`, `src/panel.rs`, `src/fnv.rs` are shared by host and gateway: the
  picture, its palette store and bitmaps, the window on the panel, and glyph hashes.
- `src/host` is the viewer: wiring of the boards, transactions on the bus, glyph
  templates, rows of values, what is printed and saved, and the handshake.
- `src/firmware` is the Raspberry Pi Pico capture board, `src/firmware_stm32` the
  STM32F103 one: encoders, DMA ring bookkeeping and sessions with the host.
- `src/firmware_esp32` is the ESP32-C6 gateway, which decodes on the chip: pipeline,
  latest values, publishing rules, log ring and HTTP bodies.
- `src/text.rs` and `src/fixed.rs` hold the calls into `std` and `heapless` whose
  contracts are trusted.
- `tests` runs the library.
- `app` is the viewer program: serial port, window and files. `app/boards` holds the
  programs of the three boards and the gateway's build script. Each is built for its
  own target with that target's crates, apart from the viewer.

Public proof functions named `law_*` state what holds of several functions together,
such as that every sample fed to an encoder comes out of the decoder, in order.
