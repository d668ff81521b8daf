//! The shared framebuffer, its palette and its bitmaps.

use aq_lcd_grab::framebuffer::{
    bmp4_header, bmp4_pixels, bmp_header, bmp_pixels_bgr, default_palette, rgb565_to_rgb888,
    write_bmp, write_rgba8, Framebuffer, Palette4Store, PixelStore, Rgb565Store, BMP4_LEN,
    BMP4_PIXELS_LEN, BMP_LEN, HEIGHT, MISC_INDEX, PIXELS, RGBA8_LEN,
};

fn cmd(fb: &mut Framebuffer<Rgb565Store<'_>>, c: u8) {
    fb.feed(c as u16, false);
}

fn param(fb: &mut Framebuffer<Rgb565Store<'_>>, w: u16) {
    fb.feed(w, true);
}

/// Sets the window, bounds included.
fn set_window(fb: &mut Framebuffer<Rgb565Store<'_>>, cs: u16, ce: u16, rs: u16, re: u16) {
    cmd(fb, 0x2A);
    param(fb, cs >> 8);
    param(fb, cs & 0xFF);
    param(fb, ce >> 8);
    param(fb, ce & 0xFF);
    cmd(fb, 0x2B);
    param(fb, rs >> 8);
    param(fb, rs & 0xFF);
    param(fb, re >> 8);
    param(fb, re & 0xFF);
}

#[test]
fn bmp4_header_and_pixels_are_consistent() {
    let mut bytes = vec![0u8; PIXELS / 2];
    let mut store = Palette4Store::new(&mut bytes, default_palette());
    store.set(0, 0xf800); // red, index 4
    store.set(PIXELS - 1, 0x07e0); // green, index 1

    let header = bmp4_header(&store.palette);
    assert_eq!(&header[0..2], b"BM");
    assert_eq!(u16::from_le_bytes([header[28], header[29]]), 4);
    assert_eq!(
        i32::from_le_bytes([header[22], header[23], header[24], header[25]]),
        -(HEIGHT as i32)
    );
    assert_eq!(header.len() + BMP4_PIXELS_LEN, BMP4_LEN);

    let mut px = vec![0u8; BMP4_PIXELS_LEN];
    let n = bmp4_pixels(&store, 0, PIXELS, &mut px);
    assert_eq!(n, BMP4_PIXELS_LEN);
    assert_eq!(px[0] >> 4, 1, "first output pixel should be green (idx 1)");
    assert_eq!(px[BMP4_PIXELS_LEN - 1] & 0x0F, 4, "last output pixel should be red (idx 4)");
}

#[test]
fn fills_a_window_in_scan_order() {
    let mut buf = vec![0u16; PIXELS];
    let mut fb = Framebuffer::new(Rgb565Store::new(&mut buf));
    set_window(&mut fb, 10, 11, 20, 21);
    cmd(&mut fb, 0x2C);
    param(&mut fb, 0x1111);
    param(&mut fb, 0x2222);
    param(&mut fb, 0x3333);
    param(&mut fb, 0x4444);
    assert_eq!(fb.pixel(10, 20), 0x1111);
    assert_eq!(fb.pixel(11, 20), 0x2222);
    assert_eq!(fb.pixel(10, 21), 0x3333);
    assert_eq!(fb.pixel(11, 21), 0x4444);
}

#[test]
fn palette_store_round_trips_known_colors() {
    let mut bytes = vec![0u8; PIXELS / 2];
    let mut store = Palette4Store::new(&mut bytes, default_palette());
    for &c in &[0x0000u16, 0x07e0, 0xffe0, 0xffff, 0xf800, 0xfd20, 0x8410] {
        store.set(0, c);
        assert_eq!(store.get(0), c, "color {c:#06x} did not round-trip");
    }
}

#[test]
fn palette_store_maps_unknown_to_misc() {
    let mut bytes = vec![0u8; PIXELS / 2];
    let mut store = Palette4Store::new(&mut bytes, default_palette());
    store.set(0, 0x001c); // a dark blue, not in the panel palette
    assert_eq!(store.index_at(0), MISC_INDEX);
}

#[test]
fn palette_nibble_packing() {
    let mut bytes = vec![0u8; PIXELS / 2];
    let mut store = Palette4Store::new(&mut bytes, default_palette());
    store.set(0, 0x07e0);
    store.set(1, 0xf800);
    assert_eq!(store.get(0), 0x07e0);
    assert_eq!(store.get(1), 0xf800);
}

#[test]
fn bmp_has_valid_header_and_length() {
    let mut buf = vec![0u16; PIXELS];
    let mut fb = Framebuffer::new(Rgb565Store::new(&mut buf));
    set_window(&mut fb, 0, 0, 0, 0);
    cmd(&mut fb, 0x2C);
    param(&mut fb, 0xF800);

    let mut out = vec![0u8; BMP_LEN];
    let n = write_bmp(&fb, &mut out);
    assert_eq!(n, BMP_LEN);
    assert_eq!(&out[0..2], b"BM");
    assert_eq!(u32::from_le_bytes([out[2], out[3], out[4], out[5]]), BMP_LEN as u32);
    assert_eq!(u16::from_le_bytes([out[28], out[29]]), 24);
    // The picture is turned: pixel (0, 0) comes last, blue first.
    assert_eq!(&out[BMP_LEN - 3..], &[0, 0, 255]);
    assert_eq!(&out[..54], &bmp_header()[..]);
}

#[test]
fn window_wraps_to_its_start() {
    let mut buf = vec![0u16; PIXELS];
    let mut fb = Framebuffer::new(Rgb565Store::new(&mut buf));
    set_window(&mut fb, 5, 6, 7, 7);
    cmd(&mut fb, 0x2C);
    for c in [1u16, 2, 3] {
        param(&mut fb, c);
    }
    assert_eq!(fb.pixel(5, 7), 3);
    assert_eq!(fb.pixel(6, 7), 2);
}

#[test]
fn memory_write_continue_goes_on() {
    let mut buf = vec![0u16; PIXELS];
    let mut fb = Framebuffer::new(Rgb565Store::new(&mut buf));
    set_window(&mut fb, 0, 2, 0, 0);
    cmd(&mut fb, 0x2C);
    param(&mut fb, 0xA);
    cmd(&mut fb, 0x3C);
    param(&mut fb, 0xB);
    assert_eq!(fb.pixel(0, 0), 0xA);
    assert_eq!(fb.pixel(1, 0), 0xB);
}

#[test]
fn rgb888_spreads_the_channels() {
    assert_eq!(rgb565_to_rgb888(0xffff), (255, 255, 255));
    assert_eq!(rgb565_to_rgb888(0xf800), (255, 0, 0));
    assert_eq!(rgb565_to_rgb888(0x8410), (132, 130, 132));
}

#[test]
fn bitmap_pieces_join() {
    let mut buf: Vec<u16> = (0..PIXELS).map(|i| (i * 31 % 65536) as u16).collect();
    let fb = Framebuffer::new(Rgb565Store::new(&mut buf));
    let mut whole = vec![0u8; 300];
    bmp_pixels_bgr(&fb, 40, 100, &mut whole);
    let mut parts = vec![0u8; 300];
    bmp_pixels_bgr(&fb, 40, 30, &mut parts);
    bmp_pixels_bgr(&fb, 70, 70, &mut parts[90..]);
    assert_eq!(whole, parts);
}

#[test]
fn rgba_is_opaque_and_turned() {
    let mut buf = vec![0u16; PIXELS];
    buf[PIXELS - 1] = 0x07e0;
    let fb = Framebuffer::new(Rgb565Store::new(&mut buf));
    let mut out = vec![0u8; RGBA8_LEN];
    assert_eq!(write_rgba8(&fb, &mut out), RGBA8_LEN);
    assert_eq!(&out[..8], &[0, 255, 0, 255, 0, 0, 0, 255]);
}

#[test]
fn stored_colours_are_packed_in_nibbles() {
    let mut bytes = vec![0u8; PIXELS / 2];
    let mut store = Palette4Store::new(&mut bytes, default_palette());
    store.set(0, 0x07e0);
    store.set(1, 0xf800);
    assert_eq!(store.bytes[0], 0x41);
    assert!(store.bytes[1..].iter().all(|b| *b == 0));
    // Of the black entries the first is taken.
    store.set(0, 0x0000);
    assert_eq!(store.index_at(0), 0);
    assert_eq!(store.index_at(1), 4);
}
