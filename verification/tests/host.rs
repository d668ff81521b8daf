//! The host side: decoders, glyphs, the picture and the viewer.

use std::collections::{HashSet, VecDeque};

use aq_lcd_grab::fnv::{fnv_init, fnv_mix};
use aq_lcd_grab::host::board::Board;
use aq_lcd_grab::host::bus_decoder::BusDecoder;
use aq_lcd_grab::host::decoder::{row_name, short_label, Decoder};
use aq_lcd_grab::host::dump::dump_window;
use aq_lcd_grab::host::framebuffer::{Framebuffer, WindowWrite};
use aq_lcd_grab::host::lines;
use aq_lcd_grab::host::permute::{permute_f103, permute_pico};
use aq_lcd_grab::host::size::parse_size;
use aq_lcd_grab::host::sync::{sync_next, sync_start, Drain, SyncStep};
use aq_lcd_grab::host::templates::{any_of_size, find_collision, find_label, hash_picture, Template};
use aq_lcd_grab::host::viewer::{push_log, Action, LogEntry, Next, Received, Viewer, LOG_CAP};
use aq_lcd_grab::host::wire::{parse_one, Decoder as BufferedDecoder, Event};
use aq_lcd_grab::wire::{
    Encoder, VecSink, WireError, WireEvent, HOST_CMD_START, HOST_CMD_STOP, TAG_STARTED,
    TAG_STOPPED,
};

/// The words that draw a window: its bounds, then its pixels.
fn window_words(x: u16, y: u16, w: u16, h: u16, pixels: &[u16]) -> Vec<(u16, bool)> {
    let (xe, ye) = (x + w - 1, y + h - 1);
    let mut words = vec![(0x2A, false)];
    for p in [x >> 8, x & 0xFF, xe >> 8, xe & 0xFF] {
        words.push((p, true));
    }
    words.push((0x2B, false));
    for p in [y >> 8, y & 0xFF, ye >> 8, ye & 0xFF] {
        words.push((p, true));
    }
    words.push((0x2C, false));
    for &p in pixels {
        words.push((p, true));
    }
    words
}

/// A glyph of 2 by 2 pixels: its upper left pixel is set.
fn corner() -> &'static [Template] {
    let hash = hash_picture(&[true, false, false, false]);
    vec![Template { w: 2, h: 2, label: "7", hash }].leak()
}

/// The place on the panel of a 2 by 2 window that shows at `(x, y)`.
fn place(x: u16, y: u16) -> (u16, u16) {
    (320 - x - 2, 480 - y - 2)
}

#[test]
fn fnv_of_one_byte() {
    assert_eq!(fnv_init(), 0xcbf2_9ce4_8422_2325);
    assert_eq!(fnv_mix(fnv_init(), b'a'), 0xaf63_dc4c_8601_ec8c);
}

#[test]
fn pico_samples_are_in_order() {
    assert_eq!(permute_pico(0x0002_1234), (0x1234, true));
    assert_eq!(permute_pico(0x0001_1234), (0x1234, false));
}

#[test]
fn f103_samples_are_put_in_order() {
    // DC is the highest bit of the second port, and DB0 its bit 5.
    assert_eq!(permute_f103(1 << 31), (0, true));
    assert_eq!(permute_f103(1 << 21), (1, false));
    assert_eq!(permute_f103(1 << 1), (1 << 8, false));
    assert_eq!(permute_f103(1 << 16), (1 << 14, false));
}

#[test]
fn boards_have_ports() {
    assert_eq!(Board::Pico.default_port(), "/dev/ttyACM0");
    assert_eq!(Board::F103.default_port(), "/dev/ttyUSB0");
    assert_eq!(Board::Pico.permute(0x0002_0005), (5, true));
    assert_eq!(Board::F103.permute(1 << 31), (0, true));
}

#[test]
fn transactions_end_with_the_next_command() {
    let mut bus = BusDecoder::new();
    assert!(bus.feed(0x2A, false).is_none());
    assert!(bus.feed(1, true).is_none());
    assert!(bus.feed_run(3, 9, true).is_none());
    let tx = bus.feed(0x2B, false).unwrap();
    assert_eq!(tx.cmd, 0x2A);
    assert_eq!(tx.data, [1, 9, 9, 9]);
}

#[test]
fn data_before_a_command_is_dropped() {
    let mut bus = BusDecoder::new();
    assert!(bus.feed(7, true).is_none());
    assert!(bus.feed(0x11, false).is_none());
    assert!(bus.feed_run(2, 0x29, false).is_some());
}

#[test]
fn window_writes_are_handed_out() {
    let mut fb = Framebuffer::new();
    let mut bus = BusDecoder::new();
    let mut writes: Vec<WindowWrite> = Vec::new();
    let mut words = window_words(3, 4, 2, 2, &[1, 2, 3, 4]);
    words.push((0, false));
    for (data, is_data) in words {
        if let Some(tx) = bus.feed(data, is_data) {
            writes.extend(fb.apply(&tx));
        }
    }
    assert_eq!(writes.len(), 1);
    assert_eq!((writes[0].x, writes[0].y, writes[0].w, writes[0].h), (3, 4, 2, 2));
    assert_eq!(writes[0].pixels, [1, 2, 3, 4]);
    assert_eq!(fb.pixels[4 * 320 + 3], 1);
    assert_eq!(fb.pixels[5 * 320 + 4], 4);
    // Turned upright: the last pixel is first, and opaque.
    assert_eq!(fb.to_rgba8().len(), 320 * 480 * 4);
    assert_eq!(&fb.to_rgba8()[..4], &[0, 0, 0, 255]);
}

#[test]
fn templates_are_found_by_size_and_hash() {
    let known = corner();
    assert!(any_of_size(known, 2, 2));
    assert!(!any_of_size(known, 2, 3));
    assert_eq!(find_label(known, 2, 2, known[0].hash), "7");
    assert_eq!(find_label(known, 2, 2, known[0].hash ^ 1), "#");
    assert_eq!(find_collision(known), None);
    let twice = [known[0], Template { label: "8", ..known[0] }];
    assert_eq!(find_collision(&twice), Some((0, 1)));
}

#[test]
fn hash_does_not_depend_on_the_tone() {
    assert_eq!(
        hash_picture(&[true, false, false, false]),
        hash_picture(&[false, true, true, true])
    );
    assert_ne!(
        hash_picture(&[true, false, false, false]),
        hash_picture(&[true, true, false, false])
    );
    assert_eq!(hash_picture(&[]), fnv_init());
}

#[test]
fn labels_show_as_one_character() {
    assert_eq!(short_label("blank"), ' ');
    assert_eq!(short_label("dot"), '.');
    assert_eq!(short_label(""), '?');
    assert_eq!(short_label("9"), '9');
}

#[test]
fn drawn_glyphs_are_read() {
    let mut dec = Decoder::new(corner());
    let (x, y) = place(100, 60);
    // Upside down, the set pixel is drawn last.
    for (data, is_data) in window_words(x, y, 2, 2, &[5, 5, 5, 0xF800]) {
        if let Some(out) = dec.feed(data, is_data) {
            let g = out.glyph.unwrap();
            assert_eq!((g.disp_x, g.disp_y, g.label), (100, 60, "7"));
        }
    }
    // A shape that is not known, to its right.
    let (x, y) = place(110, 60);
    for (data, is_data) in window_words(x, y, 2, 2, &[5, 6, 5, 6]) {
        dec.feed(data, is_data);
    }
    let reports = dec.flush();
    assert_eq!(reports.len(), 1);
    assert_eq!((reports[0].row, reports[0].name), (0, "pm25"));
    assert_eq!(reports[0].value, "7#");
    assert!(dec.flush().is_empty());
    assert_eq!(row_name(4), "humidity");
}

#[test]
fn windows_outside_the_rows_are_not_read() {
    let mut dec = Decoder::new(corner());
    let (x, y) = place(10, 10);
    for (data, is_data) in window_words(x, y, 2, 2, &[5, 5, 5, 6]) {
        assert!(dec.feed(data, is_data).is_none());
    }
    assert!(dec.flush().is_empty());
}

#[test]
fn windows_that_overlap_a_row_are_read() {
    // The top left corner shows one column left of the first row.
    let mut dec = Decoder::new(corner());
    let (x, y) = place(79, 60);
    let mut out = None;
    for (data, is_data) in window_words(x, y, 2, 2, &[5, 5, 5, 6]) {
        out = dec.feed(data, is_data);
    }
    let glyph = out.unwrap().glyph.unwrap();
    assert_eq!((glyph.disp_x, glyph.disp_y, glyph.label), (79, 60, "7"));
    // It belongs to no row, because its corner lies in none.
    assert!(dec.flush().is_empty());
    // One column further away nothing overlaps.
    let (x, y) = place(78, 60);
    for (data, is_data) in window_words(x, y, 2, 2, &[5, 5, 5, 6]) {
        assert!(dec.feed(data, is_data).is_none());
    }
}

#[test]
fn glyphs_are_saved_once() {
    let mut pixels = vec![3u16; 80];
    pixels[79] = 4;
    let win = WindowWrite { x: 0, y: 0, w: 8, h: 10, pixels };
    let mut seen: HashSet<u64> = HashSet::new();
    let dump = dump_window(&win, &mut seen).unwrap();
    assert_eq!((dump.w, dump.h), (8, 10));
    assert_eq!(dump.stem, "8x10_312_470");
    // The odd pixel out is white, and first once upright.
    assert_eq!(&dump.rgba[..8], &[255, 255, 255, 255, 0, 0, 0, 255]);
    assert!(dump_window(&win, &mut seen).is_none());
    assert_eq!(seen.len(), 1);
    let sliver = WindowWrite { x: 0, y: 0, w: 7, h: 10, pixels: vec![0; 70] };
    assert!(dump_window(&sliver, &mut seen).is_none());
}

#[test]
fn lines_have_their_columns() {
    assert_eq!(lines::cmd_name(0x2C), "MEMORY_WRITE");
    assert_eq!(lines::format_run(Board::Pico, 3, 0x0002_0041), "RUN   n=    3 00020041(D:0041)");
    assert_eq!(lines::format_block(Board::Pico, &vec![0x2A]), "BLOCK n=  1 0000002a(C:002a)");
    assert_eq!(
        lines::format_repeat2(Board::Pico, 1, 2, &vec![3, 4]),
        "RPT2  runs=  2 total=    7  A=00000001(C:0001)  B=00000002(C:0002)  lens=[3, 4]"
    );
    assert_eq!(
        lines::format_tick(1, 2, 3, 4, 5),
        "TICK  t=         1us dt=    2us drained=    3 pending=    4 bytes_out=         5"
    );
    assert_eq!(lines::format_overrun(12), "(firmware lost 12 WR edges)");
}

#[test]
fn transactions_are_spelled() {
    let mut bus = BusDecoder::new();
    bus.feed(0x2A, false);
    for w in 0..8u16 {
        bus.feed(w, true);
    }
    let tx = bus.feed(0x11, false).unwrap();
    let line = lines::format_tx(&tx);
    assert!(line.starts_with("0x2a SET_COLUMN_ADDRESS [8] 0000 0001 0002 0003 0004 0005"), "{line}");
}

#[test]
fn handshake_waits_for_the_acknowledgement() {
    let mut step = sync_start();
    assert_eq!(step, SyncStep::Send(HOST_CMD_STOP));
    step = sync_next(step, false);
    assert_eq!(step, SyncStep::DrainFor(TAG_STOPPED));
    assert_eq!(sync_next(step, false), SyncStep::Failed);
    step = sync_next(step, true);
    assert_eq!(step, SyncStep::Send(HOST_CMD_START));
    assert_eq!(sync_next(step, true), SyncStep::Synced);
}

#[test]
fn drain_sums_up() {
    let mut drain = Drain::new(TAG_STOPPED);
    drain.absorb(&[1, 2]);
    assert!(!drain.found());
    drain.absorb(&[TAG_STOPPED]);
    assert!(drain.found());
    assert_eq!(
        drain.summary(),
        "sync: discarded 3 bytes while draining (looking for 0xfc, FOUND); first bytes: [01, 02, fc]"
    );
}

#[test]
fn buffered_decoder_keeps_a_partial_frame() {
    let mut dec = BufferedDecoder::new();
    assert!(dec.feed(&[2, 3, 0]).unwrap().is_empty());
    let events = dec.feed(&[9, 0, 0, 0]).unwrap();
    assert_eq!(events.len(), 1);
    assert!(matches!(events[0], Event::Run { n: 3, sample: 9 }));
    let err = dec.feed(&[0x66]).unwrap_err();
    assert!(err.message().contains("66"), "{}", err.message());
}

#[test]
fn buffered_decoder_keeps_text_that_is_not_utf8() {
    let events = BufferedDecoder::new().feed(&[0xFE, b'a', 0xFF, 0]).unwrap();
    match &events[0] {
        Event::Log(text) => assert_eq!(text, "a\u{fffd}"),
        other => panic!("{other:?}"),
    }
}

#[test]
fn activity_log_is_bounded() {
    let mut log: VecDeque<LogEntry> = VecDeque::new();
    for i in 0..LOG_CAP + 5 {
        push_log(&mut log, LogEntry::Msg(format!("{i}")));
    }
    assert_eq!(log.len(), LOG_CAP);
    match &log[0] {
        LogEntry::Msg(m) => assert_eq!(m, "5"),
        LogEntry::Tx(_) => panic!("not a transaction"),
    }
}

/// The wire bytes of a window drawn on a Pico's bus, with a log line at the end.
fn session_bytes(words: &[(u16, bool)]) -> Vec<u8> {
    let mut enc = Encoder::default();
    let mut sink = VecSink::new();
    enc.started(&mut sink);
    for &(data, is_data) in words {
        enc.feed(data as u32 | if is_data { 0x2_0000 } else { 0 }, &mut sink);
    }
    enc.flush(&mut sink);
    enc.log("refreshed", &mut sink);
    sink.bytes
}

#[test]
fn viewer_tells_what_was_drawn() {
    let (x, y) = place(100, 60);
    let mut viewer = Viewer::new(Board::Pico, corner(), false);
    let mut out: Vec<Action> = Vec::new();
    viewer.take_bytes(&session_bytes(&window_words(x, y, 2, 2, &[5, 5, 5, 6])), &mut out).unwrap();
    let printed: Vec<&str> = out
        .iter()
        .map(|a| match a {
            Action::Print(line) => line.as_str(),
            Action::Save(_) => panic!("nothing is saved"),
        })
        .collect();
    assert!(printed.contains(&"→ 2x2@(100,060) = \"7\""), "{printed:?}");
    assert!(printed.contains(&"• refreshed"), "{printed:?}");
    assert_eq!(viewer.values_by_name(), [("pm25", "7".to_string())]);
    assert_eq!(viewer.fb.pixels[y as usize * 320 + x as usize], 0);
}

#[test]
fn viewer_fails_on_a_lost_stream() {
    let mut viewer = Viewer::new(Board::F103, &[], false);
    let mut out: Vec<Action> = Vec::new();
    let err = viewer.take_bytes(&[TAG_STARTED, 0x42], &mut out).unwrap_err();
    assert_eq!(err, WireError::BadTag(0x42));
    assert_eq!(viewer.log.len(), 1);
}

#[test]
fn viewer_saves_windows() {
    let mut pixels = vec![1u16; 64];
    pixels[0] = 2;
    let mut viewer = Viewer::new(Board::Pico, &[], true);
    let mut out: Vec<Action> = Vec::new();
    for (data, is_data) in window_words(0, 0, 8, 8, &pixels) {
        let sample = data as u32 | if is_data { 0x2_0000 } else { 0 };
        viewer.dispatch_event(&WireEvent::Run { n: 1, sample }, &mut out);
    }
    viewer.dispatch_event(&WireEvent::Run { n: 1, sample: 0 }, &mut out);
    let saved = out.iter().filter(|a| matches!(a, Action::Save(_))).count();
    assert_eq!(saved, 1);
    viewer.dispatch_event(&WireEvent::Overrun { dropped: 3 }, &mut out);
    match out.last() {
        Some(Action::Print(line)) => assert_eq!(line, "! (firmware lost 3 WR edges)"),
        _ => panic!("nothing printed"),
    }
}

#[test]
fn sizes_are_two_numbers() {
    assert_eq!(parse_size("12x34"), Some((12, 34)));
    assert_eq!(parse_size("+1x65535"), Some((1, 65535)));
    assert_eq!(parse_size("1x65536"), None);
    assert_eq!(parse_size("1x"), None);
    assert_eq!(parse_size("1x2x3"), None);
    assert_eq!(parse_size("+x3"), None);
    assert_eq!(parse_size("12"), None);
}

#[test]
fn viewer_tells_rows_when_the_stream_is_quiet() {
    let (x, y) = place(100, 60);
    let mut enc = Encoder::default();
    let mut sink = VecSink::new();
    for (data, is_data) in window_words(x, y, 2, 2, &[5, 5, 5, 6]) {
        enc.feed(data as u32 | if is_data { 0x2_0000 } else { 0 }, &mut sink);
    }
    enc.feed(0, &mut sink);
    enc.flush(&mut sink);
    let mut viewer = Viewer::new(Board::Pico, corner(), false);
    let mut out: Vec<Action> = Vec::new();
    assert_eq!(viewer.receive(&Received::Bytes(sink.bytes), &mut out), Next::GoOn);
    assert!(viewer.values_by_name().is_empty());
    assert_eq!(viewer.receive(&Received::Quiet, &mut out), Next::GoOn);
    assert_eq!(viewer.values_by_name(), [("pm25", "7".to_string())]);
    let told = out.len();
    assert_eq!(viewer.receive(&Received::End, &mut out), Next::Ended);
    assert_eq!(out.len(), told);
    let lost = viewer.receive(&Received::Bytes(vec![0x42]), &mut out);
    assert_eq!(lost, Next::Lost(0x42));
}

#[test]
fn a_frame_is_read_from_its_own_bytes() {
    let mut enc = Encoder::default();
    let mut sink = VecSink::new();
    enc.log("hello", &mut sink);
    let n = sink.bytes.len();
    for m in 0..n {
        assert!(parse_one(&sink.bytes[..m]).unwrap().is_none());
    }
    for later in [&[][..], &[0x42][..], &[TAG_STARTED, 0, 0][..]] {
        let mut bytes = sink.bytes.clone();
        bytes.extend(later);
        match parse_one(&bytes).unwrap() {
            Some((Event::Log(text), took)) => assert_eq!((text.as_str(), took), ("hello", n)),
            _ => panic!("no log line"),
        }
    }
}
