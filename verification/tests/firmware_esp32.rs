//! The ESP32 gateway.

use aq_lcd_grab::firmware_esp32::build_time::{build_timestamp, days_to_ymd};
use aq_lcd_grab::firmware_esp32::gateway::{Gateway, Got, Wish};
use aq_lcd_grab::firmware_esp32::http::{values_json, PixelStream, CHUNK_PX};
use aq_lcd_grab::firmware_esp32::logger::{append, format_line, log, new_ring, pop_line, CAP};
use aq_lcd_grab::firmware_esp32::mqtt::{
    client_id, is_value_malformed, sensor, Connection, Phase, Publisher, Watchdog, DEBOUNCE_US,
    WATCHDOG_US,
};
use aq_lcd_grab::firmware_esp32::pipeline::Pipeline;
use aq_lcd_grab::firmware_esp32::secrets::{key_source, secret, unit_id, update_key};
use aq_lcd_grab::firmware_esp32::values::{
    record_value, row_index, short_value, LatestValues, RowUpdate,
};
use aq_lcd_grab::framebuffer::{
    bmp4_header, bmp4_pixels, default_palette, Framebuffer, Palette4Store, PixelStore, BMP4_LEN,
    BMP4_PIXELS_LEN, PIXELS,
};
use aq_lcd_grab::host::board::Board;
use aq_lcd_grab::host::templates::{hash_picture, Template};
use aq_lcd_grab::wire::{Encoder, VecSink, WireError, TAG_STOPPED};

#[test]
fn values_are_recorded_by_name() {
    let mut latest = LatestValues::new();
    record_value(&mut latest, "co2", "586");
    record_value(&mut latest, "noise", "1");
    record_value(&mut latest, "temp", "26");
    assert_eq!(latest.get(2), "586");
    assert_eq!(latest.get(3), "26");
    assert_eq!(latest.get(0), "");
    assert_eq!(row_index("humidity"), Some(4));
    assert_eq!(row_index("noise"), None);
    // What does not fit is not recorded.
    record_value(&mut latest, "temp", "01234567890123456");
    assert_eq!(latest.get(3), "");
}

#[test]
fn values_are_served_as_json() {
    let mut latest = LatestValues::new();
    for (name, value) in
        [("pm25", "6"), ("tvoc", "0.1"), ("co2", "586"), ("temp", "26"), ("humidity", "55")]
    {
        record_value(&mut latest, name, value);
    }
    assert_eq!(
        values_json(&latest).as_str(),
        r#"{"pm25":"6","tvoc":"0.1","co2":"586","temp":"26","humidity":"55"}"#
    );
}

#[test]
fn picture_is_served_in_pieces() {
    let mut bytes = vec![0u8; PIXELS / 2];
    let mut store = Palette4Store::new(&mut bytes, default_palette());
    for i in 0..PIXELS {
        store.set(i, (i * 37 % 65536) as u16);
    }
    let mut stream = PixelStream::new();
    let mut chunk = [0u8; CHUNK_PX / 2];
    let mut served: Vec<u8> = bmp4_header(&store.palette).to_vec();
    loop {
        let n = stream.next_chunk(&store, &mut chunk);
        if n == 0 {
            break;
        }
        served.extend_from_slice(&chunk[..n]);
    }
    assert_eq!(served.len(), BMP4_LEN);
    let mut whole = vec![0u8; BMP4_PIXELS_LEN];
    bmp4_pixels(&store, 0, PIXELS, &mut whole);
    assert_eq!(&served[BMP4_LEN - BMP4_PIXELS_LEN..], &whole[..]);
}

#[test]
fn lines_come_off_the_log() {
    let mut ring = new_ring();
    let mut line: heapless::String<256> = heapless::String::new();
    assert!(!pop_line(&mut ring, &mut line));
    log(&mut ring, "INFO", 42, &vec!["a = ".to_string(), "1".to_string()]);
    append(&mut ring, b"rest");
    assert!(pop_line(&mut ring, &mut line));
    assert_eq!(line.as_str(), "INFO (42) - a = 1");
    assert!(!pop_line(&mut ring, &mut line));
    assert_eq!(line.as_str(), "");
    append(&mut ring, b"\xE9\n");
    assert!(pop_line(&mut ring, &mut line));
    assert_eq!(line.as_str(), "rest\u{e9}");
}

#[test]
fn log_lines_stop_at_what_does_not_fit() {
    let line = format_line("WARN", 7, &vec!["x".repeat(300), "y".to_string()]);
    assert_eq!(line.as_str(), "WARN (7) - ");
    let line = format_line("WARN", 7, &vec!["x".repeat(244)]);
    assert_eq!(line.len(), 256);
    assert!(line.as_str().ends_with('\n'));
}

#[test]
fn log_loses_its_oldest_bytes() {
    let mut ring = new_ring();
    append(&mut ring, &[b'a'; CAP]);
    append(&mut ring, b"b\n");
    assert_eq!(ring.len(), CAP);
    let mut line: heapless::String<256> = heapless::String::new();
    assert!(pop_line(&mut ring, &mut line));
    // A line that is too long is cut, and its end is consumed.
    assert_eq!(line.as_str(), "a".repeat(256));
    assert!(ring.is_empty());
}

#[test]
fn malformed_values_are_noticed() {
    for good in ["", "0", "0.1", "12", "1 2", "100"] {
        assert!(!is_value_malformed(good), "{good:?}");
    }
    for bad in ["1#", "1  2", "012", "00"] {
        assert!(is_value_malformed(bad), "{bad:?}");
    }
}

#[test]
fn sensors_are_wired() {
    let s = sensor(0, "aq", "Air");
    assert_eq!(s.row, "pm25");
    assert_eq!(s.disc_topic, "homeassistant/sensor/aq/pm25/config");
    assert_eq!(s.state_topic, "aq/pm25");
    assert_eq!(
        s.disc_payload,
        "{\"name\":\"PM2.5\",\"uniq_id\":\"aq_pm25\",\"stat_t\":\"aq/pm25\",\"dev_cla\":\"pm25\",\
         \"unit_of_meas\":\"\u{b5}g/m\u{b3}\",\"stat_cla\":\"measurement\",\
         \"dev\":{\"ids\":[\"aq\"],\"name\":\"Air\"}}"
    );
    assert_eq!(client_id("aq"), "aq_lcd_aq");
    assert_ne!(sensor(3, "aq2", "Air").state_topic, sensor(3, "aq", "Air").state_topic);
}

#[test]
fn changes_are_published_once_they_stand() {
    let mut p = Publisher::new();
    assert_eq!(p.next_wake(), None);
    p.on_update("co2", &short_value("605"), 0);
    assert_eq!(p.next_wake(), Some(DEBOUNCE_US));
    assert!(p.due(DEBOUNCE_US - 1).is_empty());
    assert_eq!(p.due(DEBOUNCE_US), [2]);
    assert_eq!(p.payload(2), "605");
    p.published(2);
    assert_eq!(p.next_wake(), None);
    // A value on the way to another is not published.
    p.on_update("co2", &short_value("505"), 1_000_000);
    p.on_update("co2", &short_value("599"), 1_100_000);
    p.on_update("co2", &short_value("599"), 1_300_000);
    assert!(p.due(1_599_999).is_empty());
    assert_eq!(p.due(1_600_000), [2]);
    assert_eq!(p.payload(2), "599");
    // Back to what was published.
    p.on_update("co2", &short_value("605"), 1_500_000);
    assert_eq!(p.next_wake(), None);
    p.on_update("noise", &short_value("1"), 0);
    assert_eq!(p.next_wake(), None);
}

#[test]
fn several_changes_can_be_due() {
    let mut p = Publisher::new();
    p.on_update("humidity", &short_value("55"), 10);
    p.on_update("pm25", &short_value("6"), 20);
    assert_eq!(p.next_wake(), Some(DEBOUNCE_US + 10));
    assert_eq!(p.due(DEBOUNCE_US + 20), [0, 4]);
}

#[test]
fn watchdog_bites_after_five_minutes() {
    let mut p = Publisher::new();
    assert_eq!(p.watch(5), Watchdog::Clean);
    p.on_update("temp", &short_value("#6"), 0);
    p.published(3);
    assert_eq!(p.watch(10), Watchdog::Armed);
    assert_eq!(p.watch(9 + WATCHDOG_US), Watchdog::Armed);
    assert_eq!(p.watch(10 + WATCHDOG_US), Watchdog::Reboot);
    p.on_update("temp", &short_value("26"), 0);
    p.published(3);
    assert_eq!(p.watch(11 + WATCHDOG_US), Watchdog::Disarmed);
    assert_eq!(p.watch(12 + WATCHDOG_US), Watchdog::Clean);
}

#[test]
fn connection_is_set_up_step_by_step() {
    let mut c = Connection::new();
    assert_eq!(c.advance(false), 10);
    assert_eq!(c.phase, Phase::Resolve);
    for want in [Phase::Dial, Phase::LogIn, Phase::Announce(0), Phase::Announce(1)] {
        assert_eq!(c.advance(true), 0);
        assert_eq!(c.phase, want);
    }
    assert_eq!(c.advance(false), 5);
    assert_eq!(c.phase, Phase::Resolve);
    c.publisher.on_update("pm25", &short_value("6"), 0);
    for _ in 0..8 {
        assert_eq!(c.advance(true), 0);
    }
    assert_eq!(c.phase, Phase::Connected);
    // What was known over an earlier connection is forgotten.
    assert_eq!(c.publisher.next_wake(), None);
    assert_eq!(c.advance(true), 0);
    assert_eq!(c.phase, Phase::Connected);
    assert_eq!(c.advance(false), 0);
    assert_eq!(c.phase, Phase::Resolve);
}

/// A 2 by 2 glyph, and the wire bytes that draw it where `pm25` shows: what they
/// are, where on the panel, and how many of them come before a log line.
fn drawn_seven() -> (&'static [Template], Vec<u8>, (u16, u16), usize) {
    let hash = hash_picture(&[true, false, false, false]);
    let known: &'static [Template] = vec![Template { w: 2, h: 2, label: "7", hash }].leak();
    // A window that shows at (100, 60), turned.
    let (x, y) = (320u16 - 102, 480u16 - 62);
    let mut words = vec![(0x2Au16, false)];
    for p in [x >> 8, x & 0xFF, (x + 1) >> 8, (x + 1) & 0xFF] {
        words.push((p, true));
    }
    words.push((0x2B, false));
    for p in [y >> 8, y & 0xFF, (y + 1) >> 8, (y + 1) & 0xFF] {
        words.push((p, true));
    }
    words.push((0x2C, false));
    for p in [0x0000u16, 0x0000, 0x0000, 0xF800] {
        words.push((p, true));
    }
    let mut enc = Encoder::default();
    let mut sink = VecSink::new();
    for (data, is_data) in words {
        enc.feed(data as u32 | if is_data { 0x2_0000 } else { 0 }, &mut sink);
    }
    enc.flush(&mut sink);
    let drawn = sink.bytes.len();
    enc.log("idle", &mut sink);
    (known, sink.bytes, (x, y), drawn)
}

#[test]
fn pipeline_paints_and_reads() {
    let (known, stream, (x, y), drawn) = drawn_seven();
    let mut bytes = vec![0u8; PIXELS / 2];
    let mut fb = Framebuffer::new(Palette4Store::new(&mut bytes, default_palette()));
    let mut pipeline = Pipeline::new(Board::Pico, known);
    let mut updates: Vec<RowUpdate> = Vec::new();
    pipeline.feed(&stream[..drawn], &mut fb, &mut updates).unwrap();
    assert!(updates.is_empty());
    assert_eq!(fb.pixel(x + 1, y + 1), 0xF800);
    pipeline.feed(&stream[drawn..], &mut fb, &mut updates).unwrap();
    assert_eq!(updates.len(), 1);
    assert_eq!(updates[0].name, "pm25");
    assert_eq!(updates[0].value.as_str(), "7");
}

#[test]
fn pipeline_starts_over_after_an_error() {
    let mut bytes = vec![0u8; PIXELS / 2];
    let mut fb = Framebuffer::new(Palette4Store::new(&mut bytes, default_palette()));
    let mut pipeline = Pipeline::new(Board::F103, &[]);
    let mut updates: Vec<RowUpdate> = Vec::new();
    let err = pipeline.feed(&[0x99, 1, 2], &mut fb, &mut updates).unwrap_err();
    assert_eq!(err, WireError::BadTag(0x99));
    assert!(pipeline.feed(&[TAG_STOPPED], &mut fb, &mut updates).is_ok());
}

#[test]
fn gateway_starts_its_board_and_reads() {
    let (known, stream, _, drawn) = drawn_seven();
    let mut bytes = vec![0u8; PIXELS / 2];
    let mut fb = Framebuffer::new(Palette4Store::new(&mut bytes, default_palette()));
    let mut latest = LatestValues::new();
    let mut updates: Vec<RowUpdate> = Vec::new();
    let mut gateway = Gateway::new(Board::Pico, known);
    for wish in [Wish::Send(2), Wish::Pause(50), Wish::Send(1), Wish::Read] {
        assert_eq!(gateway.wish(), wish);
        gateway.advance(&Got::Done, &mut fb, &mut latest, &mut updates);
    }
    gateway.advance(&Got::Bytes(stream[..drawn].to_vec()), &mut fb, &mut latest, &mut updates);
    gateway.advance(&Got::Bytes(Vec::new()), &mut fb, &mut latest, &mut updates);
    assert!(updates.is_empty());
    gateway.advance(&Got::Bytes(stream[drawn..].to_vec()), &mut fb, &mut latest, &mut updates);
    assert_eq!(updates.len(), 1);
    assert_eq!(latest.get(0), "7");
    assert_eq!(latest.get(1), "");
    assert_eq!(gateway.wish(), Wish::Read);
    gateway.advance(&Got::Failed, &mut fb, &mut latest, &mut updates);
    assert_eq!(gateway.wish(), Wish::Pause(100));
    gateway.advance(&Got::Done, &mut fb, &mut latest, &mut updates);
    let bad = gateway.advance(&Got::Bytes(vec![0x99]), &mut fb, &mut latest, &mut updates);
    assert_eq!(bad, Some(0x99));
    // The board is stopped and started again.
    for wish in [Wish::Send(2), Wish::Pause(50), Wish::Send(1)] {
        assert_eq!(gateway.wish(), wish);
        gateway.advance(&Got::Done, &mut fb, &mut latest, &mut updates);
    }
    assert_eq!(gateway.wish(), Wish::Read);
}

#[test]
fn losses_of_the_board_are_told() {
    let mut bytes = vec![0u8; PIXELS / 2];
    let mut fb = Framebuffer::new(Palette4Store::new(&mut bytes, default_palette()));
    let mut latest = LatestValues::new();
    let mut updates: Vec<RowUpdate> = Vec::new();
    let mut gateway = Gateway::new(Board::F103, &[]);
    for _ in 0..3 {
        assert_eq!(gateway.advance(&Got::Done, &mut fb, &mut latest, &mut updates), None);
    }
    let mut enc = Encoder::default();
    let mut sink = VecSink::new();
    enc.overrun(4096, &mut sink);
    enc.overrun(7, &mut sink);
    let bad = gateway.advance(&Got::Bytes(sink.bytes), &mut fb, &mut latest, &mut updates);
    assert_eq!(bad, None);
    assert_eq!(gateway.take_lost(), [4096, 7]);
    assert!(gateway.take_lost().is_empty());
}

#[test]
fn connections_publish_changes_that_stood() {
    let value = |s| short_value(s);
    let mut publisher = Publisher::new();
    let mut out: Vec<(usize, String, u64)> = Vec::new();
    let told = [
        ("co2", "586", 0u64),
        ("noise", "3", 10),
        ("co2", "58", 300_000),
        ("co2", "587", 400_000),
        ("temp", "26", 450_000),
        ("co2", "587", 800_000),
        ("co2", "999", 1_000_000),
        ("co2", "587", 1_200_000),
    ];
    let mut next = 0;
    for now in (0..3_000_000u64).step_by(50_000) {
        while next < told.len() && told[next].2 <= now {
            publisher.on_update(told[next].0, &value(told[next].1), told[next].2);
            next += 1;
        }
        for idx in publisher.due(now) {
            out.push((idx, publisher.payload(idx).to_string(), now));
            publisher.published(idx);
        }
    }
    assert_eq!(
        out,
        [(2, "587".to_string(), 900_000), (3, "26".to_string(), 950_000)]
    );
}

#[test]
fn days_are_dates() {
    assert_eq!(days_to_ymd(0), (1970, 1, 1));
    assert_eq!(days_to_ymd(11_016), (2000, 2, 29));
    assert_eq!(days_to_ymd(11_017), (2000, 3, 1));
    assert_eq!(days_to_ymd(47_540), (2100, 2, 28));
    assert_eq!(days_to_ymd(47_541), (2100, 3, 1));
    assert_eq!(build_timestamp(0), "1970-01-01 00:00:00 UTC");
    assert_eq!(build_timestamp(951_782_399), "2000-02-28 23:59:59 UTC");
    assert_eq!(build_timestamp(951_782_400), "2000-02-29 00:00:00 UTC");
}

#[test]
fn settings_are_read_from_their_file() {
    let file = "# WIFI_SSID=none\r\n WIFI_SSID = my net \r\nplain\nHA_HOST=a=b\nHA_HOST=c=d\n";
    assert_eq!(secret(file, "WIFI_SSID"), "my net");
    assert_eq!(secret(file, "HA_HOST"), "c=d");
    assert_eq!(secret(file, "plain"), "");
    assert_eq!(secret("", "HA_HOST"), "");
    assert_eq!(unit_id(file), "aq");
    assert_eq!(unit_id("AQ_ID=bedroom"), "bedroom");
}

#[test]
fn later_settings_override() {
    let (a, b) = ("HA_USER=one\nHA_HOST=x", "HA_USER=two");
    let joined = format!("{a}\n{b}");
    assert_eq!(secret(&joined, "HA_USER"), "two");
    assert_eq!(secret(&joined, "HA_HOST"), secret(a, "HA_HOST"));
}

#[test]
fn update_keys_have_thirty_two_bytes() {
    let key = update_key("0aFF+fzz10");
    assert_eq!(key[..6], [10, 255, 15, 0, 16, 0]);
    assert_eq!(update_key(""), [0; 32]);
    assert_eq!(update_key(&"01".repeat(40)), [1; 32]);
    let line = key_source(&update_key("0a0b"));
    assert!(line.starts_with("pub const OTA_PUBKEY: [u8; 32] = [10, 11, 0, "), "{line}");
    assert!(line.ends_with(", 0];\n"), "{line}");
}
