//! The STM32 capture board.

use aq_lcd_grab::firmware_stm32::capture::{Capture, RING_CAP};
use aq_lcd_grab::firmware_stm32::session::{
    fmt_idle3, fmt_stats, parse_host_cmd, HostCmd, Session, REPORT_INTERVAL_US,
};
use aq_lcd_grab::firmware_stm32::uart::{UartRing, TX_RING};
use aq_lcd_grab::firmware_stm32::wire::{
    encode_log, encode_overrun, encode_started, encode_stopped, ByteSink, Encoder, MAX_BLOCK,
    TAG_BLOCK, TAG_LOG, TAG_OVERRUN, TAG_RUN, TAG_STARTED, TAG_STOPPED,
};
use aq_lcd_grab::wire::{Decoder, Sink, VecSink, WireEvent};

fn encode(samples: &[u32]) -> Vec<u8> {
    let mut enc = Encoder::default();
    let mut sink = ByteSink { bytes: Vec::new() };
    for &s in samples {
        enc.feed(s, &mut sink);
    }
    enc.flush(&mut sink);
    sink.bytes
}

#[test]
fn blocks_say_how_long_they_are() {
    assert_eq!(encode(&[1, 2]), [TAG_BLOCK, 2, 1, 0, 0, 0, 2, 0, 0, 0]);
    assert_eq!(
        encode(&[1, 2, 2, 2]),
        [TAG_BLOCK, 1, 1, 0, 0, 0, TAG_RUN, 3, 0, 2, 0, 0, 0]
    );
    assert!(encode(&[]).is_empty());
}

#[test]
fn full_blocks_leave() {
    let samples: Vec<u32> = (0..MAX_BLOCK as u32 + 2).collect();
    let bytes = encode(&samples);
    assert_eq!(bytes[1], MAX_BLOCK as u8);
    assert_eq!(&bytes[2 + 4 * MAX_BLOCK..][..2], &[TAG_BLOCK, 2]);
}

#[test]
fn longest_run_is_cut() {
    let bytes = encode(&vec![6; 65536]);
    assert_eq!(bytes, [TAG_RUN, 255, 255, 6, 0, 0, 0, TAG_BLOCK, 1, 6, 0, 0, 0]);
}

#[test]
fn other_packets_are_laid_out() {
    let mut sink = ByteSink { bytes: Vec::new() };
    encode_overrun(3, &mut sink);
    encode_started(&mut sink);
    encode_stopped(&mut sink);
    encode_log("hey", &mut sink);
    assert_eq!(
        sink.bytes,
        [TAG_OVERRUN, 3, 0, 0, 0, TAG_STARTED, TAG_STOPPED, TAG_LOG, 3, 0, b'h', b'e', b'y']
    );
    sink.bytes.clear();
    encode_log(&"y".repeat(257), &mut sink);
    assert_eq!(sink.bytes.len(), 3 + 256);
    assert_eq!(&sink.bytes[..3], &[TAG_LOG, 0, 1]);
}

#[test]
fn reset_drops_all() {
    let mut enc = Encoder::default();
    let mut sink = ByteSink { bytes: Vec::new() };
    enc.feed(1, &mut sink);
    enc.feed(2, &mut sink);
    enc.reset();
    enc.flush(&mut sink);
    assert!(sink.bytes.is_empty());
}

#[test]
fn rings_are_read_in_pairs() {
    let mut pa = vec![0u16; RING_CAP];
    let mut pb = vec![0u16; RING_CAP];
    pa[0] = 0xFFFF;
    pb[0] = 0xFFFF;
    pb[1] = 0x8000;
    let mut capture = Capture::new();
    let mut out = [0u32; 4];
    // Three in the one ring, two in the other.
    let n = capture.fast_drain(&pa, &pb, RING_CAP - 3, RING_CAP - 2, &mut out);
    assert_eq!(n, 2);
    assert_eq!(out[..2], [0xFFE3_001E, 0x8000_0000]);
    assert_eq!(capture.fast_drain(&pa, &pb, RING_CAP - 3, RING_CAP - 2, &mut out), 0);
    assert_eq!(capture.fast_drain(&pa, &pb, RING_CAP - 9, RING_CAP - 9, &mut out), 4);
    // Half a ring is read, and then around the end.
    let mut all = [0u32; 5000];
    assert_eq!(capture.fast_drain(&pa, &pb, 2048 - 6, 2048 - 6, &mut all), 2048);
    assert_eq!(capture.fast_drain(&pa, &pb, RING_CAP - 1, RING_CAP - 1, &mut all), 2043);
    assert_eq!(all[2042], 0xFFE3_001E);
    assert_eq!(capture.peek_dropped_total(), 0);
}

#[test]
fn more_than_half_a_ring_unread_is_an_overrun() {
    let pa = vec![0u16; RING_CAP];
    let pb = vec![0u16; RING_CAP];
    let mut capture = Capture::new();
    let mut out = [7u32; 128];
    assert_eq!(capture.fast_drain(&pa, &pb, 1096, 1096, &mut out), 0);
    assert_eq!(out, [7u32; 128]);
    assert_eq!(capture.take_dropped(), RING_CAP as u32);
    // Both rings go on from where the hardware stands.
    assert_eq!(capture.fast_drain(&pa, &pb, 1095, 1095, &mut out), 1);
    assert_eq!(out[0], 0);
    assert_eq!(capture.fast_drain(&pa, &pb, 1095, 1095 + 2047, &mut out), 0);
    assert_eq!(capture.peek_dropped_total(), 2 * RING_CAP as u32);
}

#[test]
fn overruns_are_counted_as_a_ring() {
    let mut capture = Capture::new();
    assert_eq!(capture.drain(Some(3), Some(2)), Some(2));
    assert_eq!(capture.drain(None, Some(2)), None);
    assert_eq!(capture.drain(Some(2), None), None);
    assert!(!capture.overrun_suspected(RING_CAP - 10, RING_CAP - 10));
    assert!(capture.overrun_suspected(10, RING_CAP));
    capture.hard_resync(100, 100);
    assert_eq!(capture.peek_dropped_total(), RING_CAP as u32);
    assert_eq!(capture.take_dropped(), RING_CAP as u32);
    assert_eq!(capture.take_dropped(), 0);
    assert_eq!(capture.peek_dropped_total(), RING_CAP as u32);
}

#[test]
fn transmit_ring_sends_spans() {
    let mut ring = UartRing::new();
    assert_eq!(ring.kick(false), None);
    assert_eq!(ring.free(0), TX_RING - 1);
    for b in 0..10u8 {
        assert!(ring.try_push(b, 0));
    }
    assert_eq!(ring.kick(false), Some((0, 10)));
    // Still running, with four bytes to go.
    assert_eq!(ring.kick(false), None);
    assert_eq!(ring.free(4), TX_RING - 1 - 4);
    assert!(ring.try_push(99, 4));
    assert_eq!(ring.kick(true), Some((10, 1)));
    assert_eq!(ring.kick(true), None);
}

#[test]
fn transmit_ring_wraps_and_fills() {
    let mut ring = UartRing::new();
    for _ in 0..TX_RING - 1 {
        assert!(ring.try_push(1, 0));
    }
    assert_eq!(ring.free(0), 0);
    assert!(!ring.try_push(2, 0));
    assert_eq!(ring.kick(false), Some((0, TX_RING - 1)));
    assert!(ring.try_push(3, TX_RING - 3));
    assert!(ring.try_push(4, TX_RING - 3));
    assert!(!ring.try_push(5, TX_RING - 3));
    // What wraps goes with a second transfer.
    assert_eq!(ring.kick(true), Some((TX_RING - 1, 1)));
    assert_eq!(ring.kick(true), Some((0, 1)));
}

#[test]
fn diagnostics_are_in_hexadecimal() {
    assert_eq!(fmt_idle3(0x1f, 0xbeef, 0), "cnt=001f pa_ndtr=beef pb_ndtr=0000");
    assert_eq!(
        fmt_stats(0xdead_beef, 1, 0),
        "stats: cap_dropped=deadbeef pa_teif=00000001 pb_teif=00000000"
    );
}

fn events(sink: &VecSink) -> Vec<WireEvent> {
    let mut out: Vec<WireEvent> = Vec::new();
    Decoder::new().feed(&sink.bytes, &mut out).unwrap();
    out
}

#[test]
fn session_answers_every_command() {
    assert_eq!(parse_host_cmd(1), Some(HostCmd::Start));
    assert_eq!(parse_host_cmd(2), Some(HostCmd::Stop));
    assert_eq!(parse_host_cmd(4), Some(HostCmd::Stats));
    assert_eq!(parse_host_cmd(3), Some(HostCmd::LogTest));
    assert_eq!(parse_host_cmd(5), None);
    let mut session = Session::new(0);
    let mut sink = VecSink::new();
    session.greet(&mut sink);
    session.on_command(HostCmd::Stop, 0, &mut sink);
    session.on_command(HostCmd::LogTest, 0, &mut sink);
    session.on_samples(&[1], &mut sink);
    session.on_command(HostCmd::Start, 0, &mut sink);
    session.on_command(HostCmd::Start, 0, &mut sink);
    assert!(session.is_streaming());
    session.on_samples(&[8, 9], &mut sink);
    session.end_burst(2, 10, &mut sink);
    session.on_transfer_errors(true, false);
    session.on_command(HostCmd::Stats, 0x10, &mut sink);
    session.on_command(HostCmd::Stop, 0, &mut sink);
    assert_eq!(
        events(&sink),
        [
            WireEvent::Log("aq-lcd-grab stm32 firmware booted, awaiting START".to_string()),
            WireEvent::Stopped,
            WireEvent::Log("ping".to_string()),
            WireEvent::Started,
            WireEvent::Started,
            WireEvent::Block(vec![8]),
            WireEvent::Overrun { dropped: 2 },
            WireEvent::Log(fmt_stats(0x10, 1, 0)),
            WireEvent::Block(vec![9]),
            WireEvent::Stopped,
        ]
    );
}

#[test]
fn session_reports_every_five_seconds() {
    let mut session = Session::new(0);
    let mut sink = VecSink::new();
    session.on_command(HostCmd::Start, 0, &mut sink);
    session.on_idle(10, 1, 2, 3, &mut sink);
    session.report(10, 0, &mut sink);
    session.on_idle(REPORT_INTERVAL_US, 1, 2, 3, &mut sink);
    session.on_idle(REPORT_INTERVAL_US + 1, 1, 2, 3, &mut sink);
    session.report(REPORT_INTERVAL_US, 5, &mut sink);
    session.report(REPORT_INTERVAL_US + 1, 5, &mut sink);
    assert_eq!(
        events(&sink),
        [
            WireEvent::Started,
            WireEvent::Log(fmt_idle3(1, 2, 3)),
            WireEvent::Log(fmt_stats(5, 0, 0)),
        ]
    );
}

#[test]
fn nothing_streamed_is_lost_between_packets() {
    let mut session = Session::new(0);
    let mut sink = VecSink::new();
    session.greet(&mut sink);
    session.on_samples(&[90, 91], &mut sink);
    session.on_command(HostCmd::Start, 0, &mut sink);
    let mut sent: Vec<u32> = Vec::new();
    for round in 0..40u32 {
        let raw: Vec<u32> = (0..round).map(|i| (i * round) % 3).collect();
        session.on_samples(&raw, &mut sink);
        sent.extend(&raw);
        match round % 4 {
            0 => session.on_command(HostCmd::Stats, round, &mut sink),
            1 => session.end_burst(round, round as u64 * 1_000, &mut sink),
            2 => session.on_command(HostCmd::Start, 0, &mut sink),
            _ => session.on_idle(round as u64 * 1_000, 1, 2, 3, &mut sink),
        }
    }
    session.on_command(HostCmd::Stop, 0, &mut sink);
    session.on_samples(&[92], &mut sink);
    let mut got: Vec<u32> = Vec::new();
    for event in events(&sink) {
        match event {
            WireEvent::Block(samples) => got.extend(samples),
            WireEvent::Run { n, sample } => got.extend(vec![sample; n as usize]),
            _ => {}
        }
    }
    assert_eq!(got, sent);
}

/// Counts the bytes pushed, and those that were sent on.
struct CountingSink {
    pushed: usize,
    sent: usize,
}

impl Sink for CountingSink {
    fn push(&mut self, _b: u8) -> bool {
        self.pushed += 1;
        true
    }

    fn flush(&mut self) {
        self.sent = self.pushed;
    }
}

#[test]
fn idle_rounds_and_stop_send_on() {
    let mut session = Session::new(0);
    let mut sink = CountingSink { pushed: 0, sent: 0 };
    session.on_command(HostCmd::Start, 0, &mut sink);
    session.on_samples(&[1, 2, 2], &mut sink);
    assert_eq!(sink.sent, 0);
    session.on_idle(10, 1, 2, 3, &mut sink);
    assert_eq!(sink.sent, sink.pushed);
    let sent = sink.sent;
    session.on_samples(&[1, 2], &mut sink);
    session.on_command(HostCmd::Stop, 0, &mut sink);
    // All but the acknowledgement.
    assert!(sink.sent > sent);
    assert_eq!(sink.sent + 1, sink.pushed);
}
