//! The Pico capture board.

use aq_lcd_grab::firmware::decoder::{Decoder, Sample};
use aq_lcd_grab::firmware::picotool_reset::{
    PicotoolHandler, Recipient, Reply, Request, RequestType,
};
use aq_lcd_grab::firmware::pio_capture::{RingCapture, RingError};
use aq_lcd_grab::firmware::proto::encode_header;
use aq_lcd_grab::firmware::session::{
    parse_host_cmd, HostCmd, Session, TickAction, HEARTBEAT_TICKS,
};
use aq_lcd_grab::firmware::tx_count::TxCount;
use aq_lcd_grab::firmware::wire::{
    encode_log, encode_overrun, encode_started, encode_stopped, encode_tick, Encoder, FrameSink,
    TAG_BLOCK, TAG_LOG, TAG_OVERRUN, TAG_REPEAT2, TAG_RUN, TAG_STARTED, TAG_STOPPED, TAG_TICK,
};
use aq_lcd_grab::wire::{Decoder as WireDecoder, Sink, VecSink, WireEvent};

fn frames_of(samples: &[u32]) -> Vec<Vec<u8>> {
    let mut enc = Encoder::default();
    let mut sink = FrameSink::new();
    for &s in samples {
        enc.feed(s, &mut sink);
    }
    enc.flush(&mut sink);
    assert!(sink.staged.is_empty());
    sink.frames
}

#[test]
fn alternating_runs_become_one_frame() {
    let frames = frames_of(&[1, 1, 2, 2, 2, 1, 1, 1, 1]);
    assert_eq!(frames.len(), 1);
    assert_eq!(frames[0], [TAG_REPEAT2, 1, 0, 0, 0, 2, 0, 0, 0, 2, 3, 4, 0]);
}

#[test]
fn lone_samples_become_a_block() {
    let frames = frames_of(&[1, 2]);
    assert_eq!(frames, [[TAG_BLOCK, 1, 0, 0, 0, 2, 0, 0, 0, 255, 255, 255, 255]]);
}

#[test]
fn long_runs_stand_alone() {
    let mut samples = vec![7u32; 300];
    samples.push(8);
    let frames = frames_of(&samples);
    assert_eq!(frames[0], [TAG_RUN, 44, 1, 7, 0, 0, 0]);
    assert_eq!(frames[1][0], TAG_BLOCK);
}

#[test]
fn block_flush_leaves_the_run() {
    let mut enc = Encoder::default();
    let mut sink = FrameSink::new();
    for s in [1, 2, 3] {
        enc.feed(s, &mut sink);
    }
    enc.flush_block_only(&mut sink);
    assert_eq!(sink.frames.len(), 1);
    assert_eq!(sink.frames[0].len(), 1 + 2 * 4 + 4);
    enc.reset();
    enc.flush(&mut sink);
    assert_eq!(sink.frames.len(), 1);
}

#[test]
fn control_frames_are_laid_out() {
    let mut sink = FrameSink::new();
    encode_tick(1, 2, 3, 4, 5, &mut sink);
    encode_overrun(6, &mut sink);
    encode_log("ok", &mut sink);
    encode_started(&mut sink);
    encode_stopped(&mut sink);
    assert_eq!(sink.frames[0], [TAG_TICK, 1, 0, 0, 0, 2, 0, 3, 0, 4, 0, 5, 0, 0, 0]);
    assert_eq!(sink.frames[1], [TAG_OVERRUN, 6, 0, 0, 0]);
    assert_eq!(sink.frames[2], [TAG_LOG, 2, 0, b'o', b'k']);
    assert_eq!(sink.frames[3], [TAG_STARTED]);
    assert_eq!(sink.frames[4], [TAG_STOPPED]);
    encode_log(&"x".repeat(300), &mut sink);
    assert_eq!(sink.frames[5].len(), 3 + 256);
}

#[test]
fn transactions_split_when_full() {
    let mut dec = Decoder::default();
    let cmd = |word| Sample { data: word, dc: false, cs: false };
    let data = |word| Sample { data: word, dc: true, cs: false };
    assert!(dec.feed(data(1)).is_none());
    assert!(dec.feed(cmd(0x2C)).is_none());
    for i in 0..4096u16 {
        assert!(dec.feed(data(i)).is_none());
    }
    let full = dec.feed(data(9)).unwrap();
    assert_eq!(full.cmd, 0x2C);
    assert_eq!(full.data.len(), 4096);
    assert_eq!(full.data[4095], 4095);
    let rest = dec.feed(cmd(0x11)).unwrap();
    assert_eq!(rest.data.len(), 1);
    assert_eq!(rest.data[0], 9);
}

#[test]
fn full_commands_drop_further_data() {
    let mut dec = Decoder::default();
    let cmd = |word| Sample { data: word, dc: false, cs: false };
    let data = |word| Sample { data: word, dc: true, cs: false };
    assert!(dec.feed(cmd(0x2A)).is_none());
    for i in 0..4097u16 {
        assert!(dec.feed(data(i)).is_none());
    }
    let full = dec.feed(cmd(0x3C)).unwrap();
    assert_eq!((full.cmd, full.data.len(), full.data[4095]), (0x2A, 4096, 4095));
    for i in 0..4096u16 {
        assert!(dec.feed(data(i)).is_none());
    }
    assert_eq!(dec.feed(data(7)).unwrap().cmd, 0x3C);
    let rest = dec.feed(cmd(0)).unwrap();
    assert_eq!((rest.cmd, rest.data.len(), rest.data[0]), (0x3C, 1, 7));
}

#[test]
fn raw_samples_are_unpacked() {
    let s = Sample::from_raw(0x2_1234);
    assert_eq!(s.data, 0x1234);
    assert!(s.dc && !s.cs);
    let s = Sample::from_raw(0x1_0000);
    assert!(!s.dc && s.cs);
}

#[test]
fn headers_have_eight_bytes() {
    let h = encode_header(0x2C, 0x0102);
    assert_eq!(h[h.len() - 2..], [0x02, 0x01]);
    assert!(h.contains(&0x2C));
}

#[test]
fn ring_wants_a_power_of_two() {
    assert!(matches!(RingCapture::new(1000, 0), Err(RingError::Length)));
    assert!(matches!(RingCapture::new(8192, 4), Err(RingError::Alignment)));
    assert!(matches!(RingCapture::new(1 << 30, 0), Err(RingError::Size)));
    assert!(RingCapture::new(8192, 0).is_ok());
}

#[test]
fn ring_is_followed_around() {
    let mut ring = RingCapture::new(8, 0).unwrap();
    let batch = ring.plan_drain(6, 4);
    assert_eq!((batch.start, batch.count), (0, 4));
    assert_eq!(ring.available(6), 2);
    let batch = ring.plan_drain(1, 10);
    assert_eq!((batch.start, batch.count), (4, 5));
    assert_eq!(ring.slot(batch, 4), 0);
    assert_eq!(ring.peek_dropped(), ring.take_dropped());
    assert_eq!(ring.peek_dropped(), 0);
}

#[test]
fn ring_is_drained_in_order() {
    let samples = [10u32, 11, 12, 13, 14, 15, 16, 17];
    let mut ring = RingCapture::new(8, 0).unwrap();
    assert_eq!(ring.write_pos(0x2014, 0x2000), 5);
    let mut out = [0u32; 4];
    assert_eq!(ring.drain(&samples, 5, &mut out), 4);
    assert_eq!(out, [10, 11, 12, 13]);
    assert_eq!(ring.drain(&samples, 1, &mut out), 4);
    assert_eq!(out, [14, 15, 16, 17]);
    assert_eq!(ring.drain(&samples, 1, &mut out), 1);
    assert_eq!(out[0], 10);
    // Seven unread samples count as lost; reading goes on behind the writer.
    assert_eq!(ring.drain(&samples, 0, &mut [0u32; 8]), 7);
    assert_eq!(ring.take_dropped(), 7);
}

#[test]
fn picotool_reboots_only_for_its_interface() {
    let mut handler = PicotoolHandler::new();
    let req = Request {
        request_type: RequestType::Class,
        recipient: Recipient::Interface,
        request: 1,
        index: 3,
    };
    assert_eq!(handler.control_out(req), Reply::NotOurs);
    handler.set_interface(3);
    assert_eq!(handler.control_out(req), Reply::Reboot);
    assert_eq!(handler.control_out(Request { request: 9, ..req }), Reply::Reject);
    assert_eq!(handler.control_out(Request { index: 4, ..req }), Reply::NotOurs);
}

/// The events that a session put on the wire.
fn events(sink: &VecSink) -> Vec<WireEvent> {
    let mut out: Vec<WireEvent> = Vec::new();
    WireDecoder::new().feed(&sink.bytes, &mut out).unwrap();
    out
}

#[test]
fn commands_are_bytes() {
    assert_eq!(parse_host_cmd(1), Some(HostCmd::Start));
    assert_eq!(parse_host_cmd(2), Some(HostCmd::Stop));
    assert_eq!(parse_host_cmd(3), Some(HostCmd::LogTest));
    assert_eq!(parse_host_cmd(4), Some(HostCmd::Stats));
    assert_eq!(parse_host_cmd(5), None);
}

#[test]
fn session_streams_between_start_and_stop() {
    let mut session = Session::new(0);
    let mut sink = VecSink::new();
    session.greet(&mut sink);
    session.on_samples(&[1, 2, 3], &mut sink);
    session.on_command(HostCmd::Start, 0, 0, &mut sink);
    assert!(session.is_streaming());
    // Noise above the wired bits is taken off.
    session.on_samples(&[5, 5, 0xFFF0_0005], &mut sink);
    session.end_drain(3, &mut sink);
    session.on_command(HostCmd::Stop, 0, 0, &mut sink);
    session.on_command(HostCmd::Stop, 0, 0, &mut sink);
    assert_eq!(
        events(&sink),
        [
            WireEvent::Log("aq-lcd-grab pico firmware booted, awaiting START".to_string()),
            WireEvent::Started,
            WireEvent::Run { n: 3, sample: 5 },
            WireEvent::Stopped,
            WireEvent::Stopped,
        ]
    );
}

#[test]
fn session_answers_questions() {
    let mut session = Session::new(0);
    let mut sink = VecSink::new();
    session.on_command(HostCmd::LogTest, 0, 0, &mut sink);
    session.on_command(HostCmd::Stats, u32::MAX, 7, &mut sink);
    assert_eq!(
        events(&sink),
        [
            WireEvent::Log("ping".to_string()),
            WireEvent::Log("stats: tx_dropped=4294967295 cap_dropped=7".to_string()),
        ]
    );
}

#[test]
fn ticks_come_every_ten_milliseconds() {
    let mut session = Session::new(0);
    let mut sink = VecSink::new();
    assert!(matches!(session.tick(5, 0, 0, 40), TickAction::Rebase));
    session.rebase(40);
    session.on_command(HostCmd::Start, 0, 0, &mut sink);
    assert!(matches!(session.tick(5_000, 3, 0, 40), TickAction::Wait));
    match session.tick(10_005, 70_000, 9, 50) {
        TickAction::Send(t) => {
            assert_eq!(
                (t.t_us, t.dt_us, t.n_drained, t.n_pending, t.bytes_out),
                (5, 10_000, 65535, 9, 10)
            );
            session.send_tick(t, &mut sink);
        }
        other => panic!("{other:?}"),
    }
    session.rebase(50);
    // A quiet window is not told.
    assert!(matches!(session.tick(30_000, 0, 0, 50), TickAction::Rebase));
    assert!(matches!(events(&sink)[1], WireEvent::Tick { dt_us: 10_000, .. }));
}

#[test]
fn quiet_rounds_flush_and_beat() {
    let mut session = Session::new(0);
    let mut sink = VecSink::new();
    session.on_command(HostCmd::Start, 0, 0, &mut sink);
    session.on_samples(&[4, 4], &mut sink);
    assert!(!session.end_round(2, &mut sink));
    for _ in 0..HEARTBEAT_TICKS {
        assert!(session.end_round(0, &mut sink));
    }
    session.on_overrun(0, &mut sink);
    session.on_overrun(6, &mut sink);
    assert_eq!(
        events(&sink),
        [
            WireEvent::Started,
            WireEvent::Run { n: 2, sample: 4 },
            WireEvent::Log("idle".to_string()),
            WireEvent::Overrun { dropped: 6 },
        ]
    );
}

#[test]
fn nothing_streamed_is_lost_between_frames() {
    let mut session = Session::new(0);
    let mut sink = VecSink::new();
    session.greet(&mut sink);
    session.on_samples(&[90, 91], &mut sink);
    session.on_command(HostCmd::Start, 0, 0, &mut sink);
    let mut sent: Vec<u32> = Vec::new();
    for round in 0..40u32 {
        let raw: Vec<u32> = (0..round).map(|i| 0x2_0000 | (i * round) % 3).collect();
        session.on_samples(&raw, &mut sink);
        session.end_drain(raw.len() as u64, &mut sink);
        sent.extend(&raw);
        match round % 5 {
            0 => session.on_command(HostCmd::Stats, round, 0, &mut sink),
            1 => session.on_overrun(round, &mut sink),
            2 => session.on_command(HostCmd::Start, 0, 0, &mut sink),
            3 => session.on_command(HostCmd::LogTest, 0, 0, &mut sink),
            _ => {
                session.end_round(0, &mut sink);
            }
        }
        if let TickAction::Send(t) = session.tick(round as u64 * 20_000, round as u64, 0, 0) {
            session.send_tick(t, &mut sink);
        }
    }
    session.on_command(HostCmd::Stop, 0, 0, &mut sink);
    session.on_samples(&[92], &mut sink);
    let mut got: Vec<u32> = Vec::new();
    for event in events(&sink) {
        match event {
            WireEvent::Block(samples) => got.extend(samples),
            WireEvent::Run { n, sample } => got.extend(vec![sample; n as usize]),
            WireEvent::Repeat2 { val_a, val_b, run_lens } => {
                for (i, n) in run_lens.iter().enumerate() {
                    got.extend(vec![if i % 2 == 0 { val_a } else { val_b }; *n as usize]);
                }
            }
            _ => {}
        }
    }
    assert_eq!(got, sent);
}

#[test]
fn pipe_bytes_are_counted() {
    let mut count = TxCount { dropped: u32::MAX - 1, bytes_out: u32::MAX };
    assert!(count.count(true));
    assert!(!count.count(false));
    assert!(!count.count(false));
    assert_eq!((count.bytes_out, count.dropped), (0, u32::MAX));
}

/// Counts the bytes pushed, and those that were sent on.
struct CountingSink {
    pushed: usize,
    sent: usize,
}

impl Sink for CountingSink {
    fn push(&mut self, _b: u8) -> bool {
        self.pushed += 1;
        true
    }

    fn flush(&mut self) {
        self.sent = self.pushed;
    }
}

#[test]
fn quiet_rounds_and_stop_send_on() {
    let mut session = Session::new(0);
    let mut sink = CountingSink { pushed: 0, sent: 0 };
    session.on_command(HostCmd::Start, 0, 0, &mut sink);
    session.on_samples(&[1, 2, 2], &mut sink);
    assert!(!session.end_round(3, &mut sink));
    assert_eq!(sink.sent, 0);
    assert!(session.end_round(0, &mut sink));
    assert_eq!(sink.sent, sink.pushed);
    let sent = sink.sent;
    session.on_samples(&[1, 2], &mut sink);
    session.on_command(HostCmd::Stop, 0, 0, &mut sink);
    // All but the acknowledgement.
    assert!(sink.sent > sent);
    assert_eq!(sink.sent + 1, sink.pushed);
}
