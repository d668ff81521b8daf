//! Encoding samples for the wire.

use aq_lcd_grab::wire::encoder::MAX_RUN;
use aq_lcd_grab::wire::frame::BLOCK_SENTINEL;
use aq_lcd_grab::wire::{
    Decoder, Encoder, VecSink, WireEvent, TAG_BLOCK, TAG_LOG, TAG_OVERRUN, TAG_RUN, TAG_STARTED,
    TAG_STOPPED, TAG_TICK,
};

/// Feeds samples through the encoder, flushes, and returns the bytes.
fn encode(samples: &[u32]) -> Vec<u8> {
    let mut enc = Encoder::default();
    let mut sink = VecSink::new();
    for &s in samples {
        enc.feed(s, &mut sink);
    }
    enc.flush(&mut sink);
    sink.bytes
}

fn frames(frames: &[Vec<u8>]) -> Vec<u8> {
    frames.concat()
}

fn run_frame(n: u16, sample: u32) -> Vec<u8> {
    let mut v = vec![TAG_RUN];
    v.extend_from_slice(&n.to_le_bytes());
    v.extend_from_slice(&sample.to_le_bytes());
    v
}

fn block_frame(samples: &[u32]) -> Vec<u8> {
    let mut v = vec![TAG_BLOCK];
    for &s in samples {
        v.extend_from_slice(&s.to_le_bytes());
    }
    v.extend_from_slice(&BLOCK_SENTINEL.to_le_bytes());
    v
}

#[test]
fn empty_emits_nothing() {
    assert!(encode(&[]).is_empty());
}

#[test]
fn single_sample_is_a_block() {
    assert_eq!(encode(&[0xAB]), block_frame(&[0xAB]));
}

#[test]
fn two_identical_samples_make_a_run() {
    assert_eq!(encode(&[0x55, 0x55]), run_frame(2, 0x55));
}

#[test]
fn distinct_samples_pack_into_one_block() {
    let s = [1u32, 2, 3, 4];
    assert_eq!(encode(&s), block_frame(&s));
}

#[test]
fn run_in_the_middle_splits_block_then_run_then_block() {
    assert_eq!(
        encode(&[1, 2, 3, 3, 3, 4]),
        frames(&[block_frame(&[1, 2]), run_frame(3, 3), block_frame(&[4])]),
    );
}

#[test]
fn adjacent_runs_of_different_samples() {
    assert_eq!(encode(&[7, 7, 9, 9, 9]), frames(&[run_frame(2, 7), run_frame(3, 9)]));
}

#[test]
fn run_resumes_after_a_breaking_sample() {
    assert_eq!(
        encode(&[5, 5, 9, 5, 5]),
        frames(&[run_frame(2, 5), block_frame(&[9]), run_frame(2, 5)]),
    );
}

#[test]
fn run_longer_than_u16_splits_into_multiple_run_frames() {
    let n = MAX_RUN as usize + 10;
    assert_eq!(
        encode(&vec![0xC; n]),
        frames(&[run_frame(MAX_RUN, 0xC), run_frame(10, 0xC)]),
    );
}

#[test]
fn longest_run_after_a_lone_sample_closes_the_block() {
    let mut samples: Vec<u32> = vec![1];
    samples.extend(std::iter::repeat(2).take(MAX_RUN as usize + 1));
    assert_eq!(
        encode(&samples),
        frames(&[block_frame(&[1]), run_frame(MAX_RUN, 2), block_frame(&[2])]),
    );
}

#[test]
fn control_frames_end_an_open_block() {
    let mut enc = Encoder::default();
    let mut sink = VecSink::new();
    enc.feed(1, &mut sink);
    enc.feed(2, &mut sink);
    enc.tick(1, 2, 3, 4, 5, &mut sink);
    let mut want = block_frame(&[1]);
    want.push(TAG_TICK);
    want.extend_from_slice(&[1, 0, 0, 0, 2, 0, 3, 0, 4, 0, 5, 0, 0, 0]);
    assert_eq!(sink.bytes, want);
    // The sample in hand is still there.
    enc.flush(&mut sink);
    want.extend(block_frame(&[2]));
    assert_eq!(sink.bytes, want);
}

#[test]
fn control_frames_have_their_tags() {
    let mut enc = Encoder::default();
    let mut sink = VecSink::new();
    enc.started(&mut sink);
    enc.stopped(&mut sink);
    enc.overrun(0x0102, &mut sink);
    enc.log("hi", &mut sink);
    assert_eq!(
        sink.bytes,
        [TAG_STARTED, TAG_STOPPED, TAG_OVERRUN, 2, 1, 0, 0, TAG_LOG, b'h', b'i', 0],
    );
}

#[test]
fn reset_drops_what_is_held() {
    let mut enc = Encoder::default();
    let mut sink = VecSink::new();
    enc.feed(9, &mut sink);
    enc.reset();
    enc.flush(&mut sink);
    assert!(sink.bytes.is_empty());
}

#[test]
fn samples_come_back_off_the_wire() {
    let mut samples: Vec<u32> = Vec::new();
    for i in 0..500u32 {
        for _ in 0..(i * 7 % 5) + 1 {
            samples.push(i * i % 97);
        }
    }
    let bytes = encode(&samples);
    let mut dec = Decoder::new();
    let mut events: Vec<WireEvent> = Vec::new();
    for chunk in bytes.chunks(13) {
        dec.feed(chunk, &mut events).unwrap();
    }
    let mut got: Vec<u32> = Vec::new();
    for ev in events {
        match ev {
            WireEvent::Block(s) => got.extend(s),
            WireEvent::Run { n, sample } => got.extend(std::iter::repeat(sample).take(n as usize)),
            other => panic!("{other:?}"),
        }
    }
    assert_eq!(got, samples);
}
