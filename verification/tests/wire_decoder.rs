//! Decoding the wire stream.

use aq_lcd_grab::wire::frame::BLOCK_SENTINEL;
use aq_lcd_grab::wire::{
    Decoder, WireError, WireEvent, TAG_BLOCK, TAG_LOG, TAG_OVERRUN, TAG_REPEAT2, TAG_RUN,
    TAG_STARTED, TAG_STOPPED, TAG_TICK,
};

/// Adds an event; a BLOCK joins the BLOCK before it, so that chunking does not
/// show.
fn coalesce(out: &mut Vec<WireEvent>, ev: WireEvent) {
    if let (Some(WireEvent::Block(prev)), WireEvent::Block(new)) = (out.last_mut(), &ev) {
        prev.extend_from_slice(new);
    } else {
        out.push(ev);
    }
}

/// Feeds some bytes, and coalesces the events.
fn feed(dec: &mut Decoder, bytes: &[u8], out: &mut Vec<WireEvent>) -> Result<(), WireError> {
    let mut events: Vec<WireEvent> = Vec::new();
    let result = dec.feed(bytes, &mut events);
    for ev in events {
        coalesce(out, ev);
    }
    result
}

fn decode(bytes: &[u8]) -> Vec<WireEvent> {
    let mut dec = Decoder::new();
    let mut out: Vec<WireEvent> = Vec::new();
    feed(&mut dec, bytes, &mut out).unwrap();
    out
}

fn block_frame(samples: &[u32]) -> Vec<u8> {
    let mut v = vec![TAG_BLOCK];
    for &s in samples {
        v.extend_from_slice(&s.to_le_bytes());
    }
    v.extend_from_slice(&BLOCK_SENTINEL.to_le_bytes());
    v
}

fn run_frame(n: u16, sample: u32) -> Vec<u8> {
    let mut v = vec![TAG_RUN];
    v.extend_from_slice(&n.to_le_bytes());
    v.extend_from_slice(&sample.to_le_bytes());
    v
}

fn repeat2_frame(val_a: u32, val_b: u32, run_lens: &[u8]) -> Vec<u8> {
    let mut v = vec![TAG_REPEAT2];
    v.extend_from_slice(&val_a.to_le_bytes());
    v.extend_from_slice(&val_b.to_le_bytes());
    v.extend_from_slice(run_lens);
    v.push(0);
    v
}

#[test]
fn empty_yields_nothing() {
    assert!(decode(&[]).is_empty());
}

#[test]
fn single_block() {
    assert_eq!(decode(&block_frame(&[1, 2, 3])), [WireEvent::Block(vec![1, 2, 3])]);
}

#[test]
fn run_frame_decodes() {
    assert_eq!(decode(&run_frame(5, 0xAB)), [WireEvent::Run { n: 5, sample: 0xAB }]);
}

#[test]
fn repeat2_decodes() {
    assert_eq!(
        decode(&repeat2_frame(7, 9, &[2, 3, 2])),
        [WireEvent::Repeat2 { val_a: 7, val_b: 9, run_lens: vec![2, 3, 2] }]
    );
}

#[test]
fn started_stopped_overrun() {
    assert_eq!(decode(&[TAG_STARTED]), [WireEvent::Started]);
    assert_eq!(decode(&[TAG_STOPPED]), [WireEvent::Stopped]);
    assert_eq!(
        decode(&[TAG_OVERRUN, 0x0D, 0x0C, 0x0B, 0x0A]),
        [WireEvent::Overrun { dropped: 0x0A0B0C0D }]
    );
}

#[test]
fn log_frame_decodes() {
    let mut bytes = vec![TAG_LOG];
    bytes.extend_from_slice(b"hi");
    bytes.push(0);
    assert_eq!(decode(&bytes), [WireEvent::Log("hi".to_string())]);
}

#[test]
fn tick_decodes() {
    let mut bytes = vec![TAG_TICK];
    bytes.extend_from_slice(&0x11223344u32.to_le_bytes());
    bytes.extend_from_slice(&0x5566u16.to_le_bytes());
    bytes.extend_from_slice(&0x7788u16.to_le_bytes());
    bytes.extend_from_slice(&0x99AAu16.to_le_bytes());
    bytes.extend_from_slice(&0xBBCCDDEEu32.to_le_bytes());
    assert_eq!(
        decode(&bytes),
        [WireEvent::Tick {
            t_us: 0x11223344,
            dt_us: 0x5566,
            n_drained: 0x7788,
            n_pending: 0x99AA,
            bytes_out: 0xBBCCDDEE,
        }]
    );
}

#[test]
fn multiple_frames_in_one_feed() {
    let mut bytes = block_frame(&[1, 2]);
    bytes.extend_from_slice(&run_frame(3, 9));
    bytes.extend_from_slice(&block_frame(&[4]));
    assert_eq!(
        decode(&bytes),
        [
            WireEvent::Block(vec![1, 2]),
            WireEvent::Run { n: 3, sample: 9 },
            WireEvent::Block(vec![4]),
        ]
    );
}

#[test]
fn partial_frame_split_across_feeds() {
    let frame = run_frame(42, 0xDEADBEEF);
    let mut dec = Decoder::new();
    let mut out: Vec<WireEvent> = Vec::new();
    for chunk in frame.chunks(1) {
        dec.feed(chunk, &mut out).unwrap();
    }
    assert_eq!(out, [WireEvent::Run { n: 42, sample: 0xDEADBEEF }]);
}

#[test]
fn block_split_mid_word() {
    let frame = block_frame(&[0x01020304, 0x05060708]);
    let mut dec = Decoder::new();
    let mut out: Vec<WireEvent> = Vec::new();
    let (a, b) = frame.split_at(4);
    feed(&mut dec, a, &mut out).unwrap();
    feed(&mut dec, b, &mut out).unwrap();
    assert_eq!(out, [WireEvent::Block(vec![0x01020304, 0x05060708])]);
}

#[test]
fn bad_tag_errors() {
    let mut dec = Decoder::new();
    let err = dec.feed(&[0x55], &mut Vec::new()).unwrap_err();
    assert_eq!(err, WireError::BadTag(0x55));
}

#[test]
fn large_block_chunks_then_coalesces() {
    let samples: Vec<u32> = (0..200).collect();
    let got = decode(&block_frame(&samples));
    assert_eq!(got, [WireEvent::Block(samples)]);
}

#[test]
fn events_before_a_bad_tag_are_delivered() {
    let mut dec = Decoder::new();
    let mut out: Vec<WireEvent> = Vec::new();
    let err = dec.feed(&[TAG_STARTED, 0x77, TAG_STOPPED], &mut out).unwrap_err();
    assert_eq!(err, WireError::BadTag(0x77));
    assert_eq!(out, [WireEvent::Started]);
}

#[test]
fn reset_forgets_a_partial_frame() {
    let mut dec = Decoder::new();
    let mut out: Vec<WireEvent> = Vec::new();
    dec.feed(&[TAG_RUN, 1], &mut out).unwrap();
    dec.reset();
    dec.feed(&[TAG_STOPPED], &mut out).unwrap();
    assert_eq!(out, [WireEvent::Stopped]);
}

#[test]
fn block_larger_than_the_buffer_comes_through() {
    let samples: Vec<u32> = (0..1000).collect();
    let frame = block_frame(&samples);
    assert_eq!(decode(&frame), [WireEvent::Block(samples.clone())]);
    // Cut anywhere, it is the same.
    let mut dec = Decoder::new();
    let mut out: Vec<WireEvent> = Vec::new();
    for chunk in frame.chunks(7) {
        feed(&mut dec, chunk, &mut out).unwrap();
    }
    assert_eq!(out, [WireEvent::Block(samples)]);
}

#[test]
fn long_alternation_keeps_its_runs() {
    let lens: Vec<u8> = (0..2000u32).map(|i| (i % 255 + 1) as u8).collect();
    let mut seen: Vec<u8> = Vec::new();
    for ev in decode(&repeat2_frame(3, 4, &lens)) {
        match ev {
            WireEvent::Repeat2 { val_a: 3, val_b: 4, run_lens } => {
                // Every piece starts with a run of the first value.
                assert_eq!(seen.len() % 2, 0);
                seen.extend_from_slice(&run_lens);
            }
            other => panic!("{other:?}"),
        }
    }
    assert_eq!(seen, lens);
}

#[test]
fn log_longer_than_the_buffer_is_an_error() {
    let mut bytes = vec![TAG_LOG];
    bytes.extend_from_slice(&[b'a'; 2000]);
    bytes.push(0);
    let err = Decoder::new().feed(&bytes, &mut Vec::new()).unwrap_err();
    assert_eq!(err, WireError::BadTag(TAG_LOG));
}

#[test]
fn log_that_is_not_utf8_is_marked() {
    let decoded = decode(&[TAG_LOG, 0xC3, 0x28, 0]);
    assert_eq!(decoded.len(), 1);
    assert!(matches!(decoded[0], WireEvent::Log(_)));
}
