//! Wire decoder with a growing buffer.
//!
//! Feed bytes in through [`Decoder::feed`] and take the decoded [`Event`]s. A
//! partial trailing frame is kept for the next call. An unrecognised tag means
//! that the stream lost its framing: the caller is expected to go through STOP,
//! drain, START.

use vstd::prelude::*;
use vstd::slice::{slice_subrange, slice_to_vec};

use crate::bytes;
use crate::text;
use crate::wire::frame;

pub use crate::wire::frame::{
    TAG_BLOCK, TAG_LOG, TAG_OVERRUN, TAG_REPEAT2, TAG_RUN, TAG_STARTED, TAG_STOPPED, TAG_TICK,
};
pub use crate::wire::{HOST_CMD_START, HOST_CMD_STOP};

verus! {

/// One decoded event. In a sample the low 16 bits are port A and the high 16
/// bits are port B.
#[derive(Debug, Clone)]
pub enum Event {
    /// The samples of a BLOCK.
    Block(Vec<u32>),
    /// `n` repetitions of `sample`.
    Run { n: u16, sample: u32 },
    /// Runs that alternate between `val_a` and `val_b`: `run_lens[i]` is the
    /// length of run `i`, and run 0 is of `val_a`.
    Repeat2 { val_a: u32, val_b: u32, run_lens: Vec<u8> },
    /// Drain tick.
    Tick {
        /// Board time at the start of the drain pass, in microseconds.
        t_us: u32,
        /// How long the drain pass took, in microseconds.
        dt_us: u16,
        /// Samples consumed in this pass.
        n_drained: u16,
        /// Samples still in the capture ring.
        n_pending: u16,
        /// Bytes sent in this window, ticks aside.
        bytes_out: u32,
    },
    /// The board lost `dropped` samples.
    Overrun { dropped: u32 },
    /// A line of text from the board.
    Log(String),
    /// The board acknowledged START.
    Started,
    /// The board acknowledged STOP.
    Stopped,
}

/// A byte that starts no frame.
#[derive(Debug, Clone, Copy, PartialEq, Eq, Structural)]
pub struct UnrecognisedTag(pub u8);

impl UnrecognisedTag {
    /// What went wrong, for people.
    pub fn message(&self) -> (line: String)
        ensures
            line@ == "unrecognised wire tag 0x"@ + text::padded(
                '0',
                2,
                text::hexadecimal(self.0 as nat),
            ),
    {
        let mut line: String = "unrecognised wire tag 0x".to_owned();
        text::push_hex(&mut line, 2, self.0 as u64);
        line
    }
}

/// Whether an event tells of a frame.
pub open spec fn tells_of(e: Event, f: frame::Frame) -> bool {
    match (e, f) {
        (Event::Block(samples), frame::Frame::Block(s)) => samples@ == s,
        (Event::Run { n, sample }, frame::Frame::Run { n: m, sample: s }) => n == m && sample == s,
        (
            Event::Repeat2 { val_a, val_b, run_lens },
            frame::Frame::Repeat2 { val_a: a, val_b: b, run_lens: lens },
        ) => val_a == a && val_b == b && run_lens@ == lens,
        (
            Event::Tick { t_us, dt_us, n_drained, n_pending, bytes_out },
            frame::Frame::Tick { t_us: t, dt_us: d, n_drained: n, n_pending: p, bytes_out: o },
        ) => t_us == t && dt_us == d && n_drained == n && n_pending == p && bytes_out == o,
        (Event::Overrun { dropped }, frame::Frame::Overrun { dropped: d }) => dropped == d,
        (Event::Log(msg), frame::Frame::Log(text)) => msg@ == text::lossy(text) && (
        vstd::utf8::valid_utf8(text) ==> msg@ == vstd::utf8::decode_utf8(text)),
        (Event::Started, frame::Frame::Started) => true,
        (Event::Stopped, frame::Frame::Stopped) => true,
        _ => false,
    }
}

/// Whether events tell of frames, one of each.
pub open spec fn tell_of(events: Seq<Event>, frames: Seq<frame::Frame>) -> bool {
    &&& events.len() == frames.len()
    &&& forall|i: int| 0 <= i < events.len() ==> tells_of(#[trigger] events[i], frames[i])
}

/// Incremental decoder.
pub struct Decoder {
    buf: Vec<u8>,
}

impl View for Decoder {
    type V = Seq<u8>;

    /// The bytes kept for the next call.
    closed spec fn view(&self) -> Seq<u8> {
        self.buf@
    }
}

impl Default for Decoder {
    fn default() -> (decoder: Self)
        ensures
            decoder@ == Seq::<u8>::empty(),
    {
        Decoder { buf: Vec::new() }
    }
}

impl Decoder {
    /// A decoder that holds nothing.
    pub fn new() -> (decoder: Self)
        ensures
            decoder@ == Seq::<u8>::empty(),
    {
        Decoder { buf: Vec::new() }
    }

    /// Appends `input` and decodes the whole frames that are there now. Fails on
    /// an unrecognised tag; then nothing is decoded and all bytes are kept.
    pub fn feed(&mut self, input: &[u8]) -> (result: Result<Vec<Event>, UnrecognisedTag>)
        ensures
            ({
                let r = frame::frames_in(old(self)@ + input@);
                match r.bad {
                    Some(tag) => result == Err::<Vec<Event>, UnrecognisedTag>(UnrecognisedTag(tag))
                        && final(self)@ == old(self)@ + input@,
                    None => result is Ok && tell_of(result->Ok_0@, r.frames) && final(self)@
                        == r.rest,
                }
            }),
    {
        self.buf.extend_from_slice(input);
        let ghost all = old(self)@ + input@;
        assert(self.buf@ =~= all);
        let mut events: Vec<Event> = Vec::new();
        let mut consumed: usize = 0;
        let ghost mut done = Seq::<frame::Frame>::empty();
        proof {
            assert(all.skip(0) =~= all);
            assert(done + frame::frames_in(all).frames =~= frame::frames_in(all).frames);
        }
        loop
            invariant
                self.buf@ == all,
                all == old(self)@ + input@,
                consumed <= self.buf.len(),
                tell_of(events@, done),
                frame::frames_in(all).frames == done + frame::frames_in(
                    all.skip(consumed as int),
                ).frames,
                frame::frames_in(all).bad == frame::frames_in(all.skip(consumed as int)).bad,
                frame::frames_in(all).rest == frame::frames_in(all.skip(consumed as int)).rest,
            ensures
                self.buf@ == all,
                consumed <= self.buf.len(),
                tell_of(events@, done),
                frame::frames_in(all).frames == done,
                frame::frames_in(all).bad is None,
                frame::frames_in(all).rest == all.skip(consumed as int),
            decreases self.buf.len() - consumed,
        {
            let rest = slice_subrange(self.buf.as_slice(), consumed, self.buf.len());
            assert(rest@ =~= all.skip(consumed as int));
            proof {
                frame::lemma_parse_takes(rest@);
            }
            match parse_one(rest) {
                Err(e) => return Err(e),
                Ok(Some((ev, n))) => {
                    proof {
                        let f = frame::parse(rest@)->Whole_0;
                        assert(rest@.skip(n as int) =~= all.skip(consumed + n));
                        let later = frame::frames_in(all.skip(consumed + n)).frames;
                        assert(done + (seq![f] + later) =~= done.push(f) + later);
                        done = done.push(f);
                    }
                    events.push(ev);
                    consumed += n;
                },
                Ok(None) => {
                    assert(done + Seq::<frame::Frame>::empty() =~= done);
                    break;
                },
            }
        }
        if consumed > 0 {
            let kept: Vec<u8> = slice_to_vec(
                slice_subrange(self.buf.as_slice(), consumed, self.buf.len()),
            );
            self.buf = kept;
        }
        assert(self.buf@ =~= all.skip(consumed as int));
        Ok(events)
    }
}

/// Tries to read one frame off the front of `buf`: the event and the bytes that
/// it takes, or nothing where the frame is not whole yet.
pub fn parse_one(buf: &[u8]) -> (result: Result<Option<(Event, usize)>, UnrecognisedTag>)
    ensures
        match frame::parse(buf@) {
            frame::Step::NeedMore => result is Ok && result->Ok_0 is None,
            frame::Step::Bad(tag) => result == Err::<Option<(Event, usize)>, UnrecognisedTag>(
                UnrecognisedTag(tag),
            ),
            frame::Step::Whole(f, n) => result is Ok && result->Ok_0 is Some && tells_of(
                (result->Ok_0->0).0,
                f,
            ) && (result->Ok_0->0).1 == n,
        },
{
    if buf.len() == 0 {
        return Ok(None);
    }
    let tag: u8 = buf[0];
    if tag == TAG_BLOCK {
        let mut samples: Vec<u32> = Vec::new();
        let mut off: usize = 1;
        loop
            invariant
                1 <= off <= buf.len(),
                (off - 1) % 4 == 0,
                buf.len() > 0,
                buf[0] == TAG_BLOCK,
                samples@ == bytes::words(buf@.subrange(1, off as int)),
                frame::sentinel_from(buf@, 1) == frame::sentinel_from(buf@, off as int),
            decreases buf.len() - off,
        {
            if buf.len() - off < 4 {
                return Ok(None);
            }
            let w: u32 = bytes::read_u32(buf, off);
            if w == frame::BLOCK_SENTINEL {
                return Ok(Some((Event::Block(samples), off + 4)));
            }
            samples.push(w);
            assert(samples@ =~= bytes::words(buf@.subrange(1, off + 4)));
            off += 4;
        }
    } else if tag == TAG_RUN {
        if buf.len() < 7 {
            return Ok(None);
        }
        let n: u16 = bytes::read_u16(buf, 1);
        let sample: u32 = bytes::read_u32(buf, 3);
        Ok(Some((Event::Run { n, sample }, 7)))
    } else if tag == TAG_TICK {
        if buf.len() < 15 {
            return Ok(None);
        }
        let t_us: u32 = bytes::read_u32(buf, 1);
        let dt_us: u16 = bytes::read_u16(buf, 5);
        let n_drained: u16 = bytes::read_u16(buf, 7);
        let n_pending: u16 = bytes::read_u16(buf, 9);
        let bytes_out: u32 = bytes::read_u32(buf, 11);
        Ok(Some((Event::Tick { t_us, dt_us, n_drained, n_pending, bytes_out }, 15)))
    } else if tag == TAG_REPEAT2 {
        if buf.len() < 9 {
            return Ok(None);
        }
        let val_a: u32 = bytes::read_u32(buf, 1);
        let val_b: u32 = bytes::read_u32(buf, 5);
        proof {
            frame::lemma_zero_from(buf@, 9);
        }
        match frame::find_zero(buf, 9) {
            None => Ok(None),
            Some(end) => {
                let run_lens: Vec<u8> = slice_to_vec(slice_subrange(buf, 9, end));
                Ok(Some((Event::Repeat2 { val_a, val_b, run_lens }, end + 1)))
            },
        }
    } else if tag == TAG_OVERRUN {
        if buf.len() < 5 {
            return Ok(None);
        }
        Ok(Some((Event::Overrun { dropped: bytes::read_u32(buf, 1) }, 5)))
    } else if tag == TAG_LOG {
        proof {
            frame::lemma_zero_from(buf@, 1);
        }
        match frame::find_zero(buf, 1) {
            None => Ok(None),
            Some(end) => {
                let msg: String = text::lossy_text(slice_subrange(buf, 1, end));
                Ok(Some((Event::Log(msg), end + 1)))
            },
        }
    } else if tag == TAG_STARTED {
        Ok(Some((Event::Started, 1)))
    } else if tag == TAG_STOPPED {
        Ok(Some((Event::Stopped, 1)))
    } else {
        Err(UnrecognisedTag(tag))
    }
}

/// An event has the fields of the frame that it tells of, each under its own name.
pub proof fn law_events_have_the_fields_of_their_frames(
    samples: Vec<u32>,
    list: Seq<u32>,
    lens: Vec<u8>,
    len_list: Seq<u8>,
    a: (u32, u16, u16, u16, u32),
    b: (u32, u16, u16, u16, u32),
)
    ensures
        tells_of(Event::Block(samples), frame::Frame::Block(list)) <==> samples@ == list,
        tells_of(
            Event::Run { n: a.1, sample: a.0 },
            frame::Frame::Run { n: b.1, sample: b.0 },
        ) <==> a.1 == b.1 && a.0 == b.0,
        tells_of(
            Event::Repeat2 { val_a: a.0, val_b: a.4, run_lens: lens },
            frame::Frame::Repeat2 { val_a: b.0, val_b: b.4, run_lens: len_list },
        ) <==> a.0 == b.0 && a.4 == b.4 && lens@ == len_list,
        tells_of(
            Event::Tick {
                t_us: a.0,
                dt_us: a.1,
                n_drained: a.2,
                n_pending: a.3,
                bytes_out: a.4,
            },
            frame::Frame::Tick {
                t_us: b.0,
                dt_us: b.1,
                n_drained: b.2,
                n_pending: b.3,
                bytes_out: b.4,
            },
        ) <==> a == b,
        tells_of(
            Event::Overrun { dropped: a.0 },
            frame::Frame::Overrun { dropped: b.0 },
        ) <==> a.0 == b.0,
        tells_of(Event::Started, frame::Frame::Started),
        tells_of(Event::Stopped, frame::Frame::Stopped),
        !tells_of(Event::Started, frame::Frame::Stopped),
        !tells_of(Event::Stopped, frame::Frame::Started),
{
}

/// A line of text is told as it was written.
pub proof fn law_texts_are_told_as_written(msg: String, t: Seq<char>)
    ensures
        tells_of(Event::Log(msg), frame::Frame::Log(vstd::utf8::encode_utf8(t))) ==> msg@ == t,
{
    vstd::utf8::encode_utf8_valid_utf8(t);
    vstd::utf8::encode_utf8_decode_utf8(t);
}

/// What a call of [`parse_one`] reads off the front of bytes that start with a frame: the
/// event with the frame's fields, and as many bytes as the frame has, whatever follows.
pub proof fn law_a_frame_is_parsed(
    buf: &[u8],
    result: Result<Option<(Event, usize)>, UnrecognisedTag>,
    f: frame::Frame,
    rest: Seq<u8>,
)
    requires
        frame::expressible(f),
        buf@ == frame::frame_bytes(f) + rest,
        call_ensures(parse_one, (buf,), result),
    ensures
        result is Ok && result->Ok_0 is Some,
        (result->Ok_0->0).1 == frame::frame_bytes(f).len(),
        f matches frame::Frame::Tick { t_us, dt_us, n_drained, n_pending, bytes_out } ==> (
        result->Ok_0->0).0 == (Event::Tick { t_us, dt_us, n_drained, n_pending, bytes_out }),
        f matches frame::Frame::Run { n, sample } ==> (result->Ok_0->0).0 == (Event::Run {
            n,
            sample,
        }),
        f matches frame::Frame::Overrun { dropped } ==> (result->Ok_0->0).0 == (Event::Overrun {
            dropped,
        }),
        f matches frame::Frame::Block(samples) ==> ((result->Ok_0->0).0 matches Event::Block(v)
            && v@ == samples),
        f matches frame::Frame::Repeat2 { val_a, val_b, run_lens } ==> ((
        result->Ok_0->0).0 matches Event::Repeat2 { val_a: a, val_b: b, run_lens: v } && a == val_a
            && b == val_b && v@ == run_lens),
        f == frame::Frame::Started ==> (result->Ok_0->0).0 == Event::Started,
        f == frame::Frame::Stopped ==> (result->Ok_0->0).0 == Event::Stopped,
{
    frame::law_parse_reads_back(f, rest);
}

/// What two calls of [`Decoder::feed`] do with a frame that was cut in two: the first
/// gives nothing, and the second gives the frame's event.
pub proof fn law_a_cut_frame_is_read(
    d: &mut Decoder,
    front: &[u8],
    first: Result<Vec<Event>, UnrecognisedTag>,
    e: &mut Decoder,
    back: &[u8],
    second: Result<Vec<Event>, UnrecognisedTag>,
    f: frame::Frame,
)
    requires
        frame::expressible(f),
        front@ + back@ == frame::frame_bytes(f),
        back@.len() > 0,
        old(d)@.len() == 0,
        call_ensures(Decoder::feed, (d, front), first),
        *old(e) == *final(d),
        call_ensures(Decoder::feed, (e, back), second),
    ensures
        first is Ok && first->Ok_0@.len() == 0,
        second is Ok && second->Ok_0@.len() == 1,
        tells_of(second->Ok_0@[0], f),
        final(e)@.len() == 0,
{
    let none = Seq::<u8>::empty();
    let b = frame::frame_bytes(f);
    assert(b + none =~= b);
    frame::law_parse_reads_back(f, none);
    frame::lemma_parse_takes(b);
    let j = front@.len() as int;
    assert(b.take(j) =~= front@);
    frame::law_parse_needs_the_whole_frame(b, j);
    assert(old(d)@ + front@ =~= front@);
    assert(old(e)@ + back@ =~= b);
    assert(b.skip(b.len() as int) =~= none);
    assert(frame::frames_in(none).frames =~= Seq::<frame::Frame>::empty());
    assert(frame::frames_in(b).frames =~= seq![f]);
}

/// What a call of [`Decoder::feed`] does with a byte that starts no frame, behind a whole
/// frame: it names the byte, tells nothing and keeps all bytes.
pub proof fn law_a_bad_byte_spoils_the_read(
    d: &mut Decoder,
    input: &[u8],
    result: Result<Vec<Event>, UnrecognisedTag>,
    f: frame::Frame,
    bad: u8,
)
    requires
        old(d)@.len() == 0,
        frame::expressible(f),
        bad == 0 || 3 < bad < 0xfa || bad == 0xff,
        input@ == frame::frame_bytes(f).push(bad),
        call_ensures(Decoder::feed, (d, input), result),
    ensures
        result == Err::<Vec<Event>, UnrecognisedTag>(UnrecognisedTag(bad)),
        final(d)@ == input@,
{
    let b = frame::frame_bytes(f);
    let s = b.push(bad);
    assert(old(d)@ + input@ =~= s);
    assert(b + seq![bad] =~= s);
    frame::law_parse_reads_back(f, seq![bad]);
    frame::lemma_parse_takes(s);
    assert(s.skip(b.len() as int) =~= seq![bad]);
    frame::law_other_bytes_start_no_frame(seq![bad]);
    assert(frame::frames_in(seq![bad]).bad == Some(bad));
    assert(frame::frames_in(s).bad == Some(bad));
}

} // verus!
