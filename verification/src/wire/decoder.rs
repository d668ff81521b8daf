//! Streaming decoder with a fixed internal buffer.
//!
//! Feed raw bytes in through [`Decoder::feed`] and receive the decoded
//! [`WireEvent`]s at the end of a list. The decoder keeps a partial trailing
//! frame for the next call, so that the caller can pass reads of any size.
//!
//! A frame larger than the buffer is split over several events (a long BLOCK
//! or REPEAT2 comes in pieces); a consumer that takes samples one by one sees
//! no difference.
//!
//! An unrecognised leading tag means that the stream lost its framing:
//! [`Decoder::feed`] returns [`WireError::BadTag`], and the caller should go
//! through STOP, drain, START.

use vstd::prelude::*;
use vstd::slice::{slice_subrange, slice_to_vec};

use crate::bytes;
use crate::text::utf8_text;
use crate::wire::frame;
use crate::wire::frame::{
    TAG_BLOCK, TAG_LOG, TAG_OVERRUN, TAG_REPEAT2, TAG_RUN, TAG_STARTED, TAG_STOPPED, TAG_TICK,
};

verus! {

/// Capacity in bytes of the buffer that holds the partial trailing frame.
pub const BUF_CAP: usize = 1024;

/// Most samples in one [`WireEvent::Block`].
pub const CHUNK: usize = 64;

/// One decoded event.
#[derive(Debug, Clone, PartialEq, Eq)]
pub enum WireEvent {
    /// Samples of a BLOCK. A long block comes as several consecutive events.
    Block(Vec<u32>),
    /// `n` repetitions of `sample`.
    Run { n: u16, sample: u32 },
    /// Runs that alternate between `val_a` and `val_b`: `run_lens[i]` is the
    /// length of run `i`, and run 0 is of `val_a`. A long list comes as
    /// several consecutive events with the same two values.
    Repeat2 { val_a: u32, val_b: u32, run_lens: Vec<u8> },
    /// Drain tick: board wall clock and backlog telemetry.
    Tick { t_us: u32, dt_us: u16, n_drained: u16, n_pending: u16, bytes_out: u32 },
    /// The board lost `dropped` samples.
    Overrun { dropped: u32 },
    /// A line of text from the board.
    Log(String),
    /// The board acknowledged START.
    Started,
    /// The board acknowledged STOP.
    Stopped,
}

/// An event as a mathematical value.
pub enum Event {
    Block(Seq<u32>),
    Run { n: u16, sample: u32 },
    Repeat2 { val_a: u32, val_b: u32, run_lens: Seq<u8> },
    Tick { t_us: u32, dt_us: u16, n_drained: u16, n_pending: u16, bytes_out: u32 },
    Overrun { dropped: u32 },
    Log(Seq<char>),
    Started,
    Stopped,
}

impl View for WireEvent {
    type V = Event;

    open spec fn view(&self) -> Event {
        match *self {
            WireEvent::Block(samples) => Event::Block(samples@),
            WireEvent::Run { n, sample } => Event::Run { n, sample },
            WireEvent::Repeat2 { val_a, val_b, run_lens } => Event::Repeat2 {
                val_a,
                val_b,
                run_lens: run_lens@,
            },
            WireEvent::Tick { t_us, dt_us, n_drained, n_pending, bytes_out } => Event::Tick {
                t_us,
                dt_us,
                n_drained,
                n_pending,
                bytes_out,
            },
            WireEvent::Overrun { dropped } => Event::Overrun { dropped },
            WireEvent::Log(text) => Event::Log(text@),
            WireEvent::Started => Event::Started,
            WireEvent::Stopped => Event::Stopped,
        }
    }
}

/// Why the stream could not be decoded.
#[derive(Debug, Clone, Copy, PartialEq, Eq, Structural)]
pub enum WireError {
    /// The leading byte of a frame was not a recognised tag.
    BadTag(u8),
}

/// The values of a list of events.
pub open spec fn views(events: Seq<WireEvent>) -> Seq<Event> {
    events.map_values(|e: WireEvent| e@)
}

/// A sample list cut into events of at most [`CHUNK`] samples.
pub open spec fn chunks(samples: Seq<u32>) -> Seq<Event>
    decreases samples.len(),
{
    if samples.len() == 0 {
        Seq::empty()
    } else if samples.len() <= CHUNK {
        seq![Event::Block(samples)]
    } else {
        seq![Event::Block(samples.take(CHUNK as int))] + chunks(samples.skip(CHUNK as int))
    }
}

/// The text of a LOG body.
pub open spec fn log_text(text: Seq<u8>) -> Seq<char> {
    if vstd::utf8::valid_utf8(text) {
        vstd::utf8::decode_utf8(text)
    } else {
        "<invalid utf8>"@
    }
}

/// The events that one frame is delivered as.
pub open spec fn frame_events(f: frame::Frame) -> Seq<Event> {
    match f {
        frame::Frame::Block(samples) => chunks(samples),
        frame::Frame::Run { n, sample } => seq![Event::Run { n, sample }],
        frame::Frame::Repeat2 { val_a, val_b, run_lens } => seq![
            Event::Repeat2 { val_a, val_b, run_lens },
        ],
        frame::Frame::Tick { t_us, dt_us, n_drained, n_pending, bytes_out } => seq![
            Event::Tick { t_us, dt_us, n_drained, n_pending, bytes_out },
        ],
        frame::Frame::Overrun { dropped } => seq![Event::Overrun { dropped }],
        frame::Frame::Log(text) => seq![Event::Log(log_text(text))],
        frame::Frame::Started => seq![Event::Started],
        frame::Frame::Stopped => seq![Event::Stopped],
    }
}

/// What decoding some bytes comes to.
pub struct Outcome {
    /// The events, in order.
    pub events: Seq<Event>,
    /// The offending tag, where there was one.
    pub error: Option<u8>,
    /// The bytes held for the next call.
    pub held: Seq<u8>,
}

/// The outcome `o`, with `events` delivered before it.
pub open spec fn preceded(events: Seq<Event>, o: Outcome) -> Outcome {
    Outcome { events: events + o.events, ..o }
}

/// Takes the whole frames off the front of `s`.
pub open spec fn drained(s: Seq<u8>) -> Outcome
    decreases s.len(),
{
    match frame::parse(s) {
        frame::Step::NeedMore => Outcome { events: Seq::empty(), error: None, held: s },
        frame::Step::Bad(tag) => Outcome { events: Seq::empty(), error: Some(tag), held: s },
        frame::Step::Whole(f, n) => if 0 < n <= s.len() {
            preceded(frame_events(f), drained(s.skip(n as int)))
        } else {
            arbitrary()
        },
    }
}

/// Makes room in a full buffer: the whole samples of an unfinished BLOCK, or an
/// even number of the run lengths of an unfinished REPEAT2, are delivered now,
/// and what is held is the frame's header with the rest of its body. Nothing
/// else can be split.
pub open spec fn spilled(buf: Seq<u8>) -> Option<Outcome> {
    if buf[0] == TAG_BLOCK {
        let cut = 1 + (buf.len() - 1) / 4 * 4;
        Some(
            Outcome {
                events: chunks(bytes::words(buf.subrange(1, cut))),
                error: None,
                held: buf.take(1) + buf.skip(cut),
            },
        )
    } else if buf[0] == TAG_REPEAT2 {
        let cut = 9 + (buf.len() - 9) / 2 * 2;
        Some(
            Outcome {
                events: seq![
                    Event::Repeat2 {
                        val_a: bytes::word_at(buf, 1),
                        val_b: bytes::word_at(buf, 5),
                        run_lens: buf.subrange(9, cut),
                    },
                ],
                error: None,
                held: buf.take(9) + buf.skip(cut),
            },
        )
    } else {
        None
    }
}

/// Decodes `input` after the bytes `buf` that are already held: the buffer is
/// topped up and drained until the input is used up.
pub open spec fn fed(buf: Seq<u8>, input: Seq<u8>) -> Outcome
    decreases input.len(), buf.len(),
    when buf.len() <= BUF_CAP
    via fed_decreases
{
    let room = BUF_CAP - buf.len();
    let take = if room <= input.len() { room } else { input.len() as int };
    let full = buf + input.take(take);
    let rest = input.skip(take);
    let d = drained(full);
    if d.error is Some {
        Outcome { held: full, ..d }
    } else if rest.len() == 0 {
        d
    } else if d.held.len() < BUF_CAP {
        preceded(d.events, fed(d.held, rest))
    } else {
        match spilled(d.held) {
            Some(o) => preceded(d.events + o.events, fed(o.held, rest)),
            None => Outcome { error: Some(d.held[0]), ..d },
        }
    }
}

#[via_fn]
proof fn fed_decreases(buf: Seq<u8>, input: Seq<u8>) {
    let room = BUF_CAP - buf.len();
    let take = if room <= input.len() { room } else { input.len() as int };
    let full = buf + input.take(take);
    lemma_drained(full);
    if take == 0 {
        assert(full =~= buf);
    }
    let d = drained(full);
    if d.held.len() == BUF_CAP && spilled(d.held) is Some {
        lemma_spilled_shrinks(d.held);
    }
}

/// What is held after a drain is a suffix that is not yet a frame.
pub proof fn lemma_drained(s: Seq<u8>)
    ensures
        drained(s).held.len() <= s.len(),
        drained(s).error is None ==> frame::parse(drained(s).held) is NeedMore,
        drained(s).error matches Some(tag) ==> frame::parse(drained(s).held) == frame::Step::Bad(
            tag,
        ),
        drained(s).held == s.skip(s.len() - drained(s).held.len()),
    decreases s.len(),
{
    frame::lemma_parse_takes(s);
    if let frame::Step::Whole(f, n) = frame::parse(s) {
        lemma_drained(s.skip(n as int));
        let h = drained(s.skip(n as int)).held;
        assert(s.skip(n as int).skip(s.skip(n as int).len() - h.len()) =~= s.skip(
            s.len() - h.len(),
        ));
    } else {
        assert(s.skip(0) =~= s);
    }
}

pub proof fn lemma_spilled_shrinks(buf: Seq<u8>)
    requires
        buf.len() == BUF_CAP,
        spilled(buf) is Some,
    ensures
        spilled(buf)->0.held.len() <= 10,
{
}

proof fn lemma_views_push(events: Seq<WireEvent>, e: WireEvent)
    ensures
        views(events.push(e)) == views(events) + seq![e@],
{
    assert(views(events.push(e)) =~= views(events) + seq![e@]);
}

/// Delivers the samples whose bytes are `body`, at most [`CHUNK`] at a time.
fn emit_block_samples(body: &[u8], out: &mut Vec<WireEvent>)
    ensures
        views(final(out)@) == views(old(out)@) + chunks(bytes::words(body@)),
{
    let n: usize = body.len() / 4;
    let mut i: usize = 0;
    let ghost all = bytes::words(body@);
    assert(all.skip(0) =~= all);
    while i < n
        invariant
            i <= n,
            n == body.len() / 4,
            all == bytes::words(body@),
            views(old(out)@) + chunks(all) == views(out@) + chunks(all.skip(i as int)),
        decreases n - i,
    {
        let take: usize = if n - i < CHUNK {
            n - i
        } else {
            CHUNK
        };
        let mut samples: Vec<u32> = Vec::new();
        let mut k: usize = 0;
        while k < take
            invariant
                i + take <= n,
                k <= take,
                n == body.len() / 4,
                all == bytes::words(body@),
                samples@ == all.subrange(i as int, i + k),
            decreases take - k,
        {
            samples.push(bytes::read_u32(body, (i + k) * 4));
            k += 1;
            assert(samples@ =~= all.subrange(i as int, i + k));
        }
        let ghost left = all.skip(i as int);
        let ghost before = out@;
        let ev = WireEvent::Block(samples);
        out.push(ev);
        proof {
            lemma_views_push(before, ev);
            assert(samples@ =~= left.take(take as int));
            assert(left.skip(take as int) =~= all.skip(i + take));
            if left.len() <= CHUNK {
                assert(samples@ =~= left);
                assert(chunks(all.skip(i + take)) =~= Seq::<Event>::empty());
            }
            assert(views(before) + chunks(left) =~= views(out@) + chunks(all.skip(i + take)));
        }
        i += take;
    }
    assert(chunks(all.skip(i as int)) =~= Seq::<Event>::empty());
    assert(views(out@) + chunks(all.skip(i as int)) =~= views(out@));
}

/// What the front of the buffer held.
enum ParseStep {
    /// A frame was parsed and delivered; so many bytes were consumed.
    Consumed(usize),
    /// The buffer does not hold a full frame yet.
    NeedMore,
}

/// Reads a BLOCK: 4-byte samples up to the sentinel.
fn parse_block(buf: &[u8], out: &mut Vec<WireEvent>) -> (step: ParseStep)
    requires
        buf.len() <= BUF_CAP,
        buf.len() > 0,
        buf[0] == TAG_BLOCK,
    ensures
        parse_effect(buf@, views(old(out)@), Ok(step), views(final(out)@)),
{
    let mut off: usize = 1;
    loop
        invariant
            1 <= off <= buf.len() <= BUF_CAP,
            buf.len() > 0,
            buf[0] == TAG_BLOCK,
            out@ == old(out)@,
            frame::sentinel_from(buf@, 1) == frame::sentinel_from(buf@, off as int),
        decreases buf.len() - off,
    {
        if buf.len() < off + 4 {
            return ParseStep::NeedMore;
        }
        let w: u32 = bytes::read_u32(buf, off);
        if w == frame::BLOCK_SENTINEL {
            emit_block_samples(slice_subrange(buf, 1, off), out);
            return ParseStep::Consumed(off + 4);
        }
        off += 4;
    }
}

/// Reads a REPEAT2: two values, then run lengths up to a zero byte.
fn parse_repeat2(buf: &[u8], out: &mut Vec<WireEvent>) -> (step: ParseStep)
    requires
        buf.len() <= BUF_CAP,
        buf.len() > 0,
        buf[0] == TAG_REPEAT2,
    ensures
        parse_effect(buf@, views(old(out)@), Ok(step), views(final(out)@)),
{
    if buf.len() < 9 {
        return ParseStep::NeedMore;
    }
    let val_a: u32 = bytes::read_u32(buf, 1);
    let val_b: u32 = bytes::read_u32(buf, 5);
    proof {
        frame::lemma_zero_from(buf@, 9);
    }
    match frame::find_zero(buf, 9) {
        None => ParseStep::NeedMore,
        Some(end) => {
            let run_lens: Vec<u8> = slice_to_vec(slice_subrange(buf, 9, end));
            let ghost before = out@;
            let ev = WireEvent::Repeat2 { val_a, val_b, run_lens };
            out.push(ev);
            proof {
                lemma_views_push(before, ev);
                assert(run_lens@ =~= buf@.subrange(9, end as int));
            }
            ParseStep::Consumed(end + 1)
        },
    }
}

/// What one step of the parser comes to: the frame's events are delivered and
/// its bytes consumed, or nothing happens.
spec fn parse_effect(
    buf: Seq<u8>,
    before: Seq<Event>,
    step: Result<ParseStep, WireError>,
    after: Seq<Event>,
) -> bool {
    match frame::parse(buf) {
        frame::Step::NeedMore => step == Ok::<ParseStep, WireError>(ParseStep::NeedMore) && after
            == before,
        frame::Step::Bad(tag) => step == Err::<ParseStep, WireError>(WireError::BadTag(tag))
            && after == before,
        frame::Step::Whole(f, n) => step == Ok::<ParseStep, WireError>(
            ParseStep::Consumed(n as usize),
        ) && after == before + frame_events(f),
    }
}

/// Tries to read one frame off the front of `buf` and deliver it.
fn parse_one(buf: &[u8], out: &mut Vec<WireEvent>) -> (step: Result<ParseStep, WireError>)
    requires
        buf.len() <= BUF_CAP,
    ensures
        parse_effect(buf@, views(old(out)@), step, views(final(out)@)),
{
    if buf.len() == 0 {
        return Ok(ParseStep::NeedMore);
    }
    let tag: u8 = buf[0];
    let ghost before = out@;
    if tag == TAG_BLOCK {
        Ok(parse_block(buf, out))
    } else if tag == TAG_RUN {
        if buf.len() < 7 {
            return Ok(ParseStep::NeedMore);
        }
        let ev = WireEvent::Run { n: bytes::read_u16(buf, 1), sample: bytes::read_u32(buf, 3) };
        out.push(ev);
        proof {
            lemma_views_push(before, ev);
        }
        Ok(ParseStep::Consumed(7))
    } else if tag == TAG_REPEAT2 {
        Ok(parse_repeat2(buf, out))
    } else if tag == TAG_TICK {
        if buf.len() < 15 {
            return Ok(ParseStep::NeedMore);
        }
        let ev = WireEvent::Tick {
            t_us: bytes::read_u32(buf, 1),
            dt_us: bytes::read_u16(buf, 5),
            n_drained: bytes::read_u16(buf, 7),
            n_pending: bytes::read_u16(buf, 9),
            bytes_out: bytes::read_u32(buf, 11),
        };
        out.push(ev);
        proof {
            lemma_views_push(before, ev);
        }
        Ok(ParseStep::Consumed(15))
    } else if tag == TAG_OVERRUN {
        if buf.len() < 5 {
            return Ok(ParseStep::NeedMore);
        }
        let ev = WireEvent::Overrun { dropped: bytes::read_u32(buf, 1) };
        out.push(ev);
        proof {
            lemma_views_push(before, ev);
        }
        Ok(ParseStep::Consumed(5))
    } else if tag == TAG_LOG {
        proof {
            frame::lemma_zero_from(buf@, 1);
        }
        match frame::find_zero(buf, 1) {
            None => Ok(ParseStep::NeedMore),
            Some(end) => {
                let text: String = match utf8_text(slice_subrange(buf, 1, end)) {
                    Some(t) => t.to_owned(),
                    None => "<invalid utf8>".to_owned(),
                };
                let ev = WireEvent::Log(text);
                out.push(ev);
                proof {
                    lemma_views_push(before, ev);
                }
                Ok(ParseStep::Consumed(end + 1))
            },
        }
    } else if tag == TAG_STARTED {
        out.push(WireEvent::Started);
        proof {
            lemma_views_push(before, WireEvent::Started);
        }
        Ok(ParseStep::Consumed(1))
    } else if tag == TAG_STOPPED {
        out.push(WireEvent::Stopped);
        proof {
            lemma_views_push(before, WireEvent::Stopped);
        }
        Ok(ParseStep::Consumed(1))
    } else {
        Err(WireError::BadTag(tag))
    }
}

/// Incremental decoder with a fixed internal buffer.
pub struct Decoder {
    buf: [u8; 1024],
    len: usize,
}

impl View for Decoder {
    type V = Seq<u8>;

    /// The bytes held for the next call.
    closed spec fn view(&self) -> Seq<u8> {
        self.buf@.take(self.len as int)
    }
}

impl Default for Decoder {
    fn default() -> (decoder: Self)
        ensures
            decoder.wf(),
            decoder@ == Seq::<u8>::empty(),
    {
        Decoder::new()
    }
}

impl Decoder {
    /// The held bytes fit the buffer.
    pub closed spec fn wf(&self) -> bool {
        self.len <= BUF_CAP
    }

    /// A decoder that holds nothing.
    pub fn new() -> (decoder: Self)
        ensures
            decoder.wf(),
            decoder@ == Seq::<u8>::empty(),
    {
        let decoder = Decoder { buf: [0u8; 1024], len: 0 };
        assert(decoder@ =~= Seq::<u8>::empty());
        decoder
    }

    /// Forgets what is held: the stream starts anew.
    pub fn reset(&mut self)
        requires
            old(self).wf(),
        ensures
            final(self).wf(),
            final(self)@ == Seq::<u8>::empty(),
    {
        self.len = 0;
        assert(self@ =~= Seq::<u8>::empty());
    }

    /// Appends to the buffer.
    fn top_up(&mut self, input: &[u8], from: usize, take: usize)
        requires
            old(self).wf(),
            from + take <= input.len(),
            old(self)@.len() + take <= BUF_CAP,
        ensures
            final(self).wf(),
            final(self)@ == old(self)@ + input@.subrange(from as int, from + take),
    {
        let start: usize = self.len;
        let mut i: usize = 0;
        while i < take
            invariant
                i <= take,
                start + take <= BUF_CAP,
                from + take <= input.len(),
                self.len == start,
                start == old(self).len,
                forall|j: int| 0 <= j < start ==> self.buf@[j] == old(self).buf@[j],
                forall|j: int|
                    start <= j < start + i ==> #[trigger] self.buf@[j] == input@[j - start + from],
            decreases take - i,
        {
            let b: u8 = input[from + i];
            self.buf[start + i] = b;
            i += 1;
        }
        self.len = start + take;
        assert(self@ =~= old(self)@ + input@.subrange(from as int, from + take));
    }

    /// Drops bytes `keep..cut` out of the middle of the buffer.
    fn close_gap(&mut self, keep: usize, cut: usize)
        requires
            old(self).wf(),
            keep <= cut <= old(self)@.len(),
        ensures
            final(self).wf(),
            final(self)@ == old(self)@.take(keep as int) + old(self)@.skip(cut as int),
    {
        let n: usize = self.len - cut;
        let mut i: usize = 0;
        while i < n
            invariant
                i <= n,
                keep <= cut,
                cut + n == self.len,
                self.len == old(self).len,
                self.len <= BUF_CAP,
                forall|j: int| 0 <= j < keep ==> self.buf@[j] == old(self).buf@[j],
                forall|j: int|
                    keep <= j < keep + i ==> #[trigger] self.buf@[j] == old(self).buf@[j + cut
                        - keep],
                forall|j: int| keep + i <= j < self.len ==> self.buf@[j] == old(self).buf@[j],
            decreases n - i,
        {
            let b: u8 = self.buf[cut + i];
            self.buf[keep + i] = b;
            i += 1;
        }
        self.len = keep + n;
        assert(self@ =~= old(self)@.take(keep as int) + old(self)@.skip(cut as int));
    }

    /// Parses and delivers as many whole frames as the buffer holds, and moves
    /// the rest to the front. On an error the buffer stays as it was.
    fn drain(&mut self, out: &mut Vec<WireEvent>) -> (result: Result<(), WireError>)
        requires
            old(self).wf(),
        ensures
            final(self).wf(),
            ({
                let d = drained(old(self)@);
                &&& views(final(out)@) == views(old(out)@) + d.events
                &&& match d.error {
                    Some(tag) => result == Err::<(), WireError>(WireError::BadTag(tag))
                        && final(self)@ == old(self)@,
                    None => result is Ok && final(self)@ == d.held,
                }
            }),
    {
        let mut consumed: usize = 0;
        let ghost all = self@;
        assert(all.skip(0) =~= all);
        assert(views(old(out)@) + Seq::<Event>::empty() =~= views(old(out)@));
        loop
            invariant
                self.wf(),
                consumed <= self.len,
                self@ == all,
                self@ == old(self)@,
                views(old(out)@) + drained(all).events == views(out@) + drained(
                    all.skip(consumed as int),
                ).events,
                drained(all).error == drained(all.skip(consumed as int)).error,
                drained(all).held == drained(all.skip(consumed as int)).held,
            ensures
                self.wf(),
                consumed <= self.len,
                self@ == all,
                self@ == old(self)@,
                views(out@) == views(old(out)@) + drained(all).events,
                drained(all).error is None,
                drained(all).held == all.skip(consumed as int),
            decreases self.len - consumed,
        {
            let slice = vstd::array::array_as_slice(&self.buf);
            let rest = slice_subrange(slice, consumed, self.len);
            let ghost before = views(out@);
            proof {
                assert(rest@ =~= all.skip(consumed as int));
                frame::lemma_parse_takes(rest@);
            }
            match parse_one(rest, out) {
                Ok(ParseStep::Consumed(n)) => {
                    proof {
                        let f = frame::parse(rest@)->Whole_0;
                        assert(rest@.skip(n as int) =~= all.skip(consumed + n));
                        assert(before + (frame_events(f) + drained(all.skip(consumed + n)).events)
                            =~= (before + frame_events(f)) + drained(
                            all.skip(consumed + n),
                        ).events);
                    }
                    consumed += n;
                },
                Ok(ParseStep::NeedMore) => {
                    assert(before + Seq::<Event>::empty() =~= before);
                    break;
                },
                Err(e) => {
                    assert(before + Seq::<Event>::empty() =~= before);
                    return Err(e);
                },
            }
        }
        if consumed > 0 {
            self.close_gap(0, consumed);
            assert(self@ =~= all.skip(consumed as int));
        } else {
            assert(self@ =~= all.skip(consumed as int));
        }
        Ok(())
    }

    /// Makes room in the full buffer, where its frame can be split.
    fn spill(&mut self, out: &mut Vec<WireEvent>) -> (split: bool)
        requires
            old(self).wf(),
            old(self)@.len() == BUF_CAP,
        ensures
            final(self).wf(),
            match spilled(old(self)@) {
                Some(o) => split && views(final(out)@) == views(old(out)@) + o.events && final(self)@ == o.held,
                None => !split && views(final(out)@) == views(old(out)@) && final(self)@ == old(self)@,
            },
    {
        let tag: u8 = self.buf[0];
        assert(tag == self@[0]);
        if tag == TAG_BLOCK {
            let cut: usize = 1 + (BUF_CAP - 1) / 4 * 4;
            let slice = vstd::array::array_as_slice(&self.buf);
            let body = slice_subrange(slice, 1, cut);
            assert(body@ =~= self@.subrange(1, cut as int));
            emit_block_samples(body, out);
            self.close_gap(1, cut);
            true
        } else if tag == TAG_REPEAT2 {
            let cut: usize = 9 + (BUF_CAP - 9) / 2 * 2;
            let slice = vstd::array::array_as_slice(&self.buf);
            let val_a: u32 = bytes::read_u32(slice, 1);
            let val_b: u32 = bytes::read_u32(slice, 5);
            let run_lens: Vec<u8> = slice_to_vec(slice_subrange(slice, 9, cut));
            assert(run_lens@ =~= self@.subrange(9, cut as int));
            let ev = WireEvent::Repeat2 { val_a, val_b, run_lens };
            let ghost before = out@;
            out.push(ev);
            proof {
                lemma_views_push(before, ev);
            }
            self.close_gap(9, cut);
            true
        } else {
            false
        }
    }

    /// One round of [`Decoder::feed`]: tops the buffer up from `input[pos..]`,
    /// drains it, and makes room where input is left over. Returns how far the
    /// input has been read.
    fn round(&mut self, input: &[u8], pos: usize, out: &mut Vec<WireEvent>) -> (result: Result<
        usize,
        WireError,
    >)
        requires
            old(self).wf(),
            pos <= input.len(),
        ensures
            final(self).wf(),
            round_effect(
                (old(self)@, input@.skip(pos as int), views(old(out)@)),
                match result {
                    Ok(p) => Ok(input@.skip(p as int)),
                    Err(e) => Err(e),
                },
                (final(self)@, views(final(out)@)),
            ),
            result matches Ok(p) ==> pos <= p <= input.len() && (p < input.len() ==> p > pos
                || final(self)@.len() < old(self)@.len()),
    {
        let ghost left = input@.skip(pos as int);
        let ghost buf = self@;
        let ghost given = views(out@);
        let room: usize = BUF_CAP - self.len;
        let avail: usize = input.len() - pos;
        let take: usize = if room <= avail {
            room
        } else {
            avail
        };
        let next: usize = pos + take;
        self.top_up(input, pos, take);
        proof {
            assert(self@ =~= buf + left.take(take as int));
            assert(left.skip(take as int) =~= input@.skip(next as int));
            lemma_round(buf, left, given, take as int);
        }
        match self.drain(out) {
            Ok(()) => {},
            Err(e) => {
                return Err(e);
            },
        }
        if next < input.len() && self.len == BUF_CAP {
            if !self.spill(out) {
                assert(self.buf[0] == self@[0]);
                return Err(WireError::BadTag(self.buf[0]));
            }
        }
        Ok(next)
    }

    /// Decodes `input` after what is held and appends the events to `out`.
    /// Fails on an unrecognised tag, and on a LOG longer than the buffer, the
    /// one frame that is neither bounded nor can be split.
    pub fn feed(&mut self, input: &[u8], out: &mut Vec<WireEvent>) -> (result: Result<
        (),
        WireError,
    >)
        requires
            old(self).wf(),
        ensures
            final(self).wf(),
            views(final(out)@) == views(old(out)@) + fed(old(self)@, input@).events,
            final(self)@ == fed(old(self)@, input@).held,
            match fed(old(self)@, input@).error {
                Some(tag) => result == Err::<(), WireError>(WireError::BadTag(tag)),
                None => result is Ok,
            },
    {
        let mut pos: usize = 0;
        let ghost whole = fed(self@, input@);
        assert(input@.skip(0) =~= input@);
        loop
            invariant
                self.wf(),
                pos <= input.len(),
                whole == fed(old(self)@, input@),
                views(old(out)@) + whole.events == views(out@) + fed(
                    self@,
                    input@.skip(pos as int),
                ).events,
                whole.error == fed(self@, input@.skip(pos as int)).error,
                whole.held == fed(self@, input@.skip(pos as int)).held,
            decreases input.len() - pos, self@.len(),
        {
            match self.round(input, pos, out) {
                Ok(next) => {
                    pos = next;
                    if pos == input.len() {
                        return Ok(());
                    }
                },
                Err(e) => {
                    return Err(e);
                },
            }
        }
    }
}

/// What one round of feeding comes to, from the held bytes, the input that is
/// left and the events delivered so far, to the input then left, the held
/// bytes and the events: an input used up or an error ends the feeding, and
/// anything else leaves the rest of it to do.
spec fn round_effect(
    before: (Seq<u8>, Seq<u8>, Seq<Event>),
    result: Result<Seq<u8>, WireError>,
    after: (Seq<u8>, Seq<Event>),
) -> bool {
    let whole = fed(before.0, before.1);
    match result {
        Err(e) => {
            &&& whole.error is Some
            &&& e == WireError::BadTag(whole.error->0)
            &&& after.0 == whole.held
            &&& after.1 == before.2 + whole.events
        },
        Ok(rest) => if rest.len() == 0 {
            &&& whole.error is None
            &&& after.0 == whole.held
            &&& after.1 == before.2 + whole.events
        } else {
            let left = fed(after.0, rest);
            &&& whole.error == left.error
            &&& whole.held == left.held
            &&& before.2 + whole.events == after.1 + left.events
        },
    }
}

/// The cases of one round, told apart by what is held once the buffer has been
/// topped up and drained.
proof fn lemma_round(buf: Seq<u8>, left: Seq<u8>, given: Seq<Event>, take: int)
    requires
        buf.len() <= BUF_CAP,
        take == if BUF_CAP - buf.len() <= left.len() {
            BUF_CAP - buf.len()
        } else {
            left.len() as int
        },
    ensures
        ({
            let full = buf + left.take(take);
            let rest = left.skip(take);
            let d = drained(full);
            let start = (buf, left, given);
            &&& d.error matches Some(tag) ==> round_effect(
                start,
                Err(WireError::BadTag(tag)),
                (full, given + d.events),
            )
            &&& d.error is None && (rest.len() == 0 || d.held.len() < BUF_CAP) ==> round_effect(
                start,
                Ok(rest),
                (d.held, given + d.events),
            ) && (rest.len() > 0 ==> take > 0 || d.held.len() < buf.len())
            &&& d.error is None && rest.len() > 0 && d.held.len() == BUF_CAP ==> match spilled(
                d.held,
            ) {
                Some(o) => round_effect(start, Ok(rest), (o.held, given + d.events + o.events)) && (
                take > 0 || o.held.len() < buf.len()),
                None => round_effect(
                    start,
                    Err(WireError::BadTag(d.held[0])),
                    (d.held, given + d.events),
                ),
            }
            &&& d.held.len() <= BUF_CAP
        }),
{
    let full = buf + left.take(take);
    let rest = left.skip(take);
    lemma_drained(full);
    let d = drained(full);
    if take == 0 {
        assert(full =~= buf);
    }
    if d.error is None && rest.len() > 0 {
        if d.held.len() < BUF_CAP {
            lemma_preceded(given, d.events, fed(d.held, rest));
        } else if spilled(d.held) is Some {
            let o = spilled(d.held)->0;
            lemma_spilled_shrinks(d.held);
            lemma_preceded(given, d.events + o.events, fed(o.held, rest));
            assert(given + (d.events + o.events) =~= given + d.events + o.events);
        }
    }
}

proof fn lemma_preceded(given: Seq<Event>, events: Seq<Event>, o: Outcome)
    ensures
        given + preceded(events, o).events == (given + events) + o.events,
{
    assert(given + (events + o.events) =~= (given + events) + o.events);
}

/// A long list of samples is cut into pieces of 64, from the front on; the last one
/// has what is left, and none is empty.
pub proof fn law_blocks_are_cut_from_the_front(samples: Seq<u32>, i: int)
    requires
        0 <= i < chunks(samples).len(),
    ensures
        chunks(samples).len() == (samples.len() + 63) / 64,
        64 * i < samples.len(),
        chunks(samples)[i] == Event::Block(
            samples.subrange(
                64 * i,
                if 64 * i + 64 < samples.len() {
                    64 * i + 64
                } else {
                    samples.len() as int
                },
            ),
        ),
    decreases samples.len(),
{
    if samples.len() <= 64 {
        assert(samples.subrange(0, samples.len() as int) =~= samples);
    } else {
        let rest = samples.skip(64);
        assert(samples.subrange(0, 64) =~= samples.take(64));
        assert(chunks(rest).len() > 0);
        law_blocks_are_cut_from_the_front(rest, if i == 0 {
            0
        } else {
            i - 1
        });
        if i > 0 {
            let end = if 64 * i + 64 < samples.len() {
                64 * i + 64
            } else {
                samples.len() as int
            };
            assert(rest.subrange(64 * (i - 1), end - 64) =~= samples.subrange(64 * i, end));
            assert(chunks(samples)[i] == chunks(rest)[i - 1]);
        }
    }
}

/// A line of text is told as it was written; bytes that are no text are told as such.
pub proof fn law_texts_are_told_as_written(t: Seq<char>, b: Seq<u8>)
    ensures
        log_text(vstd::utf8::encode_utf8(t)) == t,
        !vstd::utf8::valid_utf8(b) ==> log_text(b) == "<invalid utf8>"@,
{
    vstd::utf8::encode_utf8_valid_utf8(t);
    vstd::utf8::encode_utf8_decode_utf8(t);
}

/// Making room keeps the front of the frame, and hands out what was behind it, whole
/// samples or pairs of run lengths: what is handed out and what is kept are the
/// frame's body, in order.
pub proof fn law_making_room_keeps_the_rest(buf: Seq<u8>)
    requires
        buf.len() == 1024,
    ensures
        spilled(buf) is None <==> buf[0] != 1 && buf[0] != 3,
        buf[0] == 1 ==> ({
            let o = spilled(buf)->0;
            &&& o.held == seq![1u8] + buf.subrange(1021, 1024)
            &&& o.events == chunks(bytes::words(buf.subrange(1, 1021)))
            &&& o.error is None
        }),
        buf[0] == 3 ==> ({
            let o = spilled(buf)->0;
            &&& o.held == buf.take(9) + buf.subrange(1023, 1024)
            &&& o.events.len() == 1
            &&& o.events[0] == (Event::Repeat2 {
                val_a: bytes::word_at(buf, 1),
                val_b: bytes::word_at(buf, 5),
                run_lens: buf.subrange(9, 1023),
            })
            &&& o.error is None
        }),
{
    assert(buf.skip(1021) =~= buf.subrange(1021, 1024));
    assert(buf.skip(1023) =~= buf.subrange(1023, 1024));
    if buf[0] == 1 {
        assert(buf.take(1) =~= seq![1u8]);
    }
}

} // verus!
