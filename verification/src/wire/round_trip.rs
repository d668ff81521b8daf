//! The encoder and the decoder together: the samples that go in come out.

use vstd::prelude::*;

use crate::bytes;
use crate::wire::decoder;
use crate::wire::decoder::{Decoder, WireError, WireEvent};
use crate::wire::encoder;
use crate::wire::encoder::Encoder;
use crate::wire::frame;
use crate::wire::sink::Sink;
use crate::wire::stream;

verus! {

/// What an encoder remembers after `samples`, starting from nothing.
pub open spec fn remembered(samples: Seq<u32>) -> encoder::Pending {
    encoder::after_feeding_all(encoder::idle(), samples)
}

/// The bytes that `samples` put on the wire, starting from nothing.
pub open spec fn encoding(samples: Seq<u32>) -> Seq<u8> {
    encoder::feeding_all(encoder::idle(), samples)
}

/// The bytes of `samples`, with everything pending put on the wire.
pub open spec fn transmission(samples: Seq<u32>) -> Seq<u8> {
    encoding(samples) + encoder::flushing(remembered(samples))
}

/// No two neighbours are equal.
pub open spec fn neighbours_differ(samples: Seq<u32>) -> bool {
    forall|i: int| 0 < i < samples.len() ==> samples[i - 1] != #[trigger] samples[i]
}

/// The frames that an encoder makes of samples: a BLOCK holds samples of which no
/// two neighbours are equal, a RUN holds two equal ones or more.
pub open spec fn tight(f: frame::Frame) -> bool {
    match f {
        frame::Frame::Block(samples) => samples.len() > 0 && neighbours_differ(samples),
        frame::Frame::Run { n, .. } => n >= 2,
        _ => false,
    }
}

/// The samples of the run in progress.
spec fn run_part(p: encoder::Pending) -> Seq<u32> {
    match p.run {
        None => Seq::empty(),
        Some((s, n)) => stream::repeated(n, s),
    }
}

/// The part of the open BLOCK that is on the wire.
spec fn open_part(open: bool, block: Seq<u32>) -> Seq<u8> {
    if open {
        seq![frame::TAG_BLOCK] + bytes::le32s(block)
    } else {
        Seq::empty()
    }
}

/// The wire so far is `frames` and an open BLOCK of `block`, and these with the
/// run in progress hold the samples in order.
spec fn tells(
    wire: Seq<u8>,
    p: encoder::Pending,
    frames: Seq<frame::Frame>,
    block: Seq<u32>,
    samples: Seq<u32>,
) -> bool {
    &&& p.run matches Some((_, n)) ==> 1 <= n < encoder::MAX_RUN
    &&& !p.open ==> block.len() == 0
    &&& wire == stream::stream_bytes(frames) + open_part(p.open, block)
    &&& stream::stream_items(frames) + stream::sample_items(block) + stream::sample_items(
        run_part(p),
    ) == stream::sample_items(samples)
    &&& forall|i: int|
        0 <= i < frames.len() ==> stream::deliverable(#[trigger] frames[i]) && tight(frames[i])
    &&& p.open ==> block.len() > 0 && (p.run matches Some((s, _)) ==> block.last() != s)
    &&& neighbours_differ(block)
    &&& !block.contains(frame::BLOCK_SENTINEL)
}

proof fn lemma_stream_push(frames: Seq<frame::Frame>, f: frame::Frame)
    ensures
        stream::stream_bytes(frames.push(f)) == stream::stream_bytes(frames) + frame::frame_bytes(
            f,
        ),
        stream::stream_items(frames.push(f)) == stream::stream_items(frames) + stream::frame_items(
            f,
        ),
{
    assert(frames.push(f).drop_last() =~= frames);
}

/// Ending the open BLOCK.
proof fn lemma_close(
    wire: Seq<u8>,
    p: encoder::Pending,
    frames: Seq<frame::Frame>,
    block: Seq<u32>,
    samples: Seq<u32>,
) -> (closed: Seq<frame::Frame>)
    requires
        tells(wire, p, frames, block, samples),
    ensures
        tells(
            wire + encoder::closing(p.open),
            encoder::Pending { open: false, ..p },
            closed,
            Seq::empty(),
            samples,
        ),
{
    let none = Seq::<u32>::empty();
    let q = encoder::Pending { open: false, ..p };
    let run = stream::sample_items(run_part(p));
    if p.open {
        let f = frame::Frame::Block(block);
        let closed = frames.push(f);
        lemma_stream_push(frames, f);
        assert(wire + encoder::closing(true) =~= stream::stream_bytes(closed) + open_part(
            false,
            none,
        ));
        assert(stream::stream_items(closed) + stream::sample_items(none) + run
            =~= stream::sample_items(samples));
        assert(tells(wire + encoder::closing(p.open), q, closed, none, samples));
        closed
    } else {
        assert(block =~= none);
        assert(wire + encoder::closing(false) =~= wire);
        assert(tells(wire + encoder::closing(p.open), q, frames, none, samples));
        frames
    }
}

/// Putting a RUN of `n` on the wire when nothing is open.
proof fn lemma_emit_run(
    wire: Seq<u8>,
    p: encoder::Pending,
    frames: Seq<frame::Frame>,
    samples: Seq<u32>,
    s: u32,
    n: u16,
    more: Seq<u32>,
) -> (after: Seq<frame::Frame>)
    requires
        tells(wire, p, frames, Seq::empty(), samples),
        !p.open,
        n >= 2,
        run_part(p) + more == stream::repeated(n as nat, s),
    ensures
        tells(
            wire + frame::frame_bytes(frame::Frame::Run { n, sample: s }),
            encoder::idle(),
            after,
            Seq::empty(),
            samples + more,
        ),
{
    let none = Seq::<u32>::empty();
    let f = frame::Frame::Run { n, sample: s };
    let after = frames.push(f);
    lemma_stream_push(frames, f);
    let run = run_part(p);
    assert(stream::sample_items(run + more) =~= stream::sample_items(run) + stream::sample_items(
        more,
    ));
    assert(stream::sample_items(samples + more) =~= stream::sample_items(samples)
        + stream::sample_items(more));
    assert(stream::stream_items(after) + stream::sample_items(none) + stream::sample_items(
        run_part(encoder::idle()),
    ) =~= stream::sample_items(samples + more));
    assert(wire + frame::frame_bytes(f) =~= stream::stream_bytes(after) + open_part(false, none));
    after
}

/// Resolving the run in progress.
proof fn lemma_resolve(
    wire: Seq<u8>,
    p: encoder::Pending,
    frames: Seq<frame::Frame>,
    block: Seq<u32>,
    samples: Seq<u32>,
) -> (after: (Seq<frame::Frame>, Seq<u32>))
    requires
        tells(wire, p, frames, block, samples),
        p.run matches Some((s, _)) ==> s != frame::BLOCK_SENTINEL,
    ensures
        tells(
            wire + encoder::resolving(p),
            encoder::resolved(p),
            after.0,
            after.1,
            samples,
        ),
        p.run matches Some((s, n)) ==> (n == 1 ==> after.1.last() == s),
{
    match p.run {
        None => {
            assert(wire + encoder::resolving(p) =~= wire);
            (frames, block)
        },
        Some((s, n)) => {
            if n == 1 {
                let joined = block.push(s);
                bytes::lemma_le32s_push(block, s);
                let q = encoder::resolved(p);
                assert(wire + encoder::resolving(p) =~= stream::stream_bytes(frames) + open_part(
                    true,
                    joined,
                )) by {
                    if !p.open {
                        assert(block =~= Seq::<u32>::empty());
                        assert(bytes::le32s(block) =~= Seq::<u8>::empty());
                    }
                }
                assert(stream::sample_items(joined) =~= stream::sample_items(block)
                    + stream::sample_items(run_part(p)));
                assert(stream::sample_items(run_part(q)) =~= Seq::<stream::Item>::empty());
                assert(stream::stream_items(frames) + stream::sample_items(joined)
                    + stream::sample_items(run_part(q)) =~= stream::sample_items(samples));
                (frames, joined)
            } else {
                let closed = lemma_close(wire, p, frames, block, samples);
                let q = encoder::Pending { open: false, ..p };
                let none = Seq::<u32>::empty();
                assert(run_part(q) + none =~= stream::repeated(n as u16 as nat, s));
                let after = lemma_emit_run(
                    wire + encoder::closing(p.open),
                    q,
                    closed,
                    samples,
                    s,
                    n as u16,
                    none,
                );
                assert(samples + none =~= samples);
                assert(wire + encoder::closing(p.open) + frame::frame_bytes(
                    frame::Frame::Run { n: n as u16, sample: s },
                ) =~= wire + encoder::resolving(p));
                (after, none)
            }
        },
    }
}

/// A new run of one sample.
proof fn lemma_start(
    wire: Seq<u8>,
    p: encoder::Pending,
    frames: Seq<frame::Frame>,
    block: Seq<u32>,
    samples: Seq<u32>,
    s: u32,
)
    requires
        tells(wire, p, frames, block, samples),
        p.run is None,
        p.open ==> block.last() != s,
    ensures
        tells(
            wire,
            encoder::Pending { run: Some((s, 1)), ..p },
            frames,
            block,
            samples.push(s),
        ),
{
    let q = encoder::Pending { run: Some((s, 1)), ..p };
    assert(stream::sample_items(samples.push(s)) =~= stream::stream_items(frames)
        + stream::sample_items(block) + stream::sample_items(run_part(q))) by {
        assert(stream::sample_items(samples.push(s)) =~= stream::sample_items(samples)
            + stream::sample_items(run_part(q)));
        assert(stream::sample_items(run_part(p)) =~= Seq::<stream::Item>::empty());
        assert(stream::sample_items(samples) =~= stream::stream_items(frames)
            + stream::sample_items(block));
    }
}

proof fn lemma_feed(
    wire: Seq<u8>,
    p: encoder::Pending,
    frames: Seq<frame::Frame>,
    block: Seq<u32>,
    samples: Seq<u32>,
    x: u32,
) -> (after: (Seq<frame::Frame>, Seq<u32>))
    requires
        tells(wire, p, frames, block, samples),
        p.run matches Some((s, _)) ==> s != frame::BLOCK_SENTINEL,
        p.run is None ==> !p.open,
    ensures
        tells(
            wire + encoder::feeding(p, x),
            encoder::after_feeding(p, x),
            after.0,
            after.1,
            samples.push(x),
        ),
{
    match p.run {
        None => {
            lemma_start(wire, p, frames, block, samples, x);
            assert(wire + encoder::feeding(p, x) =~= wire);
            (frames, block)
        },
        Some((s, n)) => {
            if s != x {
                let r = lemma_resolve(wire, p, frames, block, samples);
                lemma_start(
                    wire + encoder::resolving(p),
                    encoder::resolved(p),
                    r.0,
                    r.1,
                    samples,
                    x,
                );
                r
            } else if n + 1 == encoder::MAX_RUN {
                let closed = lemma_close(wire, p, frames, block, samples);
                let q = encoder::Pending { open: false, ..p };
                assert(run_part(q) + seq![x] =~= stream::repeated(
                    encoder::MAX_RUN as nat,
                    x,
                ));
                let after = lemma_emit_run(
                    wire + encoder::closing(p.open),
                    q,
                    closed,
                    samples,
                    x,
                    encoder::MAX_RUN,
                    seq![x],
                );
                assert(samples + seq![x] =~= samples.push(x));
                assert(wire + encoder::closing(p.open) + frame::frame_bytes(
                    frame::Frame::Run { n: encoder::MAX_RUN, sample: x },
                ) =~= wire + encoder::feeding(p, x));
                (after, Seq::empty())
            } else {
                let q = encoder::after_feeding(p, x);
                assert(wire + encoder::feeding(p, x) =~= wire);
                assert(run_part(q) =~= run_part(p).push(x));
                assert(stream::sample_items(run_part(q)) =~= stream::sample_items(run_part(p)).push(
                    stream::Item::Sample(x),
                ));
                assert(stream::sample_items(samples.push(x)) =~= stream::sample_items(samples).push(
                    stream::Item::Sample(x),
                ));
                assert(stream::stream_items(frames) + stream::sample_items(block)
                    + stream::sample_items(run_part(q)) =~= stream::sample_items(samples.push(x)));
                (frames, block)
            }
        },
    }
}

proof fn lemma_encoding_tells(samples: Seq<u32>) -> (after: (Seq<frame::Frame>, Seq<u32>))
    requires
        !samples.contains(frame::BLOCK_SENTINEL),
    ensures
        tells(encoding(samples), remembered(samples), after.0, after.1, samples),
        remembered(samples).run matches Some((s, _)) ==> s != frame::BLOCK_SENTINEL,
        remembered(samples).run is None ==> !remembered(samples).open,
    decreases samples.len(),
{
    if samples.len() == 0 {
        let none = Seq::<u32>::empty();
        let nothing = Seq::<frame::Frame>::empty();
        assert(samples =~= none);
        assert(stream::stream_bytes(nothing) + open_part(false, none) =~= Seq::<u8>::empty());
        assert(stream::stream_items(nothing) + stream::sample_items(none) + stream::sample_items(
            run_part(encoder::idle()),
        ) =~= stream::sample_items(samples));
        (nothing, none)
    } else {
        let before = samples.drop_last();
        assert forall|x: u32| before.contains(x) implies samples.contains(x) by {
            let j = before.index_of(x);
            assert(samples[j] == x);
        }
        assert(samples.contains(samples.last()));
        let r = lemma_encoding_tells(before);
        assert(before.push(samples.last()) =~= samples);
        lemma_feed(
            encoding(before),
            remembered(before),
            r.0,
            r.1,
            before,
            samples.last(),
        )
    }
}

/// The wire is a list of frames that hold the samples: a BLOCK where neighbours
/// differ, a RUN for each stretch of equal samples.
pub proof fn law_frames_are_tight(samples: Seq<u32>) -> (frames: Seq<frame::Frame>)
    requires
        !samples.contains(frame::BLOCK_SENTINEL),
    ensures
        transmission(samples) == stream::stream_bytes(frames),
        stream::stream_items(frames) == stream::sample_items(samples),
        forall|i: int|
            0 <= i < frames.len() ==> stream::deliverable(#[trigger] frames[i]) && tight(frames[i]),
{
    let p = remembered(samples);
    let r = lemma_encoding_tells(samples);
    let s = lemma_resolve(encoding(samples), p, r.0, r.1, samples);
    let wire = encoding(samples) + encoder::resolving(p);
    let q = encoder::resolved(p);
    let frames = lemma_close(wire, q, s.0, s.1, samples);
    let none = Seq::<u32>::empty();
    assert(wire + encoder::closing(q.open) =~= transmission(samples));
    assert(transmission(samples) =~= stream::stream_bytes(frames));
    assert(stream::sample_items(none) =~= Seq::<stream::Item>::empty());
    assert(stream::stream_items(frames) =~= stream::sample_items(samples));
    frames
}

/// No sample is lost, added, changed or moved: what the encoder puts on the wire
/// for any samples, with everything pending flushed at the end, decodes to those
/// samples, and the decoder is left waiting for a new frame.
pub proof fn law_samples_survive_the_wire(samples: Seq<u32>)
    requires
        !samples.contains(frame::BLOCK_SENTINEL),
    ensures
        ({
            let o = decoder::fed(Seq::empty(), transmission(samples));
            &&& o.error is None
            &&& o.held == Seq::<u8>::empty()
            &&& stream::items(o.events) == stream::sample_items(samples)
        }),
{
    let frames = law_frames_are_tight(samples);
    stream::law_stream_is_delivered(frames);
}

/// The bytes of a whole session: the acknowledgement of START, the samples, and
/// the acknowledgement of STOP.
pub open spec fn session_bytes(samples: Seq<u32>) -> Seq<u8> {
    frame::frame_bytes(frame::Frame::Started) + transmission(samples) + frame::frame_bytes(
        frame::Frame::Stopped,
    )
}

/// A session comes through whole: the acknowledgement of START, then the samples
/// in order, then the acknowledgement of STOP, and nothing is left over.
pub proof fn law_session_survives_the_wire(samples: Seq<u32>)
    requires
        !samples.contains(frame::BLOCK_SENTINEL),
    ensures
        ({
            let o = decoder::fed(Seq::empty(), session_bytes(samples));
            &&& o.error is None
            &&& o.held == Seq::<u8>::empty()
            &&& stream::items(o.events) == seq![stream::Item::Started] + stream::sample_items(
                samples,
            ) + seq![stream::Item::Stopped]
        }),
{
    let frames = law_frames_are_tight(samples);
    let started = frame::Frame::Started;
    let stopped = frame::Frame::Stopped;
    let all = (seq![started] + frames).push(stopped);
    lemma_stream_front(started, frames);
    lemma_stream_push(seq![started] + frames, stopped);
    assert forall|i: int| 0 <= i < all.len() implies stream::deliverable(#[trigger] all[i]) by {
        if 0 < i < all.len() - 1 {
            assert(all[i] == frames[i - 1]);
        }
    }
    assert(stream::stream_bytes(all) =~= session_bytes(samples));
    assert(stream::stream_items(all) =~= seq![stream::Item::Started] + stream::sample_items(samples)
        + seq![stream::Item::Stopped]);
    stream::law_stream_is_delivered(all);
}

proof fn lemma_stream_front(f: frame::Frame, frames: Seq<frame::Frame>)
    ensures
        stream::stream_bytes(seq![f] + frames) == frame::frame_bytes(f) + stream::stream_bytes(
            frames,
        ),
        stream::stream_items(seq![f] + frames) == stream::frame_items(f) + stream::stream_items(
            frames,
        ),
    decreases frames.len(),
{
    let all = seq![f] + frames;
    if frames.len() == 0 {
        assert(all =~= Seq::<frame::Frame>::empty().push(f));
        lemma_stream_push(Seq::empty(), f);
        assert(stream::stream_bytes(all) =~= frame::frame_bytes(f) + stream::stream_bytes(frames));
        assert(stream::stream_items(all) =~= stream::frame_items(f) + stream::stream_items(frames));
    } else {
        lemma_stream_front(f, frames.drop_last());
        assert(all.drop_last() =~= seq![f] + frames.drop_last());
        assert(stream::stream_bytes(all) =~= frame::frame_bytes(f) + stream::stream_bytes(frames));
        assert(stream::stream_items(all) =~= stream::frame_items(f) + stream::stream_items(frames));
    }
}

/// A frame that fits the decoder's buffer is decoded at once.
proof fn lemma_short_frame(f: frame::Frame)
    requires
        frame::expressible(f),
        frame::frame_bytes(f).len() <= decoder::BUF_CAP,
    ensures
        decoder::fed(Seq::empty(), frame::frame_bytes(f)) == (decoder::Outcome {
            events: decoder::frame_events(f),
            error: None,
            held: Seq::empty(),
        }),
{
    let none = Seq::<u8>::empty();
    let b = frame::frame_bytes(f);
    assert(b + none =~= b);
    frame::law_parse_reads_back(f, none);
    frame::lemma_parse_takes(b);
    assert(b.skip(b.len() as int) =~= none);
    assert(decoder::drained(none) == (decoder::Outcome {
        events: Seq::empty(),
        error: None,
        held: none,
    }));
    let events = decoder::frame_events(f);
    assert(events + Seq::<decoder::Event>::empty() =~= events);
    assert(decoder::drained(b).held =~= none);
    assert(none + b.take(b.len() as int) =~= b);
    assert(b.skip(b.len() as int).len() == 0);
}

/// The one event that a call of [`Decoder::feed`] adds for a short frame.
proof fn lemma_one_event(
    d: &mut Decoder,
    input: &[u8],
    out: &mut Vec<WireEvent>,
    result: Result<(), WireError>,
    f: frame::Frame,
)
    requires
        old(d).wf(),
        old(d)@.len() == 0,
        frame::expressible(f),
        frame::frame_bytes(f).len() <= decoder::BUF_CAP,
        decoder::frame_events(f).len() == 1,
        input@ == frame::frame_bytes(f),
        call_ensures(Decoder::feed, (d, input, out), result),
    ensures
        result is Ok,
        final(d)@.len() == 0,
        final(out)@.len() == old(out)@.len() + 1,
        final(out)@.last()@ == decoder::frame_events(f)[0],
{
    assert(old(d)@ =~= Seq::<u8>::empty());
    lemma_short_frame(f);
    let after = decoder::views(final(out)@);
    assert(after == decoder::views(old(out)@) + decoder::frame_events(f));
    assert(after.len() == final(out)@.len());
    assert(after.last() == final(out)@.last()@);
}

/// A tick that a call of [`Encoder::tick`] puts on the wire comes out of a call of
/// [`Decoder::feed`] with each number under its own name.
pub proof fn law_a_tick_reads_back<S: Sink>(
    e: &mut Encoder,
    k: &mut S,
    d: &mut Decoder,
    input: &[u8],
    out: &mut Vec<WireEvent>,
    result: Result<(), WireError>,
    t: (u32, u16, u16, u16, u32),
)
    requires
        old(e).wf(),
        !old(e)@.open,
        call_ensures(Encoder::tick::<S>, (e, t.0, t.1, t.2, t.3, t.4, k), ()),
        input@ == final(k).offered().skip(old(k).offered().len() as int),
        old(d).wf(),
        old(d)@.len() == 0,
        call_ensures(Decoder::feed, (d, input, out), result),
    ensures
        result is Ok,
        final(out)@.len() == old(out)@.len() + 1,
        final(out)@.last() == (WireEvent::Tick {
            t_us: t.0,
            dt_us: t.1,
            n_drained: t.2,
            n_pending: t.3,
            bytes_out: t.4,
        }),
        final(e)@.run == old(e)@.run,
{
    let f = frame::Frame::Tick {
        t_us: t.0,
        dt_us: t.1,
        n_drained: t.2,
        n_pending: t.3,
        bytes_out: t.4,
    };
    frame::law_fields_lie_where_they_belong(f);
    assert(input@ =~= frame::frame_bytes(f));
    lemma_one_event(d, input, out, result, f);
}

/// Losses and acknowledgements come out of a decoder as they went into an encoder.
pub proof fn law_losses_and_acknowledgements_read_back<S: Sink>(
    e: &mut Encoder,
    k: &mut S,
    d: &mut Decoder,
    input: &[u8],
    out: &mut Vec<WireEvent>,
    result: Result<(), WireError>,
    dropped: u32,
)
    requires
        old(e).wf(),
        !old(e)@.open,
        call_ensures(Encoder::overrun::<S>, (e, dropped, k), ()) || call_ensures(
            Encoder::started::<S>,
            (e, k),
            (),
        ) || call_ensures(Encoder::stopped::<S>, (e, k), ()),
        input@ == final(k).offered().skip(old(k).offered().len() as int),
        old(d).wf(),
        old(d)@.len() == 0,
        call_ensures(Decoder::feed, (d, input, out), result),
    ensures
        result is Ok,
        final(out)@.len() == old(out)@.len() + 1,
        call_ensures(Encoder::overrun::<S>, (e, dropped, k), ()) ==> final(out)@.last() == (
        WireEvent::Overrun { dropped }),
        call_ensures(Encoder::started::<S>, (e, k), ()) ==> final(out)@.last()
            == WireEvent::Started,
        call_ensures(Encoder::stopped::<S>, (e, k), ()) ==> final(out)@.last()
            == WireEvent::Stopped,
{
    let lost = frame::Frame::Overrun { dropped };
    let started = frame::Frame::Started;
    let stopped = frame::Frame::Stopped;
    frame::law_fields_lie_where_they_belong(lost);
    if call_ensures(Encoder::overrun::<S>, (e, dropped, k), ()) {
        assert(input@ =~= frame::frame_bytes(lost));
        lemma_one_event(d, input, out, result, lost);
    }
    if call_ensures(Encoder::started::<S>, (e, k), ()) {
        assert(input@ =~= frame::frame_bytes(started));
        lemma_one_event(d, input, out, result, started);
    }
    if call_ensures(Encoder::stopped::<S>, (e, k), ()) {
        assert(input@ =~= frame::frame_bytes(stopped));
        lemma_one_event(d, input, out, result, stopped);
    }
}

/// A line of text comes out of a decoder as it went into an encoder, if it fits the
/// decoder's buffer and has no zero in it.
pub proof fn law_a_line_reads_back<S: Sink>(
    e: &mut Encoder,
    k: &mut S,
    d: &mut Decoder,
    input: &[u8],
    out: &mut Vec<WireEvent>,
    result: Result<(), WireError>,
    line: &str,
)
    requires
        vstd::utf8::encode_utf8(line@).len() <= 1022,
        !vstd::utf8::encode_utf8(line@).contains(0),
        old(e).wf(),
        !old(e)@.open,
        call_ensures(Encoder::log::<S>, (e, line, k), ()),
        input@ == final(k).offered().skip(old(k).offered().len() as int),
        old(d).wf(),
        old(d)@.len() == 0,
        call_ensures(Decoder::feed, (d, input, out), result),
    ensures
        result is Ok,
        final(out)@.len() == old(out)@.len() + 1,
        final(out)@.last() matches WireEvent::Log(text) && text@ == line@,
{
    let f = frame::Frame::Log(vstd::utf8::encode_utf8(line@));
    frame::law_fields_lie_where_they_belong(f);
    assert(input@ =~= frame::frame_bytes(f));
    decoder::law_texts_are_told_as_written(line@, Seq::empty());
    lemma_one_event(d, input, out, result, f);
}

/// A sample that a call of [`Encoder::feed`] takes and a call of [`Encoder::flush`] sends
/// comes out of a decoder as itself, and two equal ones as a run of two.
pub proof fn law_a_sample_reads_back<S: Sink>(
    e1: &mut Encoder,
    e2: &mut Encoder,
    e3: &mut Encoder,
    k1: &mut S,
    k2: &mut S,
    k3: &mut S,
    d: &mut Decoder,
    input: &[u8],
    out: &mut Vec<WireEvent>,
    result: Result<(), WireError>,
    sample: u32,
    next: u32,
)
    requires
        sample != 0xffff_ffff,
        next != 0xffff_ffff,
        old(e1).wf(),
        old(e1)@ == encoder::idle(),
        call_ensures(Encoder::feed::<S>, (e1, sample, k1), ()),
        *old(e2) == *final(e1),
        *old(k2) == *final(k1),
        call_ensures(Encoder::feed::<S>, (e2, next, k2), ()),
        *old(e3) == *final(e2),
        *old(k3) == *final(k2),
        call_ensures(Encoder::flush::<S>, (e3, k3), ()),
        input@ == final(k3).offered().skip(old(k1).offered().len() as int),
        old(d).wf(),
        old(d)@.len() == 0,
        call_ensures(Decoder::feed, (d, input, out), result),
    ensures
        result is Ok,
        final(out)@.len() == old(out)@.len() + 1,
        sample == next ==> final(out)@.last() == (WireEvent::Run { n: 2, sample }),
        sample != next ==> (final(out)@.last() matches WireEvent::Block(samples) && samples@
            == seq![sample, next]),
        final(e3)@ == encoder::idle(),
{
    if sample == next {
        let f = frame::Frame::Run { n: 2, sample };
        frame::law_fields_lie_where_they_belong(f);
        assert(input@ =~= frame::frame_bytes(f));
        lemma_one_event(d, input, out, result, f);
    } else {
        let pair = seq![sample, next];
        let f = frame::Frame::Block(pair);
        frame::law_fields_lie_where_they_belong(f);
        assert(pair[0] == sample && pair[1] == next);
        let b = frame::frame_bytes(f);
        bytes::lemma_le32s_push(seq![sample], next);
        bytes::lemma_le32s_push(Seq::empty(), sample);
        assert(seq![sample].push(next) =~= pair);
        assert(Seq::<u32>::empty().push(sample) =~= seq![sample]);
        assert(bytes::le32s(Seq::empty()) =~= Seq::<u8>::empty());
        assert(bytes::le32s(pair) =~= bytes::le32(sample) + bytes::le32(next));
        assert(input@ =~= b);
        assert(!pair.contains(frame::BLOCK_SENTINEL));
        lemma_one_event(d, input, out, result, f);
    }
}

/// What a call of [`Decoder::feed`] does with a short frame and a byte behind it that starts
/// none: the frame is told, and the byte is named as the error.
pub proof fn law_a_bad_byte_costs_nothing_before_it(
    d: &mut Decoder,
    input: &[u8],
    out: &mut Vec<WireEvent>,
    result: Result<(), WireError>,
    f: frame::Frame,
    bad: u8,
)
    requires
        old(d).wf(),
        old(d)@.len() == 0,
        frame::expressible(f),
        frame::frame_bytes(f).len() < 1024,
        bad == 0 || 3 < bad < 0xfa || bad == 0xff,
        input@ == frame::frame_bytes(f).push(bad),
        call_ensures(Decoder::feed, (d, input, out), result),
    ensures
        result == Err::<(), WireError>(WireError::BadTag(bad)),
        decoder::views(final(out)@) == decoder::views(old(out)@) + decoder::frame_events(f),
{
    let none = Seq::<u8>::empty();
    let b = frame::frame_bytes(f);
    let s = b.push(bad);
    assert(old(d)@ =~= none);
    assert(b + seq![bad] =~= s);
    frame::law_parse_reads_back(f, seq![bad]);
    frame::lemma_parse_takes(s);
    assert(s.skip(b.len() as int) =~= seq![bad]);
    frame::law_other_bytes_start_no_frame(seq![bad]);
    let tail = decoder::drained(seq![bad]);
    assert(tail.error == Some(bad) && tail.events.len() == 0);
    let events = decoder::frame_events(f);
    assert(events + tail.events =~= events);
    assert(none + s.take(s.len() as int) =~= s);
    assert(decoder::drained(s).error == Some(bad));
}

proof fn lemma_no_zero(s: Seq<u8>, off: int)
    requires
        0 <= off,
        !s.contains(0),
    ensures
        frame::zero_from(s, off) is None,
    decreases s.len() - off,
{
    if off < s.len() {
        assert(s.contains(s[off]));
        lemma_no_zero(s, off + 1);
    }
}

/// What a call of [`Decoder::feed`] does with a line of text that does not fit its buffer:
/// it fails at the line's tag, and tells nothing.
pub proof fn law_a_line_that_does_not_fit_is_an_error(
    d: &mut Decoder,
    input: &[u8],
    out: &mut Vec<WireEvent>,
    result: Result<(), WireError>,
    text: Seq<u8>,
)
    requires
        old(d).wf(),
        old(d)@.len() == 0,
        !text.contains(0),
        text.len() >= 1024,
        input@ == seq![0xfeu8] + text,
        call_ensures(Decoder::feed, (d, input, out), result),
    ensures
        result == Err::<(), WireError>(WireError::BadTag(0xfe)),
        decoder::views(final(out)@) == decoder::views(old(out)@),
{
    let none = Seq::<u8>::empty();
    assert(old(d)@ =~= none);
    let full = input@.take(1024);
    assert(none + full =~= full);
    assert(full[0] == 0xfe);
    assert(!full.contains(0)) by {
        if full.contains(0) {
            let i = full.index_of(0);
            assert(full[i] == 0);
            assert(text[i - 1] == 0);
        }
    }
    lemma_no_zero(full, 1);
    assert(frame::parse(full) is NeedMore);
    let o = decoder::fed(none, input@);
    assert(o.error == Some(0xfeu8));
    assert(o.events =~= Seq::<decoder::Event>::empty());
    let v = decoder::views(old(out)@);
    assert(v + Seq::<decoder::Event>::empty() =~= v);
}

} // verus!
