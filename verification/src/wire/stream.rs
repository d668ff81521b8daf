//! What the decoder makes of a stream: how the input is cut into reads does not
//! matter, and frames come back as they were sent.

use vstd::prelude::*;

use crate::bytes;
use crate::wire::decoder;
use crate::wire::frame;

verus! {

/// What a consumer sees that takes the decoded stream element by element.
pub enum Item {
    Sample(u32),
    Tick { t_us: u32, dt_us: u16, n_drained: u16, n_pending: u16, bytes_out: u32 },
    Overrun { dropped: u32 },
    Log(Seq<char>),
    Started,
    Stopped,
}

/// `n` copies of `sample`.
pub open spec fn repeated(n: nat, sample: u32) -> Seq<u32> {
    Seq::new(n, |i: int| sample)
}

/// Runs that alternate between two samples.
pub open spec fn alternating(val_a: u32, val_b: u32, run_lens: Seq<u8>) -> Seq<u32>
    decreases run_lens.len(),
{
    if run_lens.len() == 0 {
        Seq::empty()
    } else {
        repeated(run_lens[0] as nat, val_a) + alternating(val_b, val_a, run_lens.skip(1))
    }
}

/// Samples as items.
pub open spec fn sample_items(samples: Seq<u32>) -> Seq<Item> {
    samples.map_values(|s: u32| Item::Sample(s))
}

/// The items of one event.
pub open spec fn event_items(e: decoder::Event) -> Seq<Item> {
    match e {
        decoder::Event::Block(samples) => sample_items(samples),
        decoder::Event::Run { n, sample } => sample_items(repeated(n as nat, sample)),
        decoder::Event::Repeat2 { val_a, val_b, run_lens } => sample_items(
            alternating(val_a, val_b, run_lens),
        ),
        decoder::Event::Tick { t_us, dt_us, n_drained, n_pending, bytes_out } => seq![
            Item::Tick { t_us, dt_us, n_drained, n_pending, bytes_out },
        ],
        decoder::Event::Overrun { dropped } => seq![Item::Overrun { dropped }],
        decoder::Event::Log(text) => seq![Item::Log(text)],
        decoder::Event::Started => seq![Item::Started],
        decoder::Event::Stopped => seq![Item::Stopped],
    }
}

/// The items of a list of events.
pub open spec fn items(events: Seq<decoder::Event>) -> Seq<Item>
    decreases events.len(),
{
    if events.len() == 0 {
        Seq::empty()
    } else {
        items(events.drop_last()) + event_items(events.last())
    }
}

/// The items of one frame.
pub open spec fn frame_items(f: frame::Frame) -> Seq<Item> {
    match f {
        frame::Frame::Block(samples) => sample_items(samples),
        frame::Frame::Run { n, sample } => sample_items(repeated(n as nat, sample)),
        frame::Frame::Repeat2 { val_a, val_b, run_lens } => sample_items(
            alternating(val_a, val_b, run_lens),
        ),
        frame::Frame::Tick { t_us, dt_us, n_drained, n_pending, bytes_out } => seq![
            Item::Tick { t_us, dt_us, n_drained, n_pending, bytes_out },
        ],
        frame::Frame::Overrun { dropped } => seq![Item::Overrun { dropped }],
        frame::Frame::Log(text) => seq![Item::Log(decoder::log_text(text))],
        frame::Frame::Started => seq![Item::Started],
        frame::Frame::Stopped => seq![Item::Stopped],
    }
}

/// The bytes of a list of frames.
pub open spec fn stream_bytes(frames: Seq<frame::Frame>) -> Seq<u8>
    decreases frames.len(),
{
    if frames.len() == 0 {
        Seq::empty()
    } else {
        stream_bytes(frames.drop_last()) + frame::frame_bytes(frames.last())
    }
}

/// The items of a list of frames.
pub open spec fn stream_items(frames: Seq<frame::Frame>) -> Seq<Item>
    decreases frames.len(),
{
    if frames.len() == 0 {
        Seq::empty()
    } else {
        stream_items(frames.drop_last()) + frame_items(frames.last())
    }
}

/// Frames that reach the consumer whole: the format can express them, and a LOG
/// fits the decoder's buffer.
pub open spec fn deliverable(f: frame::Frame) -> bool {
    &&& frame::expressible(f)
    &&& f is Log ==> frame::frame_bytes(f).len() <= decoder::BUF_CAP
}

/// Same events, same error; where there is none, the same bytes held.
pub open spec fn same(a: decoder::Outcome, b: decoder::Outcome) -> bool {
    &&& a.events == b.events
    &&& a.error == b.error
    &&& a.error is None ==> a.held == b.held
}

/// A state that the decoder can be in between two calls that succeed.
pub open spec fn resting(buf: Seq<u8>) -> bool {
    &&& buf.len() <= decoder::BUF_CAP
    &&& frame::parse(buf) is NeedMore
}

spec fn accepted(buf: Seq<u8>, b: u8) -> decoder::Outcome {
    decoder::drained(buf.push(b))
}

/// One byte on its own.
#[verifier::opaque]
spec fn stepped(buf: Seq<u8>, b: u8) -> decoder::Outcome {
    if buf.len() < decoder::BUF_CAP {
        accepted(buf, b)
    } else {
        match decoder::spilled(buf) {
            Some(o) => decoder::preceded(o.events, accepted(o.held, b)),
            None => decoder::Outcome { events: Seq::empty(), error: Some(buf[0]), held: buf },
        }
    }
}

/// Byte after byte.
spec fn walked(buf: Seq<u8>, input: Seq<u8>) -> decoder::Outcome
    decreases input.len(),
{
    if input.len() == 0 {
        decoder::Outcome { events: Seq::empty(), error: None, held: buf }
    } else {
        let x = stepped(buf, input[0]);
        if x.error is Some {
            x
        } else {
            decoder::preceded(x.events, walked(x.held, input.skip(1)))
        }
    }
}

spec fn chained(x: decoder::Outcome, y: decoder::Outcome) -> decoder::Outcome {
    if x.error is Some {
        x
    } else {
        decoder::preceded(x.events, y)
    }
}

proof fn lemma_preceded_twice(
    a: Seq<decoder::Event>,
    b: Seq<decoder::Event>,
    o: decoder::Outcome,
)
    ensures
        decoder::preceded(a, decoder::preceded(b, o)) == decoder::preceded(a + b, o),
{
    assert(a + (b + o.events) =~= (a + b) + o.events);
}

proof fn lemma_preceded_by_nothing(o: decoder::Outcome)
    ensures
        decoder::preceded(Seq::empty(), o) == o,
{
    assert(Seq::<decoder::Event>::empty() + o.events =~= o.events);
}

proof fn lemma_walked_concat(buf: Seq<u8>, a: Seq<u8>, b: Seq<u8>)
    ensures
        walked(buf, a + b) == chained(walked(buf, a), walked(walked(buf, a).held, b)),
    decreases a.len(),
{
    if a.len() == 0 {
        assert(a + b =~= b);
        lemma_preceded_by_nothing(walked(buf, b));
    } else {
        let x = stepped(buf, a[0]);
        assert((a + b)[0] == a[0]);
        assert((a + b).skip(1) =~= a.skip(1) + b);
        if x.error is None {
            lemma_walked_concat(x.held, a.skip(1), b);
            let y = walked(x.held, a.skip(1));
            lemma_preceded_twice(x.events, y.events, walked(y.held, b));
        }
    }
}

/// Splitting an unfinished frame leaves an unfinished frame.
proof fn lemma_spilled_rests(buf: Seq<u8>)
    requires
        resting(buf),
        buf.len() == decoder::BUF_CAP,
        decoder::spilled(buf) is Some,
    ensures
        resting(decoder::spilled(buf)->0.held),
        decoder::spilled(buf)->0.held.len() <= 10,
{
    let held = decoder::spilled(buf)->0.held;
    decoder::lemma_spilled_shrinks(buf);
    if buf[0] == frame::TAG_BLOCK {
        assert(held.len() == 4);
        assert(held[0] == frame::TAG_BLOCK);
    } else {
        frame::lemma_zero_from(buf, 9);
        assert(held.len() == 10);
        assert(held[0] == frame::TAG_REPEAT2);
        assert(held[9] == buf[1023]);
        frame::lemma_zero_from(held, 9);
    }
}

proof fn lemma_stepped_rests(buf: Seq<u8>, b: u8)
    requires
        resting(buf),
    ensures
        stepped(buf, b).error is None ==> resting(stepped(buf, b).held),
{
    reveal(stepped);
    if buf.len() < decoder::BUF_CAP {
        decoder::lemma_drained(buf.push(b));
    } else if decoder::spilled(buf) is Some {
        lemma_spilled_rests(buf);
        decoder::lemma_drained(decoder::spilled(buf)->0.held.push(b));
    }
}

proof fn lemma_walked_rests(buf: Seq<u8>, input: Seq<u8>)
    requires
        resting(buf),
    ensures
        walked(buf, input).error is None ==> resting(walked(buf, input).held),
    decreases input.len(),
{
    if input.len() > 0 {
        lemma_stepped_rests(buf, input[0]);
        if stepped(buf, input[0]).error is None {
            lemma_walked_rests(stepped(buf, input[0]).held, input.skip(1));
        }
    }
}

/// The byte that makes a frame whole is its last.
proof fn lemma_last_byte_ends(buf: Seq<u8>, b: u8)
    requires
        resting(buf),
        frame::parse(buf.push(b)) is Whole,
    ensures
        frame::parse(buf.push(b))->Whole_1 == buf.len() + 1,
{
    let one = buf.push(b);
    let n = frame::parse(one)->Whole_1;
    frame::lemma_parse_takes(one);
    if n < one.len() {
        assert(one.take(n as int) + buf.skip(n as int) =~= buf);
        lemma_prefix_decides(one, n as int);
        frame::law_parse_is_stable(one.take(n as int), buf.skip(n as int));
    }
}

#[verifier::rlimit(50)]
proof fn lemma_drained_is_walked(buf: Seq<u8>, input: Seq<u8>)
    requires
        resting(buf),
        buf.len() + input.len() <= decoder::BUF_CAP,
    ensures
        same(decoder::drained(buf + input), walked(buf, input)),
    decreases input.len(),
{
    reveal(stepped);
    if input.len() == 0 {
        assert(buf + input =~= buf);
    } else {
        let one = buf.push(input[0]);
        let rest = input.skip(1);
        let all = buf + input;
        assert(all =~= one + rest);
        match frame::parse(one) {
            frame::Step::NeedMore => {
                lemma_drained_is_walked(one, rest);
                lemma_preceded_by_nothing(walked(one, rest));
            },
            frame::Step::Bad(_) => {
                frame::law_parse_is_stable(one, rest);
            },
            frame::Step::Whole(f, n) => {
                frame::law_parse_is_stable(one, rest);
                lemma_last_byte_ends(buf, input[0]);
                assert(all.skip(n as int) =~= rest);
                assert(one.skip(n as int) =~= Seq::<u8>::empty());
                let none = Seq::<u8>::empty();
                lemma_drained_is_walked(none, rest);
                assert(none + rest =~= rest);
                let fe = decoder::frame_events(f);
                assert(decoder::drained(none).events =~= Seq::<decoder::Event>::empty());
                assert(fe + decoder::drained(none).events =~= fe);
            },
        }
    }
}

/// A frame is already seen in the bytes that it takes.
proof fn lemma_prefix_decides(s: Seq<u8>, n: int)
    requires
        frame::parse(s) is Whole,
        n == frame::parse(s)->Whole_1,
    ensures
        frame::parse(s.take(n)) is Whole,
{
    frame::lemma_parse_takes(s);
    let p = s.take(n);
    assert(p[0] == s[0]);
    if s[0] == frame::TAG_BLOCK {
        frame::lemma_sentinel_from(s, 1);
        lemma_sentinel_in_prefix(s, n, 1);
    } else if s[0] == frame::TAG_REPEAT2 {
        frame::lemma_zero_from(s, 9);
        frame::lemma_zero_from(p, 9);
        assert(p[n - 1] == s[n - 1]);
    } else if s[0] == frame::TAG_LOG {
        frame::lemma_zero_from(s, 1);
        frame::lemma_zero_from(p, 1);
        assert(p[n - 1] == s[n - 1]);
    }
}

proof fn lemma_sentinel_in_prefix(s: Seq<u8>, n: int, off: int)
    requires
        0 <= off,
        frame::sentinel_from(s, off) == Some(n - 4),
        n <= s.len(),
    ensures
        frame::sentinel_from(s.take(n), off) is Some,
    decreases s.len() - off,
{
    frame::lemma_sentinel_from(s, off);
    let p = s.take(n);
    assert(bytes::word_at(p, off) == bytes::word_at(s, off));
    if bytes::word_at(s, off) != frame::BLOCK_SENTINEL {
        lemma_sentinel_in_prefix(s, n, off + 4);
    }
}

/// A full buffer is split before the next byte is taken.
proof fn lemma_walked_spills(buf: Seq<u8>, input: Seq<u8>)
    requires
        resting(buf),
        buf.len() == decoder::BUF_CAP,
        input.len() > 0,
    ensures
        match decoder::spilled(buf) {
            None => walked(buf, input) == (decoder::Outcome {
                events: Seq::empty(),
                error: Some(buf[0]),
                held: buf,
            }),
            Some(o) => walked(buf, input) == decoder::preceded(o.events, walked(o.held, input)),
        },
{
    reveal(stepped);
    if let Some(o) = decoder::spilled(buf) {
        lemma_spilled_rests(buf);
        let x = accepted(o.held, input[0]);
        if x.error is None {
            lemma_preceded_twice(o.events, x.events, walked(x.held, input.skip(1)));
        }
    }
}

proof fn lemma_fed_is_walked(buf: Seq<u8>, input: Seq<u8>)
    requires
        resting(buf),
    ensures
        same(decoder::fed(buf, input), walked(buf, input)),
    decreases input.len(), buf.len(), 1int,
{
    let room = decoder::BUF_CAP - buf.len();
    let take = if room <= input.len() {
        room
    } else {
        input.len() as int
    };
    let head = input.take(take);
    let rest = input.skip(take);
    let full = buf + head;
    let d = decoder::drained(full);
    assert(head + rest =~= input);
    lemma_drained_is_walked(buf, head);
    lemma_walked_concat(buf, head, rest);
    decoder::lemma_drained(full);
    if take == 0 {
        assert(full =~= buf);
    }
    let w = walked(buf, head);
    assert(w.events == d.events && w.error == d.error);
    if d.error is None {
        assert(w.held == d.held);
        assert(walked(buf, input) == decoder::preceded(d.events, walked(d.held, rest)));
        if rest.len() == 0 {
            assert(decoder::fed(buf, input) == d);
            assert(walked(d.held, rest).events =~= Seq::<decoder::Event>::empty());
            assert(d.events + Seq::<decoder::Event>::empty() =~= d.events);
        } else if d.held.len() < decoder::BUF_CAP {
            lemma_fed_is_walked(d.held, rest);
            assert(decoder::fed(buf, input) == decoder::preceded(
                d.events,
                decoder::fed(d.held, rest),
            ));
        } else {
            lemma_fed_after_full(buf, input, d, rest);
        }
    }
}

proof fn lemma_fed_after_full(
    buf: Seq<u8>,
    input: Seq<u8>,
    d: decoder::Outcome,
    rest: Seq<u8>,
)
    requires
        resting(buf),
        ({
            let room = decoder::BUF_CAP - buf.len();
            &&& room < input.len()
            &&& rest == input.skip(room)
            &&& d == decoder::drained(buf + input.take(room))
        }),
        d.error is None,
        d.held.len() == decoder::BUF_CAP,
    ensures
        same(
            decoder::fed(buf, input),
            decoder::preceded(d.events, walked(d.held, rest)),
        ),
    decreases input.len(), buf.len(), 0int,
{
    let room = decoder::BUF_CAP - buf.len();
    decoder::lemma_drained(buf + input.take(room));
    lemma_walked_spills(d.held, rest);
    match decoder::spilled(d.held) {
        None => {
            assert(d.events + Seq::<decoder::Event>::empty() =~= d.events);
        },
        Some(o) => {
            lemma_spilled_rests(d.held);
            lemma_fed_is_walked(o.held, rest);
            lemma_preceded_twice(d.events, o.events, walked(o.held, rest));
        },
    }
}

/// How the input is cut into reads does not matter. Decoding `a` and then `b`
/// delivers the events of `a + b`, ends in the same error or in none, and
/// without one leaves the same bytes held. An error in `a` is the error of
/// `a + b`.
pub proof fn law_reads_can_be_cut_anywhere(buf: Seq<u8>, a: Seq<u8>, b: Seq<u8>)
    requires
        resting(buf),
    ensures
        ({
            let x = decoder::fed(buf, a);
            let y = decoder::fed(x.held, b);
            let whole = decoder::fed(buf, a + b);
            if x.error is Some {
                whole.events == x.events && whole.error == x.error
            } else {
                &&& resting(x.held)
                &&& whole.events == x.events + y.events
                &&& whole.error == y.error
                &&& whole.error is None ==> whole.held == y.held
            }
        }),
{
    let x = decoder::fed(buf, a);
    lemma_fed_is_walked(buf, a);
    lemma_fed_is_walked(buf, a + b);
    lemma_walked_concat(buf, a, b);
    if x.error is None {
        lemma_walked_rests(buf, a);
        lemma_fed_is_walked(x.held, b);
    }
}

proof fn lemma_items_concat(a: Seq<decoder::Event>, b: Seq<decoder::Event>)
    ensures
        items(a + b) == items(a) + items(b),
    decreases b.len(),
{
    if b.len() == 0 {
        assert(a + b =~= a);
        assert(items(a) + items(b) =~= items(a));
    } else {
        lemma_items_concat(a, b.drop_last());
        assert((a + b).drop_last() =~= a + b.drop_last());
        assert(items(a + b) =~= items(a) + items(b));
    }
}

proof fn lemma_items_of_one(e: decoder::Event)
    ensures
        items(seq![e]) == event_items(e),
{
    let s = seq![e];
    assert(s.drop_last() =~= Seq::<decoder::Event>::empty());
    assert(items(s.drop_last()) =~= Seq::<Item>::empty());
    assert(items(s) == items(s.drop_last()) + event_items(s.last()));
    assert(items(s) =~= event_items(e));
}

proof fn lemma_items_of_chunks(samples: Seq<u32>)
    ensures
        items(decoder::chunks(samples)) == sample_items(samples),
    decreases samples.len(),
{
    if samples.len() == 0 {
        assert(sample_items(samples) =~= Seq::<Item>::empty());
    } else if samples.len() <= decoder::CHUNK {
        lemma_items_of_one(decoder::Event::Block(samples));
    } else {
        let cut = decoder::CHUNK as int;
        let head = decoder::Event::Block(samples.take(cut));
        lemma_items_of_chunks(samples.skip(cut));
        lemma_items_of_one(head);
        lemma_items_concat(seq![head], decoder::chunks(samples.skip(cut)));
        assert(sample_items(samples) =~= sample_items(samples.take(cut)) + sample_items(
            samples.skip(cut),
        ));
    }
}

proof fn lemma_items_of_frame(f: frame::Frame)
    ensures
        items(decoder::frame_events(f)) == frame_items(f),
{
    match f {
        frame::Frame::Block(samples) => {
            lemma_items_of_chunks(samples);
        },
        frame::Frame::Run { n, sample } => {
            lemma_items_of_one(decoder::Event::Run { n, sample });
        },
        frame::Frame::Repeat2 { val_a, val_b, run_lens } => {
            lemma_items_of_one(decoder::Event::Repeat2 { val_a, val_b, run_lens });
        },
        frame::Frame::Tick { t_us, dt_us, n_drained, n_pending, bytes_out } => {
            lemma_items_of_one(
                decoder::Event::Tick { t_us, dt_us, n_drained, n_pending, bytes_out },
            );
        },
        frame::Frame::Overrun { dropped } => {
            lemma_items_of_one(decoder::Event::Overrun { dropped });
        },
        frame::Frame::Log(text) => {
            lemma_items_of_one(decoder::Event::Log(decoder::log_text(text)));
        },
        frame::Frame::Started => {
            lemma_items_of_one(decoder::Event::Started);
        },
        frame::Frame::Stopped => {
            lemma_items_of_one(decoder::Event::Stopped);
        },
    }
}

proof fn lemma_alternating_concat(val_a: u32, val_b: u32, x: Seq<u8>, y: Seq<u8>)
    requires
        x.len() % 2 == 0,
    ensures
        alternating(val_a, val_b, x + y) == alternating(val_a, val_b, x) + alternating(
            val_a,
            val_b,
            y,
        ),
    decreases x.len(),
{
    reveal_with_fuel(alternating, 3);
    if x.len() == 0 {
        assert(x + y =~= y);
        assert(alternating(val_a, val_b, x) + alternating(val_a, val_b, y) =~= alternating(
            val_a,
            val_b,
            y,
        ));
    } else {
        let xy = x + y;
        assert(xy.skip(1).skip(1) =~= x.skip(2) + y);
        assert(x.skip(1).skip(1) =~= x.skip(2));
        lemma_alternating_concat(val_a, val_b, x.skip(2), y);
        assert(alternating(val_a, val_b, xy) =~= alternating(val_a, val_b, x) + alternating(
            val_a,
            val_b,
            y,
        ));
    }
}

/// Bytes that are not yet a frame are held as they are.
proof fn lemma_fed_rests(s: Seq<u8>)
    requires
        resting(s),
    ensures
        decoder::fed(Seq::empty(), s) == (decoder::Outcome {
            events: Seq::empty(),
            error: None,
            held: s,
        }),
{
    assert(Seq::<u8>::empty() + s.take(s.len() as int) =~= s);
    assert(s.skip(s.len() as int) =~= Seq::<u8>::empty());
}

/// What an empty decoder makes of `s`.
#[verifier::opaque]
spec fn decoded(s: Seq<u8>) -> decoder::Outcome {
    decoder::fed(Seq::empty(), s)
}

/// All of `expected` delivered, and nothing held back.
spec fn delivers(o: decoder::Outcome, expected: Seq<Item>) -> bool {
    &&& o.error is None
    &&& o.held == Seq::<u8>::empty()
    &&& items(o.events) == expected
}

/// A frame longer than the buffer: its first buffer full is split off, and the
/// rest is a frame of its own.
proof fn lemma_long_frame(f: frame::Frame, o: decoder::Outcome, b: Seq<u8>)
    requires
        frame::expressible(f),
        b == frame::frame_bytes(f),
        b.len() > decoder::BUF_CAP,
        decoder::spilled(b.take(decoder::BUF_CAP as int)) == Some(o),
    ensures
        ({
            let whole = decoded(b);
            let left = decoded(o.held + b.skip(decoder::BUF_CAP as int));
            &&& whole.events == o.events + left.events
            &&& whole.error == left.error
            &&& whole.error is None ==> whole.held == left.held
        }),
{
    reveal(decoded);
    let cap = decoder::BUF_CAP as int;
    let none = Seq::<u8>::empty();
    let head = b.take(cap);
    let rest = b.skip(cap);
    assert(b + none =~= b);
    frame::law_parse_reads_back(f, none);
    frame::law_parse_needs_the_whole_frame(b, cap);
    assert(resting(head));
    assert(head + rest =~= b);
    lemma_fed_rests(head);
    law_reads_can_be_cut_anywhere(none, head, rest);
    lemma_spilled_rests(head);
    lemma_fed_rests(o.held);
    law_reads_can_be_cut_anywhere(none, o.held, rest);
    let w = decoder::fed(head, rest);
    assert(head + rest.take(0) =~= head);
    assert(rest.skip(0) =~= rest);
    assert(w.events =~= o.events + decoder::fed(o.held, rest).events);
    assert(decoder::fed(none, b).events =~= w.events);
    assert(decoder::fed(none, o.held + rest).events =~= decoder::fed(o.held, rest).events);
}

proof fn lemma_short_frame_is_delivered(f: frame::Frame)
    requires
        frame::expressible(f),
        frame::frame_bytes(f).len() <= decoder::BUF_CAP,
    ensures
        delivers(decoded(frame::frame_bytes(f)), frame_items(f)),
{
    reveal(decoded);
    let b = frame::frame_bytes(f);
    let none = Seq::<u8>::empty();
    assert(b + none =~= b);
    frame::law_parse_reads_back(f, none);
    let n = b.len() as int;
    assert(none + b.take(n) =~= b);
    assert(b.skip(n) =~= none);
    let fe = decoder::frame_events(f);
    assert(decoder::drained(none).events =~= Seq::<decoder::Event>::empty());
    assert(decoder::drained(b) == decoder::preceded(fe, decoder::drained(none)));
    assert(fe + decoder::drained(none).events =~= fe);
    lemma_items_of_frame(f);
}

/// The first buffer full of a long BLOCK, and the BLOCK that is left.
proof fn lemma_block_splits(samples: Seq<u32>, head: Seq<u8>, rest: Seq<u8>)
    requires
        frame::expressible(frame::Frame::Block(samples)),
        head + rest == frame::frame_bytes(frame::Frame::Block(samples)),
        head.len() == decoder::BUF_CAP,
        rest.len() > 0,
    ensures
        samples.len() >= 255,
        frame::expressible(frame::Frame::Block(samples.skip(255))),
        decoder::spilled(head) is Some,
        decoder::spilled(head)->0.events == decoder::chunks(samples.take(255)),
        decoder::spilled(head)->0.held + rest == frame::frame_bytes(
            frame::Frame::Block(samples.skip(255)),
        ),
{
    let b = frame::frame_bytes(frame::Frame::Block(samples));
    assert(head =~= b.take(1024));
    assert(rest =~= b.skip(1024));
    bytes::lemma_le32s_len(samples);
    let o = decoder::spilled(head)->0;
    let first = samples.take(255);
    let later = samples.skip(255);
    assert(first + later =~= samples);
    bytes::lemma_le32s_concat(first, later);
    bytes::lemma_le32s_len(first);
    bytes::lemma_le32s_len(later);
    let body = head.subrange(1, 1021);
    assert(body =~= bytes::le32s(first));
    assert forall|i: int| 0 <= i < 255 implies bytes::words(body)[i] == first[i] by {
        bytes::lemma_le32s_word(first, i);
    }
    assert(bytes::words(body) =~= first);
    assert(o.held + rest =~= frame::frame_bytes(frame::Frame::Block(later)));
    assert forall|x: u32| later.contains(x) implies samples.contains(x) by {
        let j = later.index_of(x);
        assert(samples[j + 255] == x);
    }
}

/// The first buffer full of a long REPEAT2, and the REPEAT2 that is left.
proof fn lemma_repeat2_splits(
    val_a: u32,
    val_b: u32,
    run_lens: Seq<u8>,
    head: Seq<u8>,
    rest: Seq<u8>,
)
    requires
        frame::expressible(frame::Frame::Repeat2 { val_a, val_b, run_lens }),
        head + rest == frame::frame_bytes(frame::Frame::Repeat2 { val_a, val_b, run_lens }),
        head.len() == decoder::BUF_CAP,
        rest.len() > 0,
    ensures
        run_lens.len() >= 1014,
        frame::expressible(
            frame::Frame::Repeat2 { val_a, val_b, run_lens: run_lens.skip(1014) },
        ),
        decoder::spilled(head) is Some,
        decoder::spilled(head)->0.events == seq![
            decoder::Event::Repeat2 { val_a, val_b, run_lens: run_lens.take(1014) },
        ],
        decoder::spilled(head)->0.held + rest == frame::frame_bytes(
            frame::Frame::Repeat2 { val_a, val_b, run_lens: run_lens.skip(1014) },
        ),
{
    let b = frame::frame_bytes(frame::Frame::Repeat2 { val_a, val_b, run_lens });
    assert(head =~= b.take(1024));
    assert(rest =~= b.skip(1024));
    let o = decoder::spilled(head)->0;
    let first = run_lens.take(1014);
    let later = run_lens.skip(1014);
    assert(head.subrange(1, 5) =~= bytes::le32(val_a));
    assert(head.subrange(5, 9) =~= bytes::le32(val_b));
    bytes::lemma_word_of_le32(head, 1, val_a);
    bytes::lemma_word_of_le32(head, 5, val_b);
    assert(head.subrange(9, 1023) =~= first);
    assert(o.held + rest =~= frame::frame_bytes(
        frame::Frame::Repeat2 { val_a, val_b, run_lens: later },
    ));
    assert forall|x: u8| later.contains(x) implies run_lens.contains(x) by {
        let j = later.index_of(x);
        assert(run_lens[j + 1014] == x);
    }
}

proof fn lemma_block_is_delivered(samples: Seq<u32>)
    requires
        frame::expressible(frame::Frame::Block(samples)),
    ensures
        delivers(
            decoded(frame::frame_bytes(frame::Frame::Block(samples))),
            sample_items(samples),
        ),
    decreases samples.len(),
{
    let f = frame::Frame::Block(samples);
    let b = frame::frame_bytes(f);
    let cap = decoder::BUF_CAP as int;
    if b.len() <= cap {
        lemma_short_frame_is_delivered(f);
    } else {
        let head = b.take(cap);
        let rest = b.skip(cap);
        assert(head + rest =~= b);
        lemma_block_splits(samples, head, rest);
        let o = decoder::spilled(head)->0;
        let first = samples.take(255);
        let later = samples.skip(255);
        lemma_long_frame(f, o, b);
        lemma_block_is_delivered(later);
        lemma_items_of_chunks(first);
        lemma_items_concat(o.events, decoded(frame::frame_bytes(frame::Frame::Block(later))).events);
        assert(sample_items(samples) =~= sample_items(first) + sample_items(later));
    }
}

proof fn lemma_repeat2_is_delivered(val_a: u32, val_b: u32, run_lens: Seq<u8>)
    requires
        frame::expressible(frame::Frame::Repeat2 { val_a, val_b, run_lens }),
    ensures
        delivers(
            decoded(frame::frame_bytes(frame::Frame::Repeat2 { val_a, val_b, run_lens })),
            sample_items(alternating(val_a, val_b, run_lens)),
        ),
    decreases run_lens.len(),
{
    let f = frame::Frame::Repeat2 { val_a, val_b, run_lens };
    let b = frame::frame_bytes(f);
    let cap = decoder::BUF_CAP as int;
    if b.len() <= cap {
        lemma_short_frame_is_delivered(f);
    } else {
        let head = b.take(cap);
        let rest = b.skip(cap);
        assert(head + rest =~= b);
        lemma_repeat2_splits(val_a, val_b, run_lens, head, rest);
        let o = decoder::spilled(head)->0;
        let first = run_lens.take(1014);
        let later = run_lens.skip(1014);
        lemma_long_frame(f, o, b);
        lemma_repeat2_is_delivered(val_a, val_b, later);
        lemma_items_of_one(decoder::Event::Repeat2 { val_a, val_b, run_lens: first });
        lemma_items_concat(
            o.events,
            decoded(
                frame::frame_bytes(frame::Frame::Repeat2 { val_a, val_b, run_lens: later }),
            ).events,
        );
        assert(first + later =~= run_lens);
        lemma_alternating_concat(val_a, val_b, first, later);
        assert(sample_items(alternating(val_a, val_b, run_lens)) =~= sample_items(
            alternating(val_a, val_b, first),
        ) + sample_items(alternating(val_a, val_b, later)));
    }
}

proof fn lemma_frame_is_delivered(f: frame::Frame)
    requires
        deliverable(f),
    ensures
        delivers(decoded(frame::frame_bytes(f)), frame_items(f)),
{
    match f {
        frame::Frame::Block(samples) => {
            lemma_block_is_delivered(samples);
        },
        frame::Frame::Repeat2 { val_a, val_b, run_lens } => {
            lemma_repeat2_is_delivered(val_a, val_b, run_lens);
        },
        _ => {
            lemma_short_frame_is_delivered(f);
        },
    }
}

/// A frame reaches the consumer whole: decoding its bytes delivers its items,
/// fails in nothing and holds nothing back.
pub proof fn law_frame_is_delivered(f: frame::Frame)
    requires
        deliverable(f),
    ensures
        ({
            let o = decoder::fed(Seq::empty(), frame::frame_bytes(f));
            &&& o.error is None
            &&& o.held == Seq::<u8>::empty()
            &&& items(o.events) == frame_items(f)
        }),
{
    lemma_frame_is_delivered(f);
    reveal(decoded);
}

/// A stream of frames comes back as it was sent, one frame after the other.
pub proof fn law_stream_is_delivered(frames: Seq<frame::Frame>)
    requires
        forall|i: int| 0 <= i < frames.len() ==> deliverable(#[trigger] frames[i]),
    ensures
        ({
            let o = decoder::fed(Seq::empty(), stream_bytes(frames));
            &&& o.error is None
            &&& o.held == Seq::<u8>::empty()
            &&& items(o.events) == stream_items(frames)
        }),
    decreases frames.len(),
{
    let none = Seq::<u8>::empty();
    if frames.len() == 0 {
        lemma_fed_rests(none);
    } else {
        let before = stream_bytes(frames.drop_last());
        let last = frame::frame_bytes(frames.last());
        law_stream_is_delivered(frames.drop_last());
        law_frame_is_delivered(frames.last());
        law_reads_can_be_cut_anywhere(none, before, last);
        lemma_items_concat(decoder::fed(none, before).events, decoder::fed(none, last).events);
    }
}

/// The frames of a stream are read back from its bytes.
pub proof fn law_frames_are_read_back(frames: Seq<frame::Frame>)
    requires
        forall|i: int| 0 <= i < frames.len() ==> frame::expressible(#[trigger] frames[i]),
    ensures
        frame::frames_in(stream_bytes(frames)) == (frame::Frames {
            frames,
            bad: None,
            rest: Seq::empty(),
        }),
    decreases frames.len(),
{
    let none = Seq::<u8>::empty();
    if frames.len() == 0 {
        assert(frames =~= Seq::<frame::Frame>::empty());
    } else {
        let before = stream_bytes(frames.drop_last());
        let f = frames.last();
        let last = frame::frame_bytes(f);
        law_frames_are_read_back(frames.drop_last());
        frame::law_frames_can_be_read_in_pieces(before, last);
        assert(none + last =~= last);
        assert(last + none =~= last);
        frame::law_parse_reads_back(f, none);
        frame::lemma_parse_takes(last);
        assert(last.skip(last.len() as int) =~= none);
        assert(frame::frames_in(none).frames =~= Seq::<frame::Frame>::empty());
        assert(frame::frames_in(last).frames =~= seq![f]);
        assert(frames.drop_last() + seq![f] =~= frames);
    }
}

/// A run is as long as it says and has one sample only; an alternation starts with a
/// run of the first sample, goes on with one of the second, and after each two with
/// the rest in the same way.
pub proof fn law_runs_unfold(a: u32, b: u32, n: u8, m: u8, rest: Seq<u8>, i: int)
    ensures
        repeated(n as nat, a).len() == n,
        0 <= i < n ==> repeated(n as nat, a)[i] == a,
        alternating(a, b, Seq::empty()).len() == 0,
        alternating(a, b, seq![n]) == repeated(n as nat, a),
        alternating(a, b, seq![n, m] + rest) == repeated(n as nat, a) + repeated(m as nat, b)
            + alternating(a, b, rest),
{
    reveal_with_fuel(alternating, 3);
    assert(seq![n].skip(1) =~= Seq::<u8>::empty());
    let s = seq![n, m] + rest;
    assert(s.skip(1).skip(1) =~= rest);
    assert(s.skip(1)[0] == m);
    assert(alternating(a, b, s) =~= repeated(n as nat, a) + repeated(m as nat, b) + alternating(
        a,
        b,
        rest,
    ));
}

} // verus!
