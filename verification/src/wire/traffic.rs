//! Everything that an encoder is asked to do, and what a reader makes of it.

use vstd::prelude::*;

use crate::bytes;
use crate::text;
use crate::wire::decoder;
use crate::wire::encoder;
use crate::wire::frame;
use crate::wire::stream;

verus! {

/// Something that an encoder is asked to do.
pub enum Op {
    /// Take a sample.
    Feed(u32),
    /// Put everything pending on the wire.
    Flush,
    /// Put a frame on the wire that is not about samples.
    Send(frame::Frame),
}

/// What is remembered after an operation.
pub open spec fn after_op(p: encoder::Pending, op: Op) -> encoder::Pending {
    match op {
        Op::Feed(s) => encoder::after_feeding(p, s),
        Op::Flush => encoder::idle(),
        Op::Send(_) => encoder::Pending { open: false, ..p },
    }
}

/// The bytes that an operation puts on the wire.
pub open spec fn op_bytes(p: encoder::Pending, op: Op) -> Seq<u8> {
    match op {
        Op::Feed(s) => encoder::feeding(p, s),
        Op::Flush => encoder::flushing(p),
        Op::Send(f) => encoder::interjecting(p, f),
    }
}

/// What is remembered after operations.
pub open spec fn after_ops(p: encoder::Pending, ops: Seq<Op>) -> encoder::Pending
    decreases ops.len(),
{
    if ops.len() == 0 {
        p
    } else {
        after_op(after_ops(p, ops.drop_last()), ops.last())
    }
}

/// The bytes that operations put on the wire.
pub open spec fn ops_bytes(p: encoder::Pending, ops: Seq<Op>) -> Seq<u8>
    decreases ops.len(),
{
    if ops.len() == 0 {
        Seq::empty()
    } else {
        ops_bytes(p, ops.drop_last()) + op_bytes(after_ops(p, ops.drop_last()), ops.last())
    }
}

/// All bytes of operations, starting from nothing, with everything pending put on
/// the wire at the end.
pub open spec fn traffic(ops: Seq<Op>) -> Seq<u8> {
    ops_bytes(encoder::idle(), ops) + encoder::flushing(after_ops(encoder::idle(), ops))
}

/// The samples that were fed.
pub open spec fn fed_samples(ops: Seq<Op>) -> Seq<u32>
    decreases ops.len(),
{
    if ops.len() == 0 {
        Seq::empty()
    } else {
        let before = fed_samples(ops.drop_last());
        match ops.last() {
            Op::Feed(s) => before.push(s),
            _ => before,
        }
    }
}

/// The items of the frames that were sent.
pub open spec fn sent_items(ops: Seq<Op>) -> Seq<stream::Item>
    decreases ops.len(),
{
    if ops.len() == 0 {
        Seq::empty()
    } else {
        let before = sent_items(ops.drop_last());
        match ops.last() {
            Op::Send(f) => before + stream::frame_items(f),
            _ => before,
        }
    }
}

/// Whether a frame is not about samples.
pub open spec fn is_control(f: frame::Frame) -> bool {
    !(f is Block) && !(f is Run) && !(f is Repeat2)
}

/// Operations that a reader can follow: a sample is not the one that ends a BLOCK,
/// and a frame can be delivered.
pub open spec fn fair(op: Op) -> bool {
    match op {
        Op::Feed(s) => s != frame::BLOCK_SENTINEL,
        Op::Flush => true,
        Op::Send(f) => is_control(f) && stream::deliverable(f),
    }
}

/// The samples among items.
pub open spec fn samples_among(items: Seq<stream::Item>) -> Seq<u32>
    decreases items.len(),
{
    if items.len() == 0 {
        Seq::empty()
    } else {
        samples_among(items.drop_last()) + match items.last() {
            stream::Item::Sample(s) => seq![s],
            _ => Seq::empty(),
        }
    }
}

/// The items that are not samples.
pub open spec fn others_among(items: Seq<stream::Item>) -> Seq<stream::Item>
    decreases items.len(),
{
    if items.len() == 0 {
        Seq::empty()
    } else {
        let before = others_among(items.drop_last());
        if items.last() is Sample {
            before
        } else {
            before.push(items.last())
        }
    }
}

pub proof fn lemma_among_concat(a: Seq<stream::Item>, b: Seq<stream::Item>)
    ensures
        samples_among(a + b) == samples_among(a) + samples_among(b),
        others_among(a + b) == others_among(a) + others_among(b),
    decreases b.len(),
{
    if b.len() == 0 {
        assert(a + b =~= a);
        assert(samples_among(a) + samples_among(b) =~= samples_among(a));
        assert(others_among(a) + others_among(b) =~= others_among(a));
    } else {
        lemma_among_concat(a, b.drop_last());
        assert((a + b).drop_last() =~= a + b.drop_last());
        assert(samples_among(a + b) =~= samples_among(a) + samples_among(b));
        assert(others_among(a + b) =~= others_among(a) + others_among(b));
    }
}

pub proof fn lemma_among_samples(samples: Seq<u32>)
    ensures
        samples_among(stream::sample_items(samples)) == samples,
        others_among(stream::sample_items(samples)) == Seq::<stream::Item>::empty(),
    decreases samples.len(),
{
    let items = stream::sample_items(samples);
    if samples.len() > 0 {
        lemma_among_samples(samples.drop_last());
        assert(items.drop_last() =~= stream::sample_items(samples.drop_last()));
    }
    assert(samples_among(items) =~= samples);
    assert(others_among(items) =~= Seq::<stream::Item>::empty());
}

pub proof fn lemma_among_one(i: stream::Item)
    requires
        !(i is Sample),
    ensures
        samples_among(seq![i]) == Seq::<u32>::empty(),
        others_among(seq![i]) == seq![i],
{
    assert(seq![i].drop_last() =~= Seq::<stream::Item>::empty());
    assert(samples_among(Seq::empty()) =~= Seq::<u32>::empty());
    assert(others_among(Seq::empty()) =~= Seq::<stream::Item>::empty());
    assert(samples_among(seq![i]) =~= Seq::<u32>::empty());
    assert(others_among(seq![i]) =~= seq![i]);
}

/// The samples of the run in progress.
spec fn run_part(p: encoder::Pending) -> Seq<u32> {
    match p.run {
        None => Seq::empty(),
        Some((s, n)) => stream::repeated(n, s),
    }
}

/// The part of the open BLOCK that is on the wire.
spec fn open_part(open: bool, block: Seq<u32>) -> Seq<u8> {
    if open {
        seq![frame::TAG_BLOCK] + bytes::le32s(block)
    } else {
        Seq::empty()
    }
}

/// How far the wire is: frames, and an open BLOCK of `block`.
struct Progress {
    wire: Seq<u8>,
    frames: Seq<frame::Frame>,
    block: Seq<u32>,
}

/// The wire, with the run in progress, holds these samples and these other items.
spec fn holds(
    g: Progress,
    p: encoder::Pending,
    samples: Seq<u32>,
    others: Seq<stream::Item>,
) -> bool {
    let items = stream::stream_items(g.frames);
    &&& p.run matches Some((s, n)) ==> 1 <= n < encoder::MAX_RUN && s != frame::BLOCK_SENTINEL
    &&& !p.open ==> g.block.len() == 0
    &&& !g.block.contains(frame::BLOCK_SENTINEL)
    &&& g.wire == stream::stream_bytes(g.frames) + open_part(p.open, g.block)
    &&& samples == samples_among(items) + g.block + run_part(p)
    &&& others == others_among(items)
    &&& forall|i: int| 0 <= i < g.frames.len() ==> stream::deliverable(#[trigger] g.frames[i])
}

proof fn lemma_push(frames: Seq<frame::Frame>, f: frame::Frame)
    ensures
        stream::stream_bytes(frames.push(f)) == stream::stream_bytes(frames) + frame::frame_bytes(
            f,
        ),
        samples_among(stream::stream_items(frames.push(f))) == samples_among(
            stream::stream_items(frames),
        ) + samples_among(stream::frame_items(f)),
        others_among(stream::stream_items(frames.push(f))) == others_among(
            stream::stream_items(frames),
        ) + others_among(stream::frame_items(f)),
{
    assert(frames.push(f).drop_last() =~= frames);
    lemma_among_concat(stream::stream_items(frames), stream::frame_items(f));
}

/// Ending the open BLOCK.
proof fn lemma_close(
    g: Progress,
    p: encoder::Pending,
    samples: Seq<u32>,
    others: Seq<stream::Item>,
) -> (h: Progress)
    requires
        holds(g, p, samples, others),
    ensures
        h.wire == g.wire + encoder::closing(p.open),
        holds(h, encoder::Pending { open: false, ..p }, samples, others),
{
    let none = Seq::<u32>::empty();
    let wire = g.wire + encoder::closing(p.open);
    if p.open {
        let f = frame::Frame::Block(g.block);
        lemma_push(g.frames, f);
        lemma_among_samples(g.block);
        let h = Progress { wire, frames: g.frames.push(f), block: none };
        assert(wire =~= stream::stream_bytes(h.frames) + open_part(false, none));
        assert(samples =~= samples_among(stream::stream_items(h.frames)) + none + run_part(p));
        assert(others =~= others_among(stream::stream_items(h.frames)));
        h
    } else {
        assert(wire =~= g.wire);
        Progress { wire, ..g }
    }
}

/// Putting a RUN on the wire when nothing is open: the run in progress, and `more`
/// of its sample.
proof fn lemma_emit_run(
    g: Progress,
    p: encoder::Pending,
    samples: Seq<u32>,
    others: Seq<stream::Item>,
    s: u32,
    n: u16,
    more: Seq<u32>,
) -> (h: Progress)
    requires
        holds(g, p, samples, others),
        !p.open,
        run_part(p) + more == stream::repeated(n as nat, s),
    ensures
        h.wire == g.wire + frame::frame_bytes(frame::Frame::Run { n, sample: s }),
        holds(h, encoder::idle(), samples + more, others),
{
    let none = Seq::<u32>::empty();
    let f = frame::Frame::Run { n, sample: s };
    lemma_push(g.frames, f);
    lemma_among_samples(stream::repeated(n as nat, s));
    let wire = g.wire + frame::frame_bytes(f);
    let h = Progress { wire, frames: g.frames.push(f), block: none };
    assert(wire =~= stream::stream_bytes(h.frames) + open_part(false, none));
    assert(samples + more =~= samples_among(stream::stream_items(h.frames)) + none + run_part(
        encoder::idle(),
    ));
    assert(others =~= others_among(stream::stream_items(h.frames)));
    h
}

/// Resolving the run in progress.
proof fn lemma_resolve(
    g: Progress,
    p: encoder::Pending,
    samples: Seq<u32>,
    others: Seq<stream::Item>,
) -> (h: Progress)
    requires
        holds(g, p, samples, others),
    ensures
        h.wire == g.wire + encoder::resolving(p),
        holds(h, encoder::resolved(p), samples, others),
{
    let wire = g.wire + encoder::resolving(p);
    match p.run {
        None => {
            assert(wire =~= g.wire);
            g
        },
        Some((s, n)) => {
            if n == 1 {
                let joined = g.block.push(s);
                bytes::lemma_le32s_push(g.block, s);
                let h = Progress { wire, block: joined, ..g };
                if !p.open {
                    assert(g.block =~= Seq::<u32>::empty());
                    assert(bytes::le32s(g.block) =~= Seq::<u8>::empty());
                }
                assert(wire =~= stream::stream_bytes(g.frames) + open_part(true, joined));
                assert(samples =~= samples_among(stream::stream_items(g.frames)) + joined
                    + run_part(encoder::resolved(p)));
                if joined.contains(frame::BLOCK_SENTINEL) {
                    let j = joined.index_of(frame::BLOCK_SENTINEL);
                    if j < g.block.len() {
                        assert(g.block[j] == frame::BLOCK_SENTINEL);
                    }
                }
                h
            } else {
                let none = Seq::<u32>::empty();
                let closed = lemma_close(g, p, samples, others);
                let q = encoder::Pending { open: false, ..p };
                assert(run_part(q) + none =~= stream::repeated(n as u16 as nat, s));
                let h = lemma_emit_run(closed, q, samples, others, s, n as u16, none);
                assert(samples + none =~= samples);
                assert(h.wire =~= wire);
                h
            }
        },
    }
}

/// Taking a sample.
proof fn lemma_feed(
    g: Progress,
    p: encoder::Pending,
    samples: Seq<u32>,
    others: Seq<stream::Item>,
    x: u32,
) -> (h: Progress)
    requires
        holds(g, p, samples, others),
        x != frame::BLOCK_SENTINEL,
    ensures
        h.wire == g.wire + encoder::feeding(p, x),
        holds(h, encoder::after_feeding(p, x), samples.push(x), others),
{
    let q = encoder::after_feeding(p, x);
    let wire = g.wire + encoder::feeding(p, x);
    match p.run {
        None => {
            assert(wire =~= g.wire);
            assert(samples.push(x) =~= samples_among(stream::stream_items(g.frames)) + g.block
                + run_part(q));
            g
        },
        Some((s, n)) => {
            if s != x {
                let h = lemma_resolve(g, p, samples, others);
                assert(samples.push(x) =~= samples_among(stream::stream_items(h.frames)) + h.block
                    + run_part(q));
                h
            } else if n + 1 == encoder::MAX_RUN {
                let closed = lemma_close(g, p, samples, others);
                let r = encoder::Pending { open: false, ..p };
                assert(run_part(r) + seq![x] =~= stream::repeated(encoder::MAX_RUN as nat, x));
                let h = lemma_emit_run(
                    closed,
                    r,
                    samples,
                    others,
                    x,
                    encoder::MAX_RUN,
                    seq![x],
                );
                assert(samples + seq![x] =~= samples.push(x));
                assert(h.wire =~= wire);
                h
            } else {
                assert(wire =~= g.wire);
                assert(run_part(q) =~= run_part(p).push(x));
                assert(samples.push(x) =~= samples_among(stream::stream_items(g.frames)) + g.block
                    + run_part(q));
                g
            }
        },
    }
}

/// Putting everything pending on the wire.
proof fn lemma_flush(
    g: Progress,
    p: encoder::Pending,
    samples: Seq<u32>,
    others: Seq<stream::Item>,
) -> (h: Progress)
    requires
        holds(g, p, samples, others),
    ensures
        h.wire == g.wire + encoder::flushing(p),
        holds(h, encoder::idle(), samples, others),
{
    let r = lemma_resolve(g, p, samples, others);
    let h = lemma_close(r, encoder::resolved(p), samples, others);
    assert(h.wire =~= g.wire + encoder::flushing(p));
    h
}

/// Putting another frame on the wire.
proof fn lemma_send(
    g: Progress,
    p: encoder::Pending,
    samples: Seq<u32>,
    others: Seq<stream::Item>,
    f: frame::Frame,
) -> (h: Progress)
    requires
        holds(g, p, samples, others),
        is_control(f),
        stream::deliverable(f),
    ensures
        h.wire == g.wire + encoder::interjecting(p, f),
        holds(
            h,
            encoder::Pending { open: false, ..p },
            samples,
            others + stream::frame_items(f),
        ),
{
    let q = encoder::Pending { open: false, ..p };
    let closed = lemma_close(g, p, samples, others);
    lemma_push(closed.frames, f);
    lemma_among_one(stream::frame_items(f)[0]);
    assert(stream::frame_items(f) =~= seq![stream::frame_items(f)[0]]);
    let wire = g.wire + encoder::interjecting(p, f);
    let h = Progress { wire, frames: closed.frames.push(f), ..closed };
    assert(h.block =~= Seq::<u32>::empty());
    assert(wire =~= stream::stream_bytes(h.frames) + open_part(false, h.block));
    assert(samples =~= samples_among(stream::stream_items(h.frames)) + h.block + run_part(q));
    h
}

proof fn lemma_traffic(ops: Seq<Op>) -> (g: Progress)
    requires
        forall|i: int| 0 <= i < ops.len() ==> fair(#[trigger] ops[i]),
    ensures
        g.wire == ops_bytes(encoder::idle(), ops),
        holds(g, after_ops(encoder::idle(), ops), fed_samples(ops), sent_items(ops)),
    decreases ops.len(),
{
    if ops.len() == 0 {
        let g = Progress { wire: Seq::empty(), frames: Seq::empty(), block: Seq::empty() };
        assert(g.wire =~= stream::stream_bytes(g.frames) + open_part(false, g.block));
        assert(fed_samples(ops) =~= samples_among(stream::stream_items(g.frames)) + g.block
            + run_part(encoder::idle()));
        g
    } else {
        let before = ops.drop_last();
        assert forall|i: int| 0 <= i < before.len() implies fair(#[trigger] before[i]) by {
            assert(before[i] == ops[i]);
        }
        let g = lemma_traffic(before);
        let p = after_ops(encoder::idle(), before);
        assert(fair(ops[ops.len() - 1]));
        match ops.last() {
            Op::Feed(s) => lemma_feed(g, p, fed_samples(before), sent_items(before), s),
            Op::Flush => lemma_flush(g, p, fed_samples(before), sent_items(before)),
            Op::Send(f) => lemma_send(g, p, fed_samples(before), sent_items(before), f),
        }
    }
}

/// Whatever an encoder is asked to do, and in whatever order, a reader gets it:
/// all samples in the order in which they were fed, and all other frames in the
/// order in which they were sent, once everything pending is flushed. No frame
/// in between costs a sample.
pub proof fn law_traffic_is_delivered(ops: Seq<Op>)
    requires
        forall|i: int| 0 <= i < ops.len() ==> fair(#[trigger] ops[i]),
    ensures
        ({
            let o = decoder::fed(Seq::empty(), traffic(ops));
            &&& o.error is None
            &&& o.held == Seq::<u8>::empty()
            &&& samples_among(stream::items(o.events)) == fed_samples(ops)
            &&& others_among(stream::items(o.events)) == sent_items(ops)
        }),
{
    let g = lemma_traffic(ops);
    let p = after_ops(encoder::idle(), ops);
    let h = lemma_flush(g, p, fed_samples(ops), sent_items(ops));
    stream::law_stream_is_delivered(h.frames);
    assert(h.block =~= Seq::<u32>::empty());
    assert(h.wire =~= stream::stream_bytes(h.frames));
    assert(samples_among(stream::stream_items(h.frames)) =~= fed_samples(ops));
}

/// Operations one after the other.
pub proof fn lemma_ops_concat(p: encoder::Pending, a: Seq<Op>, b: Seq<Op>)
    ensures
        after_ops(p, a + b) == after_ops(after_ops(p, a), b),
        ops_bytes(p, a + b) == ops_bytes(p, a) + ops_bytes(after_ops(p, a), b),
        fed_samples(a + b) == fed_samples(a) + fed_samples(b),
        sent_items(a + b) == sent_items(a) + sent_items(b),
    decreases b.len(),
{
    if b.len() == 0 {
        assert(a + b =~= a);
        assert(ops_bytes(p, a) + ops_bytes(after_ops(p, a), b) =~= ops_bytes(p, a));
        assert(fed_samples(a) + fed_samples(b) =~= fed_samples(a));
        assert(sent_items(a) + sent_items(b) =~= sent_items(a));
    } else {
        lemma_ops_concat(p, a, b.drop_last());
        assert((a + b).drop_last() =~= a + b.drop_last());
        assert(ops_bytes(p, a + b) =~= ops_bytes(p, a) + ops_bytes(after_ops(p, a), b));
        assert(fed_samples(a + b) =~= fed_samples(a) + fed_samples(b));
        assert(sent_items(a + b) =~= sent_items(a) + sent_items(b));
    }
}

/// One operation.
pub proof fn lemma_one_op(p: encoder::Pending, op: Op)
    ensures
        after_ops(p, seq![op]) == after_op(p, op),
        ops_bytes(p, seq![op]) == op_bytes(p, op),
        fed_samples(seq![op]) == match op {
            Op::Feed(s) => seq![s],
            _ => Seq::empty(),
        },
        sent_items(seq![op]) == match op {
            Op::Send(f) => stream::frame_items(f),
            _ => Seq::empty(),
        },
{
    let none = Seq::<Op>::empty();
    assert(seq![op].drop_last() =~= none);
    assert(after_ops(p, none) == p);
    assert(ops_bytes(p, none) =~= Seq::<u8>::empty());
    assert(fed_samples(none) =~= Seq::<u32>::empty());
    assert(sent_items(none) =~= Seq::<stream::Item>::empty());
    assert(ops_bytes(p, seq![op]) =~= op_bytes(p, op));
    assert(fed_samples(seq![op]) =~= match op {
        Op::Feed(s) => seq![s],
        _ => Seq::empty(),
    });
    assert(sent_items(seq![op]) =~= match op {
        Op::Send(f) => stream::frame_items(f),
        _ => Seq::empty(),
    });
}

/// Samples, as operations.
pub open spec fn feeds(samples: Seq<u32>) -> Seq<Op> {
    samples.map_values(|s: u32| Op::Feed(s))
}

/// Feeding samples one by one.
pub proof fn lemma_feeds(p: encoder::Pending, samples: Seq<u32>)
    ensures
        after_ops(p, feeds(samples)) == encoder::after_feeding_all(p, samples),
        ops_bytes(p, feeds(samples)) == encoder::feeding_all(p, samples),
        fed_samples(feeds(samples)) == samples,
        sent_items(feeds(samples)) == Seq::<stream::Item>::empty(),
    decreases samples.len(),
{
    if samples.len() == 0 {
        assert(feeds(samples) =~= Seq::<Op>::empty());
        assert(fed_samples(feeds(samples)) =~= samples);
    } else {
        lemma_feeds(p, samples.drop_last());
        assert(feeds(samples).drop_last() =~= feeds(samples.drop_last()));
        assert(samples.drop_last().push(samples.last()) =~= samples);
    }
}

/// A short plain text can be sent as a LOG.
pub proof fn lemma_plain_log(t: Seq<char>)
    requires
        text::plain(t),
        t.len() <= 1000,
    ensures
        fair(Op::Send(frame::Frame::Log(vstd::utf8::encode_utf8(t)))),
{
    let b = vstd::utf8::encode_utf8(t);
    vstd::utf8::is_ascii_chars_encode_utf8(t);
    if b.contains(0) {
        let j = b.index_of(0);
        assert(b[j] == t[j] as u8);
        assert(t[j] == '\0');
        assert(t.contains('\0'));
    }
}

} // verus!
