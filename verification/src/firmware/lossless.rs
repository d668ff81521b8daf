//! The alternating encoder loses, adds and moves no sample.

use vstd::prelude::*;

use crate::firmware::wire;
use crate::wire::frame;
use crate::wire::stream;

verus! {

/// The samples that a frame stands for.
pub open spec fn frame_samples(f: frame::Frame) -> Seq<u32> {
    match f {
        frame::Frame::Block(samples) => samples,
        frame::Frame::Run { n, sample } => stream::repeated(n as nat, sample),
        frame::Frame::Repeat2 { val_a, val_b, run_lens } => stream::alternating(
            val_a,
            val_b,
            run_lens,
        ),
        _ => Seq::empty(),
    }
}

/// The samples that frames stand for.
pub open spec fn samples_in(frames: Seq<frame::Frame>) -> Seq<u32>
    decreases frames.len(),
{
    if frames.len() == 0 {
        Seq::empty()
    } else {
        samples_in(frames.drop_last()) + frame_samples(frames.last())
    }
}

/// The samples that an encoder holds back, from the oldest to the newest.
pub open spec fn held_samples(h: wire::Held) -> Seq<u32> {
    samples_in(wire::closing(h.paired)) + h.block + (match h.run {
        Some((s, n)) => stream::repeated(n, s),
        None => Seq::empty(),
    })
}

proof fn lemma_push(frames: Seq<frame::Frame>, f: frame::Frame)
    ensures
        samples_in(frames.push(f)) == samples_in(frames) + frame_samples(f),
{
    assert(frames.push(f).drop_last() =~= frames);
}

proof fn lemma_one(f: frame::Frame)
    ensures
        samples_in(seq![f]) == frame_samples(f),
{
    lemma_push(Seq::empty(), f);
    assert(Seq::<frame::Frame>::empty().push(f) =~= seq![f]);
    assert(samples_in(Seq::<frame::Frame>::empty()) + frame_samples(f) =~= frame_samples(f));
}

proof fn lemma_concat(a: Seq<frame::Frame>, b: Seq<frame::Frame>)
    ensures
        samples_in(a + b) == samples_in(a) + samples_in(b),
    decreases b.len(),
{
    if b.len() == 0 {
        assert(a + b =~= a);
        assert(samples_in(a) + samples_in(b) =~= samples_in(a));
    } else {
        lemma_concat(a, b.drop_last());
        assert((a + b).drop_last() =~= a + b.drop_last());
        assert(samples_in(a + b) =~= samples_in(a) + samples_in(b));
    }
}

/// An alternation goes on with the sample that is expected.
pub proof fn lemma_alternating_push(a: u32, b: u32, lens: Seq<u8>, l: u8)
    ensures
        stream::alternating(a, b, lens.push(l)) == stream::alternating(a, b, lens)
            + stream::repeated(l as nat, wire::expected(a, b, lens)),
    decreases lens.len(),
{
    let more = lens.push(l);
    if lens.len() == 0 {
        assert(more.skip(1) =~= Seq::<u8>::empty());
        assert(stream::alternating(b, a, more.skip(1)) =~= Seq::<u32>::empty());
        assert(stream::alternating(a, b, more) =~= stream::alternating(a, b, lens)
            + stream::repeated(l as nat, a));
    } else {
        assert(more.skip(1) =~= lens.skip(1).push(l));
        lemma_alternating_push(b, a, lens.skip(1), l);
        assert(wire::expected(b, a, lens.skip(1)) == wire::expected(a, b, lens));
        assert(stream::alternating(a, b, more) =~= stream::alternating(a, b, lens)
            + stream::repeated(l as nat, wire::expected(a, b, lens)));
    }
}

/// A completed run joins the runs held back, or makes them leave before it.
proof fn lemma_commit(h: wire::Held, len: nat, sample: u32)
    requires
        wire::sound(h),
        2 <= len <= wire::MAX_RUN,
    ensures
        samples_in(wire::commit_frames(h.paired, len, sample)) + samples_in(
            wire::closing(wire::committed(h.paired, len, sample)),
        ) == samples_in(wire::closing(h.paired)) + stream::repeated(len, sample),
{
    let p = h.paired;
    let before = samples_in(wire::closing(p));
    let none = Seq::<u32>::empty();
    if wire::continues(p, len, sample) {
        let f = wire::closing(p)[0];
        let lens = p->lens.push(len as u8);
        lemma_alternating_push(p->a, p->b, p->lens, len as u8);
        lemma_one(f);
        let g = frame::Frame::Repeat2 { val_a: p->a, val_b: p->b, run_lens: lens };
        lemma_one(g);
        assert(none + samples_in(seq![g]) =~= samples_in(seq![g]));
        assert(samples_in(seq![g]) + none =~= samples_in(seq![g]));
    } else if wire::pairs(p, len, sample) {
        lemma_one(wire::closing(p)[0]);
        let lens = seq![p->len as u8, len as u8];
        let g = frame::Frame::Repeat2 { val_a: p->sample, val_b: sample, run_lens: lens };
        lemma_one(g);
        assert(Seq::<u8>::empty().push(p->len as u8).push(len as u8) =~= lens);
        lemma_alternating_push(p->sample, sample, Seq::empty(), p->len as u8);
        lemma_alternating_push(
            p->sample,
            sample,
            Seq::empty().push(p->len as u8),
            len as u8,
        );
        assert(stream::alternating(p->sample, sample, Seq::<u8>::empty()) =~= none);
        assert(none + samples_in(seq![g]) =~= before + stream::repeated(len, sample));
    } else {
        let f = frame::Frame::Run { n: len as u16, sample };
        lemma_one(f);
        lemma_push(wire::closing(p), f);
        assert(before + stream::repeated(len, sample) + none =~= before + stream::repeated(
            len,
            sample,
        ));
    }
}

/// Putting the lone samples on the wire moves nothing.
pub proof fn law_block_flush_keeps_samples(h: wire::Held)
    requires
        wire::sound(h),
    ensures
        wire::sound(wire::block_flushed(h)),
        samples_in(wire::block_frames(h)) + held_samples(wire::block_flushed(h)) == held_samples(h),
{
    if h.block.len() == 0 {
        assert(samples_in(Seq::<frame::Frame>::empty()) + held_samples(h) =~= held_samples(h));
    } else {
        lemma_push(wire::closing(h.paired), frame::Frame::Block(h.block));
        assert(samples_in(wire::block_frames(h)) + held_samples(wire::block_flushed(h))
            =~= held_samples(h));
    }
}

/// Ending the run in progress moves nothing.
proof fn lemma_run_flush(h: wire::Held)
    requires
        wire::sound(wire::Held { run: None, ..h }),
        h.run matches Some((_, n)) ==> 1 <= n <= wire::MAX_RUN && (n >= 2 ==> h.block.len() == 0),
    ensures
        wire::sound(wire::run_flushed(h)),
        wire::run_flushed(h).run is None,
        samples_in(wire::run_frames(h)) + held_samples(wire::run_flushed(h)) == held_samples(h),
{
    let still = wire::Held { run: None, ..h };
    match h.run {
        None => {
            assert(samples_in(Seq::<frame::Frame>::empty()) + held_samples(h) =~= held_samples(h));
        },
        Some((sample, n)) => {
            if n == 1 {
                let more = wire::Held { block: h.block.push(sample), ..still };
                assert(held_samples(more) =~= held_samples(h)) by {
                    assert(h.block.push(sample) =~= h.block + stream::repeated(1, sample));
                }
                if more.block.len() == wire::MAX_BLOCK {
                    lemma_push(wire::closing(more.paired), frame::Frame::Block(more.block));
                    assert(samples_in(wire::block_frames(more)) + held_samples(
                        wire::block_flushed(more),
                    ) =~= held_samples(more));
                } else {
                    assert(samples_in(Seq::<frame::Frame>::empty()) + held_samples(more)
                        =~= held_samples(more));
                }
            } else {
                lemma_commit(still, n, sample);
                lemma_commit_sound(still, n, sample);
                let out = samples_in(wire::commit_frames(h.paired, n, sample));
                let left = wire::run_flushed(h);
                assert(out + held_samples(left) =~= held_samples(h)) by {
                    assert(h.block =~= Seq::<u32>::empty());
                    assert(held_samples(left) =~= samples_in(wire::closing(left.paired)));
                    assert(held_samples(h) =~= samples_in(wire::closing(h.paired))
                        + stream::repeated(n, sample));
                }
            }
        },
    }
}

proof fn lemma_commit_sound(h: wire::Held, len: nat, sample: u32)
    requires
        wire::sound(h),
        2 <= len <= wire::MAX_RUN,
    ensures
        wire::sound(wire::Held { paired: wire::committed(h.paired, len, sample), ..h }),
{
    if wire::continues(h.paired, len, sample) {
        let lens = h.paired->lens;
        let more = lens.push(len as u8);
        if more.contains(0) {
            let j = more.index_of(0);
            if j < lens.len() {
                assert(lens[j] == 0);
            }
        }
    }
}

/// What leaves and what is held back are, in order, the samples fed so far: a
/// sample fed is the newest, and every other keeps its place.
pub proof fn law_feeding_keeps_samples(h: wire::Held, sample: u32)
    requires
        wire::sound(h),
    ensures
        wire::sound(wire::fed(h, sample)),
        samples_in(wire::feed_frames(h, sample)) + held_samples(wire::fed(h, sample))
            == held_samples(h).push(sample),
{
    let none = Seq::<frame::Frame>::empty();
    match h.run {
        None => {
            let after = wire::fed(h, sample);
            assert(stream::repeated(1, sample) =~= seq![sample]);
            assert(samples_in(none) + held_samples(after) =~= held_samples(h).push(sample));
        },
        Some((s, n)) => {
            if s == sample {
                let longer = wire::Held { run: Some((sample, n + 1)), ..h };
                assert(stream::repeated(n + 1, sample) =~= stream::repeated(n, sample).push(
                    sample,
                ));
                assert(held_samples(longer) =~= held_samples(h).push(sample));
                if n + 1 == 2 {
                    if h.block.len() == 0 {
                        assert(samples_in(none) + held_samples(longer) =~= held_samples(longer));
                    } else {
                        lemma_push(wire::closing(h.paired), frame::Frame::Block(h.block));
                        assert(samples_in(wire::block_frames(longer)) + held_samples(
                            wire::block_flushed(longer),
                        ) =~= held_samples(longer));
                    }
                } else if n + 1 == wire::MAX_RUN {
                    lemma_run_flush(longer);
                } else {
                    assert(samples_in(none) + held_samples(longer) =~= held_samples(longer));
                }
            } else {
                lemma_run_flush(h);
                let r = wire::run_flushed(h);
                let after = wire::fed(h, sample);
                assert(stream::repeated(1, sample) =~= seq![sample]);
                assert(held_samples(after) =~= held_samples(r).push(sample));
                assert(samples_in(wire::run_frames(h)) + held_samples(after) =~= held_samples(
                    h,
                ).push(sample));
            }
        },
    }
}

/// Flushing puts all that was held back on the wire, in order.
pub proof fn law_flush_keeps_samples(h: wire::Held)
    requires
        wire::sound(h),
    ensures
        samples_in(wire::flush_frames(h)) == held_samples(h),
{
    let r = wire::run_flushed(h);
    lemma_run_flush(h);
    let b = wire::block_frames(wire::Held { paired: wire::Paired::Nothing, ..r });
    lemma_concat(wire::run_frames(h), wire::closing(r.paired));
    lemma_concat(wire::run_frames(h) + wire::closing(r.paired), b);
    if r.block.len() > 0 {
        lemma_push(Seq::empty(), frame::Frame::Block(r.block));
        assert(samples_in(b) =~= r.block);
    } else {
        assert(samples_in(b) =~= r.block);
    }
    assert(samples_in(wire::flush_frames(h)) =~= held_samples(h));
}

/// What an encoder holds back after `samples`, starting from nothing.
pub open spec fn held_after(samples: Seq<u32>) -> wire::Held
    decreases samples.len(),
{
    if samples.len() == 0 {
        wire::nothing()
    } else {
        wire::fed(held_after(samples.drop_last()), samples.last())
    }
}

/// The frames that leave while `samples` are fed, starting from nothing.
pub open spec fn frames_of(samples: Seq<u32>) -> Seq<frame::Frame>
    decreases samples.len(),
{
    if samples.len() == 0 {
        Seq::empty()
    } else {
        frames_of(samples.drop_last()) + wire::feed_frames(
            held_after(samples.drop_last()),
            samples.last(),
        )
    }
}

proof fn lemma_frames_of(samples: Seq<u32>)
    ensures
        wire::sound(held_after(samples)),
        samples_in(frames_of(samples)) + held_samples(held_after(samples)) == samples,
    decreases samples.len(),
{
    if samples.len() == 0 {
        assert(samples_in(frames_of(samples)) + held_samples(held_after(samples)) =~= samples);
    } else {
        let before = samples.drop_last();
        lemma_frames_of(before);
        let h = held_after(before);
        law_feeding_keeps_samples(h, samples.last());
        let out = wire::feed_frames(h, samples.last());
        lemma_concat(frames_of(before), out);
        assert(samples_in(frames_of(samples)) + held_samples(held_after(samples)) =~= samples_in(
            frames_of(before),
        ) + (samples_in(out) + held_samples(held_after(samples))));
        assert(samples_in(frames_of(before)) + held_samples(h).push(samples.last())
            =~= before.push(samples.last()));
        assert(before.push(samples.last()) =~= samples);
    }
}

/// The frames of any samples, with everything flushed at the end, stand for
/// exactly those samples, in order.
pub proof fn law_frames_stand_for_the_samples(samples: Seq<u32>)
    ensures
        samples_in(frames_of(samples) + wire::flush_frames(held_after(samples))) == samples,
{
    lemma_frames_of(samples);
    law_flush_keeps_samples(held_after(samples));
    lemma_concat(frames_of(samples), wire::flush_frames(held_after(samples)));
}

/// Runs that an encoder holds back once they have ended.
spec fn ended(a: u32, b: u32, lens: Seq<u8>) -> wire::Paired {
    if lens.len() == 0 {
        wire::Paired::Nothing
    } else if lens.len() == 1 {
        wire::Paired::Deferred { len: lens[0] as nat, sample: a }
    } else {
        wire::Paired::Active { a, b, lens }
    }
}

proof fn lemma_frames_concat(a: Seq<u32>, x: u32)
    ensures
        frames_of(a.push(x)) == frames_of(a) + wire::feed_frames(held_after(a), x),
        held_after(a.push(x)) == wire::fed(held_after(a), x),
{
    assert(a.push(x).drop_last() =~= a);
}

/// A run that follows another one: the first sample ends that one, the others wait.
proof fn lemma_next_run(before: Seq<u32>, s: u32, n: nat)
    requires
        0 < n <= 255,
        held_after(before).block.len() == 0,
        held_after(before).run matches Some((t, k)) ==> t != s && 2 <= k,
    ensures
        ({
            let h = held_after(before);
            let all = before + stream::repeated(n, s);
            let out = match h.run {
                Some((t, k)) => wire::commit_frames(h.paired, k, t),
                None => Seq::empty(),
            };
            let paired = match h.run {
                Some((t, k)) => wire::committed(h.paired, k, t),
                None => h.paired,
            };
            &&& frames_of(all) == frames_of(before) + out
            &&& held_after(all) == (wire::Held {
                paired,
                block: Seq::empty(),
                run: Some((s, n)),
            })
        }),
    decreases n,
{
    let h = held_after(before);
    let all = before + stream::repeated(n, s);
    let fewer = before + stream::repeated((n - 1) as nat, s);
    assert(all =~= fewer.push(s));
    lemma_frames_concat(fewer, s);
    assert(h.block =~= Seq::<u32>::empty());
    if n == 1 {
        assert(fewer =~= before);
    } else {
        lemma_next_run(before, s, (n - 1) as nat);
        let f = frames_of(fewer);
        assert(f + Seq::<frame::Frame>::empty() =~= f);
    }
}

proof fn lemma_alternation_waits(a: u32, b: u32, lens: Seq<u8>)
    requires
        a != b,
        0 < lens.len() <= 512,
        forall|i: int| 0 <= i < lens.len() ==> 2 <= #[trigger] lens[i],
    ensures
        frames_of(stream::alternating(a, b, lens)) == Seq::<frame::Frame>::empty(),
        held_after(stream::alternating(a, b, lens)) == (wire::Held {
            paired: ended(a, b, lens.drop_last()),
            block: Seq::empty(),
            run: Some((wire::expected(a, b, lens.drop_last()), lens.last() as nat)),
        }),
    decreases lens.len(),
{
    let front = lens.drop_last();
    let l = lens.last();
    let s = wire::expected(a, b, front);
    let before = stream::alternating(a, b, front);
    assert(front.push(l) =~= lens);
    lemma_alternating_push(a, b, front, l);
    if front.len() == 0 {
        assert(before =~= Seq::<u32>::empty());
        lemma_next_run(before, s, l as nat);
        assert(frames_of(before) + Seq::<frame::Frame>::empty() =~= Seq::<frame::Frame>::empty());
    } else {
        assert forall|i: int| 0 <= i < front.len() implies 2 <= #[trigger] front[i] by {
            assert(front[i] == lens[i]);
        }
        lemma_alternation_waits(a, b, front);
        assert(front.last() == lens[front.len() - 1]);
        lemma_next_run(before, s, l as nat);
        let was = front.drop_last();
        assert(was.push(front.last()) =~= front);
        if was.len() == 1 {
            assert(seq![was[0], front.last()] =~= front);
        } else if was.len() == 0 {
            assert(front.len() == 1 && front[0] == front.last());
        }
        assert(frames_of(before) + Seq::<frame::Frame>::empty() =~= Seq::<frame::Frame>::empty());
    }
}

/// Runs that alternate between two samples make one REPEAT2 with the length of each, as
/// long as each fits a byte and there are fewer than 512: nothing is sent before they
/// end.
pub proof fn law_an_alternation_makes_one_frame(a: u32, b: u32, lens: Seq<u8>)
    requires
        a != b,
        2 <= lens.len() < 512,
        forall|i: int| 0 <= i < lens.len() ==> 2 <= #[trigger] lens[i],
    ensures
        ({
            let samples = stream::alternating(a, b, lens);
            &&& frames_of(samples).len() == 0
            &&& wire::flush_frames(held_after(samples)) == seq![
                frame::Frame::Repeat2 { val_a: a, val_b: b, run_lens: lens },
            ]
        }),
{
    lemma_alternation_waits(a, b, lens);
    let front = lens.drop_last();
    assert(front.push(lens.last()) =~= lens);
    if front.len() == 1 {
        assert(seq![front[0], lens.last()] =~= lens);
    }
    let h = held_after(stream::alternating(a, b, lens));
    assert(wire::flush_frames(h) =~= seq![
        frame::Frame::Repeat2 { val_a: a, val_b: b, run_lens: lens },
    ]);
}

/// Samples that differ from their neighbours gather in a BLOCK of up to 255.
pub proof fn law_lone_samples_gather(h: wire::Held, sample: u32, next: u32)
    requires
        wire::sound(h),
        h.run == Some((sample, 1nat)),
        sample != next,
    ensures
        ({
            let after = wire::fed(h, next);
            let out = wire::feed_frames(h, next);
            &&& h.block.len() < 254 ==> out.len() == 0 && after.block == h.block.push(sample)
                && after.paired == h.paired
            &&& h.block.len() == 254 ==> out.len() > 0 && out.last() == frame::Frame::Block(
                h.block.push(sample),
            ) && after.block.len() == 0
            &&& after.run == Some((next, 1nat))
        }),
{
}

/// A run that is too long for a byte goes out as a RUN of its own, behind what was held
/// back before it.
pub proof fn law_a_long_run_goes_out_alone(p: wire::Paired, len: nat, sample: u32)
    requires
        255 < len <= 65535,
    ensures
        wire::committed(p, len, sample) is Nothing,
        wire::commit_frames(p, len, sample) == wire::closing(p).push(
            frame::Frame::Run { n: len as u16, sample },
        ),
{
}

/// One run on its own goes out as a RUN once everything is flushed.
pub proof fn law_equal_samples_make_one_run(sample: u32, n: nat)
    requires
        2 <= n <= 255,
    ensures
        frames_of(stream::repeated(n, sample)).len() == 0,
        wire::flush_frames(held_after(stream::repeated(n, sample))) == seq![
            frame::Frame::Run { n: n as u16, sample },
        ],
{
    let none = Seq::<u32>::empty();
    lemma_next_run(none, sample, n);
    assert(none + stream::repeated(n, sample) =~= stream::repeated(n, sample));
    assert(wire::flush_frames(held_after(stream::repeated(n, sample))) =~= seq![
        frame::Frame::Run { n: n as u16, sample },
    ]);
}

/// What calls of [`wire::Encoder::feed`] and [`wire::Encoder::flush`] send of two samples:
/// one BLOCK with both where they differ, and one RUN of two where they are equal.
pub proof fn law_two_samples_are_sent<S: wire::Sink>(
    e1: &mut wire::Encoder,
    e2: &mut wire::Encoder,
    e3: &mut wire::Encoder,
    k1: &mut S,
    k2: &mut S,
    k3: &mut S,
    a: u32,
    b: u32,
)
    requires
        old(e1).wf(),
        old(e1)@ == wire::nothing(),
        call_ensures(wire::Encoder::feed::<S>, (e1, a, k1), ()),
        *old(e2) == *final(e1),
        *old(k2) == *final(k1),
        call_ensures(wire::Encoder::feed::<S>, (e2, b, k2), ()),
        *old(e3) == *final(e2),
        *old(k3) == *final(k2),
        call_ensures(wire::Encoder::flush::<S>, (e3, k3), ()),
    ensures
        a == b ==> final(k3).history() == old(k1).history() + wire::framing(
            wire::frame_bytes(frame::Frame::Run { n: 2, sample: a }),
        ),
        a != b ==> final(k3).history() == old(k1).history() + wire::framing(
            wire::frame_bytes(frame::Frame::Block(seq![a, b])),
        ),
        final(e3)@ == wire::nothing(),
{
    let none = Seq::<frame::Frame>::empty();
    let h1 = wire::fed(wire::nothing(), a);
    let h2 = wire::fed(h1, b);
    assert(wire::sending(none) =~= Seq::<wire::Op>::empty());
    assert(wire::feed_frames(wire::nothing(), a) =~= none);
    assert(wire::feed_frames(h1, b) =~= none);
    let f = if a == b {
        frame::Frame::Run { n: 2, sample: a }
    } else {
        frame::Frame::Block(seq![a, b])
    };
    if a != b {
        assert(Seq::<u32>::empty().push(a).push(b) =~= seq![a, b]);
    }
    assert(wire::flush_frames(h2) =~= seq![f]);
    wire::law_frames_are_sent_in_order(none, f);
    assert(none.push(f) =~= seq![f]);
    assert(final(k3).history() =~= old(k1).history() + wire::framing(wire::frame_bytes(f)));
}

} // verus!
