//! All that an STM32 puts on the wire, from the moment it starts.

use vstd::prelude::*;

use crate::firmware_stm32::session;
use crate::text;
use crate::wire::decoder;
use crate::wire::encoder;
use crate::wire::frame;
use crate::wire::stream;
use crate::wire::traffic;

verus! {

/// Something that happens to a session.
pub enum Step {
    Greet,
    Command { cmd: session::HostCmd, cap_dropped: u32 },
    Samples(Seq<u32>),
    EndBurst { dropped: u32, now: u64 },
    Idle { now: u64, cnt: u16, pa_ndtr: u16, pb_ndtr: u16 },
    Report { now: u64, cap_dropped: u32 },
    TransferErrors { pa: bool, pb: bool },
}

/// A session that just started.
pub open spec fn booted(now: u64) -> session::Live {
    session::Live {
        pending: encoder::idle(),
        state: session::StreamState::Stopped,
        last_idle_log: now,
        last_stats: now,
        pa_teif: 0,
        pb_teif: 0,
    }
}

/// A LOG with the first line that a board says.
pub open spec fn greeting() -> frame::Frame {
    session::log_frame("aq-lcd-grab stm32 firmware booted, awaiting START"@)
}

/// Whether samples are being sent.
pub open spec fn streaming(s: session::Live) -> bool {
    s.state == session::StreamState::Streaming
}

/// The session after a step.
pub open spec fn stepped(s: session::Live, step: Step) -> session::Live {
    match step {
        Step::Greet => session::settled(s),
        Step::Command { cmd, .. } => session::commanded(s, cmd),
        Step::Samples(samples) => if streaming(s) {
            session::Live { pending: encoder::after_feeding_all(s.pending, samples), ..s }
        } else {
            s
        },
        Step::EndBurst { dropped, now } => session::Live {
            last_idle_log: now,
            ..if dropped > 0 {
                session::settled(s)
            } else {
                s
            }
        },
        Step::Idle { now, .. } => session::Live {
            pending: encoder::idle(),
            last_idle_log: if session::due(s.last_idle_log, now) {
                now
            } else {
                s.last_idle_log
            },
            ..s
        },
        Step::Report { now, .. } => if session::due(s.last_stats, now) {
            session::Live { last_stats: now, ..session::settled(s) }
        } else {
            s
        },
        Step::TransferErrors { pa, pb } => session::Live {
            pa_teif: session::counted(s.pa_teif, pa),
            pb_teif: session::counted(s.pb_teif, pb),
            ..s
        },
    }
}

/// The bytes that a step puts on the wire.
pub open spec fn saying(s: session::Live, step: Step) -> Seq<u8> {
    match step {
        Step::Greet => encoder::interjecting(s.pending, greeting()),
        Step::Command { cmd, cap_dropped } => session::commanding(s, cmd, cap_dropped),
        Step::Samples(samples) => if streaming(s) {
            encoder::feeding_all(s.pending, samples)
        } else {
            Seq::empty()
        },
        Step::EndBurst { dropped, .. } => if dropped > 0 {
            encoder::interjecting(s.pending, frame::Frame::Overrun { dropped })
        } else {
            Seq::empty()
        },
        Step::Idle { now, cnt, pa_ndtr, pb_ndtr } => if session::due(s.last_idle_log, now) {
            encoder::flushing(s.pending) + frame::frame_bytes(
                session::log_frame(session::idle_text(cnt, pa_ndtr, pb_ndtr)),
            )
        } else {
            encoder::flushing(s.pending)
        },
        Step::Report { now, cap_dropped } => if session::due(s.last_stats, now) {
            encoder::interjecting(
                s.pending,
                session::log_frame(session::stats_text(cap_dropped, s.pa_teif, s.pb_teif)),
            )
        } else {
            Seq::empty()
        },
        Step::TransferErrors { .. } => Seq::empty(),
    }
}

/// The samples that a step sends.
pub open spec fn sending(s: session::Live, step: Step) -> Seq<u32> {
    match step {
        Step::Samples(samples) => if streaming(s) {
            samples
        } else {
            Seq::empty()
        },
        _ => Seq::empty(),
    }
}

/// The session after steps.
pub open spec fn lived(s: session::Live, steps: Seq<Step>) -> session::Live
    decreases steps.len(),
{
    if steps.len() == 0 {
        s
    } else {
        stepped(lived(s, steps.drop_last()), steps.last())
    }
}

/// The bytes that steps put on the wire.
pub open spec fn said(s: session::Live, steps: Seq<Step>) -> Seq<u8>
    decreases steps.len(),
{
    if steps.len() == 0 {
        Seq::empty()
    } else {
        said(s, steps.drop_last()) + saying(lived(s, steps.drop_last()), steps.last())
    }
}

/// The samples that steps send: those drained while streaming.
pub open spec fn streamed(s: session::Live, steps: Seq<Step>) -> Seq<u32>
    decreases steps.len(),
{
    if steps.len() == 0 {
        Seq::empty()
    } else {
        streamed(s, steps.drop_last()) + sending(lived(s, steps.drop_last()), steps.last())
    }
}

/// Samples as the capture rings give them: none is the word that ends a BLOCK.
pub open spec fn captured(step: Step) -> bool {
    step matches Step::Samples(samples) ==> !samples.contains(frame::BLOCK_SENTINEL)
}

/// A session that is stopped holds nothing back.
spec fn calm(s: session::Live) -> bool {
    !streaming(s) ==> s.pending == encoder::idle()
}

/// What a step asks of the encoder.
spec fn step_ops(s: session::Live, step: Step, ops: Seq<traffic::Op>) -> bool {
    &&& stepped(s, step).pending == traffic::after_ops(s.pending, ops)
    &&& saying(s, step) == traffic::ops_bytes(s.pending, ops)
    &&& sending(s, step) == traffic::fed_samples(ops)
    &&& forall|i: int| 0 <= i < ops.len() ==> traffic::fair(#[trigger] ops[i])
    &&& calm(stepped(s, step))
}

proof fn lemma_hex4(n: u16)
    ensures
        text::plain(session::hex4(n)),
        session::hex4(n).len() == 4,
{
    reveal_with_fuel(vstd::arithmetic::power::pow, 5);
    assert(vstd::arithmetic::power::pow(16, 4) == 65536);
    text::lemma_hex_plain(n as nat, 4);
}

proof fn lemma_hex8(n: u32)
    ensures
        text::plain(session::hex8(n)),
        session::hex8(n).len() == 8,
{
    reveal_with_fuel(vstd::arithmetic::power::pow, 9);
    assert(vstd::arithmetic::power::pow(16, 8) == 0x1_0000_0000);
    text::lemma_hex_plain(n as nat, 8);
}

proof fn lemma_stats_log(a: u32, b: u32, c: u32)
    ensures
        traffic::fair(traffic::Op::Send(session::log_frame(session::stats_text(a, b, c)))),
{
    reveal_strlit("stats: cap_dropped=");
    reveal_strlit(" pa_teif=");
    reveal_strlit(" pb_teif=");
    lemma_hex8(a);
    lemma_hex8(b);
    lemma_hex8(c);
    let t1 = "stats: cap_dropped="@ + session::hex8(a);
    let t2 = t1 + " pa_teif="@;
    let t3 = t2 + session::hex8(b);
    let t4 = t3 + " pb_teif="@;
    text::lemma_plain_concat("stats: cap_dropped="@, session::hex8(a));
    text::lemma_plain_concat(t1, " pa_teif="@);
    text::lemma_plain_concat(t2, session::hex8(b));
    text::lemma_plain_concat(t3, " pb_teif="@);
    text::lemma_plain_concat(t4, session::hex8(c));
    traffic::lemma_plain_log(session::stats_text(a, b, c));
}

proof fn lemma_idle_log(a: u16, b: u16, c: u16)
    ensures
        traffic::fair(traffic::Op::Send(session::log_frame(session::idle_text(a, b, c)))),
{
    reveal_strlit("cnt=");
    reveal_strlit(" pa_ndtr=");
    reveal_strlit(" pb_ndtr=");
    lemma_hex4(a);
    lemma_hex4(b);
    lemma_hex4(c);
    let t1 = "cnt="@ + session::hex4(a);
    let t2 = t1 + " pa_ndtr="@;
    let t3 = t2 + session::hex4(b);
    let t4 = t3 + " pb_ndtr="@;
    text::lemma_plain_concat("cnt="@, session::hex4(a));
    text::lemma_plain_concat(t1, " pa_ndtr="@);
    text::lemma_plain_concat(t2, session::hex4(b));
    text::lemma_plain_concat(t3, " pb_ndtr="@);
    text::lemma_plain_concat(t4, session::hex4(c));
    traffic::lemma_plain_log(session::idle_text(a, b, c));
}

/// A step that sends one frame.
proof fn lemma_one_frame(s: session::Live, step: Step, f: frame::Frame) -> (ops: Seq<traffic::Op>)
    requires
        calm(s),
        traffic::fair(traffic::Op::Send(f)),
        saying(s, step) == encoder::interjecting(s.pending, f),
        stepped(s, step).pending == (encoder::Pending { open: false, ..s.pending }),
        streaming(s) ==> streaming(stepped(s, step)),
        sending(s, step) == Seq::<u32>::empty(),
    ensures
        step_ops(s, step, ops),
{
    let send = traffic::Op::Send(f);
    traffic::lemma_one_op(s.pending, send);
    seq![send]
}

/// A step that sends nothing.
proof fn lemma_no_frame(s: session::Live, step: Step) -> (ops: Seq<traffic::Op>)
    requires
        calm(s),
        saying(s, step) == Seq::<u8>::empty(),
        stepped(s, step).pending == s.pending,
        streaming(s) ==> streaming(stepped(s, step)),
        sending(s, step) == Seq::<u32>::empty(),
    ensures
        step_ops(s, step, ops),
{
    let none = Seq::<traffic::Op>::empty();
    assert(traffic::ops_bytes(s.pending, none) =~= Seq::<u8>::empty());
    assert(traffic::fed_samples(none) =~= Seq::<u32>::empty());
    none
}

/// A step that flushes, and may send one frame after that.
proof fn lemma_flush_frame(s: session::Live, step: Step, f: Option<frame::Frame>) -> (ops: Seq<
    traffic::Op,
>)
    requires
        f matches Some(f) ==> traffic::fair(traffic::Op::Send(f)),
        saying(s, step) == match f {
            Some(f) => encoder::flushing(s.pending) + frame::frame_bytes(f),
            None => encoder::flushing(s.pending),
        },
        stepped(s, step).pending == encoder::idle(),
        sending(s, step) == Seq::<u32>::empty(),
    ensures
        step_ops(s, step, ops),
{
    let flush = traffic::Op::Flush;
    traffic::lemma_one_op(s.pending, flush);
    match f {
        Some(f) => {
            let send = traffic::Op::Send(f);
            traffic::lemma_one_op(encoder::idle(), send);
            traffic::lemma_ops_concat(s.pending, seq![flush], seq![send]);
            assert(encoder::interjecting(encoder::idle(), f) =~= frame::frame_bytes(f));
            let ops = seq![flush] + seq![send];
            assert(traffic::fed_samples(ops) =~= Seq::<u32>::empty());
            ops
        },
        None => seq![flush],
    }
}

proof fn lemma_command(s: session::Live, cmd: session::HostCmd, dropped: u32) -> (ops: Seq<
    traffic::Op,
>)
    requires
        calm(s),
    ensures
        step_ops(s, Step::Command { cmd, cap_dropped: dropped }, ops),
{
    let step = Step::Command { cmd, cap_dropped: dropped };
    reveal_strlit("ping");
    traffic::lemma_plain_log("ping"@);
    lemma_stats_log(dropped, s.pa_teif, s.pb_teif);
    let f = match cmd {
        session::HostCmd::Start => frame::Frame::Started,
        session::HostCmd::Stop => frame::Frame::Stopped,
        session::HostCmd::LogTest => session::log_frame("ping"@),
        session::HostCmd::Stats => session::log_frame(
            session::stats_text(dropped, s.pa_teif, s.pb_teif),
        ),
    };
    assert(sending(s, step) =~= Seq::<u32>::empty());
    if cmd == session::HostCmd::Stop && streaming(s) {
        lemma_flush_frame(s, step, Some(f))
    } else {
        let send = traffic::Op::Send(f);
        traffic::lemma_one_op(s.pending, send);
        assert(encoder::interjecting(encoder::idle(), f) =~= frame::frame_bytes(f));
        seq![send]
    }
}

proof fn lemma_step(s: session::Live, step: Step) -> (ops: Seq<traffic::Op>)
    requires
        calm(s),
        captured(step),
    ensures
        step_ops(s, step, ops),
{
    match step {
        Step::Greet => {
            let line = "aq-lcd-grab stm32 firmware booted, awaiting START"@;
            reveal_strlit("aq-lcd-grab stm32 firmware booted, awaiting START");
            traffic::lemma_plain_log(line);
            lemma_one_frame(s, step, greeting())
        },
        Step::Command { cmd, cap_dropped } => lemma_command(s, cmd, cap_dropped),
        Step::Samples(samples) => {
            if streaming(s) {
                traffic::lemma_feeds(s.pending, samples);
                let ops = traffic::feeds(samples);
                assert forall|i: int| 0 <= i < ops.len() implies traffic::fair(
                    #[trigger] ops[i],
                ) by {
                    assert(samples.contains(samples[i]));
                }
                ops
            } else {
                lemma_no_frame(s, step)
            }
        },
        Step::EndBurst { dropped, .. } => {
            if dropped > 0 {
                lemma_one_frame(s, step, frame::Frame::Overrun { dropped })
            } else {
                lemma_no_frame(s, step)
            }
        },
        Step::Idle { now, cnt, pa_ndtr, pb_ndtr } => {
            lemma_idle_log(cnt, pa_ndtr, pb_ndtr);
            if session::due(s.last_idle_log, now) {
                let f = session::log_frame(session::idle_text(cnt, pa_ndtr, pb_ndtr));
                lemma_flush_frame(s, step, Some(f))
            } else {
                lemma_flush_frame(s, step, None)
            }
        },
        Step::Report { now, cap_dropped } => {
            lemma_stats_log(cap_dropped, s.pa_teif, s.pb_teif);
            if session::due(s.last_stats, now) {
                let t = session::stats_text(cap_dropped, s.pa_teif, s.pb_teif);
                lemma_one_frame(s, step, session::log_frame(t))
            } else {
                lemma_no_frame(s, step)
            }
        },
        Step::TransferErrors { .. } => lemma_no_frame(s, step),
    }
}

proof fn lemma_life(now: u64, steps: Seq<Step>) -> (ops: Seq<traffic::Op>)
    requires
        forall|i: int| 0 <= i < steps.len() ==> captured(#[trigger] steps[i]),
    ensures
        calm(lived(booted(now), steps)),
        lived(booted(now), steps).pending == traffic::after_ops(encoder::idle(), ops),
        said(booted(now), steps) == traffic::ops_bytes(encoder::idle(), ops),
        streamed(booted(now), steps) == traffic::fed_samples(ops),
        forall|i: int| 0 <= i < ops.len() ==> traffic::fair(#[trigger] ops[i]),
    decreases steps.len(),
{
    let idle = encoder::idle();
    if steps.len() == 0 {
        let none = Seq::<traffic::Op>::empty();
        assert(said(booted(now), steps) =~= traffic::ops_bytes(idle, none));
        assert(streamed(booted(now), steps) =~= traffic::fed_samples(none));
        none
    } else {
        let before = steps.drop_last();
        assert forall|i: int| 0 <= i < before.len() implies captured(#[trigger] before[i]) by {
            assert(before[i] == steps[i]);
        }
        assert(captured(steps[steps.len() - 1]));
        let s = lived(booted(now), before);
        let a = lemma_life(now, before);
        let b = lemma_step(s, steps.last());
        traffic::lemma_ops_concat(idle, a, b);
        let ops = a + b;
        assert forall|i: int| 0 <= i < ops.len() implies traffic::fair(#[trigger] ops[i]) by {
            if i < a.len() {
                assert(ops[i] == a[i]);
            } else {
                assert(ops[i] == b[i - a.len()]);
            }
        }
        ops
    }
}

/// From the moment a board starts, whatever happens to it and in whatever order,
/// a reader of its wire gets all samples that were drained while streaming, and no
/// others, in order: no command, overrun, diagnostic line or quiet round costs one.
pub proof fn law_everything_streamed_arrives(now: u64, steps: Seq<Step>)
    requires
        forall|i: int| 0 <= i < steps.len() ==> captured(#[trigger] steps[i]),
    ensures
        ({
            let s = lived(booted(now), steps);
            let o = decoder::fed(
                Seq::empty(),
                said(booted(now), steps) + encoder::flushing(s.pending),
            );
            &&& o.error is None
            &&& o.held == Seq::<u8>::empty()
            &&& traffic::samples_among(stream::items(o.events)) == streamed(booted(now), steps)
        }),
{
    let ops = lemma_life(now, steps);
    traffic::law_traffic_is_delivered(ops);
}

} // verus!
