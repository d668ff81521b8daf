//! All that a Pico puts on the wire, from the moment it starts.

use vstd::prelude::*;

use crate::firmware::session;
use crate::text;
use crate::wire::decoder;
use crate::wire::encoder;
use crate::wire::frame;
use crate::wire::stream;
use crate::wire::traffic;

verus! {

/// Something that happens to a session.
pub enum Step {
    Greet,
    Command { cmd: session::HostCmd, tx_dropped: u32, cap_dropped: u32 },
    Samples(Seq<u32>),
    Tick(session::Tick),
    Overrun(u32),
    EndRound(u64),
}

/// A session that just started.
pub open spec fn booted(now: u64) -> session::Live {
    session::Live {
        pending: encoder::idle(),
        state: session::StreamState::Stopped,
        idle_ticks: 0,
        window: session::TickWindow { last: now, t0: now, drained: 0, baseline: 0 },
    }
}

/// A LOG with the first line that a board says.
pub open spec fn greeting() -> frame::Frame {
    session::log_frame("aq-lcd-grab pico firmware booted, awaiting START"@)
}

/// A TICK.
pub open spec fn tick_frame(t: session::Tick) -> frame::Frame {
    frame::Frame::Tick {
        t_us: t.t_us,
        dt_us: t.dt_us,
        n_drained: t.n_drained,
        n_pending: t.n_pending,
        bytes_out: t.bytes_out,
    }
}

/// Whether samples are being sent.
pub open spec fn streaming(s: session::Live) -> bool {
    s.state == session::StreamState::Streaming
}

/// A frame outside the samples ends an open BLOCK.
pub open spec fn settled(s: session::Live) -> session::Live {
    session::Live { pending: encoder::Pending { open: false, ..s.pending }, ..s }
}

/// The session after a step.
pub open spec fn stepped(s: session::Live, step: Step) -> session::Live {
    match step {
        Step::Greet => settled(s),
        Step::Command { cmd, .. } => session::commanded(s, cmd),
        Step::Samples(raw) => if streaming(s) {
            session::Live {
                pending: encoder::after_feeding_all(s.pending, session::masked_all(raw)),
                ..s
            }
        } else {
            s
        },
        Step::Tick(_) => settled(s),
        Step::Overrun(dropped) => if streaming(s) && dropped > 0 {
            settled(s)
        } else {
            s
        },
        Step::EndRound(total) => session::rested(s, total),
    }
}

/// The bytes that a step puts on the wire.
pub open spec fn saying(s: session::Live, step: Step) -> Seq<u8> {
    match step {
        Step::Greet => encoder::interjecting(s.pending, greeting()),
        Step::Command { cmd, tx_dropped, cap_dropped } => session::commanding(
            s,
            cmd,
            tx_dropped,
            cap_dropped,
        ),
        Step::Samples(raw) => if streaming(s) {
            encoder::feeding_all(s.pending, session::masked_all(raw))
        } else {
            Seq::empty()
        },
        Step::Tick(t) => encoder::interjecting(s.pending, tick_frame(t)),
        Step::Overrun(dropped) => if streaming(s) && dropped > 0 {
            encoder::interjecting(s.pending, frame::Frame::Overrun { dropped })
        } else {
            Seq::empty()
        },
        Step::EndRound(total) => session::resting(s, total),
    }
}

/// The samples that a step sends.
pub open spec fn sending(s: session::Live, step: Step) -> Seq<u32> {
    match step {
        Step::Samples(raw) => if streaming(s) {
            session::masked_all(raw)
        } else {
            Seq::empty()
        },
        _ => Seq::empty(),
    }
}

/// The session after steps.
pub open spec fn lived(s: session::Live, steps: Seq<Step>) -> session::Live
    decreases steps.len(),
{
    if steps.len() == 0 {
        s
    } else {
        stepped(lived(s, steps.drop_last()), steps.last())
    }
}

/// The bytes that steps put on the wire.
pub open spec fn said(s: session::Live, steps: Seq<Step>) -> Seq<u8>
    decreases steps.len(),
{
    if steps.len() == 0 {
        Seq::empty()
    } else {
        said(s, steps.drop_last()) + saying(lived(s, steps.drop_last()), steps.last())
    }
}

/// The samples that steps send: those drained while streaming, with the noise
/// taken off.
pub open spec fn streamed(s: session::Live, steps: Seq<Step>) -> Seq<u32>
    decreases steps.len(),
{
    if steps.len() == 0 {
        Seq::empty()
    } else {
        streamed(s, steps.drop_last()) + sending(lived(s, steps.drop_last()), steps.last())
    }
}

/// A session that is stopped holds nothing back.
spec fn calm(s: session::Live) -> bool {
    !streaming(s) ==> s.pending == encoder::idle()
}

/// What a step asks of the encoder.
spec fn step_ops(s: session::Live, step: Step, ops: Seq<traffic::Op>) -> bool {
    &&& stepped(s, step).pending == traffic::after_ops(s.pending, ops)
    &&& saying(s, step) == traffic::ops_bytes(s.pending, ops)
    &&& sending(s, step) == traffic::fed_samples(ops)
    &&& forall|i: int| 0 <= i < ops.len() ==> traffic::fair(#[trigger] ops[i])
    &&& calm(stepped(s, step))
}

proof fn lemma_stats_plain(a: u32, b: u32)
    ensures
        text::plain(session::stats_text(a, b)),
        session::stats_text(a, b).len() <= 100,
{
    let head = "stats: tx_dropped="@;
    let mid = " cap_dropped="@;
    let x = text::decimal(a as nat);
    let y = text::decimal(b as nat);
    reveal_strlit("stats: tx_dropped=");
    reveal_strlit(" cap_dropped=");
    text::lemma_decimal_short(a as nat);
    text::lemma_decimal_short(b as nat);
    text::lemma_decimal_plain(a as nat);
    text::lemma_decimal_plain(b as nat);
    text::lemma_plain_concat(head, x);
    text::lemma_plain_concat(head + x, mid);
    text::lemma_plain_concat(head + x + mid, y);
}

proof fn lemma_lines_plain()
    ensures
        text::plain("ping"@) && "ping"@.len() == 4,
        text::plain("idle"@) && "idle"@.len() == 4,
        text::plain("aq-lcd-grab pico firmware booted, awaiting START"@),
        "aq-lcd-grab pico firmware booted, awaiting START"@.len() == 48,
{
    reveal_strlit("ping");
    reveal_strlit("idle");
    reveal_strlit("aq-lcd-grab pico firmware booted, awaiting START");
}

proof fn lemma_command(s: session::Live, cmd: session::HostCmd, a: u32, b: u32) -> (ops: Seq<
    traffic::Op,
>)
    requires
        calm(s),
    ensures
        step_ops(s, Step::Command { cmd, tx_dropped: a, cap_dropped: b }, ops),
{
    let p = s.pending;
    let f = match cmd {
        session::HostCmd::Start => frame::Frame::Started,
        session::HostCmd::Stop => frame::Frame::Stopped,
        session::HostCmd::LogTest => session::log_frame("ping"@),
        session::HostCmd::Stats => session::log_frame(session::stats_text(a, b)),
    };
    let send = traffic::Op::Send(f);
    lemma_lines_plain();
    traffic::lemma_plain_log("ping"@);
    lemma_stats_plain(a, b);
    traffic::lemma_plain_log(session::stats_text(a, b));
    traffic::lemma_one_op(p, send);
    assert(encoder::interjecting(encoder::idle(), f) =~= frame::frame_bytes(f));
    if cmd == session::HostCmd::Stop && streaming(s) {
        let flush = traffic::Op::Flush;
        traffic::lemma_one_op(p, flush);
        traffic::lemma_one_op(encoder::idle(), send);
        traffic::lemma_ops_concat(p, seq![flush], seq![send]);
        let ops = seq![flush] + seq![send];
        assert(sending(s, Step::Command { cmd, tx_dropped: a, cap_dropped: b })
            =~= traffic::fed_samples(ops));
        ops
    } else {
        assert(sending(s, Step::Command { cmd, tx_dropped: a, cap_dropped: b })
            =~= traffic::fed_samples(seq![send]));
        seq![send]
    }
}

proof fn lemma_end_round(s: session::Live, total: u64) -> (ops: Seq<traffic::Op>)
    requires
        calm(s),
    ensures
        step_ops(s, Step::EndRound(total), ops),
{
    let p = s.pending;
    let none = Seq::<traffic::Op>::empty();
    let flush = traffic::Op::Flush;
    let beat = traffic::Op::Send(session::log_frame("idle"@));
    lemma_lines_plain();
    traffic::lemma_plain_log("idle"@);
    let first = s.idle_ticks == 0 && streaming(s);
    let a = if total == 0 && first {
        seq![flush]
    } else {
        none
    };
    let b = if total == 0 && session::beats(s) {
        seq![beat]
    } else {
        none
    };
    let q = traffic::after_ops(p, a);
    traffic::lemma_one_op(p, flush);
    traffic::lemma_one_op(q, beat);
    traffic::lemma_ops_concat(p, a, b);
    let ops = a + b;
    assert(saying(s, Step::EndRound(total)) =~= traffic::ops_bytes(p, ops));
    assert(sending(s, Step::EndRound(total)) =~= traffic::fed_samples(ops));
    ops
}

proof fn lemma_step(s: session::Live, step: Step) -> (ops: Seq<traffic::Op>)
    requires
        calm(s),
    ensures
        step_ops(s, step, ops),
{
    let p = s.pending;
    let none = Seq::<traffic::Op>::empty();
    match step {
        Step::Greet => {
            let send = traffic::Op::Send(greeting());
            lemma_lines_plain();
            traffic::lemma_plain_log("aq-lcd-grab pico firmware booted, awaiting START"@);
            traffic::lemma_one_op(p, send);
            assert(sending(s, step) =~= traffic::fed_samples(seq![send]));
            seq![send]
        },
        Step::Command { cmd, tx_dropped, cap_dropped } => lemma_command(
            s,
            cmd,
            tx_dropped,
            cap_dropped,
        ),
        Step::Samples(raw) => {
            if streaming(s) {
                let all = session::masked_all(raw);
                traffic::lemma_feeds(p, all);
                let ops = traffic::feeds(all);
                assert forall|i: int| 0 <= i < ops.len() implies traffic::fair(
                    #[trigger] ops[i],
                ) by {
                    assert(all[i] == session::masked(raw[i]));
                }
                ops
            } else {
                assert(saying(s, step) =~= traffic::ops_bytes(p, none));
                assert(sending(s, step) =~= traffic::fed_samples(none));
                none
            }
        },
        Step::Tick(t) => {
            let send = traffic::Op::Send(tick_frame(t));
            traffic::lemma_one_op(p, send);
            assert(sending(s, step) =~= traffic::fed_samples(seq![send]));
            seq![send]
        },
        Step::Overrun(dropped) => {
            if streaming(s) && dropped > 0 {
                let send = traffic::Op::Send(frame::Frame::Overrun { dropped });
                traffic::lemma_one_op(p, send);
                assert(sending(s, step) =~= traffic::fed_samples(seq![send]));
                seq![send]
            } else {
                assert(saying(s, step) =~= traffic::ops_bytes(p, none));
                assert(sending(s, step) =~= traffic::fed_samples(none));
                none
            }
        },
        Step::EndRound(total) => lemma_end_round(s, total),
    }
}

proof fn lemma_life(now: u64, steps: Seq<Step>) -> (ops: Seq<traffic::Op>)
    ensures
        calm(lived(booted(now), steps)),
        lived(booted(now), steps).pending == traffic::after_ops(encoder::idle(), ops),
        said(booted(now), steps) == traffic::ops_bytes(encoder::idle(), ops),
        streamed(booted(now), steps) == traffic::fed_samples(ops),
        forall|i: int| 0 <= i < ops.len() ==> traffic::fair(#[trigger] ops[i]),
    decreases steps.len(),
{
    let idle = encoder::idle();
    if steps.len() == 0 {
        let none = Seq::<traffic::Op>::empty();
        assert(said(booted(now), steps) =~= traffic::ops_bytes(idle, none));
        assert(streamed(booted(now), steps) =~= traffic::fed_samples(none));
        none
    } else {
        let before = steps.drop_last();
        let s = lived(booted(now), before);
        let a = lemma_life(now, before);
        let b = lemma_step(s, steps.last());
        traffic::lemma_ops_concat(idle, a, b);
        let ops = a + b;
        assert forall|i: int| 0 <= i < ops.len() implies traffic::fair(#[trigger] ops[i]) by {
            if i < a.len() {
                assert(ops[i] == a[i]);
            } else {
                assert(ops[i] == b[i - a.len()]);
            }
        }
        ops
    }
}

/// From the moment a board starts, whatever happens to it and in whatever order,
/// a reader of its wire gets all samples that were drained while streaming, and no
/// others, in order: no command, tick, overrun, heartbeat or quiet round costs one.
pub proof fn law_everything_streamed_arrives(now: u64, steps: Seq<Step>)
    ensures
        ({
            let s = lived(booted(now), steps);
            let o = decoder::fed(
                Seq::empty(),
                said(booted(now), steps) + encoder::flushing(s.pending),
            );
            &&& o.error is None
            &&& o.held == Seq::<u8>::empty()
            &&& traffic::samples_among(stream::items(o.events)) == streamed(booted(now), steps)
        }),
{
    let ops = lemma_life(now, steps);
    traffic::law_traffic_is_delivered(ops);
}

} // verus!
