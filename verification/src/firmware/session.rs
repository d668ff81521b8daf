//! The capture session of the Pico: host commands, samples, ticks and idle time.
//!
//! The board polls its capture ring. Whoever runs the loop hands in what was
//! drained and what time it is; this module decides what goes on the wire.

use vstd::prelude::*;

use crate::bytes;
use crate::fixed;
use crate::text;
use crate::wire::decoder;
use crate::wire::encoder;
use crate::wire::encoder::Encoder;
use crate::wire::frame;
use crate::wire::round_trip;
use crate::wire::sink::Sink;
use crate::wire::stream;
use crate::wire::{HOST_CMD_LOG_TEST, HOST_CMD_START, HOST_CMD_STATS, HOST_CMD_STOP};

verus! {

/// Microseconds between two ticks.
pub const TICK_INTERVAL_US: u64 = 10_000;

/// Idle rounds between two heartbeats.
pub const HEARTBEAT_TICKS: u32 = 2500;

#[derive(Copy, Clone, Debug, PartialEq, Eq, Structural)]
pub enum StreamState {
    Stopped,
    Streaming,
}

#[derive(Copy, Clone, Debug, PartialEq, Eq, Structural)]
pub enum HostCmd {
    Start,
    Stop,
    LogTest,
    Stats,
}

/// The command that a byte stands for; other bytes are ignored.
pub open spec fn command_of(b: u8) -> Option<HostCmd> {
    if b == HOST_CMD_START {
        Some(HostCmd::Start)
    } else if b == HOST_CMD_STOP {
        Some(HostCmd::Stop)
    } else if b == HOST_CMD_LOG_TEST {
        Some(HostCmd::LogTest)
    } else if b == HOST_CMD_STATS {
        Some(HostCmd::Stats)
    } else {
        None
    }
}

/// The command that a byte stands for; other bytes are ignored.
pub fn parse_host_cmd(b: u8) -> (cmd: Option<HostCmd>)
    ensures
        cmd == command_of(b),
{
    if b == HOST_CMD_START {
        Some(HostCmd::Start)
    } else if b == HOST_CMD_STOP {
        Some(HostCmd::Stop)
    } else if b == HOST_CMD_LOG_TEST {
        Some(HostCmd::LogTest)
    } else if b == HOST_CMD_STATS {
        Some(HostCmd::Stats)
    } else {
        None
    }
}

/// The 18 bits of a raw sample that carry signals: 16 data lines, CS and DC.
pub open spec fn masked(raw: u32) -> u32 {
    raw % 0x4_0000
}

/// Samples with the noise above bit 17 taken off.
pub open spec fn masked_all(raw: Seq<u32>) -> Seq<u32> {
    raw.map_values(|r: u32| masked(r))
}

/// The counters in one line.
pub open spec fn stats_text(tx_dropped: u32, cap_dropped: u32) -> Seq<char> {
    "stats: tx_dropped="@ + text::decimal(tx_dropped as nat) + " cap_dropped="@ + text::decimal(
        cap_dropped as nat,
    )
}

/// A LOG with a text.
pub open spec fn log_frame(text: Seq<char>) -> frame::Frame {
    frame::Frame::Log(vstd::utf8::encode_utf8(text))
}

/// What a tick reports.
#[derive(Clone, Copy, Debug)]
pub struct Tick {
    pub t_us: u32,
    pub dt_us: u16,
    pub n_drained: u16,
    pub n_pending: u16,
    pub bytes_out: u32,
}

/// What to do about the tick window.
#[derive(Clone, Copy, Debug)]
pub enum TickAction {
    /// It is still open.
    Wait,
    /// It starts over, and there is nothing to report.
    Rebase,
    /// It starts over after this report.
    Send(Tick),
}

/// The tick window: when the last one ended and this one began, samples drained
/// in it, and how many bytes had been sent when it began.
pub struct TickWindow {
    pub last: u64,
    pub t0: u64,
    pub drained: u64,
    pub baseline: u32,
}

/// A count in 16 bits, at most the largest.
pub open spec fn capped16(n: int) -> u16 {
    if n > 65535 {
        65535
    } else {
        n as u16
    }
}

/// The difference of two 32-bit counters that wrap.
pub open spec fn counter_delta(now: u32, before: u32) -> u32 {
    if now >= before {
        (now - before) as u32
    } else {
        (now + 0x1_0000_0000 - before) as u32
    }
}

/// The samples drained in a window, with `total` more; the sum stays at the
/// largest `u64`.
pub open spec fn drained_with(w: TickWindow, total: u64) -> u64 {
    if w.drained + total > u64::MAX {
        u64::MAX
    } else {
        (w.drained + total) as u64
    }
}

/// The report of a window that ends now.
pub open spec fn report(w: TickWindow, now: u64, total: u64, pending: u32, bytes_now: u32) -> Tick {
    Tick {
        t_us: (w.t0 % 0x1_0000_0000) as u32,
        dt_us: capped16(now - w.t0),
        n_drained: capped16(drained_with(w, total) as int),
        n_pending: capped16(pending as int),
        bytes_out: counter_delta(bytes_now, w.baseline),
    }
}

/// Whether a report says anything: nothing is reported of a quiet window.
pub open spec fn worth_telling(t: Tick) -> bool {
    t.n_drained > 0 || t.n_pending > 0 || t.bytes_out > 0
}

/// What a session remembers.
pub struct Live {
    pub pending: encoder::Pending,
    pub state: StreamState,
    pub idle_ticks: u32,
    pub window: TickWindow,
}

/// The session after a command.
pub open spec fn commanded(s: Live, cmd: HostCmd) -> Live {
    let settled = encoder::Pending { open: false, ..s.pending };
    match cmd {
        HostCmd::Start => if s.state == StreamState::Stopped {
            Live { state: StreamState::Streaming, pending: encoder::idle(), ..s }
        } else {
            Live { pending: settled, ..s }
        },
        HostCmd::Stop => if s.state == StreamState::Streaming {
            Live { state: StreamState::Stopped, pending: encoder::idle(), ..s }
        } else {
            Live { pending: settled, ..s }
        },
        _ => Live { pending: settled, ..s },
    }
}

/// The bytes that a command puts on the wire. START and STOP are acknowledged
/// whatever the state.
pub open spec fn commanding(s: Live, cmd: HostCmd, tx_dropped: u32, cap_dropped: u32) -> Seq<u8> {
    match cmd {
        HostCmd::Start => if s.state == StreamState::Stopped {
            frame::frame_bytes(frame::Frame::Started)
        } else {
            encoder::interjecting(s.pending, frame::Frame::Started)
        },
        HostCmd::Stop => if s.state == StreamState::Streaming {
            encoder::flushing(s.pending) + frame::frame_bytes(frame::Frame::Stopped)
        } else {
            encoder::interjecting(s.pending, frame::Frame::Stopped)
        },
        HostCmd::LogTest => encoder::interjecting(s.pending, log_frame("ping"@)),
        HostCmd::Stats => encoder::interjecting(
            s.pending,
            log_frame(stats_text(tx_dropped, cap_dropped)),
        ),
    }
}

/// The session after a round that drained `total` samples: the first quiet round
/// flushes, and every so many quiet rounds there is a heartbeat.
pub open spec fn rested(s: Live, total: u64) -> Live {
    if total > 0 {
        Live { idle_ticks: 0, ..s }
    } else {
        let ticks = ((s.idle_ticks + 1) % 0x1_0000_0000) as u32;
        let flushed = if s.idle_ticks == 0 && s.state == StreamState::Streaming {
            encoder::idle()
        } else {
            s.pending
        };
        let beaten = if beats(s) {
            encoder::Pending { open: false, ..flushed }
        } else {
            flushed
        };
        Live { idle_ticks: ticks, pending: beaten, ..s }
    }
}

/// Whether a quiet round brings a heartbeat.
pub open spec fn beats(s: Live) -> bool {
    ((s.idle_ticks + 1) % 0x1_0000_0000) % (HEARTBEAT_TICKS as int) == 0 && s.state
        == StreamState::Streaming
}

/// Whether a round sends what is held back: the first quiet one does. It is never
/// one with a heartbeat.
pub open spec fn flushes(s: Live, total: u64) -> bool {
    total == 0 && s.idle_ticks == 0 && s.state == StreamState::Streaming
}

/// The bytes that a quiet round puts on the wire.
pub open spec fn resting(s: Live, total: u64) -> Seq<u8> {
    if total > 0 {
        Seq::empty()
    } else {
        let (out, open) = if s.idle_ticks == 0 && s.state == StreamState::Streaming {
            (encoder::flushing(s.pending), false)
        } else {
            (Seq::empty(), s.pending.open)
        };
        if beats(s) {
            out + encoder::closing(open) + frame::frame_bytes(log_frame("idle"@))
        } else {
            out
        }
    }
}

pub struct Session {
    encoder: Encoder,
    state: StreamState,
    idle_ticks: u32,
    last_tick: u64,
    tick_t0: u64,
    tick_drained: u64,
    bytes_baseline: u32,
}

impl View for Session {
    type V = Live;

    closed spec fn view(&self) -> Live {
        Live {
            pending: self.encoder@,
            state: self.state,
            idle_ticks: self.idle_ticks,
            window: TickWindow {
                last: self.last_tick,
                t0: self.tick_t0,
                drained: self.tick_drained,
                baseline: self.bytes_baseline,
            },
        }
    }
}

/// The counters in one line, in a text of fixed capacity.
fn format_stats(tx_dropped: u32, cap_dropped: u32) -> (msg: heapless::String<64>)
    ensures
        fixed::text64(msg) == stats_text(tx_dropped, cap_dropped),
{
    let mut msg = fixed::text64_new();
    let mut a: String = String::new();
    text::push_decimal(&mut a, tx_dropped as u64);
    let mut b: String = String::new();
    text::push_decimal(&mut b, cap_dropped as u64);
    proof {
        let none = Seq::<char>::empty();
        let head = "stats: tx_dropped="@;
        let mid = " cap_dropped="@;
        reveal_strlit("stats: tx_dropped=");
        reveal_strlit(" cap_dropped=");
        text::lemma_decimal_short(tx_dropped as nat);
        text::lemma_decimal_short(cap_dropped as nat);
        assert(a@ =~= text::decimal(tx_dropped as nat));
        assert(b@ =~= text::decimal(cap_dropped as nat));
        assert(none + head =~= head);
        text::lemma_ascii_len(none);
        text::lemma_ascii_len(head);
        text::lemma_ascii_len(a@);
        text::lemma_ascii_len(head + a@);
        text::lemma_ascii_len(mid);
        text::lemma_ascii_len(head + a@ + mid);
        text::lemma_ascii_len(b@);
    }
    let _ = fixed::text64_push_str(&mut msg, "stats: tx_dropped=");
    let _ = fixed::text64_push_str(&mut msg, a.as_str());
    let _ = fixed::text64_push_str(&mut msg, " cap_dropped=");
    let _ = fixed::text64_push_str(&mut msg, b.as_str());
    msg
}

impl Session {
    pub closed spec fn wf(&self) -> bool {
        self.encoder.wf()
    }

    /// A session that is stopped, at a time in microseconds.
    pub fn new(now: u64) -> (session: Self)
        ensures
            session.wf(),
            session@ == (Live {
                pending: encoder::idle(),
                state: StreamState::Stopped,
                idle_ticks: 0,
                window: TickWindow { last: now, t0: now, drained: 0, baseline: 0 },
            }),
    {
        Session {
            encoder: Encoder::default(),
            state: StreamState::Stopped,
            idle_ticks: 0,
            last_tick: now,
            tick_t0: now,
            tick_drained: 0,
            bytes_baseline: 0,
        }
    }

    /// The line that a board says when it starts.
    pub fn greet<S: Sink>(&mut self, sink: &mut S)
        requires
            old(self).wf(),
        ensures
            final(self).wf(),
            final(self)@ == (Live {
                pending: encoder::Pending { open: false, ..old(self)@.pending },
                ..old(self)@
            }),
            final(sink).offered() == old(sink).offered() + encoder::interjecting(
                old(self)@.pending,
                log_frame("aq-lcd-grab pico firmware booted, awaiting START"@),
            ),
    {
        self.encoder.log("aq-lcd-grab pico firmware booted, awaiting START", sink);
    }

    /// Whether samples are being sent.
    pub fn is_streaming(&self) -> (streaming: bool)
        ensures
            streaming == (self@.state == StreamState::Streaming),
    {
        self.state == StreamState::Streaming
    }

    /// Carries out a command of the host. The counters are for [`HostCmd::Stats`].
    pub fn on_command<S: Sink>(
        &mut self,
        cmd: HostCmd,
        tx_dropped: u32,
        cap_dropped: u32,
        sink: &mut S,
    )
        requires
            old(self).wf(),
        ensures
            final(self).wf(),
            final(self)@ == commanded(old(self)@, cmd),
            final(sink).offered() == old(sink).offered() + commanding(
                old(self)@,
                cmd,
                tx_dropped,
                cap_dropped,
            ),
            cmd == HostCmd::Stop && old(self)@.state == StreamState::Streaming
                ==> final(sink).flushed() >= old(sink).offered().len() + encoder::flushing(
                old(self)@.pending,
            ).len(),
    {
        match cmd {
            HostCmd::Start => {
                if self.state == StreamState::Stopped {
                    self.encoder.reset();
                    self.state = StreamState::Streaming;
                }
                let ghost before = self.encoder@;
                self.encoder.started(sink);
                proof {
                    let f = frame::Frame::Started;
                    if old(self)@.state == StreamState::Stopped {
                        assert(encoder::interjecting(before, f) =~= frame::frame_bytes(f));
                    }
                }
            },
            HostCmd::Stop => {
                if self.state == StreamState::Streaming {
                    self.encoder.flush(sink);
                    self.state = StreamState::Stopped;
                }
                let ghost before = self.encoder@;
                self.encoder.stopped(sink);
                proof {
                    let f = frame::Frame::Stopped;
                    if old(self)@.state == StreamState::Streaming {
                        assert(encoder::interjecting(before, f) =~= frame::frame_bytes(f));
                        assert(sink.offered() =~= old(sink).offered() + commanding(
                            old(self)@,
                            cmd,
                            tx_dropped,
                            cap_dropped,
                        ));
                    }
                }
            },
            HostCmd::LogTest => {
                self.encoder.log("ping", sink);
            },
            HostCmd::Stats => {
                let msg = format_stats(tx_dropped, cap_dropped);
                self.encoder.log(fixed::text64_str(&msg), sink);
            },
        }
    }

    /// Takes samples off the ring. They are sent only while streaming.
    pub fn on_samples<S: Sink>(&mut self, raw: &[u32], sink: &mut S)
        requires
            old(self).wf(),
        ensures
            final(self).wf(),
            final(self)@ == (Live {
                pending: if old(self)@.state == StreamState::Streaming {
                    encoder::after_feeding_all(old(self)@.pending, masked_all(raw@))
                } else {
                    old(self)@.pending
                },
                ..old(self)@
            }),
            final(sink).offered() == if old(self)@.state == StreamState::Streaming {
                old(sink).offered() + encoder::feeding_all(old(self)@.pending, masked_all(raw@))
            } else {
                old(sink).offered()
            },
    {
        if self.state != StreamState::Streaming {
            return;
        }
        let mut i: usize = 0;
        let ghost p = self.encoder@;
        let ghost all = masked_all(raw@);
        assert(all.take(0) =~= Seq::<u32>::empty());
        assert(sink.offered() + Seq::<u8>::empty() =~= sink.offered());
        while i < raw.len()
            invariant
                i <= raw.len(),
                self.wf(),
                p == old(self)@.pending,
                all == masked_all(raw@),
                self@ == (Live {
                    pending: encoder::after_feeding_all(p, all.take(i as int)),
                    ..old(self)@
                }),
                sink.offered() == old(sink).offered() + encoder::feeding_all(
                    p,
                    all.take(i as int),
                ),
            decreases raw.len() - i,
        {
            self.encoder.feed(raw[i] % 0x4_0000, sink);
            proof {
                assert(all.take(i + 1).drop_last() =~= all.take(i as int));
                assert(all.take(i + 1).last() == masked(raw@[i as int]));
                assert(sink.offered() =~= old(sink).offered() + encoder::feeding_all(
                    p,
                    all.take(i + 1),
                ));
            }
            i += 1;
        }
        assert(all.take(i as int) =~= all);
    }

    /// After all samples of a round: what was sent is passed on. A run in progress
    /// stays, so that a uniform fill over many rounds makes one run.
    pub fn end_drain<S: Sink>(&self, total: u64, sink: &mut S)
        ensures
            final(sink).offered() == old(sink).offered(),
            total > 0 && self@.state == StreamState::Streaming ==> final(sink).flushed()
                == old(sink).offered().len(),
            !(total > 0 && self@.state == StreamState::Streaming) ==> *final(sink) == *old(sink),
    {
        if total > 0 && self.state == StreamState::Streaming {
            sink.flush();
        }
    }

    /// Accounts for a round in the tick window. While stopped the window is kept
    /// at the current time.
    pub fn tick(&mut self, now: u64, total: u64, pending: u32, bytes_now: u32) -> (action:
        TickAction)
        requires
            old(self).wf(),
            old(self)@.window.last <= now,
            old(self)@.window.t0 <= now,
        ensures
            final(self).wf(),
            ({
                let w = old(self)@.window;
                let due = now - w.last >= TICK_INTERVAL_US;
                if old(self)@.state == StreamState::Stopped {
                    &&& action is Rebase
                    &&& final(self)@ == (Live {
                        window: TickWindow { last: now, t0: now, drained: 0, ..w },
                        ..old(self)@
                    })
                } else if !due {
                    &&& action is Wait
                    &&& final(self)@ == (Live {
                        window: TickWindow { drained: drained_with(w, total), ..w },
                        ..old(self)@
                    })
                } else {
                    let t = report(w, now, total, pending, bytes_now);
                    &&& action == if worth_telling(t) {
                        TickAction::Send(t)
                    } else {
                        TickAction::Rebase
                    }
                    &&& final(self)@ == (Live {
                        window: TickWindow { last: now, t0: now, drained: 0, ..w },
                        ..old(self)@
                    })
                }
            }),
    {
        if self.state != StreamState::Streaming {
            self.tick_t0 = now;
            self.last_tick = now;
            self.tick_drained = 0;
            return TickAction::Rebase;
        }
        self.tick_drained = self.tick_drained.saturating_add(total);
        if now - self.last_tick < TICK_INTERVAL_US {
            return TickAction::Wait;
        }
        let n_pending: u16 = if pending > 65535 {
            65535
        } else {
            pending as u16
        };
        let n_drained: u16 = if self.tick_drained > 65535 {
            65535
        } else {
            self.tick_drained as u16
        };
        let bytes_out: u32 = bytes_now.wrapping_sub(self.bytes_baseline);
        let dt: u64 = now - self.tick_t0;
        let dt_us: u16 = if dt > 65535 {
            65535
        } else {
            dt as u16
        };
        let t_us: u32 = (self.tick_t0 % 0x1_0000_0000) as u32;
        self.last_tick = now;
        self.tick_t0 = now;
        self.tick_drained = 0;
        // Nothing arrived, nothing waits, nothing was sent: the wire stays silent.
        if n_drained > 0 || n_pending > 0 || bytes_out > 0 {
            TickAction::Send(Tick { t_us, dt_us, n_drained, n_pending, bytes_out })
        } else {
            TickAction::Rebase
        }
    }

    /// Puts a tick on the wire.
    pub fn send_tick<S: Sink>(&mut self, t: Tick, sink: &mut S)
        requires
            old(self).wf(),
        ensures
            final(self).wf(),
            final(self)@ == (Live {
                pending: encoder::Pending { open: false, ..old(self)@.pending },
                ..old(self)@
            }),
            final(sink).offered() == old(sink).offered() + encoder::interjecting(
                old(self)@.pending,
                frame::Frame::Tick {
                    t_us: t.t_us,
                    dt_us: t.dt_us,
                    n_drained: t.n_drained,
                    n_pending: t.n_pending,
                    bytes_out: t.bytes_out,
                },
            ),
    {
        self.encoder.tick(t.t_us, t.dt_us, t.n_drained, t.n_pending, t.bytes_out, sink);
    }

    /// Starts the byte count of the window over: the tick's own bytes are not in
    /// the next one.
    pub fn rebase(&mut self, bytes_now: u32)
        requires
            old(self).wf(),
        ensures
            final(self).wf(),
            final(self)@ == (Live {
                window: TickWindow { baseline: bytes_now, ..old(self)@.window },
                ..old(self)@
            }),
    {
        self.bytes_baseline = bytes_now;
    }

    /// Reports lost samples, while streaming.
    pub fn on_overrun<S: Sink>(&mut self, dropped: u32, sink: &mut S)
        requires
            old(self).wf(),
        ensures
            final(self).wf(),
            ({
                let tells = old(self)@.state == StreamState::Streaming && dropped > 0;
                &&& final(self)@ == if tells {
                    Live {
                        pending: encoder::Pending { open: false, ..old(self)@.pending },
                        ..old(self)@
                    }
                } else {
                    old(self)@
                }
                &&& final(sink).offered() == if tells {
                    old(sink).offered() + encoder::interjecting(
                        old(self)@.pending,
                        frame::Frame::Overrun { dropped },
                    )
                } else {
                    old(sink).offered()
                }
            }),
    {
        if self.state == StreamState::Streaming && dropped > 0 {
            self.encoder.overrun(dropped, sink);
        }
    }

    /// Ends a round. Returns whether it was quiet, so that the loop may sleep.
    pub fn end_round<S: Sink>(&mut self, total: u64, sink: &mut S) -> (quiet: bool)
        requires
            old(self).wf(),
        ensures
            final(self).wf(),
            quiet == (total == 0),
            final(self)@ == rested(old(self)@, total),
            final(sink).offered() == old(sink).offered() + resting(old(self)@, total),
            flushes(old(self)@, total) ==> final(sink).flushed() == final(sink).offered().len(),
            !flushes(old(self)@, total) && (total > 0 || !beats(old(self)@)) ==> *final(sink)
                == *old(sink),
    {
        assert(sink.offered() + Seq::<u8>::empty() =~= sink.offered());
        if total > 0 {
            self.idle_ticks = 0;
            return false;
        }
        let ghost start = sink.offered();
        if self.idle_ticks == 0 && self.state == StreamState::Streaming {
            // The first quiet round: the trailing run must not wait for a sample
            // that may never come.
            self.encoder.flush(sink);
        }
        self.idle_ticks = self.idle_ticks.wrapping_add(1);
        if self.idle_ticks % HEARTBEAT_TICKS == 0 && self.state == StreamState::Streaming {
            self.encoder.log("idle", sink);
            assert(sink.offered() =~= start + resting(old(self)@, total));
        }
        true
    }
}

/// Every START and every STOP is acknowledged, whatever the state: the
/// acknowledgement is the last that goes on the wire, and the state is the one
/// asked for.
pub proof fn law_commands_are_acknowledged(
    s: Live,
    cmd: HostCmd,
    tx_dropped: u32,
    cap_dropped: u32,
)
    requires
        cmd == HostCmd::Start || cmd == HostCmd::Stop,
    ensures
        commanding(s, cmd, tx_dropped, cap_dropped).len() > 0,
        cmd == HostCmd::Start ==> commanded(s, cmd).state == StreamState::Streaming && commanding(
            s,
            cmd,
            tx_dropped,
            cap_dropped,
        ).last() == frame::TAG_STARTED,
        cmd == HostCmd::Stop ==> commanded(s, cmd).state == StreamState::Stopped && commanding(
            s,
            cmd,
            tx_dropped,
            cap_dropped,
        ).last() == frame::TAG_STOPPED,
{
}

/// START while streaming and STOP while stopped change nothing but to end an open
/// frame: the host can force a known state.
pub proof fn law_repeated_commands_change_nothing(s: Live, cmd: HostCmd)
    requires
        cmd == HostCmd::Start && s.state == StreamState::Streaming || cmd == HostCmd::Stop
            && s.state == StreamState::Stopped,
    ensures
        commanded(s, cmd) == (Live {
            pending: encoder::Pending { open: false, ..s.pending },
            ..s
        }),
{
}

/// What goes on the wire from START to STOP is a session of the samples between
/// them, with the noise bits taken off: nothing of before START is in it.
pub proof fn law_session_is_its_samples(s: Live, raw: Seq<u32>, tx_dropped: u32, cap_dropped: u32)
    requires
        s.state == StreamState::Stopped,
    ensures
        ({
            let a = commanded(s, HostCmd::Start);
            let b = Live { pending: encoder::after_feeding_all(a.pending, masked_all(raw)), ..a };
            &&& a.state == StreamState::Streaming
            &&& commanding(s, HostCmd::Start, tx_dropped, cap_dropped) + encoder::feeding_all(
                a.pending,
                masked_all(raw),
            ) + commanding(b, HostCmd::Stop, tx_dropped, cap_dropped) == round_trip::session_bytes(
                masked_all(raw),
            )
            &&& !masked_all(raw).contains(frame::BLOCK_SENTINEL)
        }),
{
    let a = commanded(s, HostCmd::Start);
    let b = Live { pending: encoder::after_feeding_all(a.pending, masked_all(raw)), ..a };
    assert(commanding(s, HostCmd::Start, tx_dropped, cap_dropped) + encoder::feeding_all(
        a.pending,
        masked_all(raw),
    ) + commanding(b, HostCmd::Stop, tx_dropped, cap_dropped) =~= round_trip::session_bytes(
        masked_all(raw),
    ));
    if masked_all(raw).contains(frame::BLOCK_SENTINEL) {
        let j = masked_all(raw).index_of(frame::BLOCK_SENTINEL);
        assert(masked_all(raw)[j] == masked(raw[j]));
    }
}

/// What is sent of a raw sample agrees with it on each of the bits 0 to 17, the data
/// lines, CS and DC, and is zero above. A raw sample without noise is sent as it is.
pub proof fn law_sent_samples_keep_the_wired_bits(raw: u32, k: u32)
    requires
        k < 32,
    ensures
        masked(raw) == raw & 0x0003_FFFF,
        k < 18 ==> (masked(raw) >> k) & 1 == (raw >> k) & 1,
        k >= 18 ==> (masked(raw) >> k) & 1 == 0,
        masked(raw) < 0x4_0000,
        raw < 0x4_0000 ==> masked(raw) == raw,
{
    let m = masked(raw);
    assert(m == raw & 0x0003_FFFF && m < 0x4_0000) by (bit_vector)
        requires
            m == raw % 0x4_0000,
    ;
    assert(k < 18 ==> (m >> k) & 1 == (raw >> k) & 1) by (bit_vector)
        requires
            k < 32,
            m == raw & 0x0003_FFFF,
    ;
    assert(k >= 18 ==> (m >> k) & 1 == 0) by (bit_vector)
        requires
            k < 32,
            m == raw & 0x0003_FFFF,
    ;
}

/// A drain is sent sample by sample: as many as were drained, in order, each with its
/// own 18 bits.
pub proof fn law_drains_are_sent_sample_by_sample(raw: Seq<u32>, i: int)
    requires
        0 <= i < raw.len(),
    ensures
        masked_all(raw).len() == raw.len(),
        masked_all(raw)[i] == raw[i] & 0x0003_FFFF,
{
    law_sent_samples_keep_the_wired_bits(raw[i], 0);
}

/// Four bytes are commands, and no other byte is one.
pub proof fn law_commands_are_single_bytes(b: u8)
    ensures
        command_of(b) == Some(HostCmd::Start) <==> b == 1,
        command_of(b) == Some(HostCmd::Stop) <==> b == 2,
        command_of(b) == Some(HostCmd::LogTest) <==> b == 3,
        command_of(b) == Some(HostCmd::Stats) <==> b == 4,
        command_of(b) is None <==> b == 0 || b > 4,
{
}

/// A report tells the window that it ends. The time is that of the window's start,
/// modulo 32 bits. The byte count, added to the counter at the start, gives the
/// counter now. The others are told exactly up to 65535.
pub proof fn law_a_report_tells_its_window(
    w: TickWindow,
    now: u64,
    total: u64,
    pending: u32,
    bytes_now: u32,
)
    requires
        w.t0 <= now,
        w.drained + total <= u64::MAX,
    ensures
        ({
            let t = report(w, now, total, pending, bytes_now);
            &&& (w.t0 - t.t_us) % 0x1_0000_0000 == 0
            &&& (w.baseline + t.bytes_out) % 0x1_0000_0000 == bytes_now
            &&& t.dt_us == now - w.t0 || (t.dt_us == 65535 && now - w.t0 > 65535)
            &&& t.n_drained == w.drained + total || (t.n_drained == 65535 && w.drained + total
                > 65535)
            &&& t.n_pending == pending || (t.n_pending == 65535 && pending > 65535)
            &&& worth_telling(t) <==> w.drained + total > 0 || pending > 0 || bytes_now
                != w.baseline
        }),
{
}

/// The session after `k` quiet rounds in a row.
pub open spec fn quiet_rounds(s: Live, k: nat) -> Live
    decreases k,
{
    if k == 0 {
        s
    } else {
        rested(quiet_rounds(s, (k - 1) as nat), 0)
    }
}

proof fn lemma_quiet_rounds(s: Live, k: nat)
    requires
        s.idle_ticks == 0,
        s.state == StreamState::Streaming,
        k < 0x1_0000_0000,
    ensures
        quiet_rounds(s, k).idle_ticks == k,
        quiet_rounds(s, k).state == StreamState::Streaming,
        k > 0 ==> quiet_rounds(s, k).pending == encoder::idle(),
    decreases k,
{
    if k > 0 {
        lemma_quiet_rounds(s, (k - 1) as nat);
    }
}

/// In a quiet stretch the first round sends what was held back, so that the last
/// run does not wait for a sample that may never come. After that the wire is
/// silent, but for the word "idle" in every 2500th round.
pub proof fn law_quiet_rounds_are_silent(s: Live, k: nat)
    requires
        s.idle_ticks == 0,
        s.state == StreamState::Streaming,
        0 < k < 0x1_0000_0000,
    ensures
        ({
            let sent = resting(quiet_rounds(s, (k - 1) as nat), 0);
            &&& k == 1 ==> sent == encoder::flushing(s.pending)
            &&& k > 1 && k % 2500 != 0 ==> sent.len() == 0
            &&& k % 2500 == 0 ==> sent == frame::frame_bytes(
                frame::Frame::Log(vstd::utf8::encode_utf8("idle"@)),
            )
        }),
        quiet_rounds(s, k).idle_ticks == k,
        rested(quiet_rounds(s, k), 1).idle_ticks == 0,
{
    lemma_quiet_rounds(s, (k - 1) as nat);
    lemma_quiet_rounds(s, k);
    if k % 2500 == 0 {
        let f = log_frame("idle"@);
        let none = Seq::<u8>::empty();
        assert(encoder::closing(false) =~= none);
        assert(none + none + frame::frame_bytes(f) =~= frame::frame_bytes(f));
    }
}

/// While nothing streams, quiet rounds send nothing and hold back nothing new.
pub proof fn law_a_stopped_session_is_silent(s: Live, total: u64)
    requires
        s.state == StreamState::Stopped,
    ensures
        resting(s, total).len() == 0,
        rested(s, total).pending == s.pending,
        rested(s, total).state == s.state,
        rested(s, total).window == s.window,
{
}

/// The line of counters writes the counters in decimal, each behind its name.
pub proof fn law_the_counters_are_written_out(tx_dropped: u32, cap_dropped: u32) -> (parts: (
    Seq<char>,
    Seq<char>,
))
    ensures
        stats_text(tx_dropped, cap_dropped) == "stats: tx_dropped="@ + parts.0 + " cap_dropped="@
            + parts.1,
        text::writes(10, parts.0, tx_dropped as int),
        text::writes(10, parts.1, cap_dropped as int),
{
    text::law_numbers_are_written(tx_dropped as nat, 0);
    text::law_numbers_are_written(cap_dropped as nat, 0);
    (text::decimal(tx_dropped as nat), text::decimal(cap_dropped as nat))
}

/// The commands for a line of text are answered with one LOG, which leaves the
/// samples held back alone and ends an open BLOCK.
pub proof fn law_texts_are_answered_with_a_line(s: Live, tx_dropped: u32, cap_dropped: u32)
    ensures
        ({
            let ping = commanding(s, HostCmd::LogTest, tx_dropped, cap_dropped);
            let stats = commanding(s, HostCmd::Stats, tx_dropped, cap_dropped);
            let p = frame::frame_bytes(frame::Frame::Log(vstd::utf8::encode_utf8("ping"@)));
            let c = frame::frame_bytes(
                frame::Frame::Log(
                    vstd::utf8::encode_utf8(stats_text(tx_dropped, cap_dropped)),
                ),
            );
            &&& p.is_suffix_of(ping)
            &&& c.is_suffix_of(stats)
            &&& s.pending.open ==> ping.len() == p.len() + 4 && stats.len() == c.len() + 4
            &&& !s.pending.open ==> ping == p && stats == c
            &&& commanded(s, HostCmd::LogTest).state == s.state
            &&& commanded(s, HostCmd::Stats).state == s.state
            &&& commanded(s, HostCmd::LogTest).pending.run == s.pending.run
            &&& commanded(s, HostCmd::Stats).pending.run == s.pending.run
        }),
{
}

/// What three calls put on the wire, START, samples and STOP, reads back as the
/// acknowledgement of START, the low 18 bits of each sample, all of them, in order, and
/// the acknowledgement of STOP.
pub proof fn law_what_is_drained_reads_back<S: Sink>(
    s1: &mut Session,
    s2: &mut Session,
    s3: &mut Session,
    k1: &mut S,
    k2: &mut S,
    k3: &mut S,
    raw: &[u32],
    tx_dropped: u32,
    cap_dropped: u32,
)
    requires
        old(s1).wf(),
        old(s1)@.state == StreamState::Stopped,
        call_ensures(
            Session::on_command::<S>,
            (s1, HostCmd::Start, tx_dropped, cap_dropped, k1),
            (),
        ),
        *old(s2) == *final(s1),
        *old(k2) == *final(k1),
        call_ensures(Session::on_samples::<S>, (s2, raw, k2), ()),
        *old(s3) == *final(s2),
        *old(k3) == *final(k2),
        call_ensures(Session::on_command::<S>, (s3, HostCmd::Stop, tx_dropped, cap_dropped, k3), ()),
    ensures
        old(k1).offered().is_prefix_of(final(k3).offered()),
        ({
            let sent = final(k3).offered().skip(old(k1).offered().len() as int);
            let o = decoder::fed(Seq::empty(), sent);
            &&& o.error is None
            &&& o.held.len() == 0
            &&& stream::items(o.events) == seq![stream::Item::Started] + stream::sample_items(
                Seq::new(raw@.len(), |i: int| raw@[i] & 0x0003_FFFF),
            ) + seq![stream::Item::Stopped]
        }),
        final(s3)@.state == StreamState::Stopped,
{
    let all = masked_all(raw@);
    let a = commanding(old(s1)@, HostCmd::Start, tx_dropped, cap_dropped);
    let b = encoder::feeding_all(old(s2)@.pending, all);
    let c = commanding(old(s3)@, HostCmd::Stop, tx_dropped, cap_dropped);
    let before = old(k1).offered();
    assert(final(k3).offered() == before + a + b + c);
    lemma_behind_the_rest(before, a, b, c);
    lemma_session_calls(old(s1)@, old(s2)@, old(s3)@, raw@, tx_dropped, cap_dropped);
}

proof fn lemma_behind_the_rest(before: Seq<u8>, a: Seq<u8>, b: Seq<u8>, c: Seq<u8>)
    ensures
        before.is_prefix_of(before + a + b + c),
        (before + a + b + c).skip(before.len() as int) == a + b + c,
{
    assert((before + a + b + c).skip(before.len() as int) =~= a + b + c);
}

proof fn lemma_session_calls(
    s1: Live,
    s2: Live,
    s3: Live,
    raw: Seq<u32>,
    tx_dropped: u32,
    cap_dropped: u32,
)
    requires
        s1.state == StreamState::Stopped,
        s2 == commanded(s1, HostCmd::Start),
        s3 == (Live {
            pending: encoder::after_feeding_all(s2.pending, masked_all(raw)),
            ..s2
        }),
    ensures
        ({
            let sent = commanding(s1, HostCmd::Start, tx_dropped, cap_dropped)
                + encoder::feeding_all(s2.pending, masked_all(raw)) + commanding(
                s3,
                HostCmd::Stop,
                tx_dropped,
                cap_dropped,
            );
            let o = decoder::fed(Seq::empty(), sent);
            &&& o.error is None
            &&& o.held.len() == 0
            &&& stream::items(o.events) == seq![stream::Item::Started] + stream::sample_items(
                Seq::new(raw.len(), |i: int| raw[i] & 0x0003_FFFF),
            ) + seq![stream::Item::Stopped]
        }),
{
    let all = masked_all(raw);
    law_session_is_its_samples(s1, raw, tx_dropped, cap_dropped);
    round_trip::law_session_survives_the_wire(all);
    assert forall|i: int| 0 <= i < raw.len() implies all[i] == raw[i] & 0x0003_FFFF by {
        law_drains_are_sent_sample_by_sample(raw, i);
    }
    assert(all =~= Seq::new(raw.len(), |i: int| raw[i] & 0x0003_FFFF));
}

/// What calls of [`Session::tick`] do while streaming: nothing is reported before ten
/// milliseconds are over, and what was drained meanwhile is part of the next report.
/// A report starts the window over.
pub proof fn law_ticks_add_up(
    s1: &mut Session,
    s2: &mut Session,
    t1: u64,
    t2: u64,
    n1: u64,
    n2: u64,
    pending: u32,
    bytes_now: u32,
    a1: TickAction,
    a2: TickAction,
)
    requires
        old(s1).wf(),
        old(s1)@.state == StreamState::Streaming,
        old(s1)@.window.last <= t1 <= t2,
        old(s1)@.window.t0 <= t1,
        old(s1)@.window.drained == 0,
        n1 + n2 <= 65535,
        t1 < old(s1)@.window.last + 10_000 <= t2,
        call_ensures(Session::tick, (s1, t1, n1, pending, bytes_now), a1),
        *old(s2) == *final(s1),
        call_ensures(Session::tick, (s2, t2, n2, pending, bytes_now), a2),
    ensures
        a1 is Wait,
        n1 + n2 > 0 ==> a2 is Send,
        a2 matches TickAction::Send(t) ==> {
            &&& t.n_drained == n1 + n2
            &&& (old(s1)@.window.baseline + t.bytes_out) % 0x1_0000_0000 == bytes_now
            &&& (old(s1)@.window.t0 - t.t_us) % 0x1_0000_0000 == 0
            &&& t.dt_us == t2 - old(s1)@.window.t0 || t2 - old(s1)@.window.t0 > 65535
            &&& t.n_pending == pending || pending > 65535
        },
        !(a2 is Wait),
        final(s2)@.window.t0 == t2 && final(s2)@.window.last == t2,
        final(s2)@.window.drained == 0,
        final(s2)@.pending == old(s1)@.pending,
        final(s2)@.state == old(s1)@.state,
{
    let w = old(s2)@.window;
    law_a_report_tells_its_window(w, t2, n2, pending, bytes_now);
}

/// A stopped session reports nothing, and a lost sample is reported only while
/// streaming, once, with the number that were lost.
pub proof fn law_a_stopped_session_reports_nothing<S: Sink>(
    s: &mut Session,
    k: &mut S,
    t: &mut Session,
    now: u64,
    total: u64,
    pending: u32,
    bytes_now: u32,
    action: TickAction,
    dropped: u32,
)
    requires
        old(s).wf(),
        call_ensures(Session::on_overrun::<S>, (s, dropped, k), ()),
        old(t).wf(),
        old(t)@.state == StreamState::Stopped,
        old(t)@.window.last <= now,
        old(t)@.window.t0 <= now,
        call_ensures(Session::tick, (t, now, total, pending, bytes_now), action),
    ensures
        !(action is Send),
        old(s)@.state == StreamState::Stopped || dropped == 0 ==> final(k).offered()
            == old(k).offered() && final(s)@ == old(s)@,
        old(s)@.state == StreamState::Streaming && dropped > 0 ==> ({
            let sent = final(k).offered();
            &&& sent.len() >= 5
            &&& sent[sent.len() - 5] == 0xfd
            &&& sent.skip(sent.len() - 4) == bytes::le32(dropped)
            &&& final(s)@.pending.run == old(s)@.pending.run
        }),
{
    let f = frame::Frame::Overrun { dropped };
    frame::law_fields_lie_where_they_belong(f);
    let b = frame::frame_bytes(f);
    let sent = final(k).offered();
    if old(s)@.state == StreamState::Streaming && dropped > 0 {
        assert(sent.skip(sent.len() - 4) =~= b.subrange(1, 5));
    }
}

/// What calls of [`Session::on_samples`] and [`Session::greet`] put on the wire of a
/// stopped session: no sample, and the board's greeting.
pub proof fn law_a_stopped_session_sends_no_samples<S: Sink>(
    s: &mut Session,
    raw: &[u32],
    k: &mut S,
    t: &mut Session,
    l: &mut S,
)
    requires
        old(s).wf(),
        old(s)@.state == StreamState::Stopped,
        call_ensures(Session::on_samples::<S>, (s, raw, k), ()),
        old(t).wf(),
        !old(t)@.pending.open,
        call_ensures(Session::greet::<S>, (t, l), ()),
    ensures
        final(k).offered() == old(k).offered(),
        final(s)@ == old(s)@,
        final(l).offered() == old(l).offered() + frame::frame_bytes(
            frame::Frame::Log(
                vstd::utf8::encode_utf8("aq-lcd-grab pico firmware booted, awaiting START"@),
            ),
        ),
{
    assert(final(l).offered() =~= old(l).offered() + frame::frame_bytes(
        log_frame("aq-lcd-grab pico firmware booted, awaiting START"@),
    ));
}

/// What calls of [`Session::send_tick`] and [`Session::rebase`] do: the report goes out with
/// each number in its own place, the samples held back stay, and the next report counts
/// bytes from where the counter stood.
pub proof fn law_a_report_is_sent_and_counting_starts_over<S: Sink>(
    s: &mut Session,
    t: Tick,
    k: &mut S,
    r: &mut Session,
    bytes_now: u32,
)
    requires
        old(s).wf(),
        !old(s)@.pending.open,
        call_ensures(Session::send_tick::<S>, (s, t, k), ()),
        *old(r) == *final(s),
        call_ensures(Session::rebase, (r, bytes_now), ()),
    ensures
        ({
            let sent = final(k).offered().skip(old(k).offered().len() as int);
            &&& sent.len() == 15
            &&& sent[0] == 0xfa
            &&& sent.subrange(1, 5) == bytes::le32(t.t_us)
            &&& sent.subrange(5, 7) == bytes::le16(t.dt_us)
            &&& sent.subrange(7, 9) == bytes::le16(t.n_drained)
            &&& sent.subrange(9, 11) == bytes::le16(t.n_pending)
            &&& sent.subrange(11, 15) == bytes::le32(t.bytes_out)
        }),
        final(s)@.pending.run == old(s)@.pending.run,
        final(r)@.window.baseline == bytes_now,
        final(r)@.window.t0 == old(s)@.window.t0,
        final(r)@.window.drained == old(s)@.window.drained,
        final(r)@.state == old(s)@.state,
{
    let f = frame::Frame::Tick {
        t_us: t.t_us,
        dt_us: t.dt_us,
        n_drained: t.n_drained,
        n_pending: t.n_pending,
        bytes_out: t.bytes_out,
    };
    frame::law_fields_lie_where_they_belong(f);
    let sent = final(k).offered().skip(old(k).offered().len() as int);
    assert(sent =~= frame::frame_bytes(f));
}

/// What a call of [`Session::end_drain`] does: where samples were drained while streaming,
/// all that was put on the wire is passed on; nothing is added.
pub proof fn law_drained_samples_are_passed_on<S: Sink>(s: Session, total: u64, k: &mut S)
    requires
        call_ensures(Session::end_drain::<S>, (&s, total, k), ()),
    ensures
        final(k).offered() == old(k).offered(),
        total > 0 && s@.state == StreamState::Streaming ==> final(k).flushed()
            == final(k).offered().len(),
{
}

} // verus!
