//! The capture session of the STM32: host commands, samples, idle time and the
//! periodic diagnostics.
//!
//! Whoever runs the loop hands in what was drained, what time it is and what the
//! hardware counters read; this module decides what goes on the wire. Times are in
//! microseconds.

use vstd::prelude::*;

use crate::bytes;
use crate::text;
use crate::wire::decoder;
use crate::wire::encoder;
use crate::wire::encoder::Encoder;
use crate::wire::frame;
use crate::wire::round_trip;
use crate::wire::sink::Sink;
use crate::wire::stream;
use crate::wire::{HOST_CMD_LOG_TEST, HOST_CMD_START, HOST_CMD_STATS, HOST_CMD_STOP};

verus! {

/// Microseconds between two diagnostic lines.
pub const REPORT_INTERVAL_US: u64 = 5_000_000;

#[derive(Copy, Clone, Debug, PartialEq, Eq, Structural)]
pub enum StreamState {
    Stopped,
    Streaming,
}

#[derive(Copy, Clone, Debug, PartialEq, Eq, Structural)]
pub enum HostCmd {
    Start,
    Stop,
    LogTest,
    Stats,
}

/// The command that a byte stands for; other bytes are ignored.
pub open spec fn command_of(b: u8) -> Option<HostCmd> {
    if b == HOST_CMD_START {
        Some(HostCmd::Start)
    } else if b == HOST_CMD_STOP {
        Some(HostCmd::Stop)
    } else if b == HOST_CMD_LOG_TEST {
        Some(HostCmd::LogTest)
    } else if b == HOST_CMD_STATS {
        Some(HostCmd::Stats)
    } else {
        None
    }
}

/// The command that a byte stands for; other bytes are ignored.
pub fn parse_host_cmd(b: u8) -> (cmd: Option<HostCmd>)
    ensures
        cmd == command_of(b),
{
    if b == HOST_CMD_START {
        Some(HostCmd::Start)
    } else if b == HOST_CMD_STOP {
        Some(HostCmd::Stop)
    } else if b == HOST_CMD_LOG_TEST {
        Some(HostCmd::LogTest)
    } else if b == HOST_CMD_STATS {
        Some(HostCmd::Stats)
    } else {
        None
    }
}

/// A number in four hexadecimal digits.
pub open spec fn hex4(n: u16) -> Seq<char> {
    text::padded('0', 4, text::hexadecimal(n as nat))
}

/// A number in eight hexadecimal digits.
pub open spec fn hex8(n: u32) -> Seq<char> {
    text::padded('0', 8, text::hexadecimal(n as nat))
}

/// The timer's counter and what is left of both transfers, in one line.
pub open spec fn idle_text(cnt: u16, pa_ndtr: u16, pb_ndtr: u16) -> Seq<char> {
    "cnt="@ + hex4(cnt) + " pa_ndtr="@ + hex4(pa_ndtr) + " pb_ndtr="@ + hex4(pb_ndtr)
}

/// The loss counters in one line.
pub open spec fn stats_text(cap_dropped: u32, pa_teif: u32, pb_teif: u32) -> Seq<char> {
    "stats: cap_dropped="@ + hex8(cap_dropped) + " pa_teif="@ + hex8(pa_teif) + " pb_teif="@
        + hex8(pb_teif)
}

/// `"cnt=XXXX pa_ndtr=XXXX pb_ndtr=XXXX"`.
pub fn fmt_idle3(cnt: u16, pa_ndtr: u16, pb_ndtr: u16) -> (msg: String)
    ensures
        msg@ == idle_text(cnt, pa_ndtr, pb_ndtr),
{
    let mut msg: String = "cnt=".to_owned();
    text::push_hex(&mut msg, 4, cnt as u64);
    msg.append(" pa_ndtr=");
    text::push_hex(&mut msg, 4, pa_ndtr as u64);
    msg.append(" pb_ndtr=");
    text::push_hex(&mut msg, 4, pb_ndtr as u64);
    msg
}

/// `"stats: cap_dropped=XXXXXXXX pa_teif=XXXXXXXX pb_teif=XXXXXXXX"`.
pub fn fmt_stats(cap_dropped: u32, pa_teif: u32, pb_teif: u32) -> (msg: String)
    ensures
        msg@ == stats_text(cap_dropped, pa_teif, pb_teif),
{
    let mut msg: String = "stats: cap_dropped=".to_owned();
    text::push_hex(&mut msg, 8, cap_dropped as u64);
    msg.append(" pa_teif=");
    text::push_hex(&mut msg, 8, pa_teif as u64);
    msg.append(" pb_teif=");
    text::push_hex(&mut msg, 8, pb_teif as u64);
    msg
}

/// A LOG with a text.
pub open spec fn log_frame(text: Seq<char>) -> frame::Frame {
    frame::Frame::Log(vstd::utf8::encode_utf8(text))
}

/// What a session remembers.
pub struct Live {
    pub pending: encoder::Pending,
    pub state: StreamState,
    /// When the bus was last busy, or an idle line was last sent.
    pub last_idle_log: u64,
    pub last_stats: u64,
    /// Transfer errors seen on either ring.
    pub pa_teif: u32,
    pub pb_teif: u32,
}

/// A frame outside the samples ends an open BLOCK.
pub open spec fn settled(s: Live) -> Live {
    Live { pending: encoder::Pending { open: false, ..s.pending }, ..s }
}

/// The session after a command.
pub open spec fn commanded(s: Live, cmd: HostCmd) -> Live {
    if cmd == HostCmd::Start && s.state == StreamState::Stopped {
        Live { state: StreamState::Streaming, pending: encoder::idle(), ..s }
    } else if cmd == HostCmd::Stop && s.state == StreamState::Streaming {
        Live { state: StreamState::Stopped, pending: encoder::idle(), ..s }
    } else {
        settled(s)
    }
}

/// The bytes that a command puts on the wire. START and STOP are acknowledged
/// whatever the state.
pub open spec fn commanding(s: Live, cmd: HostCmd, cap_dropped: u32) -> Seq<u8> {
    match cmd {
        HostCmd::Start => if s.state == StreamState::Stopped {
            frame::frame_bytes(frame::Frame::Started)
        } else {
            encoder::interjecting(s.pending, frame::Frame::Started)
        },
        HostCmd::Stop => if s.state == StreamState::Streaming {
            encoder::flushing(s.pending) + frame::frame_bytes(frame::Frame::Stopped)
        } else {
            encoder::interjecting(s.pending, frame::Frame::Stopped)
        },
        HostCmd::LogTest => encoder::interjecting(s.pending, log_frame("ping"@)),
        HostCmd::Stats => encoder::interjecting(
            s.pending,
            log_frame(stats_text(cap_dropped, s.pa_teif, s.pb_teif)),
        ),
    }
}

/// Whether a line is due that was last sent at `last`.
pub open spec fn due(last: u64, now: u64) -> bool {
    now - last >= REPORT_INTERVAL_US
}

/// A count with one more where something happened; it stays at the largest.
pub open spec fn counted(count: u32, happened: bool) -> u32 {
    if happened && count < u32::MAX {
        (count + 1) as u32
    } else {
        count
    }
}

pub struct Session {
    encoder: Encoder,
    state: StreamState,
    last_idle_log: u64,
    last_stats: u64,
    pa_teif_count: u32,
    pb_teif_count: u32,
}

impl View for Session {
    type V = Live;

    closed spec fn view(&self) -> Live {
        Live {
            pending: self.encoder@,
            state: self.state,
            last_idle_log: self.last_idle_log,
            last_stats: self.last_stats,
            pa_teif: self.pa_teif_count,
            pb_teif: self.pb_teif_count,
        }
    }
}

impl Session {
    pub closed spec fn wf(&self) -> bool {
        self.encoder.wf()
    }

    /// A session that is stopped.
    pub fn new(now: u64) -> (session: Self)
        ensures
            session.wf(),
            session@ == (Live {
                pending: encoder::idle(),
                state: StreamState::Stopped,
                last_idle_log: now,
                last_stats: now,
                pa_teif: 0,
                pb_teif: 0,
            }),
    {
        Session {
            encoder: Encoder::default(),
            state: StreamState::Stopped,
            last_idle_log: now,
            last_stats: now,
            pa_teif_count: 0,
            pb_teif_count: 0,
        }
    }

    /// The line that a board says when it starts.
    pub fn greet<S: Sink>(&mut self, sink: &mut S)
        requires
            old(self).wf(),
        ensures
            final(self).wf(),
            final(self)@ == settled(old(self)@),
            final(sink).offered() == old(sink).offered() + encoder::interjecting(
                old(self)@.pending,
                log_frame("aq-lcd-grab stm32 firmware booted, awaiting START"@),
            ),
    {
        self.encoder.log("aq-lcd-grab stm32 firmware booted, awaiting START", sink);
    }

    /// Whether samples are being sent.
    pub fn is_streaming(&self) -> (streaming: bool)
        ensures
            streaming == (self@.state == StreamState::Streaming),
    {
        self.state == StreamState::Streaming
    }

    /// Carries out a command of the host. The counter is for [`HostCmd::Stats`].
    pub fn on_command<S: Sink>(&mut self, cmd: HostCmd, cap_dropped: u32, sink: &mut S)
        requires
            old(self).wf(),
        ensures
            final(self).wf(),
            final(self)@ == commanded(old(self)@, cmd),
            final(sink).offered() == old(sink).offered() + commanding(
                old(self)@,
                cmd,
                cap_dropped,
            ),
            cmd == HostCmd::Stop && old(self)@.state == StreamState::Streaming
                ==> final(sink).flushed() >= old(sink).offered().len() + encoder::flushing(
                old(self)@.pending,
            ).len(),
    {
        match cmd {
            HostCmd::Start => {
                if self.state == StreamState::Stopped {
                    self.encoder.reset();
                    self.state = StreamState::Streaming;
                }
                let ghost before = self.encoder@;
                self.encoder.started(sink);
                proof {
                    let f = frame::Frame::Started;
                    if old(self)@.state == StreamState::Stopped {
                        assert(encoder::interjecting(before, f) =~= frame::frame_bytes(f));
                    }
                }
            },
            HostCmd::Stop => {
                if self.state == StreamState::Streaming {
                    self.encoder.flush(sink);
                    self.state = StreamState::Stopped;
                }
                let ghost before = self.encoder@;
                self.encoder.stopped(sink);
                proof {
                    let f = frame::Frame::Stopped;
                    if old(self)@.state == StreamState::Streaming {
                        assert(encoder::interjecting(before, f) =~= frame::frame_bytes(f));
                        assert(sink.offered() =~= old(sink).offered() + commanding(
                            old(self)@,
                            cmd,
                            cap_dropped,
                        ));
                    }
                }
            },
            HostCmd::LogTest => {
                self.encoder.log("ping", sink);
            },
            HostCmd::Stats => {
                let msg: String = fmt_stats(cap_dropped, self.pa_teif_count, self.pb_teif_count);
                self.encoder.log(msg.as_str(), sink);
            },
        }
    }

    /// Sends samples, while streaming.
    pub fn on_samples<S: Sink>(&mut self, samples: &[u32], sink: &mut S)
        requires
            old(self).wf(),
        ensures
            final(self).wf(),
            final(self)@ == (Live {
                pending: if old(self)@.state == StreamState::Streaming {
                    encoder::after_feeding_all(old(self)@.pending, samples@)
                } else {
                    old(self)@.pending
                },
                ..old(self)@
            }),
            final(sink).offered() == if old(self)@.state == StreamState::Streaming {
                old(sink).offered() + encoder::feeding_all(old(self)@.pending, samples@)
            } else {
                old(sink).offered()
            },
    {
        if self.state != StreamState::Streaming {
            return;
        }
        let mut i: usize = 0;
        let ghost p = self.encoder@;
        assert(samples@.take(0) =~= Seq::<u32>::empty());
        assert(sink.offered() + Seq::<u8>::empty() =~= sink.offered());
        while i < samples.len()
            invariant
                i <= samples.len(),
                self.wf(),
                p == old(self)@.pending,
                self@ == (Live {
                    pending: encoder::after_feeding_all(p, samples@.take(i as int)),
                    ..old(self)@
                }),
                sink.offered() == old(sink).offered() + encoder::feeding_all(
                    p,
                    samples@.take(i as int),
                ),
            decreases samples.len() - i,
        {
            self.encoder.feed(samples[i], sink);
            proof {
                assert(samples@.take(i + 1).drop_last() =~= samples@.take(i as int));
                assert(sink.offered() =~= old(sink).offered() + encoder::feeding_all(
                    p,
                    samples@.take(i + 1),
                ));
            }
            i += 1;
        }
        assert(samples@.take(i as int) =~= samples@);
    }

    /// Ends a busy round: reports lost samples, and the bus was busy now.
    pub fn end_burst<S: Sink>(&mut self, dropped: u32, now: u64, sink: &mut S)
        requires
            old(self).wf(),
        ensures
            final(self).wf(),
            final(self)@ == (Live {
                last_idle_log: now,
                ..if dropped > 0 {
                    settled(old(self)@)
                } else {
                    old(self)@
                }
            }),
            final(sink).offered() == if dropped > 0 {
                old(sink).offered() + encoder::interjecting(
                    old(self)@.pending,
                    frame::Frame::Overrun { dropped },
                )
            } else {
                old(sink).offered()
            },
    {
        if dropped > 0 {
            self.encoder.overrun(dropped, sink);
        }
        self.last_idle_log = now;
    }

    /// A round in which the bus was quiet: what is held back is sent, and every so
    /// often a line with the hardware's counters.
    pub fn on_idle<S: Sink>(&mut self, now: u64, cnt: u16, pa_ndtr: u16, pb_ndtr: u16, sink: &mut S)
        requires
            old(self).wf(),
            old(self)@.last_idle_log <= now,
        ensures
            final(self).wf(),
            final(self)@ == (Live {
                pending: encoder::idle(),
                last_idle_log: if due(old(self)@.last_idle_log, now) {
                    now
                } else {
                    old(self)@.last_idle_log
                },
                ..old(self)@
            }),
            final(sink).offered() == if due(old(self)@.last_idle_log, now) {
                old(sink).offered() + encoder::flushing(old(self)@.pending) + frame::frame_bytes(
                    log_frame(idle_text(cnt, pa_ndtr, pb_ndtr)),
                )
            } else {
                old(sink).offered() + encoder::flushing(old(self)@.pending)
            },
            final(sink).flushed() >= old(sink).offered().len() + encoder::flushing(
                old(self)@.pending,
            ).len(),
            !due(old(self)@.last_idle_log, now) ==> final(sink).flushed()
                == final(sink).offered().len(),
    {
        self.encoder.flush(sink);
        if now - self.last_idle_log >= REPORT_INTERVAL_US {
            let msg: String = fmt_idle3(cnt, pa_ndtr, pb_ndtr);
            let ghost before = self.encoder@;
            self.encoder.log(msg.as_str(), sink);
            self.last_idle_log = now;
            proof {
                let f = log_frame(idle_text(cnt, pa_ndtr, pb_ndtr));
                assert(encoder::interjecting(before, f) =~= frame::frame_bytes(f));
            }
        }
    }

    /// Sends the loss counters every so often.
    pub fn report<S: Sink>(&mut self, now: u64, cap_dropped: u32, sink: &mut S)
        requires
            old(self).wf(),
            old(self)@.last_stats <= now,
        ensures
            final(self).wf(),
            final(self)@ == if due(old(self)@.last_stats, now) {
                Live { last_stats: now, ..settled(old(self)@) }
            } else {
                old(self)@
            },
            final(sink).offered() == if due(old(self)@.last_stats, now) {
                old(sink).offered() + encoder::interjecting(
                    old(self)@.pending,
                    log_frame(
                        stats_text(cap_dropped, old(self)@.pa_teif, old(self)@.pb_teif),
                    ),
                )
            } else {
                old(sink).offered()
            },
    {
        if now - self.last_stats >= REPORT_INTERVAL_US {
            let msg: String = fmt_stats(cap_dropped, self.pa_teif_count, self.pb_teif_count);
            self.encoder.log(msg.as_str(), sink);
            self.last_stats = now;
        }
    }

    /// Counts transfer errors.
    pub fn on_transfer_errors(&mut self, pa: bool, pb: bool)
        requires
            old(self).wf(),
        ensures
            final(self).wf(),
            final(self)@ == (Live {
                pa_teif: counted(old(self)@.pa_teif, pa),
                pb_teif: counted(old(self)@.pb_teif, pb),
                ..old(self)@
            }),
    {
        if pa {
            self.pa_teif_count = self.pa_teif_count.saturating_add(1);
        }
        if pb {
            self.pb_teif_count = self.pb_teif_count.saturating_add(1);
        }
    }
}

/// Every START and every STOP is acknowledged, whatever the state: the
/// acknowledgement is the last that goes on the wire, and the state is the one
/// asked for.
pub proof fn law_commands_are_acknowledged(s: Live, cmd: HostCmd, cap_dropped: u32)
    requires
        cmd == HostCmd::Start || cmd == HostCmd::Stop,
    ensures
        commanding(s, cmd, cap_dropped).len() > 0,
        cmd == HostCmd::Start ==> commanded(s, cmd).state == StreamState::Streaming && commanding(
            s,
            cmd,
            cap_dropped,
        ).last() == frame::TAG_STARTED,
        cmd == HostCmd::Stop ==> commanded(s, cmd).state == StreamState::Stopped && commanding(
            s,
            cmd,
            cap_dropped,
        ).last() == frame::TAG_STOPPED,
{
}

/// Four bytes are commands, and no other byte is one.
pub proof fn law_commands_are_single_bytes(b: u8)
    ensures
        command_of(b) == Some(HostCmd::Start) <==> b == 1,
        command_of(b) == Some(HostCmd::Stop) <==> b == 2,
        command_of(b) == Some(HostCmd::LogTest) <==> b == 3,
        command_of(b) == Some(HostCmd::Stats) <==> b == 4,
        command_of(b) is None <==> b == 0 || b > 4,
{
}

/// STOP sends what is held back before its acknowledgement; START forgets what was
/// held back; nothing else changes what is held back or the state.
pub proof fn law_commands_change_what_they_are_for(s: Live, cmd: HostCmd, cap_dropped: u32)
    ensures
        ({
            let t = commanded(s, cmd);
            let sent = commanding(s, cmd, cap_dropped);
            &&& t.state != s.state <==> (cmd == HostCmd::Start && s.state
                == StreamState::Stopped) || (cmd == HostCmd::Stop && s.state
                == StreamState::Streaming)
            &&& t.state != s.state ==> t.pending.run is None
            &&& t.state == s.state ==> t.pending.run == s.pending.run
            &&& !t.pending.open
            &&& t.last_idle_log == s.last_idle_log && t.last_stats == s.last_stats
            &&& t.pa_teif == s.pa_teif && t.pb_teif == s.pb_teif
            &&& cmd == HostCmd::Stop && t.state != s.state ==> sent == encoder::flushing(
                s.pending,
            ).push(0xfc)
            &&& cmd == HostCmd::Start && t.state != s.state ==> sent == seq![0xfbu8]
        }),
{
    let sent = commanding(s, cmd, cap_dropped);
    if cmd == HostCmd::Stop && s.state == StreamState::Streaming {
        assert(sent =~= encoder::flushing(s.pending).push(0xfc));
    }
}

/// A line is due from five seconds after the last one on, and not before.
pub proof fn law_lines_are_five_seconds_apart(last: u64, now: u64)
    ensures
        due(last, now) <==> now >= last + 5_000_000,
{
}

/// A count goes up by one where something happened, stays where nothing did, and
/// does not wrap.
pub proof fn law_counts_go_up_one_by_one(count: u32)
    ensures
        counted(count, false) == count,
        count < 0xffff_ffff ==> counted(count, true) == count + 1,
        counted(0xffff_ffff, true) == 0xffff_ffff,
{
}

/// The line of an idle bus writes its three numbers in four hexadecimal digits, each
/// behind its name.
pub proof fn law_the_idle_line_is_written_out(cnt: u16, pa_ndtr: u16, pb_ndtr: u16) -> (parts: (
    Seq<char>,
    Seq<char>,
    Seq<char>,
))
    ensures
        idle_text(cnt, pa_ndtr, pb_ndtr) == "cnt="@ + parts.0 + " pa_ndtr="@ + parts.1
            + " pb_ndtr="@ + parts.2,
        parts.0.len() == 4 && text::writes(16, parts.0, cnt as int),
        parts.1.len() == 4 && text::writes(16, parts.1, pa_ndtr as int),
        parts.2.len() == 4 && text::writes(16, parts.2, pb_ndtr as int),
{
    lemma_hex4(cnt);
    lemma_hex4(pa_ndtr);
    lemma_hex4(pb_ndtr);
    (hex4(cnt), hex4(pa_ndtr), hex4(pb_ndtr))
}

proof fn lemma_hex4(n: u16)
    ensures
        hex4(n).len() == 4,
        text::writes(16, hex4(n), n as int),
{
    text::law_numbers_are_written(n as nat, 4);
    reveal_with_fuel(vstd::arithmetic::power::pow, 5);
    assert(vstd::arithmetic::power::pow(16, 4) == 65536);
    text::lemma_hex_plain(n as nat, 4);
}

proof fn lemma_hex8(n: u32)
    ensures
        hex8(n).len() == 8,
        text::writes(16, hex8(n), n as int),
{
    text::law_numbers_are_written(n as nat, 8);
    reveal_with_fuel(vstd::arithmetic::power::pow, 9);
    assert(vstd::arithmetic::power::pow(16, 8) == 0x1_0000_0000);
    text::lemma_hex_plain(n as nat, 8);
}

/// The line of counters writes the counters in eight hexadecimal digits, each behind
/// its name.
pub proof fn law_the_counters_are_written_out(cap_dropped: u32, pa_teif: u32, pb_teif: u32) -> (parts:
    (Seq<char>, Seq<char>, Seq<char>))
    ensures
        stats_text(cap_dropped, pa_teif, pb_teif) == "stats: cap_dropped="@ + parts.0
            + " pa_teif="@ + parts.1 + " pb_teif="@ + parts.2,
        parts.0.len() == 8 && text::writes(16, parts.0, cap_dropped as int),
        parts.1.len() == 8 && text::writes(16, parts.1, pa_teif as int),
        parts.2.len() == 8 && text::writes(16, parts.2, pb_teif as int),
{
    lemma_hex8(cap_dropped);
    lemma_hex8(pa_teif);
    lemma_hex8(pb_teif);
    (hex8(cap_dropped), hex8(pa_teif), hex8(pb_teif))
}

/// The commands for a line of text are answered with one LOG, behind the end of an
/// open BLOCK.
pub proof fn law_texts_are_answered_with_a_line(s: Live, cap_dropped: u32)
    ensures
        ({
            let ping = commanding(s, HostCmd::LogTest, cap_dropped);
            let stats = commanding(s, HostCmd::Stats, cap_dropped);
            let p = frame::frame_bytes(frame::Frame::Log(vstd::utf8::encode_utf8("ping"@)));
            let c = frame::frame_bytes(
                frame::Frame::Log(
                    vstd::utf8::encode_utf8(stats_text(cap_dropped, s.pa_teif, s.pb_teif)),
                ),
            );
            &&& p.is_suffix_of(ping)
            &&& c.is_suffix_of(stats)
            &&& s.pending.open ==> ping.len() == p.len() + 4 && stats.len() == c.len() + 4
            &&& !s.pending.open ==> ping == p && stats == c
        }),
{
}

/// What three calls put on the wire, START, samples and STOP, reads back as the
/// acknowledgement of START, the samples, all of them, in order, and the acknowledgement
/// of STOP.
pub proof fn law_what_is_drained_reads_back<S: Sink>(
    s1: &mut Session,
    s2: &mut Session,
    s3: &mut Session,
    k1: &mut S,
    k2: &mut S,
    k3: &mut S,
    samples: &[u32],
    cap_dropped: u32,
)
    requires
        !samples@.contains(0xffff_ffff),
        old(s1).wf(),
        old(s1)@.state == StreamState::Stopped,
        call_ensures(Session::on_command::<S>, (s1, HostCmd::Start, cap_dropped, k1), ()),
        *old(s2) == *final(s1),
        *old(k2) == *final(k1),
        call_ensures(Session::on_samples::<S>, (s2, samples, k2), ()),
        *old(s3) == *final(s2),
        *old(k3) == *final(k2),
        call_ensures(Session::on_command::<S>, (s3, HostCmd::Stop, cap_dropped, k3), ()),
    ensures
        old(k1).offered().is_prefix_of(final(k3).offered()),
        ({
            let sent = final(k3).offered().skip(old(k1).offered().len() as int);
            let o = decoder::fed(Seq::empty(), sent);
            &&& o.error is None
            &&& o.held.len() == 0
            &&& stream::items(o.events) == seq![stream::Item::Started] + stream::sample_items(
                samples@,
            ) + seq![stream::Item::Stopped]
        }),
        final(s3)@.state == StreamState::Stopped,
{
    let a = commanding(old(s1)@, HostCmd::Start, cap_dropped);
    let b = encoder::feeding_all(old(s2)@.pending, samples@);
    let c = commanding(old(s3)@, HostCmd::Stop, cap_dropped);
    let before = old(k1).offered();
    assert(final(k3).offered() == before + a + b + c);
    lemma_behind_the_rest(before, a, b, c);
    lemma_session_bytes(samples@);
    round_trip::law_session_survives_the_wire(samples@);
}

proof fn lemma_behind_the_rest(before: Seq<u8>, a: Seq<u8>, b: Seq<u8>, c: Seq<u8>)
    ensures
        before.is_prefix_of(before + a + b + c),
        (before + a + b + c).skip(before.len() as int) == a + b + c,
{
    assert((before + a + b + c).skip(before.len() as int) =~= a + b + c);
}

proof fn lemma_session_bytes(samples: Seq<u32>)
    ensures
        round_trip::session_bytes(samples) == frame::frame_bytes(frame::Frame::Started)
            + encoder::feeding_all(encoder::idle(), samples) + (encoder::flushing(
            encoder::after_feeding_all(encoder::idle(), samples),
        ) + frame::frame_bytes(frame::Frame::Stopped)),
{
    assert(round_trip::session_bytes(samples) =~= frame::frame_bytes(frame::Frame::Started)
        + encoder::feeding_all(encoder::idle(), samples) + (encoder::flushing(
        encoder::after_feeding_all(encoder::idle(), samples),
    ) + frame::frame_bytes(frame::Frame::Stopped)));
}

/// What a call of [`Session::end_burst`] does: lost samples are reported once, with their
/// number, and where none were lost nothing is sent. The samples held back stay, and the
/// bus counts as busy now.
pub proof fn law_losses_are_reported<S: Sink>(
    s: &mut Session,
    dropped: u32,
    now: u64,
    k: &mut S,
)
    requires
        old(s).wf(),
        call_ensures(Session::end_burst::<S>, (s, dropped, now, k), ()),
    ensures
        dropped == 0 ==> final(k).offered() == old(k).offered(),
        dropped > 0 ==> ({
            let sent = final(k).offered();
            &&& old(k).offered().is_prefix_of(sent)
            &&& sent.len() == old(k).offered().len() + 5 + if old(s)@.pending.open {
                4int
            } else {
                0int
            }
            &&& sent[sent.len() - 5] == 0xfd
            &&& sent.skip(sent.len() - 4) == bytes::le32(dropped)
        }),
        final(s)@.pending.run == old(s)@.pending.run,
        final(s)@.last_idle_log == now,
        final(s)@.state == old(s)@.state,
{
    let f = frame::Frame::Overrun { dropped };
    frame::law_fields_lie_where_they_belong(f);
    let b = frame::frame_bytes(f);
    let sent = final(k).offered();
    if dropped > 0 {
        assert(sent.skip(sent.len() - 4) =~= b.subrange(1, 5));
    }
}

/// What calls of [`Session::on_idle`] do: the first sends what is held back, and a line
/// where five seconds have passed since the bus was busy or the last line was sent. One
/// right after it sends nothing.
pub proof fn law_an_idle_bus_is_quiet<S: Sink>(
    s: &mut Session,
    k: &mut S,
    t: &mut Session,
    l: &mut S,
    now: u64,
    cnt: u16,
    pa_ndtr: u16,
    pb_ndtr: u16,
)
    requires
        old(s).wf(),
        old(s)@.last_idle_log <= now,
        call_ensures(Session::on_idle::<S>, (s, now, cnt, pa_ndtr, pb_ndtr, k), ()),
        *old(t) == *final(s),
        *old(l) == *final(k),
        call_ensures(Session::on_idle::<S>, (t, now, cnt, pa_ndtr, pb_ndtr, l), ()),
    ensures
        now < old(s)@.last_idle_log + 5_000_000 ==> final(k).offered() == old(k).offered()
            + encoder::flushing(old(s)@.pending),
        now >= old(s)@.last_idle_log + 5_000_000 ==> final(k).offered() == old(k).offered()
            + encoder::flushing(old(s)@.pending) + frame::frame_bytes(
            log_frame(idle_text(cnt, pa_ndtr, pb_ndtr)),
        ),
        final(l).offered() == final(k).offered(),
        final(s)@.pending == encoder::idle(),
{
    assert(encoder::flushing(encoder::idle()) =~= Seq::<u8>::empty());
}

/// What calls of [`Session::report`] do: the counters are sent once five seconds have
/// passed since the last time, and then not right again. What is held back stays.
pub proof fn law_counters_are_sent_every_five_seconds<S: Sink>(
    s: &mut Session,
    k: &mut S,
    t: &mut Session,
    l: &mut S,
    now: u64,
    cap_dropped: u32,
)
    requires
        old(s).wf(),
        old(s)@.last_stats <= now,
        call_ensures(Session::report::<S>, (s, now, cap_dropped, k), ()),
        *old(t) == *final(s),
        *old(l) == *final(k),
        call_ensures(Session::report::<S>, (t, now, cap_dropped, l), ()),
    ensures
        now < old(s)@.last_stats + 5_000_000 ==> final(k).offered() == old(k).offered(),
        now < old(s)@.last_stats + 5_000_000 ==> final(s)@ == old(s)@,
        now >= old(s)@.last_stats + 5_000_000 ==> frame::frame_bytes(
            log_frame(stats_text(cap_dropped, old(s)@.pa_teif, old(s)@.pb_teif)),
        ).is_suffix_of(final(k).offered()),
        now >= old(s)@.last_stats + 5_000_000 ==> final(s)@.last_stats == now,
        final(l).offered() == final(k).offered(),
        final(s)@.pending.run == old(s)@.pending.run,
{
    let f = frame::frame_bytes(
        log_frame(stats_text(cap_dropped, old(s)@.pa_teif, old(s)@.pb_teif)),
    );
    let sent = final(k).offered();
    if due(old(s)@.last_stats, now) {
        assert(f =~= sent.skip(sent.len() - f.len()));
    }
}

/// What a call of [`Session::on_transfer_errors`] does: each ring's errors are counted
/// on their own.
pub proof fn law_transfer_errors_are_counted(s: &mut Session, pa: bool, pb: bool)
    requires
        old(s).wf(),
        call_ensures(Session::on_transfer_errors, (s, pa, pb), ()),
    ensures
        old(s)@.pa_teif < 0xffff_ffff ==> final(s)@.pa_teif - old(s)@.pa_teif == if pa {
            1int
        } else {
            0int
        },
        old(s)@.pb_teif < 0xffff_ffff ==> final(s)@.pb_teif - old(s)@.pb_teif == if pb {
            1int
        } else {
            0int
        },
        final(s)@.pending == old(s)@.pending,
        final(s)@.state == old(s)@.state,
{
}

/// What calls of [`Session::on_samples`] and [`Session::greet`] put on the wire of a
/// stopped session: no sample, and the board's greeting.
pub proof fn law_a_stopped_session_sends_no_samples<S: Sink>(
    s: &mut Session,
    samples: &[u32],
    k: &mut S,
    t: &mut Session,
    l: &mut S,
)
    requires
        old(s).wf(),
        old(s)@.state == StreamState::Stopped,
        call_ensures(Session::on_samples::<S>, (s, samples, k), ()),
        old(t).wf(),
        !old(t)@.pending.open,
        call_ensures(Session::greet::<S>, (t, l), ()),
    ensures
        final(k).offered() == old(k).offered(),
        final(s)@ == old(s)@,
        final(l).offered() == old(l).offered() + frame::frame_bytes(
            frame::Frame::Log(
                vstd::utf8::encode_utf8("aq-lcd-grab stm32 firmware booted, awaiting START"@),
            ),
        ),
{
    assert(final(l).offered() =~= old(l).offered() + frame::frame_bytes(
        log_frame("aq-lcd-grab stm32 firmware booted, awaiting START"@),
    ));
}

} // verus!
