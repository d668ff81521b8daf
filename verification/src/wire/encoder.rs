//! Sample-stream encoder.
//!
//! Turns a stream of packed `(pa, pb)` samples into RUN and BLOCK frames. One
//! sample is a `u32` whose little-endian bytes are the on-wire layout
//! `[pa_lo pa_hi pb_lo pb_hi]`.
//!
//! The encoder holds only the current run and whether a BLOCK is open on the
//! sink. Each new sample either extends the run or resolves it: a lone sample
//! joins the open BLOCK, a real run (two samples or more) ends the BLOCK and
//! becomes a RUN. A BLOCK has no leading count, so lone samples stream straight
//! to the sink and no frame is buffered.

use vstd::prelude::*;

use crate::bytes;
use crate::wire::frame;
use crate::wire::frame::{
    BLOCK_SENTINEL, TAG_BLOCK, TAG_LOG, TAG_OVERRUN, TAG_RUN, TAG_STARTED, TAG_STOPPED, TAG_TICK,
};
use crate::wire::sink::{push_all, Sink};

verus! {

/// Largest run that a single RUN can carry. Longer runs become several.
pub const MAX_RUN: u16 = 65535;

/// What frame, if any, has been started on the sink and not ended.
#[derive(Clone, Copy, PartialEq, Eq, Structural)]
enum State {
    /// None; the next sample starts one.
    Idle,
    /// A BLOCK: its tag and samples have been pushed, its sentinel has not.
    BlockOpen,
}

/// Streaming encoder over packed samples.
pub struct Encoder {
    /// The sample that is being counted, where `run_len > 0`.
    run_sample: u32,
    /// Length of the run in progress; 0 means that there is none.
    run_len: u16,
    /// Which frame is open on the sink.
    state: State,
}

/// What an encoder remembers.
pub struct Pending {
    /// The run that is not yet on the wire: its sample and its length, below
    /// [`MAX_RUN`].
    pub run: Option<(u32, nat)>,
    /// Whether a BLOCK is open.
    pub open: bool,
}

/// Nothing remembered.
pub open spec fn idle() -> Pending {
    Pending { run: None, open: false }
}

/// The bytes that end the open frame, if there is one.
pub open spec fn closing(open: bool) -> Seq<u8> {
    if open {
        bytes::le32(BLOCK_SENTINEL)
    } else {
        Seq::empty()
    }
}

/// The bytes that put a lone sample into the BLOCK.
pub open spec fn joining(open: bool, sample: u32) -> Seq<u8> {
    if open {
        bytes::le32(sample)
    } else {
        seq![TAG_BLOCK] + bytes::le32(sample)
    }
}

/// The bytes that the pending run becomes: a lone sample joins the BLOCK, a real
/// run ends it.
pub open spec fn resolving(p: Pending) -> Seq<u8> {
    match p.run {
        None => Seq::empty(),
        Some((sample, n)) => if n == 1 {
            joining(p.open, sample)
        } else {
            closing(p.open) + frame::frame_bytes(frame::Frame::Run { n: n as u16, sample })
        },
    }
}

/// What is remembered once the pending run is on the wire.
pub open spec fn resolved(p: Pending) -> Pending {
    match p.run {
        None => p,
        Some((_, n)) => Pending { run: None, open: n == 1 },
    }
}

/// The bytes that a sample puts on the wire.
pub open spec fn feeding(p: Pending, sample: u32) -> Seq<u8> {
    match p.run {
        Some((s, n)) => if s != sample {
            resolving(p)
        } else if n + 1 == MAX_RUN {
            closing(p.open) + frame::frame_bytes(frame::Frame::Run { n: MAX_RUN, sample })
        } else {
            Seq::empty()
        },
        None => Seq::empty(),
    }
}

/// What is remembered after a sample.
pub open spec fn after_feeding(p: Pending, sample: u32) -> Pending {
    match p.run {
        Some((s, n)) => if s != sample {
            Pending { run: Some((sample, 1)), ..resolved(p) }
        } else if n + 1 == MAX_RUN {
            idle()
        } else {
            Pending { run: Some((sample, n + 1)), ..p }
        },
        None => Pending { run: Some((sample, 1)), ..p },
    }
}

/// What is remembered after a list of samples.
pub open spec fn after_feeding_all(p: Pending, samples: Seq<u32>) -> Pending
    decreases samples.len(),
{
    if samples.len() == 0 {
        p
    } else {
        after_feeding(after_feeding_all(p, samples.drop_last()), samples.last())
    }
}

/// The bytes that a list of samples puts on the wire.
pub open spec fn feeding_all(p: Pending, samples: Seq<u32>) -> Seq<u8>
    decreases samples.len(),
{
    if samples.len() == 0 {
        Seq::empty()
    } else {
        feeding_all(p, samples.drop_last()) + feeding(
            after_feeding_all(p, samples.drop_last()),
            samples.last(),
        )
    }
}

/// The bytes that put everything pending on the wire.
pub open spec fn flushing(p: Pending) -> Seq<u8> {
    resolving(p) + closing(resolved(p).open)
}

/// The bytes that put a frame other than samples on the wire: the open BLOCK is
/// ended first.
pub open spec fn interjecting(p: Pending, f: frame::Frame) -> Seq<u8> {
    closing(p.open) + frame::frame_bytes(f)
}

impl View for Encoder {
    type V = Pending;

    closed spec fn view(&self) -> Pending {
        Pending {
            run: if self.run_len == 0 {
                None
            } else {
                Some((self.run_sample, self.run_len as nat))
            },
            open: self.state == State::BlockOpen,
        }
    }
}

impl Default for Encoder {
    fn default() -> (encoder: Self)
        ensures
            encoder.wf(),
            encoder@ == idle(),
    {
        Encoder { run_sample: 0, run_len: 0, state: State::Idle }
    }
}

impl Encoder {
    /// A run never reaches the longest that a RUN can carry: it is put on the
    /// wire when it does.
    pub closed spec fn wf(&self) -> bool {
        self.run_len < MAX_RUN
    }

    /// Drops all pending state. An open BLOCK is not ended on the wire: this is
    /// for a stream that is being abandoned.
    pub fn reset(&mut self)
        requires
            old(self).wf(),
        ensures
            final(self).wf(),
            final(self)@ == idle(),
    {
        self.run_len = 0;
        self.state = State::Idle;
    }

    /// Feeds one sample.
    pub fn feed<S: Sink>(&mut self, sample: u32, sink: &mut S)
        requires
            old(self).wf(),
        ensures
            final(self).wf(),
            final(self)@ == after_feeding(old(self)@, sample),
            final(sink).offered() == old(sink).offered() + feeding(old(self)@, sample),
            final(sink).flushed() >= old(sink).flushed(),
    {
        assert(old(sink).offered() + Seq::<u8>::empty() =~= old(sink).offered());
        // Same sample as the run in progress: extend it.
        if self.run_len > 0 && sample == self.run_sample {
            self.run_len += 1;
            // A RUN carries no more than this; put it on the wire and start over.
            if self.run_len == MAX_RUN {
                self.go_idle(sink);
                self.emit_run(self.run_len, self.run_sample, sink);
                self.run_len = 0;
                assert(sink.offered() =~= old(sink).offered() + feeding(old(self)@, sample));
            }
            return;
        }
        // Different sample: the pending run is done.
        self.resolve(sink);
        self.run_sample = sample;
        self.run_len = 1;
    }

    /// Puts everything pending on the wire. For the end of a burst, and for STOP.
    pub fn flush<S: Sink>(&mut self, sink: &mut S)
        requires
            old(self).wf(),
        ensures
            final(self).wf(),
            final(self)@ == idle(),
            final(sink).offered() == old(sink).offered() + flushing(old(self)@),
            final(sink).flushed() == final(sink).offered().len(),
    {
        self.resolve(sink);
        self.go_idle(sink);
        assert(sink.offered() =~= old(sink).offered() + flushing(old(self)@));
        sink.flush();
    }

    /// Resolves the pending run.
    fn resolve<S: Sink>(&mut self, sink: &mut S)
        requires
            old(self).wf(),
        ensures
            final(self).wf(),
            final(self)@ == resolved(old(self)@),
            final(sink).offered() == old(sink).offered() + resolving(old(self)@),
            final(sink).flushed() >= old(sink).flushed(),
    {
        assert(old(sink).offered() + Seq::<u8>::empty() =~= old(sink).offered());
        if self.run_len == 1 {
            self.append_block(self.run_sample, sink);
        } else if self.run_len > 1 {
            self.go_idle(sink);
            self.emit_run(self.run_len, self.run_sample, sink);
            assert(sink.offered() =~= old(sink).offered() + resolving(old(self)@));
        }
        self.run_len = 0;
    }

    /// Appends one lone sample to the BLOCK, starting the frame if none is open.
    fn append_block<S: Sink>(&mut self, sample: u32, sink: &mut S)
        ensures
            *final(self) == (Encoder { state: State::BlockOpen, ..*old(self) }),
            final(sink).offered() == old(sink).offered() + joining(old(self)@.open, sample),
            final(sink).flushed() >= old(sink).flushed(),
    {
        if self.state == State::Idle {
            sink.push(TAG_BLOCK);
            self.state = State::BlockOpen;
        }
        push_all(&bytes::split_u32(sample), sink);
        assert(sink.offered() =~= old(sink).offered() + joining(old(self)@.open, sample));
    }

    /// Ends whatever frame is open.
    fn go_idle<S: Sink>(&mut self, sink: &mut S)
        ensures
            *final(self) == (Encoder { state: State::Idle, ..*old(self) }),
            final(sink).offered() == old(sink).offered() + closing(old(self)@.open),
            final(sink).flushed() >= old(sink).flushed(),
    {
        assert(old(sink).offered() + Seq::<u8>::empty() =~= old(sink).offered());
        if self.state == State::BlockOpen {
            push_all(&bytes::split_u32(BLOCK_SENTINEL), sink);
            self.state = State::Idle;
        }
    }

    /// Puts one RUN on the wire.
    fn emit_run<S: Sink>(&mut self, len: u16, sample: u32, sink: &mut S)
        ensures
            *final(self) == *old(self),
            final(sink).offered() == old(sink).offered() + frame::frame_bytes(
                frame::Frame::Run { n: len, sample },
            ),
            final(sink).flushed() >= old(sink).flushed(),
    {
        sink.push(TAG_RUN);
        push_all(&bytes::split_u16(len), sink);
        push_all(&bytes::split_u32(sample), sink);
        assert(sink.offered() =~= old(sink).offered() + frame::frame_bytes(
            frame::Frame::Run { n: len, sample },
        ));
    }

    /// Puts a TICK on the wire: the wall clock of the drain pass, what it did and
    /// the backlog it left. The open frame is ended; a run in progress goes on.
    pub fn tick<S: Sink>(
        &mut self,
        t_us: u32,
        dt_us: u16,
        n_drained: u16,
        n_pending: u16,
        bytes_out: u32,
        sink: &mut S,
    )
        requires
            old(self).wf(),
        ensures
            final(self).wf(),
            final(self)@ == (Pending { open: false, ..old(self)@ }),
            final(sink).offered() == old(sink).offered() + interjecting(
                old(self)@,
                frame::Frame::Tick { t_us, dt_us, n_drained, n_pending, bytes_out },
            ),
            final(sink).flushed() >= old(sink).flushed(),
    {
        self.go_idle(sink);
        sink.push(TAG_TICK);
        push_all(&bytes::split_u32(t_us), sink);
        push_all(&bytes::split_u16(dt_us), sink);
        push_all(&bytes::split_u16(n_drained), sink);
        push_all(&bytes::split_u16(n_pending), sink);
        push_all(&bytes::split_u32(bytes_out), sink);
        assert(sink.offered() =~= old(sink).offered() + interjecting(
            old(self)@,
            frame::Frame::Tick { t_us, dt_us, n_drained, n_pending, bytes_out },
        ));
    }

    /// Puts an OVERRUN on the wire: so many samples were lost.
    pub fn overrun<S: Sink>(&mut self, dropped: u32, sink: &mut S)
        requires
            old(self).wf(),
        ensures
            final(self).wf(),
            final(self)@ == (Pending { open: false, ..old(self)@ }),
            final(sink).offered() == old(sink).offered() + interjecting(
                old(self)@,
                frame::Frame::Overrun { dropped },
            ),
            final(sink).flushed() >= old(sink).flushed(),
    {
        self.go_idle(sink);
        sink.push(TAG_OVERRUN);
        push_all(&bytes::split_u32(dropped), sink);
        assert(sink.offered() =~= old(sink).offered() + interjecting(
            old(self)@,
            frame::Frame::Overrun { dropped },
        ));
    }

    /// Puts a LOG on the wire. A zero byte ends it, so a text should hold none.
    pub fn log<S: Sink>(&mut self, text: &str, sink: &mut S)
        requires
            old(self).wf(),
        ensures
            final(self).wf(),
            final(self)@ == (Pending { open: false, ..old(self)@ }),
            final(sink).offered() == old(sink).offered() + interjecting(
                old(self)@,
                frame::Frame::Log(vstd::utf8::encode_utf8(text@)),
            ),
            final(sink).flushed() >= old(sink).flushed(),
    {
        self.go_idle(sink);
        sink.push(TAG_LOG);
        push_all(text.as_bytes(), sink);
        sink.push(0);
        assert(sink.offered() =~= old(sink).offered() + interjecting(
            old(self)@,
            frame::Frame::Log(vstd::utf8::encode_utf8(text@)),
        ));
    }

    /// Acknowledges START.
    pub fn started<S: Sink>(&mut self, sink: &mut S)
        requires
            old(self).wf(),
        ensures
            final(self).wf(),
            final(self)@ == (Pending { open: false, ..old(self)@ }),
            final(sink).offered() == old(sink).offered() + interjecting(
                old(self)@,
                frame::Frame::Started,
            ),
            final(sink).flushed() >= old(sink).flushed(),
    {
        self.go_idle(sink);
        sink.push(TAG_STARTED);
        assert(sink.offered() =~= old(sink).offered() + interjecting(
            old(self)@,
            frame::Frame::Started,
        ));
    }

    /// Acknowledges STOP.
    pub fn stopped<S: Sink>(&mut self, sink: &mut S)
        requires
            old(self).wf(),
        ensures
            final(self).wf(),
            final(self)@ == (Pending { open: false, ..old(self)@ }),
            final(sink).offered() == old(sink).offered() + interjecting(
                old(self)@,
                frame::Frame::Stopped,
            ),
            final(sink).flushed() >= old(sink).flushed(),
    {
        self.go_idle(sink);
        sink.push(TAG_STOPPED);
        assert(sink.offered() =~= old(sink).offered() + interjecting(
            old(self)@,
            frame::Frame::Stopped,
        ));
    }
}

/// What is remembered after `n` equal samples from nothing on, and that none of them
/// is on the wire yet.
proof fn lemma_a_run_waits(sample: u32, n: nat)
    requires
        0 < n < 65535,
    ensures
        ({
            let samples = Seq::new(n, |i: int| sample);
            &&& feeding_all(idle(), samples).len() == 0
            &&& after_feeding_all(idle(), samples) == (Pending {
                run: Some((sample, n)),
                open: false,
            })
        }),
    decreases n,
{
    let samples = Seq::new(n, |i: int| sample);
    if n > 1 {
        lemma_a_run_waits(sample, (n - 1) as nat);
        assert(samples.drop_last() =~= Seq::new((n - 1) as nat, |i: int| sample));
    } else {
        assert(samples.drop_last() =~= Seq::<u32>::empty());
        assert(feeding_all(idle(), Seq::empty()).len() == 0);
        assert(after_feeding_all(idle(), Seq::empty()) == idle());
    }
}

/// Equal samples make one RUN, however many there are up to 65535: nothing is on the
/// wire before they end, and then their number and the sample are. The longest run
/// leaves by itself.
pub proof fn law_equal_samples_make_one_run(sample: u32, n: nat, other: u32)
    requires
        2 <= n <= 65535,
        other != sample,
    ensures
        ({
            let samples = Seq::new(n, |i: int| sample);
            let p = after_feeding_all(idle(), samples);
            let run = frame::frame_bytes(frame::Frame::Run { n: n as u16, sample });
            &&& n < 65535 ==> feeding_all(idle(), samples).len() == 0
            &&& n < 65535 ==> feeding(p, other) == run
            &&& n < 65535 ==> flushing(p) == run
            &&& n == 65535 ==> feeding_all(idle(), samples) == run
            &&& n == 65535 ==> p == idle()
        }),
{
    let samples = Seq::new(n, |i: int| sample);
    let run = frame::frame_bytes(frame::Frame::Run { n: n as u16, sample });
    let none = Seq::<u8>::empty();
    assert(none + run =~= run);
    assert(run + none =~= run);
    if n < 65535 {
        lemma_a_run_waits(sample, n);
    } else {
        let before = Seq::new(65534, |i: int| sample);
        lemma_a_run_waits(sample, 65534);
        assert(samples.drop_last() =~= before);
        assert(feeding_all(idle(), before) =~= none);
        assert(feeding_all(idle(), samples) =~= run);
    }
}

/// Samples that differ from their neighbours share one BLOCK: the first puts the tag on
/// the wire, each puts its four bytes there once the next is known, and a run or the
/// end puts four bytes of ones.
pub proof fn law_lone_samples_share_a_block(open: bool, sample: u32, next: u32)
    requires
        sample != next,
    ensures
        ({
            let p = Pending { run: Some((sample, 1)), open };
            let q = after_feeding(p, next);
            &&& open ==> feeding(p, next) == bytes::le32(sample)
            &&& !open ==> feeding(p, next) == seq![1u8] + bytes::le32(sample)
            &&& q.open
            &&& q.run == Some((next, 1nat))
            &&& flushing(p) == feeding(p, next) + seq![0xffu8, 0xffu8, 0xffu8, 0xffu8]
            &&& feeding(q, next).len() == 0
        }),
{
    assert(bytes::le32(BLOCK_SENTINEL) =~= seq![0xffu8, 0xffu8, 0xffu8, 0xffu8]);
}

} // verus!
