//! Encoder with alternation: runs that alternate between two samples become one
//! frame.
//!
//! The encoder holds back, from the oldest to the newest: completed runs that
//! may become a REPEAT2, lone samples for a BLOCK, and the run in progress.
//! Frames leave in that order, so the wire stays in temporal order.

use vstd::prelude::*;

use crate::bytes;
use crate::wire::frame;

verus! {

pub const TAG_BLOCK: u8 = 0x01;

pub const TAG_RUN: u8 = 0x02;

pub const TAG_TICK: u8 = 0x03;

pub const TAG_REPEAT2: u8 = 0x04;

pub const TAG_OVERRUN: u8 = 0xFD;

pub const TAG_LOG: u8 = 0xFE;

pub const TAG_STARTED: u8 = 0xFB;

pub const TAG_STOPPED: u8 = 0xFC;

pub const HOST_CMD_START: u8 = 0x01;

pub const HOST_CMD_STOP: u8 = 0x02;

pub const HOST_CMD_LOG_TEST: u8 = 0x03;

pub const HOST_CMD_STATS: u8 = 0x04;

/// Longest run of one RUN.
pub const MAX_RUN: u16 = 65535;

/// Most samples of one BLOCK.
pub const MAX_BLOCK: usize = 255;

/// Longest run that fits a byte of a REPEAT2.
pub const REPEAT2_MAX_LEN: u16 = 255;

/// Most runs of one REPEAT2. This bounds the frame, and how long an alternation
/// is held back.
pub const REPEAT2_BUF_RUNS: usize = 512;

/// Most bytes of text in one LOG.
pub const LOG_MAX: usize = 256;

/// What an encoder does to its sink.
pub enum Op {
    Push(u8),
    Commit,
}

/// Byte sink. A frame's bytes are pushed one at a time and then committed: a
/// sink that can fail within a frame buffers it, and discards it on commit if a
/// push failed. Else the reader would parse a truncated frame.
pub trait Sink {
    /// Everything that was done to the sink, in order.
    open spec fn history(&self) -> Seq<Op> {
        arbitrary()
    }

    /// Pushes one byte. Returns whether it was accepted.
    fn push(&mut self, b: u8) -> (accepted: bool)
        ensures
            final(self).history() == old(self).history().push(Op::Push(b)),
    ;

    /// Ends a frame. A sink without a limit has nothing to do here but take note.
    fn commit_frame(&mut self)
        ensures
            final(self).history() == old(self).history().push(Op::Commit),
    ;
}

/// A sink without a limit that keeps each frame.
pub struct FrameSink {
    /// The frames that were committed.
    pub frames: Vec<Vec<u8>>,
    /// Bytes since the last commit.
    pub staged: Vec<u8>,
}

/// What was done to a sink that keeps these frames.
pub open spec fn kept(frames: Seq<Vec<u8>>) -> Seq<Op>
    decreases frames.len(),
{
    if frames.len() == 0 {
        Seq::empty()
    } else {
        kept(frames.drop_last()) + framing(frames.last()@)
    }
}

impl FrameSink {
    /// A sink with nothing in it.
    pub fn new() -> (sink: Self)
        ensures
            sink.frames@.len() == 0,
            sink.staged@.len() == 0,
            sink.history() == Seq::<Op>::empty(),
    {
        let sink = FrameSink { frames: Vec::new(), staged: Vec::new() };
        assert(sink.history() =~= Seq::<Op>::empty());
        sink
    }
}

impl Sink for FrameSink {
    open spec fn history(&self) -> Seq<Op> {
        kept(self.frames@) + pushes(self.staged@)
    }

    fn push(&mut self, b: u8) -> (accepted: bool)
        ensures
            accepted,
    {
        self.staged.push(b);
        assert(self.history() =~= old(self).history().push(Op::Push(b)));
        true
    }

    fn commit_frame(&mut self) {
        let mut frame: Vec<u8> = Vec::new();
        core::mem::swap(&mut frame, &mut self.staged);
        self.frames.push(frame);
        assert(self.frames@.drop_last() =~= old(self).frames@);
        assert(self.history() =~= old(self).history().push(Op::Commit));
    }
}

/// Bytes pushed one by one.
pub open spec fn pushes(s: Seq<u8>) -> Seq<Op> {
    s.map_values(|b: u8| Op::Push(b))
}

/// A frame pushed and committed.
pub open spec fn framing(s: Seq<u8>) -> Seq<Op> {
    pushes(s).push(Op::Commit)
}

/// The front of a text that a LOG carries.
pub open spec fn log_body(text: Seq<u8>) -> Seq<u8> {
    if text.len() <= LOG_MAX {
        text
    } else {
        text.take(LOG_MAX as int)
    }
}

/// The bytes of a frame, as this board lays it out: a LOG has its length up front
/// and is cut to [`LOG_MAX`] bytes.
pub open spec fn frame_bytes(f: frame::Frame) -> Seq<u8> {
    match f {
        frame::Frame::Block(samples) => seq![TAG_BLOCK] + bytes::le32s(samples) + seq![
            0xffu8,
            0xffu8,
            0xffu8,
            0xffu8,
        ],
        frame::Frame::Run { n, sample } => seq![TAG_RUN] + bytes::le16(n) + bytes::le32(sample),
        frame::Frame::Repeat2 { val_a, val_b, run_lens } => seq![TAG_REPEAT2] + bytes::le32(val_a)
            + bytes::le32(val_b) + run_lens + seq![0u8],
        frame::Frame::Tick { t_us, dt_us, n_drained, n_pending, bytes_out } => seq![TAG_TICK]
            + bytes::le32(t_us) + bytes::le16(dt_us) + bytes::le16(n_drained) + bytes::le16(
            n_pending,
        ) + bytes::le32(bytes_out),
        frame::Frame::Overrun { dropped } => seq![TAG_OVERRUN] + bytes::le32(dropped),
        frame::Frame::Log(text) => seq![TAG_LOG] + bytes::le16(log_body(text).len() as u16)
            + log_body(text),
        frame::Frame::Started => seq![TAG_STARTED],
        frame::Frame::Stopped => seq![TAG_STOPPED],
    }
}

/// What putting frames on the wire does to the sink.
pub open spec fn sending(frames: Seq<frame::Frame>) -> Seq<Op>
    decreases frames.len(),
{
    if frames.len() == 0 {
        Seq::empty()
    } else {
        sending(frames.drop_last()) + framing(frame_bytes(frames.last()))
    }
}

/// Completed runs that are held back.
pub enum Paired {
    Nothing,
    /// One run that waits for a partner: at most 255 long.
    Deferred { len: nat, sample: u32 },
    /// Runs that alternate between two samples, the first of `a`.
    Active { a: u32, b: u32, lens: Seq<u8> },
}

/// What an encoder holds back, from the oldest to the newest.
pub struct Held {
    pub paired: Paired,
    /// Lone samples.
    pub block: Seq<u32>,
    /// The run in progress: its sample and its length.
    pub run: Option<(u32, nat)>,
}

/// Nothing held back.
pub open spec fn nothing() -> Held {
    Held { paired: Paired::Nothing, block: Seq::empty(), run: None }
}

/// The frames that completed runs become.
pub open spec fn closing(p: Paired) -> Seq<frame::Frame> {
    match p {
        Paired::Nothing => Seq::empty(),
        Paired::Deferred { len, sample } => seq![frame::Frame::Run { n: len as u16, sample }],
        Paired::Active { a, b, lens } => seq![
            frame::Frame::Repeat2 { val_a: a, val_b: b, run_lens: lens },
        ],
    }
}

/// The frames that the lone samples become: completed runs are older and go
/// first.
pub open spec fn block_frames(h: Held) -> Seq<frame::Frame> {
    if h.block.len() == 0 {
        Seq::empty()
    } else {
        closing(h.paired).push(frame::Frame::Block(h.block))
    }
}

/// What is held back once the lone samples are on the wire.
pub open spec fn block_flushed(h: Held) -> Held {
    if h.block.len() == 0 {
        h
    } else {
        Held { paired: Paired::Nothing, block: Seq::empty(), ..h }
    }
}

/// One more lone sample; a full BLOCK leaves.
pub open spec fn joined(h: Held, sample: u32) -> Held {
    let more = Held { block: h.block.push(sample), ..h };
    if more.block.len() == MAX_BLOCK {
        block_flushed(more)
    } else {
        more
    }
}

/// The frames that one more lone sample makes leave.
pub open spec fn join_frames(h: Held, sample: u32) -> Seq<frame::Frame> {
    let more = Held { block: h.block.push(sample), ..h };
    if more.block.len() == MAX_BLOCK {
        block_frames(more)
    } else {
        Seq::empty()
    }
}

/// The sample that continues an alternation.
pub open spec fn expected(a: u32, b: u32, lens: Seq<u8>) -> u32 {
    if lens.len() % 2 == 0 {
        a
    } else {
        b
    }
}

/// Whether a completed run continues an alternation.
pub open spec fn continues(p: Paired, len: nat, sample: u32) -> bool {
    p matches Paired::Active { a, b, lens } && sample == expected(a, b, lens) && len
        <= REPEAT2_MAX_LEN
}

/// Whether a completed run and the one that waits make an alternation.
pub open spec fn pairs(p: Paired, len: nat, sample: u32) -> bool {
    p matches Paired::Deferred { len: l, sample: s } && s != sample && len <= REPEAT2_MAX_LEN
}

/// The completed runs after one more.
pub open spec fn committed(p: Paired, len: nat, sample: u32) -> Paired {
    if continues(p, len, sample) {
        let lens = p->lens.push(len as u8);
        if lens.len() == REPEAT2_BUF_RUNS {
            Paired::Nothing
        } else {
            Paired::Active { a: p->a, b: p->b, lens }
        }
    } else if pairs(p, len, sample) {
        Paired::Active {
            a: p->sample,
            b: sample,
            lens: seq![p->len as u8, len as u8],
        }
    } else if len <= REPEAT2_MAX_LEN {
        Paired::Deferred { len, sample }
    } else {
        Paired::Nothing
    }
}

/// The frames that one more completed run makes leave.
pub open spec fn commit_frames(p: Paired, len: nat, sample: u32) -> Seq<frame::Frame> {
    if continues(p, len, sample) {
        let lens = p->lens.push(len as u8);
        if lens.len() == REPEAT2_BUF_RUNS {
            closing(Paired::Active { a: p->a, b: p->b, lens })
        } else {
            Seq::empty()
        }
    } else if pairs(p, len, sample) {
        Seq::empty()
    } else if len <= REPEAT2_MAX_LEN {
        closing(p)
    } else {
        closing(p).push(frame::Frame::Run { n: len as u16, sample })
    }
}

/// What is held back once the run in progress is over.
pub open spec fn run_flushed(h: Held) -> Held {
    match h.run {
        None => h,
        Some((sample, n)) => if n == 1 {
            joined(Held { run: None, ..h }, sample)
        } else {
            Held { paired: committed(h.paired, n, sample), run: None, ..h }
        },
    }
}

/// The frames that the end of the run in progress makes leave.
pub open spec fn run_frames(h: Held) -> Seq<frame::Frame> {
    match h.run {
        None => Seq::empty(),
        Some((sample, n)) => if n == 1 {
            join_frames(Held { run: None, ..h }, sample)
        } else {
            commit_frames(h.paired, n, sample)
        },
    }
}

/// The run in progress, one longer: when it turns out to be a real run, the lone
/// samples before it leave; at the longest, it leaves itself.
pub open spec fn extended(h: Held, sample: u32, n: nat) -> Held {
    let longer = Held { run: Some((sample, n + 1)), ..h };
    let out = if n + 1 == 2 {
        block_flushed(longer)
    } else {
        longer
    };
    if n + 1 == MAX_RUN {
        run_flushed(out)
    } else {
        out
    }
}

/// The frames that leave when the run in progress gets one longer.
pub open spec fn extend_frames(h: Held, sample: u32, n: nat) -> Seq<frame::Frame> {
    let longer = Held { run: Some((sample, n + 1)), ..h };
    if n + 1 == 2 {
        block_frames(longer)
    } else if n + 1 == MAX_RUN {
        run_frames(longer)
    } else {
        Seq::empty()
    }
}

/// What is held back after one more sample.
pub open spec fn fed(h: Held, sample: u32) -> Held {
    match h.run {
        Some((s, n)) => if s == sample {
            extended(h, sample, n)
        } else {
            Held { run: Some((sample, 1)), ..run_flushed(h) }
        },
        None => Held { run: Some((sample, 1)), ..h },
    }
}

/// The frames that one more sample makes leave.
pub open spec fn feed_frames(h: Held, sample: u32) -> Seq<frame::Frame> {
    match h.run {
        Some((s, n)) => if s == sample {
            extend_frames(h, sample, n)
        } else {
            run_frames(h)
        },
        None => Seq::empty(),
    }
}

/// The frames that leave when everything does.
pub open spec fn flush_frames(h: Held) -> Seq<frame::Frame> {
    let r = run_flushed(h);
    run_frames(h) + closing(r.paired) + block_frames(Held { paired: Paired::Nothing, ..r })
}

/// What an encoder can hold back.
pub open spec fn sound(h: Held) -> bool {
    &&& h.block.len() < MAX_BLOCK
    &&& h.run matches Some((_, n)) ==> 1 <= n < MAX_RUN && (n >= 2 ==> h.block.len() == 0)
    &&& match h.paired {
        Paired::Nothing => true,
        Paired::Deferred { len, .. } => 2 <= len <= REPEAT2_MAX_LEN,
        Paired::Active { lens, .. } => 2 <= lens.len() < REPEAT2_BUF_RUNS && !lens.contains(0),
    }
}

/// Encoder over packed samples: low 16 bits one port, high 16 bits the other.
pub struct Encoder {
    run_sample: u32,
    run_len: u16,
    block: Vec<u32>,
    /// Whether `r2_buf` holds an alternation between `r2_val_a` and `r2_val_b`.
    r2_active: bool,
    r2_val_a: u32,
    r2_val_b: u32,
    /// Run lengths so far; the next run is of `r2_val_a` where their number is
    /// even.
    r2_buf: Vec<u8>,
    /// A run that waits for a partner, where `r2_pending_len > 0`.
    r2_pending_len: u16,
    r2_pending_sample: u32,
}

impl View for Encoder {
    type V = Held;

    closed spec fn view(&self) -> Held {
        Held {
            paired: if self.r2_active {
                Paired::Active { a: self.r2_val_a, b: self.r2_val_b, lens: self.r2_buf@ }
            } else if self.r2_pending_len > 0 {
                Paired::Deferred {
                    len: self.r2_pending_len as nat,
                    sample: self.r2_pending_sample,
                }
            } else {
                Paired::Nothing
            },
            block: self.block@,
            run: if self.run_len == 0 {
                None
            } else {
                Some((self.run_sample, self.run_len as nat))
            },
        }
    }
}

impl Default for Encoder {
    fn default() -> (encoder: Self)
        ensures
            encoder.wf(),
            encoder@ == nothing(),
    {
        Encoder {
            run_sample: 0,
            run_len: 0,
            block: Vec::new(),
            r2_active: false,
            r2_val_a: 0,
            r2_val_b: 0,
            r2_buf: Vec::new(),
            r2_pending_len: 0,
            r2_pending_sample: 0,
        }
    }
}

proof fn lemma_sending_push(frames: Seq<frame::Frame>, f: frame::Frame)
    ensures
        sending(frames.push(f)) == sending(frames) + framing(frame_bytes(f)),
{
    assert(frames.push(f).drop_last() =~= frames);
}

proof fn lemma_sending_concat(a: Seq<frame::Frame>, b: Seq<frame::Frame>)
    ensures
        sending(a + b) == sending(a) + sending(b),
    decreases b.len(),
{
    if b.len() == 0 {
        assert(a + b =~= a);
        assert(sending(a) + sending(b) =~= sending(a));
    } else {
        lemma_sending_concat(a, b.drop_last());
        assert((a + b).drop_last() =~= a + b.drop_last());
        assert(sending(a + b) =~= sending(a) + sending(b));
    }
}

/// Pushes a list of bytes.
fn push_bytes<S: Sink>(s: &[u8], sink: &mut S)
    ensures
        final(sink).history() == old(sink).history() + pushes(s@),
{
    let mut i: usize = 0;
    assert(sink.history() + pushes(s@.take(0)) =~= sink.history());
    while i < s.len()
        invariant
            i <= s.len(),
            sink.history() == old(sink).history() + pushes(s@.take(i as int)),
        decreases s.len() - i,
    {
        sink.push(s[i]);
        i += 1;
        assert(sink.history() =~= old(sink).history() + pushes(s@.take(i as int)));
    }
    assert(s@.take(i as int) =~= s@);
}

/// Pushes a list of samples.
fn push_words<S: Sink>(words: &Vec<u32>, sink: &mut S)
    ensures
        final(sink).history() == old(sink).history() + pushes(bytes::le32s(words@)),
{
    let mut i: usize = 0;
    assert(sink.history() + pushes(bytes::le32s(words@.take(0))) =~= sink.history());
    while i < words.len()
        invariant
            i <= words.len(),
            sink.history() == old(sink).history() + pushes(bytes::le32s(words@.take(i as int))),
        decreases words.len() - i,
    {
        push_bytes(&bytes::split_u32(words[i]), sink);
        proof {
            bytes::lemma_le32s_push(words@.take(i as int), words@[i as int]);
            assert(words@.take(i as int).push(words@[i as int]) =~= words@.take(i + 1));
            assert(sink.history() =~= old(sink).history() + pushes(
                bytes::le32s(words@.take(i + 1)),
            ));
        }
        i += 1;
    }
    assert(words@.take(i as int) =~= words@);
}

impl Encoder {
    pub closed spec fn wf(&self) -> bool {
        &&& sound(self@)
        &&& self.r2_active ==> self.r2_pending_len == 0
    }

    /// Drops everything that is held back. For STOP; the reader starts over.
    pub fn reset(&mut self)
        requires
            old(self).wf(),
        ensures
            final(self).wf(),
            final(self)@ == nothing(),
    {
        self.run_len = 0;
        self.block.clear();
        self.r2_active = false;
        self.r2_buf.clear();
        self.r2_pending_len = 0;
        assert(self@.block =~= Seq::<u32>::empty());
    }

    /// Feeds one sample.
    pub fn feed<S: Sink>(&mut self, sample: u32, sink: &mut S)
        requires
            old(self).wf(),
        ensures
            final(self).wf(),
            final(self)@ == fed(old(self)@, sample),
            final(sink).history() == old(sink).history() + sending(
                feed_frames(old(self)@, sample),
            ),
    {
        assert(sink.history() + sending(Seq::empty()) =~= sink.history());
        if self.run_len > 0 && sample == self.run_sample {
            self.run_len += 1;
            // A real run has appeared: the lone samples before it are older.
            if self.run_len == 2 {
                self.flush_block(sink);
            }
            if self.run_len == MAX_RUN {
                self.flush_run(sink);
            }
            return;
        }
        self.flush_run(sink);
        self.run_sample = sample;
        self.run_len = 1;
    }

    /// Adds a lone sample; a full BLOCK leaves.
    fn push_to_block<S: Sink>(&mut self, sample: u32, sink: &mut S)
        requires
            old(self).wf(),
            old(self)@.run is None,
        ensures
            final(self).wf(),
            final(self)@ == joined(old(self)@, sample),
            final(sink).history() == old(sink).history() + sending(
                join_frames(old(self)@, sample),
            ),
    {
        assert(sink.history() + sending(Seq::empty()) =~= sink.history());
        self.block.push(sample);
        if self.block.len() == MAX_BLOCK {
            self.flush_block(sink);
        }
    }

    /// Puts the lone samples on the wire, after the runs that are older.
    fn flush_block<S: Sink>(&mut self, sink: &mut S)
        requires
            old(self).r2_active ==> old(self).r2_pending_len == 0,
        ensures
            final(self).r2_active ==> final(self).r2_pending_len == 0,
            final(self)@ == block_flushed(old(self)@),
            final(self).run_len == old(self).run_len,
            final(self).run_sample == old(self).run_sample,
            final(sink).history() == old(sink).history() + sending(block_frames(old(self)@)),
    {
        assert(sink.history() + sending(Seq::empty()) =~= sink.history());
        if self.block.len() == 0 {
            return;
        }
        self.repeat2_close(sink);
        let ghost block = self.block@;
        let ghost before = sink.history();
        sink.push(TAG_BLOCK);
        push_words(&self.block, sink);
        sink.push(0xff);
        sink.push(0xff);
        sink.push(0xff);
        sink.push(0xff);
        sink.commit_frame();
        proof {
            let f = frame::Frame::Block(block);
            lemma_sending_push(closing(old(self)@.paired), f);
            assert(sink.history() =~= before + framing(frame_bytes(f)));
            assert(sink.history() =~= old(sink).history() + sending(block_frames(old(self)@)));
        }
        self.block.clear();
        assert(self@.block =~= Seq::<u32>::empty());
    }

    /// Ends the run in progress.
    fn flush_run<S: Sink>(&mut self, sink: &mut S)
        requires
            old(self).r2_active ==> old(self).r2_pending_len == 0,
            old(self)@.run matches Some((_, n)) && n == MAX_RUN || sound(old(self)@),
            sound(Held { run: None, ..old(self)@ }),
        ensures
            final(self).wf(),
            final(self)@ == run_flushed(old(self)@),
            final(self)@.run is None,
            final(sink).history() == old(sink).history() + sending(run_frames(old(self)@)),
    {
        assert(sink.history() + sending(Seq::empty()) =~= sink.history());
        if self.run_len == 0 {
            return;
        }
        let len: u16 = self.run_len;
        let sample: u32 = self.run_sample;
        self.run_len = 0;
        if len == 1 {
            // A lone sample belongs in a BLOCK.
            self.push_to_block(sample, sink);
        } else {
            self.commit_completed_run(len, sample, sink);
        }
    }

    /// A run of two samples or more is over: it goes on with an alternation, or
    /// starts one with the run that waits, or waits itself, or is put on the wire.
    fn commit_completed_run<S: Sink>(&mut self, len: u16, sample: u32, sink: &mut S)
        requires
            old(self).wf(),
            old(self)@.run is None,
            2 <= len,
        ensures
            final(self).wf(),
            final(self)@ == (Held {
                paired: committed(old(self)@.paired, len as nat, sample),
                ..old(self)@
            }),
            final(sink).history() == old(sink).history() + sending(
                commit_frames(old(self)@.paired, len as nat, sample),
            ),
    {
        assert(sink.history() + sending(Seq::empty()) =~= sink.history());
        let ghost paired = self@.paired;
        if self.r2_active {
            let next: u32 = if self.r2_buf.len() % 2 == 0 {
                self.r2_val_a
            } else {
                self.r2_val_b
            };
            if sample == next && len <= REPEAT2_MAX_LEN {
                let ghost lens = self.r2_buf@;
                self.r2_buf.push(len as u8);
                proof {
                    assert(!lens.push(len as u8).contains(0)) by {
                        if lens.push(len as u8).contains(0) {
                            let j = lens.push(len as u8).index_of(0);
                            if j < lens.len() {
                                assert(lens[j] == 0);
                            }
                        }
                    }
                }
                if self.r2_buf.len() == REPEAT2_BUF_RUNS {
                    self.repeat2_close(sink);
                }
                return;
            }
            // The pattern is broken.
            self.repeat2_close(sink);
        } else if self.r2_pending_len > 0 {
            let prev_len: u16 = self.r2_pending_len;
            let prev_sample: u32 = self.r2_pending_sample;
            self.r2_pending_len = 0;
            if sample != prev_sample && prev_len <= REPEAT2_MAX_LEN && len <= REPEAT2_MAX_LEN {
                self.r2_val_a = prev_sample;
                self.r2_val_b = sample;
                self.r2_active = true;
                self.r2_buf.clear();
                self.r2_buf.push(prev_len as u8);
                self.r2_buf.push(len as u8);
                assert(self.r2_buf@ =~= seq![prev_len as u8, len as u8]);
                return;
            }
            // No pair: the run that waited is put on the wire.
            self.emit_plain_run(prev_len, prev_sample, sink);
            proof {
                let f = frame::Frame::Run { n: prev_len, sample: prev_sample };
                lemma_sending_push(Seq::empty(), f);
                assert(Seq::<frame::Frame>::empty().push(f) =~= closing(paired));
                assert(sink.history() =~= old(sink).history() + sending(closing(paired)));
            }
        }
        // Only a run that fits a byte can pair with a later one.
        if len <= REPEAT2_MAX_LEN {
            self.r2_pending_len = len;
            self.r2_pending_sample = sample;
        } else {
            self.emit_plain_run(len, sample, sink);
            proof {
                let f = frame::Frame::Run { n: len, sample };
                lemma_sending_push(closing(paired), f);
                assert(sink.history() =~= old(sink).history() + sending(closing(paired).push(f)));
            }
        }
    }

    /// Puts one RUN on the wire.
    fn emit_plain_run<S: Sink>(&mut self, len: u16, sample: u32, sink: &mut S)
        ensures
            *final(self) == *old(self),
            final(sink).history() == old(sink).history() + framing(
                frame_bytes(frame::Frame::Run { n: len, sample }),
            ),
    {
        sink.push(TAG_RUN);
        push_bytes(&bytes::split_u16(len), sink);
        push_bytes(&bytes::split_u32(sample), sink);
        sink.commit_frame();
        assert(sink.history() =~= old(sink).history() + framing(
            frame_bytes(frame::Frame::Run { n: len, sample }),
        ));
    }

    /// Puts completed runs on the wire.
    fn repeat2_close<S: Sink>(&mut self, sink: &mut S)
        requires
            old(self).r2_active ==> old(self).r2_pending_len == 0,
        ensures
            !final(self).r2_active,
            final(self).r2_pending_len == 0,
            final(self)@ == (Held { paired: Paired::Nothing, ..old(self)@ }),
            final(self).run_len == old(self).run_len,
            final(self).run_sample == old(self).run_sample,
            final(sink).history() == old(sink).history() + sending(closing(old(self)@.paired)),
    {
        let ghost paired = self@.paired;
        let ghost none = Seq::<frame::Frame>::empty();
        assert(sink.history() + sending(none) =~= sink.history());
        if self.r2_active {
            let ghost lens = self.r2_buf@;
            sink.push(TAG_REPEAT2);
            push_bytes(&bytes::split_u32(self.r2_val_a), sink);
            push_bytes(&bytes::split_u32(self.r2_val_b), sink);
            push_bytes(self.r2_buf.as_slice(), sink);
            sink.push(0u8);
            sink.commit_frame();
            proof {
                let f = frame::Frame::Repeat2 {
                    val_a: self.r2_val_a,
                    val_b: self.r2_val_b,
                    run_lens: lens,
                };
                lemma_sending_push(none, f);
                assert(none.push(f) =~= closing(paired));
                assert(sink.history() =~= old(sink).history() + framing(frame_bytes(f)));
                assert(sending(none) + framing(frame_bytes(f)) =~= framing(frame_bytes(f)));
            }
            self.r2_active = false;
            self.r2_buf.clear();
        } else if self.r2_pending_len > 0 {
            let len: u16 = self.r2_pending_len;
            let sample: u32 = self.r2_pending_sample;
            self.r2_pending_len = 0;
            self.emit_plain_run(len, sample, sink);
            proof {
                let f = frame::Frame::Run { n: len, sample };
                lemma_sending_push(none, f);
                assert(none.push(f) =~= closing(paired));
                assert(sending(none) + framing(frame_bytes(f)) =~= framing(frame_bytes(f)));
            }
        }
    }

    /// Puts everything on the wire. For the end of a burst, and for STOP.
    pub fn flush<S: Sink>(&mut self, sink: &mut S)
        requires
            old(self).wf(),
        ensures
            final(self).wf(),
            final(self)@ == nothing(),
            final(sink).history() == old(sink).history() + sending(flush_frames(old(self)@)),
    {
        let ghost h = self@;
        let ghost r = run_flushed(h);
        self.flush_run(sink);
        self.repeat2_close(sink);
        self.flush_block(sink);
        proof {
            let b = block_frames(Held { paired: Paired::Nothing, ..r });
            lemma_sending_concat(run_frames(h), closing(r.paired));
            lemma_sending_concat(run_frames(h) + closing(r.paired), b);
            assert(sink.history() =~= old(sink).history() + sending(flush_frames(h)));
            assert(self@.block =~= Seq::<u32>::empty());
        }
    }

    /// Puts the lone samples on the wire and leaves the run in progress, so that a
    /// steady stream of one sample makes one long run. An alternation goes on too,
    /// unless there are lone samples after it.
    pub fn flush_block_only<S: Sink>(&mut self, sink: &mut S)
        requires
            old(self).wf(),
        ensures
            final(self).wf(),
            final(self)@ == block_flushed(old(self)@),
            final(sink).history() == old(sink).history() + sending(block_frames(old(self)@)),
    {
        self.flush_block(sink);
    }
}

/// Puts a TICK on the wire.
pub fn encode_tick<S: Sink>(
    t_us: u32,
    dt_us: u16,
    n_drained: u16,
    n_pending: u16,
    bytes_out: u32,
    sink: &mut S,
)
    ensures
        final(sink).history() == old(sink).history() + framing(
            frame_bytes(frame::Frame::Tick { t_us, dt_us, n_drained, n_pending, bytes_out }),
        ),
{
    sink.push(TAG_TICK);
    push_bytes(&bytes::split_u32(t_us), sink);
    push_bytes(&bytes::split_u16(dt_us), sink);
    push_bytes(&bytes::split_u16(n_drained), sink);
    push_bytes(&bytes::split_u16(n_pending), sink);
    push_bytes(&bytes::split_u32(bytes_out), sink);
    sink.commit_frame();
    assert(sink.history() =~= old(sink).history() + framing(
        frame_bytes(frame::Frame::Tick { t_us, dt_us, n_drained, n_pending, bytes_out }),
    ));
}

/// Puts an OVERRUN on the wire.
pub fn encode_overrun<S: Sink>(dropped: u32, sink: &mut S)
    ensures
        final(sink).history() == old(sink).history() + framing(
            frame_bytes(frame::Frame::Overrun { dropped }),
        ),
{
    sink.push(TAG_OVERRUN);
    push_bytes(&bytes::split_u32(dropped), sink);
    sink.commit_frame();
    assert(sink.history() =~= old(sink).history() + framing(
        frame_bytes(frame::Frame::Overrun { dropped }),
    ));
}

/// Puts a LOG on the wire, cut to [`LOG_MAX`] bytes.
pub fn encode_log<S: Sink>(msg: &str, sink: &mut S)
    ensures
        final(sink).history() == old(sink).history() + framing(
            frame_bytes(frame::Frame::Log(vstd::utf8::encode_utf8(msg@))),
        ),
{
    let text: &[u8] = msg.as_bytes();
    let len: usize = if text.len() <= LOG_MAX {
        text.len()
    } else {
        LOG_MAX
    };
    let body = vstd::slice::slice_subrange(text, 0, len);
    assert(body@ =~= log_body(text@));
    sink.push(TAG_LOG);
    push_bytes(&bytes::split_u16(len as u16), sink);
    push_bytes(body, sink);
    sink.commit_frame();
    assert(sink.history() =~= old(sink).history() + framing(
        frame_bytes(frame::Frame::Log(vstd::utf8::encode_utf8(msg@))),
    ));
}

/// Acknowledges START.
pub fn encode_started<S: Sink>(sink: &mut S)
    ensures
        final(sink).history() == old(sink).history() + framing(
            frame_bytes(frame::Frame::Started),
        ),
{
    sink.push(TAG_STARTED);
    sink.commit_frame();
    assert(sink.history() =~= old(sink).history() + framing(frame_bytes(frame::Frame::Started)));
}

/// Acknowledges STOP.
pub fn encode_stopped<S: Sink>(sink: &mut S)
    ensures
        final(sink).history() == old(sink).history() + framing(
            frame_bytes(frame::Frame::Stopped),
        ),
{
    sink.push(TAG_STOPPED);
    sink.commit_frame();
    assert(sink.history() =~= old(sink).history() + framing(frame_bytes(frame::Frame::Stopped)));
}

/// Where each field of a frame lies. A frame starts with the byte that tells its
/// variant, fields of more than one byte are little-endian, a list is ended by a
/// word of ones or by a zero, and a text says up front how long it is.
pub proof fn law_fields_lie_where_they_belong(f: frame::Frame)
    ensures
        ({
            let b = frame_bytes(f);
            match f {
                frame::Frame::Block(samples) => {
                    &&& b.len() == 4 * samples.len() + 5
                    &&& b[0] == 0x01
                    &&& forall|i: int|
                        0 <= i < samples.len() ==> b.subrange(1 + 4 * i, 5 + 4 * i) == bytes::le32(
                            #[trigger] samples[i],
                        )
                    &&& forall|i: int| b.len() - 4 <= i < b.len() ==> #[trigger] b[i] == 0xff
                },
                frame::Frame::Run { n, sample } => {
                    &&& b.len() == 7
                    &&& b[0] == 0x02
                    &&& b.subrange(1, 3) == bytes::le16(n)
                    &&& b.subrange(3, 7) == bytes::le32(sample)
                },
                frame::Frame::Repeat2 { val_a, val_b, run_lens } => {
                    &&& b.len() == run_lens.len() + 10
                    &&& b[0] == 0x04
                    &&& b.subrange(1, 5) == bytes::le32(val_a)
                    &&& b.subrange(5, 9) == bytes::le32(val_b)
                    &&& b.subrange(9, b.len() - 1) == run_lens
                    &&& b.last() == 0
                },
                frame::Frame::Tick { t_us, dt_us, n_drained, n_pending, bytes_out } => {
                    &&& b.len() == 15
                    &&& b[0] == 0x03
                    &&& b.subrange(1, 5) == bytes::le32(t_us)
                    &&& b.subrange(5, 7) == bytes::le16(dt_us)
                    &&& b.subrange(7, 9) == bytes::le16(n_drained)
                    &&& b.subrange(9, 11) == bytes::le16(n_pending)
                    &&& b.subrange(11, 15) == bytes::le32(bytes_out)
                },
                frame::Frame::Overrun { dropped } => {
                    &&& b.len() == 5
                    &&& b[0] == 0xfd
                    &&& b.subrange(1, 5) == bytes::le32(dropped)
                },
                frame::Frame::Log(text) => {
                    &&& b[0] == 0xfe
                    &&& b.len() == 3 + b[1] + 256 * b[2]
                    &&& b.len() - 3 <= 256
                    &&& b.len() - 3 == text.len() || (b.len() - 3 == 256 && text.len() > 256)
                    &&& b.subrange(3, b.len() as int) == text.take(b.len() - 3)
                },
                frame::Frame::Started => b == seq![0xfbu8],
                frame::Frame::Stopped => b == seq![0xfcu8],
            }
        }),
{
    let b = frame_bytes(f);
    match f {
        frame::Frame::Block(samples) => {
            bytes::lemma_le32s_len(samples);
            assert forall|i: int| 0 <= i < samples.len() implies b.subrange(1 + 4 * i, 5 + 4 * i)
                == bytes::le32(#[trigger] samples[i]) by {
                bytes::lemma_le32s_word(samples, i);
                assert(b.subrange(1 + 4 * i, 5 + 4 * i) =~= bytes::le32s(samples).subrange(
                    4 * i,
                    4 * i + 4,
                ));
            }
        },
        frame::Frame::Run { n, sample } => {
            assert(b.subrange(1, 3) =~= bytes::le16(n));
            assert(b.subrange(3, 7) =~= bytes::le32(sample));
        },
        frame::Frame::Repeat2 { val_a, val_b, run_lens } => {
            assert(b.subrange(1, 5) =~= bytes::le32(val_a));
            assert(b.subrange(5, 9) =~= bytes::le32(val_b));
            assert(b.subrange(9, b.len() - 1) =~= run_lens);
        },
        frame::Frame::Tick { t_us, dt_us, n_drained, n_pending, bytes_out } => {
            assert(b.subrange(1, 5) =~= bytes::le32(t_us));
            assert(b.subrange(5, 7) =~= bytes::le16(dt_us));
            assert(b.subrange(7, 9) =~= bytes::le16(n_drained));
            assert(b.subrange(9, 11) =~= bytes::le16(n_pending));
            assert(b.subrange(11, 15) =~= bytes::le32(bytes_out));
        },
        frame::Frame::Overrun { dropped } => {
            assert(b.subrange(1, 5) =~= bytes::le32(dropped));
        },
        frame::Frame::Log(text) => {
            let body = log_body(text);
            assert(body.len() as u16 == body.len());
            assert(b.subrange(3, b.len() as int) =~= body);
            assert(text.take(body.len() as int) =~= body);
        },
        _ => {},
    }
}

/// A frame goes to the sink byte by byte, in order, and is committed once, at its end.
pub proof fn law_a_frame_is_pushed_and_committed(b: Seq<u8>, i: int)
    ensures
        framing(b).len() == b.len() + 1,
        0 <= i < b.len() ==> framing(b)[i] == Op::Push(b[i]),
        framing(b).last() == Op::Commit,
{
}

/// Frames go to the sink one after the other.
pub proof fn law_frames_are_sent_in_order(a: Seq<frame::Frame>, f: frame::Frame)
    ensures
        sending(Seq::empty()).len() == 0,
        sending(a.push(f)) == sending(a) + framing(frame_bytes(f)),
{
    assert(a.push(f).drop_last() =~= a);
}

/// What a call of [`encode_tick`] puts into the sink: one frame with the five numbers in
/// their places.
pub proof fn law_a_tick_is_encoded<S: Sink>(
    t: (u32, u16, u16, u16, u32),
    sink: &mut S,
)
    requires
        call_ensures(encode_tick::<S>, (t.0, t.1, t.2, t.3, t.4, sink), ()),
    ensures
        ({
            let ops = final(sink).history();
            let n = old(sink).history().len() as int;
            &&& ops.len() == n + 16
            &&& ops.take(n) == old(sink).history()
            &&& ops[n] == Op::Push(3)
            &&& ops.subrange(n + 1, n + 5) == pushes(bytes::le32(t.0))
            &&& ops.subrange(n + 5, n + 7) == pushes(bytes::le16(t.1))
            &&& ops.subrange(n + 7, n + 9) == pushes(bytes::le16(t.2))
            &&& ops.subrange(n + 9, n + 11) == pushes(bytes::le16(t.3))
            &&& ops.subrange(n + 11, n + 15) == pushes(bytes::le32(t.4))
            &&& ops[n + 15] == Op::Commit
        }),
{
    let f = frame::Frame::Tick {
        t_us: t.0,
        dt_us: t.1,
        n_drained: t.2,
        n_pending: t.3,
        bytes_out: t.4,
    };
    law_fields_lie_where_they_belong(f);
    let b = frame_bytes(f);
    let was = old(sink).history();
    let n = was.len() as int;
    lemma_part(was, b, 1, 5);
    lemma_part(was, b, 5, 7);
    lemma_part(was, b, 7, 9);
    lemma_part(was, b, 9, 11);
    lemma_part(was, b, 11, 15);
    assert((was + framing(b)).take(n) =~= was);
}

proof fn lemma_part(was: Seq<Op>, b: Seq<u8>, from: int, to: int)
    requires
        0 <= from <= to <= b.len(),
    ensures
        (was + framing(b)).subrange(was.len() + from, was.len() + to) == pushes(
            b.subrange(from, to),
        ),
{
    assert((was + framing(b)).subrange(was.len() + from, was.len() + to) =~= pushes(
        b.subrange(from, to),
    ));
}

/// What a call of [`encode_log`] puts into the sink: one frame with the front of the
/// text, and its length before it.
pub proof fn law_a_line_is_encoded<S: Sink>(msg: &str, sink: &mut S)
    requires
        call_ensures(encode_log::<S>, (msg, sink), ()),
    ensures
        ({
            let ops = final(sink).history();
            let n = old(sink).history().len() as int;
            let text = vstd::utf8::encode_utf8(msg@);
            let len = if text.len() < 256 {
                text.len() as int
            } else {
                256
            };
            &&& ops.len() == n + 4 + len
            &&& ops[n] == Op::Push(0xfe)
            &&& ops[n + 1] == Op::Push((len % 256) as u8)
            &&& ops[n + 2] == Op::Push((len / 256) as u8)
            &&& ops.subrange(n + 3, n + 3 + len) == pushes(text.take(len))
            &&& ops.last() == Op::Commit
        }),
{
    let text = vstd::utf8::encode_utf8(msg@);
    let f = frame::Frame::Log(text);
    law_fields_lie_where_they_belong(f);
    let b = frame_bytes(f);
    lemma_part(old(sink).history(), b, 3, b.len() as int);
}

} // verus!
