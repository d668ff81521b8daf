//! Encoder with counted blocks.
//!
//! A block says up front how many samples it holds, and is kept short: real bus
//! traffic is almost all runs, and a short block costs little memory. The encoder
//! holds back lone samples for a block and, newer than those, the run in progress.

use vstd::prelude::*;

use crate::bytes;
use crate::wire::stream;

verus! {

pub const TAG_BLOCK: u8 = 0x01;

pub const TAG_RUN: u8 = 0x02;

pub const TAG_OVERRUN: u8 = 0xFD;

pub const TAG_LOG: u8 = 0xFE;

pub const TAG_STARTED: u8 = 0xFB;

pub const TAG_STOPPED: u8 = 0xFC;

pub const HOST_CMD_START: u8 = 0x01;

pub const HOST_CMD_STOP: u8 = 0x02;

pub const HOST_CMD_STATS: u8 = 0x04;

/// Longest run of one run packet.
pub const MAX_RUN: u16 = 65535;

/// Most samples of one block packet.
pub const MAX_BLOCK: usize = 16;

/// Most bytes of text in one log packet.
pub const LOG_MAX: usize = 256;

/// Where an encoder puts its bytes.
pub trait Sink {
    /// Everything that was written, in order.
    open spec fn written(&self) -> Seq<u8> {
        arbitrary()
    }

    /// Writes all of `buf`: a torn packet would put the reader out of step.
    fn write(&mut self, buf: &[u8])
        ensures
            final(self).written() == old(self).written() + buf@,
    ;
}

/// A sink that keeps its bytes.
pub struct ByteSink {
    pub bytes: Vec<u8>,
}

impl Sink for ByteSink {
    open spec fn written(&self) -> Seq<u8> {
        self.bytes@
    }

    fn write(&mut self, buf: &[u8]) {
        self.bytes.extend_from_slice(buf);
        assert(self.bytes@ =~= old(self).bytes@ + buf@);
    }
}

/// One packet on the wire.
pub enum Packet {
    Block(Seq<u32>),
    Run { n: u16, sample: u32 },
    Overrun { dropped: u32 },
    Log(Seq<u8>),
    Started,
    Stopped,
}

/// The front of a text that a log packet carries.
pub open spec fn log_body(text: Seq<u8>) -> Seq<u8> {
    if text.len() <= LOG_MAX {
        text
    } else {
        text.take(LOG_MAX as int)
    }
}

/// The bytes of a packet.
pub open spec fn packet_bytes(p: Packet) -> Seq<u8> {
    match p {
        Packet::Block(samples) => seq![TAG_BLOCK, samples.len() as u8] + bytes::le32s(samples),
        Packet::Run { n, sample } => seq![TAG_RUN] + bytes::le16(n) + bytes::le32(sample),
        Packet::Overrun { dropped } => seq![TAG_OVERRUN] + bytes::le32(dropped),
        Packet::Log(text) => seq![TAG_LOG] + bytes::le16(text.len() as u16) + text,
        Packet::Started => seq![TAG_STARTED],
        Packet::Stopped => seq![TAG_STOPPED],
    }
}

/// The bytes of packets, one after the other.
pub open spec fn packets_bytes(packets: Seq<Packet>) -> Seq<u8>
    decreases packets.len(),
{
    if packets.len() == 0 {
        Seq::empty()
    } else {
        packets_bytes(packets.drop_last()) + packet_bytes(packets.last())
    }
}

/// What an encoder holds back.
pub struct Held {
    /// Lone samples.
    pub block: Seq<u32>,
    /// The run in progress: its sample and its length.
    pub run: Option<(u32, nat)>,
}

/// Nothing held back.
pub open spec fn nothing() -> Held {
    Held { block: Seq::empty(), run: None }
}

/// The packet that the lone samples become.
pub open spec fn block_packets(h: Held) -> Seq<Packet> {
    if h.block.len() == 0 {
        Seq::empty()
    } else {
        seq![Packet::Block(h.block)]
    }
}

/// One more lone sample; a full block leaves.
pub open spec fn joined(h: Held, sample: u32) -> Held {
    if h.block.len() + 1 == MAX_BLOCK {
        Held { block: Seq::empty(), ..h }
    } else {
        Held { block: h.block.push(sample), ..h }
    }
}

/// The packet that one more lone sample makes leave.
pub open spec fn join_packets(h: Held, sample: u32) -> Seq<Packet> {
    if h.block.len() + 1 == MAX_BLOCK {
        seq![Packet::Block(h.block.push(sample))]
    } else {
        Seq::empty()
    }
}

/// What is held back once the run in progress is over. A run of one is a lone
/// sample.
pub open spec fn run_flushed(h: Held) -> Held {
    match h.run {
        None => h,
        Some((sample, n)) => if n == 1 {
            joined(Held { run: None, ..h }, sample)
        } else {
            Held { run: None, ..h }
        },
    }
}

/// The packet that the end of the run in progress makes leave.
pub open spec fn run_packets(h: Held) -> Seq<Packet> {
    match h.run {
        None => Seq::empty(),
        Some((sample, n)) => if n == 1 {
            join_packets(Held { run: None, ..h }, sample)
        } else {
            seq![Packet::Run { n: n as u16, sample }]
        },
    }
}

/// What is held back after one more sample. When the run in progress turns out
/// to be a real run, the lone samples before it leave; at the longest, it leaves
/// itself.
pub open spec fn fed(h: Held, sample: u32) -> Held {
    match h.run {
        Some((s, n)) => if s == sample {
            if n + 1 == MAX_RUN {
                Held { run: None, ..h }
            } else if n + 1 == 2 {
                Held { block: Seq::empty(), run: Some((sample, 2)) }
            } else {
                Held { run: Some((sample, n + 1)), ..h }
            }
        } else {
            Held { run: Some((sample, 1)), ..run_flushed(h) }
        },
        None => Held { run: Some((sample, 1)), ..h },
    }
}

/// The packets that one more sample makes leave.
pub open spec fn feed_packets(h: Held, sample: u32) -> Seq<Packet> {
    match h.run {
        Some((s, n)) => if s == sample {
            if n + 1 == MAX_RUN {
                seq![Packet::Run { n: MAX_RUN, sample }]
            } else if n + 1 == 2 {
                block_packets(h)
            } else {
                Seq::empty()
            }
        } else {
            run_packets(h)
        },
        None => Seq::empty(),
    }
}

/// The packets that leave when everything does.
pub open spec fn flush_packets(h: Held) -> Seq<Packet> {
    run_packets(h) + block_packets(run_flushed(h))
}

/// What an encoder can hold back.
pub open spec fn sound(h: Held) -> bool {
    &&& h.block.len() < MAX_BLOCK
    &&& h.run matches Some((_, n)) ==> 1 <= n < MAX_RUN && (n >= 2 ==> h.block.len() == 0)
}

/// Encoder over packed samples: low 16 bits one port, high 16 bits the other.
pub struct Encoder {
    run_sample: u32,
    run_len: u16,
    block: Vec<u32>,
}

impl View for Encoder {
    type V = Held;

    closed spec fn view(&self) -> Held {
        Held {
            block: self.block@,
            run: if self.run_len == 0 {
                None
            } else {
                Some((self.run_sample, self.run_len as nat))
            },
        }
    }
}

impl Default for Encoder {
    fn default() -> (encoder: Self)
        ensures
            encoder.wf(),
            encoder@ == nothing(),
    {
        Encoder { run_sample: 0, run_len: 0, block: Vec::new() }
    }
}

proof fn lemma_bytes_one(p: Packet)
    ensures
        packets_bytes(seq![p]) == packet_bytes(p),
{
    assert(seq![p].drop_last() =~= Seq::<Packet>::empty());
    assert(packets_bytes(Seq::empty()) =~= Seq::<u8>::empty());
    assert(packets_bytes(seq![p]) =~= packet_bytes(p));
}

proof fn lemma_bytes_concat(a: Seq<Packet>, b: Seq<Packet>)
    ensures
        packets_bytes(a + b) == packets_bytes(a) + packets_bytes(b),
    decreases b.len(),
{
    if b.len() == 0 {
        assert(a + b =~= a);
        assert(packets_bytes(a) + packets_bytes(b) =~= packets_bytes(a));
    } else {
        lemma_bytes_concat(a, b.drop_last());
        assert((a + b).drop_last() =~= a + b.drop_last());
        assert(packets_bytes(a + b) =~= packets_bytes(a) + packets_bytes(b));
    }
}

impl Encoder {
    pub closed spec fn wf(&self) -> bool {
        sound(self@)
    }

    /// Drops everything that is held back. For STOP.
    pub fn reset(&mut self)
        requires
            old(self).wf(),
        ensures
            final(self).wf(),
            final(self)@ == nothing(),
    {
        self.run_len = 0;
        self.block.clear();
        assert(self@.block =~= Seq::<u32>::empty());
    }

    /// Feeds one sample.
    pub fn feed<S: Sink>(&mut self, sample: u32, sink: &mut S)
        requires
            old(self).wf(),
        ensures
            final(self).wf(),
            final(self)@ == fed(old(self)@, sample),
            final(sink).written() == old(sink).written() + packets_bytes(
                feed_packets(old(self)@, sample),
            ),
    {
        assert(sink.written() + packets_bytes(Seq::empty()) =~= sink.written());
        if self.run_len > 0 && sample == self.run_sample {
            self.run_len += 1;
            // A real run has appeared: the lone samples before it are older.
            if self.run_len == 2 {
                self.flush_block(sink);
            }
            if self.run_len == MAX_RUN {
                self.flush_run(sink);
            }
            return;
        }
        self.flush_run(sink);
        self.run_sample = sample;
        self.run_len = 1;
    }

    /// Adds a lone sample; a full block leaves.
    fn push_to_block<S: Sink>(&mut self, sample: u32, sink: &mut S)
        requires
            old(self).wf(),
            old(self)@.run is None,
        ensures
            final(self).wf(),
            final(self)@ == joined(old(self)@, sample),
            final(sink).written() == old(sink).written() + packets_bytes(
                join_packets(old(self)@, sample),
            ),
    {
        assert(sink.written() + packets_bytes(Seq::empty()) =~= sink.written());
        self.block.push(sample);
        if self.block.len() == MAX_BLOCK {
            self.flush_block(sink);
        }
    }

    /// Puts the lone samples on the wire.
    fn flush_block<S: Sink>(&mut self, sink: &mut S)
        requires
            old(self).block@.len() <= MAX_BLOCK,
        ensures
            final(self)@ == (Held { block: Seq::empty(), ..old(self)@ }),
            final(self).run_len == old(self).run_len,
            final(self).run_sample == old(self).run_sample,
            final(sink).written() == old(sink).written() + packets_bytes(block_packets(old(self)@)),
    {
        assert(sink.written() + packets_bytes(Seq::empty()) =~= sink.written());
        if self.block.len() == 0 {
            assert(self@.block =~= Seq::<u32>::empty());
            return;
        }
        let ghost block = self.block@;
        let ghost before = sink.written();
        sink.write(&[TAG_BLOCK, self.block.len() as u8]);
        let mut i: usize = 0;
        let ghost start = sink.written();
        assert(bytes::le32s(block.take(0)) =~= Seq::<u8>::empty());
        assert(start + bytes::le32s(block.take(0)) =~= start);
        while i < self.block.len()
            invariant
                i <= self.block.len(),
                self.block@ == block,
                *self == *old(self),
                sink.written() == start + bytes::le32s(block.take(i as int)),
            decreases self.block.len() - i,
        {
            sink.write(&bytes::split_u32(self.block[i]));
            proof {
                bytes::lemma_le32s_push(block.take(i as int), block[i as int]);
                assert(block.take(i as int).push(block[i as int]) =~= block.take(i + 1));
                assert(sink.written() =~= start + bytes::le32s(block.take(i + 1)));
            }
            i += 1;
        }
        proof {
            assert(block.take(i as int) =~= block);
            lemma_bytes_one(Packet::Block(block));
            assert(sink.written() =~= before + packet_bytes(Packet::Block(block)));
        }
        self.block.clear();
        assert(self@.block =~= Seq::<u32>::empty());
    }

    /// Ends the run in progress. A lone sample belongs in a block.
    fn flush_run<S: Sink>(&mut self, sink: &mut S)
        requires
            old(self)@.run matches Some((_, n)) && n == MAX_RUN || sound(old(self)@),
            sound(Held { run: None, ..old(self)@ }),
        ensures
            final(self).wf(),
            final(self)@ == run_flushed(old(self)@),
            final(self)@.run is None,
            final(sink).written() == old(sink).written() + packets_bytes(run_packets(old(self)@)),
    {
        assert(sink.written() + packets_bytes(Seq::empty()) =~= sink.written());
        if self.run_len == 0 {
            return;
        }
        let len: u16 = self.run_len;
        let sample: u32 = self.run_sample;
        self.run_len = 0;
        if len == 1 {
            self.push_to_block(sample, sink);
            return;
        }
        let n = bytes::split_u16(len);
        let s = bytes::split_u32(sample);
        sink.write(&[TAG_RUN, n[0], n[1], s[0], s[1], s[2], s[3]]);
        proof {
            let p = Packet::Run { n: len, sample };
            lemma_bytes_one(p);
            assert(sink.written() =~= old(sink).written() + packet_bytes(p));
        }
    }

    /// Puts everything that is held back on the wire. For the end of a burst and
    /// for STOP.
    pub fn flush<S: Sink>(&mut self, sink: &mut S)
        requires
            old(self).wf(),
        ensures
            final(self).wf(),
            final(self)@ == nothing(),
            final(sink).written() == old(sink).written() + packets_bytes(
                flush_packets(old(self)@),
            ),
    {
        let ghost h = self@;
        self.flush_run(sink);
        self.flush_block(sink);
        proof {
            lemma_bytes_concat(run_packets(h), block_packets(run_flushed(h)));
            assert(sink.written() =~= old(sink).written() + packets_bytes(flush_packets(h)));
        }
    }
}

/// Reports lost samples.
pub fn encode_overrun<S: Sink>(dropped: u32, sink: &mut S)
    ensures
        final(sink).written() == old(sink).written() + packet_bytes(Packet::Overrun { dropped }),
{
    let b = bytes::split_u32(dropped);
    sink.write(&[TAG_OVERRUN, b[0], b[1], b[2], b[3]]);
    assert(sink.written() =~= old(sink).written() + packet_bytes(Packet::Overrun { dropped }));
}

/// Sends a text, cut to [`LOG_MAX`] bytes.
pub fn encode_log<S: Sink>(msg: &str, sink: &mut S)
    ensures
        final(sink).written() == old(sink).written() + packet_bytes(
            Packet::Log(log_body(vstd::utf8::encode_utf8(msg@))),
        ),
{
    let text: &[u8] = msg.as_bytes();
    let len: usize = if text.len() < LOG_MAX {
        text.len()
    } else {
        LOG_MAX
    };
    let n = bytes::split_u16(len as u16);
    sink.write(&[TAG_LOG, n[0], n[1]]);
    sink.write(vstd::slice::slice_subrange(text, 0, len));
    proof {
        let body = log_body(text@);
        assert(text@.subrange(0, len as int) =~= body);
        assert(sink.written() =~= old(sink).written() + packet_bytes(Packet::Log(body)));
    }
}

/// Acknowledges START.
pub fn encode_started<S: Sink>(sink: &mut S)
    ensures
        final(sink).written() == old(sink).written() + packet_bytes(Packet::Started),
{
    sink.write(&[TAG_STARTED]);
    assert(sink.written() =~= old(sink).written() + packet_bytes(Packet::Started));
}

/// Acknowledges STOP.
pub fn encode_stopped<S: Sink>(sink: &mut S)
    ensures
        final(sink).written() == old(sink).written() + packet_bytes(Packet::Stopped),
{
    sink.write(&[TAG_STOPPED]);
    assert(sink.written() =~= old(sink).written() + packet_bytes(Packet::Stopped));
}

/// The samples that packets stand for.
pub open spec fn samples_in(packets: Seq<Packet>) -> Seq<u32>
    decreases packets.len(),
{
    if packets.len() == 0 {
        Seq::empty()
    } else {
        samples_in(packets.drop_last()) + match packets.last() {
            Packet::Block(samples) => samples,
            Packet::Run { n, sample } => stream::repeated(n as nat, sample),
            _ => Seq::empty(),
        }
    }
}

/// The samples that an encoder holds back, from the oldest to the newest.
pub open spec fn held_samples(h: Held) -> Seq<u32> {
    h.block + (match h.run {
        Some((s, n)) => stream::repeated(n, s),
        None => Seq::empty(),
    })
}

proof fn lemma_samples_one(p: Packet)
    ensures
        p matches Packet::Block(samples) ==> samples_in(seq![p]) == samples,
        p matches Packet::Run { n, sample } ==> samples_in(seq![p]) == stream::repeated(
            n as nat,
            sample,
        ),
{
    assert(seq![p].drop_last() =~= Seq::<Packet>::empty());
    assert(samples_in(Seq::empty()) =~= Seq::<u32>::empty());
    match p {
        Packet::Block(samples) => {
            assert(samples_in(seq![p]) =~= samples);
        },
        Packet::Run { n, sample } => {
            assert(samples_in(seq![p]) =~= stream::repeated(n as nat, sample));
        },
        _ => {},
    }
}

proof fn lemma_samples_concat(a: Seq<Packet>, b: Seq<Packet>)
    ensures
        samples_in(a + b) == samples_in(a) + samples_in(b),
    decreases b.len(),
{
    if b.len() == 0 {
        assert(a + b =~= a);
        assert(samples_in(a) + samples_in(b) =~= samples_in(a));
    } else {
        lemma_samples_concat(a, b.drop_last());
        assert((a + b).drop_last() =~= a + b.drop_last());
        assert(samples_in(a + b) =~= samples_in(a) + samples_in(b));
    }
}

proof fn lemma_run_flush(h: Held)
    requires
        sound(h),
    ensures
        sound(run_flushed(h)),
        run_flushed(h).run is None,
        samples_in(run_packets(h)) + held_samples(run_flushed(h)) == held_samples(h),
{
    if let Some((sample, n)) = h.run {
        if n == 1 {
            assert(h.block + stream::repeated(1, sample) =~= h.block.push(sample));
            lemma_samples_one(Packet::Block(h.block.push(sample)));
        } else {
            lemma_samples_one(Packet::Run { n: n as u16, sample });
        }
    }
    assert(samples_in(run_packets(h)) + held_samples(run_flushed(h)) =~= held_samples(h));
}

/// What leaves and what is held back are, in order, the samples fed so far: a
/// sample fed is the newest, and every other keeps its place.
pub proof fn law_feeding_keeps_samples(h: Held, sample: u32)
    requires
        sound(h),
    ensures
        sound(fed(h, sample)),
        samples_in(feed_packets(h, sample)) + held_samples(fed(h, sample)) == held_samples(h).push(
            sample,
        ),
{
    assert(stream::repeated(1, sample) =~= seq![sample]);
    match h.run {
        None => {},
        Some((s, n)) => {
            if s == sample {
                assert(stream::repeated(n + 1, sample) =~= stream::repeated(n, sample).push(
                    sample,
                ));
                lemma_samples_one(Packet::Block(h.block));
                lemma_samples_one(Packet::Run { n: MAX_RUN, sample });
            } else {
                lemma_run_flush(h);
            }
        },
    }
    assert(samples_in(feed_packets(h, sample)) + held_samples(fed(h, sample)) =~= held_samples(
        h,
    ).push(sample));
}

/// Flushing puts all that was held back on the wire, in order.
pub proof fn law_flush_keeps_samples(h: Held)
    requires
        sound(h),
    ensures
        samples_in(flush_packets(h)) == held_samples(h),
{
    lemma_run_flush(h);
    let r = run_flushed(h);
    lemma_samples_one(Packet::Block(r.block));
    lemma_samples_concat(run_packets(h), block_packets(r));
    assert(samples_in(block_packets(r)) =~= held_samples(r));
}

/// What an encoder holds back after `samples`, starting from nothing.
pub open spec fn held_after(samples: Seq<u32>) -> Held
    decreases samples.len(),
{
    if samples.len() == 0 {
        nothing()
    } else {
        fed(held_after(samples.drop_last()), samples.last())
    }
}

/// The packets that leave while `samples` are fed, starting from nothing.
pub open spec fn packets_of(samples: Seq<u32>) -> Seq<Packet>
    decreases samples.len(),
{
    if samples.len() == 0 {
        Seq::empty()
    } else {
        packets_of(samples.drop_last()) + feed_packets(
            held_after(samples.drop_last()),
            samples.last(),
        )
    }
}

proof fn lemma_packets_of(samples: Seq<u32>)
    ensures
        sound(held_after(samples)),
        samples_in(packets_of(samples)) + held_samples(held_after(samples)) == samples,
    decreases samples.len(),
{
    if samples.len() == 0 {
        assert(samples_in(packets_of(samples)) + held_samples(held_after(samples)) =~= samples);
    } else {
        let before = samples.drop_last();
        lemma_packets_of(before);
        let h = held_after(before);
        law_feeding_keeps_samples(h, samples.last());
        let out = feed_packets(h, samples.last());
        lemma_samples_concat(packets_of(before), out);
        assert(samples_in(packets_of(samples)) + held_samples(held_after(samples)) =~= samples_in(
            packets_of(before),
        ) + (samples_in(out) + held_samples(held_after(samples))));
        assert(samples_in(packets_of(before)) + held_samples(h).push(samples.last())
            =~= before.push(samples.last()));
        assert(before.push(samples.last()) =~= samples);
    }
}

/// The packets of any samples, with everything flushed at the end, stand for
/// exactly those samples, in order.
pub proof fn law_packets_stand_for_the_samples(samples: Seq<u32>)
    ensures
        samples_in(packets_of(samples) + flush_packets(held_after(samples))) == samples,
{
    lemma_packets_of(samples);
    law_flush_keeps_samples(held_after(samples));
    lemma_samples_concat(packets_of(samples), flush_packets(held_after(samples)));
}

/// Whether a packet fits its own length fields.
pub open spec fn expressible(p: Packet) -> bool {
    match p {
        Packet::Block(samples) => 0 < samples.len() <= 255,
        Packet::Log(text) => text.len() <= 65535,
        _ => true,
    }
}

/// How many bytes the packet takes that starts with these bytes, as its tag and
/// its length fields say.
pub open spec fn packet_len(s: Seq<u8>) -> int {
    if s[0] == TAG_BLOCK {
        2 + 4 * s[1]
    } else if s[0] == TAG_RUN {
        7
    } else if s[0] == TAG_OVERRUN {
        5
    } else if s[0] == TAG_LOG {
        3 + bytes::half_at(s, 1)
    } else {
        1
    }
}

/// A reader finds where a packet ends from its front alone, whatever follows:
/// what stands on the wire falls apart into packets in one way only.
pub proof fn law_packets_say_where_they_end(p: Packet, rest: Seq<u8>)
    requires
        expressible(p),
    ensures
        packet_bytes(p).len() > 0,
        packet_len(packet_bytes(p) + rest) == packet_bytes(p).len(),
{
    let s = packet_bytes(p) + rest;
    match p {
        Packet::Block(samples) => {
            bytes::lemma_le32s_len(samples);
            assert(s[1] == samples.len() as u8);
        },
        Packet::Log(text) => {
            let n = text.len() as u16;
            assert(s.subrange(1, 3) =~= bytes::le16(n));
            bytes::lemma_half_of_le16(s, 1, n);
        },
        _ => {},
    }
}

/// Where each field of a packet lies. A packet starts with the byte that tells its
/// variant, fields of more than one byte are little-endian, and a list and a text
/// say up front how long they are.
pub proof fn law_fields_lie_where_they_belong(p: Packet)
    requires
        p matches Packet::Block(samples) ==> samples.len() <= 255,
        p matches Packet::Log(text) ==> text.len() <= 65535,
    ensures
        ({
            let b = packet_bytes(p);
            match p {
                Packet::Block(samples) => {
                    &&& b.len() == 2 + 4 * samples.len()
                    &&& b[0] == 0x01
                    &&& b[1] == samples.len()
                    &&& forall|i: int|
                        0 <= i < samples.len() ==> b.subrange(2 + 4 * i, 6 + 4 * i) == bytes::le32(
                            #[trigger] samples[i],
                        )
                },
                Packet::Run { n, sample } => {
                    &&& b.len() == 7
                    &&& b[0] == 0x02
                    &&& b.subrange(1, 3) == bytes::le16(n)
                    &&& b.subrange(3, 7) == bytes::le32(sample)
                },
                Packet::Overrun { dropped } => {
                    &&& b.len() == 5
                    &&& b[0] == 0xfd
                    &&& b.subrange(1, 5) == bytes::le32(dropped)
                },
                Packet::Log(text) => {
                    &&& b.len() == 3 + text.len()
                    &&& b[0] == 0xfe
                    &&& b[1] + 256 * b[2] == text.len()
                    &&& b.subrange(3, b.len() as int) == text
                },
                Packet::Started => b == seq![0xfbu8],
                Packet::Stopped => b == seq![0xfcu8],
            }
        }),
{
    let b = packet_bytes(p);
    match p {
        Packet::Block(samples) => {
            bytes::lemma_le32s_len(samples);
            assert forall|i: int| 0 <= i < samples.len() implies b.subrange(2 + 4 * i, 6 + 4 * i)
                == bytes::le32(#[trigger] samples[i]) by {
                bytes::lemma_le32s_word(samples, i);
                assert(b.subrange(2 + 4 * i, 6 + 4 * i) =~= bytes::le32s(samples).subrange(
                    4 * i,
                    4 * i + 4,
                ));
            }
        },
        Packet::Run { n, sample } => {
            assert(b.subrange(1, 3) =~= bytes::le16(n));
            assert(b.subrange(3, 7) =~= bytes::le32(sample));
        },
        Packet::Overrun { dropped } => {
            assert(b.subrange(1, 5) =~= bytes::le32(dropped));
        },
        Packet::Log(text) => {
            assert(b.subrange(3, b.len() as int) =~= text);
        },
        _ => {},
    }
}

proof fn lemma_a_run_waits(sample: u32, n: nat)
    requires
        0 < n < 65535,
    ensures
        packets_of(stream::repeated(n, sample)).len() == 0,
        held_after(stream::repeated(n, sample)) == (Held {
            block: Seq::empty(),
            run: Some((sample, n)),
        }),
    decreases n,
{
    let samples = stream::repeated(n, sample);
    if n > 1 {
        lemma_a_run_waits(sample, (n - 1) as nat);
        assert(samples.drop_last() =~= stream::repeated((n - 1) as nat, sample));
    } else {
        assert(samples.drop_last() =~= Seq::<u32>::empty());
        assert(packets_of(Seq::empty()).len() == 0);
        assert(held_after(Seq::empty()) == nothing());
    }
}

/// Equal samples make one run packet, however many there are up to 65535: nothing is
/// sent before they end, and then their number and the sample are. The longest run
/// leaves by itself.
pub proof fn law_equal_samples_make_one_run(sample: u32, n: nat, other: u32)
    requires
        2 <= n <= 65535,
        other != sample,
    ensures
        ({
            let samples = stream::repeated(n, sample);
            let h = held_after(samples);
            let run = Packet::Run { n: n as u16, sample };
            &&& n < 65535 ==> packets_of(samples).len() == 0
            &&& n < 65535 ==> feed_packets(h, other) == seq![run]
            &&& n < 65535 ==> flush_packets(h) == seq![run]
            &&& n == 65535 ==> packets_of(samples) == seq![run]
            &&& n == 65535 ==> h == nothing()
        }),
{
    let samples = stream::repeated(n, sample);
    if n < 65535 {
        lemma_a_run_waits(sample, n);
        assert(flush_packets(held_after(samples)) =~= seq![
            Packet::Run { n: n as u16, sample },
        ]);
    } else {
        let before = stream::repeated(65534, sample);
        lemma_a_run_waits(sample, 65534);
        assert(samples.drop_last() =~= before);
        assert(packets_of(samples) =~= seq![Packet::Run { n: n as u16, sample }]);
    }
}

/// Samples that differ from their neighbours gather in a block of up to 16; a run
/// sends what has gathered before it.
pub proof fn law_lone_samples_gather(block: Seq<u32>, sample: u32, next: u32)
    requires
        block.len() < 16,
    ensures
        ({
            let h = Held { block, run: Some((sample, 1)) };
            let after = fed(h, next);
            &&& sample != next && block.len() < 15 ==> feed_packets(h, next).len() == 0
                && after.block == block.push(sample)
            &&& sample != next && block.len() == 15 ==> feed_packets(h, next) == seq![
                Packet::Block(block.push(sample)),
            ] && after.block.len() == 0
            &&& sample != next ==> after.run == Some((next, 1nat))
            &&& sample == next && block.len() == 0 ==> feed_packets(h, next).len() == 0
            &&& sample == next && block.len() > 0 ==> feed_packets(h, next) == seq![
                Packet::Block(block),
            ]
            &&& sample == next ==> after.run == Some((next, 2nat)) && after.block.len() == 0
        }),
{
}

/// A text is sent as far as it fits into 256 bytes.
pub proof fn law_texts_are_cut(text: Seq<u8>)
    ensures
        log_body(text).is_prefix_of(text),
        log_body(text).len() == if text.len() < 256 {
            text.len()
        } else {
            256
        },
{
}

/// What calls of the functions for losses, texts and acknowledgements write: one packet
/// behind what was written before.
pub proof fn law_other_packets_are_written<S: Sink>(
    dropped: u32,
    msg: &str,
    k1: &mut S,
    k2: &mut S,
    k3: &mut S,
    k4: &mut S,
)
    requires
        call_ensures(encode_overrun::<S>, (dropped, k1), ()),
        call_ensures(encode_log::<S>, (msg, k2), ()),
        call_ensures(encode_started::<S>, (k3,), ()),
        call_ensures(encode_stopped::<S>, (k4,), ()),
    ensures
        final(k1).written() == old(k1).written() + seq![0xfdu8] + bytes::le32(dropped),
        ({
            let text = vstd::utf8::encode_utf8(msg@);
            let n = if text.len() < 256 {
                text.len() as int
            } else {
                256
            };
            final(k2).written() == old(k2).written() + seq![
                0xfeu8,
                (n % 256) as u8,
                (n / 256) as u8,
            ] + text.take(n)
        }),
        final(k3).written() == old(k3).written().push(0xfb),
        final(k4).written() == old(k4).written().push(0xfc),
{
    let text = vstd::utf8::encode_utf8(msg@);
    let n = if text.len() < 256 {
        text.len() as int
    } else {
        256
    };
    let body = log_body(text);
    assert(body =~= text.take(n));
    assert(final(k1).written() =~= old(k1).written() + seq![0xfdu8] + bytes::le32(dropped));
    assert(final(k2).written() =~= old(k2).written() + seq![
        0xfeu8,
        (n % 256) as u8,
        (n / 256) as u8,
    ] + text.take(n));
    assert(final(k3).written() =~= old(k3).written().push(0xfb));
    assert(final(k4).written() =~= old(k4).written().push(0xfc));
}

/// What calls of [`Encoder::feed`] and [`Encoder::flush`] write of two samples: one block
/// with both where they differ, and one run of two where they are equal.
pub proof fn law_two_samples_are_sent<S: Sink>(
    e1: &mut Encoder,
    e2: &mut Encoder,
    e3: &mut Encoder,
    k1: &mut S,
    k2: &mut S,
    k3: &mut S,
    a: u32,
    b: u32,
)
    requires
        old(e1).wf(),
        old(e1)@ == nothing(),
        call_ensures(Encoder::feed::<S>, (e1, a, k1), ()),
        *old(e2) == *final(e1),
        *old(k2) == *final(k1),
        call_ensures(Encoder::feed::<S>, (e2, b, k2), ()),
        *old(e3) == *final(e2),
        *old(k3) == *final(k2),
        call_ensures(Encoder::flush::<S>, (e3, k3), ()),
    ensures
        a == b ==> final(k3).written() == old(k1).written() + seq![2u8, 2u8, 0u8] + bytes::le32(a),
        a != b ==> final(k3).written() == old(k1).written() + seq![1u8, 2u8] + bytes::le32(a)
            + bytes::le32(b),
        final(e3)@ == nothing(),
{
    let none = Seq::<Packet>::empty();
    let h1 = fed(nothing(), a);
    let h2 = fed(h1, b);
    assert(packets_bytes(none) =~= Seq::<u8>::empty());
    assert(feed_packets(nothing(), a) =~= none);
    assert(feed_packets(h1, b) =~= none);
    let p = if a == b {
        Packet::Run { n: 2, sample: a }
    } else {
        Packet::Block(seq![a, b])
    };
    if a != b {
        assert(Seq::<u32>::empty().push(a).push(b) =~= seq![a, b]);
        bytes::lemma_le32s_push(seq![a], b);
        bytes::lemma_le32s_push(Seq::empty(), a);
        assert(seq![a].push(b) =~= seq![a, b]);
        assert(Seq::<u32>::empty().push(a) =~= seq![a]);
        assert(bytes::le32s(Seq::empty()) =~= Seq::<u8>::empty());
        assert(bytes::le32s(seq![a, b]) =~= bytes::le32(a) + bytes::le32(b));
    }
    assert(flush_packets(h2) =~= seq![p]);
    assert(seq![p].drop_last() =~= none);
    assert(packets_bytes(seq![p]) =~= packet_bytes(p));
    if a == b {
        assert(packet_bytes(p) =~= seq![2u8, 2u8, 0u8] + bytes::le32(a));
        assert(final(k3).written() =~= old(k1).written() + seq![2u8, 2u8, 0u8] + bytes::le32(a));
    } else {
        assert(packet_bytes(p) =~= seq![1u8, 2u8] + bytes::le32(a) + bytes::le32(b));
        assert(final(k3).written() =~= old(k1).written() + seq![1u8, 2u8] + bytes::le32(a)
            + bytes::le32(b));
    }
}

} // verus!
