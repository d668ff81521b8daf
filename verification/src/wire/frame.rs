//! What a frame is: the tags, the layout of each body, and how a reader finds
//! the end of it.

use vstd::prelude::*;

use crate::bytes;

verus! {

/// A span of distinct adjacent samples, amortising the frame header.
pub const TAG_BLOCK: u8 = 0x01;

/// `n` consecutive identical samples.
pub const TAG_RUN: u8 = 0x02;

/// Runs that alternate between two samples.
pub const TAG_REPEAT2: u8 = 0x03;

/// Drain tick: wall clock and backlog telemetry.
pub const TAG_TICK: u8 = 0xFA;

/// Acknowledgement of START.
pub const TAG_STARTED: u8 = 0xFB;

/// Acknowledgement of STOP.
pub const TAG_STOPPED: u8 = 0xFC;

/// Samples were lost.
pub const TAG_OVERRUN: u8 = 0xFD;

/// A line of text.
pub const TAG_LOG: u8 = 0xFE;

/// Samples carry at most 18 significant bits, so this is never one and can end
/// the sample list of a BLOCK.
pub const BLOCK_SENTINEL: u32 = 0xffff_ffff;

/// One frame, as a mathematical value.
pub enum Frame {
    Block(Seq<u32>),
    Run { n: u16, sample: u32 },
    Repeat2 { val_a: u32, val_b: u32, run_lens: Seq<u8> },
    Tick { t_us: u32, dt_us: u16, n_drained: u16, n_pending: u16, bytes_out: u32 },
    Overrun { dropped: u32 },
    Log(Seq<u8>),
    Started,
    Stopped,
}

/// What the front of a byte sequence holds.
pub enum Step {
    /// Not yet a whole frame.
    NeedMore,
    /// A byte that starts no frame.
    Bad(u8),
    /// A frame, and the number of bytes it takes.
    Whole(Frame, nat),
}

/// The offset of the first sentinel word among the words at `off`, `off + 4`, ...
pub open spec fn sentinel_from(s: Seq<u8>, off: int) -> Option<int>
    decreases s.len() - off,
{
    if off < 0 || s.len() < off + 4 {
        None
    } else if bytes::word_at(s, off) == BLOCK_SENTINEL {
        Some(off)
    } else {
        sentinel_from(s, off + 4)
    }
}

/// The offset of the first zero byte at or after `off`.
pub open spec fn zero_from(s: Seq<u8>, off: int) -> Option<int>
    decreases s.len() - off,
{
    if off < 0 || s.len() <= off {
        None
    } else if s[off] == 0 {
        Some(off)
    } else {
        zero_from(s, off + 1)
    }
}

/// Reads one frame off the front of `s`.
pub open spec fn parse(s: Seq<u8>) -> Step {
    if s.len() == 0 {
        Step::NeedMore
    } else if s[0] == TAG_BLOCK {
        match sentinel_from(s, 1) {
            None => Step::NeedMore,
            Some(end) => Step::Whole(
                Frame::Block(bytes::words(s.subrange(1, end))),
                (end + 4) as nat,
            ),
        }
    } else if s[0] == TAG_RUN {
        if s.len() < 7 {
            Step::NeedMore
        } else {
            Step::Whole(Frame::Run { n: bytes::half_at(s, 1), sample: bytes::word_at(s, 3) }, 7)
        }
    } else if s[0] == TAG_REPEAT2 {
        match zero_from(s, 9) {
            None => Step::NeedMore,
            Some(end) => Step::Whole(
                Frame::Repeat2 {
                    val_a: bytes::word_at(s, 1),
                    val_b: bytes::word_at(s, 5),
                    run_lens: s.subrange(9, end),
                },
                (end + 1) as nat,
            ),
        }
    } else if s[0] == TAG_TICK {
        if s.len() < 15 {
            Step::NeedMore
        } else {
            Step::Whole(
                Frame::Tick {
                    t_us: bytes::word_at(s, 1),
                    dt_us: bytes::half_at(s, 5),
                    n_drained: bytes::half_at(s, 7),
                    n_pending: bytes::half_at(s, 9),
                    bytes_out: bytes::word_at(s, 11),
                },
                15,
            )
        }
    } else if s[0] == TAG_OVERRUN {
        if s.len() < 5 {
            Step::NeedMore
        } else {
            Step::Whole(Frame::Overrun { dropped: bytes::word_at(s, 1) }, 5)
        }
    } else if s[0] == TAG_LOG {
        match zero_from(s, 1) {
            None => Step::NeedMore,
            Some(end) => Step::Whole(Frame::Log(s.subrange(1, end)), (end + 1) as nat),
        }
    } else if s[0] == TAG_STARTED {
        Step::Whole(Frame::Started, 1)
    } else if s[0] == TAG_STOPPED {
        Step::Whole(Frame::Stopped, 1)
    } else {
        Step::Bad(s[0])
    }
}

/// The bytes of a frame.
pub open spec fn frame_bytes(f: Frame) -> Seq<u8> {
    match f {
        Frame::Block(samples) => seq![TAG_BLOCK] + bytes::le32s(samples) + bytes::le32(
            BLOCK_SENTINEL,
        ),
        Frame::Run { n, sample } => seq![TAG_RUN] + bytes::le16(n) + bytes::le32(sample),
        Frame::Repeat2 { val_a, val_b, run_lens } => seq![TAG_REPEAT2] + bytes::le32(val_a)
            + bytes::le32(val_b) + run_lens + seq![0u8],
        Frame::Tick { t_us, dt_us, n_drained, n_pending, bytes_out } => seq![TAG_TICK]
            + bytes::le32(t_us) + bytes::le16(dt_us) + bytes::le16(n_drained) + bytes::le16(
            n_pending,
        ) + bytes::le32(bytes_out),
        Frame::Overrun { dropped } => seq![TAG_OVERRUN] + bytes::le32(dropped),
        Frame::Log(text) => seq![TAG_LOG] + text + seq![0u8],
        Frame::Started => seq![TAG_STARTED],
        Frame::Stopped => seq![TAG_STOPPED],
    }
}

/// Frames that the format can express: no sample of a BLOCK is the sentinel,
/// and no zero byte stands where a zero ends the body.
pub open spec fn expressible(f: Frame) -> bool {
    match f {
        Frame::Block(samples) => !samples.contains(BLOCK_SENTINEL),
        Frame::Repeat2 { run_lens, .. } => !run_lens.contains(0),
        Frame::Log(text) => !text.contains(0),
        _ => true,
    }
}

/// The whole frames at the front of a byte sequence, the tag that stopped the
/// reader, if one did, and the bytes left over.
pub struct Frames {
    pub frames: Seq<Frame>,
    pub bad: Option<u8>,
    pub rest: Seq<u8>,
}

/// Reads frames off the front of `s` as long as there are whole ones.
pub open spec fn frames_in(s: Seq<u8>) -> Frames
    decreases s.len(),
{
    match parse(s) {
        Step::NeedMore => Frames { frames: Seq::empty(), bad: None, rest: s },
        Step::Bad(tag) => Frames { frames: Seq::empty(), bad: Some(tag), rest: s },
        Step::Whole(f, n) => if 0 < n <= s.len() {
            let later = frames_in(s.skip(n as int));
            Frames { frames: seq![f] + later.frames, ..later }
        } else {
            arbitrary()
        },
    }
}

/// Where the sentinel scan ends, and that it skips no sentinel.
pub proof fn lemma_sentinel_from(s: Seq<u8>, off: int)
    requires
        0 <= off,
    ensures
        sentinel_from(s, off) matches Some(end) ==> off <= end && end + 4 <= s.len() && (end - off)
            % 4 == 0 && bytes::word_at(s, end) == BLOCK_SENTINEL,
    decreases s.len() - off,
{
    if s.len() >= off + 4 && bytes::word_at(s, off) != BLOCK_SENTINEL {
        lemma_sentinel_from(s, off + 4);
    }
}

/// Where the zero scan ends, and that the bytes before it are not zero.
pub proof fn lemma_zero_from(s: Seq<u8>, off: int)
    requires
        0 <= off,
    ensures
        match zero_from(s, off) {
            Some(end) => off <= end < s.len() && s[end] == 0 && forall|j: int|
                off <= j < end ==> s[j] != 0,
            None => forall|j: int| off <= j < s.len() ==> s[j] != 0,
        },
    decreases s.len() - off,
{
    if s.len() > off && s[off] != 0 {
        lemma_zero_from(s, off + 1);
    }
}

pub proof fn lemma_sentinel_stable(s: Seq<u8>, t: Seq<u8>, off: int)
    requires
        0 <= off,
        sentinel_from(s, off) is Some,
    ensures
        sentinel_from(s + t, off) == sentinel_from(s, off),
    decreases s.len() - off,
{
    assert(bytes::word_at(s + t, off) == bytes::word_at(s, off));
    if bytes::word_at(s, off) != BLOCK_SENTINEL {
        lemma_sentinel_stable(s, t, off + 4);
    }
}

pub proof fn lemma_zero_stable(s: Seq<u8>, t: Seq<u8>, off: int)
    requires
        0 <= off,
        zero_from(s, off) is Some,
    ensures
        zero_from(s + t, off) == zero_from(s, off),
    decreases s.len() - off,
{
    assert((s + t)[off] == s[off]);
    if s[off] != 0 {
        lemma_zero_stable(s, t, off + 1);
    }
}

/// A frame takes at least one byte, and no more than there are.
pub proof fn lemma_parse_takes(s: Seq<u8>)
    ensures
        parse(s) matches Step::Whole(_, n) ==> 0 < n <= s.len(),
{
    lemma_sentinel_from(s, 1);
    lemma_zero_from(s, 1);
    lemma_zero_from(s, 9);
}

/// What the front of a sequence holds does not change when bytes are appended,
/// once it is known.
pub proof fn law_parse_is_stable(s: Seq<u8>, t: Seq<u8>)
    requires
        parse(s) !is NeedMore,
    ensures
        parse(s + t) == parse(s),
{
    let u = s + t;
    assert(u[0] == s[0]);
    if s[0] == TAG_BLOCK {
        lemma_sentinel_stable(s, t, 1);
        lemma_sentinel_from(s, 1);
        let end = sentinel_from(s, 1)->0;
        assert(u.subrange(1, end) =~= s.subrange(1, end));
    } else if s[0] == TAG_REPEAT2 {
        lemma_zero_stable(s, t, 9);
        lemma_zero_from(s, 9);
        let end = zero_from(s, 9)->0;
        assert(u.subrange(9, end) =~= s.subrange(9, end));
    } else if s[0] == TAG_LOG {
        lemma_zero_stable(s, t, 1);
        lemma_zero_from(s, 1);
        let end = zero_from(s, 1)->0;
        assert(u.subrange(1, end) =~= s.subrange(1, end));
    }
}

/// No proper prefix of a frame is a frame: a reader that gets the bytes one by
/// one sees the frame end at its last byte.
pub proof fn law_parse_needs_the_whole_frame(s: Seq<u8>, j: int)
    requires
        parse(s) is Whole,
        0 <= j < parse(s)->Whole_1,
    ensures
        parse(s.take(j)) is NeedMore,
{
    lemma_parse_takes(s);
    let p = s.take(j);
    assert(p + s.skip(j) =~= s);
    if parse(p) !is NeedMore {
        law_parse_is_stable(p, s.skip(j));
        lemma_parse_takes(p);
    }
}

proof fn lemma_sentinel_in_front(s: Seq<u8>, off: int, m: int)
    requires
        0 <= off,
        sentinel_from(s, off) matches Some(end) && end + 4 <= m <= s.len(),
    ensures
        sentinel_from(s.take(m), off) == sentinel_from(s, off),
    decreases s.len() - off,
{
    lemma_sentinel_from(s, off);
    assert(bytes::word_at(s.take(m), off) == bytes::word_at(s, off));
    if bytes::word_at(s, off) != BLOCK_SENTINEL {
        lemma_sentinel_in_front(s, off + 4, m);
    }
}

proof fn lemma_zero_in_front(s: Seq<u8>, off: int, m: int)
    requires
        0 <= off,
        zero_from(s, off) matches Some(end) && end < m <= s.len(),
    ensures
        zero_from(s.take(m), off) == zero_from(s, off),
    decreases s.len() - off,
{
    lemma_zero_from(s, off);
    if s[off] != 0 {
        lemma_zero_in_front(s, off + 1, m);
    }
}

/// A frame is in its own bytes: it takes at least one byte and no more than there
/// are, its bytes alone hold it, and whatever comes after them is not looked at.
pub proof fn law_a_frame_is_in_its_own_bytes(s: Seq<u8>, later: Seq<u8>)
    requires
        parse(s) is Whole,
    ensures
        ({
            let n = parse(s)->Whole_1 as int;
            &&& 0 < n <= s.len()
            &&& parse(s.take(n)) == parse(s)
            &&& parse(s.take(n) + later) == parse(s)
        }),
{
    lemma_parse_takes(s);
    let n = parse(s)->Whole_1 as int;
    let front = s.take(n);
    assert(front[0] == s[0]);
    if s[0] == TAG_BLOCK {
        lemma_sentinel_in_front(s, 1, n);
    } else if s[0] == TAG_REPEAT2 {
        lemma_zero_from(s, 9);
        lemma_zero_in_front(s, 9, n);
    } else if s[0] == TAG_LOG {
        lemma_zero_in_front(s, 1, n);
    }
    assert(front + s.skip(n) =~= s);
    law_parse_is_stable(front, s.skip(n));
    law_parse_is_stable(front, later);
}

proof fn lemma_sentinel_of_block(samples: Seq<u32>, tail: Seq<u8>, k: int)
    requires
        !samples.contains(BLOCK_SENTINEL),
        0 <= k <= samples.len(),
    ensures
        ({
            let s = frame_bytes(Frame::Block(samples)) + tail;
            sentinel_from(s, 1 + 4 * k) == Some(1 + 4 * samples.len() as int)
        }),
    decreases samples.len() - k,
{
    let f = frame_bytes(Frame::Block(samples));
    let s = f + tail;
    bytes::lemma_le32s_len(samples);
    if k < samples.len() {
        bytes::lemma_le32s_word(samples, k);
        assert(s.subrange(1 + 4 * k, 1 + 4 * k + 4) =~= bytes::le32s(samples).subrange(
            4 * k,
            4 * k + 4,
        ));
        bytes::lemma_word_of_le32(s, 1 + 4 * k, samples[k]);
        assert(samples.contains(samples[k]));
        lemma_sentinel_of_block(samples, tail, k + 1);
    } else {
        assert(s.subrange(1 + 4 * k, 1 + 4 * k + 4) =~= bytes::le32(BLOCK_SENTINEL));
        bytes::lemma_word_of_le32(s, 1 + 4 * k, BLOCK_SENTINEL);
    }
}

proof fn lemma_zero_ends(s: Seq<u8>, off: int, end: int)
    requires
        0 <= off <= end < s.len(),
        s[end] == 0,
        forall|j: int| off <= j < end ==> s[j] != 0,
    ensures
        zero_from(s, off) == Some(end),
    decreases end - off,
{
    if off < end {
        lemma_zero_ends(s, off + 1, end);
    }
}

/// A frame is read back from its bytes, whatever follows them.
#[verifier::rlimit(50)]
pub proof fn law_parse_reads_back(f: Frame, tail: Seq<u8>)
    requires
        expressible(f),
    ensures
        parse(frame_bytes(f) + tail) == Step::Whole(f, frame_bytes(f).len()),
{
    let b = frame_bytes(f);
    let s = b + tail;
    match f {
        Frame::Block(samples) => {
            bytes::lemma_le32s_len(samples);
            lemma_sentinel_of_block(samples, tail, 0);
            let body = s.subrange(1, 1 + 4 * samples.len() as int);
            assert(body =~= bytes::le32s(samples));
            assert forall|i: int| 0 <= i < samples.len() implies bytes::words(body)[i]
                == samples[i] by {
                bytes::lemma_le32s_word(samples, i);
            }
            assert(bytes::words(body) =~= samples);
        },
        Frame::Run { n, sample } => {
            assert(s.subrange(1, 3) =~= bytes::le16(n));
            assert(s.subrange(3, 7) =~= bytes::le32(sample));
            bytes::lemma_half_of_le16(s, 1, n);
            bytes::lemma_word_of_le32(s, 3, sample);
        },
        Frame::Repeat2 { val_a, val_b, run_lens } => {
            assert(s.subrange(1, 5) =~= bytes::le32(val_a));
            assert(s.subrange(5, 9) =~= bytes::le32(val_b));
            bytes::lemma_word_of_le32(s, 1, val_a);
            bytes::lemma_word_of_le32(s, 5, val_b);
            assert forall|j: int| 9 <= j < 9 + run_lens.len() implies s[j] != 0 by {
                assert(s[j] == run_lens[j - 9]);
                assert(run_lens.contains(run_lens[j - 9]));
            }
            lemma_zero_ends(s, 9, 9 + run_lens.len() as int);
            assert(s.subrange(9, 9 + run_lens.len() as int) =~= run_lens);
        },
        Frame::Tick { t_us, dt_us, n_drained, n_pending, bytes_out } => {
            assert(s.subrange(1, 5) =~= bytes::le32(t_us));
            assert(s.subrange(5, 7) =~= bytes::le16(dt_us));
            assert(s.subrange(7, 9) =~= bytes::le16(n_drained));
            assert(s.subrange(9, 11) =~= bytes::le16(n_pending));
            assert(s.subrange(11, 15) =~= bytes::le32(bytes_out));
            bytes::lemma_word_of_le32(s, 1, t_us);
            bytes::lemma_half_of_le16(s, 5, dt_us);
            bytes::lemma_half_of_le16(s, 7, n_drained);
            bytes::lemma_half_of_le16(s, 9, n_pending);
            bytes::lemma_word_of_le32(s, 11, bytes_out);
        },
        Frame::Overrun { dropped } => {
            assert(s.subrange(1, 5) =~= bytes::le32(dropped));
            bytes::lemma_word_of_le32(s, 1, dropped);
        },
        Frame::Log(text) => {
            assert forall|j: int| 1 <= j < 1 + text.len() implies s[j] != 0 by {
                assert(s[j] == text[j - 1]);
                assert(text.contains(text[j - 1]));
            }
            lemma_zero_ends(s, 1, 1 + text.len() as int);
            assert(s.subrange(1, 1 + text.len() as int) =~= text);
        },
        _ => {},
    }
}

/// The offset of the first zero byte at or after `off`.
pub fn find_zero(buf: &[u8], off: usize) -> (end: Option<usize>)
    ensures
        match end {
            Some(e) => zero_from(buf@, off as int) == Some(e as int),
            None => zero_from(buf@, off as int) is None,
        },
{
    let mut i: usize = off;
    while i < buf.len()
        invariant
            off <= i,
            zero_from(buf@, off as int) == zero_from(buf@, i as int),
        decreases buf.len() - i,
    {
        if buf[i] == 0 {
            return Some(i);
        }
        i += 1;
    }
    None
}

/// Reading can stop and go on anywhere: the frames in `a` and those in what was
/// left of `a` with `b` behind it are the frames in `a + b`.
pub proof fn law_frames_can_be_read_in_pieces(a: Seq<u8>, b: Seq<u8>)
    requires
        frames_in(a).bad is None,
    ensures
        ({
            let x = frames_in(a);
            let y = frames_in(x.rest + b);
            let whole = frames_in(a + b);
            &&& whole.frames == x.frames + y.frames
            &&& whole.bad == y.bad
            &&& whole.rest == y.rest
        }),
    decreases a.len(),
{
    lemma_parse_takes(a);
    match parse(a) {
        Step::Whole(f, n) => {
            law_parse_is_stable(a, b);
            let rest = a.skip(n as int);
            assert((a + b).skip(n as int) =~= rest + b);
            law_frames_can_be_read_in_pieces(rest, b);
            let x = frames_in(rest);
            let y = frames_in(x.rest + b);
            assert(seq![f] + (x.frames + y.frames) =~= (seq![f] + x.frames) + y.frames);
        },
        _ => {
            assert(Seq::<Frame>::empty() + frames_in(a + b).frames =~= frames_in(a + b).frames);
        },
    }
}

/// Where each field of a frame lies. A frame starts with the byte that tells its
/// variant, fields of more than one byte are little-endian, and a list is ended by
/// a word of ones or by a zero.
pub proof fn law_fields_lie_where_they_belong(f: Frame)
    ensures
        ({
            let b = frame_bytes(f);
            match f {
                Frame::Block(samples) => {
                    &&& b.len() == 4 * samples.len() + 5
                    &&& b[0] == 0x01
                    &&& forall|i: int|
                        0 <= i < samples.len() ==> b.subrange(1 + 4 * i, 5 + 4 * i) == bytes::le32(
                            #[trigger] samples[i],
                        )
                    &&& forall|i: int| b.len() - 4 <= i < b.len() ==> #[trigger] b[i] == 0xff
                },
                Frame::Run { n, sample } => {
                    &&& b.len() == 7
                    &&& b[0] == 0x02
                    &&& b.subrange(1, 3) == bytes::le16(n)
                    &&& b.subrange(3, 7) == bytes::le32(sample)
                },
                Frame::Repeat2 { val_a, val_b, run_lens } => {
                    &&& b.len() == run_lens.len() + 10
                    &&& b[0] == 0x03
                    &&& b.subrange(1, 5) == bytes::le32(val_a)
                    &&& b.subrange(5, 9) == bytes::le32(val_b)
                    &&& b.subrange(9, b.len() - 1) == run_lens
                    &&& b.last() == 0
                },
                Frame::Tick { t_us, dt_us, n_drained, n_pending, bytes_out } => {
                    &&& b.len() == 15
                    &&& b[0] == 0xfa
                    &&& b.subrange(1, 5) == bytes::le32(t_us)
                    &&& b.subrange(5, 7) == bytes::le16(dt_us)
                    &&& b.subrange(7, 9) == bytes::le16(n_drained)
                    &&& b.subrange(9, 11) == bytes::le16(n_pending)
                    &&& b.subrange(11, 15) == bytes::le32(bytes_out)
                },
                Frame::Overrun { dropped } => {
                    &&& b.len() == 5
                    &&& b[0] == 0xfd
                    &&& b.subrange(1, 5) == bytes::le32(dropped)
                },
                Frame::Log(text) => {
                    &&& b.len() == text.len() + 2
                    &&& b[0] == 0xfe
                    &&& b.subrange(1, b.len() - 1) == text
                    &&& b.last() == 0
                },
                Frame::Started => b == seq![0xfbu8],
                Frame::Stopped => b == seq![0xfcu8],
            }
        }),
{
    let b = frame_bytes(f);
    match f {
        Frame::Block(samples) => {
            bytes::lemma_le32s_len(samples);
            assert forall|i: int| 0 <= i < samples.len() implies b.subrange(1 + 4 * i, 5 + 4 * i)
                == bytes::le32(#[trigger] samples[i]) by {
                bytes::lemma_le32s_word(samples, i);
                assert(b.subrange(1 + 4 * i, 5 + 4 * i) =~= bytes::le32s(samples).subrange(
                    4 * i,
                    4 * i + 4,
                ));
            }
        },
        Frame::Run { n, sample } => {
            assert(b.subrange(1, 3) =~= bytes::le16(n));
            assert(b.subrange(3, 7) =~= bytes::le32(sample));
        },
        Frame::Repeat2 { val_a, val_b, run_lens } => {
            assert(b.subrange(1, 5) =~= bytes::le32(val_a));
            assert(b.subrange(5, 9) =~= bytes::le32(val_b));
            assert(b.subrange(9, b.len() - 1) =~= run_lens);
        },
        Frame::Tick { t_us, dt_us, n_drained, n_pending, bytes_out } => {
            assert(b.subrange(1, 5) =~= bytes::le32(t_us));
            assert(b.subrange(5, 7) =~= bytes::le16(dt_us));
            assert(b.subrange(7, 9) =~= bytes::le16(n_drained));
            assert(b.subrange(9, 11) =~= bytes::le16(n_pending));
            assert(b.subrange(11, 15) =~= bytes::le32(bytes_out));
        },
        Frame::Overrun { dropped } => {
            assert(b.subrange(1, 5) =~= bytes::le32(dropped));
        },
        Frame::Log(text) => {
            assert(b.subrange(1, b.len() - 1) =~= text);
        },
        _ => {},
    }
}

/// Eight bytes start a frame. On any other the reader stops, and names it.
pub proof fn law_other_bytes_start_no_frame(s: Seq<u8>)
    requires
        s.len() > 0,
    ensures
        parse(s) is Bad <==> !(0x01 <= s[0] <= 0x03 || 0xfa <= s[0] <= 0xfe),
        parse(s) matches Step::Bad(tag) ==> tag == s[0],
{
}

/// A frame that was read has the bytes that it was read from: nothing in them is
/// passed over or made up.
pub proof fn law_what_is_read_is_what_was_there(s: Seq<u8>)
    requires
        parse(s) is Whole,
    ensures
        frame_bytes(parse(s)->Whole_0) == s.take(parse(s)->Whole_1 as int),
{
    lemma_parse_takes(s);
    if s[0] == TAG_BLOCK {
        lemma_block_read(s);
    } else if s[0] == TAG_RUN {
        bytes::lemma_bytes_of_half(s, 1);
        bytes::lemma_bytes_of_word(s, 3);
        assert(seq![s[0]] + s.subrange(1, 3) + s.subrange(3, 7) =~= s.take(7));
    } else if s[0] == TAG_REPEAT2 {
        lemma_zero_from(s, 9);
        let end = zero_from(s, 9)->0;
        bytes::lemma_bytes_of_word(s, 1);
        bytes::lemma_bytes_of_word(s, 5);
        assert(seq![s[0]] + s.subrange(1, 5) + s.subrange(5, 9) + s.subrange(9, end) + seq![0u8]
            =~= s.take(end + 1));
    } else if s[0] == TAG_TICK {
        lemma_tick_read(s);
    } else if s[0] == TAG_OVERRUN {
        bytes::lemma_bytes_of_word(s, 1);
        assert(seq![s[0]] + s.subrange(1, 5) =~= s.take(5));
    } else if s[0] == TAG_LOG {
        lemma_zero_from(s, 1);
        let end = zero_from(s, 1)->0;
        assert(seq![s[0]] + s.subrange(1, end) + seq![0u8] =~= s.take(end + 1));
    } else {
        assert(seq![s[0]] =~= s.take(1));
    }
}

proof fn lemma_block_read(s: Seq<u8>)
    requires
        parse(s) is Whole,
        s[0] == TAG_BLOCK,
    ensures
        frame_bytes(parse(s)->Whole_0) == s.take(parse(s)->Whole_1 as int),
{
    lemma_sentinel_from(s, 1);
    let end = sentinel_from(s, 1)->0;
    bytes::law_words_are_their_bytes(s.subrange(1, end));
    bytes::lemma_bytes_of_word(s, end);
    assert(seq![s[0]] + s.subrange(1, end) + s.subrange(end, end + 4) =~= s.take(end + 4));
}

proof fn lemma_tick_read(s: Seq<u8>)
    requires
        parse(s) is Whole,
        s[0] == TAG_TICK,
    ensures
        frame_bytes(parse(s)->Whole_0) == s.take(parse(s)->Whole_1 as int),
{
    bytes::lemma_bytes_of_word(s, 1);
    bytes::lemma_bytes_of_half(s, 5);
    bytes::lemma_bytes_of_half(s, 7);
    bytes::lemma_bytes_of_half(s, 9);
    bytes::lemma_bytes_of_word(s, 11);
    assert(seq![s[0]] + s.subrange(1, 5) + s.subrange(5, 7) + s.subrange(7, 9) + s.subrange(9, 11)
        + s.subrange(11, 15) =~= s.take(15));
}

} // verus!
