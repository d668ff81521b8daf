//! Pairing of the two capture rings.
//!
//! On every write strobe one transfer stores a port in each of two rings, so
//! the same place in both belongs to one sample. The hardware reports per ring how
//! many transfers are left until it wraps.

use vstd::prelude::*;

use crate::wire::frame;

verus! {

/// Bits of the first port that carry display signals: DB8 and DB11 to DB13.
pub const PA_MASK: u16 = 0x001E;

/// Bits of the second port that carry display signals: DB14, DB15, DB0 to DB7,
/// DB9, DB10 and DC.
pub const PB_MASK: u16 = 0xFFE3;

/// Both masks, as a sample has them.
pub const SAMPLE_MASK: u32 = 0xFFE3_001E;

/// Size of each ring.
pub const RING_CAP: usize = 4096;

/// One sample: the first port in the low half, the second in the high half, and
/// only the bits that are wired. Noise on other bits would break runs.
pub open spec fn packed(pa: u16, pb: u16) -> u32 {
    ((pa as u32) | ((pb as u32) << 16)) & SAMPLE_MASK
}

/// Where the hardware writes next, when so many transfers are left.
pub open spec fn write_pos(ndtr: int) -> int {
    (RING_CAP - ndtr) % (RING_CAP as int)
}

/// What a pair of rings has been through.
pub struct Rings {
    pub pa_read: int,
    pub pb_read: int,
    /// Samples known to be lost since this was last asked.
    pub dropped: u32,
    /// Samples known to be lost since the start.
    pub dropped_total: u32,
}

/// How many samples of a ring are unread.
pub open spec fn unread(read: int, ndtr: int) -> int {
    (write_pos(ndtr) - read) % (RING_CAP as int)
}

/// How many pairs are unread: the rings may be one sample apart.
pub open spec fn unread_pairs(r: Rings, pa_ndtr: int, pb_ndtr: int) -> int {
    let a = unread(r.pa_read, pa_ndtr);
    let b = unread(r.pb_read, pb_ndtr);
    if a <= b {
        a
    } else {
        b
    }
}

/// The next `n` pairs.
pub open spec fn pairs(r: Rings, pa: Seq<u16>, pb: Seq<u16>, n: nat) -> Seq<u32> {
    Seq::new(
        n,
        |i: int|
            packed(
                pa[(r.pa_read + i) % (RING_CAP as int)],
                pb[(r.pb_read + i) % (RING_CAP as int)],
            ),
    )
}

/// The rings once `n` pairs are read.
pub open spec fn advanced(r: Rings, n: int) -> Rings {
    Rings {
        pa_read: (r.pa_read + n) % (RING_CAP as int),
        pb_read: (r.pb_read + n) % (RING_CAP as int),
        ..r
    }
}

/// A count with more added; it stays at the largest.
pub open spec fn raised(count: u32, by: int) -> u32 {
    if count + by > u32::MAX {
        u32::MAX
    } else {
        (count + by) as u32
    }
}

/// Whether more than half of either ring is unread.
pub open spec fn overrun(r: Rings, pa_ndtr: int, pb_ndtr: int) -> bool {
    unread(r.pa_read, pa_ndtr) > RING_CAP / 2 || unread(r.pb_read, pb_ndtr) > RING_CAP / 2
}

/// The rings once all that is unread is given up. How many samples were lost is
/// not known; a ring's worth is counted.
pub open spec fn resynced(r: Rings, pa_ndtr: int, pb_ndtr: int) -> Rings {
    Rings {
        pa_read: write_pos(pa_ndtr),
        pb_read: write_pos(pb_ndtr),
        dropped: raised(r.dropped, RING_CAP as int),
        dropped_total: raised(r.dropped_total, RING_CAP as int),
    }
}

pub struct Capture {
    pa_read_idx: usize,
    pb_read_idx: usize,
    dropped: u32,
    dropped_total: u32,
}

impl View for Capture {
    type V = Rings;

    closed spec fn view(&self) -> Rings {
        Rings {
            pa_read: self.pa_read_idx as int,
            pb_read: self.pb_read_idx as int,
            dropped: self.dropped,
            dropped_total: self.dropped_total,
        }
    }
}

impl Capture {
    pub open spec fn wf(&self) -> bool {
        0 <= self@.pa_read < RING_CAP && 0 <= self@.pb_read < RING_CAP
    }

    /// Rings that start at their first slots.
    pub fn new() -> (capture: Self)
        ensures
            capture.wf(),
            capture@ == (Rings { pa_read: 0, pb_read: 0, dropped: 0, dropped_total: 0 }),
    {
        Capture { pa_read_idx: 0, pb_read_idx: 0, dropped: 0, dropped_total: 0 }
    }

    /// How much to take of two reads, one of each ring: the shorter; what the other
    /// has more appears with the next read. `None` where a ring overran, and the
    /// rings have to be put in step again with [`Capture::hard_resync`].
    pub fn drain(&self, pa_read: Option<usize>, pb_read: Option<usize>) -> (n: Option<usize>)
        ensures
            n == match (pa_read, pb_read) {
                (Some(a), Some(b)) => Some(
                    if a <= b {
                        a
                    } else {
                        b
                    },
                ),
                _ => None,
            },
    {
        match (pa_read, pb_read) {
            (Some(a), Some(b)) => Some(
                if a <= b {
                    a
                } else {
                    b
                },
            ),
            _ => None,
        }
    }

    /// Whether more than half of a ring is unread: a safety margin, because a ring
    /// that wrapped cannot be told from one that did not. It can be a false alarm,
    /// of a reader that is too slow anyway.
    pub fn overrun_suspected(&self, pa_ndtr: usize, pb_ndtr: usize) -> (suspected: bool)
        requires
            self.wf(),
            pa_ndtr <= RING_CAP,
            pb_ndtr <= RING_CAP,
        ensures
            suspected == overrun(self@, pa_ndtr as int, pb_ndtr as int),
    {
        unread_of(self.pa_read_idx, pa_ndtr) > RING_CAP / 2 || unread_of(
            self.pb_read_idx,
            pb_ndtr,
        ) > RING_CAP / 2
    }

    /// Reads pairs off the rings into the front of `out`: all that are unread, or
    /// as many as fit. Returns how many. Where more than half of a ring is unread,
    /// that counts as an overrun: nothing is read, and the rings are put in step as
    /// with [`Capture::hard_resync`].
    #[verifier::rlimit(50)]
    pub fn fast_drain(
        &mut self,
        pa: &[u16],
        pb: &[u16],
        pa_ndtr: usize,
        pb_ndtr: usize,
        out: &mut [u32],
    ) -> (n: usize)
        requires
            old(self).wf(),
            pa@.len() == RING_CAP,
            pb@.len() == RING_CAP,
            pa_ndtr <= RING_CAP,
            pb_ndtr <= RING_CAP,
        ensures
            final(self).wf(),
            if overrun(old(self)@, pa_ndtr as int, pb_ndtr as int) {
                &&& n == 0
                &&& final(out)@ == old(out)@
                &&& final(self)@ == resynced(old(self)@, pa_ndtr as int, pb_ndtr as int)
            } else {
                let ready = unread_pairs(old(self)@, pa_ndtr as int, pb_ndtr as int);
                &&& n == if ready <= old(out)@.len() {
                    ready
                } else {
                    old(out)@.len() as int
                }
                &&& final(out)@ == pairs(old(self)@, pa@, pb@, n as nat) + old(out)@.skip(n as int)
                &&& final(self)@ == advanced(old(self)@, n as int)
            },
    {
        if self.overrun_suspected(pa_ndtr, pb_ndtr) {
            self.hard_resync(pa_ndtr, pb_ndtr);
            return 0;
        }
        let pa_avail: usize = unread_of(self.pa_read_idx, pa_ndtr);
        let pb_avail: usize = unread_of(self.pb_read_idx, pb_ndtr);
        let both: usize = if pa_avail <= pb_avail {
            pa_avail
        } else {
            pb_avail
        };
        let n: usize = if both <= out.len() {
            both
        } else {
            out.len()
        };
        let mut pa_i: usize = self.pa_read_idx;
        let mut pb_i: usize = self.pb_read_idx;
        let mut i: usize = 0;
        assert(out@ =~= pairs(self@, pa@, pb@, 0) + old(out)@.skip(0));
        while i < n
            invariant
                i <= n <= out@.len(),
                out@.len() == old(out)@.len(),
                pa@.len() == RING_CAP,
                pb@.len() == RING_CAP,
                *self == *old(self),
                self.wf(),
                pa_i == (self@.pa_read + i) % (RING_CAP as int),
                pb_i == (self@.pb_read + i) % (RING_CAP as int),
                out@ == pairs(self@, pa@, pb@, i as nat) + old(out)@.skip(i as int),
            decreases n - i,
        {
            out[i] = ((pa[pa_i] as u32) | ((pb[pb_i] as u32) << 16)) & SAMPLE_MASK;
            pa_i = (pa_i + 1) % RING_CAP;
            pb_i = (pb_i + 1) % RING_CAP;
            i += 1;
            assert(out@ =~= pairs(self@, pa@, pb@, i as nat) + old(out)@.skip(i as int));
        }
        self.pa_read_idx = pa_i;
        self.pb_read_idx = pb_i;
        n
    }

    /// Gives up all that is unread after an overrun: both rings go on from where
    /// the hardware stands, which has been stopped. How many samples were lost is
    /// not known; a ring's worth is counted.
    pub fn hard_resync(&mut self, pa_ndtr: usize, pb_ndtr: usize)
        requires
            old(self).wf(),
            pa_ndtr <= RING_CAP,
            pb_ndtr <= RING_CAP,
        ensures
            final(self).wf(),
            final(self)@ == resynced(old(self)@, pa_ndtr as int, pb_ndtr as int),
    {
        self.dropped = self.dropped.saturating_add(RING_CAP as u32);
        self.dropped_total = self.dropped_total.saturating_add(RING_CAP as u32);
        self.pa_read_idx = (RING_CAP - pa_ndtr) % RING_CAP;
        self.pb_read_idx = (RING_CAP - pb_ndtr) % RING_CAP;
    }

    /// Takes the count of lost samples; it starts over.
    pub fn take_dropped(&mut self) -> (n: u32)
        requires
            old(self).wf(),
        ensures
            final(self).wf(),
            n == old(self)@.dropped,
            final(self)@ == (Rings { dropped: 0, ..old(self)@ }),
    {
        let n: u32 = self.dropped;
        self.dropped = 0;
        n
    }

    /// Samples lost since the start.
    pub fn peek_dropped_total(&self) -> (n: u32)
        ensures
            n == self@.dropped_total,
    {
        self.dropped_total
    }
}

/// How many samples of a ring are unread.
fn unread_of(read: usize, ndtr: usize) -> (n: usize)
    requires
        read < RING_CAP,
        ndtr <= RING_CAP,
    ensures
        n == unread(read as int, ndtr as int),
        n < RING_CAP,
{
    let write: usize = (RING_CAP - ndtr) % RING_CAP;
    (write + RING_CAP - read) % RING_CAP
}

/// Only the wired bits of either port reach a sample, each in its place.
pub proof fn law_packed_keeps_the_wired_bits(pa: u16, pb: u16)
    ensures
        packed(pa, pb) % 0x1_0000 == (pa & PA_MASK) as u32,
        packed(pa, pb) / 0x1_0000 == (pb & PB_MASK) as u32,
{
    assert((((pa as u32) | ((pb as u32) << 16)) & 0xFFE3_001Eu32) % 0x1_0000 == (pa & 0x001Eu16)
        as u32) by (bit_vector);
    assert((((pa as u32) | ((pb as u32) << 16)) & 0xFFE3_001Eu32) / 0x1_0000 == (pb & 0xFFE3u16)
        as u32) by (bit_vector);
}

/// No sample is the word that ends a BLOCK on the wire.
pub proof fn law_packed_is_no_sentinel(pa: u16, pb: u16)
    ensures
        packed(pa, pb) != frame::BLOCK_SENTINEL,
{
    assert((((pa as u32) | ((pb as u32) << 16)) & 0xFFE3_001Eu32) != 0xffff_ffffu32)
        by (bit_vector);
}

/// Nothing is skipped and nothing comes twice: to read `n` pairs and then `m`
/// more is to read `n + m`.
pub proof fn law_reads_join(r: Rings, pa: Seq<u16>, pb: Seq<u16>, n: nat, m: nat)
    ensures
        pairs(r, pa, pb, n) + pairs(advanced(r, n as int), pa, pb, m) == pairs(r, pa, pb, n + m),
        advanced(advanced(r, n as int), m as int) == advanced(r, (n + m) as int),
{
    let q = advanced(r, n as int);
    assert forall|i: int| 0 <= i < m implies #[trigger] pairs(q, pa, pb, m)[i] == pairs(
        r,
        pa,
        pb,
        n + m,
    )[n + i] by {
        lemma_around(r.pa_read, n as int, i);
        lemma_around(r.pb_read, n as int, i);
    }
    assert(pairs(r, pa, pb, n) + pairs(q, pa, pb, m) =~= pairs(r, pa, pb, n + m));
    lemma_around(r.pa_read, n as int, m as int);
    lemma_around(r.pb_read, n as int, m as int);
}

proof fn lemma_around(a: int, n: int, i: int)
    ensures
        ((a + n) % (RING_CAP as int) + i) % (RING_CAP as int) == (a + (n + i)) % (RING_CAP as int),
{
}

/// Rings in step stay in step, however much is read.
pub proof fn law_rings_stay_in_step(r: Rings, n: int)
    requires
        r.pa_read == r.pb_read,
    ensures
        advanced(r, n).pa_read == advanced(r, n).pb_read,
{
}

/// Whether a ring holds the newest of what one port wrote without end: value `i` lies in
/// slot `i`, counted around the ring.
pub open spec fn holds(ring: Seq<u16>, written: Seq<u16>) -> bool {
    forall|i: int|
        0 <= i < written.len() && written.len() - 4096 <= i ==> #[trigger] written[i] == ring[i
            % 4096]
}

/// How much a transfer has left after so many values, until the ring is full again.
pub open spec fn left_after(written: nat) -> int {
    4096 - written as int % 4096
}

/// A reader that keeps up gets both streams in pairs: with no more than half of either
/// ring unread, a drain goes on behind the last pair that was read, and pair `i` is
/// value `i` of both ports, with only the wired bits. What is there to read is what
/// both ports have.
#[verifier::rlimit(50)]
pub proof fn law_a_reader_that_keeps_up_gets_the_pairs(
    r: Rings,
    pa: Seq<u16>,
    pb: Seq<u16>,
    a: Seq<u16>,
    b: Seq<u16>,
    read: nat,
    n: nat,
    i: int,
)
    requires
        holds(pa, a),
        holds(pb, b),
        r.pa_read == read % 4096,
        r.pb_read == read % 4096,
        0 <= a.len() - read <= 2048,
        0 <= b.len() - read <= 2048,
        read + n <= a.len(),
        read + n <= b.len(),
        0 <= i < n,
    ensures
        !overrun(r, left_after(a.len()), left_after(b.len())),
        unread_pairs(r, left_after(a.len()), left_after(b.len())) == if a.len() <= b.len() {
            a.len() - read
        } else {
            b.len() - read
        },
        pairs(r, pa, pb, n).len() == n,
        pairs(r, pa, pb, n)[i] % 0x1_0000 == (a[read + i] & 0x001E) as u32,
        pairs(r, pa, pb, n)[i] / 0x1_0000 == (b[read + i] & 0xFFE3) as u32,
        advanced(r, n as int).pa_read == (read + n) % 4096,
        advanced(r, n as int).pb_read == (read + n) % 4096,
        advanced(r, n as int).dropped == r.dropped,
{
    let k = read as int + i;
    assert((r.pa_read + i) % 4096 == k % 4096);
    assert(a[k] == pa[k % 4096]);
    assert(b[k] == pb[k % 4096]);
    law_packed_keeps_the_wired_bits(a[k], b[k]);
    lemma_unread(a.len(), read);
    lemma_unread(b.len(), read);
}

proof fn lemma_unread(written: nat, read: nat)
    requires
        0 <= written - read < 4096,
    ensures
        unread(read as int % 4096, left_after(written)) == written - read,
{
}

/// A reader that fell behind gives up what was unread: both rings go on from where the
/// hardware stands, nothing is unread, and a ring's worth counts as lost.
pub proof fn law_a_resync_starts_over(r: Rings, pa_ndtr: int, pb_ndtr: int)
    requires
        0 <= pa_ndtr <= 4096,
        0 <= pb_ndtr <= 4096,
    ensures
        ({
            let s = resynced(r, pa_ndtr, pb_ndtr);
            &&& unread(s.pa_read, pa_ndtr) == 0
            &&& unread(s.pb_read, pb_ndtr) == 0
            &&& pa_ndtr == pb_ndtr ==> s.pa_read == s.pb_read
            &&& r.dropped + 4096 <= u32::MAX ==> s.dropped == r.dropped + 4096
            &&& r.dropped + 4096 > u32::MAX ==> s.dropped == u32::MAX
            &&& r.dropped_total + 4096 <= u32::MAX ==> s.dropped_total == r.dropped_total + 4096
            &&& r.dropped_total + 4096 > u32::MAX ==> s.dropped_total == u32::MAX
        }),
{
}

/// What a call of [`Capture::fast_drain`] hands out to a reader that keeps up: pair `i`
/// is value `i` that either port wrote behind the last pair read, the first port's wired
/// bits in the low half and the second's in the high half. Behind the pairs `out` stays,
/// and the next call goes on there.
#[verifier::rlimit(50)]
pub proof fn law_a_drain_hands_out_the_pairs(
    c: &mut Capture,
    pa: &[u16],
    pb: &[u16],
    pa_ndtr: usize,
    pb_ndtr: usize,
    out: &mut [u32],
    n: usize,
    a: Seq<u16>,
    b: Seq<u16>,
    read: nat,
    i: int,
)
    requires
        old(c).wf(),
        pa@.len() == 4096,
        pb@.len() == 4096,
        holds(pa@, a),
        holds(pb@, b),
        old(c)@.pa_read == read % 4096,
        old(c)@.pb_read == read % 4096,
        0 <= a.len() - read <= 2048,
        0 <= b.len() - read <= 2048,
        pa_ndtr == left_after(a.len()),
        pb_ndtr == left_after(b.len()),
        call_ensures(Capture::fast_drain, (c, pa, pb, pa_ndtr, pb_ndtr, out), n),
    ensures
        n <= a.len() - read && n <= b.len() - read && n <= old(out)@.len(),
        n == a.len() - read || n == b.len() - read || n == old(out)@.len(),
        0 <= i < n ==> {
            &&& final(out)@[i] % 0x1_0000 == (a[read + i] & 0x001E) as u32
            &&& final(out)@[i] / 0x1_0000 == (b[read + i] & 0xFFE3) as u32
        },
        n <= i < old(out)@.len() ==> final(out)@[i] == old(out)@[i],
        final(c)@.pa_read == (read + n) % 4096,
        final(c)@.pb_read == (read + n) % 4096,
        final(c)@.dropped == old(c)@.dropped,
{
    let r = old(c)@;
    lemma_unread(a.len(), read);
    lemma_unread(b.len(), read);
    assert((r.pa_read + n) % 4096 == (read + n) % 4096);
    if 0 <= i < n {
        law_a_reader_that_keeps_up_gets_the_pairs(r, pa@, pb@, a, b, read, n as nat, i);
    }
    assert(pairs(r, pa@, pb@, n as nat).len() == n);
}

/// What a call of [`Capture::drain`] takes of two reads: no more than either has, and all
/// of the shorter; nothing can be taken where a ring overran.
pub proof fn law_a_drain_takes_the_shorter_read(
    c: Capture,
    pa_read: Option<usize>,
    pb_read: Option<usize>,
    n: Option<usize>,
)
    requires
        call_ensures(Capture::drain, (&c, pa_read, pb_read), n),
    ensures
        n is None <==> pa_read is None || pb_read is None,
        n matches Some(k) ==> k <= pa_read->0 && k <= pb_read->0 && (k == pa_read->0 || k
            == pb_read->0),
{
}

/// What calls of [`Capture::hard_resync`] and [`Capture::take_dropped`] do: a ring's worth
/// is lost, which is told once; the count since the start keeps it.
pub proof fn law_a_resync_is_told_once(
    c: &mut Capture,
    pa_ndtr: usize,
    pb_ndtr: usize,
    d: &mut Capture,
    first: u32,
    e: &mut Capture,
    second: u32,
    total: u32,
)
    requires
        old(c).wf(),
        pa_ndtr <= 4096,
        pb_ndtr <= 4096,
        old(c)@.dropped + 4096 <= u32::MAX,
        old(c)@.dropped_total + 4096 <= u32::MAX,
        call_ensures(Capture::hard_resync, (c, pa_ndtr, pb_ndtr), ()),
        *old(d) == *final(c),
        call_ensures(Capture::take_dropped, (d,), first),
        *old(e) == *final(d),
        call_ensures(Capture::take_dropped, (e,), second),
        call_ensures(Capture::peek_dropped_total, (&*final(e),), total),
    ensures
        first == old(c)@.dropped + 4096,
        second == 0,
        total == old(c)@.dropped_total + 4096,
        unread(final(c)@.pa_read, pa_ndtr as int) == 0,
        unread(final(c)@.pb_read, pb_ndtr as int) == 0,
{
    law_a_resync_starts_over(old(c)@, pa_ndtr as int, pb_ndtr as int);
}

/// What a call of [`Capture::fast_drain`] does for a reader that fell behind, with more
/// than half of a ring unread: nothing is handed out, and a ring's worth counts as lost.
pub proof fn law_a_drain_gives_up_after_an_overrun(
    c: &mut Capture,
    pa: &[u16],
    pb: &[u16],
    pa_ndtr: usize,
    pb_ndtr: usize,
    out: &mut [u32],
    n: usize,
    written: nat,
    read: nat,
)
    requires
        old(c).wf(),
        pa@.len() == 4096,
        pb@.len() == 4096,
        pb_ndtr <= 4096,
        old(c)@.pa_read == read % 4096,
        2048 < written - read < 4096,
        pa_ndtr == left_after(written),
        old(c)@.dropped + 4096 <= u32::MAX,
        call_ensures(Capture::fast_drain, (c, pa, pb, pa_ndtr, pb_ndtr, out), n),
    ensures
        n == 0,
        final(out)@ == old(out)@,
        final(c)@.dropped == old(c)@.dropped + 4096,
        final(c)@.pa_read == written % 4096,
{
    lemma_unread(written, read);
}

} // verus!
