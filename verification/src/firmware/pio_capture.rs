//! The capture ring: hardware writes samples into a ring buffer without end, and
//! the program follows it.

use vstd::arithmetic::power2::{lemma2_to64, lemma_pow2_strictly_increases, pow2};
use vstd::prelude::*;

verus! {

/// One sample as the hardware delivers it.
pub type Sample = u32;

/// Why a buffer cannot be a capture ring.
#[derive(Debug, Clone, Copy, PartialEq, Eq, Structural)]
pub enum RingError {
    /// Its length is not a power of two.
    Length,
    /// It is not aligned to its size in bytes.
    Alignment,
    /// It is larger than the hardware can wrap.
    Size,
}

/// Whether `n` is a power of two.
pub open spec fn power_of_two(n: nat) -> bool {
    exists|k: nat| n == #[trigger] pow2(k)
}

/// How far a reader has followed the ring.
pub struct RingCapture {
    /// Samples in the ring: a power of two.
    len: u32,
    /// The sample that is read next.
    read_pos: u32,
    /// Samples that are known to be lost.
    dropped_samples: u32,
}

/// What a reader knows.
pub struct Following {
    pub len: nat,
    pub read_pos: nat,
    pub dropped: nat,
}

/// Samples to be read: so many, from here on around the ring.
#[derive(Debug, Clone, Copy)]
pub struct Batch {
    pub start: u32,
    pub count: u32,
}

/// How far the writer is ahead of a position.
pub open spec fn ahead(len: nat, read_pos: nat, write_pos: nat) -> nat {
    if write_pos >= read_pos {
        (write_pos - read_pos) as nat
    } else {
        (write_pos + len - read_pos) as nat
    }
}

/// The position after `pos`, `n` further around the ring.
pub open spec fn further(len: nat, pos: nat, n: nat) -> nat {
    (pos + n) % len
}

/// The `n` samples from a position on, around the ring.
pub open spec fn around(ring: Seq<Sample>, pos: nat, n: nat) -> Seq<Sample> {
    Seq::new(n, |i: int| ring[further(ring.len(), pos, i as nat) as int])
}

/// Whether the ring is so full that the writer may have lapped the reader: seven
/// eighths or more.
pub open spec fn lapped(len: nat, fill: nat) -> bool {
    fill >= len / 8 * 7
}

/// The position where reading goes on: behind a writer that may have lapped the
/// reader, the oldest sample that is still valid.
pub open spec fn resumed(f: Following, write_pos: nat) -> nat {
    if lapped(f.len, ahead(f.len, f.read_pos, write_pos)) {
        further(f.len, write_pos, 1)
    } else {
        f.read_pos
    }
}

/// The lost samples after a drain; the count stays at the largest `u32`.
pub open spec fn dropped_after(f: Following, write_pos: nat) -> nat {
    let fill = ahead(f.len, f.read_pos, write_pos);
    if lapped(f.len, fill) {
        if f.dropped + fill > u32::MAX {
            u32::MAX as nat
        } else {
            f.dropped + fill
        }
    } else {
        f.dropped
    }
}

/// The exponent of a power of two.
fn exponent(n: u64) -> (k: Option<u32>)
    ensures
        match k {
            Some(k) => k < 64 && n == pow2(k as nat),
            None => !power_of_two(n as nat),
        },
{
    let mut k: u32 = 0;
    let mut p: u64 = 1;
    proof {
        lemma2_to64();
    }
    while k < 63
        invariant
            k <= 63,
            p == pow2(k as nat),
            forall|j: nat| j < k ==> n != #[trigger] pow2(j),
        decreases 63 - k,
    {
        if p == n {
            return Some(k);
        }
        proof {
            lemma2_to64();
            vstd::arithmetic::power2::lemma_pow2_unfold((k + 1) as nat);
            if k + 1 < 63 {
                lemma_pow2_strictly_increases((k + 1) as nat, 63);
            }
            vstd::arithmetic::power2::lemma_pow2_unfold(64);
            assert(pow2(63) == 0x8000_0000_0000_0000);
        }
        p = p * 2;
        k += 1;
    }
    if p == n {
        return Some(63);
    }
    proof {
        if power_of_two(n as nat) {
            let j = choose|j: nat| n == #[trigger] pow2(j);
            if j > 63 {
                lemma2_to64();
                if j > 64 {
                    lemma_pow2_strictly_increases(64, j);
                }
                assert(pow2(64) == 0x1_0000_0000_0000_0000);
            }
        }
    }
    None
}

impl View for RingCapture {
    type V = Following;

    closed spec fn view(&self) -> Following {
        Following {
            len: self.len as nat,
            read_pos: self.read_pos as nat,
            dropped: self.dropped_samples as nat,
        }
    }
}

impl RingCapture {
    /// The position is in the ring, whose size in bytes fits 31 bits.
    pub closed spec fn wf(&self) -> bool {
        &&& 0 < self.len <= 0x2000_0000
        &&& self.read_pos < self.len
    }

    /// A reader of a ring of `len` samples, four bytes each, at an address.
    pub fn new(len: usize, base_addr: usize) -> (result: Result<Self, RingError>)
        ensures
            match result {
                Ok(c) => {
                    &&& power_of_two(len as nat)
                    &&& base_addr as int % (len * 4) == 0
                    &&& len * 4 <= 0x8000_0000
                    &&& c.wf()
                    &&& c@ == (Following { len: len as nat, read_pos: 0, dropped: 0 })
                },
                Err(RingError::Length) => !power_of_two(len as nat),
                Err(RingError::Alignment) => power_of_two(len as nat) && base_addr as int % (len
                    * 4) != 0,
                Err(RingError::Size) => power_of_two(len as nat) && base_addr as int % (len * 4)
                    == 0 && len * 4 > 0x8000_0000,
            },
    {
        match exponent(len as u64) {
            None => Err(RingError::Length),
            Some(k) => {
                proof {
                    lemma2_to64();
                    if k == 0 {
                    } else {
                        lemma_pow2_strictly_increases(0, k as nat);
                    }
                }
                if (base_addr as u128) % (len as u128 * 4) != 0 {
                    Err(RingError::Alignment)
                } else if len > 0x2000_0000 {
                    Err(RingError::Size)
                } else {
                    Ok(RingCapture { len: len as u32, read_pos: 0, dropped_samples: 0 })
                }
            },
        }
    }

    /// The writer's position, from the address it writes to next.
    pub fn write_pos(&self, write_addr: u32, base_addr: u32) -> (pos: u32)
        requires
            self.wf(),
        ensures
            pos < self@.len,
            base_addr <= write_addr ==> pos == ((write_addr - base_addr) / 4) % (self@.len as int),
            base_addr > write_addr ==> pos == ((write_addr - base_addr + 0x1_0000_0000) / 4) % (
            self@.len as int),
    {
        let byte_off: u32 = write_addr.wrapping_sub(base_addr);
        (byte_off / 4) % self.len
    }

    /// How many samples are there to read.
    pub fn available(&self, write_pos: u32) -> (n: u32)
        requires
            self.wf(),
            write_pos < self@.len,
        ensures
            n == ahead(self@.len, self@.read_pos, write_pos as nat),
            n < self@.len,
    {
        if write_pos >= self.read_pos {
            write_pos - self.read_pos
        } else {
            write_pos + self.len - self.read_pos
        }
    }

    /// Which samples to read, at most `room`. A ring that is nearly full counts as
    /// lapped: what was unread is lost, and reading goes on behind the writer.
    pub fn plan_drain(&mut self, write_pos: u32, room: u32) -> (batch: Batch)
        requires
            old(self).wf(),
            write_pos < old(self)@.len,
        ensures
            final(self).wf(),
            ({
                let f = old(self)@;
                let from = resumed(f, write_pos as nat);
                let avail = ahead(f.len, from, write_pos as nat);
                &&& batch.start == from
                &&& batch.count == if avail < room {
                    avail
                } else {
                    room as nat
                }
                &&& final(self)@ == (Following {
                    len: f.len,
                    read_pos: further(f.len, from, batch.count as nat),
                    dropped: dropped_after(f, write_pos as nat),
                })
            }),
    {
        let fill: u32 = self.available(write_pos);
        if fill >= self.len / 8 * 7 {
            self.dropped_samples = self.dropped_samples.saturating_add(fill);
            self.read_pos = (write_pos + 1) % self.len;
        }
        let avail: u32 = self.available(write_pos);
        let count: u32 = if avail < room {
            avail
        } else {
            room
        };
        let start: u32 = self.read_pos;
        self.read_pos = (start + count) % self.len;
        Batch { start, count }
    }

    /// Where sample `i` of a batch lies.
    pub fn slot(&self, batch: Batch, i: u32) -> (pos: u32)
        requires
            self.wf(),
            batch.start < self@.len,
            i < batch.count <= self@.len,
        ensures
            pos == further(self@.len, batch.start as nat, i as nat),
            pos < self@.len,
    {
        (batch.start + i) % self.len
    }

    /// Reads samples off the ring into the front of `out`: all there are, or as many
    /// as fit. Returns how many.
    pub fn drain(&mut self, ring: &[Sample], write_pos: u32, out: &mut [Sample]) -> (n: usize)
        requires
            old(self).wf(),
            write_pos < old(self)@.len,
            ring@.len() == old(self)@.len,
        ensures
            final(self).wf(),
            ({
                let f = old(self)@;
                let from = resumed(f, write_pos as nat);
                let avail = ahead(f.len, from, write_pos as nat);
                &&& n == if avail < old(out)@.len() {
                    avail
                } else {
                    old(out)@.len()
                }
                &&& final(out)@ == around(ring@, from, n as nat) + old(out)@.skip(n as int)
                &&& final(self)@ == (Following {
                    len: f.len,
                    read_pos: further(f.len, from, n as nat),
                    dropped: dropped_after(f, write_pos as nat),
                })
            }),
    {
        let room: u32 = if out.len() < self.len as usize {
            out.len() as u32
        } else {
            self.len
        };
        let batch = self.plan_drain(write_pos, room);
        let ghost from = batch.start as nat;
        let mut i: u32 = 0;
        assert(out@ =~= around(ring@, from, 0) + old(out)@.skip(0));
        while i < batch.count
            invariant
                i <= batch.count <= out@.len(),
                batch.count <= self@.len,
                batch.start < self@.len,
                batch.start == from,
                self.wf(),
                ring@.len() == self@.len,
                out@.len() == old(out)@.len(),
                out@ == around(ring@, from, i as nat) + old(out)@.skip(i as int),
            decreases batch.count - i,
        {
            out[i as usize] = ring[self.slot(batch, i) as usize];
            i += 1;
            assert(out@ =~= around(ring@, from, i as nat) + old(out)@.skip(i as int));
        }
        batch.count as usize
    }

    /// How many samples were lost since this was last asked; the count starts over.
    pub fn take_dropped(&mut self) -> (n: u32)
        requires
            old(self).wf(),
        ensures
            final(self).wf(),
            n == old(self)@.dropped,
            final(self)@ == (Following { dropped: 0, ..old(self)@ }),
    {
        let n: u32 = self.dropped_samples;
        self.dropped_samples = 0;
        n
    }

    /// How many samples were lost, the count left as it is.
    pub fn peek_dropped(&self) -> (n: u32)
        requires
            self.wf(),
        ensures
            n == self@.dropped,
    {
        self.dropped_samples
    }
}

/// A reader that keeps up sees every sample once: a batch starts where the last
/// one ended, nothing counts as lost, and what is left to read is what the batch
/// left.
pub proof fn law_nothing_is_skipped(f: Following, write_pos: nat, count: nat)
    requires
        0 < f.len,
        f.read_pos < f.len,
        write_pos < f.len,
        !lapped(f.len, ahead(f.len, f.read_pos, write_pos)),
        count <= ahead(f.len, f.read_pos, write_pos),
    ensures
        resumed(f, write_pos) == f.read_pos,
        dropped_after(f, write_pos) == f.dropped,
        ahead(f.len, further(f.len, f.read_pos, count), write_pos) == ahead(
            f.len,
            f.read_pos,
            write_pos,
        ) - count,
{
    let p = f.read_pos + count;
    if p >= f.len {
        assert(p % f.len == p - f.len) by (nonlinear_arith)
            requires
                f.len <= p < 2 * f.len,
        ;
    } else {
        assert(p % f.len == p) by (nonlinear_arith)
            requires
                0 <= p < f.len,
        ;
    }
}

/// Whether a ring holds the newest samples of what was written without end: sample
/// `i` of the stream lies in slot `i`, counted around the ring.
pub open spec fn holds(ring: Seq<Sample>, written: Seq<Sample>) -> bool {
    forall|i: int|
        0 <= i < written.len() && written.len() - ring.len() <= i ==> #[trigger] written[i]
            == ring[i % (ring.len() as int)]
}

proof fn lemma_around_the_ring(len: nat, a: nat, d: nat)
    requires
        len > 0,
    ensures
        further(len, (a % len) as nat, d) == (a + d) % len,
        d < len ==> ahead(len, (a % len) as nat, ((a + d) % len) as nat) == d,
{
    vstd::arithmetic::div_mod::lemma_add_mod_noop(a as int, d as int, len as int);
    vstd::arithmetic::div_mod::lemma_mod_twice(a as int, len as int);
    vstd::arithmetic::div_mod::lemma_add_mod_noop((a % len) as int, d as int, len as int);
    let r = (a % len) as int;
    assert((r + d) % (len as int) == (a as int + d as int) % (len as int));
    if d < len {
        if r + d < len {
            vstd::arithmetic::div_mod::lemma_small_mod((r + d) as nat, len);
        } else {
            vstd::arithmetic::div_mod::lemma_mod_sub_multiples_vanish(r + d, len as int);
            vstd::arithmetic::div_mod::lemma_small_mod((r + d - len) as nat, len);
        }
    }
}

/// A reader that keeps up gets the stream: with fewer than seven eighths of the ring
/// unread, a drain goes on with the sample after the last one that was read, and
/// hands out the stream from there, in order. What is there to read is what was
/// written since, and nothing counts as lost.
pub proof fn law_a_reader_that_keeps_up_gets_the_stream(
    f: Following,
    ring: Seq<Sample>,
    written: Seq<Sample>,
    read: nat,
    n: nat,
)
    requires
        f.len == ring.len(),
        f.len > 0,
        holds(ring, written),
        read + n <= written.len(),
        8 * (written.len() - read) < 7 * (f.len / 8 * 8),
        f.read_pos == read % f.len,
    ensures
        ({
            let at = (written.len() % f.len) as nat;
            &&& resumed(f, at) == f.read_pos
            &&& ahead(f.len, f.read_pos, at) == written.len() - read
            &&& around(ring, f.read_pos, n) == written.subrange(read as int, (read + n) as int)
            &&& further(f.len, f.read_pos, n) == (read + n) % f.len
            &&& dropped_after(f, at) == f.dropped
        }),
{
    let d = (written.len() - read) as nat;
    lemma_around_the_ring(f.len, read, d);
    lemma_around_the_ring(f.len, read, n);
    lemma_stream_part(ring, written, read, n);
}

proof fn lemma_stream_part(ring: Seq<Sample>, written: Seq<Sample>, from: nat, n: nat)
    requires
        ring.len() > 0,
        holds(ring, written),
        from + n <= written.len(),
        written.len() - from <= ring.len(),
    ensures
        around(ring, (from % ring.len()) as nat, n) == written.subrange(
            from as int,
            (from + n) as int,
        ),
{
    let got = around(ring, (from % ring.len()) as nat, n);
    let want = written.subrange(from as int, (from + n) as int);
    assert forall|i: int| 0 <= i < n implies got[i] == want[i] by {
        lemma_around_the_ring(ring.len(), from, i as nat);
        assert(written[from + i] == ring[(from + i) % (ring.len() as int)]);
    }
    assert(got =~= want);
}

/// A reader that falls behind loses what was unread, which is counted, and goes on with
/// the oldest sample that the ring still holds.
pub proof fn law_a_reader_that_falls_behind_goes_on(
    f: Following,
    ring: Seq<Sample>,
    written: Seq<Sample>,
    read: nat,
    n: nat,
)
    requires
        f.len == ring.len(),
        f.len > 1,
        holds(ring, written),
        read <= written.len(),
        8 * (written.len() - read) >= 7 * (f.len / 8 * 8),
        written.len() - read < f.len,
        f.read_pos == read % f.len,
        written.len() >= f.len - 1,
        n < f.len,
        f.dropped + (written.len() - read) <= u32::MAX,
    ensures
        ({
            let at = (written.len() % f.len) as nat;
            let oldest = written.len() - (f.len - 1);
            &&& ahead(f.len, resumed(f, at), at) == f.len - 1
            &&& around(ring, resumed(f, at), n) == written.subrange(oldest, oldest + n)
            &&& dropped_after(f, at) == f.dropped + (written.len() - read)
        }),
{
    let d = (written.len() - read) as nat;
    let oldest = (written.len() - (f.len - 1)) as nat;
    lemma_around_the_ring(f.len, read, d);
    lemma_around_the_ring(f.len, written.len(), 1);
    lemma_around_the_ring(f.len, oldest, (f.len - 1) as nat);
    assert((written.len() + 1) % f.len == oldest % f.len) by {
        vstd::arithmetic::div_mod::lemma_mod_add_multiples_vanish(
            oldest as int,
            f.len as int,
        );
    }
    lemma_stream_part(ring, written, oldest, n);
}

/// What a call of [`RingCapture::drain`] hands out to a reader that keeps up: the samples
/// that the hardware wrote behind the last one read, in order, as many as there are or
/// fit. Behind them `out` stays, nothing counts as lost, and the next call goes on there.
pub proof fn law_a_drain_hands_out_the_stream(
    c: &mut RingCapture,
    ring: &[Sample],
    write_pos: u32,
    out: &mut [Sample],
    n: usize,
    written: Seq<Sample>,
    read: nat,
)
    requires
        old(c).wf(),
        ring@.len() == old(c)@.len,
        old(c)@.len > 0,
        holds(ring@, written),
        read <= written.len(),
        8 * (written.len() - read) < 7 * (old(c)@.len / 8 * 8),
        old(c)@.read_pos == read % old(c)@.len,
        write_pos == written.len() % old(c)@.len,
        write_pos < old(c)@.len,
        call_ensures(RingCapture::drain, (c, ring, write_pos, out), n),
    ensures
        n == written.len() - read || n == old(out)@.len() && n < written.len() - read,
        final(out)@.take(n as int) == written.subrange(read as int, read + n),
        final(out)@.skip(n as int) == old(out)@.skip(n as int),
        final(c)@.read_pos == (read + n) % (old(c)@.len as int),
        final(c)@.dropped == old(c)@.dropped,
        final(c)@.len == old(c)@.len,
{
    let f = old(c)@;
    law_a_reader_that_keeps_up_gets_the_stream(f, ring@, written, read, 0);
    law_a_reader_that_keeps_up_gets_the_stream(f, ring@, written, read, n as nat);
    let got = around(ring@, f.read_pos, n as nat);
    assert(final(out)@ == got + old(out)@.skip(n as int));
    assert(final(out)@.take(n as int) =~= got);
    assert(final(out)@.skip(n as int) =~= old(out)@.skip(n as int));
}

/// What calls of [`RingCapture::take_dropped`] give: the count, once.
pub proof fn law_lost_samples_are_told_once(
    c: &mut RingCapture,
    n: u32,
    d: &mut RingCapture,
    again: u32,
)
    requires
        old(c).wf(),
        call_ensures(RingCapture::take_dropped, (c,), n),
        *old(d) == *final(c),
        call_ensures(RingCapture::take_dropped, (d,), again),
    ensures
        n == old(c)@.dropped,
        again == 0,
        final(d)@.read_pos == old(c)@.read_pos,
{
}

/// What a call of [`RingCapture::write_pos`] gives: where in the ring the writer stands
/// that is so many samples behind the ring's start, also once it has gone round.
pub proof fn law_the_writers_place_is_counted_in_samples(
    c: RingCapture,
    base_addr: u32,
    k: u32,
    pos: u32,
)
    requires
        c.wf(),
        k < c@.len,
        base_addr + 4 * k <= u32::MAX,
        call_ensures(RingCapture::write_pos, (&c, (base_addr + 4 * k) as u32, base_addr), pos),
    ensures
        pos == k,
{
    assert((4 * k) / 4 == k);
    vstd::arithmetic::div_mod::lemma_small_mod(k as nat, c@.len);
}

/// What a call of [`RingCapture::new`] gives: a reader at the start of the ring, if and only
/// if the ring's length is a power of two, the ring is aligned to its size, and the size
/// fits the hardware; else the first of these that fails.
pub proof fn law_a_ring_is_checked(
    len: usize,
    base_addr: usize,
    result: Result<RingCapture, RingError>,
    k: nat,
)
    requires
        len == pow2(k),
        call_ensures(RingCapture::new, (len, base_addr), result),
    ensures
        result matches Ok(c) ==> c@.len == len && c@.read_pos == 0 && c@.dropped == 0,
        result is Ok <==> base_addr as int % (4 * len) == 0 && 4 * len <= 0x8000_0000,
        result == Err::<RingCapture, RingError>(RingError::Alignment) <==> base_addr as int % (4
            * len) != 0,
        result != Err::<RingCapture, RingError>(RingError::Length),
{
    assert(power_of_two(len as nat));
}

} // verus!
