//! Transmit ring of the USART.
//!
//! Bytes to send wait in a circular buffer. A one-shot transfer reads a
//! contiguous span of it and stops at the span's end, so the line is silent when
//! there is nothing to send. The hardware reports how much of the transfer is
//! left and whether it is over; whoever drives it hands both in.

use vstd::prelude::*;

verus! {

/// Size of the transmit ring.
pub const TX_RING: usize = 2048;

/// What a transmit ring has gone through.
pub struct Line {
    /// Bytes of transfers that are over.
    pub sent: Seq<u8>,
    /// Bytes after those, in order; the transfer in flight reads the first of them.
    pub queue: Seq<u8>,
    /// Length of the transfer in flight; 0 where there is none.
    pub inflight: nat,
    /// How far that transfer is known to have come.
    pub drained: nat,
    /// Where in the ring the queue starts.
    pub start: nat,
}

/// All bytes that were pushed, in order.
pub open spec fn accepted(l: Line) -> Seq<u8> {
    l.sent + l.queue
}

/// Slots that are free once the transfer in flight has `remaining` bytes to go.
/// One slot always stays free: a full ring would look empty.
pub open spec fn room(l: Line, remaining: int) -> int {
    TX_RING - 1 - (l.queue.len() - (l.inflight - remaining))
}

/// What the transfer counter can read: it counts down from the length of the
/// transfer.
pub open spec fn plausible(l: Line, remaining: int) -> bool {
    0 <= remaining && remaining + l.drained <= l.inflight
}

/// The line once the transfer in flight is over.
pub open spec fn landed(l: Line) -> Line {
    Line {
        sent: l.sent + l.queue.take(l.inflight as int),
        queue: l.queue.skip(l.inflight as int),
        inflight: 0,
        drained: 0,
        start: (l.start + l.inflight) % (TX_RING as nat),
    }
}

/// How many bytes the next transfer can take: up to the end of the queue, or of
/// the ring. What wraps goes with the transfer after.
pub open spec fn span_len(l: Line) -> nat {
    if l.queue.len() <= TX_RING - l.start {
        l.queue.len()
    } else {
        (TX_RING - l.start) as nat
    }
}

pub struct UartRing {
    buf: Vec<u8>,
    head: usize,
    tail: usize,
    inflight: usize,
    line: Ghost<(Seq<u8>, Seq<u8>, nat)>,
}

impl View for UartRing {
    type V = Line;

    closed spec fn view(&self) -> Line {
        Line {
            sent: self.line@.0,
            queue: self.line@.1,
            inflight: self.inflight as nat,
            drained: self.line@.2,
            start: self.head as nat,
        }
    }
}

impl UartRing {
    /// What the ring holds.
    pub closed spec fn slots(&self) -> Seq<u8> {
        self.buf@
    }

    /// What the transfer in flight has yet to read.
    pub open spec fn unread(&self, remaining: int) -> Seq<u8> {
        let end = self@.start as int + self@.inflight;
        self.slots().subrange(end - remaining, end)
    }

    pub closed spec fn wf(&self) -> bool {
        let l = self@;
        &&& self.buf@.len() == TX_RING
        &&& self.head < TX_RING
        &&& self.tail < TX_RING
        &&& l.drained <= l.inflight <= l.queue.len()
        &&& self.head + self.inflight <= TX_RING
        &&& l.queue.len() - l.drained < TX_RING
        &&& self.tail == (self.head + l.queue.len()) % (TX_RING as int)
        &&& forall|i: int|
            l.drained <= i < l.queue.len() ==> #[trigger] l.queue[i] == self.buf@[(self.head + i) % (
            TX_RING as int)]
    }

    /// A ring with nothing in it.
    pub fn new() -> (ring: Self)
        ensures
            ring.wf(),
            ring@ == (Line {
                sent: Seq::empty(),
                queue: Seq::empty(),
                inflight: 0,
                drained: 0,
                start: 0,
            }),
    {
        let mut buf: Vec<u8> = Vec::new();
        buf.resize(TX_RING, 0);
        UartRing {
            buf,
            head: 0,
            tail: 0,
            inflight: 0,
            line: Ghost((Seq::empty(), Seq::empty(), 0)),
        }
    }

    /// Finalises the transfer in flight if `complete` says that it is over, and
    /// starts the next one. Returns where in the ring the new transfer starts and
    /// how long it is; `None` where a transfer is still running, or nothing waits.
    #[verifier::rlimit(50)]
    pub fn kick(&mut self, complete: bool) -> (armed: Option<(usize, usize)>)
        requires
            old(self).wf(),
        ensures
            final(self).wf(),
            final(self).slots() == old(self).slots(),
            ({
                let l = old(self)@;
                if l.inflight > 0 && !complete {
                    armed is None && final(self)@ == l
                } else {
                    let idle = landed(l);
                    match armed {
                        None => idle.queue.len() == 0 && final(self)@ == idle,
                        Some((start, len)) => {
                            &&& idle.queue.len() > 0
                            &&& start == idle.start
                            &&& len == span_len(idle)
                            &&& 0 < len
                            &&& start + len <= TX_RING
                            &&& final(self)@ == (Line { inflight: len as nat, ..idle })
                            &&& final(self).slots().subrange(start as int, start + len)
                                == idle.queue.take(len as int)
                        },
                    }
                }
            }),
    {
        if self.inflight > 0 && !complete {
            return None;
        }
        let ghost l = self@;
        let ghost idle = landed(l);
        self.head = (self.head + self.inflight) % TX_RING;
        self.inflight = 0;
        self.line = Ghost((idle.sent, idle.queue, 0));
        assert(self@ == idle);
        assert forall|i: int| 0 <= i < idle.queue.len() implies #[trigger] idle.queue[i]
            == self.buf@[(self.head + i) % (TX_RING as int)] by {
            assert(idle.queue[i] == l.queue[l.inflight + i]);
            lemma_slot(l.start as int, l.inflight as int, i);
        }
        if self.head == self.tail {
            return None;
        }
        let end: usize = if self.tail > self.head {
            self.tail
        } else {
            TX_RING
        };
        let len: usize = end - self.head;
        self.inflight = len;
        proof {
            let start = self.head as int;
            assert forall|j: int| 0 <= j < len implies self.buf@.subrange(start, start + len)[j]
                == idle.queue.take(len as int)[j] by {
                assert(idle.queue[j] == self.buf@[(start + j) % (TX_RING as int)]);
            }
            assert(self.buf@.subrange(start, start + len) =~= idle.queue.take(len as int));
        }
        Some((self.head, len))
    }

    /// What the ring holds; a transfer reads it in place.
    pub fn bytes(&self) -> (b: &[u8])
        ensures
            b@ == self.slots(),
    {
        self.buf.as_slice()
    }

    /// Length of the transfer in flight; 0 where there is none.
    pub fn in_flight(&self) -> (n: usize)
        ensures
            n == self@.inflight,
    {
        self.inflight
    }

    /// Slots that are free, given how much of the transfer in flight is left.
    pub fn free(&self, remaining: usize) -> (n: usize)
        requires
            self.wf(),
            plausible(self@, remaining as int),
        ensures
            n == room(self@, remaining as int),
    {
        let live_head: usize = (self.head + (self.inflight - remaining)) % TX_RING;
        (live_head + TX_RING - self.tail - 1) % TX_RING
    }

    /// Puts a byte into the ring if there is a free slot. Bytes that the transfer
    /// in flight has yet to read are not touched.
    #[verifier::rlimit(50)]
    pub fn try_push(&mut self, b: u8, remaining: usize) -> (accepted: bool)
        requires
            old(self).wf(),
            plausible(old(self)@, remaining as int),
        ensures
            final(self).wf(),
            accepted == (room(old(self)@, remaining as int) > 0),
            final(self)@ == if accepted {
                Line {
                    queue: old(self)@.queue.push(b),
                    drained: (old(self)@.inflight - remaining) as nat,
                    ..old(self)@
                }
            } else {
                old(self)@
            },
            final(self).unread(remaining as int) == old(self).unread(remaining as int),
    {
        if self.free(remaining) == 0 {
            return false;
        }
        let ghost l = self@;
        let ghost q = l.queue.push(b);
        let ghost slot = self.tail as int;
        self.buf.set(self.tail, b);
        self.tail = (self.tail + 1) % TX_RING;
        self.line = Ghost((l.sent, q, (l.inflight - remaining) as nat));
        proof {
            assert forall|i: int| l.inflight - remaining <= i < q.len() implies #[trigger] q[i]
                == self.buf@[(self.head + i) % (TX_RING as int)] by {
                if i < l.queue.len() {
                    assert(q[i] == l.queue[i]);
                    assert((self.head + i) % (TX_RING as int) != slot);
                }
            }
            let end = self.head + self.inflight;
            assert forall|j: int| end - remaining <= j < end implies self.buf@[j]
                == old(self).buf@[j] by {
                assert((self.head + (j - self.head)) % (TX_RING as int) == j);
                assert(q[j - self.head] == l.queue[j - self.head]);
            }
            assert(self.unread(remaining as int) =~= old(self).unread(remaining as int));
        }
        true
    }
}

proof fn lemma_slot(start: int, n: int, i: int)
    ensures
        ((start + n) % (TX_RING as int) + i) % (TX_RING as int) == (start + (n + i)) % (
        TX_RING as int),
{
}

/// Every byte that was pushed leaves once and in order: the bytes of transfers
/// that are over and the bytes that wait are together the bytes pushed, and a
/// transfer that ends moves its bytes from the one to the other.
pub proof fn law_bytes_leave_in_order(l: Line, b: u8)
    requires
        l.inflight <= l.queue.len(),
    ensures
        accepted(landed(l)) == accepted(l),
        accepted(Line { queue: l.queue.push(b), ..l }) == accepted(l).push(b),
        l.sent.is_prefix_of(landed(l).sent),
        landed(l).sent.is_prefix_of(accepted(l)),
{
    assert(accepted(landed(l)) =~= accepted(l));
    assert(accepted(Line { queue: l.queue.push(b), ..l }) =~= accepted(l).push(b));
    assert(l.sent =~= landed(l).sent.take(l.sent.len() as int));
    assert(landed(l).sent =~= accepted(l).take(landed(l).sent.len() as int));
}

/// A full ring is never stuck: with no transfer in flight there is something to
/// transfer, and once that transfer is over there is room.
pub proof fn law_a_full_ring_drains(l: Line)
    requires
        l.inflight == 0,
        l.start < TX_RING,
        l.queue.len() < TX_RING,
        room(l, 0) == 0,
    ensures
        span_len(l) > 0,
        room(landed(Line { inflight: span_len(l), ..l }), 0) > 0,
{
}

/// A transfer that is over took as many bytes as it was long, the oldest ones; the next
/// starts behind it.
pub proof fn law_a_transfer_takes_the_oldest_bytes(l: Line, i: int)
    requires
        l.inflight <= l.queue.len(),
        0 <= i < l.inflight,
    ensures
        landed(l).sent.len() == l.sent.len() + l.inflight,
        landed(l).sent[l.sent.len() + i] == l.queue[i],
        landed(l).queue.len() + l.inflight == l.queue.len(),
        landed(l).inflight == 0,
        l.start + l.inflight < 2048 ==> landed(l).start == l.start + l.inflight,
        l.start + l.inflight == 2048 ==> landed(l).start == 0,
{
}

/// One slot of the 2048 stays free: an empty ring has room for 2047 bytes, every byte
/// that is pushed takes one, and every byte that the transfer has read gives one back.
pub proof fn law_room_is_counted_by_bytes(l: Line, b: u8, remaining: int)
    ensures
        l.queue.len() == 0 && l.inflight == 0 ==> room(l, 0) == 2047,
        room(Line { queue: l.queue.push(b), ..l }, remaining) == room(l, remaining) - 1,
        room(l, remaining - 1) == room(l, remaining) + 1,
        room(l, l.inflight as int) + l.queue.len() == 2047,
{
}

/// A transfer takes all that waits, or up to the end of the ring; it never wraps.
pub proof fn law_a_transfer_goes_to_the_end(l: Line)
    requires
        l.start < 2048,
    ensures
        l.start + span_len(l) <= 2048,
        span_len(l) == l.queue.len() || l.start + span_len(l) == 2048 && span_len(l)
            < l.queue.len(),
{
}

/// What calls of [`UartRing::try_push`] and [`UartRing::kick`] do to a ring at rest: a
/// byte that is taken waits behind the others, and the next transfer reads the bytes that
/// waited, the oldest first, from where the last one ended.
pub proof fn law_a_pushed_byte_is_transferred(
    r: &mut UartRing,
    b: u8,
    taken: bool,
    s: &mut UartRing,
    armed: Option<(usize, usize)>,
    i: int,
)
    requires
        old(r).wf(),
        old(r)@.inflight == 0,
        old(r)@.start + old(r)@.queue.len() < 2048,
        call_ensures(UartRing::try_push, (r, b, 0usize), taken),
        *old(s) == *final(r),
        call_ensures(UartRing::kick, (s, false), armed),
    ensures
        taken <==> old(r)@.queue.len() < 2047,
        taken ==> {
            let all = old(r)@.queue.push(b);
            &&& armed is Some
            &&& (armed->0).0 == old(r)@.start
            &&& (armed->0).1 == all.len()
            &&& 0 <= i < all.len() ==> final(s).slots()[old(r)@.start + i] == all[i]
            &&& final(s)@.inflight == all.len()
            &&& accepted(final(s)@) == accepted(old(r)@).push(b)
        },
{
    if taken {
        let all = old(r)@.queue.push(b);
        let idle = landed(old(s)@);
        assert(idle.queue =~= all);
        assert(idle.sent =~= old(r)@.sent);
        let start = old(r)@.start as int;
        assert(accepted(final(s)@) =~= accepted(old(r)@).push(b));
        if 0 <= i < all.len() {
            assert(final(s).slots().subrange(start, start + all.len())[i] == all[i]);
        }
    }
}

/// What a call of [`UartRing::kick`] does while a transfer runs: nothing. Once that is
/// over, its bytes have been sent, all of them, behind those before.
pub proof fn law_a_transfer_runs_to_its_end(
    r: &mut UartRing,
    armed: Option<(usize, usize)>,
    complete: bool,
)
    requires
        old(r).wf(),
        old(r)@.inflight > 0,
        old(r)@.inflight <= old(r)@.queue.len(),
        call_ensures(UartRing::kick, (r, complete), armed),
    ensures
        !complete ==> armed is None && final(r)@ == old(r)@,
        complete ==> final(r)@.sent == old(r)@.sent + old(r)@.queue.take(
            old(r)@.inflight as int,
        ),
        complete ==> final(r)@.queue == old(r)@.queue.skip(old(r)@.inflight as int),
        complete ==> (armed is None <==> old(r)@.queue.len() == old(r)@.inflight),
        accepted(final(r)@) == accepted(old(r)@),
{
    law_bytes_leave_in_order(old(r)@, 0);
}

} // verus!
