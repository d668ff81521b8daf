//! The gateway's talk with its capture board: the start, the reads, and a stop and a
//! new start where the stream lost its framing.

use vstd::prelude::*;

use crate::fixed;
use crate::framebuffer::{Framebuffer, PixelStore};
use crate::host::board::Board;
use crate::host::decoder as glyph;
use crate::host::templates::Template;
use crate::wire::decoder as wire;
use crate::wire::decoder::WireError;

use super::pipeline;
use super::pipeline::{Pipeline, HOST_CMD_START, HOST_CMD_STOP};
use super::values;
use super::values::{record_value, LatestValues, RowUpdate};

verus! {

/// How long a board has to fall silent, in milliseconds.
pub const SETTLE_MS: u64 = 50;

/// How long to stay away from a UART that failed, in milliseconds.
pub const RETRY_MS: u64 = 100;

/// What is to be done next with the UART.
#[derive(Copy, Clone, Debug, PartialEq, Eq, Structural)]
pub enum Wish {
    /// Write one byte.
    Send(u8),
    /// Wait, for some milliseconds.
    Pause(u64),
    /// Read what there is.
    Read,
}

/// How that went.
pub enum Got {
    /// It is done.
    Done,
    /// Bytes were read.
    Bytes(Vec<u8>),
    /// The read failed.
    Failed,
}

#[derive(Copy, Clone, Debug, PartialEq, Eq, Structural)]
pub enum Phase {
    Stopping,
    Settling,
    Starting,
    Reading,
    Recovering,
}

/// What a phase asks for.
pub open spec fn wish_of(phase: Phase) -> Wish {
    match phase {
        Phase::Stopping => Wish::Send(HOST_CMD_STOP),
        Phase::Settling => Wish::Pause(SETTLE_MS),
        Phase::Starting => Wish::Send(HOST_CMD_START),
        Phase::Reading => Wish::Read,
        Phase::Recovering => Wish::Pause(RETRY_MS),
    }
}

/// Whether a phase hands bytes on.
pub open spec fn takes(phase: Phase, got: Got) -> bool {
    phase is Reading && got is Bytes && got->Bytes_0@.len() > 0
}

/// The phase after one; `lost` says that the bytes broke the framing.
pub open spec fn next_phase(phase: Phase, got: Got, lost: bool) -> Phase {
    match phase {
        Phase::Stopping => Phase::Settling,
        Phase::Settling => Phase::Starting,
        Phase::Starting | Phase::Recovering => Phase::Reading,
        Phase::Reading => if got is Failed {
            Phase::Recovering
        } else if lost {
            Phase::Stopping
        } else {
            Phase::Reading
        },
    }
}

/// The latest values after updates, taken in their order.
pub open spec fn recorded(latest: Seq<Seq<char>>, updates: Seq<values::Update>) -> Seq<Seq<char>>
    decreases updates.len(),
{
    if updates.len() == 0 {
        latest
    } else {
        let before = recorded(latest, updates.drop_last());
        let u = updates.last();
        match values::row_of(u.name) {
            Some(i) => before.update(i, values::short(u.value)),
            None => before,
        }
    }
}

/// Records updates from the one at `from` on.
fn record_all(latest: &mut LatestValues, updates: &Vec<RowUpdate>, from: usize)
    requires
        old(latest).wf(),
        from <= updates.len(),
    ensures
        final(latest).wf(),
        final(latest)@ == recorded(
            old(latest)@,
            pipeline::update_values(updates@).skip(from as int),
        ),
{
    let mut i: usize = from;
    let ghost all = pipeline::update_values(updates@).skip(from as int);
    assert(all.take(0) =~= Seq::<values::Update>::empty());
    while i < updates.len()
        invariant
            from <= i <= updates.len(),
            all == pipeline::update_values(updates@).skip(from as int),
            latest.wf(),
            latest@ == recorded(old(latest)@, all.take(i - from)),
        decreases updates.len() - i,
    {
        let u = &updates[i];
        record_value(latest, u.name, fixed::text16_str(&u.value));
        proof {
            let more = all.take(i - from + 1);
            assert(more.drop_last() =~= all.take(i - from));
            assert(more.last() == updates@[i as int]@);
        }
        i += 1;
    }
    assert(all.take(updates.len() - from) =~= all);
}

pub struct Gateway {
    pipeline: Pipeline,
    phase: Phase,
}

impl Gateway {
    pub closed spec fn wf(&self) -> bool {
        self.pipeline.wf()
    }

    pub closed spec fn phase(&self) -> Phase {
        self.phase
    }

    /// The decoders behind the UART.
    pub closed spec fn pipeline(&self) -> Pipeline {
        self.pipeline
    }

    /// A gateway that is about to start its board.
    pub fn new(board: Board, known: &'static [Template]) -> (gateway: Self)
        ensures
            gateway.wf(),
            gateway.phase() is Stopping,
            gateway.pipeline().held() == Seq::<u8>::empty(),
            gateway.pipeline().reading() == glyph::nothing_read(),
            gateway.pipeline().known() == known@,
            gateway.pipeline().bridge() == board,
            gateway.pipeline().lost() == Seq::<u32>::empty(),
    {
        Gateway { pipeline: Pipeline::new(board, known), phase: Phase::Stopping }
    }

    /// What is to be done next.
    pub fn wish(&self) -> (wish: Wish)
        ensures
            wish == wish_of(self.phase()),
    {
        match self.phase {
            Phase::Stopping => Wish::Send(HOST_CMD_STOP),
            Phase::Settling => Wish::Pause(SETTLE_MS),
            Phase::Starting => Wish::Send(HOST_CMD_START),
            Phase::Reading => Wish::Read,
            Phase::Recovering => Wish::Pause(RETRY_MS),
        }
    }

    /// Goes on after a wish was carried out. Bytes that were read go through the
    /// pipeline, and what they tell is recorded and handed out. Returns the tag at
    /// which the stream lost its framing, where it did.
    pub fn advance<S: PixelStore>(
        &mut self,
        got: &Got,
        fb: &mut Framebuffer<S>,
        latest: &mut LatestValues,
        updates: &mut Vec<RowUpdate>,
    ) -> (bad_tag: Option<u8>)
        requires
            old(self).wf(),
            old(fb).wf(),
            old(latest).wf(),
        ensures
            final(self).wf(),
            final(fb).wf(),
            final(latest).wf(),
            takes(old(self).phase(), *got) ==> ({
                let p = old(self).pipeline();
                let q = final(self).pipeline();
                let o = wire::fed(p.held(), got->Bytes_0@);
                let told = pipeline::told(p.reading(), p.known(), p.bridge(), o);
                let samples = pipeline::samples_of(o.events);
                let read = pipeline::read_samples(p.reading(), p.known(), p.bridge(), samples);
                &&& q.known() == p.known()
                &&& q.bridge() == p.bridge()
                &&& q.held() == if o.error is None {
                    o.held
                } else {
                    Seq::empty()
                }
                &&& q.reading() == if pipeline::has_log(o.events) {
                    glyph::Reading { rows: glyph::settled(read.rows), ..read }
                } else {
                    read
                }
                &&& final(fb).picture() == pipeline::paint_samples(
                    old(fb).picture(),
                    p.bridge(),
                    samples,
                    |c: u16| old(fb).kept(c),
                )
                &&& forall|c: u16| #[trigger] final(fb).kept(c) == old(fb).kept(c)
                &&& pipeline::update_values(final(updates)@) == pipeline::update_values(
                    old(updates)@,
                ) + told
                &&& final(latest)@ == recorded(old(latest)@, told)
                &&& q.lost() == p.lost() + pipeline::losses_in(o.events)
                &&& bad_tag == o.error
                &&& final(self).phase() == next_phase(old(self).phase(), *got, o.error is Some)
            }),
            !takes(old(self).phase(), *got) ==> {
                &&& final(self).pipeline() == old(self).pipeline()
                &&& *final(fb) == *old(fb)
                &&& *final(latest) == *old(latest)
                &&& final(updates)@ == old(updates)@
                &&& bad_tag is None
                &&& final(self).phase() == next_phase(old(self).phase(), *got, false)
            },
    {
        match self.phase {
            Phase::Stopping => {
                self.phase = Phase::Settling;
            },
            Phase::Settling => {
                self.phase = Phase::Starting;
            },
            Phase::Starting | Phase::Recovering => {
                self.phase = Phase::Reading;
            },
            Phase::Reading => match got {
                Got::Done => {},
                Got::Failed => {
                    self.phase = Phase::Recovering;
                },
                Got::Bytes(bytes) => if bytes.len() > 0 {
                    let from: usize = updates.len();
                    let ghost before = pipeline::update_values(updates@);
                    let result = self.pipeline.feed(bytes.as_slice(), fb, updates);
                    proof {
                        let after = pipeline::update_values(updates@);
                        let p = old(self).pipeline();
                        let told = pipeline::told(
                            p.reading(),
                            p.known(),
                            p.bridge(),
                            wire::fed(p.held(), bytes@),
                        );
                        assert(after.len() == updates@.len());
                        assert(after.skip(from as int) =~= told);
                    }
                    record_all(latest, updates, from);
                    if let Err(WireError::BadTag(tag)) = result {
                        self.phase = Phase::Stopping;
                        return Some(tag);
                    }
                },
            },
        }
        None
    }

    /// The losses that the board told of since this was last asked, in order.
    pub fn take_lost(&mut self) -> (lost: Vec<u32>)
        requires
            old(self).wf(),
        ensures
            lost@ == old(self).pipeline().lost(),
            final(self).wf(),
            final(self).phase() == old(self).phase(),
            ({
                let p = old(self).pipeline();
                let q = final(self).pipeline();
                &&& q.lost() == Seq::<u32>::empty()
                &&& q.held() == p.held()
                &&& q.reading() == p.reading()
                &&& q.known() == p.known()
                &&& q.bridge() == p.bridge()
            }),
    {
        self.pipeline.take_lost()
    }
}

/// Before anything is read, the board is told to stop and, after a pause, to start.
/// The same is done where its stream lost the framing: nothing more is read before
/// the board was stopped and started again.
pub proof fn law_a_start_comes_before_a_read(lost: Got, a: Got, b: Got, c: Got)
    ensures
        wish_of(Phase::Stopping) == Wish::Send(HOST_CMD_STOP),
        wish_of(next_phase(Phase::Stopping, a, false)) == Wish::Pause(SETTLE_MS),
        wish_of(next_phase(next_phase(Phase::Stopping, a, false), b, false)) == Wish::Send(
            HOST_CMD_START,
        ),
        next_phase(next_phase(next_phase(Phase::Stopping, a, false), b, false), c, false)
            is Reading,
        takes(Phase::Reading, lost) ==> next_phase(Phase::Reading, lost, true) is Stopping,
{
}

/// What is served of a row is what was told of it last; a row that nothing was told
/// of keeps what it had.
pub proof fn law_served_values_are_the_last_told(
    latest: Seq<Seq<char>>,
    updates: Seq<values::Update>,
    i: int,
)
    requires
        latest.len() == glyph::ROWS_LEN,
        0 <= i < glyph::ROWS_LEN,
    ensures
        forall|j: int|
            0 <= j < updates.len() && values::row_of((#[trigger] updates[j]).name) == Some(i) && (
            forall|k: int|
                j < k < updates.len() ==> values::row_of((#[trigger] updates[k]).name) != Some(i))
                ==> recorded(latest, updates)[i] == values::short(updates[j].value),
        (forall|k: int|
            0 <= k < updates.len() ==> values::row_of((#[trigger] updates[k]).name) != Some(i))
            ==> recorded(latest, updates)[i] == latest[i],
        recorded(latest, updates).len() == latest.len(),
    decreases updates.len(),
{
    if updates.len() > 0 {
        let before = updates.drop_last();
        let u = updates.last();
        law_served_values_are_the_last_told(latest, before, i);
        assert(forall|k: int| 0 <= k < before.len() ==> before[k] == #[trigger] updates[k]);
        assert forall|j: int|
            0 <= j < updates.len() && values::row_of((#[trigger] updates[j]).name) == Some(i) && (
            forall|k: int|
                j < k < updates.len() ==> values::row_of((#[trigger] updates[k]).name) != Some(
                    i,
                )) implies recorded(latest, updates)[i] == values::short(updates[j].value) by {
            if j < before.len() {
                assert(values::row_of(updates[updates.len() - 1].name) != Some(i));
                assert(before[j] == updates[j]);
                assert forall|k: int| j < k < before.len() implies values::row_of(
                    (#[trigger] before[k]).name,
                ) != Some(i) by {
                    assert(before[k] == updates[k]);
                }
            }
        }
        if forall|k: int|
            0 <= k < updates.len() ==> values::row_of((#[trigger] updates[k]).name) != Some(i) {
            assert(values::row_of(updates[updates.len() - 1].name) != Some(i));
            assert forall|k: int| 0 <= k < before.len() implies values::row_of(
                (#[trigger] before[k]).name,
            ) != Some(i) by {
                assert(before[k] == updates[k]);
            }
        }
    }
}

/// What each phase asks for, in bytes and milliseconds, and that only a read that
/// brought bytes hands any on.
pub proof fn law_the_wishes_are_these(phase: Phase, got: Got)
    ensures
        wish_of(Phase::Stopping) == Wish::Send(2),
        wish_of(Phase::Settling) == Wish::Pause(50),
        wish_of(Phase::Starting) == Wish::Send(1),
        wish_of(Phase::Reading) == Wish::Read,
        wish_of(Phase::Recovering) == Wish::Pause(100),
        takes(phase, got) ==> wish_of(phase) == Wish::Read,
        takes(phase, got) <==> phase is Reading && (got matches Got::Bytes(b) && b@.len() > 0),
{
}

/// A read that failed is tried again after a pause, without a new start; one that
/// brought nothing, or whole frames, is followed by the next.
pub proof fn law_a_failed_read_is_tried_again(got: Got, then: Got)
    ensures
        next_phase(Phase::Reading, Got::Failed, false) is Recovering,
        next_phase(Phase::Recovering, then, false) is Reading,
        !(got is Failed) ==> next_phase(Phase::Reading, got, false) is Reading,
{
}

/// What a call of [`Gateway::advance`] does without bytes: nothing but go on to the next
/// phase.
pub proof fn law_nothing_changes_without_bytes<S: PixelStore>(
    g: &mut Gateway,
    got: &Got,
    fb: &mut Framebuffer<S>,
    latest: &mut LatestValues,
    updates: &mut Vec<RowUpdate>,
    bad_tag: Option<u8>,
)
    requires
        old(g).wf(),
        old(fb).wf(),
        old(latest).wf(),
        call_ensures(Gateway::advance::<S>, (g, got, fb, latest, updates), bad_tag),
        !(old(g).phase() is Reading) || !(got is Bytes) || got->Bytes_0@.len() == 0,
    ensures
        bad_tag is None,
        final(latest)@ == old(latest)@,
        final(updates)@ == old(updates)@,
        final(fb).picture() == old(fb).picture(),
        final(g).pipeline() == old(g).pipeline(),
        old(g).phase() is Stopping ==> final(g).phase() is Settling,
        old(g).phase() is Settling ==> final(g).phase() is Starting,
        old(g).phase() is Starting ==> final(g).phase() is Reading,
        old(g).phase() is Recovering ==> final(g).phase() is Reading,
        old(g).phase() is Reading ==> (final(g).phase() is Recovering <==> got is Failed),
{
}

/// What a call of [`Gateway::advance`] does with bytes: each value that they tell is both
/// handed out and recorded, and a stream that lost its framing is started over.
pub proof fn law_what_is_told_is_recorded<S: PixelStore>(
    g: &mut Gateway,
    got: &Got,
    fb: &mut Framebuffer<S>,
    latest: &mut LatestValues,
    updates: &mut Vec<RowUpdate>,
    bad_tag: Option<u8>,
    i: int,
    k: int,
)
    requires
        old(g).wf(),
        old(fb).wf(),
        old(latest).wf(),
        old(latest)@.len() == 5,
        call_ensures(Gateway::advance::<S>, (g, got, fb, latest, updates), bad_tag),
        old(g).phase() is Reading,
        got is Bytes,
        got->Bytes_0@.len() > 0,
        0 <= i < 5,
        old(updates)@.len() <= k < final(updates)@.len(),
        final(updates)@[k]@.name == glyph::row_names()[i],
        forall|j: int|
            k < j < final(updates)@.len() ==> (#[trigger] final(updates)@[j])@.name
                != glyph::row_names()[i],
    ensures
        final(latest)@[i] == values::short(final(updates)@[k]@.value),
        bad_tag is Some <==> final(g).phase() is Stopping,
        bad_tag is None <==> final(g).phase() is Reading,
{
    let p = old(g).pipeline();
    let o = wire::fed(p.held(), got->Bytes_0@);
    let told = pipeline::told(p.reading(), p.known(), p.bridge(), o);
    let n = old(updates)@.len() as int;
    let now = pipeline::update_values(final(updates)@);
    assert(now == pipeline::update_values(old(updates)@) + told);
    assert forall|j: int| 0 <= j < told.len() implies #[trigger] told[j] == final(updates)@[n
        + j]@ by {
        assert(now[n + j] == told[j]);
    }
    assert(now.len() == final(updates)@.len());
    assert(told[k - n] == final(updates)@[k]@);
    values::law_rows_are_found_by_name(glyph::row_names()[i]);
    assert forall|j: int| k - n < j < told.len() implies values::row_of((#[trigger] told[j]).name)
        != Some(i) by {
        values::law_rows_are_found_by_name(told[j].name);
        assert(told[j] == final(updates)@[n + j]@);
    }
    law_served_values_are_the_last_told(old(latest)@, told, i);
}

} // verus!
