//! From wire bytes to the picture and the sensor values.

use vstd::prelude::*;

use crate::firmware::lossless;
use crate::firmware_esp32::values;
use crate::firmware_esp32::values::{short_value, RowUpdate};
use crate::framebuffer;
use crate::framebuffer::{Framebuffer, PixelStore};
use crate::host::board;
use crate::host::board::Board;
use crate::host::decoder as glyph;
use crate::host::decoder::RowReport;
use crate::host::templates::Template;
use crate::wire::decoder as wire;
use crate::wire::decoder::{WireError, WireEvent};
use crate::wire::stream;
use crate::wire::traffic;

pub use crate::wire::{HOST_CMD_START, HOST_CMD_STOP};

verus! {

/// The samples that an event carries.
pub open spec fn event_samples(e: wire::Event) -> Seq<u32> {
    match e {
        wire::Event::Block(samples) => samples,
        wire::Event::Run { n, sample } => stream::repeated(n as nat, sample),
        wire::Event::Repeat2 { val_a, val_b, run_lens } => stream::alternating(
            val_a,
            val_b,
            run_lens,
        ),
        _ => Seq::empty(),
    }
}

/// The samples that events carry, in order.
pub open spec fn samples_of(events: Seq<wire::Event>) -> Seq<u32>
    decreases events.len(),
{
    if events.len() == 0 {
        Seq::empty()
    } else {
        samples_of(events.drop_last()) + event_samples(events.last())
    }
}

/// Whether there is a log line among events: these fall between two refreshes of
/// the display, so the rows are settled then.
pub open spec fn has_log(events: Seq<wire::Event>) -> bool {
    exists|i: int| 0 <= i < events.len() && (#[trigger] events[i]) is Log
}

/// The glyph decoder after samples.
pub open spec fn read_samples(
    r: glyph::Reading,
    known: Seq<Template>,
    board: Board,
    samples: Seq<u32>,
) -> glyph::Reading
    decreases samples.len(),
{
    if samples.len() == 0 {
        r
    } else {
        let word = board::bus_word(board, samples.last());
        glyph::fed(read_samples(r, known, board, samples.drop_last()), known, word.0, word.1).0
    }
}

/// The picture after samples; `kept` is what the store makes of a colour.
pub open spec fn paint_samples(
    p: framebuffer::Picture,
    board: Board,
    samples: Seq<u32>,
    kept: spec_fn(u16) -> u16,
) -> framebuffer::Picture
    decreases samples.len(),
{
    if samples.len() == 0 {
        p
    } else {
        let word = board::bus_word(board, samples.last());
        framebuffer::fed(
            paint_samples(p, board, samples.drop_last(), kept),
            word.0,
            word.1,
            kept,
        )
    }
}

/// What is published of a row that changed.
pub open spec fn update_of(r: glyph::Report) -> values::Update {
    values::Update { name: r.name, value: values::short(r.value) }
}

/// The values of updates.
pub open spec fn update_values(updates: Seq<RowUpdate>) -> Seq<values::Update> {
    updates.map_values(|u: RowUpdate| u@)
}

/// The rows that a read tells: where a log line is among it, all that changed.
pub open spec fn told(r: glyph::Reading, known: Seq<Template>, board: Board, o: wire::Outcome)
    -> Seq<values::Update> {
    if has_log(o.events) {
        glyph::reports(
            read_samples(r, known, board, samples_of(o.events)).rows,
            glyph::ROWS_LEN as nat,
        ).map_values(|r: glyph::Report| update_of(r))
    } else {
        Seq::empty()
    }
}

/// The losses that events tell of, in order.
pub open spec fn losses_in(events: Seq<wire::Event>) -> Seq<u32>
    decreases events.len(),
{
    if events.len() == 0 {
        Seq::empty()
    } else {
        let before = losses_in(events.drop_last());
        match events.last() {
            wire::Event::Overrun { dropped } => before.push(dropped),
            _ => before,
        }
    }
}

pub struct Pipeline {
    wire: wire::Decoder,
    glyph: glyph::Decoder,
    board: Board,
    lost: Vec<u32>,
}

impl Pipeline {
    pub closed spec fn wf(&self) -> bool {
        self.wire.wf() && self.glyph.wf()
    }

    /// Bytes held for the next call.
    pub closed spec fn held(&self) -> Seq<u8> {
        self.wire@
    }

    /// What the glyph decoder knows of the display.
    pub closed spec fn reading(&self) -> glyph::Reading {
        self.glyph@
    }

    /// The glyphs that are known.
    pub closed spec fn known(&self) -> Seq<Template> {
        self.glyph.known()
    }

    /// The losses that the board told of and that were not taken yet.
    pub closed spec fn lost(&self) -> Seq<u32> {
        self.lost@
    }

    /// The board on the other end.
    pub closed spec fn bridge(&self) -> Board {
        self.board
    }

    /// A pipeline behind a board, which reads the glyphs that are known.
    pub fn new(board: Board, known: &'static [Template]) -> (pipeline: Self)
        ensures
            pipeline.wf(),
            pipeline.held() == Seq::<u8>::empty(),
            pipeline.reading() == glyph::nothing_read(),
            pipeline.known() == known@,
            pipeline.bridge() == board,
            pipeline.lost() == Seq::<u32>::empty(),
    {
        Pipeline {
            wire: wire::Decoder::new(),
            glyph: glyph::Decoder::new(known),
            board,
            lost: Vec::new(),
        }
    }

    /// The glyph decoder and the framebuffer take a sample `n` times.
    fn feed_run<S: PixelStore>(&mut self, n: usize, sample: u32, fb: &mut Framebuffer<S>)
        requires
            old(self).wf(),
            old(fb).wf(),
        ensures
            took(
                *old(self),
                *old(fb),
                stream::repeated(n as nat, sample),
                *final(self),
                *final(fb),
            ),
    {
        let (data, is_data) = self.board.permute(sample);
        let ghost kept = |c: u16| old(fb).kept(c);
        let mut i: usize = 0;
        let ghost none = stream::repeated(0, sample);
        assert(none =~= Seq::<u32>::empty());
        while i < n
            invariant
                i <= n,
                (data, is_data) == board::bus_word(self.board, sample),
                kept == (|c: u16| old(fb).kept(c)),
                took(*old(self), *old(fb), stream::repeated(i as nat, sample), *self, *fb),
            decreases n - i,
        {
            let ghost before = *fb;
            let _ = self.glyph.feed(data, is_data);
            fb.feed(data, is_data);
            proof {
                assert((|c: u16| before.kept(c)) =~= kept);
                let more = stream::repeated((i + 1) as nat, sample);
                assert(more.drop_last() =~= stream::repeated(i as nat, sample));
                assert(more.last() == sample);
            }
            i += 1;
        }
    }

    /// The glyph decoder and the framebuffer take samples.
    fn feed_samples<S: PixelStore>(&mut self, samples: &Vec<u32>, fb: &mut Framebuffer<S>)
        requires
            old(self).wf(),
            old(fb).wf(),
        ensures
            took(*old(self), *old(fb), samples@, *final(self), *final(fb)),
    {
        let mut i: usize = 0;
        assert(samples@.take(0) =~= Seq::<u32>::empty());
        while i < samples.len()
            invariant
                i <= samples.len(),
                took(*old(self), *old(fb), samples@.take(i as int), *self, *fb),
            decreases samples.len() - i,
        {
            let ghost mid = (*self, *fb);
            self.feed_run(1, samples[i], fb);
            proof {
                let one = stream::repeated(1, samples@[i as int]);
                lemma_took_join(
                    (*old(self), *old(fb)),
                    samples@.take(i as int),
                    mid,
                    one,
                    (*self, *fb),
                );
                assert(samples@.take(i as int) + one =~= samples@.take(i + 1));
            }
            i += 1;
        }
        assert(samples@.take(i as int) =~= samples@);
    }

    /// The glyph decoder and the framebuffer take runs that alternate between two
    /// samples.
    fn feed_runs<S: PixelStore>(
        &mut self,
        val_a: u32,
        val_b: u32,
        run_lens: &Vec<u8>,
        fb: &mut Framebuffer<S>,
    )
        requires
            old(self).wf(),
            old(fb).wf(),
        ensures
            took(
                *old(self),
                *old(fb),
                stream::alternating(val_a, val_b, run_lens@),
                *final(self),
                *final(fb),
            ),
    {
        let mut i: usize = 0;
        assert(run_lens@.take(0) =~= Seq::<u8>::empty());
        while i < run_lens.len()
            invariant
                i <= run_lens.len(),
                took(
                    *old(self),
                    *old(fb),
                    stream::alternating(val_a, val_b, run_lens@.take(i as int)),
                    *self,
                    *fb,
                ),
            decreases run_lens.len() - i,
        {
            let sample: u32 = if i % 2 == 0 {
                val_a
            } else {
                val_b
            };
            let ghost mid = (*self, *fb);
            self.feed_run(run_lens[i] as usize, sample, fb);
            proof {
                let lens = run_lens@.take(i as int);
                let l = run_lens@[i as int];
                lossless::lemma_alternating_push(val_a, val_b, lens, l);
                assert(lens.push(l) =~= run_lens@.take(i + 1));
                lemma_took_join(
                    (*old(self), *old(fb)),
                    stream::alternating(val_a, val_b, lens),
                    mid,
                    stream::repeated(l as nat, sample),
                    (*self, *fb),
                );
            }
            i += 1;
        }
        assert(run_lens@.take(i as int) =~= run_lens@);
    }

    /// The glyph decoder and the framebuffer take the samples of an event.
    fn take_event<S: PixelStore>(&mut self, ev: &WireEvent, fb: &mut Framebuffer<S>)
        requires
            old(self).wf(),
            old(fb).wf(),
        ensures
            took(*old(self), *old(fb), event_samples(ev@), *final(self), *final(fb)),
    {
        match ev {
            WireEvent::Block(samples) => {
                self.feed_samples(samples, fb);
            },
            WireEvent::Run { n, sample } => {
                self.feed_run(*n as usize, *sample, fb);
            },
            WireEvent::Repeat2 { val_a, val_b, run_lens } => {
                self.feed_runs(*val_a, *val_b, run_lens, fb);
            },
            _ => {},
        }
    }

    /// Takes bytes off the wire. Every sample goes through the glyph decoder and
    /// the framebuffer. Where a log line is among what came, the rows that changed
    /// are handed out, after all samples. Losses that the board tells of are kept
    /// for [`Pipeline::take_lost`]. Fails where the stream lost its framing;
    /// the caller should have the board start over.
    pub fn feed<S: PixelStore>(
        &mut self,
        input: &[u8],
        fb: &mut Framebuffer<S>,
        updates: &mut Vec<RowUpdate>,
    ) -> (result: Result<(), WireError>)
        requires
            old(self).wf(),
            old(fb).wf(),
        ensures
            final(self).wf(),
            final(fb).wf(),
            final(self).known() == old(self).known(),
            final(self).bridge() == old(self).bridge(),
            forall|c: u16| #[trigger] final(fb).kept(c) == old(fb).kept(c),
            ({
                let o = wire::fed(old(self).held(), input@);
                let samples = samples_of(o.events);
                let read = read_samples(
                    old(self).reading(),
                    old(self).known(),
                    old(self).bridge(),
                    samples,
                );
                &&& final(fb).picture() == paint_samples(
                    old(fb).picture(),
                    old(self).bridge(),
                    samples,
                    |c: u16| old(fb).kept(c),
                )
                &&& final(self).reading() == if has_log(o.events) {
                    glyph::Reading { rows: glyph::settled(read.rows), ..read }
                } else {
                    read
                }
                &&& update_values(final(updates)@) == update_values(old(updates)@) + told(
                    old(self).reading(),
                    old(self).known(),
                    old(self).bridge(),
                    o,
                )
                &&& final(self).lost() == old(self).lost() + losses_in(o.events)
                &&& match o.error {
                    Some(tag) => result == Err::<(), WireError>(WireError::BadTag(tag)) && final(
                        self).held() == Seq::<u8>::empty(),
                    None => result is Ok && final(self).held() == o.held,
                }
            }),
    {
        let ghost o = wire::fed(self.held(), input@);
        assert(update_values(updates@) + Seq::<values::Update>::empty() =~= update_values(updates@));
        let mut events: Vec<WireEvent> = Vec::new();
        let result = self.wire.feed(input, &mut events);
        let ghost all = wire::views(events@);
        assert(wire::views(Seq::empty()) =~= Seq::<wire::Event>::empty());
        assert(all =~= o.events);
        let ghost start = *self;
        let mut flush_requested: bool = false;
        let mut lost: Vec<u32> = Vec::new();
        let mut i: usize = 0;
        assert(all.take(0) =~= Seq::<wire::Event>::empty());
        while i < events.len()
            invariant
                i <= events.len(),
                all == wire::views(events@),
                flush_requested == has_log(all.take(i as int)),
                lost@ == losses_in(all.take(i as int)),
                took(start, *old(fb), samples_of(all.take(i as int)), *self, *fb),
            decreases events.len() - i,
        {
            let ghost mid = (*self, *fb);
            let ghost before = all.take(i as int);
            let ghost more = all.take(i + 1);
            self.take_event(&events[i], fb);
            proof {
                assert(all[i as int] == events@[i as int]@);
                assert(more.drop_last() =~= before);
                lemma_took_join(
                    (start, *old(fb)),
                    samples_of(before),
                    mid,
                    event_samples(more.last()),
                    (*self, *fb),
                );
                lemma_has_log_push(before, more.last());
                assert(before.push(more.last()) =~= more);
            }
            if let WireEvent::Log(_) = &events[i] {
                flush_requested = true;
            }
            if let WireEvent::Overrun { dropped } = &events[i] {
                lost.push(*dropped);
            }
            i += 1;
        }
        assert(all.take(i as int) =~= all);
        self.lost.append(&mut lost);
        if result.is_err() {
            // What is held is garbage; the board starts over.
            self.wire.reset();
        }
        if flush_requested {
            let ghost rows = self.glyph@.rows;
            let reports: Vec<RowReport> = self.glyph.flush();
            publish(&reports, updates);
            proof {
                let told = glyph::reports(rows, glyph::ROWS_LEN as nat);
                assert(glyph::report_values(reports@) == told);
            }
        }
        result
    }

    /// The losses that the board told of since this was last asked, in order.
    pub fn take_lost(&mut self) -> (lost: Vec<u32>)
        requires
            old(self).wf(),
        ensures
            lost@ == old(self).lost(),
            final(self).wf(),
            final(self).lost() == Seq::<u32>::empty(),
            final(self).held() == old(self).held(),
            final(self).reading() == old(self).reading(),
            final(self).known() == old(self).known(),
            final(self).bridge() == old(self).bridge(),
    {
        let mut lost: Vec<u32> = Vec::new();
        core::mem::swap(&mut lost, &mut self.lost);
        lost
    }
}

/// Appends what is published of rows that changed.
fn publish(reports: &Vec<RowReport>, updates: &mut Vec<RowUpdate>)
    ensures
        update_values(final(updates)@) == update_values(old(updates)@) + glyph::report_values(
            reports@,
        ).map_values(|r: glyph::Report| update_of(r)),
{
    let mut i: usize = 0;
    let ghost told = glyph::report_values(reports@).map_values(|r: glyph::Report| update_of(r));
    assert(update_values(updates@) =~= update_values(updates@) + told.take(0));
    while i < reports.len()
        invariant
            i <= reports.len(),
            told == glyph::report_values(reports@).map_values(|r: glyph::Report| update_of(r)),
            update_values(updates@) == update_values(old(updates)@) + told.take(i as int),
        decreases reports.len() - i,
    {
        let r = &reports[i];
        let u = RowUpdate { name: r.name, value: short_value(r.value.as_str()) };
        let ghost before = updates@;
        updates.push(u);
        proof {
            assert(told[i as int] == u@);
            assert(update_values(updates@) =~= update_values(before).push(u@));
            assert(update_values(updates@) =~= update_values(old(updates)@) + told.take(i + 1));
        }
        i += 1;
    }
    assert(told.take(i as int) =~= told);
}

/// A pipeline and a framebuffer took samples: both went on, and all else stays.
spec fn took<S: PixelStore>(
    p: Pipeline,
    fb: Framebuffer<S>,
    samples: Seq<u32>,
    q: Pipeline,
    gb: Framebuffer<S>,
) -> bool {
    &&& q.wf()
    &&& gb.wf()
    &&& q.wire == p.wire
    &&& q.lost == p.lost
    &&& q.board == p.board
    &&& q.known() == p.known()
    &&& forall|c: u16| #[trigger] gb.kept(c) == fb.kept(c)
    &&& q.reading() == read_samples(p.reading(), p.known(), p.board, samples)
    &&& gb.picture() == paint_samples(fb.picture(), p.board, samples, |c: u16| fb.kept(c))
}

proof fn lemma_took_join<S: PixelStore>(
    x: (Pipeline, Framebuffer<S>),
    a: Seq<u32>,
    y: (Pipeline, Framebuffer<S>),
    b: Seq<u32>,
    z: (Pipeline, Framebuffer<S>),
)
    requires
        took(x.0, x.1, a, y.0, y.1),
        took(y.0, y.1, b, z.0, z.1),
    ensures
        took(x.0, x.1, a + b, z.0, z.1),
{
    assert((|c: u16| x.1.kept(c)) =~= (|c: u16| y.1.kept(c)));
    law_reads_join(x.0.reading(), x.0.known(), x.0.board, a, b);
    law_paints_join(x.1.picture(), x.0.board, a, b, |c: u16| x.1.kept(c));
}

/// To read samples and then more is to read all of them.
pub proof fn law_reads_join(
    r: glyph::Reading,
    known: Seq<Template>,
    board: Board,
    a: Seq<u32>,
    b: Seq<u32>,
)
    ensures
        read_samples(read_samples(r, known, board, a), known, board, b) == read_samples(
            r,
            known,
            board,
            a + b,
        ),
    decreases b.len(),
{
    if b.len() == 0 {
        assert(a + b =~= a);
    } else {
        law_reads_join(r, known, board, a, b.drop_last());
        assert((a + b).drop_last() =~= a + b.drop_last());
    }
}

/// To paint samples and then more is to paint all of them.
pub proof fn law_paints_join(
    p: framebuffer::Picture,
    board: Board,
    a: Seq<u32>,
    b: Seq<u32>,
    kept: spec_fn(u16) -> u16,
)
    ensures
        paint_samples(paint_samples(p, board, a, kept), board, b, kept) == paint_samples(
            p,
            board,
            a + b,
            kept,
        ),
    decreases b.len(),
{
    if b.len() == 0 {
        assert(a + b =~= a);
    } else {
        law_paints_join(p, board, a, b.drop_last(), kept);
        assert((a + b).drop_last() =~= a + b.drop_last());
    }
}

proof fn lemma_has_log_push(events: Seq<wire::Event>, e: wire::Event)
    ensures
        has_log(events.push(e)) == (has_log(events) || e is Log),
{
    let more = events.push(e);
    if has_log(events) {
        let i = choose|i: int| 0 <= i < events.len() && (#[trigger] events[i]) is Log;
        assert(more[i] is Log);
    }
    if e is Log {
        assert(more[events.len() as int] is Log);
    }
    if has_log(more) {
        let i = choose|i: int| 0 <= i < more.len() && (#[trigger] more[i]) is Log;
        if i < events.len() {
            assert(events[i] is Log);
        }
    }
}

/// Whether there is a log line among items.
pub open spec fn log_among(items: Seq<stream::Item>) -> bool {
    exists|i: int| 0 <= i < items.len() && (#[trigger] items[i]) is Log
}

proof fn lemma_log_concat(a: Seq<stream::Item>, b: Seq<stream::Item>)
    ensures
        log_among(a + b) == (log_among(a) || log_among(b)),
{
    let s = a + b;
    if log_among(a) {
        let i = choose|i: int| 0 <= i < a.len() && (#[trigger] a[i]) is Log;
        assert(s[i] is Log);
    }
    if log_among(b) {
        let i = choose|i: int| 0 <= i < b.len() && (#[trigger] b[i]) is Log;
        assert(s[a.len() + i] is Log);
    }
    if log_among(s) {
        let i = choose|i: int| 0 <= i < s.len() && (#[trigger] s[i]) is Log;
        if i < a.len() {
            assert(a[i] is Log);
        } else {
            assert(b[i - a.len()] is Log);
        }
    }
}

proof fn lemma_log_others(items: Seq<stream::Item>)
    ensures
        log_among(items) == log_among(traffic::others_among(items)),
    decreases items.len(),
{
    if items.len() > 0 {
        let before = items.drop_last();
        let i = items.last();
        lemma_log_others(before);
        lemma_log_concat(before, seq![i]);
        lemma_log_concat(traffic::others_among(before), seq![i]);
        assert(before + seq![i] =~= items);
        assert(traffic::others_among(before) + seq![i] =~= traffic::others_among(before).push(i));
        if i is Sample {
            assert(!log_among(seq![i]));
        }
    }
}

proof fn lemma_events_and_items(events: Seq<wire::Event>)
    ensures
        traffic::samples_among(stream::items(events)) == samples_of(events),
        log_among(stream::items(events)) == has_log(events),
    decreases events.len(),
{
    if events.len() > 0 {
        let before = events.drop_last();
        let e = events.last();
        let mine = stream::event_items(e);
        lemma_events_and_items(before);
        traffic::lemma_among_concat(stream::items(before), mine);
        lemma_log_concat(stream::items(before), mine);
        match e {
            wire::Event::Block(_) | wire::Event::Run { .. } | wire::Event::Repeat2 { .. } => {
                traffic::lemma_among_samples(event_samples(e));
                assert(!log_among(mine));
            },
            _ => {
                traffic::lemma_among_one(mine[0]);
                assert(mine =~= seq![mine[0]]);
                assert(log_among(mine) == (mine[0] is Log));
            },
        }
        assert(before.push(e) =~= events);
        lemma_has_log_push(before, e);
    }
}

/// What a board captures is what the pipeline sees, whatever else the board puts
/// on the wire: the samples that the board fed its encoder and no others, in
/// order; and the rows are told if and only if the board sent a log line.
pub proof fn law_pipeline_sees_the_capture(ops: Seq<traffic::Op>)
    requires
        forall|i: int| 0 <= i < ops.len() ==> traffic::fair(#[trigger] ops[i]),
    ensures
        ({
            let o = wire::fed(Seq::empty(), traffic::traffic(ops));
            &&& o.error is None
            &&& o.held == Seq::<u8>::empty()
            &&& samples_of(o.events) == traffic::fed_samples(ops)
            &&& has_log(o.events) == log_among(traffic::sent_items(ops))
        }),
{
    let o = wire::fed(Seq::empty(), traffic::traffic(ops));
    traffic::law_traffic_is_delivered(ops);
    lemma_events_and_items(o.events);
    lemma_log_others(stream::items(o.events));
}

/// The picture after samples is the one that their bus words paint, one after the other,
/// the first sample first; the same holds of what is read.
pub proof fn law_samples_are_taken_in_order(
    p: framebuffer::Picture,
    r: glyph::Reading,
    known: Seq<Template>,
    board: Board,
    samples: Seq<u32>,
    kept: spec_fn(u16) -> u16,
)
    requires
        samples.len() > 0,
    ensures
        ({
            let (word, is_data) = board::bus_word(board, samples[0]);
            &&& paint_samples(p, board, samples, kept) == paint_samples(
                framebuffer::fed(p, word, is_data, kept),
                board,
                samples.skip(1),
                kept,
            )
            &&& read_samples(r, known, board, samples) == read_samples(
                glyph::fed(r, known, word, is_data).0,
                known,
                board,
                samples.skip(1),
            )
        }),
        paint_samples(p, board, Seq::empty(), kept) == p,
        read_samples(r, known, board, Seq::empty()) == r,
{
    let one = samples.take(1);
    assert(one.drop_last() =~= Seq::<u32>::empty());
    assert(one + samples.skip(1) =~= samples);
    law_paints_join(p, board, one, samples.skip(1), kept);
    law_reads_join(r, known, board, one, samples.skip(1));
    reveal_with_fuel(paint_samples, 2);
    reveal_with_fuel(read_samples, 2);
}

/// What a call of [`Pipeline::feed`] tells of a read: where a log line is among it, one
/// update of each row that changed, with the row's name and its text where that is
/// short; where none is, nothing. What was told before stays.
pub proof fn law_a_log_line_tells_the_rows<S: PixelStore>(
    p: &mut Pipeline,
    input: &[u8],
    fb: &mut Framebuffer<S>,
    updates: &mut Vec<RowUpdate>,
    result: Result<(), WireError>,
    i: int,
    k: int,
)
    requires
        old(p).wf(),
        old(fb).wf(),
        old(p).reading().rows.len() == 5,
        call_ensures(Pipeline::feed::<S>, (p, input, fb, updates), result),
        0 <= i < 5,
    ensures
        ({
            let o = wire::fed(old(p).held(), input@);
            let read = read_samples(
                old(p).reading(),
                old(p).known(),
                old(p).bridge(),
                samples_of(o.events),
            );
            let n = old(updates)@.len();
            &&& final(updates)@.len() >= n
            &&& 0 <= k < n ==> final(updates)@[k]@ == old(updates)@[k]@
            &&& !has_log(o.events) ==> final(updates)@.len() == n
            &&& has_log(o.events) && read.rows.len() == 5 && read.rows[i].dirty ==> exists|j: int|
                n <= j < final(updates)@.len() && (#[trigger] final(updates)@[j])@.name
                    == glyph::row_names()[i] && final(updates)@[j]@.value == values::short(
                    glyph::row_text(read.rows[i]),
                )
        }),
{
    let o = wire::fed(old(p).held(), input@);
    let read = read_samples(
        old(p).reading(),
        old(p).known(),
        old(p).bridge(),
        samples_of(o.events),
    );
    let n = old(updates)@.len() as int;
    let now = update_values(final(updates)@);
    let was = update_values(old(updates)@);
    let told = told(old(p).reading(), old(p).known(), old(p).bridge(), o);
    assert(now == was + told);
    assert(now.len() == final(updates)@.len());
    if 0 <= k < n {
        assert(now[k] == was[k]);
        assert(now[k] == final(updates)@[k]@);
        assert(was[k] == old(updates)@[k]@);
    }
    if has_log(o.events) && read.rows.len() == 5 && read.rows[i].dirty {
        glyph::law_every_change_is_told_once(read.rows, i);
        let reports = glyph::reports(read.rows, glyph::ROWS_LEN as nat);
        let m = choose|m: int| 0 <= m < reports.len() && (#[trigger] reports[m]).row == i;
        assert(told[m] == update_of(reports[m]));
        assert(reports[m].value =~= glyph::row_text(read.rows[i]));
        assert(now[n + m] == told[m]);
        assert(final(updates)@[n + m]@ == now[n + m]);
    }
}

/// What calls of [`Pipeline::take_lost`] give: the losses that were told, once.
pub proof fn law_losses_are_told_once(
    p: &mut Pipeline,
    first: Vec<u32>,
    q: &mut Pipeline,
    second: Vec<u32>,
)
    requires
        old(p).wf(),
        call_ensures(Pipeline::take_lost, (p,), first),
        *old(q) == *final(p),
        call_ensures(Pipeline::take_lost, (q,), second),
    ensures
        first@ == old(p).lost(),
        second@.len() == 0,
        final(q).reading() == old(p).reading(),
{
}

/// Losses are listed in the order in which they were told, and nothing else is.
pub proof fn law_losses_are_listed(events: Seq<wire::Event>, dropped: u32, e: wire::Event)
    ensures
        losses_in(Seq::empty()).len() == 0,
        losses_in(events.push(wire::Event::Overrun { dropped })) == losses_in(events).push(dropped),
        !(e is Overrun) ==> losses_in(events.push(e)) == losses_in(events),
{
    assert(events.push(wire::Event::Overrun { dropped }).drop_last() =~= events);
    assert(events.push(e).drop_last() =~= events);
}

} // verus!
