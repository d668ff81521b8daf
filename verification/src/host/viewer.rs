//! The viewer: what it makes of the decoded stream.
//!
//! Events drive the bus decoder, whose transactions paint the picture, and the
//! glyph decoder, whose rows are the sensor values. What is to be printed or
//! saved is handed to the caller as a list of actions, in order.

use std::collections::{HashSet, VecDeque};

use vstd::prelude::*;

use crate::firmware::lossless;
use crate::firmware_esp32::pipeline;
use crate::host::board;
use crate::host::board::Board;
use crate::host::bus_decoder;
use crate::host::bus_decoder::{BusDecoder, Frame};
use crate::host::decoder as glyph;
use crate::host::decoder::{Decoder, RowReport};
use crate::host::dump;
use crate::host::dump::{dump_window, GlyphDump};
use crate::host::framebuffer;
use crate::host::framebuffer::Framebuffer;
use crate::host::lines;
use crate::host::templates::Template;
use crate::wire::decoder as wire;
use crate::wire::decoder::{WireError, WireEvent};
use crate::wire::stream;

verus! {

/// Lines kept in the activity log.
pub const LOG_CAP: usize = 128;

/// One line of the activity log.
pub enum LogEntry {
    Tx(Frame),
    Msg(String),
}

/// A log line as a mathematical value.
pub enum Entry {
    Tx(bus_decoder::Transaction),
    Msg(Seq<char>),
}

impl View for LogEntry {
    type V = Entry;

    open spec fn view(&self) -> Entry {
        match *self {
            LogEntry::Tx(tx) => Entry::Tx(tx@),
            LogEntry::Msg(msg) => Entry::Msg(msg@),
        }
    }
}

/// The values of log lines.
pub open spec fn entries(log: Seq<LogEntry>) -> Seq<Entry> {
    log.map_values(|e: LogEntry| e@)
}

/// The log with one more line; a full log loses its oldest.
pub open spec fn logged(log: Seq<Entry>, e: Entry) -> Seq<Entry> {
    if log.len() == LOG_CAP {
        log.skip(1).push(e)
    } else {
        log.push(e)
    }
}

/// Adds a line to the log; a full log loses its oldest.
pub fn push_log(log: &mut VecDeque<LogEntry>, entry: LogEntry)
    ensures
        entries(final(log)@) == logged(entries(old(log)@), entry@),
        old(log)@.len() <= LOG_CAP ==> final(log)@.len() <= LOG_CAP,
{
    let ghost before = log@;
    if log.len() == LOG_CAP {
        let _ = log.pop_front();
        assert(log@ =~= before.skip(1));
    }
    log.push_back(entry);
    assert(entries(log@) =~= logged(entries(before), entry@));
}

/// The log never holds more than [`LOG_CAP`] lines, and the newest is its last.
pub proof fn law_log_is_bounded(log: Seq<Entry>, e: Entry)
    requires
        log.len() <= LOG_CAP,
    ensures
        logged(log, e).len() <= LOG_CAP,
        logged(log, e).last() == e,
{
}

/// Something for the caller to do.
pub enum Action {
    /// Print a line.
    Print(String),
    /// Save a window as a picture.
    Save(GlyphDump),
}

/// What a read of the stream came to.
pub enum Received {
    /// Some bytes.
    Bytes(Vec<u8>),
    /// Nothing for as long as one waits.
    Quiet,
    /// Nothing ever again.
    End,
}

/// What comes after a read.
#[derive(Copy, Clone, Debug, PartialEq, Eq, Structural)]
pub enum Next {
    /// The next read.
    GoOn,
    /// The stream is over.
    Ended,
    /// The stream lost its framing at this tag.
    Lost(u8),
}

/// An action as a mathematical value.
pub enum Effect {
    Print(Seq<char>),
    Save(dump::Dump),
}

impl View for Action {
    type V = Effect;

    open spec fn view(&self) -> Effect {
        match *self {
            Action::Print(line) => Effect::Print(line@),
            Action::Save(d) => Effect::Save(d@),
        }
    }
}

/// The values of a list of actions.
pub open spec fn effects(actions: Seq<Action>) -> Seq<Effect> {
    actions.map_values(|a: Action| a@)
}

/// What does not change while the viewer runs.
pub struct Setup {
    pub board: Board,
    /// The glyphs that are known.
    pub known: Seq<Template>,
    /// Whether windows are saved.
    pub saving: bool,
}

/// What the viewer shows and remembers, and what it has asked the caller to do.
pub struct Scene {
    pub canvas: framebuffer::Canvas,
    pub log: Seq<Entry>,
    /// The last value of each row, where there was one.
    pub values: Seq<Option<Seq<char>>>,
    /// The transaction in flight.
    pub bus: Option<bus_decoder::Transaction>,
    pub reading: glyph::Reading,
    /// The windows saved so far.
    pub seen: Set<u64>,
    pub effects: Seq<Effect>,
}

/// A line is printed.
pub open spec fn say(s: Scene, line: Seq<char>) -> Scene {
    Scene { effects: s.effects.push(Effect::Print(line)), ..s }
}

/// A line goes to the log.
pub open spec fn note(s: Scene, e: Entry) -> Scene {
    Scene { log: logged(s.log, e), ..s }
}

/// The glyph decoder takes a bus word; a glyph is printed and logged.
pub open spec fn read_word(s: Scene, u: Setup, word: (u16, bool)) -> Scene {
    let (reading, g) = glyph::fed(s.reading, u.known, word.0, word.1);
    let t = Scene { reading, ..s };
    match g {
        Some(g) => note(say(t, lines::glyph_line(g)), Entry::Msg(lines::glyph_line(g))),
        None => t,
    }
}

/// The glyph decoder takes `n` equal bus words.
pub open spec fn read_run(s: Scene, u: Setup, n: nat, word: (u16, bool)) -> Scene
    decreases n,
{
    if n == 0 {
        s
    } else {
        read_word(read_run(s, u, (n - 1) as nat, word), u, word)
    }
}

/// A transaction is printed, painted and logged; a window it fills may be saved.
pub open spec fn show_frame(s: Scene, u: Setup, tx: bus_decoder::Transaction) -> Scene {
    let said = say(s, lines::tx_text(tx));
    let shown = note(
        Scene { canvas: framebuffer::applied(s.canvas, tx), ..said },
        Entry::Tx(tx),
    );
    match framebuffer::window_write(s.canvas.window, tx) {
        Some(w) => if u.saving && dump::worth_saving(w) && !s.seen.contains(dump::dump_key(w)) {
            Scene {
                seen: s.seen.insert(dump::dump_key(w)),
                effects: shown.effects.push(
                    Effect::Save(
                        dump::Dump {
                            w: w.w,
                            h: w.h,
                            stem: dump::dump_stem(w),
                            rgba: dump::mask_rgba(dump::mask_of(w.pixels)),
                        },
                    ),
                ),
                ..shown
            }
        } else {
            shown
        },
        None => shown,
    }
}

/// The bus decoder takes `n` equal words; a transaction they end is shown.
pub open spec fn frame_run(s: Scene, u: Setup, n: nat, word: (u16, bool)) -> Scene {
    let t = Scene { bus: bus_decoder::after_run(s.bus, n, word.0, word.1), ..s };
    if word.1 || n == 0 {
        t
    } else {
        match s.bus {
            Some(tx) => show_frame(t, u, tx),
            None => t,
        }
    }
}

/// Both decoders take `n` equal words.
pub open spec fn take_run(s: Scene, u: Setup, n: nat, word: (u16, bool)) -> Scene {
    frame_run(read_run(s, u, n, word), u, n, word)
}

/// Both decoders take samples one by one.
pub open spec fn take_samples(s: Scene, u: Setup, samples: Seq<u32>) -> Scene
    decreases samples.len(),
{
    if samples.len() == 0 {
        s
    } else {
        take_run(
            take_samples(s, u, samples.drop_last()),
            u,
            1,
            board::bus_word(u.board, samples.last()),
        )
    }
}

/// Both decoders take the first `n` of some runs, which alternate between two
/// samples.
pub open spec fn take_runs(s: Scene, u: Setup, a: u32, b: u32, run_lens: Seq<u8>, n: nat) -> Scene
    decreases n,
{
    if n == 0 {
        s
    } else {
        take_run(
            take_runs(s, u, a, b, run_lens, (n - 1) as nat),
            u,
            run_lens[n - 1] as nat,
            board::bus_word(
                u.board,
                if (n - 1) % 2 == 0 {
                    a
                } else {
                    b
                },
            ),
        )
    }
}

/// A row that changed is printed, logged and remembered.
pub open spec fn tell_row(s: Scene, r: glyph::Report) -> Scene {
    let line = lines::row_line(r.name, r.value);
    let t = note(say(s, line), Entry::Msg(line));
    Scene { values: t.values.update(r.row, Some(r.value)), ..t }
}

/// Rows that changed are told one after the other.
pub open spec fn tell_rows(s: Scene, reports: Seq<glyph::Report>) -> Scene
    decreases reports.len(),
{
    if reports.len() == 0 {
        s
    } else {
        tell_row(tell_rows(s, reports.drop_last()), reports.last())
    }
}

/// The rows that changed are told, and are settled.
pub open spec fn emit(s: Scene) -> Scene {
    let reading = glyph::Reading { rows: glyph::settled(s.reading.rows), ..s.reading };
    tell_rows(
        Scene { reading, ..s },
        glyph::reports(s.reading.rows, glyph::ROWS_LEN as nat),
    )
}

/// What one event does. Log lines fall between two refreshes of the display, so
/// they are a good moment to tell the rows that changed.
pub open spec fn take_event(s: Scene, u: Setup, e: wire::Event) -> Scene {
    match e {
        wire::Event::Block(samples) => take_samples(
            say(s, lines::block_line(u.board, samples)),
            u,
            samples,
        ),
        wire::Event::Run { n, sample } => take_run(
            say(s, lines::run_line(u.board, n, sample)),
            u,
            n as nat,
            board::bus_word(u.board, sample),
        ),
        wire::Event::Repeat2 { val_a, val_b, run_lens } => take_runs(
            say(s, lines::repeat2_line(u.board, val_a, val_b, run_lens)),
            u,
            val_a,
            val_b,
            run_lens,
            run_lens.len(),
        ),
        wire::Event::Tick { t_us, dt_us, n_drained, n_pending, bytes_out } => say(
            s,
            lines::tick_line(t_us, dt_us, n_drained, n_pending, bytes_out),
        ),
        wire::Event::Overrun { dropped } => note(
            say(s, "! "@ + lines::overrun_line(dropped)),
            Entry::Msg(lines::overrun_line(dropped)),
        ),
        wire::Event::Log(text) => emit(note(say(s, "• "@ + text), Entry::Msg(text))),
        wire::Event::Started => note(s, Entry::Msg("STARTED"@)),
        wire::Event::Stopped => note(s, Entry::Msg("STOPPED"@)),
    }
}

/// What a list of events does.
pub open spec fn take_events(s: Scene, u: Setup, events: Seq<wire::Event>) -> Scene
    decreases events.len(),
{
    if events.len() == 0 {
        s
    } else {
        take_event(take_events(s, u, events.drop_last()), u, events.last())
    }
}

/// The values of optional texts.
pub open spec fn texts(values: Seq<Option<String>>) -> Seq<Option<Seq<char>>> {
    values.map_values(
        |v: Option<String>|
            match v {
                Some(t) => Some(t@),
                None => None,
            },
    )
}

/// The rows in the order of their names.
pub open spec fn by_name() -> Seq<int> {
    seq![2, 4, 0, 3, 1]
}

/// The values of the first `n` rows in the order of their names, where there is
/// one.
pub open spec fn values_upto(values: Seq<Option<Seq<char>>>, n: nat) -> Seq<(Seq<char>, Seq<char>)>
    decreases n,
{
    if n == 0 {
        Seq::empty()
    } else {
        let before = values_upto(values, (n - 1) as nat);
        let row = by_name()[n - 1];
        match values[row] {
            Some(v) => before.push((glyph::row_names()[row], v)),
            None => before,
        }
    }
}

/// The rows that have a value, in the order of their names.
pub open spec fn values_in_order(values: Seq<Option<Seq<char>>>) -> Seq<(Seq<char>, Seq<char>)> {
    values_upto(values, glyph::ROWS_LEN as nat)
}

/// The values of named texts.
pub open spec fn named(list: Seq<(&'static str, String)>) -> Seq<(Seq<char>, Seq<char>)> {
    list.map_values(|p: (&'static str, String)| (p.0@, p.1@))
}

/// The decoders behind a viewer, and what it was set up with.
pub struct Taps {
    wire: wire::Decoder,
    bus: BusDecoder,
    glyphs: Decoder,
    seen: HashSet<u64>,
    board: Board,
    saving: bool,
}

impl Taps {
    /// The transaction in flight.
    pub closed spec fn bus(&self) -> Option<bus_decoder::Transaction> {
        self.bus@
    }

    /// What the glyph decoder knows.
    pub closed spec fn reading(&self) -> glyph::Reading {
        self.glyphs@
    }

    /// The windows that were saved.
    pub closed spec fn seen(&self) -> Set<u64> {
        self.seen@
    }

    /// What does not change.
    pub closed spec fn setup(&self) -> Setup {
        Setup { board: self.board, known: self.glyphs.known(), saving: self.saving }
    }

    /// The bytes that the wire decoder holds.
    pub closed spec fn held(&self) -> Seq<u8> {
        self.wire@
    }

    pub closed spec fn wf(&self) -> bool {
        self.glyphs.wf() && self.wire.wf()
    }
}

/// The viewer's state.
pub struct Viewer {
    pub fb: Framebuffer,
    pub log: VecDeque<LogEntry>,
    /// The last value of each row.
    pub values: Vec<Option<String>>,
    pub taps: Taps,
}

impl Viewer {
    /// What the viewer shows and remembers, beside the actions handed out.
    pub open spec fn scene(&self, actions: Seq<Action>) -> Scene {
        Scene {
            canvas: self.fb.canvas(),
            log: entries(self.log@),
            values: texts(self.values@),
            bus: self.taps.bus(),
            reading: self.taps.reading(),
            seen: self.taps.seen(),
            effects: effects(actions),
        }
    }

    /// What does not change.
    pub open spec fn setup(&self) -> Setup {
        self.taps.setup()
    }

    /// The bytes that the wire decoder holds.
    pub open spec fn held(&self) -> Seq<u8> {
        self.taps.held()
    }

    pub open spec fn wf(&self) -> bool {
        &&& self.fb.wf()
        &&& self.taps.wf()
        &&& self.values@.len() == glyph::ROWS_LEN
        &&& self.log@.len() <= LOG_CAP
    }

    /// Whatever came in, the log holds no more than [`LOG_CAP`] lines, and there
    /// is a value or none for each row.
    pub proof fn law_log_stays_bounded(&self, actions: Seq<Action>)
        requires
            self.wf(),
        ensures
            self.scene(actions).log.len() <= LOG_CAP,
            self.scene(actions).values.len() == glyph::ROWS_LEN,
    {
    }

    /// A viewer of an empty panel.
    pub fn new(board: Board, known: &'static [Template], saving: bool) -> (viewer: Self)
        ensures
            viewer.wf(),
            viewer.setup() == (Setup { board, known: known@, saving }),
            viewer.held() == Seq::<u8>::empty(),
            viewer.scene(Seq::empty()) == (Scene {
                canvas: framebuffer::Canvas {
                    pixels: Seq::new(153600, |i: int| 0u16),
                    window: crate::panel::whole_panel(),
                    cell: (0, 0),
                },
                log: Seq::empty(),
                values: Seq::new(glyph::ROWS_LEN as nat, |i: int| None),
                bus: None,
                reading: glyph::nothing_read(),
                seen: Set::empty(),
                effects: Seq::empty(),
            }),
    {
        let mut values: Vec<Option<String>> = Vec::new();
        let mut i: usize = 0;
        while i < glyph::ROWS_LEN
            invariant
                i <= glyph::ROWS_LEN,
                values@.len() == i,
                forall|j: int| 0 <= j < i ==> (#[trigger] values@[j]) is None,
            decreases glyph::ROWS_LEN - i,
        {
            values.push(None);
            i += 1;
        }
        let viewer = Viewer {
            fb: Framebuffer::new(),
            log: VecDeque::new(),
            values,
            taps: Taps {
                wire: wire::Decoder::new(),
                bus: BusDecoder::new(),
                glyphs: Decoder::new(known),
                seen: HashSet::new(),
                board,
                saving,
            },
        };
        proof {
            let none = Seq::<Action>::empty();
            assert(effects(none) =~= Seq::<Effect>::empty());
            assert(entries(viewer.log@) =~= Seq::<Entry>::empty());
            assert(texts(viewer.values@) =~= Seq::new(
                glyph::ROWS_LEN as nat,
                |i: int| None::<Seq<char>>,
            ));
            assert(viewer.taps.seen@ =~= Set::<u64>::empty());
        }
        viewer
    }

    /// Prints a line.
    fn say_line(&self, line: String, out: &mut Vec<Action>)
        ensures
            self.scene(final(out)@) == say(self.scene(old(out)@), line@),
    {
        let ghost before = out@;
        let action = Action::Print(line);
        out.push(action);
        assert(effects(out@) =~= effects(before).push(action@));
    }

    /// The glyph decoder takes one bus word.
    fn read_sample(&mut self, data: u16, is_data: bool, out: &mut Vec<Action>)
        requires
            old(self).wf(),
        ensures
            final(self).wf(),
            final(self).setup() == old(self).setup(),
            final(self).held() == old(self).held(),
            final(self).scene(final(out)@) == read_word(
                old(self).scene(old(out)@),
                old(self).setup(),
                (data, is_data),
            ),
    {
        if let Some(done) = self.taps.glyphs.feed(data, is_data) {
            if let Some(m) = done.glyph {
                let msg: String = lines::format_glyph(&m);
                self.say_line(msg.clone(), out);
                push_log(&mut self.log, LogEntry::Msg(msg));
            }
        }
    }

    /// Prints, paints and logs a transaction, and saves the window it fills.
    fn handle_frame(&mut self, frame: Frame, out: &mut Vec<Action>)
        requires
            old(self).wf(),
        ensures
            final(self).wf(),
            final(self).setup() == old(self).setup(),
            final(self).held() == old(self).held(),
            final(self).scene(final(out)@) == show_frame(
                old(self).scene(old(out)@),
                old(self).setup(),
                frame@,
            ),
    {
        self.say_line(lines::format_tx(&frame), out);
        let win = self.fb.apply(&frame);
        push_log(&mut self.log, LogEntry::Tx(frame));
        if self.taps.saving {
            if let Some(win) = win {
                proof {
                    let w = win@;
                    assert(w.w >= 8 && w.h >= 8 ==> w.w * w.h > 0) by (nonlinear_arith)
                        requires
                            w.w >= 0,
                            w.h >= 0,
                    ;
                }
                if let Some(d) = dump_window(&win, &mut self.taps.seen) {
                    let ghost before = out@;
                    let action = Action::Save(d);
                    out.push(action);
                    assert(effects(out@) =~= effects(before).push(action@));
                }
            }
        }
    }

    /// Both decoders take `n` equal bus words.
    fn feed_run(&mut self, n: usize, data: u16, is_data: bool, out: &mut Vec<Action>)
        requires
            old(self).wf(),
        ensures
            final(self).wf(),
            final(self).setup() == old(self).setup(),
            final(self).held() == old(self).held(),
            final(self).scene(final(out)@) == take_run(
                old(self).scene(old(out)@),
                old(self).setup(),
                n as nat,
                (data, is_data),
            ),
    {
        let mut i: usize = 0;
        while i < n
            invariant
                i <= n,
                self.wf(),
                self.setup() == old(self).setup(),
                self.held() == old(self).held(),
                self.scene(out@) == read_run(
                    old(self).scene(old(out)@),
                    old(self).setup(),
                    i as nat,
                    (data, is_data),
                ),
            decreases n - i,
        {
            self.read_sample(data, is_data, out);
            i += 1;
        }
        if let Some(tx) = self.taps.bus.feed_run(n, data, is_data) {
            self.handle_frame(tx, out);
        }
    }

    /// Both decoders take one bus word.
    fn feed_sample(&mut self, data: u16, is_data: bool, out: &mut Vec<Action>)
        requires
            old(self).wf(),
        ensures
            final(self).wf(),
            final(self).setup() == old(self).setup(),
            final(self).held() == old(self).held(),
            final(self).scene(final(out)@) == take_run(
                old(self).scene(old(out)@),
                old(self).setup(),
                1,
                (data, is_data),
            ),
    {
        self.read_sample(data, is_data, out);
        proof {
            reveal_with_fuel(read_run, 2);
            reveal_with_fuel(bus_decoder::after_run, 2);
        }
        if let Some(tx) = self.taps.bus.feed(data, is_data) {
            self.handle_frame(tx, out);
        }
    }

    /// Tells the rows that changed.
    pub fn emit_rows(&mut self, out: &mut Vec<Action>)
        requires
            old(self).wf(),
        ensures
            final(self).wf(),
            final(self).setup() == old(self).setup(),
            final(self).held() == old(self).held(),
            final(self).scene(final(out)@) == emit(old(self).scene(old(out)@)),
    {
        let ghost rows = self.taps.glyphs@.rows;
        let reports: Vec<RowReport> = self.taps.glyphs.flush();
        let ghost start = self.scene(out@);
        let ghost all = glyph::report_values(reports@);
        let mut i: usize = 0;
        assert(all.take(0) =~= Seq::<glyph::Report>::empty());
        proof {
            lemma_report_rows(rows, glyph::ROWS_LEN as nat);
        }
        while i < reports.len()
            invariant
                i <= reports.len(),
                self.wf(),
                self.setup() == old(self).setup(),
                self.held() == old(self).held(),
                all == glyph::report_values(reports@),
                forall|j: int|
                    0 <= j < all.len() ==> 0 <= (#[trigger] all[j]).row < glyph::ROWS_LEN,
                self.scene(out@) == tell_rows(start, all.take(i as int)),
            decreases reports.len() - i,
        {
            let r = &reports[i];
            assert(all[i as int] == r@);
            let msg: String = lines::format_row(r.name, r.value.as_str());
            self.say_line(msg.clone(), out);
            push_log(&mut self.log, LogEntry::Msg(msg));
            let ghost before = self.values@;
            self.values.set(r.row, Some(r.value.clone()));
            proof {
                assert(texts(self.values@) =~= texts(before).update(
                    r.row as int,
                    Some(r.value@),
                ));
                assert(all.take(i + 1).drop_last() =~= all.take(i as int));
                assert(all.take(i + 1).last() == r@);
            }
            i += 1;
        }
        assert(all.take(i as int) =~= all);
    }

    /// Takes one event.
    pub fn dispatch_event(&mut self, ev: &WireEvent, out: &mut Vec<Action>)
        requires
            old(self).wf(),
        ensures
            final(self).wf(),
            final(self).setup() == old(self).setup(),
            final(self).held() == old(self).held(),
            final(self).scene(final(out)@) == take_event(
                old(self).scene(old(out)@),
                old(self).setup(),
                ev@,
            ),
    {
        match ev {
            WireEvent::Block(samples) => {
                self.say_line(lines::format_block(self.taps.board, samples), out);
                self.feed_samples(samples, out);
            },
            WireEvent::Run { n, sample } => {
                self.say_line(lines::format_run(self.taps.board, *n, *sample), out);
                let (data, is_data) = self.taps.board.permute(*sample);
                self.feed_run(*n as usize, data, is_data, out);
            },
            WireEvent::Repeat2 { val_a, val_b, run_lens } => {
                self.say_line(lines::format_repeat2(self.taps.board, *val_a, *val_b, run_lens), out);
                self.feed_runs(*val_a, *val_b, run_lens, out);
            },
            WireEvent::Tick { t_us, dt_us, n_drained, n_pending, bytes_out } => {
                self.say_line(
                    lines::format_tick(*t_us, *dt_us, *n_drained, *n_pending, *bytes_out),
                    out,
                );
            },
            WireEvent::Overrun { dropped } => {
                let msg: String = lines::format_overrun(*dropped);
                self.say_line("! ".to_owned().concat(msg.as_str()), out);
                push_log(&mut self.log, LogEntry::Msg(msg));
            },
            WireEvent::Log(text) => {
                self.say_line("• ".to_owned().concat(text.as_str()), out);
                push_log(&mut self.log, LogEntry::Msg(text.clone()));
                self.emit_rows(out);
            },
            WireEvent::Started => {
                push_log(&mut self.log, LogEntry::Msg("STARTED".to_owned()));
            },
            WireEvent::Stopped => {
                push_log(&mut self.log, LogEntry::Msg("STOPPED".to_owned()));
            },
        }
    }

    /// Both decoders take samples one by one.
    fn feed_samples(&mut self, samples: &Vec<u32>, out: &mut Vec<Action>)
        requires
            old(self).wf(),
        ensures
            final(self).wf(),
            final(self).setup() == old(self).setup(),
            final(self).held() == old(self).held(),
            final(self).scene(final(out)@) == take_samples(
                old(self).scene(old(out)@),
                old(self).setup(),
                samples@,
            ),
    {
        let mut i: usize = 0;
        while i < samples.len()
            invariant
                i <= samples.len(),
                self.wf(),
                self.setup() == old(self).setup(),
                self.held() == old(self).held(),
                self.scene(out@) == take_samples(
                    old(self).scene(old(out)@),
                    old(self).setup(),
                    samples@.take(i as int),
                ),
            decreases samples.len() - i,
        {
            let (data, is_data) = self.taps.board.permute(samples[i]);
            self.feed_sample(data, is_data, out);
            assert(samples@.take(i + 1).drop_last() =~= samples@.take(i as int));
            i += 1;
        }
        assert(samples@.take(i as int) =~= samples@);
    }

    /// Both decoders take runs that alternate between two samples.
    fn feed_runs(&mut self, val_a: u32, val_b: u32, run_lens: &Vec<u8>, out: &mut Vec<Action>)
        requires
            old(self).wf(),
        ensures
            final(self).wf(),
            final(self).setup() == old(self).setup(),
            final(self).held() == old(self).held(),
            final(self).scene(final(out)@) == take_runs(
                old(self).scene(old(out)@),
                old(self).setup(),
                val_a,
                val_b,
                run_lens@,
                run_lens@.len(),
            ),
    {
        let mut i: usize = 0;
        while i < run_lens.len()
            invariant
                i <= run_lens.len(),
                self.wf(),
                self.setup() == old(self).setup(),
                self.held() == old(self).held(),
                self.scene(out@) == take_runs(
                    old(self).scene(old(out)@),
                    old(self).setup(),
                    val_a,
                    val_b,
                    run_lens@,
                    i as nat,
                ),
            decreases run_lens.len() - i,
        {
            let (data, is_data) = self.taps.board.permute(
                if i % 2 == 0 {
                    val_a
                } else {
                    val_b
                },
            );
            self.feed_run(run_lens[i] as usize, data, is_data, out);
            i += 1;
        }
    }

    /// The rows that have a value, by name.
    pub fn values_by_name(&self) -> (list: Vec<(&'static str, String)>)
        requires
            self.wf(),
        ensures
            named(list@) == values_in_order(self.scene(Seq::empty()).values),
    {
        let order: [usize; 5] = [2, 4, 0, 3, 1];
        let mut list: Vec<(&'static str, String)> = Vec::new();
        let mut i: usize = 0;
        let ghost values = texts(self.values@);
        assert(named(list@) =~= values_upto(values, 0));
        while i < 5
            invariant
                i <= 5,
                self.wf(),
                order@ == seq![2usize, 4usize, 0usize, 3usize, 1usize],
                values == texts(self.values@),
                values.len() == 5,
                named(list@) == values_upto(values, i as nat),
            decreases 5 - i,
        {
            let row: usize = order[i];
            assert(row == by_name()[i as int]);
            if let Some(v) = &self.values[row] {
                let ghost before = list@;
                let entry = (glyph::row_name(row), v.clone());
                list.push(entry);
                assert(named(list@) =~= named(before).push((entry.0@, entry.1@)));
            }
            i += 1;
        }
        list
    }

    /// Takes bytes off the wire. Fails where the stream lost its framing; what
    /// came before that has been taken.
    pub fn take_bytes(&mut self, input: &[u8], out: &mut Vec<Action>) -> (result: Result<
        (),
        WireError,
    >)
        requires
            old(self).wf(),
        ensures
            final(self).wf(),
            final(self).setup() == old(self).setup(),
            ({
                let o = wire::fed(old(self).held(), input@);
                &&& final(self).held() == o.held
                &&& final(self).scene(final(out)@) == take_events(
                    old(self).scene(old(out)@),
                    old(self).setup(),
                    o.events,
                )
                &&& match o.error {
                    Some(tag) => result == Err::<(), WireError>(WireError::BadTag(tag)),
                    None => result is Ok,
                }
            }),
    {
        let mut events: Vec<WireEvent> = Vec::new();
        let ghost start = self.scene(out@);
        let result = self.taps.wire.feed(input, &mut events);
        let ghost all = wire::views(events@);
        proof {
            assert(wire::views(Seq::empty()) =~= Seq::<wire::Event>::empty());
            assert(all =~= wire::fed(old(self).held(), input@).events);
            assert(self.scene(out@) == start);
            assert(all.take(0) =~= Seq::<wire::Event>::empty());
        }
        let mut i: usize = 0;
        while i < events.len()
            invariant
                i <= events.len(),
                self.wf(),
                self.setup() == old(self).setup(),
                self.held() == wire::fed(old(self).held(), input@).held,
                all == wire::views(events@),
                self.scene(out@) == take_events(start, old(self).setup(), all.take(i as int)),
            decreases events.len() - i,
        {
            self.dispatch_event(&events[i], out);
            assert(all.take(i + 1).drop_last() =~= all.take(i as int));
            i += 1;
        }
        assert(all.take(i as int) =~= all);
        result
    }

    /// Takes what a read came to. A quiet line and the end of the stream are moments
    /// to tell the rows that changed.
    pub fn receive(&mut self, got: &Received, out: &mut Vec<Action>) -> (next: Next)
        requires
            old(self).wf(),
        ensures
            final(self).wf(),
            final(self).setup() == old(self).setup(),
            match *got {
                Received::Bytes(input) => {
                    let o = wire::fed(old(self).held(), input@);
                    &&& final(self).held() == o.held
                    &&& final(self).scene(final(out)@) == take_events(
                        old(self).scene(old(out)@),
                        old(self).setup(),
                        o.events,
                    )
                    &&& next == match o.error {
                        Some(tag) => Next::Lost(tag),
                        None => Next::GoOn,
                    }
                },
                Received::Quiet => {
                    &&& final(self).held() == old(self).held()
                    &&& final(self).scene(final(out)@) == emit(old(self).scene(old(out)@))
                    &&& next == Next::GoOn
                },
                Received::End => {
                    &&& final(self).held() == old(self).held()
                    &&& final(self).scene(final(out)@) == emit(old(self).scene(old(out)@))
                    &&& next == Next::Ended
                },
            },
    {
        match got {
            Received::Bytes(input) => match self.take_bytes(input.as_slice(), out) {
                Ok(()) => Next::GoOn,
                Err(WireError::BadTag(tag)) => Next::Lost(tag),
            },
            Received::Quiet => {
                self.emit_rows(out);
                Next::GoOn
            },
            Received::End => {
                self.emit_rows(out);
                Next::Ended
            },
        }
    }
}

/// Reports are of rows that there are.
proof fn lemma_report_rows(rows: Seq<glyph::Row>, n: nat)
    ensures
        forall|j: int|
            0 <= j < glyph::reports(rows, n).len() ==> 0 <= (#[trigger] glyph::reports(
                rows,
                n,
            )[j]).row < n,
    decreases n,
{
    if n > 0 {
        lemma_report_rows(rows, (n - 1) as nat);
        let before = glyph::reports(rows, (n - 1) as nat);
        assert forall|j: int| 0 <= j < glyph::reports(rows, n).len() implies 0 <= (
        #[trigger] glyph::reports(rows, n)[j]).row < n by {
            if j < before.len() {
                assert(glyph::reports(rows, n)[j] == before[j]);
            }
        }
    }
}

proof fn lemma_read_run(s: Scene, u: Setup, n: nat, sample: u32)
    ensures
        ({
            let t = read_run(s, u, n, board::bus_word(u.board, sample));
            &&& t.reading == pipeline::read_samples(
                s.reading,
                u.known,
                u.board,
                stream::repeated(n, sample),
            )
            &&& t.bus == s.bus
            &&& t.canvas == s.canvas
            &&& t.values == s.values
            &&& t.seen == s.seen
        }),
    decreases n,
{
    let all = stream::repeated(n, sample);
    if n > 0 {
        lemma_read_run(s, u, (n - 1) as nat, sample);
        assert(all.drop_last() =~= stream::repeated((n - 1) as nat, sample));
    }
}

proof fn lemma_take_run(s: Scene, u: Setup, n: nat, sample: u32)
    ensures
        take_run(s, u, n, board::bus_word(u.board, sample)).reading == pipeline::read_samples(
            s.reading,
            u.known,
            u.board,
            stream::repeated(n, sample),
        ),
        take_run(s, u, n, board::bus_word(u.board, sample)).values == s.values,
{
    lemma_read_run(s, u, n, sample);
}

proof fn lemma_take_samples(s: Scene, u: Setup, samples: Seq<u32>)
    ensures
        take_samples(s, u, samples).reading == pipeline::read_samples(
            s.reading,
            u.known,
            u.board,
            samples,
        ),
        take_samples(s, u, samples).values == s.values,
    decreases samples.len(),
{
    if samples.len() > 0 {
        let before = samples.drop_last();
        lemma_take_samples(s, u, before);
        lemma_take_run(take_samples(s, u, before), u, 1, samples.last());
        assert(stream::repeated(1, samples.last()) =~= seq![samples.last()]);
        pipeline::law_reads_join(s.reading, u.known, u.board, before, seq![samples.last()]);
        assert(before + seq![samples.last()] =~= samples);
    }
}

proof fn lemma_take_runs(s: Scene, u: Setup, a: u32, b: u32, run_lens: Seq<u8>, n: nat)
    requires
        n <= run_lens.len(),
    ensures
        take_runs(s, u, a, b, run_lens, n).reading == pipeline::read_samples(
            s.reading,
            u.known,
            u.board,
            stream::alternating(a, b, run_lens.take(n as int)),
        ),
        take_runs(s, u, a, b, run_lens, n).values == s.values,
    decreases n,
{
    let lens = run_lens.take(n as int);
    if n == 0 {
        assert(stream::alternating(a, b, lens) =~= Seq::<u32>::empty());
    } else {
        let before = run_lens.take(n - 1);
        let sample = if (n - 1) % 2 == 0 {
            a
        } else {
            b
        };
        let more = stream::repeated(run_lens[n - 1] as nat, sample);
        lemma_take_runs(s, u, a, b, run_lens, (n - 1) as nat);
        lemma_take_run(
            take_runs(s, u, a, b, run_lens, (n - 1) as nat),
            u,
            run_lens[n - 1] as nat,
            sample,
        );
        lossless::lemma_alternating_push(a, b, before, run_lens[n - 1]);
        assert(before.push(run_lens[n - 1]) =~= lens);
        pipeline::law_reads_join(
            s.reading,
            u.known,
            u.board,
            stream::alternating(a, b, before),
            more,
        );
    }
}

/// The viewer reads what the gateway reads: whatever event carries them, the glyph
/// decoder takes every sample, in order. A log line tells the rows and changes no
/// glyph, and no other event touches them.
pub proof fn law_the_viewer_reads_every_sample(s: Scene, u: Setup, e: wire::Event)
    ensures
        !(e is Log) ==> take_event(s, u, e).reading == pipeline::read_samples(
            s.reading,
            u.known,
            u.board,
            pipeline::event_samples(e),
        ),
        !(e is Log) ==> take_event(s, u, e).values == s.values,
        e is Log ==> take_event(s, u, e).reading == (glyph::Reading {
            rows: glyph::settled(s.reading.rows),
            ..s.reading
        }),
{
    let nothing = Seq::<u32>::empty();
    assert(pipeline::read_samples(s.reading, u.known, u.board, nothing) == s.reading);
    match e {
        wire::Event::Block(samples) => {
            lemma_take_samples(say(s, lines::block_line(u.board, samples)), u, samples);
        },
        wire::Event::Run { n, sample } => {
            lemma_take_run(say(s, lines::run_line(u.board, n, sample)), u, n as nat, sample);
        },
        wire::Event::Repeat2 { val_a, val_b, run_lens } => {
            lemma_take_runs(
                say(s, lines::repeat2_line(u.board, val_a, val_b, run_lens)),
                u,
                val_a,
                val_b,
                run_lens,
                run_lens.len(),
            );
            assert(run_lens.take(run_lens.len() as int) =~= run_lens);
        },
        wire::Event::Log(text) => {
            let t = note(say(s, "• "@ + text), Entry::Msg(text));
            lemma_tell_rows(
                Scene {
                    reading: glyph::Reading {
                        rows: glyph::settled(t.reading.rows),
                        ..t.reading
                    },
                    ..t
                },
                glyph::reports(t.reading.rows, glyph::ROWS_LEN as nat),
            );
        },
        _ => {},
    }
}

proof fn lemma_tell_rows(s: Scene, reports: Seq<glyph::Report>)
    ensures
        ({
            let t = tell_rows(s, reports);
            &&& t.reading == s.reading
            &&& t.canvas == s.canvas
            &&& t.bus == s.bus
            &&& t.seen == s.seen
            &&& t.effects.len() == s.effects.len() + reports.len()
            &&& forall|k: int| 0 <= k < s.effects.len() ==> #[trigger] t.effects[k] == s.effects[k]
            &&& forall|k: int|
                0 <= k < reports.len() ==> #[trigger] t.effects[s.effects.len() + k]
                    == Effect::Print(lines::row_line(reports[k].name, reports[k].value))
        }),
    decreases reports.len(),
{
    if reports.len() > 0 {
        let before = reports.drop_last();
        lemma_tell_rows(s, before);
        let was = tell_rows(s, before);
        let now = tell_rows(s, reports);
        assert forall|k: int| 0 <= k < s.effects.len() implies #[trigger] now.effects[k]
            == s.effects[k] by {
            assert(now.effects[k] == was.effects[k]);
        }
        assert forall|k: int| 0 <= k < reports.len() implies #[trigger] now.effects[s.effects.len()
            + k] == Effect::Print(lines::row_line(reports[k].name, reports[k].value)) by {
            if k < before.len() {
                assert(now.effects[s.effects.len() + k] == was.effects[s.effects.len() + k]);
                assert(before[k] == reports[k]);
            }
        }
    }
}

proof fn lemma_told_values(s: Scene, reports: Seq<glyph::Report>, i: int)
    requires
        0 <= i < s.values.len(),
        forall|k: int| 0 <= k < reports.len() ==> 0 <= (#[trigger] reports[k]).row < s.values.len(),
        forall|k: int, l: int|
            0 <= k < l < reports.len() ==> (#[trigger] reports[k]).row < (#[trigger] reports[l]).row,
    ensures
        tell_rows(s, reports).values.len() == s.values.len(),
        forall|k: int|
            0 <= k < reports.len() && (#[trigger] reports[k]).row == i ==> tell_rows(
                s,
                reports,
            ).values[i] == Some(reports[k].value),
        (forall|k: int| 0 <= k < reports.len() ==> (#[trigger] reports[k]).row != i) ==> tell_rows(
            s,
            reports,
        ).values[i] == s.values[i],
    decreases reports.len(),
{
    if reports.len() > 0 {
        let before = reports.drop_last();
        assert(forall|k: int| 0 <= k < before.len() ==> before[k] == #[trigger] reports[k]);
        assert forall|k: int| 0 <= k < before.len() implies 0 <= (#[trigger] before[k]).row
            < s.values.len() by {
            assert(before[k] == reports[k]);
        }
        assert forall|k: int, l: int| 0 <= k < l < before.len() implies (#[trigger] before[k]).row
            < (#[trigger] before[l]).row by {
            assert(before[k] == reports[k] && before[l] == reports[l]);
        }
        lemma_told_values(s, before, i);
        let last = reports.len() - 1;
        assert(0 <= reports[last].row < s.values.len());
        assert forall|k: int| 0 <= k < reports.len() && (#[trigger] reports[k]).row
            == i implies tell_rows(s, reports).values[i] == Some(reports[k].value) by {
            if k < last {
                assert(before[k] == reports[k]);
                assert(reports[k].row < reports[last].row);
            }
        }
    }
}

/// What the viewer shows of a row is what the row says, once it was told: a row that
/// changed shows its text, and every other keeps what it showed. Nothing is painted
/// or saved, and one line is printed for each row that changed.
pub proof fn law_told_rows_show_their_text(s: Scene, i: int)
    requires
        s.values.len() == glyph::ROWS_LEN,
        s.reading.rows.len() == glyph::ROWS_LEN,
        0 <= i < glyph::ROWS_LEN,
    ensures
        ({
            let t = emit(s);
            let row = s.reading.rows[i];
            &&& row.dirty ==> t.values[i] is Some && t.values[i]->0.len() == row.digits.len()
                && forall|j: int|
                0 <= j < row.digits.len() ==> #[trigger] t.values[i]->0[j] == glyph::shown(
                    row.digits[j].1,
                )
            &&& !row.dirty ==> t.values[i] == s.values[i]
            &&& t.canvas == s.canvas
            &&& t.bus == s.bus
            &&& t.seen == s.seen
            &&& t.effects.len() == s.effects.len() + glyph::reports(
                s.reading.rows,
                glyph::ROWS_LEN as nat,
            ).len()
        }),
{
    let rows = s.reading.rows;
    let told = glyph::reports(rows, glyph::ROWS_LEN as nat);
    let quiet = Scene {
        reading: glyph::Reading { rows: glyph::settled(rows), ..s.reading },
        ..s
    };
    glyph::law_every_change_is_told_once(rows, i);
    lemma_tell_rows(quiet, told);
    lemma_told_values(quiet, told, i);
    if rows[i].dirty {
        let k = choose|k: int| 0 <= k < told.len() && (#[trigger] told[k]).row == i;
        assert(emit(s).values[i] == Some(told[k].value));
    }
}

/// The picture follows the bus: a data word joins the transaction in flight and paints
/// nothing yet; a command word paints the transaction before it and starts another.
pub proof fn law_the_picture_follows_the_bus(s: Scene, u: Setup, n: nat, sample: u32)
    requires
        n > 0,
    ensures
        ({
            let (word, is_data) = board::bus_word(u.board, sample);
            let t = take_run(s, u, n, (word, is_data));
            &&& t.bus == bus_decoder::after_run(s.bus, n, word, is_data)
            &&& t.canvas == if !is_data && s.bus is Some {
                framebuffer::applied(s.canvas, s.bus->0)
            } else {
                s.canvas
            }
        }),
{
    lemma_read_run(s, u, n, sample);
}

/// The picture and the transaction in flight after a BLOCK are those of its bus words,
/// taken one by one: every transaction that they end is applied, in order.
pub proof fn law_blocks_are_taken_word_by_word(s: Scene, u: Setup, samples: Seq<u32>)
    ensures
        ({
            let (bus, done) = bus_decoder::taken(
                s.bus,
                samples.map_values(|x: u32| board::bus_word(u.board, x)),
            );
            let t = take_samples(s, u, samples);
            &&& t.bus == bus
            &&& t.canvas == applied_all(s.canvas, done)
        }),
    decreases samples.len(),
{
    let words = samples.map_values(|x: u32| board::bus_word(u.board, x));
    if samples.len() > 0 {
        let before = samples.drop_last();
        law_blocks_are_taken_word_by_word(s, u, before);
        law_the_picture_follows_the_bus(take_samples(s, u, before), u, 1, samples.last());
        assert(words.drop_last() =~= before.map_values(|x: u32| board::bus_word(u.board, x)));
        let (now, done) = bus_decoder::taken(s.bus, words.drop_last());
        let (word, is_data) = words.last();
        assert(bus_decoder::after_run(now, 1, word, is_data) == bus_decoder::after(
            now,
            word,
            is_data,
        )) by {
            assert(bus_decoder::after_run(now, 0, word, is_data) == now);
        }
        if !is_data && now is Some {
            assert(done.push(now->0).drop_last() =~= done);
        }
    }
}

/// A canvas after transactions, one after the other.
pub open spec fn applied_all(
    c: framebuffer::Canvas,
    done: Seq<bus_decoder::Transaction>,
) -> framebuffer::Canvas
    decreases done.len(),
{
    if done.len() == 0 {
        c
    } else {
        framebuffer::applied(applied_all(c, done.drop_last()), done.last())
    }
}

/// The log holds the newest lines, in order: with one more it loses its oldest if it
/// held 128, and no other.
pub proof fn law_the_log_holds_the_newest(log: Seq<Entry>, e: Entry, k: int)
    requires
        log.len() <= 128,
        0 <= k < logged(log, e).len(),
    ensures
        logged(log, e).len() == if log.len() == 128 {
            128
        } else {
            log.len() + 1
        },
        logged(log, e)[k] == log.push(e)[k + log.len() + 1 - logged(log, e).len()],
{
}

/// A window is saved if and only if windows are saved at all, a write fills it, it is
/// large enough and it is a new one; a transaction is printed and logged either way.
pub proof fn law_new_windows_are_saved(s: Scene, u: Setup, tx: bus_decoder::Transaction)
    ensures
        ({
            let t = show_frame(s, u, tx);
            let w = framebuffer::window_write(s.canvas.window, tx);
            let saves = u.saving && w is Some && dump::worth_saving(w->0) && !s.seen.contains(
                dump::dump_key(w->0),
            );
            &&& t.effects[s.effects.len() as int] == Effect::Print(lines::tx_text(tx))
            &&& t.log.last() == Entry::Tx(tx)
            &&& t.effects.len() == s.effects.len() + if saves {
                2int
            } else {
                1int
            }
            &&& saves ==> t.effects.last() is Save && t.effects.last()->Save_0.w == w->0.w
                && t.effects.last()->Save_0.h == w->0.h && t.seen.contains(dump::dump_key(w->0))
            &&& !saves ==> t.seen == s.seen
        }),
{
}

/// The values are listed by the names of their rows, in alphabetical order, and only
/// those that there are.
pub proof fn law_values_are_listed_by_name(values: Seq<Option<Seq<char>>>)
    requires
        values.len() == glyph::ROWS_LEN,
    ensures
        ({
            let one = |n: Seq<char>, v: Option<Seq<char>>|
                if v is Some {
                    seq![(n, v->0)]
                } else {
                    Seq::empty()
                };
            values_in_order(values) == one("co2"@, values[2]) + one("humidity"@, values[4]) + one(
                "pm25"@,
                values[0],
            ) + one("temp"@, values[3]) + one("tvoc"@, values[1])
        }),
{
    reveal_with_fuel(values_upto, 6);
    let one = |n: Seq<char>, v: Option<Seq<char>>|
        if v is Some {
            seq![(n, v->0)]
        } else {
            Seq::empty()
        };
    assert(values_in_order(values) =~= one("co2"@, values[2]) + one("humidity"@, values[4]) + one(
        "pm25"@,
        values[0],
    ) + one("temp"@, values[3]) + one("tvoc"@, values[1]));
}

/// What an event that carries no samples shows: a tick is printed and nothing else; a loss
/// is printed behind an exclamation mark and logged; an acknowledgement is logged only.
/// None of them changes the picture, the rows or the values.
pub proof fn law_telemetry_is_shown(
    s: Scene,
    u: Setup,
    t: (u32, u16, u16, u16, u32),
    dropped: u32,
)
    ensures
        ({
            let tick = take_event(
                s,
                u,
                wire::Event::Tick {
                    t_us: t.0,
                    dt_us: t.1,
                    n_drained: t.2,
                    n_pending: t.3,
                    bytes_out: t.4,
                },
            );
            let line = Effect::Print(lines::tick_line(t.0, t.1, t.2, t.3, t.4));
            &&& tick.effects == s.effects.push(line)
            &&& tick.log == s.log
            &&& tick.canvas == s.canvas && tick.values == s.values && tick.reading == s.reading
                && tick.bus == s.bus
        }),
        ({
            let lost = take_event(s, u, wire::Event::Overrun { dropped });
            let line = lines::overrun_line(dropped);
            &&& lost.effects == s.effects.push(Effect::Print("! "@ + line))
            &&& lost.log.last() == Entry::Msg(line)
            &&& lost.canvas == s.canvas && lost.values == s.values && lost.reading == s.reading
                && lost.bus == s.bus
        }),
        ({
            let a = take_event(s, u, wire::Event::Started);
            let b = take_event(s, u, wire::Event::Stopped);
            &&& a.effects == s.effects && b.effects == s.effects
            &&& a.log.last() == Entry::Msg("STARTED"@) && b.log.last() == Entry::Msg("STOPPED"@)
            &&& a.canvas == s.canvas && a.values == s.values && a.reading == s.reading && a.bus
                == s.bus
            &&& b.canvas == s.canvas && b.values == s.values && b.reading == s.reading && b.bus
                == s.bus
        }),
{
}

/// A board's line is printed behind a bullet, before the rows that changed are told.
pub proof fn law_lines_come_before_the_rows(s: Scene, u: Setup, text: Seq<char>)
    requires
        s.values.len() == glyph::ROWS_LEN,
        s.reading.rows.len() == glyph::ROWS_LEN,
    ensures
        ({
            let t = take_event(s, u, wire::Event::Log(text));
            let n = glyph::reports(s.reading.rows, glyph::ROWS_LEN as nat).len();
            &&& t.effects.len() == s.effects.len() + 1 + n
            &&& t.canvas == s.canvas && t.bus == s.bus
        }),
        take_event(s, u, wire::Event::Log(text)) == emit(
            Scene {
                effects: s.effects.push(Effect::Print("• "@ + text)),
                log: logged(s.log, Entry::Msg(text)),
                ..s
            },
        ),
{
    let noted = note(say(s, "• "@ + text), Entry::Msg(text));
    law_told_rows_show_their_text(noted, 0);
}

/// What calls of [`Viewer::receive`] do in two quiet moments: the first tells the rows that
/// changed, and the second tells nothing more.
pub proof fn law_a_second_quiet_moment_tells_nothing(
    v: &mut Viewer,
    got: &Received,
    out: &mut Vec<Action>,
    next: Next,
    w: &mut Viewer,
    out_then: &mut Vec<Action>,
    next_then: Next,
    i: int,
)
    requires
        old(v).wf(),
        *got is Quiet,
        old(v).scene(old(out)@).values.len() == 5,
        old(v).scene(old(out)@).reading.rows.len() == 5,
        call_ensures(Viewer::receive, (v, got, out), next),
        *old(w) == *final(v),
        *old(out_then) == *final(out),
        call_ensures(Viewer::receive, (w, got, out_then), next_then),
        0 <= i < 5,
    ensures
        next == Next::GoOn,
        ({
            let before = old(v).scene(old(out)@);
            let after = final(v).scene(final(out)@);
            let row = before.reading.rows[i];
            &&& row.dirty ==> after.values[i] is Some && after.values[i]->0
                == glyph::row_text(row)
            &&& !row.dirty ==> after.values[i] == before.values[i]
            &&& after.canvas == before.canvas
            &&& final(w).scene(final(out_then)@).effects.len() == after.effects.len()
        }),
{
    let before = old(v).scene(old(out)@);
    let after = final(v).scene(final(out)@);
    law_told_rows_show_their_text(before, i);
    let row = before.reading.rows[i];
    if row.dirty {
        assert(after.values[i]->0 =~= glyph::row_text(row));
    }
    assert(after == emit(before));
    let reports = glyph::reports(before.reading.rows, glyph::ROWS_LEN as nat);
    lemma_report_rows(before.reading.rows, glyph::ROWS_LEN as nat);
    let settled = glyph::Reading {
        rows: glyph::settled(before.reading.rows),
        ..before.reading
    };
    lemma_told_scene(Scene { reading: settled, ..before }, reports);
    glyph::law_told_rows_are_quiet(before.reading.rows, 0);
    law_told_rows_show_their_text(after, 0);
}

/// Telling rows reads nothing, and there is a place for each row's value.
proof fn lemma_told_scene(s: Scene, reports: Seq<glyph::Report>)
    requires
        s.values.len() == glyph::ROWS_LEN,
        forall|k: int|
            0 <= k < reports.len() ==> 0 <= (#[trigger] reports[k]).row < glyph::ROWS_LEN,
    ensures
        tell_rows(s, reports).reading == s.reading,
        tell_rows(s, reports).values.len() == glyph::ROWS_LEN,
    decreases reports.len(),
{
    if reports.len() > 0 {
        let before = reports.drop_last();
        assert forall|k: int| 0 <= k < before.len() implies 0 <= (#[trigger] before[k]).row
            < glyph::ROWS_LEN by {
            assert(before[k] == reports[k]);
        }
        lemma_told_scene(s, before);
        assert(reports.last() == reports[reports.len() - 1]);
    }
}

/// A glyph that the bus words complete is printed and logged in the same words, and a word
/// that completes none shows nothing.
pub proof fn law_a_glyph_is_shown(s: Scene, u: Setup, word: (u16, bool))
    ensures
        ({
            let (reading, g) = glyph::fed(s.reading, u.known, word.0, word.1);
            let t = read_word(s, u, word);
            &&& t.reading == reading
            &&& g is None ==> t.effects == s.effects && t.log == s.log
            &&& g matches Some(shape) ==> t.effects == s.effects.push(
                Effect::Print(lines::glyph_line(shape)),
            ) && t.log.last() == Entry::Msg(lines::glyph_line(shape))
            &&& t.canvas == s.canvas && t.values == s.values && t.bus == s.bus
        }),
{
}

/// Runs that alternate are taken one after the other: the even ones of the first sample,
/// the odd ones of the second, each as long as its length says.
pub proof fn law_alternations_are_taken_run_by_run(
    s: Scene,
    u: Setup,
    a: u32,
    b: u32,
    run_lens: Seq<u8>,
    n: nat,
)
    requires
        n < run_lens.len(),
    ensures
        take_runs(s, u, a, b, run_lens, 0) == s,
        n % 2 == 0 ==> take_runs(s, u, a, b, run_lens, n + 1) == take_run(
            take_runs(s, u, a, b, run_lens, n),
            u,
            run_lens[n as int] as nat,
            board::bus_word(u.board, a),
        ),
        n % 2 == 1 ==> take_runs(s, u, a, b, run_lens, n + 1) == take_run(
            take_runs(s, u, a, b, run_lens, n),
            u,
            run_lens[n as int] as nat,
            board::bus_word(u.board, b),
        ),
{
}

/// An event with samples is printed in one line, before what its samples show.
pub proof fn law_samples_are_announced(
    s: Scene,
    u: Setup,
    samples: Seq<u32>,
    n: u16,
    sample: u32,
    other: u32,
    run_lens: Seq<u8>,
)
    ensures
        take_event(s, u, wire::Event::Block(samples)) == take_samples(
            Scene {
                effects: s.effects.push(Effect::Print(lines::block_line(u.board, samples))),
                ..s
            },
            u,
            samples,
        ),
        take_event(s, u, wire::Event::Run { n, sample }) == take_run(
            Scene {
                effects: s.effects.push(Effect::Print(lines::run_line(u.board, n, sample))),
                ..s
            },
            u,
            n as nat,
            board::bus_word(u.board, sample),
        ),
        take_event(s, u, wire::Event::Repeat2 { val_a: sample, val_b: other, run_lens })
            == take_runs(
            Scene {
                effects: s.effects.push(
                    Effect::Print(lines::repeat2_line(u.board, sample, other, run_lens)),
                ),
                ..s
            },
            u,
            sample,
            other,
            run_lens,
            run_lens.len(),
        ),
{
}

} // verus!
