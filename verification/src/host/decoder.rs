//! Glyph decoder: windows drawn on the panel to sensor values.
//!
//! It works on the bus words themselves, does its own framing, and hashes the
//! pixels of a window as they come; a window that fills up is looked up among
//! known glyphs. Glyphs go to fixed rows of the display, ordered by where they
//! stand. The caller asks for the rows that changed when the bus falls idle.

use vstd::prelude::*;

use crate::host::templates;
use crate::host::templates::{ShapeHasher, Template};
use crate::panel;
use crate::panel::{Cmd, Window};
use crate::text;

verus! {

/// Rows of the display.
pub const ROWS_LEN: usize = 5;

/// Most glyphs in one row.
pub const MAX_DIGITS_PER_ROW: usize = 8;

/// Names of the rows.
pub open spec fn row_names() -> Seq<Seq<char>> {
    seq!["pm25"@, "tvoc"@, "co2"@, "temp"@, "humidity"@]
}

/// A rectangle of the display, from its first column and row to before its last
/// ones.
#[derive(Copy, Clone, Debug, PartialEq, Eq, Structural)]
pub struct Region {
    pub x_min: u16,
    pub x_max: u16,
    pub y_min: u16,
    pub y_max: u16,
}

/// Where each row shows.
pub open spec fn regions() -> Seq<Region> {
    seq![
        Region { x_min: 80, x_max: 230, y_min: 50, y_max: 130 },
        Region { x_min: 80, x_max: 230, y_min: 195, y_max: 280 },
        Region { x_min: 90, x_max: 245, y_min: 350, y_max: 405 },
        Region { x_min: 0, x_max: 100, y_min: 425, y_max: 475 },
        Region { x_min: 200, x_max: 320, y_min: 425, y_max: 475 },
    ]
}

/// Whether a glyph whose top left corner is at `(x, y)` belongs to a row.
pub open spec fn in_row(row: int, x: u16, y: u16) -> bool {
    let r = regions()[row];
    0 <= row < ROWS_LEN && r.x_min <= x < r.x_max && r.y_min <= y < r.y_max
}

/// The row that a position belongs to.
pub open spec fn row_at(x: u16, y: u16) -> Option<int> {
    if in_row(0, x, y) {
        Some(0int)
    } else if in_row(1, x, y) {
        Some(1int)
    } else if in_row(2, x, y) {
        Some(2int)
    } else if in_row(3, x, y) {
        Some(3int)
    } else if in_row(4, x, y) {
        Some(4int)
    } else {
        None
    }
}

/// No position belongs to two rows.
pub proof fn law_rows_do_not_overlap(a: int, b: int, x: u16, y: u16)
    requires
        in_row(a, x, y),
        in_row(b, x, y),
    ensures
        a == b,
        row_at(x, y) == Some(a),
{
}

/// Where a row shows.
fn region_of(row: usize) -> (region: Region)
    requires
        row < ROWS_LEN,
    ensures
        region == regions()[row as int],
{
    if row == 0 {
        // PM2.5, the large panel at the top.
        Region { x_min: 80, x_max: 230, y_min: 50, y_max: 130 }
    } else if row == 1 {
        // TVOC, the second large panel.
        Region { x_min: 80, x_max: 230, y_min: 195, y_max: 280 }
    } else if row == 2 {
        // CO2.
        Region { x_min: 90, x_max: 245, y_min: 350, y_max: 405 }
    } else if row == 3 {
        // Temperature, bottom left.
        Region { x_min: 0, x_max: 100, y_min: 425, y_max: 475 }
    } else {
        // Humidity, bottom right.
        Region { x_min: 200, x_max: 320, y_min: 425, y_max: 475 }
    }
}

/// The row that a position belongs to.
fn row_for(x: u16, y: u16) -> (row: Option<usize>)
    ensures
        match row {
            Some(i) => i < ROWS_LEN && row_at(x, y) == Some(i as int),
            None => row_at(x, y) is None,
        },
{
    let mut i: usize = 0;
    while i < ROWS_LEN
        invariant
            i <= ROWS_LEN,
            forall|j: int| 0 <= j < i ==> !#[trigger] in_row(j, x, y),
        decreases ROWS_LEN - i,
    {
        let r = region_of(i);
        if r.x_min <= x && x < r.x_max && r.y_min <= y && y < r.y_max {
            assert(in_row(i as int, x, y));
            return Some(i);
        }
        i += 1;
    }
    None
}

/// The name of a row.
pub fn row_name(i: usize) -> (name: &'static str)
    requires
        i < ROWS_LEN,
    ensures
        name@ == row_names()[i as int],
{
    if i == 0 {
        "pm25"
    } else if i == 1 {
        "tvoc"
    } else if i == 2 {
        "co2"
    } else if i == 3 {
        "temp"
    } else {
        "humidity"
    }
}

/// The character that a label shows as.
pub open spec fn shown(label: Seq<char>) -> char {
    if label == "blank"@ {
        ' '
    } else if label == "dot"@ {
        '.'
    } else if label.len() == 0 {
        '?'
    } else {
        label[0]
    }
}

/// The character that a label shows as.
pub fn short_label(label: &str) -> (c: char)
    ensures
        c == shown(label@),
{
    if text::same_text(label, "blank") {
        ' '
    } else if text::same_text(label, "dot") {
        '.'
    } else if label.is_empty() {
        '?'
    } else {
        label.get_char(0)
    }
}

/// A window that is being drawn, with the pixels so far.
pub struct Drawing {
    pub x: u16,
    pub y: u16,
    pub w: u16,
    pub h: u16,
    pub pixels: Seq<u16>,
}

/// How many pixels fill a window; the count is kept in 32 bits.
pub open spec fn area(w: u16, h: u16) -> nat {
    if w * h == 0 {
        0x1_0000_0000
    } else {
        (w * h) as nat
    }
}

/// A window that is being drawn.
struct PendingWindow {
    x: u16,
    y: u16,
    w: u16,
    h: u16,
    /// The first pixel.
    bg: u16,
    /// The shape so far, where `pixel_count > 0`.
    shape: ShapeHasher,
    pixel_count: u32,
    pixels: Ghost<Seq<u16>>,
}

impl View for PendingWindow {
    type V = Drawing;

    closed spec fn view(&self) -> Drawing {
        Drawing { x: self.x, y: self.y, w: self.w, h: self.h, pixels: self.pixels@ }
    }
}

impl PendingWindow {
    spec fn wf(&self) -> bool {
        let n = self.pixels@.len();
        &&& n < area(self.w, self.h)
        &&& self.pixel_count == n
        &&& n > 0 ==> self.bg == self.pixels@[0] && self.shape.wf() && self.shape@
            == templates::unlike_first(self.pixels@)
    }

    fn new(x: u16, y: u16, w: u16, h: u16) -> (win: Self)
        ensures
            win.wf(),
            win@ == (Drawing { x, y, w, h, pixels: Seq::empty() }),
    {
        PendingWindow {
            x,
            y,
            w,
            h,
            bg: 0,
            shape: ShapeHasher::start(),
            pixel_count: 0,
            pixels: Ghost(Seq::empty()),
        }
    }

    /// Takes one pixel. Returns the hash of the shape once the window is full.
    fn push_pixel(&mut self, pixel: u16) -> (done: Option<u64>)
        requires
            old(self).wf(),
        ensures
            final(self)@ == (Drawing { pixels: old(self)@.pixels.push(pixel), ..old(self)@ }),
            match done {
                Some(hash) => final(self)@.pixels.len() == area(old(self)@.w, old(self)@.h) && hash
                    == templates::shape_hash(templates::unlike_first(final(self)@.pixels)),
                None => final(self)@.pixels.len() != area(old(self)@.w, old(self)@.h)
                    && final(self).wf(),
            },
    {
        let ghost before = self.pixels@;
        if self.pixel_count == 0 {
            self.bg = pixel;
            self.shape = ShapeHasher::start();
        } else {
            self.shape.extend(pixel != self.bg);
        }
        self.pixels = Ghost(before.push(pixel));
        assert(self.shape@ =~= templates::unlike_first(before.push(pixel)));
        self.pixel_count = self.pixel_count.wrapping_add(1);
        let w: u16 = self.w;
        let h: u16 = self.h;
        assert(0 <= w * h <= 65535 * 65535) by (nonlinear_arith)
            requires
                w <= 65535,
                h <= 65535,
        ;
        let total: u32 = w as u32 * h as u32;
        if self.pixel_count == total {
            Some(self.shape.finish())
        } else {
            None
        }
    }
}

/// One row: its glyphs, each with where it stands and its label, and whether it
/// changed.
pub struct Row {
    pub digits: Seq<(u16, Seq<char>)>,
    pub dirty: bool,
}

/// How many glyphs stand left of `x`, up to the first that does not.
pub open spec fn left_of(digits: Seq<(u16, Seq<char>)>, x: u16) -> nat
    decreases digits.len(),
{
    if digits.len() == 0 || digits[0].0 >= x {
        0
    } else {
        1 + left_of(digits.skip(1), x)
    }
}

/// The glyphs after one is drawn at `x`: it takes the place of one that stood
/// there, else it goes where it stands, unless the row is full.
pub open spec fn drawn(digits: Seq<(u16, Seq<char>)>, x: u16, label: Seq<char>) -> Seq<
    (u16, Seq<char>),
> {
    let i = left_of(digits, x) as int;
    if i < digits.len() && digits[i].0 == x {
        digits.update(i, (x, label))
    } else if digits.len() < MAX_DIGITS_PER_ROW {
        digits.insert(i, (x, label))
    } else {
        digits
    }
}

/// Glyphs stand from left to right, no two in one place, and fit the row.
pub open spec fn ordered(digits: Seq<(u16, Seq<char>)>) -> bool {
    &&& digits.len() <= MAX_DIGITS_PER_ROW
    &&& forall|i: int, j: int|
        0 <= i < j < digits.len() ==> (#[trigger] digits[i]).0 < (#[trigger] digits[j]).0
}

/// The text of a row.
pub open spec fn row_text(row: Row) -> Seq<char> {
    row.digits.map_values(|d: (u16, Seq<char>)| shown(d.1))
}

struct RowState {
    digits: Vec<(u16, &'static str)>,
    dirty: bool,
}

/// Glyphs with their labels as values.
pub open spec fn labelled(digits: Seq<(u16, &'static str)>) -> Seq<(u16, Seq<char>)> {
    digits.map_values(|d: (u16, &'static str)| (d.0, d.1@))
}

impl View for RowState {
    type V = Row;

    closed spec fn view(&self) -> Row {
        Row { digits: labelled(self.digits@), dirty: self.dirty }
    }
}

proof fn lemma_left_of(digits: Seq<(u16, Seq<char>)>, x: u16)
    ensures
        left_of(digits, x) <= digits.len(),
        forall|i: int| 0 <= i < left_of(digits, x) ==> (#[trigger] digits[i]).0 < x,
        left_of(digits, x) < digits.len() ==> digits[left_of(digits, x) as int].0 >= x,
    decreases digits.len(),
{
    if digits.len() > 0 && digits[0].0 < x {
        let rest = digits.skip(1);
        lemma_left_of(rest, x);
        assert forall|i: int| 0 <= i < left_of(digits, x) implies (#[trigger] digits[i]).0 < x by {
            if i > 0 {
                assert(digits[i] == rest[i - 1]);
            }
        }
    }
}

/// Drawing a glyph keeps a row in order.
pub proof fn law_drawing_keeps_order(digits: Seq<(u16, Seq<char>)>, x: u16, label: Seq<char>)
    requires
        ordered(digits),
    ensures
        ordered(drawn(digits, x, label)),
{
    lemma_left_of(digits, x);
}

/// The glyph drawn last is in the row, unless the row was full and none stood in
/// its place.
pub proof fn law_drawn_glyph_is_there(digits: Seq<(u16, Seq<char>)>, x: u16, label: Seq<char>)
    requires
        ordered(digits),
        digits.len() < MAX_DIGITS_PER_ROW || exists|i: int|
            0 <= i < digits.len() && (#[trigger] digits[i]).0 == x,
    ensures
        drawn(digits, x, label).contains((x, label)),
{
    lemma_left_of(digits, x);
    let i = left_of(digits, x) as int;
    if !(digits.len() < MAX_DIGITS_PER_ROW) {
        let j = choose|j: int| 0 <= j < digits.len() && (#[trigger] digits[j]).0 == x;
        if j > i {
            assert(digits[i].0 < digits[j].0);
        }
        assert(i == j);
    }
    assert(drawn(digits, x, label)[i] == (x, label));
}

impl RowState {
    fn insert_glyph(&mut self, disp_x: u16, label: &'static str)
        ensures
            final(self)@ == (Row {
                digits: drawn(old(self)@.digits, disp_x, label@),
                dirty: true,
            }),
    {
        let ghost before = labelled(self.digits@);
        let mut pos: usize = 0;
        assert(before.skip(0) =~= before);
        while pos < self.digits.len() && self.digits[pos].0 < disp_x
            invariant
                pos <= self.digits.len(),
                before == labelled(self.digits@),
                *self == *old(self),
                left_of(before, disp_x) == pos + left_of(before.skip(pos as int), disp_x),
            decreases self.digits.len() - pos,
        {
            assert(before.skip(pos as int).skip(1) =~= before.skip(pos + 1));
            pos += 1;
        }
        if pos < self.digits.len() && self.digits[pos].0 == disp_x {
            self.digits.set(pos, (disp_x, label));
        } else if self.digits.len() < MAX_DIGITS_PER_ROW {
            self.digits.insert(pos, (disp_x, label));
        }
        self.dirty = true;
        assert(self@.digits =~= drawn(before, disp_x, label@));
    }
}

/// A glyph that was drawn: where on the display, its size, and what it is.
pub struct GlyphMatch {
    pub disp_x: u16,
    pub disp_y: u16,
    pub w: u16,
    pub h: u16,
    pub label: &'static str,
}

/// A glyph as a mathematical value.
pub struct Glyph {
    pub disp_x: u16,
    pub disp_y: u16,
    pub w: u16,
    pub h: u16,
    pub label: Seq<char>,
}

impl View for GlyphMatch {
    type V = Glyph;

    open spec fn view(&self) -> Glyph {
        Glyph {
            disp_x: self.disp_x,
            disp_y: self.disp_y,
            w: self.w,
            h: self.h,
            label: self.label@,
        }
    }
}

/// A row that changed: which one, its name and its text.
pub struct RowReport {
    pub row: usize,
    pub name: &'static str,
    pub value: String,
}

/// A report as a mathematical value.
pub struct Report {
    pub row: int,
    pub name: Seq<char>,
    pub value: Seq<char>,
}

impl View for RowReport {
    type V = Report;

    open spec fn view(&self) -> Report {
        Report { row: self.row as int, name: self.name@, value: self.value@ }
    }
}

pub struct DecodeOut {
    pub glyph: Option<GlyphMatch>,
}

/// What a decoder knows.
pub struct Reading {
    pub window: Window,
    pub cmd: panel::Command,
    pub drawing: Option<Drawing>,
    pub rows: Seq<Row>,
}

/// Where a window stands on the display: the panel is mounted upside down.
pub open spec fn display_place(x: u16, y: u16, w: u16, h: u16) -> (u16, u16) {
    let right = (x + w) % 65536;
    let bottom = (y + h) % 65536;
    (
        if right <= 320 {
            (320 - right) as u16
        } else {
            0
        },
        if bottom <= 480 {
            (480 - bottom) as u16
        } else {
            0
        },
    )
}

/// Length of a stretch whose ends are within it, in 16 bits.
pub open spec fn extent(start: u16, end: u16) -> u16 {
    ((end - start + 1) % 65536) as u16
}

/// Whether a window overlaps a rectangle of the display. The panel is mounted
/// upside down: column `c` shows as column `319 - c`, and row `r` as `479 - r`.
pub open spec fn overlaps(win: Window, r: Region) -> bool {
    &&& 319 - win.col_end < r.x_max
    &&& r.x_min <= 319 - win.col_start
    &&& 479 - win.row_end < r.y_max
    &&& r.y_min <= 479 - win.row_start
}

/// Whether a window overlaps a row.
pub open spec fn overlaps_a_row(win: Window) -> bool {
    exists|i: int| 0 <= i < ROWS_LEN && overlaps(win, #[trigger] regions()[i])
}

/// A window on the panel whose top left corner shows in a row overlaps that row.
pub proof fn law_a_glyph_of_a_row_overlaps_it(win: Window, row: int)
    requires
        win.col_start <= win.col_end < 320,
        win.row_start <= win.row_end < 480,
        ({
            let place = display_place(
                win.col_start,
                win.row_start,
                extent(win.col_start, win.col_end),
                extent(win.row_start, win.row_end),
            );
            in_row(row, place.0, place.1)
        }),
    ensures
        overlaps(win, regions()[row]),
        overlaps_a_row(win),
{
    assert(overlaps(win, regions()[row]));
}

/// The drawing that a MEMORY_WRITE opens: only in a window of a known size that
/// overlaps a row of the display.
pub open spec fn opened(known: Seq<Template>, win: Window) -> Option<Drawing> {
    if win.col_end < win.col_start || win.row_end < win.row_start {
        None
    } else {
        let w = extent(win.col_start, win.col_end);
        let h = extent(win.row_start, win.row_end);
        if templates::has_size(known, w, h) && overlaps_a_row(win) {
            Some(Drawing { x: win.col_start, y: win.row_start, w, h, pixels: Seq::empty() })
        } else {
            None
        }
    }
}

/// The glyph that a full drawing is.
pub open spec fn glyph_of(known: Seq<Template>, d: Drawing) -> Glyph {
    let (disp_x, disp_y) = display_place(d.x, d.y, d.w, d.h);
    Glyph {
        disp_x,
        disp_y,
        w: d.w,
        h: d.h,
        label: templates::label_of(
            known,
            d.w,
            d.h,
            templates::shape_hash(templates::unlike_first(d.pixels)),
        ),
    }
}

/// The rows after a glyph is drawn.
pub open spec fn rows_with(rows: Seq<Row>, g: Glyph) -> Seq<Row> {
    match row_at(g.disp_x, g.disp_y) {
        Some(i) => rows.update(
            i,
            Row { digits: drawn(rows[i].digits, g.disp_x, g.label), dirty: true },
        ),
        None => rows,
    }
}

/// What is known after one bus word, and the glyph that it completes.
pub open spec fn fed(r: Reading, known: Seq<Template>, word: u16, is_data: bool) -> (
    Reading,
    Option<Glyph>,
) {
    if !is_data {
        // MEMORY_WRITE opens a drawing and MEMORY_WRITE_CONTINUE goes on with the
        // one there is; any other command drops one that is not full.
        let drawing = if word % 256 == 0x2C {
            opened(known, r.window)
        } else if word % 256 == 0x3C {
            r.drawing
        } else {
            None
        };
        (Reading { cmd: panel::begun(word), drawing, ..r }, None)
    } else {
        match r.cmd {
            panel::Command::Other => (r, None),
            panel::Command::ColAddr(params) => {
                let now = panel::with_param(params, word);
                let cmd = panel::Command::ColAddr(now);
                if panel::completes(params) {
                    let (col_start, col_end) = panel::bounds(now);
                    (Reading { cmd, window: Window { col_start, col_end, ..r.window }, ..r }, None)
                } else {
                    (Reading { cmd, ..r }, None)
                }
            },
            panel::Command::RowAddr(params) => {
                let now = panel::with_param(params, word);
                let cmd = panel::Command::RowAddr(now);
                if panel::completes(params) {
                    let (row_start, row_end) = panel::bounds(now);
                    (Reading { cmd, window: Window { row_start, row_end, ..r.window }, ..r }, None)
                } else {
                    (Reading { cmd, ..r }, None)
                }
            },
            panel::Command::MemWrite => match r.drawing {
                None => (r, None),
                Some(d) => {
                    let more = Drawing { pixels: d.pixels.push(word), ..d };
                    if more.pixels.len() == area(d.w, d.h) {
                        let g = glyph_of(known, more);
                        (Reading { drawing: None, rows: rows_with(r.rows, g), ..r }, Some(g))
                    } else {
                        (Reading { drawing: Some(more), ..r }, None)
                    }
                },
            },
        }
    }
}

/// What a new decoder knows: nothing drawn, and a window of one cell.
pub open spec fn nothing_read() -> Reading {
    Reading {
        window: Window { col_start: 0, col_end: 0, row_start: 0, row_end: 0 },
        cmd: panel::Command::Other,
        drawing: None,
        rows: Seq::new(ROWS_LEN as nat, |i: int| Row { digits: Seq::empty(), dirty: false }),
    }
}

/// The reports of the first `n` rows: one for each that changed, in order.
pub open spec fn reports(rows: Seq<Row>, n: nat) -> Seq<Report>
    decreases n,
{
    if n == 0 {
        Seq::empty()
    } else {
        let before = reports(rows, (n - 1) as nat);
        if rows[n - 1].dirty {
            before.push(
                Report { row: n - 1, name: row_names()[n - 1], value: row_text(rows[n - 1]) },
            )
        } else {
            before
        }
    }
}

/// The rows, none of them changed.
pub open spec fn settled(rows: Seq<Row>) -> Seq<Row> {
    rows.map_values(|row: Row| Row { dirty: false, ..row })
}

/// The values of a list of reports.
pub open spec fn report_values(reports: Seq<RowReport>) -> Seq<Report> {
    reports.map_values(|r: RowReport| r@)
}

/// The value of an optional glyph.
pub open spec fn glyph_value(out: Option<DecodeOut>) -> Option<Glyph> {
    match out {
        Some(DecodeOut { glyph: Some(g) }) => Some(g@),
        _ => None,
    }
}

pub struct Decoder {
    known: &'static [Template],
    window: Window,
    cmd: Cmd,
    pending: Option<PendingWindow>,
    rows: Vec<RowState>,
}

impl View for Decoder {
    type V = Reading;

    closed spec fn view(&self) -> Reading {
        Reading {
            window: self.window,
            cmd: self.cmd@,
            drawing: match self.pending {
                Some(win) => Some(win@),
                None => None,
            },
            rows: self.rows@.map_values(|row: RowState| row@),
        }
    }
}

impl Decoder {
    /// The glyphs that are known.
    pub closed spec fn known(&self) -> Seq<Template> {
        self.known@
    }

    /// The rows of the display are there, each in order.
    pub closed spec fn wf(&self) -> bool {
        &&& self.cmd.wf()
        &&& self.pending matches Some(win) ==> win.wf()
        &&& self.rows@.len() == ROWS_LEN
        &&& forall|i: int| 0 <= i < ROWS_LEN ==> ordered((#[trigger] self.rows@[i])@.digits)
    }

    /// Whatever was drawn, each row stands from left to right, no two glyphs in
    /// one place, and none is overfull.
    pub proof fn law_rows_are_in_order(&self, i: int)
        requires
            self.wf(),
            0 <= i < ROWS_LEN,
        ensures
            self@.rows.len() == ROWS_LEN,
            ordered(self@.rows[i].digits),
    {
        assert(self.rows@[i]@ == self@.rows[i]);
    }

    /// A decoder that knows these glyphs.
    pub fn new(known: &'static [Template]) -> (decoder: Self)
        ensures
            decoder.wf(),
            decoder@ == nothing_read(),
            decoder.known() == known@,
    {
        let mut rows: Vec<RowState> = Vec::new();
        let mut i: usize = 0;
        while i < ROWS_LEN
            invariant
                i <= ROWS_LEN,
                rows@.len() == i,
                forall|j: int|
                    0 <= j < i ==> (#[trigger] rows@[j])@ == (Row {
                        digits: Seq::empty(),
                        dirty: false,
                    }),
            decreases ROWS_LEN - i,
        {
            let row = RowState { digits: Vec::new(), dirty: false };
            assert(row@.digits =~= Seq::<(u16, Seq<char>)>::empty());
            rows.push(row);
            i += 1;
        }
        let decoder = Decoder {
            known,
            window: Window { col_start: 0, col_end: 0, row_start: 0, row_end: 0 },
            cmd: Cmd::Other,
            pending: None,
            rows,
        };
        assert(decoder@.rows =~= nothing_read().rows);
        decoder
    }

    /// Feeds one bus word. Returns the glyph when a window fills up.
    pub fn feed(&mut self, data: u16, is_data: bool) -> (out: Option<DecodeOut>)
        requires
            old(self).wf(),
        ensures
            final(self).wf(),
            final(self).known() == old(self).known(),
            final(self)@ == fed(old(self)@, old(self).known(), data, is_data).0,
            glyph_value(out) == fed(old(self)@, old(self).known(), data, is_data).1,
            out matches Some(o) ==> o.glyph is Some,
    {
        if !is_data {
            let byte: u16 = data % 256;
            if byte == 0x2C {
                self.pending = self.open_window();
            } else if byte != 0x3C {
                self.pending = None;
            }
            self.cmd = Cmd::begin(data);
            return None;
        }
        match self.cmd {
            Cmd::ColAddr { buf, n } => {
                let (buf, n, done) = panel::collect(buf, n, data);
                self.cmd = Cmd::ColAddr { buf, n };
                if let Some((start, end)) = done {
                    self.window.col_start = start;
                    self.window.col_end = end;
                }
                None
            },
            Cmd::RowAddr { buf, n } => {
                let (buf, n, done) = panel::collect(buf, n, data);
                self.cmd = Cmd::RowAddr { buf, n };
                if let Some((start, end)) = done {
                    self.window.row_start = start;
                    self.window.row_end = end;
                }
                None
            },
            Cmd::MemWrite => {
                match self.pending.take() {
                    None => None,
                    Some(mut win) => {
                        match win.push_pixel(data) {
                            None => {
                                self.pending = Some(win);
                                None
                            },
                            Some(hash) => {
                                let glyph = self.finish_window(&win, hash);
                                Some(DecodeOut { glyph: Some(glyph) })
                            },
                        }
                    },
                }
            },
            Cmd::Other => None,
        }
    }

    /// The rows that changed since they were last reported.
    pub fn flush(&mut self) -> (out: Vec<RowReport>)
        requires
            old(self).wf(),
        ensures
            final(self).wf(),
            final(self).known() == old(self).known(),
            final(self)@ == (Reading { rows: settled(old(self)@.rows), ..old(self)@ }),
            report_values(out@) == reports(old(self)@.rows, ROWS_LEN as nat),
    {
        let mut out: Vec<RowReport> = Vec::new();
        let ghost rows = self@.rows;
        let mut i: usize = 0;
        assert(report_values(out@) =~= reports(rows, 0));
        while i < ROWS_LEN
            invariant
                i <= ROWS_LEN,
                self.wf(),
                rows == old(self)@.rows,
                rows.len() == ROWS_LEN,
                self.known() == old(self).known(),
                self@.window == old(self)@.window,
                self@.cmd == old(self)@.cmd,
                self@.drawing == old(self)@.drawing,
                self.rows@.len() == ROWS_LEN,
                forall|j: int|
                    0 <= j < i ==> (#[trigger] self.rows@[j])@ == (Row { dirty: false, ..rows[j] }),
                forall|j: int| i <= j < ROWS_LEN ==> (#[trigger] self.rows@[j])@ == rows[j],
                report_values(out@) == reports(rows, i as nat),
            decreases ROWS_LEN - i,
        {
            if self.rows[i].dirty {
                let value: String = spelled(&self.rows[i].digits);
                let report = RowReport { row: i, name: row_name(i), value };
                let ghost before = out@;
                out.push(report);
                self.rows[i].dirty = false;
                proof {
                    assert(value@ =~= row_text(rows[i as int]));
                    assert(report_values(out@) =~= report_values(before).push(report@));
                }
            }
            i += 1;
        }
        assert(self@.rows =~= settled(rows));
        out
    }

    /// The drawing that a MEMORY_WRITE opens.
    fn open_window(&self) -> (win: Option<PendingWindow>)
        requires
            self.wf(),
        ensures
            match win {
                Some(p) => p.wf() && opened(self.known(), self@.window) == Some(p@),
                None => opened(self.known(), self@.window) is None,
            },
    {
        if self.window.col_end < self.window.col_start || self.window.row_end
            < self.window.row_start {
            return None;
        }
        let w: u16 = (self.window.col_end - self.window.col_start).wrapping_add(1);
        let h: u16 = (self.window.row_end - self.window.row_start).wrapping_add(1);
        if !templates::any_of_size(self.known, w, h) {
            return None;
        }
        if !meets_a_row(self.window) {
            return None;
        }
        Some(PendingWindow::new(self.window.col_start, self.window.row_start, w, h))
    }

    /// A window filled up: looks its shape up and puts the glyph into its row.
    fn finish_window(&mut self, win: &PendingWindow, hash: u64) -> (glyph: GlyphMatch)
        requires
            old(self).wf(),
            hash == templates::shape_hash(templates::unlike_first(win@.pixels)),
        ensures
            final(self).wf(),
            final(self).known() == old(self).known(),
            glyph@ == glyph_of(old(self).known(), win@),
            final(self)@ == (Reading {
                rows: rows_with(old(self)@.rows, glyph@),
                ..old(self)@
            }),
    {
        let (disp_x, disp_y) = place_on_display(win.x, win.y, win.w, win.h);
        let label: &'static str = templates::find_label(self.known, win.w, win.h, hash);
        let glyph = GlyphMatch { disp_x, disp_y, w: win.w, h: win.h, label };
        if let Some(idx) = row_for(disp_x, disp_y) {
            proof {
                law_drawing_keeps_order(self.rows@[idx as int]@.digits, disp_x, label@);
            }
            self.rows[idx].insert_glyph(disp_x, label);
            assert(self@.rows =~= rows_with(old(self)@.rows, glyph@));
        }
        glyph
    }
}

/// What is known after a list of pixel words.
pub open spec fn drawn_on(r: Reading, known: Seq<Template>, pixels: Seq<u16>) -> Reading
    decreases pixels.len(),
{
    if pixels.len() == 0 {
        r
    } else {
        fed(drawn_on(r, known, pixels.drop_last()), known, pixels.last(), true).0
    }
}

/// MEMORY_WRITE_CONTINUE in the middle of a write changes nothing: a window may
/// be drawn in pieces.
pub proof fn law_continue_goes_on(r: Reading, known: Seq<Template>, word: u16)
    requires
        r.cmd is MemWrite,
        word % 256 == 0x3C,
    ensures
        fed(r, known, word, false) == (r, None::<Glyph>),
{
}

proof fn lemma_drawn_on(r: Reading, known: Seq<Template>, d: Drawing, pixels: Seq<u16>)
    requires
        r.cmd is MemWrite,
        r.drawing == Some(d),
        d.pixels.len() == 0,
        pixels.len() < area(d.w, d.h),
    ensures
        drawn_on(r, known, pixels) == (Reading {
            drawing: Some(Drawing { pixels: pixels, ..d }),
            ..r
        }),
    decreases pixels.len(),
{
    if pixels.len() == 0 {
        assert(pixels =~= d.pixels);
    } else {
        lemma_drawn_on(r, known, d, pixels.drop_last());
        assert(pixels.drop_last().push(pixels.last()) =~= pixels);
    }
}

/// A glyph is read when its window fills up, and not before: the last pixel gives
/// the glyph that the whole window shows, and puts it into its row.
pub proof fn law_full_window_is_read(
    r: Reading,
    known: Seq<Template>,
    d: Drawing,
    pixels: Seq<u16>,
)
    requires
        r.cmd is MemWrite,
        r.drawing == Some(d),
        d.pixels.len() == 0,
        pixels.len() == area(d.w, d.h),
    ensures
        ({
            let before = drawn_on(r, known, pixels.drop_last());
            let g = glyph_of(known, Drawing { pixels, ..d });
            &&& before.rows == r.rows
            &&& fed(before, known, pixels.last(), true) == (
                Reading { drawing: None, rows: rows_with(r.rows, g), ..r },
                Some(g),
            )
        }),
{
    lemma_drawn_on(r, known, d, pixels.drop_last());
    assert(pixels.drop_last().push(pixels.last()) =~= pixels);
}

/// A window that shows a known glyph is read as that glyph: the label is that of
/// the template whose picture it shows.
pub proof fn law_known_glyph_is_named(
    known: Seq<Template>,
    i: int,
    d: Drawing,
    picture: Seq<bool>,
)
    requires
        templates::collision_free(known),
        0 <= i < known.len(),
        known[i].w == d.w,
        known[i].h == d.h,
        known[i].hash == templates::shape_hash(templates::unlike_first(picture.reverse())),
        picture.len() == d.pixels.len(),
        forall|k: int|
            0 <= k < d.pixels.len() ==> (#[trigger] picture.reverse()[k] == picture.reverse()[0])
                == (d.pixels[k] == d.pixels[0]),
    ensures
        glyph_of(known, d).label == known[i].label@,
{
    templates::law_baked_hash_is_drawn_hash(d.pixels, picture);
    templates::law_every_template_is_found(known, i);
}

/// Whether a window overlaps a row.
fn meets_a_row(win: Window) -> (meets: bool)
    ensures
        meets == overlaps_a_row(win),
{
    let mut i: usize = 0;
    while i < ROWS_LEN
        invariant
            i <= ROWS_LEN,
            forall|j: int| 0 <= j < i ==> !overlaps(win, #[trigger] regions()[j]),
        decreases ROWS_LEN - i,
    {
        let r = region_of(i);
        if 319 < win.col_end as u32 + r.x_max as u32 && r.x_min as u32 + win.col_start as u32 <= 319
            && 479 < win.row_end as u32 + r.y_max as u32 && r.y_min as u32 + win.row_start as u32
            <= 479 {
            assert(overlaps(win, regions()[i as int]));
            return true;
        }
        i += 1;
    }
    false
}

/// Where a window stands on the display.
fn place_on_display(x: u16, y: u16, w: u16, h: u16) -> (place: (u16, u16))
    ensures
        place == display_place(x, y, w, h),
{
    (
        panel::WIDTH.saturating_sub(x.wrapping_add(w)),
        panel::HEIGHT.saturating_sub(y.wrapping_add(h)),
    )
}

/// The text of a row of glyphs.
fn spelled(digits: &Vec<(u16, &'static str)>) -> (value: String)
    ensures
        value@ == labelled(digits@).map_values(|d: (u16, Seq<char>)| shown(d.1)),
{
    let mut value: String = String::new();
    let mut i: usize = 0;
    while i < digits.len()
        invariant
            i <= digits.len(),
            value@ == labelled(digits@).take(i as int).map_values(
                |d: (u16, Seq<char>)| shown(d.1),
            ),
        decreases digits.len() - i,
    {
        text::push_char(&mut value, short_label(digits[i].1));
        i += 1;
        assert(value@ =~= labelled(digits@).take(i as int).map_values(
            |d: (u16, Seq<char>)| shown(d.1),
        ));
    }
    assert(labelled(digits@).take(i as int) =~= labelled(digits@));
    value
}

/// Drawing a glyph leaves every other glyph of the row alone: what stood in another
/// place is still there, and nothing else has come but the glyph itself. In a full
/// row without a glyph in that place, nothing changes.
pub proof fn law_other_glyphs_are_left_alone(
    digits: Seq<(u16, Seq<char>)>,
    x: u16,
    label: Seq<char>,
)
    requires
        ordered(digits),
    ensures
        forall|g: (u16, Seq<char>)|
            g.0 != x && #[trigger] digits.contains(g) ==> drawn(digits, x, label).contains(g),
        forall|g: (u16, Seq<char>)| #[trigger]
            drawn(digits, x, label).contains(g) ==> g == (x, label) || digits.contains(g),
        drawn(digits, x, label).contains((x, label)) ==> forall|g: (u16, Seq<char>)| #[trigger]
            drawn(digits, x, label).contains(g) && g.0 == x ==> g == (x, label),
        digits.len() == MAX_DIGITS_PER_ROW && (forall|i: int|
            0 <= i < digits.len() ==> (#[trigger] digits[i]).0 != x) ==> drawn(digits, x, label)
            == digits,
{
    lemma_left_of(digits, x);
    law_drawing_keeps_order(digits, x, label);
    let i = left_of(digits, x) as int;
    let after = drawn(digits, x, label);
    assert forall|g: (u16, Seq<char>)| g.0 != x && #[trigger] digits.contains(g) implies
        after.contains(g) by {
        let j = digits.index_of(g);
        if after.len() == digits.len() {
            assert(after[j] == g);
        } else if j < i {
            assert(after[j] == g);
        } else {
            assert(after[j + 1] == g);
        }
    }
    assert forall|g: (u16, Seq<char>)| #[trigger] after.contains(g) implies g == (x, label)
        || digits.contains(g) by {
        let j = after.index_of(g);
        if after.len() == digits.len() {
            if after[j] != (x, label) {
                assert(digits[j] == g);
            }
        } else if j < i {
            assert(digits[j] == g);
        } else if j > i {
            assert(digits[j - 1] == g);
        }
    }
    if after.contains((x, label)) {
        let k = after.index_of((x, label));
        assert forall|g: (u16, Seq<char>)| #[trigger] after.contains(g) && g.0 == x implies g == (
            x,
            label,
        ) by {
            let j = after.index_of(g);
            if j < k {
                assert(after[j].0 < after[k].0);
            } else if k < j {
                assert(after[k].0 < after[j].0);
            }
        }
    }
}

/// Only the row that a glyph stands in changes, and it has to be told again; a
/// glyph that stands in none changes nothing.
pub proof fn law_only_the_row_of_a_glyph_changes(rows: Seq<Row>, g: Glyph, i: int)
    requires
        rows.len() == ROWS_LEN,
        0 <= i < ROWS_LEN,
    ensures
        rows_with(rows, g).len() == ROWS_LEN,
        in_row(i, g.disp_x, g.disp_y) ==> rows_with(rows, g)[i].dirty && rows_with(
            rows,
            g,
        )[i].digits == drawn(rows[i].digits, g.disp_x, g.label),
        !in_row(i, g.disp_x, g.disp_y) ==> rows_with(rows, g)[i] == rows[i],
{
}

/// The rows of the display: PM2.5 and TVOC in the two large panels, one above the
/// other, CO2 below them, and at the bottom the temperature on the left and the
/// humidity on the right.
pub proof fn law_rows_are_where_they_show(x: u16, y: u16)
    ensures
        80 <= x < 230 && 50 <= y < 130 <==> row_at(x, y) == Some(0int),
        80 <= x < 230 && 195 <= y < 280 <==> row_at(x, y) == Some(1int),
        90 <= x < 245 && 350 <= y < 405 <==> row_at(x, y) == Some(2int),
        x < 100 && 425 <= y < 475 <==> row_at(x, y) == Some(3int),
        200 <= x < 320 && 425 <= y < 475 <==> row_at(x, y) == Some(4int),
        row_at(x, y) matches Some(i) ==> 0 <= i < ROWS_LEN && in_row(i, x, y),
        row_names() == seq!["pm25"@, "tvoc"@, "co2"@, "temp"@, "humidity"@],
{
    assert(row_names() =~= seq!["pm25"@, "tvoc"@, "co2"@, "temp"@, "humidity"@]);
}

/// A row is told if and only if it changed: there is exactly one report of each row
/// that did, with the row's name and one character for each glyph, from left to
/// right, and no report of any other.
pub proof fn law_every_change_is_told_once(rows: Seq<Row>, i: int)
    requires
        rows.len() == ROWS_LEN,
        0 <= i < ROWS_LEN,
    ensures
        ({
            let told = reports(rows, ROWS_LEN as nat);
            &&& rows[i].dirty ==> exists|k: int|
                0 <= k < told.len() && (#[trigger] told[k]).row == i
            &&& forall|k: int|
                0 <= k < told.len() ==> {
                    let r = #[trigger] told[k];
                    &&& 0 <= r.row < ROWS_LEN
                    &&& rows[r.row].dirty
                    &&& r.name == row_names()[r.row]
                    &&& r.value.len() == rows[r.row].digits.len()
                    &&& forall|j: int|
                        0 <= j < r.value.len() ==> #[trigger] r.value[j] == shown(
                            rows[r.row].digits[j].1,
                        )
                }
            &&& forall|k: int, l: int|
                0 <= k < l < told.len() ==> (#[trigger] told[k]).row < (#[trigger] told[l]).row
        }),
{
    lemma_told(rows, ROWS_LEN as nat);
}

proof fn lemma_told(rows: Seq<Row>, n: nat)
    requires
        n <= rows.len(),
    ensures
        ({
            let told = reports(rows, n);
            &&& forall|i: int|
                0 <= i < n && (#[trigger] rows[i]).dirty ==> exists|k: int|
                    0 <= k < told.len() && (#[trigger] told[k]).row == i
            &&& forall|k: int|
                0 <= k < told.len() ==> {
                    let r = #[trigger] told[k];
                    &&& 0 <= r.row < n
                    &&& rows[r.row].dirty
                    &&& r.name == row_names()[r.row]
                    &&& r.value == row_text(rows[r.row])
                }
            &&& forall|k: int, l: int|
                0 <= k < l < told.len() ==> (#[trigger] told[k]).row < (#[trigger] told[l]).row
        }),
    decreases n,
{
    if n > 0 {
        lemma_told(rows, (n - 1) as nat);
        let before = reports(rows, (n - 1) as nat);
        let told = reports(rows, n);
        assert forall|i: int| 0 <= i < n && (#[trigger] rows[i]).dirty implies exists|k: int|
            0 <= k < told.len() && (#[trigger] told[k]).row == i by {
            if i == n - 1 {
                assert(told[told.len() - 1].row == i);
            } else {
                let k = choose|k: int| 0 <= k < before.len() && (#[trigger] before[k]).row == i;
                assert(told[k].row == i);
            }
        }
        assert forall|k: int| 0 <= k < told.len() implies {
            let r = #[trigger] told[k];
            &&& 0 <= r.row < n
            &&& rows[r.row].dirty
            &&& r.name == row_names()[r.row]
            &&& r.value == row_text(rows[r.row])
        } by {
            if k < before.len() {
                assert(told[k] == before[k]);
            }
        }
        assert forall|k: int, l: int| 0 <= k < l < told.len() implies (#[trigger] told[k]).row < (
        #[trigger] told[l]).row by {
            assert(told[k] == before[k]);
            if l < before.len() {
                assert(told[l] == before[l]);
            }
        }
    }
}

/// Once told, a row keeps its glyphs, and nothing is told again before it changes.
pub proof fn law_told_rows_are_quiet(rows: Seq<Row>, i: int)
    requires
        rows.len() == ROWS_LEN,
        0 <= i < ROWS_LEN,
    ensures
        settled(rows).len() == ROWS_LEN,
        settled(rows)[i].digits == rows[i].digits,
        !settled(rows)[i].dirty,
        reports(settled(rows), ROWS_LEN as nat) == Seq::<Report>::empty(),
{
    let after = settled(rows);
    lemma_told(after, ROWS_LEN as nat);
    let told = reports(after, ROWS_LEN as nat);
    if told.len() > 0 {
        assert(after[told[0].row].dirty);
    }
    assert(told =~= Seq::<Report>::empty());
}

/// A glyph of one character shows as that character; the blank glyph as a space and
/// the dot as a full stop.
pub proof fn law_labels_show_as_themselves(c: char)
    ensures
        shown(seq![c]) == c,
        shown("blank"@) == ' ',
        shown("dot"@) == '.',
        shown(Seq::empty()) == '?',
        forall|label: Seq<char>|
            label.len() > 0 && label != "blank"@ && label != "dot"@ ==> #[trigger] shown(label)
                == label[0],
{
    reveal_strlit("blank");
    reveal_strlit("dot");
    assert("blank"@.len() == 5 && "dot"@.len() == 3);
}

/// The panel is mounted upside down: what a window leaves free on its far side is
/// where it shows. Turned twice, it is where it was.
pub proof fn law_windows_show_upside_down(x: u16, y: u16, w: u16, h: u16)
    requires
        x + w <= 320,
        y + h <= 480,
    ensures
        display_place(x, y, w, h).0 + w + x == 320,
        display_place(x, y, w, h).1 + h + y == 480,
        display_place(display_place(x, y, w, h).0, display_place(x, y, w, h).1, w, h) == (x, y),
{
}

/// A window overlaps a rectangle of the display if and only if one of its pixels
/// shows there.
pub proof fn law_overlap_is_a_pixel_in_both(win: Window, r: Region)
    requires
        win.col_start <= win.col_end < 320,
        win.row_start <= win.row_end < 480,
        r.x_min < r.x_max <= 320,
        r.y_min < r.y_max <= 480,
    ensures
        overlaps(win, r) <==> exists|c: int, d: int| #[trigger]
            shows_in(win, r, c, d),
{
    if overlaps(win, r) {
        let c = if 319 - r.x_min <= win.col_end {
            319 - r.x_min
        } else {
            win.col_end as int
        };
        let d = if 479 - r.y_min <= win.row_end {
            479 - r.y_min
        } else {
            win.row_end as int
        };
        assert(shows_in(win, r, c, d));
    }
}

/// Whether column `c`, row `d` of the panel is in a window and shows in a rectangle.
pub open spec fn shows_in(win: Window, r: Region, c: int, d: int) -> bool {
    &&& win.col_start <= c <= win.col_end
    &&& win.row_start <= d <= win.row_end
    &&& r.x_min <= 319 - c < r.x_max
    &&& r.y_min <= 479 - d < r.y_max
}

/// A drawing has its window's place and size, and starts without pixels. It takes
/// as many as the window has.
pub proof fn law_a_drawing_is_its_window(known: Seq<Template>, win: Window)
    requires
        win.col_start <= win.col_end < 320,
        win.row_start <= win.row_end < 480,
    ensures
        opened(known, win) matches Some(d) ==> {
            &&& d.x == win.col_start
            &&& d.y == win.row_start
            &&& d.x + d.w == win.col_end + 1
            &&& d.y + d.h == win.row_end + 1
            &&& d.pixels.len() == 0
            &&& area(d.w, d.h) == (win.col_end - win.col_start + 1) * (win.row_end - win.row_start
                + 1)
            &&& exists|i: int|
                0 <= i < known.len() && (#[trigger] known[i]).w == d.w && known[i].h == d.h
        },
        opened(known, win) is None ==> !overlaps_a_row(win) || forall|i: int|
            0 <= i < known.len() ==> (#[trigger] known[i]).w != win.col_end - win.col_start + 1
                || known[i].h != win.row_end - win.row_start + 1,
{
    let w = win.col_end - win.col_start + 1;
    let h = win.row_end - win.row_start + 1;
    assert(w * h > 0) by (nonlinear_arith)
        requires
            w > 0,
            h > 0,
    ;
}

/// What is known after a list of bus words, each with whether it is data.
#[verifier::opaque]
pub open spec fn fed_all(r: Reading, known: Seq<Template>, words: Seq<(u16, bool)>) -> Reading
    decreases words.len(),
{
    if words.len() == 0 {
        r
    } else {
        fed(fed_all(r, known, words.drop_last()), known, words.last().0, words.last().1).0
    }
}

/// The address commands set the window: the bytes of a start and an end give that
/// start and end, and all else stays but a drawing that was not full.
pub proof fn law_address_words_set_the_window(
    r: Reading,
    known: Seq<Template>,
    start: u16,
    end: u16,
    columns: bool,
)
    ensures
        ({
            let after = fed_all(r, known, panel::address_words(columns, start, end));
            &&& after.window == if columns {
                Window { col_start: start, col_end: end, ..r.window }
            } else {
                Window { row_start: start, row_end: end, ..r.window }
            }
            &&& after.rows == r.rows
            &&& after.drawing is None
        }),
{
    let words = panel::address_words(columns, start, end);
    let none = Seq::<u8>::empty();
    panel::law_four_words_spell_the_bounds(start / 256, start % 256, end / 256, end % 256, 0);
    assert(words.take(0) =~= Seq::<(u16, bool)>::empty());
    assert(fed_all(r, known, words.take(0)) == r && fed_all(r, known, words.take(1)).cmd
        == command(columns, none) && fed_all(r, known, words.take(1)).drawing is None && fed_all(
        r,
        known,
        words.take(1),
    ).rows == r.rows && fed_all(r, known, words.take(1)).window == r.window) by {
        reveal_with_fuel(fed_all, 2);
        assert(words.take(1).drop_last() =~= words.take(0));
    }
    let p1 = panel::with_param(none, start / 256);
    let p2 = panel::with_param(p1, start % 256);
    let p3 = panel::with_param(p2, end / 256);
    lemma_param(r, known, words, 1, none, columns);
    lemma_param(r, known, words, 2, p1, columns);
    lemma_param(r, known, words, 3, p2, columns);
    lemma_param(r, known, words, 4, p3, columns);
    assert(words.take(5) =~= words);
    let at = panel::bounds(panel::with_param(p3, end % 256));
    assert(at.0 == start && at.1 == end);
}

spec fn command(columns: bool, params: Seq<u8>) -> panel::Command {
    if columns {
        panel::Command::ColAddr(params)
    } else {
        panel::Command::RowAddr(params)
    }
}

/// One parameter word of an address command.
proof fn lemma_param(
    r: Reading,
    known: Seq<Template>,
    words: Seq<(u16, bool)>,
    n: int,
    params: Seq<u8>,
    columns: bool,
)
    requires
        0 <= n < words.len(),
        words[n].1,
        fed_all(r, known, words.take(n)).cmd == command(columns, params),
    ensures
        ({
            let was = fed_all(r, known, words.take(n));
            let now = panel::with_param(params, words[n].0);
            let next = fed_all(r, known, words.take(n + 1));
            &&& next.cmd == command(columns, now)
            &&& next.rows == was.rows
            &&& next.drawing == was.drawing
            &&& next.window == if !panel::completes(params) {
                was.window
            } else if columns {
                Window {
                    col_start: panel::bounds(now).0,
                    col_end: panel::bounds(now).1,
                    ..was.window
                }
            } else {
                Window {
                    row_start: panel::bounds(now).0,
                    row_end: panel::bounds(now).1,
                    ..was.window
                }
            }
        }),
{
    reveal_with_fuel(fed_all, 1);
    assert(words.take(n + 1).drop_last() =~= words.take(n));
}

/// A word that is no pixel changes no row and completes no glyph.
pub proof fn law_only_pixels_complete_a_glyph(
    r: Reading,
    known: Seq<Template>,
    word: u16,
    is_data: bool,
)
    requires
        !is_data || !(r.cmd is MemWrite) || r.drawing is None,
    ensures
        fed(r, known, word, is_data).0.rows == r.rows,
        fed(r, known, word, is_data).1 is None,
        !is_data ==> fed(r, known, word, is_data).0.window == r.window,
        !is_data && word % 256 == 0x2C ==> fed(r, known, word, is_data).0.drawing == opened(
            known,
            r.window,
        ) && fed(r, known, word, is_data).0.cmd is MemWrite,
        !is_data && word % 256 != 0x2C && word % 256 != 0x3C ==> fed(
            r,
            known,
            word,
            is_data,
        ).0.drawing is None && !(fed(r, known, word, is_data).0.cmd is MemWrite),
{
}

/// What a call of [`RowState::insert_glyph`] does to a row in order: every glyph in
/// another place keeps its place and its label, and no other comes but the one drawn.
/// The one drawn is there, unless the row was full and had none in its place.
proof fn law_inserting_displaces_no_other(row: &mut RowState, x: u16, label: &'static str, j: int)
    requires
        ordered(labelled(old(row).digits@)),
        call_ensures(RowState::insert_glyph, (row, x, label), ()),
    ensures
        final(row).dirty,
        0 <= j < old(row).digits@.len() && old(row).digits@[j].0 != x ==> exists|k: int|
            0 <= k < final(row).digits@.len() && (#[trigger] final(row).digits@[k]).0
                == old(row).digits@[j].0 && final(row).digits@[k].1@ == old(row).digits@[j].1@,
        0 <= j < final(row).digits@.len() && final(row).digits@[j].0 != x ==> exists|k: int|
            0 <= k < old(row).digits@.len() && (#[trigger] old(row).digits@[k]).0
                == final(row).digits@[j].0 && old(row).digits@[k].1@ == final(row).digits@[j].1@,
        old(row).digits@.len() < 8 || 0 <= j < old(row).digits@.len()
            && old(row).digits@[j].0 == x ==> exists|k: int|
            0 <= k < final(row).digits@.len() && (#[trigger] final(row).digits@[k]).0 == x
                && final(row).digits@[k].1@ == label@,
{
    let before = labelled(old(row).digits@);
    let after = labelled(final(row).digits@);
    law_other_glyphs_are_left_alone(before, x, label@);
    if before.len() < MAX_DIGITS_PER_ROW || 0 <= j < before.len() && before[j].0 == x {
        law_drawn_glyph_is_there(before, x, label@);
    }
    if 0 <= j < before.len() && before[j].0 != x {
        assert(before.contains(before[j]));
        let k = after.index_of(before[j]);
        assert(after[k] == before[j]);
        assert(final(row).digits@[k].0 == after[k].0);
    }
    if 0 <= j < after.len() && after[j].0 != x {
        assert(after.contains(after[j]));
        let k = before.index_of(after[j]);
        assert(before[k] == after[j]);
        assert(old(row).digits@[k].0 == before[k].0);
    }
    if before.len() < MAX_DIGITS_PER_ROW || 0 <= j < before.len() && before[j].0 == x {
        assert(after.contains((x, label@)));
        let k = after.index_of((x, label@));
        assert(final(row).digits@[k].0 == after[k].0);
    }
}

/// What a call of [`Decoder::feed`] does that completes a glyph: the row in which the
/// glyph shows has to be told and keeps its glyphs in other places; every other row
/// stays as it is.
pub proof fn law_feed_puts_the_glyph_into_its_row(
    d: &mut Decoder,
    data: u16,
    is_data: bool,
    out: Option<DecodeOut>,
    i: int,
    j: int,
)
    requires
        old(d).wf(),
        call_ensures(Decoder::feed, (d, data, is_data), out),
        0 <= i < 5,
    ensures
        out is None ==> final(d)@.rows == old(d)@.rows,
        out matches Some(DecodeOut { glyph: Some(g) }) ==> {
            let was = old(d)@.rows[i];
            let now = final(d)@.rows[i];
            &&& !in_row(i, g.disp_x, g.disp_y) ==> now == was
            &&& in_row(i, g.disp_x, g.disp_y) ==> {
                &&& now.dirty
                &&& 0 <= j < was.digits.len() && was.digits[j].0 != g.disp_x
                    ==> now.digits.contains(was.digits[j])
                &&& 0 <= j < now.digits.len() && now.digits[j].0 != g.disp_x
                    ==> was.digits.contains(now.digits[j])
                &&& was.digits.len() < 8 ==> now.digits.contains(
                    (g.disp_x, g.label@),
                )
            }
        },
{
    old(d).law_rows_are_in_order(i);
    if let Some(DecodeOut { glyph: Some(g) }) = out {
        law_only_the_row_of_a_glyph_changes(old(d)@.rows, g@, i);
        let was = old(d)@.rows[i].digits;
        law_other_glyphs_are_left_alone(was, g.disp_x, g.label@);
        if was.len() < MAX_DIGITS_PER_ROW {
            law_drawn_glyph_is_there(was, g.disp_x, g.label@);
        }
        if 0 <= j < was.len() {
            assert(was.contains(was[j]));
        }
        let now = final(d)@.rows[i].digits;
        if 0 <= j < now.len() {
            assert(now.contains(now[j]));
        }
    }
}

/// What a call of [`Decoder::flush`] gives: one report of each row that changed since it
/// was last told, and of no other, with the row's name and a character for each glyph,
/// from left to right. The rows keep their glyphs and have nothing more to tell.
pub proof fn law_flush_tells_what_changed(d: &mut Decoder, out: Vec<RowReport>, i: int, k: int)
    requires
        old(d).wf(),
        call_ensures(Decoder::flush, (d,), out),
        0 <= i < 5,
    ensures
        old(d)@.rows[i].dirty <==> exists|n: int|
            0 <= n < out@.len() && (#[trigger] out@[n]).row == i,
        0 <= k < out@.len() ==> {
            let r = out@[k];
            &&& r.row < 5
            &&& r.name@ == row_names()[r.row as int]
            &&& r.value@.len() == old(d)@.rows[r.row as int].digits.len()
            &&& forall|n: int|
                0 <= n < r.value@.len() ==> #[trigger] r.value@[n] == shown(
                    old(d)@.rows[r.row as int].digits[n].1,
                )
        },
        0 <= i < k < out@.len() ==> out@[i].row < out@[k].row,
        final(d)@.rows[i].digits == old(d)@.rows[i].digits,
        !final(d)@.rows[i].dirty,
{
    old(d).law_rows_are_in_order(i);
    let rows = old(d)@.rows;
    law_every_change_is_told_once(rows, i);
    law_told_rows_are_quiet(rows, i);
    let told = reports(rows, ROWS_LEN as nat);
    assert(report_values(out@) == told);
    assert(forall|n: int| 0 <= n < out@.len() ==> (#[trigger] told[n]) == out@[n]@);
    assert forall|n: int| 0 <= n < out@.len() implies (#[trigger] out@[n])@ == told[n] by {}
    if rows[i].dirty {
        let n = choose|n: int| 0 <= n < told.len() && (#[trigger] told[n]).row == i;
        assert(out@[n].row == i);
    }
    if 0 <= k < out@.len() {
        assert(out@[k]@ == told[k]);
    }
    if 0 <= i < k < out@.len() {
        assert(out@[i]@ == told[i]);
    }
}

/// A second call of [`Decoder::flush`] right after a first one tells nothing.
pub proof fn law_a_second_flush_tells_nothing(
    d: &mut Decoder,
    first: Vec<RowReport>,
    again: &mut Decoder,
    second: Vec<RowReport>,
)
    requires
        old(d).wf(),
        call_ensures(Decoder::flush, (d,), first),
        *old(again) == *final(d),
        call_ensures(Decoder::flush, (again,), second),
    ensures
        second@.len() == 0,
{
    old(d).law_rows_are_in_order(0);
    law_told_rows_are_quiet(old(d)@.rows, 0);
    assert(report_values(second@).len() == 0);
}

} // verus!
