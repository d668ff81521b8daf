//! The panel's picture, rebuilt from whole bus transactions.

use vstd::prelude::*;

use crate::framebuffer;
use crate::framebuffer::bmp;
use crate::framebuffer::bmp::rgb565_to_rgb888;
use crate::host::bus_decoder;
use crate::host::bus_decoder::Frame;
use crate::panel;
use crate::panel::Window;

pub use crate::panel::{HEIGHT, WIDTH};

verus! {

pub struct Framebuffer {
    pub pixels: Vec<u16>,
    pub col_start: u16,
    pub col_end: u16,
    pub row_start: u16,
    pub row_end: u16,
    pub cursor_col: u16,
    pub cursor_row: u16,
}

/// A single MEMORY_WRITE that exactly fills the window: likely a glyph.
pub struct WindowWrite {
    pub x: u16,
    pub y: u16,
    pub w: u16,
    pub h: u16,
    pub pixels: Vec<u16>,
}

/// The pixels after `data` is written from `cell` on, in scan order.
pub open spec fn painted(w: Window, cell: (u16, u16), pixels: Seq<u16>, data: Seq<u16>) -> Seq<u16>
    decreases data.len(),
{
    if data.len() == 0 {
        pixels
    } else {
        panel::written(
            painted(w, cell, pixels, data.drop_last()),
            panel::cell_after(w, cell, (data.len() - 1) as nat),
            data.last(),
        )
    }
}

/// The start and end in the first four words of a payload.
pub open spec fn word_bounds(data: Seq<u16>) -> (u16, u16) {
    (
        (256 * (data[0] as int % 256) + data[1] as int % 256) as u16,
        (256 * (data[2] as int % 256) + data[3] as int % 256) as u16,
    )
}

/// Width or height of a stretch whose ends are within it, in 16 bits.
pub open spec fn extent(start: u16, end: u16) -> u16 {
    ((end - start + 1) % 65536) as u16
}

/// Whether `n` pixels exactly fill the window.
pub open spec fn fills(w: Window, n: nat) -> bool {
    &&& w.col_start <= w.col_end
    &&& w.row_start <= w.row_end
    &&& n == extent(w.col_start, w.col_end) * extent(w.row_start, w.row_end)
}

/// What a framebuffer knows.
pub struct Canvas {
    pub pixels: Seq<u16>,
    pub window: Window,
    /// The cell of the next pixel.
    pub cell: (u16, u16),
}

/// A window write as a mathematical value.
pub struct Write {
    pub x: u16,
    pub y: u16,
    pub w: u16,
    pub h: u16,
    pub pixels: Seq<u16>,
}

impl View for WindowWrite {
    type V = Write;

    open spec fn view(&self) -> Write {
        Write { x: self.x, y: self.y, w: self.w, h: self.h, pixels: self.pixels@ }
    }
}

/// The value of an optional window write.
pub open spec fn write_value(write: Option<WindowWrite>) -> Option<Write> {
    match write {
        Some(w) => Some(w@),
        None => None,
    }
}

/// The canvas after a transaction: an address command with its four words sets
/// the window and moves the cursor to its first cell, a write paints from the
/// window's first cell, and a continued one from where the last ended.
pub open spec fn applied(c: Canvas, t: bus_decoder::Transaction) -> Canvas {
    let w = c.window;
    if t.cmd == 0x2A && t.data.len() >= 4 {
        let (col_start, col_end) = word_bounds(t.data);
        Canvas {
            window: Window { col_start, col_end, ..w },
            cell: (col_start, w.row_start),
            ..c
        }
    } else if t.cmd == 0x2B && t.data.len() >= 4 {
        let (row_start, row_end) = word_bounds(t.data);
        Canvas {
            window: Window { row_start, row_end, ..w },
            cell: (w.col_start, row_start),
            ..c
        }
    } else if t.cmd == 0x2C || t.cmd == 0x3C {
        let from = if t.cmd == 0x2C {
            (w.col_start, w.row_start)
        } else {
            c.cell
        };
        Canvas {
            pixels: painted(w, from, c.pixels, t.data),
            cell: panel::cell_after(w, from, t.data.len()),
            ..c
        }
    } else {
        c
    }
}

/// The window write that a transaction is: a MEMORY_WRITE that exactly fills the
/// window.
pub open spec fn window_write(w: Window, t: bus_decoder::Transaction) -> Option<Write> {
    if t.cmd == 0x2C && fills(w, t.data.len()) {
        Some(
            Write {
                x: w.col_start,
                y: w.row_start,
                w: extent(w.col_start, w.col_end),
                h: extent(w.row_start, w.row_end),
                pixels: t.data,
            },
        )
    } else {
        None
    }
}

impl Framebuffer {
    /// What the framebuffer knows.
    pub open spec fn canvas(&self) -> Canvas {
        Canvas { pixels: self.pixels@, window: self.window(), cell: self.cell() }
    }

    /// One pixel for each cell of the panel.
    pub open spec fn wf(&self) -> bool {
        self.pixels@.len() == panel::PIXELS
    }

    /// The window that writes go to.
    pub open spec fn window(&self) -> Window {
        Window {
            col_start: self.col_start,
            col_end: self.col_end,
            row_start: self.row_start,
            row_end: self.row_end,
        }
    }

    /// The cell of the next pixel.
    pub open spec fn cell(&self) -> (u16, u16) {
        (self.cursor_col, self.cursor_row)
    }

    /// A black panel, with all of it as the window.
    pub fn new() -> (fb: Self)
        ensures
            fb.wf(),
            fb.pixels@ == Seq::new(panel::PIXELS as nat, |i: int| 0u16),
            fb.window() == panel::whole_panel(),
            fb.cell() == (0u16, 0u16),
    {
        let pixels: Vec<u16> = vec![0u16; panel::PIXELS];
        assert(pixels@ =~= Seq::new(panel::PIXELS as nat, |i: int| 0u16));
        Framebuffer {
            pixels,
            col_start: 0,
            col_end: WIDTH - 1,
            row_start: 0,
            row_end: HEIGHT - 1,
            cursor_col: 0,
            cursor_row: 0,
        }
    }

    /// Applies a transaction. A MEMORY_WRITE that exactly fills the window is
    /// handed back.
    pub fn apply(&mut self, tx: &Frame) -> (write: Option<WindowWrite>)
        requires
            old(self).wf(),
        ensures
            final(self).wf(),
            final(self).canvas() == applied(old(self).canvas(), tx@),
            write_value(write) == window_write(old(self).window(), tx@),
    {
        if tx.cmd == 0x2A {
            if tx.data.len() >= 4 {
                let start: u16 = 256 * (tx.data[0] % 256) + tx.data[1] % 256;
                let end: u16 = 256 * (tx.data[2] % 256) + tx.data[3] % 256;
                self.col_start = start;
                self.col_end = end;
                self.cursor_col = start;
                self.cursor_row = self.row_start;
            }
            None
        } else if tx.cmd == 0x2B {
            if tx.data.len() >= 4 {
                let start: u16 = 256 * (tx.data[0] % 256) + tx.data[1] % 256;
                let end: u16 = 256 * (tx.data[2] % 256) + tx.data[3] % 256;
                self.row_start = start;
                self.row_end = end;
                self.cursor_col = self.col_start;
                self.cursor_row = start;
            }
            None
        } else if tx.cmd == 0x2C || tx.cmd == 0x3C {
            if tx.cmd == 0x2C {
                self.cursor_col = self.col_start;
                self.cursor_row = self.row_start;
            }
            self.paint(&tx.data);
            if tx.cmd == 0x2C && self.col_end >= self.col_start && self.row_end >= self.row_start {
                let w: u16 = (self.col_end - self.col_start).wrapping_add(1);
                let h: u16 = (self.row_end - self.row_start).wrapping_add(1);
                assert(w * h <= 65535 * 65535) by (nonlinear_arith)
                    requires
                        w <= 65535,
                        h <= 65535,
                ;
                if tx.data.len() as u64 == w as u64 * h as u64 {
                    let pixels: Vec<u16> = tx.data.clone();
                    assert(pixels@ =~= tx.data@);
                    return Some(
                        WindowWrite { x: self.col_start, y: self.row_start, w, h, pixels },
                    );
                }
            }
            None
        } else {
            None
        }
    }

    /// Writes pixels from the cursor on.
    fn paint(&mut self, data: &Vec<u16>)
        requires
            old(self).wf(),
        ensures
            final(self).wf(),
            final(self).window() == old(self).window(),
            final(self).cell() == panel::cell_after(
                old(self).window(),
                old(self).cell(),
                data@.len(),
            ),
            final(self).pixels@ == painted(
                old(self).window(),
                old(self).cell(),
                old(self).pixels@,
                data@,
            ),
    {
        let window = Window {
            col_start: self.col_start,
            col_end: self.col_end,
            row_start: self.row_start,
            row_end: self.row_end,
        };
        let mut i: usize = 0;
        while i < data.len()
            invariant
                i <= data.len(),
                self.wf(),
                window == old(self).window(),
                self.window() == window,
                self.cell() == panel::cell_after(window, old(self).cell(), i as nat),
                self.pixels@ == painted(
                    window,
                    old(self).cell(),
                    old(self).pixels@,
                    data@.take(i as int),
                ),
            decreases data.len() - i,
        {
            let px: u16 = data[i];
            if self.cursor_col < WIDTH && self.cursor_row < HEIGHT {
                let idx: usize = self.cursor_row as usize * 320 + self.cursor_col as usize;
                self.pixels.set(idx, px);
            }
            let (col, row) = window.next(self.cursor_col, self.cursor_row);
            self.cursor_col = col;
            self.cursor_row = row;
            assert(data@.take(i + 1).drop_last() =~= data@.take(i as int));
            i += 1;
        }
        assert(data@.take(i as int) =~= data@);
    }

    /// The picture as RGBA, turned upright: the panel is mounted upside down.
    pub fn to_rgba8(&self) -> (out: Vec<u8>)
        requires
            self.wf(),
        ensures
            out@ == bmp::rgba_bytes(self.pixels@, self.pixels@.len()),
    {
        let total: usize = self.pixels.len();
        let mut out: Vec<u8> = Vec::with_capacity(total * 4);
        let mut n: usize = 0;
        while n < total
            invariant
                self.wf(),
                total == self.pixels@.len(),
                n <= total,
                out@.len() == 4 * n,
                forall|k: int|
                    0 <= k < 4 * n ==> #[trigger] out@[k] == bmp::rgba_channel(
                        self.pixels@[total - 1 - k / 4],
                        k % 4,
                    ),
            decreases total - n,
        {
            let (r, g, b) = rgb565_to_rgb888(self.pixels[total - 1 - n]);
            out.push(r);
            out.push(g);
            out.push(b);
            out.push(0xFF);
            n += 1;
            assert((4 * n - 4) / 4 == n - 1 && (4 * n - 3) / 4 == n - 1 && (4 * n - 2) / 4 == n - 1
                && (4 * n - 1) / 4 == n - 1);
        }
        assert(out@ =~= bmp::rgba_bytes(self.pixels@, self.pixels@.len()));
        out
    }
}

/// The picture after a list of pixel words, taken one by one.
pub open spec fn fed_pixels(p: framebuffer::Picture, data: Seq<u16>) -> framebuffer::Picture
    decreases data.len(),
{
    if data.len() == 0 {
        p
    } else {
        framebuffer::fed(fed_pixels(p, data.drop_last()), data.last(), true, |c: u16| c)
    }
}

/// Both ways to rebuild the picture agree: a write applied as a whole leaves the
/// pixels and the cursor that its words leave one by one.
pub proof fn law_words_and_transactions_agree(p: framebuffer::Picture, data: Seq<u16>)
    requires
        p.cmd is MemWrite,
    ensures
        fed_pixels(p, data) == (framebuffer::Picture {
            pixels: painted(p.window, p.cell, p.pixels, data),
            cell: panel::cell_after(p.window, p.cell, data.len()),
            ..p
        }),
    decreases data.len(),
{
    if data.len() > 0 {
        law_words_and_transactions_agree(p, data.drop_last());
    }
}

/// An address transaction sets the window: the high and low bytes of a start and an
/// end, one in each word, give that start and end, whatever else the words hold and
/// whatever follows them. No pixel changes.
pub proof fn law_address_transactions_set_the_window(
    c: Canvas,
    t: bus_decoder::Transaction,
    start: u16,
    end: u16,
)
    requires
        t.cmd == 0x2A || t.cmd == 0x2B,
        t.data.len() >= 4,
        t.data[0] % 256 == start / 256,
        t.data[1] % 256 == start % 256,
        t.data[2] % 256 == end / 256,
        t.data[3] % 256 == end % 256,
    ensures
        applied(c, t).window == if t.cmd == 0x2A {
            Window { col_start: start, col_end: end, ..c.window }
        } else {
            Window { row_start: start, row_end: end, ..c.window }
        },
        applied(c, t).cell == (applied(c, t).window.col_start, applied(c, t).window.row_start),
        applied(c, t).pixels == c.pixels,
        window_write(c.window, t) is None,
{
}

/// Both ways to rebuild the picture see the same window: an address transaction
/// leaves the one that its words leave, taken one by one.
pub proof fn law_addresses_agree(
    c: Canvas,
    p: framebuffer::Picture,
    start: u16,
    end: u16,
    columns: bool,
    kept: spec_fn(u16) -> u16,
)
    requires
        c.window == p.window,
    ensures
        applied(
            c,
            bus_decoder::Transaction {
                cmd: if columns {
                    0x2A
                } else {
                    0x2B
                },
                data: seq![
                    (start / 256) as u16,
                    (start % 256) as u16,
                    (end / 256) as u16,
                    (end % 256) as u16,
                ],
            },
        ).window == framebuffer::fed_all(
            p,
            panel::address_words(columns, start, end),
            kept,
        ).window,
{
    framebuffer::law_address_words_set_the_window(p, start, end, columns, kept);
}

proof fn lemma_scan(w: Window, n: nat)
    requires
        w.col_start <= w.col_end < 320,
        w.row_start <= w.row_end < 480,
        n < (w.col_end - w.col_start + 1) * (w.row_end - w.row_start + 1),
    ensures
        ({
            let width = w.col_end - w.col_start + 1;
            let r = n as int / width;
            let c = n as int % width;
            &&& 0 <= r <= w.row_end - w.row_start
            &&& 0 <= c < width
            &&& n == r * width + c
            &&& panel::cell_after(w, (w.col_start, w.row_start), n) == (
                (w.col_start + c) as u16,
                (w.row_start + r) as u16,
            )
        }),
{
    let width = w.col_end - w.col_start + 1;
    let height = w.row_end - w.row_start + 1;
    let r = n as int / width;
    let c = n as int % width;
    assert(n == r * width + c && 0 <= r && 0 <= c < width && r < height) by (nonlinear_arith)
        requires
            width > 0,
            0 <= n < width * height,
            r == n as int / width,
            c == n as int % width,
    ;
    panel::law_window_fills_in_scan_order(w, r as nat, c as nat);
}

/// Places row by row are told apart by their rows and columns.
proof fn lemma_place_in_a_window(width: int, dy: int, dx: int, r: int, c: int)
    requires
        width > 0,
        0 <= dy,
        0 <= dx < width,
        0 <= c < width,
    ensures
        (dy == r && dx == c) <==> dy * width + dx == r * width + c,
        dy * width + dx >= 0,
{
    assert((dy == r && dx == c) <==> dy * width + dx == r * width + c) by (nonlinear_arith)
        requires
            width > 0,
            0 <= dx < width,
            0 <= c < width,
    ;
    assert(dy * width + dx >= 0) by (nonlinear_arith)
        requires
            dy >= 0,
            dx >= 0,
            width > 0,
    ;
}

/// A write fills its window from the first cell on, row by row: the pixel `c`
/// columns and `r` rows into the window is word `r * width + c`. Cells that the
/// words do not reach, and all cells outside the window, keep their pixels.
#[verifier::rlimit(50)]
pub proof fn law_a_write_fills_its_window(
    w: Window,
    pixels: Seq<u16>,
    data: Seq<u16>,
    x: u16,
    y: u16,
)
    requires
        w.col_start <= w.col_end < 320,
        w.row_start <= w.row_end < 480,
        pixels.len() == panel::PIXELS,
        data.len() <= (w.col_end - w.col_start + 1) * (w.row_end - w.row_start + 1),
        x < 320,
        y < 480,
    ensures
        ({
            let k = (y - w.row_start) * (w.col_end - w.col_start + 1) + (x - w.col_start);
            let after = painted(w, (w.col_start, w.row_start), pixels, data);
            &&& after.len() == pixels.len()
            &&& after[320 * y + x] == if w.col_start <= x <= w.col_end && w.row_start <= y
                <= w.row_end && k < data.len() {
                data[k]
            } else {
                pixels[320 * y + x]
            }
        }),
    decreases data.len(),
{
    let width = w.col_end - w.col_start + 1;
    if data.len() > 0 {
        let n = (data.len() - 1) as nat;
        let before = data.drop_last();
        law_a_write_fills_its_window(w, pixels, before, x, y);
        lemma_scan(w, n);
        let r = n as int / width;
        let c = n as int % width;
        let k = (y - w.row_start) * width + (x - w.col_start);
        let was = painted(w, (w.col_start, w.row_start), pixels, before);
        panel::law_one_pixel_is_written(
            was,
            (w.col_start + c) as u16,
            (w.row_start + r) as u16,
            data.last(),
            320 * y + x,
        );
        let inside = w.col_start <= x <= w.col_end && w.row_start <= y <= w.row_end;
        if inside {
            lemma_place_in_a_window(width, y - w.row_start, x - w.col_start, r, c);
            if k < n {
                assert(before[k] == data[k]);
            }
        }
    }
}

/// The picture after a memory write is the one whose window holds its words.
pub proof fn law_memory_writes_paint_their_window(
    c: Canvas,
    data: Seq<u16>,
    x: u16,
    y: u16,
)
    requires
        c.window.col_start <= c.window.col_end < 320,
        c.window.row_start <= c.window.row_end < 480,
        c.pixels.len() == panel::PIXELS,
        data.len() <= (c.window.col_end - c.window.col_start + 1) * (c.window.row_end
            - c.window.row_start + 1),
        x < 320,
        y < 480,
    ensures
        ({
            let w = c.window;
            let k = (y - w.row_start) * (w.col_end - w.col_start + 1) + (x - w.col_start);
            let after = applied(c, bus_decoder::Transaction { cmd: 0x2C, data });
            &&& after.window == w
            &&& after.pixels[320 * y + x] == if w.col_start <= x <= w.col_end && w.row_start <= y
                <= w.row_end && k < data.len() {
                data[k]
            } else {
                c.pixels[320 * y + x]
            }
        }),
{
    law_a_write_fills_its_window(c.window, c.pixels, data, x, y);
}

proof fn lemma_painted_concat(
    w: Window,
    cell: (u16, u16),
    pixels: Seq<u16>,
    a: Seq<u16>,
    b: Seq<u16>,
)
    ensures
        panel::cell_after(w, panel::cell_after(w, cell, a.len()), b.len()) == panel::cell_after(
            w,
            cell,
            (a + b).len(),
        ),
        painted(w, panel::cell_after(w, cell, a.len()), painted(w, cell, pixels, a), b) == painted(
            w,
            cell,
            pixels,
            a + b,
        ),
    decreases b.len(),
{
    if b.len() == 0 {
        assert(a + b =~= a);
    } else {
        lemma_painted_concat(w, cell, pixels, a, b.drop_last());
        assert((a + b).drop_last() =~= a + b.drop_last());
    }
}

/// A write that is continued is one write: MEMORY_WRITE_CONTINUE goes on in the cell
/// after the last.
pub proof fn law_continued_writes_are_one_write(c: Canvas, a: Seq<u16>, b: Seq<u16>)
    ensures
        applied(
            applied(c, bus_decoder::Transaction { cmd: 0x2C, data: a }),
            bus_decoder::Transaction { cmd: 0x3C, data: b },
        ) == applied(c, bus_decoder::Transaction { cmd: 0x2C, data: a + b }),
{
    lemma_painted_concat(
        c.window,
        (c.window.col_start, c.window.row_start),
        c.pixels,
        a,
        b,
    );
}

/// A write is handed back if and only if it has exactly the pixels of its window; it
/// then has the window's place and size.
pub proof fn law_a_window_is_handed_back_once_full(w: Window, data: Seq<u16>)
    requires
        w.col_start <= w.col_end < 320,
        w.row_start <= w.row_end < 480,
    ensures
        match window_write(w, bus_decoder::Transaction { cmd: 0x2C, data }) {
            Some(write) => {
                &&& write.x == w.col_start
                &&& write.y == w.row_start
                &&& write.x + write.w == w.col_end + 1
                &&& write.y + write.h == w.row_end + 1
                &&& write.pixels == data
                &&& data.len() == write.w * write.h
            },
            None => data.len() != (w.col_end - w.col_start + 1) * (w.row_end - w.row_start + 1),
        },
        window_write(w, bus_decoder::Transaction { cmd: 0x3C, data }) is None,
{
}

/// Other commands change nothing, and neither does an address without its four
/// words.
pub proof fn law_other_transactions_change_nothing(c: Canvas, t: bus_decoder::Transaction)
    requires
        t.cmd != 0x2C && t.cmd != 0x3C && (t.cmd != 0x2A && t.cmd != 0x2B || t.data.len() < 4),
    ensures
        applied(c, t) == c,
        window_write(c.window, t) is None,
{
}

/// What a call of [`Framebuffer::apply`] does for an address: the high and low bytes in
/// the low halves of the first four words are the new start and end, the other axis and
/// all pixels stay, and the next pixel goes to the window's first cell.
pub proof fn law_apply_takes_an_address(
    fb: &mut Framebuffer,
    tx: &Frame,
    write: Option<WindowWrite>,
    start: u16,
    end: u16,
)
    requires
        old(fb).wf(),
        call_ensures(Framebuffer::apply, (fb, tx), write),
        tx.cmd == 0x2A || tx.cmd == 0x2B,
        tx.data@.len() >= 4,
        tx.data@[0] % 256 == start / 256,
        tx.data@[1] % 256 == start % 256,
        tx.data@[2] % 256 == end / 256,
        tx.data@[3] % 256 == end % 256,
    ensures
        write is None,
        final(fb).pixels@ == old(fb).pixels@,
        tx.cmd == 0x2A ==> {
            &&& final(fb).col_start == start && final(fb).col_end == end
            &&& final(fb).row_start == old(fb).row_start && final(fb).row_end == old(fb).row_end
        },
        tx.cmd == 0x2B ==> {
            &&& final(fb).row_start == start && final(fb).row_end == end
            &&& final(fb).col_start == old(fb).col_start && final(fb).col_end == old(fb).col_end
        },
        final(fb).cursor_col == final(fb).col_start,
        final(fb).cursor_row == final(fb).row_start,
{
    law_address_transactions_set_the_window(old(fb).canvas(), tx@, start, end);
}

/// What a call of [`Framebuffer::apply`] does for a memory write that its window has
/// room for: the window's cells hold the words row by row, every other cell keeps its
/// pixel, and the write is handed back if and only if it fills the window.
pub proof fn law_apply_paints_the_window(
    fb: &mut Framebuffer,
    tx: &Frame,
    write: Option<WindowWrite>,
    x: u16,
    y: u16,
)
    requires
        old(fb).wf(),
        call_ensures(Framebuffer::apply, (fb, tx), write),
        tx.cmd == 0x2C,
        old(fb).col_start <= old(fb).col_end < 320,
        old(fb).row_start <= old(fb).row_end < 480,
        tx.data@.len() <= (old(fb).col_end - old(fb).col_start + 1) * (old(fb).row_end
            - old(fb).row_start + 1),
        x < 320,
        y < 480,
    ensures
        ({
            let wide = old(fb).col_end - old(fb).col_start + 1;
            let high = old(fb).row_end - old(fb).row_start + 1;
            let k = (y - old(fb).row_start) * wide + (x - old(fb).col_start);
            let inside = old(fb).col_start <= x <= old(fb).col_end && old(fb).row_start <= y
                <= old(fb).row_end && k < tx.data@.len();
            &&& inside ==> final(fb).pixels@[320 * y + x] == tx.data@[k]
            &&& !inside ==> final(fb).pixels@[320 * y + x] == old(fb).pixels@[320 * y + x]
            &&& write is Some <==> tx.data@.len() == wide * high
            &&& write matches Some(w) ==> w.x == old(fb).col_start && w.y == old(fb).row_start
                && w.w == wide && w.h == high && w.pixels@ == tx.data@
        }),
{
    let c = old(fb).canvas();
    assert(tx@ == (bus_decoder::Transaction { cmd: 0x2C, data: tx.data@ }));
    law_memory_writes_paint_their_window(c, tx.data@, x, y);
    law_a_window_is_handed_back_once_full(c.window, tx.data@);
}

/// What a call of [`Framebuffer::to_rgba8`] gives: four bytes for each pixel of the
/// upright picture, red, green, blue and full opacity.
pub proof fn law_to_rgba8_shows_the_picture(fb: Framebuffer, out: Vec<u8>, x: int, y: int)
    requires
        fb.wf(),
        call_ensures(Framebuffer::to_rgba8, (&fb,), out),
        0 <= x < 320,
        0 <= y < 480,
    ensures
        ({
            let at = 4 * (320 * y + x);
            let px = fb.pixels@[320 * (479 - y) + (319 - x)];
            &&& out@.len() == 4 * 320 * 480
            &&& out@[at] / 8 == px / 2048
            &&& out@[at + 1] / 4 == px / 32 % 64
            &&& out@[at + 2] / 8 == px % 32
            &&& out@[at + 3] == 255
        }),
{
    bmp::law_the_rgba_picture_shows_the_picture(fb.pixels@, x, y);
}

/// What a call of [`Framebuffer::new`] gives: a black panel of 320 columns and 480 rows,
/// all of it the window.
pub proof fn law_a_new_panel_is_black(fb: Framebuffer, x: int, y: int)
    requires
        call_ensures(Framebuffer::new, (), fb),
        0 <= x < 320,
        0 <= y < 480,
    ensures
        fb.wf(),
        fb.pixels@.len() == 320 * 480,
        fb.pixels@[320 * y + x] == 0,
        fb.col_start == 0 && fb.col_end == 319 && fb.row_start == 0 && fb.row_end == 479,
        fb.cursor_col == 0 && fb.cursor_row == 0,
{
}

} // verus!
