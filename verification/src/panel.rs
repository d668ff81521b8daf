//! The display controller, as far as its bus traffic shows it.
//!
//! - `SET_COLUMN_ADDRESS (0x2A)`: four parameter words, one byte in each.
//! - `SET_ROW_ADDRESS (0x2B)`: likewise.
//! - `MEMORY_WRITE (0x2C)` and `MEMORY_WRITE_CONTINUE (0x3C)`: RGB565 pixel
//!   words; the controller moves on by column, then by row, within the window.

use vstd::prelude::*;

verus! {

/// Columns of the panel.
pub const WIDTH: u16 = 320;

/// Rows of the panel.
pub const HEIGHT: u16 = 480;

/// Pixels of the panel.
pub const PIXELS: usize = 320 * 480;

/// The command that is being received.
pub enum Command {
    Other,
    /// SET_COLUMN_ADDRESS, with the parameter bytes so far.
    ColAddr(Seq<u8>),
    /// SET_ROW_ADDRESS, with the parameter bytes so far.
    RowAddr(Seq<u8>),
    /// MEMORY_WRITE or MEMORY_WRITE_CONTINUE.
    MemWrite,
}

/// The command that a command word starts.
pub open spec fn begun(word: u16) -> Command {
    if word % 256 == 0x2A {
        Command::ColAddr(Seq::empty())
    } else if word % 256 == 0x2B {
        Command::RowAddr(Seq::empty())
    } else if word % 256 == 0x2C || word % 256 == 0x3C {
        Command::MemWrite
    } else {
        Command::Other
    }
}

/// The parameter bytes after one more word; those past the fourth are ignored.
pub open spec fn with_param(params: Seq<u8>, word: u16) -> Seq<u8> {
    if params.len() < 4 {
        params.push((word % 256) as u8)
    } else {
        params
    }
}

/// The big-endian start and end that four parameter bytes spell.
pub open spec fn bounds(params: Seq<u8>) -> (u16, u16) {
    ((256 * params[0] + params[1]) as u16, (256 * params[2] + params[3]) as u16)
}

/// Whether this word is the one that completes the parameters.
pub open spec fn completes(params: Seq<u8>) -> bool {
    params.len() == 3
}

/// The window that writes go to: both ends are within it.
#[derive(Clone, Copy, Debug)]
pub struct Window {
    pub col_start: u16,
    pub col_end: u16,
    pub row_start: u16,
    pub row_end: u16,
}

/// The whole panel.
pub open spec fn whole_panel() -> Window {
    Window { col_start: 0, col_end: 319, row_start: 0, row_end: 479 }
}

/// The cell after `(col, row)`: the next column, and past the window's last
/// column the first column of the next row, and past its last row the first.
/// The counters are 16 bits wide.
pub open spec fn next_cell(w: Window, cell: (u16, u16)) -> (u16, u16) {
    let col = ((cell.0 + 1) % 65536) as u16;
    if col <= w.col_end {
        (col, cell.1)
    } else {
        let row = ((cell.1 + 1) % 65536) as u16;
        (w.col_start, if row > w.row_end {
            w.row_start
        } else {
            row
        })
    }
}

/// Where a cell lies in the pixel list, if it is on the panel.
pub open spec fn cell_index(cell: (u16, u16)) -> Option<int> {
    if cell.0 < WIDTH && cell.1 < HEIGHT {
        Some(cell.1 * 320 + cell.0)
    } else {
        None
    }
}

/// The pixels after one is written to a cell; off the panel nothing is.
pub open spec fn written(pixels: Seq<u16>, cell: (u16, u16), px: u16) -> Seq<u16> {
    match cell_index(cell) {
        Some(i) => pixels.update(i, px),
        None => pixels,
    }
}

/// The cell that the `n`-th pixel after `cell` goes to.
pub open spec fn cell_after(w: Window, cell: (u16, u16), n: nat) -> (u16, u16)
    decreases n,
{
    if n == 0 {
        cell
    } else {
        next_cell(w, cell_after(w, cell, (n - 1) as nat))
    }
}

impl Window {
    /// The cell after `(col, row)`.
    pub fn next(&self, col: u16, row: u16) -> (cell: (u16, u16))
        ensures
            cell == next_cell(*self, (col, row)),
    {
        let next_col: u16 = col.wrapping_add(1);
        if next_col > self.col_end {
            let next_row: u16 = row.wrapping_add(1);
            if next_row > self.row_end {
                (self.col_start, self.row_start)
            } else {
                (self.col_start, next_row)
            }
        } else {
            (next_col, row)
        }
    }
}

/// The command that is being received.
#[derive(Clone, Copy)]
pub enum Cmd {
    Other,
    /// SET_COLUMN_ADDRESS: parameter bytes, and how many have arrived.
    ColAddr { buf: [u8; 4], n: u8 },
    /// SET_ROW_ADDRESS: likewise.
    RowAddr { buf: [u8; 4], n: u8 },
    /// MEMORY_WRITE or MEMORY_WRITE_CONTINUE.
    MemWrite,
}

impl View for Cmd {
    type V = Command;

    open spec fn view(&self) -> Command {
        match *self {
            Cmd::Other => Command::Other,
            Cmd::ColAddr { buf, n } => Command::ColAddr(buf@.take(n as int)),
            Cmd::RowAddr { buf, n } => Command::RowAddr(buf@.take(n as int)),
            Cmd::MemWrite => Command::MemWrite,
        }
    }
}

impl Cmd {
    /// No more than four parameter bytes.
    pub open spec fn wf(&self) -> bool {
        match *self {
            Cmd::ColAddr { n, .. } => n <= 4,
            Cmd::RowAddr { n, .. } => n <= 4,
            _ => true,
        }
    }

    /// The command that a command word starts.
    pub fn begin(word: u16) -> (cmd: Self)
        ensures
            cmd.wf(),
            cmd@ == begun(word),
    {
        let byte: u16 = word % 256;
        if byte == 0x2A {
            let cmd = Cmd::ColAddr { buf: [0u8; 4], n: 0 };
            assert(cmd@->ColAddr_0 =~= Seq::<u8>::empty());
            cmd
        } else if byte == 0x2B {
            let cmd = Cmd::RowAddr { buf: [0u8; 4], n: 0 };
            assert(cmd@->RowAddr_0 =~= Seq::<u8>::empty());
            cmd
        } else if byte == 0x2C || byte == 0x3C {
            Cmd::MemWrite
        } else {
            Cmd::Other
        }
    }
}

/// Takes one parameter word. Returns the parameters with it, and the start and
/// end that they spell when this word completes them.
pub fn collect(buf: [u8; 4], n: u8, word: u16) -> (r: ([u8; 4], u8, Option<(u16, u16)>))
    requires
        n <= 4,
    ensures
        r.1 <= 4,
        r.0@.take(r.1 as int) == with_param(buf@.take(n as int), word),
        r.2 == if completes(buf@.take(n as int)) {
            Some(bounds(with_param(buf@.take(n as int), word)))
        } else {
            None
        },
{
    if n >= 4 {
        return (buf, n, None);
    }
    let mut b: [u8; 4] = buf;
    b[n as usize] = (word % 256) as u8;
    let ghost before = buf@.take(n as int);
    assert(b@.take(n + 1) =~= with_param(before, word));
    if n == 3 {
        assert(b@.take(4) =~= b@);
        let start: u16 = 256 * (b[0] as u16) + b[1] as u16;
        let end: u16 = 256 * (b[2] as u16) + b[3] as u16;
        (b, 4, Some((start, end)))
    } else {
        (b, n + 1, None)
    }
}

/// A cell never leaves a window that has its end not before its start, once it
/// is inside.
pub proof fn law_cells_stay_in_the_window(w: Window, cell: (u16, u16), n: nat)
    requires
        w.col_start <= cell.0 <= w.col_end < 65535,
        w.row_start <= cell.1 <= w.row_end < 65535,
    ensures
        ({
            let c = cell_after(w, cell, n);
            w.col_start <= c.0 <= w.col_end && w.row_start <= c.1 <= w.row_end
        }),
    decreases n,
{
    if n > 0 {
        law_cells_stay_in_the_window(w, cell, (n - 1) as nat);
    }
}

/// A window fills in scan order: pixel `r * width + c` goes to row `r`, column
/// `c` of it.
pub proof fn law_window_fills_in_scan_order(w: Window, r: nat, c: nat)
    requires
        w.col_start <= w.col_end < 65535,
        w.row_start <= w.row_end < 65535,
        c <= w.col_end - w.col_start,
        r <= w.row_end - w.row_start,
    ensures
        cell_after(
            w,
            (w.col_start, w.row_start),
            r * ((w.col_end - w.col_start + 1) as nat) + c,
        ) == ((w.col_start + c) as u16, (w.row_start + r) as u16),
    decreases r, c,
{
    let width = (w.col_end - w.col_start + 1) as nat;
    if c > 0 {
        law_window_fills_in_scan_order(w, r, (c - 1) as nat);
        assert((r * width + c - 1) as nat + 1 == r * width + c);
    } else if r > 0 {
        law_window_fills_in_scan_order(w, (r - 1) as nat, (width - 1) as nat);
        assert(((r - 1) as nat) * width + (width - 1) as nat + 1 == r * width) by (nonlinear_arith)
            requires
                r > 0,
                width > 0,
        ;
    } else {
        assert(0 * width == 0) by (nonlinear_arith);
    }
}

/// Four parameter words, each with one byte, spell a start and an end: the high byte
/// of either comes first. What comes after them is ignored.
pub proof fn law_four_words_spell_the_bounds(a: u16, b: u16, c: u16, d: u16, more: u16)
    ensures
        ({
            let p1 = with_param(Seq::empty(), a);
            let p2 = with_param(p1, b);
            let p3 = with_param(p2, c);
            let p4 = with_param(p3, d);
            &&& p1.len() == 1 && p2.len() == 2 && p3.len() == 3 && p4.len() == 4
            &&& !completes(Seq::<u8>::empty()) && !completes(p1) && !completes(p2) && completes(p3)
                && !completes(p4)
            &&& with_param(p4, more) == p4
            &&& bounds(p4).0 / 256 == a % 256 && bounds(p4).0 % 256 == b % 256
            &&& bounds(p4).1 / 256 == c % 256 && bounds(p4).1 % 256 == d % 256
        }),
{
}

/// The words of an address command: the high and low bytes of a start and an end,
/// one in each word.
pub open spec fn address_words(columns: bool, start: u16, end: u16) -> Seq<(u16, bool)> {
    seq![
        (if columns { 0x2A } else { 0x2B }, false),
        ((start / 256) as u16, true),
        ((start % 256) as u16, true),
        ((end / 256) as u16, true),
        ((end % 256) as u16, true),
    ]
}

/// Off the panel nothing is written; on it, one pixel is, at its row and column.
pub proof fn law_one_pixel_is_written(pixels: Seq<u16>, col: u16, row: u16, px: u16, i: int)
    requires
        pixels.len() >= PIXELS,
        0 <= i < pixels.len(),
    ensures
        written(pixels, (col, row), px).len() == pixels.len(),
        written(pixels, (col, row), px)[i] == if col < 320 && row < 480 && i == 320 * row + col {
            px
        } else {
            pixels[i]
        },
{
}

/// What four calls of [`collect`] give: nothing for the first three words, and with the
/// fourth the start and the end whose bytes the words held, the high ones first.
pub proof fn law_four_calls_collect_an_address(
    buf: [u8; 4],
    words: (u16, u16, u16, u16),
    r1: ([u8; 4], u8, Option<(u16, u16)>),
    r2: ([u8; 4], u8, Option<(u16, u16)>),
    r3: ([u8; 4], u8, Option<(u16, u16)>),
    r4: ([u8; 4], u8, Option<(u16, u16)>),
)
    requires
        call_ensures(collect, (buf, 0u8, words.0), r1),
        call_ensures(collect, (r1.0, r1.1, words.1), r2),
        call_ensures(collect, (r2.0, r2.1, words.2), r3),
        call_ensures(collect, (r3.0, r3.1, words.3), r4),
    ensures
        r1.2 is None && r2.2 is None && r3.2 is None,
        r4.2 is Some,
        (r4.2->0).0 / 256 == words.0 % 256 && (r4.2->0).0 % 256 == words.1 % 256,
        (r4.2->0).1 / 256 == words.2 % 256 && (r4.2->0).1 % 256 == words.3 % 256,
{
    law_four_words_spell_the_bounds(words.0, words.1, words.2, words.3, 0);
    assert(buf@.take(0) =~= Seq::<u8>::empty());
    let p1 = with_param(Seq::empty(), words.0);
    let p2 = with_param(p1, words.1);
    let p3 = with_param(p2, words.2);
    assert(r1.0@.take(r1.1 as int) == p1);
    assert(r2.0@.take(r2.1 as int) == p2);
    assert(r3.0@.take(r3.1 as int) == p3);
}

/// What a call of [`Window::next`] gives for a cell inside: the one to its right, or in
/// the last column the first one of the next row, and behind the last row of the first.
pub proof fn law_the_next_cell_is_to_the_right(w: Window, col: u16, row: u16, cell: (u16, u16))
    requires
        call_ensures(Window::next, (&w, col, row), cell),
        w.col_start <= col <= w.col_end < 65535,
        w.row_start <= row <= w.row_end < 65535,
    ensures
        col < w.col_end ==> cell.0 == col + 1 && cell.1 == row,
        col == w.col_end && row < w.row_end ==> cell.0 == w.col_start && cell.1 == row + 1,
        col == w.col_end && row == w.row_end ==> cell == (w.col_start, w.row_start),
{
}

} // verus!
