//! The panel's picture, rebuilt from the words on its bus.
//!
//! Pixel storage is pluggable: [`Rgb565Store`] keeps every colour, and
//! [`Palette4Store`] keeps 4 bits a pixel into a fixed [`Palette`]. The pixel
//! buffer is always the caller's.

use vstd::prelude::*;

use crate::panel;
use crate::panel::{Cmd, Window};

pub mod bmp;
pub mod palette;

pub use crate::panel::{HEIGHT, PIXELS, WIDTH};
pub use bmp::{
    bmp4_header, bmp4_pixels, bmp_header, bmp_pixels_bgr, rgb565_to_rgb888, write_bmp, write_rgba8,
    BMP4_HEADER_LEN, BMP4_LEN, BMP4_PIXELS_LEN, BMP_HEADER_LEN, BMP_LEN, RGBA8_LEN,
};
pub use palette::{default_palette, Palette, MISC_INDEX};

verus! {

/// Pixel storage, addressed by `row * WIDTH + col`. An implementation decides
/// how it keeps the colour.
pub trait PixelStore {
    /// The colours that reading gives back.
    open spec fn colors(&self) -> Seq<u16> {
        arbitrary()
    }

    /// The colour that is kept when `rgb565` is stored.
    open spec fn kept(&self, rgb565: u16) -> u16 {
        arbitrary()
    }

    /// What the implementation needs to hold of itself.
    open spec fn wf(&self) -> bool {
        arbitrary()
    }

    /// Number of pixels that the store holds.
    fn len(&self) -> (n: usize)
        requires
            self.wf(),
        ensures
            n == self.colors().len(),
    ;

    /// Whether it holds none.
    fn is_empty(&self) -> (b: bool)
        requires
            self.wf(),
        ensures
            b == (self.colors().len() == 0),
    {
        self.len() == 0
    }

    /// Stores an RGB565 colour at `idx`.
    fn set(&mut self, idx: usize, rgb565: u16)
        requires
            old(self).wf(),
            idx < old(self).colors().len(),
        ensures
            final(self).wf(),
            final(self).colors() == old(self).colors().update(
                idx as int,
                old(self).kept(rgb565),
            ),
            forall|c: u16| #[trigger] final(self).kept(c) == old(self).kept(c),
    ;

    /// Reads the RGB565 colour at `idx` back.
    fn get(&self, idx: usize) -> (rgb565: u16)
        requires
            self.wf(),
            idx < self.colors().len(),
        ensures
            rgb565 == self.colors()[idx as int],
    ;
}

/// Full fidelity: one `u16` a pixel.
pub struct Rgb565Store<'a> {
    pub pixels: &'a mut [u16],
}

impl<'a> Rgb565Store<'a> {
    /// A store over at least [`PIXELS`] pixels.
    pub fn new(pixels: &'a mut [u16]) -> (store: Self)
        requires
            old(pixels)@.len() >= PIXELS,
        ensures
            store.wf(),
            store.colors() == old(pixels)@,
    {
        Rgb565Store { pixels }
    }
}

impl<'a> PixelStore for Rgb565Store<'a> {
    open spec fn colors(&self) -> Seq<u16> {
        self.pixels@
    }

    open spec fn kept(&self, rgb565: u16) -> u16 {
        rgb565
    }

    open spec fn wf(&self) -> bool {
        true
    }

    fn len(&self) -> (n: usize) {
        self.pixels.len()
    }

    fn set(&mut self, idx: usize, rgb565: u16) {
        self.pixels[idx] = rgb565;
    }

    fn get(&self, idx: usize) -> (rgb565: u16) {
        self.pixels[idx]
    }
}

/// 4 bits a pixel into a fixed [`Palette`]. Two pixels share a byte; the low
/// nibble is the even one.
pub struct Palette4Store<'a> {
    /// `bytes[i]` holds pixel `2 * i` (low) and `2 * i + 1` (high).
    pub bytes: &'a mut [u8],
    pub palette: Palette,
}

/// The palette index of pixel `i` in packed bytes.
pub open spec fn nibble(bytes: Seq<u8>, i: int) -> u8 {
    if i % 2 == 0 {
        bytes[i / 2] % 16
    } else {
        bytes[i / 2] / 16
    }
}

/// A byte with the index of pixel `i` put into its half.
pub open spec fn with_nibble(byte: u8, i: int, pal_idx: u8) -> u8 {
    if i % 2 == 0 {
        (byte / 16 * 16 + pal_idx) as u8
    } else {
        (byte % 16 + pal_idx * 16) as u8
    }
}

impl<'a> Palette4Store<'a> {
    /// The palette index of each pixel.
    pub open spec fn indices(&self) -> Seq<u8> {
        Seq::new(2 * self.bytes@.len(), |i: int| nibble(self.bytes@, i))
    }

    /// A store over at least `PIXELS / 2` bytes. No slice is longer than half of
    /// what a `usize` counts.
    pub fn new(bytes: &'a mut [u8], palette: Palette) -> (store: Self)
        requires
            old(bytes)@.len() >= PIXELS / 2,
            2 * old(bytes)@.len() <= usize::MAX,
        ensures
            store.wf(),
            store.bytes@ == old(bytes)@,
            store.palette == palette,
    {
        Palette4Store { bytes, palette }
    }

    /// The palette index at `idx`.
    pub fn index_at(&self, idx: usize) -> (pal_idx: u8)
        requires
            idx < self.indices().len(),
        ensures
            pal_idx == self.indices()[idx as int],
            pal_idx < 16,
    {
        let byte: u8 = self.bytes[idx / 2];
        if idx % 2 == 0 {
            byte % 16
        } else {
            byte / 16
        }
    }

    fn set_index(&mut self, idx: usize, pal_idx: u8)
        requires
            idx < old(self).indices().len(),
            pal_idx < 16,
        ensures
            final(self).indices() == old(self).indices().update(idx as int, pal_idx),
            final(self).bytes@ == old(self).bytes@.update(
                idx as int / 2,
                with_nibble(old(self).bytes@[idx as int / 2], idx as int, pal_idx),
            ),
            final(self).palette == old(self).palette,
    {
        let byte: u8 = self.bytes[idx / 2];
        let ghost before = self.bytes@;
        if idx % 2 == 0 {
            self.bytes[idx / 2] = byte / 16 * 16 + pal_idx;
        } else {
            self.bytes[idx / 2] = byte % 16 + pal_idx * 16;
        }
        assert forall|i: int| 0 <= i < 2 * before.len() implies nibble(self.bytes@, i) == if i
            == idx {
            pal_idx
        } else {
            nibble(before, i)
        } by {
            if i / 2 == idx / 2 {
            }
        }
        assert(self.indices() =~= old(self).indices().update(idx as int, pal_idx));
    }
}

impl<'a> PixelStore for Palette4Store<'a> {
    open spec fn colors(&self) -> Seq<u16> {
        Seq::new(
            2 * self.bytes@.len(),
            |i: int| self.palette.colors@[nibble(self.bytes@, i) as int],
        )
    }

    open spec fn kept(&self, rgb565: u16) -> u16 {
        self.palette.colors@[palette::nearest_index(self.palette.colors@, rgb565) as int]
    }

    open spec fn wf(&self) -> bool {
        2 * self.bytes@.len() <= usize::MAX
    }

    fn len(&self) -> (n: usize) {
        self.bytes.len() * 2
    }

    fn set(&mut self, idx: usize, rgb565: u16)
        ensures
            final(self).indices() == old(self).indices().update(
                idx as int,
                palette::nearest_index(old(self).palette.colors@, rgb565),
            ),
            final(self).bytes@ == old(self).bytes@.update(
                idx as int / 2,
                with_nibble(
                    old(self).bytes@[idx as int / 2],
                    idx as int,
                    palette::nearest_index(old(self).palette.colors@, rgb565),
                ),
            ),
            final(self).palette == old(self).palette,
    {
        let pal_idx: u8 = self.palette.nearest(rgb565);
        let ghost before = self.indices();
        self.set_index(idx, pal_idx);
        assert forall|i: int| 0 <= i < before.len() implies self.colors()[i] == old(
            self,
        ).colors().update(idx as int, old(self).kept(rgb565))[i] by {
            assert(self.indices()[i] == before.update(idx as int, pal_idx)[i]);
        }
        assert(self.colors() =~= old(self).colors().update(idx as int, old(self).kept(rgb565)));
    }

    fn get(&self, idx: usize) -> (rgb565: u16) {
        let pal_idx: u8 = self.index_at(idx);
        self.palette.color(pal_idx)
    }
}

/// What a framebuffer knows.
pub struct Picture {
    pub window: Window,
    /// Column and row of the next pixel.
    pub cell: (u16, u16),
    pub cmd: panel::Command,
    pub pixels: Seq<u16>,
}

/// The picture after one word on the bus; `kept` is what a store makes of a
/// colour.
pub open spec fn fed(
    p: Picture,
    word: u16,
    is_data: bool,
    kept: spec_fn(u16) -> u16,
) -> Picture {
    if !is_data {
        Picture {
            cmd: panel::begun(word),
            cell: if word % 256 == 0x2C {
                (p.window.col_start, p.window.row_start)
            } else {
                p.cell
            },
            ..p
        }
    } else {
        match p.cmd {
            panel::Command::Other => p,
            panel::Command::ColAddr(params) => {
                let now = panel::with_param(params, word);
                let cmd = panel::Command::ColAddr(now);
                if panel::completes(params) {
                    let (col_start, col_end) = panel::bounds(now);
                    Picture { cmd, window: Window { col_start, col_end, ..p.window }, ..p }
                } else {
                    Picture { cmd, ..p }
                }
            },
            panel::Command::RowAddr(params) => {
                let now = panel::with_param(params, word);
                let cmd = panel::Command::RowAddr(now);
                if panel::completes(params) {
                    let (row_start, row_end) = panel::bounds(now);
                    Picture { cmd, window: Window { row_start, row_end, ..p.window }, ..p }
                } else {
                    Picture { cmd, ..p }
                }
            },
            panel::Command::MemWrite => Picture {
                pixels: panel::written(p.pixels, p.cell, kept(word)),
                cell: panel::next_cell(p.window, p.cell),
                ..p
            },
        }
    }
}

/// Rebuilds the picture over a [`PixelStore`].
pub struct Framebuffer<S: PixelStore> {
    store: S,
    window: Window,
    cursor_col: u16,
    cursor_row: u16,
    cmd: Cmd,
}

impl<S: PixelStore> Framebuffer<S> {
    /// The picture so far.
    pub closed spec fn picture(&self) -> Picture {
        Picture {
            window: self.window,
            cell: (self.cursor_col, self.cursor_row),
            cmd: self.cmd@,
            pixels: self.store.colors(),
        }
    }

    /// The store holds at least the panel's pixels.
    pub closed spec fn wf(&self) -> bool {
        &&& self.store.wf()
        &&& self.store.colors().len() >= PIXELS
        &&& self.cmd.wf()
    }

    /// What the store makes of a colour.
    pub closed spec fn kept(&self, rgb565: u16) -> u16 {
        self.store.kept(rgb565)
    }

    /// A well-formed framebuffer covers the panel.
    pub proof fn lemma_covers_the_panel(&self)
        requires
            self.wf(),
        ensures
            self.picture().pixels.len() >= PIXELS,
    {
    }

    /// Starts on a store of at least [`PIXELS`] pixels, with the whole panel as
    /// the window.
    pub fn new(store: S) -> (fb: Self)
        requires
            store.wf(),
            store.colors().len() >= PIXELS,
        ensures
            fb.wf(),
            fb.picture() == (Picture {
                window: panel::whole_panel(),
                cell: (0, 0),
                cmd: panel::Command::Other,
                pixels: store.colors(),
            }),
            forall|c: u16| #[trigger] fb.kept(c) == store.kept(c),
    {
        Framebuffer {
            store,
            window: Window { col_start: 0, col_end: WIDTH - 1, row_start: 0, row_end: HEIGHT - 1 },
            cursor_col: 0,
            cursor_row: 0,
            cmd: Cmd::Other,
        }
    }

    /// The store.
    pub fn store(&self) -> (store: &S)
        requires
            self.wf(),
        ensures
            store.wf(),
            store.colors() == self.picture().pixels,
            forall|c: u16| #[trigger] store.kept(c) == self.kept(c),
    {
        &self.store
    }

    /// Feeds one bus word.
    pub fn feed(&mut self, data: u16, is_data: bool)
        requires
            old(self).wf(),
        ensures
            final(self).wf(),
            final(self).picture() == fed(
                old(self).picture(),
                data,
                is_data,
                |c: u16| old(self).kept(c),
            ),
            forall|c: u16| #[trigger] final(self).kept(c) == old(self).kept(c),
    {
        if !is_data {
            self.cmd = Cmd::begin(data);
            // MEMORY_WRITE_CONTINUE leaves the cursor where it was.
            if data % 256 == 0x2C {
                self.cursor_col = self.window.col_start;
                self.cursor_row = self.window.row_start;
            }
            return;
        }
        match self.cmd {
            Cmd::ColAddr { buf, n } => {
                let (buf, n, done) = panel::collect(buf, n, data);
                self.cmd = Cmd::ColAddr { buf, n };
                if let Some((start, end)) = done {
                    self.window.col_start = start;
                    self.window.col_end = end;
                }
            },
            Cmd::RowAddr { buf, n } => {
                let (buf, n, done) = panel::collect(buf, n, data);
                self.cmd = Cmd::RowAddr { buf, n };
                if let Some((start, end)) = done {
                    self.window.row_start = start;
                    self.window.row_end = end;
                }
            },
            Cmd::MemWrite => {
                self.write_pixel(data);
            },
            Cmd::Other => {},
        }
    }

    fn write_pixel(&mut self, px: u16)
        requires
            old(self).wf(),
        ensures
            final(self).wf(),
            final(self).picture() == (Picture {
                pixels: panel::written(
                    old(self).picture().pixels,
                    old(self).picture().cell,
                    old(self).kept(px),
                ),
                cell: panel::next_cell(old(self).picture().window, old(self).picture().cell),
                ..old(self).picture()
            }),
            forall|c: u16| #[trigger] final(self).kept(c) == old(self).kept(c),
    {
        if self.cursor_col < WIDTH && self.cursor_row < HEIGHT {
            let idx: usize = self.cursor_row as usize * 320 + self.cursor_col as usize;
            self.store.set(idx, px);
        }
        let (col, row) = self.window.next(self.cursor_col, self.cursor_row);
        self.cursor_col = col;
        self.cursor_row = row;
    }

    /// The colour at column `x`, row `y` of the panel.
    pub fn pixel(&self, x: u16, y: u16) -> (rgb565: u16)
        requires
            self.wf(),
            y * 320 + x < self.picture().pixels.len(),
        ensures
            rgb565 == self.picture().pixels[y * 320 + x],
    {
        self.store.get(y as usize * 320 + x as usize)
    }
}

/// The picture after a list of bus words, each with whether it is data.
#[verifier::opaque]
pub open spec fn fed_all(p: Picture, words: Seq<(u16, bool)>, kept: spec_fn(u16) -> u16) -> Picture
    decreases words.len(),
{
    if words.len() == 0 {
        p
    } else {
        fed(fed_all(p, words.drop_last(), kept), words.last().0, words.last().1, kept)
    }
}

/// The address commands set the window: the bytes of a start and an end give that
/// start and end, and nothing else of the picture changes.
pub proof fn law_address_words_set_the_window(
    p: Picture,
    start: u16,
    end: u16,
    columns: bool,
    kept: spec_fn(u16) -> u16,
)
    ensures
        ({
            let after = fed_all(p, panel::address_words(columns, start, end), kept);
            &&& after.window == if columns {
                Window { col_start: start, col_end: end, ..p.window }
            } else {
                Window { row_start: start, row_end: end, ..p.window }
            }
            &&& after.pixels == p.pixels
            &&& after.cell == p.cell
        }),
{
    let words = panel::address_words(columns, start, end);
    let none = Seq::<u8>::empty();
    panel::law_four_words_spell_the_bounds(start / 256, start % 256, end / 256, end % 256, 0);
    assert(words.take(0) =~= Seq::<(u16, bool)>::empty());
    assert({
        let begun = fed_all(p, words.take(1), kept);
        &&& begun.cmd == command(columns, none)
        &&& begun.pixels == p.pixels
        &&& begun.cell == p.cell
        &&& begun.window == p.window
    }) by {
        reveal_with_fuel(fed_all, 2);
        assert(words.take(1).drop_last() =~= words.take(0));
    }
    let p1 = panel::with_param(none, start / 256);
    let p2 = panel::with_param(p1, start % 256);
    let p3 = panel::with_param(p2, end / 256);
    lemma_param(p, words, 1, none, columns, kept);
    lemma_param(p, words, 2, p1, columns, kept);
    lemma_param(p, words, 3, p2, columns, kept);
    lemma_param(p, words, 4, p3, columns, kept);
    assert(words.take(5) =~= words);
    let at = panel::bounds(panel::with_param(p3, end % 256));
    assert(at.0 == start && at.1 == end);
}

spec fn command(columns: bool, params: Seq<u8>) -> panel::Command {
    if columns {
        panel::Command::ColAddr(params)
    } else {
        panel::Command::RowAddr(params)
    }
}

/// One parameter word of an address command.
proof fn lemma_param(
    p: Picture,
    words: Seq<(u16, bool)>,
    n: int,
    params: Seq<u8>,
    columns: bool,
    kept: spec_fn(u16) -> u16,
)
    requires
        0 <= n < words.len(),
        words[n].1,
        fed_all(p, words.take(n), kept).cmd == command(columns, params),
    ensures
        ({
            let was = fed_all(p, words.take(n), kept);
            let now = panel::with_param(params, words[n].0);
            let next = fed_all(p, words.take(n + 1), kept);
            &&& next.cmd == command(columns, now)
            &&& next.pixels == was.pixels
            &&& next.cell == was.cell
            &&& next.window == if !panel::completes(params) {
                was.window
            } else if columns {
                Window {
                    col_start: panel::bounds(now).0,
                    col_end: panel::bounds(now).1,
                    ..was.window
                }
            } else {
                Window {
                    row_start: panel::bounds(now).0,
                    row_end: panel::bounds(now).1,
                    ..was.window
                }
            }
        }),
{
    reveal_with_fuel(fed_all, 1);
    assert(words.take(n + 1).drop_last() =~= words.take(n));
}

/// A pixel word of a write goes to the cell that is next, as the store keeps it, and
/// no other pixel changes. Off the panel nothing does.
pub proof fn law_a_pixel_goes_to_its_cell(
    p: Picture,
    word: u16,
    kept: spec_fn(u16) -> u16,
    x: u16,
    y: u16,
)
    requires
        p.cmd is MemWrite,
        p.pixels.len() >= PIXELS,
        x < 320,
        y < 480,
    ensures
        fed(p, word, true, kept).pixels[320 * y + x] == if p.cell == (x, y) {
            kept(word)
        } else {
            p.pixels[320 * y + x]
        },
        fed(p, word, true, kept).pixels.len() == p.pixels.len(),
        fed(p, word, true, kept).window == p.window,
        fed(p, word, true, kept).cmd is MemWrite,
{
    panel::law_one_pixel_is_written(p.pixels, p.cell.0, p.cell.1, kept(word), 320 * y + x);
}

/// A command word changes no pixel. A write starts at the window's first cell, and a
/// continued one where the last ended; both take pixels. After any other command
/// but the two address commands, data changes nothing.
pub proof fn law_commands_change_no_pixel(p: Picture, word: u16, data: u16, kept: spec_fn(u16) -> u16)
    ensures
        ({
            let q = fed(p, word, false, kept);
            &&& q.pixels == p.pixels
            &&& q.window == p.window
            &&& q.cell == if word % 256 == 0x2C {
                (p.window.col_start, p.window.row_start)
            } else {
                p.cell
            }
            &&& q.cmd is MemWrite <==> word % 256 == 0x2C || word % 256 == 0x3C
            &&& word % 256 != 0x2A && word % 256 != 0x2B && word % 256 != 0x2C && word % 256 != 0x3C
                ==> fed(q, data, true, kept) == q
        }),
{
}

/// Two pixels share a byte, the even one in its low nibble. Putting an index into a
/// byte changes that half and leaves the other.
pub proof fn law_two_indices_share_a_byte(bytes: Seq<u8>, i: int, j: int, pal_idx: u8)
    requires
        0 <= i < bytes.len(),
        0 <= j < 2 * bytes.len(),
        pal_idx < 16,
    ensures
        bytes[i] == nibble(bytes, 2 * i) + 16 * nibble(bytes, 2 * i + 1),
        nibble(bytes, j) < 16,
        with_nibble(bytes[i], 0, pal_idx) == pal_idx + 16 * nibble(bytes, 2 * i + 1),
        with_nibble(bytes[i], 1, pal_idx) == nibble(bytes, 2 * i) + 16 * pal_idx,
        with_nibble(bytes[i], j, pal_idx) == with_nibble(bytes[i], j % 2, pal_idx),
{
}

/// What a call of [`Framebuffer::feed`] does with a pixel of a write: it goes, as the
/// store keeps it, to the cell that is next, and every other pixel stays.
pub proof fn law_feed_paints_one_pixel<S: PixelStore>(
    fb: &mut Framebuffer<S>,
    word: u16,
    x: u16,
    y: u16,
)
    requires
        old(fb).wf(),
        old(fb).picture().cmd is MemWrite,
        call_ensures(Framebuffer::<S>::feed, (fb, word, true), ()),
        x < 320,
        y < 480,
    ensures
        old(fb).picture().cell == (x, y) ==> final(fb).picture().pixels[320 * y + x] == old(
            fb,
        ).kept(word),
        old(fb).picture().cell != (x, y) ==> final(fb).picture().pixels[320 * y + x] == old(
            fb,
        ).picture().pixels[320 * y + x],
        final(fb).picture().window == old(fb).picture().window,
{
    old(fb).lemma_covers_the_panel();
    law_a_pixel_goes_to_its_cell(old(fb).picture(), word, |c: u16| old(fb).kept(c), x, y);
}

/// What a call of [`Palette4Store`]'s `set` does: the pixel gets the palette's index of
/// its colour, and every other pixel keeps its own, the one in the same byte too.
pub proof fn law_storing_changes_one_index(store: &mut Palette4Store<'_>, idx: usize, rgb565: u16, j: int)
    requires
        idx < old(store).colors().len(),
        old(store).wf(),
        call_ensures(<Palette4Store<'_> as PixelStore>::set, (store, idx, rgb565), ()),
        0 <= j < 2 * old(store).bytes@.len(),
    ensures
        final(store).bytes@.len() == old(store).bytes@.len(),
        ({
            let was = if j % 2 == 0 {
                old(store).bytes@[j / 2] % 16
            } else {
                old(store).bytes@[j / 2] / 16
            };
            let now = if j % 2 == 0 {
                final(store).bytes@[j / 2] % 16
            } else {
                final(store).bytes@[j / 2] / 16
            };
            &&& j != idx ==> now == was
            &&& j == idx ==> now == palette::nearest_index(old(store).palette.colors@, rgb565)
        }),
{
    assert(final(store).indices()[j] == nibble(final(store).bytes@, j));
    assert(old(store).indices()[j] == nibble(old(store).bytes@, j));
}

/// What calls of [`Framebuffer::new`] and [`Framebuffer::pixel`] give: the whole panel as
/// the window, and the colour at a column and a row of what the store holds.
pub proof fn law_a_new_framebuffer_shows_its_store<S: PixelStore>(
    store: S,
    fb: Framebuffer<S>,
    x: u16,
    y: u16,
    rgb565: u16,
)
    requires
        store.wf(),
        store.colors().len() >= PIXELS,
        call_ensures(Framebuffer::<S>::new, (store,), fb),
        x < 320,
        y < 480,
        call_ensures(Framebuffer::<S>::pixel, (&fb, x, y), rgb565),
    ensures
        rgb565 == store.colors()[320 * y + x],
        fb.picture().window.col_start == 0 && fb.picture().window.col_end == 319,
        fb.picture().window.row_start == 0 && fb.picture().window.row_end == 479,
        fb.picture().cell == (0u16, 0u16),
{
}

} // verus!
