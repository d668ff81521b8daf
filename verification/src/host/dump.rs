//! Windows worth saving: each glyph once, reduced to two tones.

use std::collections::hash_map::DefaultHasher;
use std::collections::HashSet;
use std::hash::Hasher;

use vstd::prelude::*;
use vstd::std_specs::hash::*;

use crate::bytes;
use crate::host::decoder as glyph;
use crate::host::framebuffer;
use crate::host::framebuffer::WindowWrite;
use crate::panel;
use crate::text;
use crate::text::{push_decimal, push_decimal_padded};

verus! {

/// Smallest width and height of a window worth saving: this leaves out status
/// bars and slivers of animations.
pub const GLYPH_MIN_DIM: u16 = 8;

/// How often a colour occurs.
pub open spec fn occurrences(pixels: Seq<u16>, px: u16) -> nat
    decreases pixels.len(),
{
    if pixels.len() == 0 {
        0
    } else {
        occurrences(pixels.drop_last(), px) + if pixels.last() == px {
            1nat
        } else {
            0nat
        }
    }
}

/// The first of the first `n` pixels whose colour occurs most often.
pub open spec fn commonest(pixels: Seq<u16>, n: nat) -> int
    decreases n,
{
    if n <= 1 {
        0
    } else {
        let i = commonest(pixels, (n - 1) as nat);
        if occurrences(pixels, pixels[n - 1]) > occurrences(pixels, pixels[i]) {
            n - 1
        } else {
            i
        }
    }
}

/// The background: the colour that most pixels have, and of equally common ones
/// the one that comes first.
pub open spec fn background(pixels: Seq<u16>) -> u16 {
    pixels[commonest(pixels, pixels.len())]
}

/// Which pixels are not background.
pub open spec fn mask_of(pixels: Seq<u16>) -> Seq<bool> {
    pixels.map_values(|px: u16| px != background(pixels))
}

/// The background is a colour of the window, and no colour is more common.
pub proof fn law_background_is_commonest(pixels: Seq<u16>, px: u16)
    requires
        pixels.len() > 0,
    ensures
        pixels.contains(background(pixels)),
        occurrences(pixels, px) <= occurrences(pixels, background(pixels)),
{
    lemma_commonest(pixels, pixels.len());
    let i = commonest(pixels, pixels.len());
    assert(pixels[i] == background(pixels));
    if pixels.contains(px) {
        let j = pixels.index_of(px);
        assert(occurrences(pixels, pixels[j]) <= occurrences(pixels, pixels[i]));
    } else {
        lemma_absent(pixels, px);
    }
}

proof fn lemma_absent(pixels: Seq<u16>, px: u16)
    requires
        !pixels.contains(px),
    ensures
        occurrences(pixels, px) == 0,
    decreases pixels.len(),
{
    if pixels.len() > 0 {
        assert forall|x: u16| pixels.drop_last().contains(x) implies pixels.contains(x) by {
            let j = pixels.drop_last().index_of(x);
            assert(pixels[j] == x);
        }
        assert(pixels.contains(pixels.last()));
        lemma_absent(pixels.drop_last(), px);
    }
}

proof fn lemma_commonest(pixels: Seq<u16>, n: nat)
    requires
        0 < n <= pixels.len(),
    ensures
        0 <= commonest(pixels, n) < n,
        forall|j: int|
            0 <= j < n ==> occurrences(pixels, #[trigger] pixels[j]) <= occurrences(
                pixels,
                pixels[commonest(pixels, n)],
            ),
    decreases n,
{
    if n > 1 {
        lemma_commonest(pixels, (n - 1) as nat);
    }
}

/// How often each colour occurs.
fn count_colours(pixels: &Vec<u16>) -> (counts: Vec<usize>)
    ensures
        counts@.len() == 65536,
        forall|px: u16| counts@[px as int] == #[trigger] occurrences(pixels@, px),
{
    let mut counts: Vec<usize> = vec![0usize; 65536];
    let mut i: usize = 0;
    while i < pixels.len()
        invariant
            i <= pixels.len(),
            counts@.len() == 65536,
            forall|px: u16|
                counts@[px as int] == #[trigger] occurrences(pixels@.take(i as int), px)
                    && counts@[px as int] <= i,
        decreases pixels.len() - i,
    {
        let px: u16 = pixels[i];
        let ghost before = pixels@.take(i as int);
        let ghost after = pixels@.take(i + 1);
        assert(after.drop_last() =~= before);
        assert(occurrences(before, px) <= i);
        let n: usize = counts[px as usize];
        counts.set(px as usize, n + 1);
        i += 1;
        assert forall|q: u16| counts@[q as int] == #[trigger] occurrences(after, q)
            && counts@[q as int] <= i by {
            assert(occurrences(before, q) <= i);
        }
    }
    assert(pixels@.take(i as int) =~= pixels@);
    counts
}

/// The colour that most pixels have.
fn find_background(pixels: &Vec<u16>) -> (px: u16)
    requires
        pixels@.len() > 0,
    ensures
        px == background(pixels@),
{
    let counts: Vec<usize> = count_colours(pixels);
    let mut best: usize = 0;
    let mut i: usize = 1;
    while i < pixels.len()
        invariant
            1 <= i <= pixels.len(),
            best < i,
            best == commonest(pixels@, i as nat),
            counts@.len() == 65536,
            forall|px: u16| counts@[px as int] == #[trigger] occurrences(pixels@, px),
        decreases pixels.len() - i,
    {
        assert(counts@[pixels@[i as int] as int] == occurrences(pixels@, pixels@[i as int]));
        assert(counts@[pixels@[best as int] as int] == occurrences(pixels@, pixels@[best as int]));
        if counts[pixels[i] as usize] > counts[pixels[best] as usize] {
            best = i;
        }
        i += 1;
    }
    pixels[best]
}

/// A window to be saved: its size, the start of its file name, and its picture.
pub struct GlyphDump {
    pub w: u16,
    pub h: u16,
    pub stem: String,
    pub rgba: Vec<u8>,
}

/// A window to be saved, as a mathematical value.
pub struct Dump {
    pub w: u16,
    pub h: u16,
    pub stem: Seq<char>,
    pub rgba: Seq<u8>,
}

impl View for GlyphDump {
    type V = Dump;

    open spec fn view(&self) -> Dump {
        Dump { w: self.w, h: self.h, stem: self.stem@, rgba: self.rgba@ }
    }
}

/// The start of the file name: size and place on the display.
pub open spec fn dump_stem(w: framebuffer::Write) -> Seq<char> {
    let (x, y) = glyph::display_place(w.x, w.y, w.w, w.h);
    text::decimal(w.w as nat) + "x"@ + text::decimal(w.h as nat) + "_"@ + text::padded(
        '0',
        3,
        text::decimal(x as nat),
    ) + "_"@ + text::padded('0', 3, text::decimal(y as nat))
}

/// White where the mask is set and black elsewhere, turned upright.
pub open spec fn mask_rgba(mask: Seq<bool>) -> Seq<u8> {
    Seq::new(
        4 * mask.len(),
        |k: int|
            if k % 4 == 3 || mask[mask.len() - 1 - k / 4] {
                0xFFu8
            } else {
                0u8
            },
    )
}

/// The writes to std's hasher that a window's size and mask make.
pub open spec fn mask_writes(w: u16, h: u16, mask: Seq<bool>) -> Seq<Seq<u8>> {
    seq![bytes::le16(w), bytes::le16(h)] + mask.map_values(
        |m: bool|
            seq![if m {
                1u8
            } else {
                0u8
            }],
    )
}

/// What a window is known by: a hash of its size and mask, so that a glyph is
/// saved once whatever its colours and wherever it stands.
pub open spec fn dump_key(w: framebuffer::Write) -> u64 {
    DefaultHasher::spec_finish(mask_writes(w.w, w.h, mask_of(w.pixels)))
}

/// Whether a window is worth saving.
pub open spec fn worth_saving(w: framebuffer::Write) -> bool {
    w.w >= GLYPH_MIN_DIM && w.h >= GLYPH_MIN_DIM
}

/// The mask of a window.
fn make_mask(pixels: &Vec<u16>) -> (mask: Vec<bool>)
    requires
        pixels@.len() > 0,
    ensures
        mask@ == mask_of(pixels@),
{
    let bg: u16 = find_background(pixels);
    let mut mask: Vec<bool> = Vec::new();
    let mut i: usize = 0;
    while i < pixels.len()
        invariant
            i <= pixels.len(),
            bg == background(pixels@),
            mask@ == mask_of(pixels@).take(i as int),
        decreases pixels.len() - i,
    {
        mask.push(pixels[i] != bg);
        i += 1;
        assert(mask@ =~= mask_of(pixels@).take(i as int));
    }
    assert(mask_of(pixels@).take(i as int) =~= mask_of(pixels@));
    mask
}

/// The hash of a window's size and mask.
fn hash_mask(w: u16, h: u16, mask: &Vec<bool>) -> (key: u64)
    ensures
        key == DefaultHasher::spec_finish(mask_writes(w, h, mask@)),
{
    let mut hasher = DefaultHasher::new();
    let wb = bytes::split_u16(w);
    let hb = bytes::split_u16(h);
    hasher.write(&wb);
    hasher.write(&hb);
    let ghost all = mask_writes(w, h, mask@);
    assert(hasher@ =~= all.take(2));
    let mut i: usize = 0;
    while i < mask.len()
        invariant
            i <= mask.len(),
            all == mask_writes(w, h, mask@),
            hasher@ == all.take(2 + i),
        decreases mask.len() - i,
    {
        let b: [u8; 1] = [if mask[i] {
            1u8
        } else {
            0u8
        }];
        hasher.write(&b);
        assert(b@ =~= all[2 + i]);
        i += 1;
        assert(hasher@ =~= all.take(2 + i));
    }
    assert(all.take(2 + i) =~= all);
    hasher.finish()
}

/// The picture of a mask.
fn picture_mask(mask: &Vec<bool>) -> (rgba: Vec<u8>)
    ensures
        rgba@ == mask_rgba(mask@),
{
    let total: usize = mask.len();
    let mut rgba: Vec<u8> = Vec::new();
    let mut n: usize = 0;
    while n < total
        invariant
            total == mask.len(),
            n <= total,
            rgba@.len() == 4 * n,
            forall|k: int| 0 <= k < 4 * n ==> #[trigger] rgba@[k] == mask_rgba(mask@)[k],
        decreases total - n,
    {
        let v: u8 = if mask[total - 1 - n] {
            0xFF
        } else {
            0
        };
        rgba.push(v);
        rgba.push(v);
        rgba.push(v);
        rgba.push(0xFF);
        n += 1;
        assert((4 * n - 4) / 4 == n - 1 && (4 * n - 3) / 4 == n - 1 && (4 * n - 2) / 4 == n - 1
            && (4 * n - 1) / 4 == n - 1);
    }
    assert(rgba@ =~= mask_rgba(mask@));
    rgba
}

/// Reduces a window to a mask, and returns it for saving if it is large enough
/// and no window of this size and mask was saved before.
pub fn dump_window(win: &WindowWrite, seen: &mut HashSet<u64>) -> (dump: Option<GlyphDump>)
    requires
        worth_saving(win@) ==> win.pixels@.len() > 0,
    ensures
        match dump {
            Some(d) => {
                &&& worth_saving(win@)
                &&& !old(seen)@.contains(dump_key(win@))
                &&& final(seen)@ == old(seen)@.insert(dump_key(win@))
                &&& d@ == (Dump {
                    w: win.w,
                    h: win.h,
                    stem: dump_stem(win@),
                    rgba: mask_rgba(mask_of(win.pixels@)),
                })
            },
            None => {
                &&& !worth_saving(win@) || old(seen)@.contains(dump_key(win@))
                &&& final(seen)@ == old(seen)@
            },
        },
{
    if win.w < GLYPH_MIN_DIM || win.h < GLYPH_MIN_DIM {
        return None;
    }
    let mask: Vec<bool> = make_mask(&win.pixels);
    let key: u64 = hash_mask(win.w, win.h, &mask);
    let ghost before = seen@;
    if !seen.insert(key) {
        assert(before.insert(key) =~= before);
        return None;
    }
    let disp_x: u16 = panel::WIDTH.saturating_sub(win.x.wrapping_add(win.w));
    let disp_y: u16 = panel::HEIGHT.saturating_sub(win.y.wrapping_add(win.h));
    let mut stem: String = String::new();
    push_decimal(&mut stem, win.w as u64);
    stem.append("x");
    push_decimal(&mut stem, win.h as u64);
    stem.append("_");
    push_decimal_padded(&mut stem, '0', 3, disp_x as u64);
    stem.append("_");
    push_decimal_padded(&mut stem, '0', 3, disp_y as u64);
    assert(stem@ =~= dump_stem(win@));
    Some(GlyphDump { w: win.w, h: win.h, stem, rgba: picture_mask(&mask) })
}

/// A glyph is saved once: a window of the same size and mask is not saved again.
pub proof fn law_a_glyph_is_saved_once(
    seen: Set<u64>,
    a: framebuffer::Write,
    b: framebuffer::Write,
)
    requires
        a.w == b.w,
        a.h == b.h,
        mask_of(a.pixels) == mask_of(b.pixels),
    ensures
        seen.insert(dump_key(a)).contains(dump_key(b)),
{
}

/// The count of a colour is that of its pixels, whatever their order.
pub proof fn law_counts_are_those_of_the_pixels(pixels: Seq<u16>, px: u16)
    ensures
        occurrences(pixels, px) == pixels.to_multiset().count(px),
    decreases pixels.len(),
{
    broadcast use vstd::seq_lib::group_to_multiset_ensures;

    if pixels.len() > 0 {
        law_counts_are_those_of_the_pixels(pixels.drop_last(), px);
        assert(pixels =~= pixels.drop_last().push(pixels.last()));
    }
}

/// Of equally common colours the background is the one that comes first: every pixel
/// before its first has a colour that is rarer.
pub proof fn law_the_first_of_equals_is_the_background(pixels: Seq<u16>) -> (i: int)
    requires
        pixels.len() > 0,
    ensures
        0 <= i < pixels.len(),
        pixels[i] == background(pixels),
        forall|j: int|
            0 <= j < i ==> occurrences(pixels, #[trigger] pixels[j]) < occurrences(
                pixels,
                background(pixels),
            ),
{
    lemma_first_of_equals(pixels, pixels.len());
    commonest(pixels, pixels.len())
}

proof fn lemma_first_of_equals(pixels: Seq<u16>, n: nat)
    requires
        0 < n <= pixels.len(),
    ensures
        0 <= commonest(pixels, n) < n,
        forall|j: int|
            0 <= j < commonest(pixels, n) ==> occurrences(pixels, #[trigger] pixels[j])
                < occurrences(pixels, pixels[commonest(pixels, n)]),
        forall|j: int|
            0 <= j < n ==> occurrences(pixels, #[trigger] pixels[j]) <= occurrences(
                pixels,
                pixels[commonest(pixels, n)],
            ),
    decreases n,
{
    if n > 1 {
        lemma_first_of_equals(pixels, (n - 1) as nat);
    }
}

/// The saved picture has two tones: opaque white where a pixel has another colour than
/// the background, and opaque black elsewhere. It is turned upright: the last pixel
/// comes first.
pub proof fn law_the_saved_picture_has_two_tones(pixels: Seq<u16>, i: int)
    requires
        0 <= i < pixels.len(),
    ensures
        ({
            let rgba = mask_rgba(mask_of(pixels));
            let at = 4 * (pixels.len() - 1 - i);
            let tone: u8 = if pixels[i] == background(pixels) {
                0
            } else {
                255
            };
            &&& rgba.len() == 4 * pixels.len()
            &&& rgba[at] == tone
            &&& rgba[at + 1] == tone
            &&& rgba[at + 2] == tone
            &&& rgba[at + 3] == 255
        }),
{
    let k = pixels.len() - 1 - i;
    assert((4 * k) / 4 == k && (4 * k + 1) / 4 == k && (4 * k + 2) / 4 == k && (4 * k + 3) / 4
        == k);
}

/// What a window is known by tells sizes and masks apart: two windows that give the
/// hasher the same have the same size, and the same pixels unlike the background.
pub proof fn law_what_is_hashed_tells_windows_apart(
    a: framebuffer::Write,
    b: framebuffer::Write,
    i: int,
)
    requires
        mask_writes(a.w, a.h, mask_of(a.pixels)) == mask_writes(b.w, b.h, mask_of(b.pixels)),
    ensures
        a.w == b.w,
        a.h == b.h,
        a.pixels.len() == b.pixels.len(),
        0 <= i < a.pixels.len() ==> (a.pixels[i] == background(a.pixels)) == (b.pixels[i]
            == background(b.pixels)),
{
    let s = mask_writes(a.w, a.h, mask_of(a.pixels));
    let t = mask_writes(b.w, b.h, mask_of(b.pixels));
    assert(s[0] == bytes::le16(a.w) && t[0] == bytes::le16(b.w));
    assert(s[1] == bytes::le16(a.h) && t[1] == bytes::le16(b.h));
    assert(bytes::le16(a.w)[0] == bytes::le16(b.w)[0] && bytes::le16(a.w)[1] == bytes::le16(
        b.w,
    )[1]);
    assert(bytes::le16(a.h)[0] == bytes::le16(b.h)[0] && bytes::le16(a.h)[1] == bytes::le16(
        b.h,
    )[1]);
    assert(s.len() == t.len());
    if 0 <= i < a.pixels.len() {
        assert(s[2 + i] == t[2 + i]);
        assert(s[2 + i][0] == t[2 + i][0]);
    }
}

/// A window is worth saving from 8 pixels in either direction on.
pub proof fn law_slivers_are_not_saved(w: framebuffer::Write)
    ensures
        worth_saving(w) <==> w.w >= 8 && w.h >= 8,
{
}

/// The file name tells the size and the place on the display, each in decimal.
pub proof fn law_the_name_tells_size_and_place(w: framebuffer::Write) -> (p: (
    Seq<char>,
    Seq<char>,
    Seq<char>,
    Seq<char>,
))
    requires
        w.x + w.w <= 320,
        w.y + w.h <= 480,
    ensures
        dump_stem(w) == p.0 + "x"@ + p.1 + "_"@ + text::padded('0', 3, p.2) + "_"@ + text::padded(
            '0',
            3,
            p.3,
        ),
        text::writes(10, p.0, w.w as int),
        text::writes(10, p.1, w.h as int),
        text::writes(10, p.2, 320 - w.x - w.w),
        text::writes(10, p.3, 480 - w.y - w.h),
{
    let (x, y) = glyph::display_place(w.x, w.y, w.w, w.h);
    text::law_numbers_are_written(w.w as nat, 0);
    text::law_numbers_are_written(w.h as nat, 0);
    text::law_numbers_are_written(x as nat, 0);
    text::law_numbers_are_written(y as nat, 0);
    (
        text::decimal(w.w as nat),
        text::decimal(w.h as nat),
        text::decimal(x as nat),
        text::decimal(y as nat),
    )
}

/// What two calls of [`dump_window`] do with windows of one size and shape: the first is
/// saved unless it was before, the second is not saved again. What is saved shows the
/// window upright, white where it differs from its background and black elsewhere.
pub proof fn law_a_shape_is_saved_once(
    a: &WindowWrite,
    b: &WindowWrite,
    seen: &mut HashSet<u64>,
    first: Option<GlyphDump>,
    seen_then: &mut HashSet<u64>,
    second: Option<GlyphDump>,
    i: int,
)
    requires
        a.w == b.w && a.h == b.h,
        a.w >= 8 && a.h >= 8,
        a.pixels@.len() > 0 && b.pixels@.len() > 0,
        mask_of(a.pixels@) == mask_of(b.pixels@),
        call_ensures(dump_window, (a, seen), first),
        *old(seen_then) == *final(seen),
        call_ensures(dump_window, (b, seen_then), second),
    ensures
        second is None,
        first is Some <==> !old(seen)@.contains(dump_key(a@)),
        first matches Some(d) ==> {
            &&& d.w == a.w && d.h == a.h
            &&& d.rgba@.len() == 4 * a.pixels@.len()
            &&& 0 <= i < a.pixels@.len() ==> {
                let at = 4 * (a.pixels@.len() - 1 - i);
                &&& d.rgba@[at] == (if a.pixels@[i] == background(a.pixels@) {
                    0u8
                } else {
                    255u8
                })
                &&& d.rgba@[at + 1] == d.rgba@[at] && d.rgba@[at + 2] == d.rgba@[at]
                &&& d.rgba@[at + 3] == 255
            }
        },
{
    if 0 <= i < a.pixels@.len() {
        law_the_saved_picture_has_two_tones(a.pixels@, i);
    }
    law_the_saved_picture_has_two_tones(a.pixels@, 0);
    assert(dump_key(a@) == dump_key(b@));
}

/// What a call of [`dump_window`] does with a window that is narrower or lower than eight
/// pixels: nothing.
pub proof fn law_a_sliver_is_passed_over(
    win: &WindowWrite,
    seen: &mut HashSet<u64>,
    dump: Option<GlyphDump>,
)
    requires
        win.w < 8 || win.h < 8,
        call_ensures(dump_window, (win, seen), dump),
    ensures
        dump is None,
        final(seen)@ == old(seen)@,
{
}

} // verus!
