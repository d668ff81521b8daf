//! A fixed table of 16 colours, and the nearest one to any colour.
//!
//! The panel draws with a handful of colours. One slot of the table is kept for
//! colours that are close to none of the others, so that a stray colour shows up
//! as such.

use vstd::prelude::*;

verus! {

/// Entries of a palette: 4 bits a pixel.
pub const PALETTE_LEN: usize = 16;

/// The slot of every colour that is near no other entry.
pub const MISC_INDEX: u8 = 15;

/// Largest squared distance at which a colour counts as near an entry, in units
/// of the 5, 6 and 5 bit components.
pub const MATCH_THRESHOLD: u32 = 64;

/// A 16-entry RGB565 colour table.
#[derive(Clone, Copy)]
pub struct Palette {
    pub colors: [u16; 16],
}

/// The 5, 6 and 5 bit components of a colour.
pub open spec fn components(px: u16) -> (u8, u8, u8) {
    ((px / 2048) as u8, (px / 32 % 64) as u8, (px % 32) as u8)
}

/// The square of `a - b`.
pub open spec fn squared_difference(a: u8, b: u8) -> int {
    (a - b) * (a - b)
}

/// The squared distance of two colours.
pub open spec fn distance(a: u16, b: u16) -> int {
    squared_difference(components(a).0, components(b).0) + squared_difference(
        components(a).1,
        components(b).1,
    ) + squared_difference(components(a).2, components(b).2)
}

/// The index below `n` whose entry is nearest to `rgb565`; of equally near ones
/// the first.
pub open spec fn nearest_below(colors: Seq<u16>, rgb565: u16, n: nat) -> int
    decreases n,
{
    if n <= 1 {
        0
    } else {
        let i = nearest_below(colors, rgb565, (n - 1) as nat);
        if distance(rgb565, colors[n - 1]) < distance(rgb565, colors[i]) {
            n - 1
        } else {
            i
        }
    }
}

/// The nearest entry but for the slot of stray colours, if it is near enough;
/// else that slot.
pub open spec fn nearest_index(colors: Seq<u16>, rgb565: u16) -> u8 {
    let i = nearest_below(colors, rgb565, MISC_INDEX as nat);
    if distance(rgb565, colors[i]) <= MATCH_THRESHOLD {
        i as u8
    } else {
        MISC_INDEX
    }
}

/// Splits a colour into its components.
fn unpack(px: u16) -> (parts: (u8, u8, u8))
    ensures
        parts == components(px),
        parts.0 < 32,
        parts.1 < 64,
        parts.2 < 32,
{
    ((px / 2048) as u8, (px / 32 % 64) as u8, (px % 32) as u8)
}

fn square_of_difference(a: u8, b: u8) -> (d: u32)
    requires
        a < 64,
        b < 64,
    ensures
        d == squared_difference(a, b),
        d < 4096,
{
    let e: u32 = if a < b {
        (b - a) as u32
    } else {
        (a - b) as u32
    };
    proof {
        assert(e * e < 4096 && e * e == (a - b) * (a - b)) by (nonlinear_arith)
            requires
                e < 64,
                e == a - b || e == b - a,
        ;
    }
    e * e
}

impl Palette {
    /// The colour at a 4-bit index; higher bits are ignored.
    pub fn color(&self, idx: u8) -> (rgb565: u16)
        ensures
            rgb565 == self.colors@[(idx % 16) as int],
    {
        self.colors[(idx % 16) as usize]
    }

    /// The index of the nearest entry, or [`MISC_INDEX`] where none is near.
    pub fn nearest(&self, rgb565: u16) -> (idx: u8)
        ensures
            idx == nearest_index(self.colors@, rgb565),
            idx < 16,
    {
        let (tr, tg, tb) = unpack(rgb565);
        let mut best: u8 = MISC_INDEX;
        let mut best_d: u32 = u32::MAX;
        let mut i: usize = 0;
        while i < 15
            invariant
                i <= 15,
                (tr, tg, tb) == components(rgb565),
                tr < 32,
                tg < 64,
                tb < 32,
                i == 0 ==> best_d == u32::MAX,
                i > 0 ==> best == nearest_below(self.colors@, rgb565, i as nat) && best < i
                    && best_d == distance(rgb565, self.colors@[best as int]),
            decreases 15 - i,
        {
            let c: u16 = self.colors[i];
            let (r, g, b) = unpack(c);
            let d: u32 = square_of_difference(tr, r) + square_of_difference(tg, g)
                + square_of_difference(tb, b);
            if d < best_d {
                best_d = d;
                best = i as u8;
            }
            i += 1;
        }
        if best_d <= MATCH_THRESHOLD {
            best
        } else {
            MISC_INDEX
        }
    }
}

/// The colours of the panel: black, green, yellow, white, red, orange and grey,
/// then spare black entries, and magenta in the slot of stray colours.
pub open spec fn panel_colors() -> Seq<u16> {
    seq![
        0x0000, 0x07e0, 0xffe0, 0xffff, 0xf800, 0xfd20, 0x8410, 0x0000, 0x0000, 0x0000, 0x0000,
        0x0000, 0x0000, 0x0000, 0x0000, 0xf81f,
    ]
}

/// The palette of the panel's colours.
pub fn default_palette() -> (palette: Palette)
    ensures
        palette.colors@ == panel_colors(),
{
    let palette = Palette {
        colors: [
            0x0000, 0x07e0, 0xffe0, 0xffff, 0xf800, 0xfd20, 0x8410, 0x0000, 0x0000, 0x0000, 0x0000,
            0x0000, 0x0000, 0x0000, 0x0000, 0xf81f,
        ],
    };
    assert(palette.colors@ =~= panel_colors());
    palette
}

proof fn lemma_nearest_below(colors: Seq<u16>, rgb565: u16, n: nat)
    requires
        0 < n <= colors.len(),
    ensures
        ({
            let i = nearest_below(colors, rgb565, n);
            &&& 0 <= i < n
            &&& forall|j: int|
                0 <= j < n ==> distance(rgb565, colors[i]) <= #[trigger] distance(
                    rgb565,
                    colors[j],
                )
            &&& forall|j: int|
                0 <= j < i ==> distance(rgb565, colors[i]) < #[trigger] distance(
                    rgb565,
                    colors[j],
                )
        }),
    decreases n,
{
    if n > 1 {
        lemma_nearest_below(colors, rgb565, (n - 1) as nat);
    }
}

/// A colour is at distance 0 from itself and from no other.
pub proof fn law_distance_is_zero_only_at_home(a: u16, b: u16)
    ensures
        distance(a, b) >= 0,
        distance(a, b) == 0 <==> a == b,
{
    let (x, y) = (components(a), components(b));
    lemma_square(x.0, y.0);
    lemma_square(x.1, y.1);
    lemma_square(x.2, y.2);
}

proof fn lemma_square(a: u8, b: u8)
    ensures
        squared_difference(a, b) >= 0,
        squared_difference(a, b) == 0 <==> a == b,
{
    assert((a - b) * (a - b) >= 0 && ((a - b) * (a - b) == 0 <==> a == b)) by (nonlinear_arith);
}

/// The nearest entry is nearer than all before it and no farther than all after
/// it, the slot of stray colours aside; that slot is taken where no entry is near.
pub proof fn law_nearest_is_nearest(colors: Seq<u16>, rgb565: u16)
    requires
        colors.len() == PALETTE_LEN,
    ensures
        ({
            let i = nearest_index(colors, rgb565);
            if exists|j: int|
                0 <= j < MISC_INDEX && #[trigger] distance(rgb565, colors[j]) <= MATCH_THRESHOLD {
                &&& i < MISC_INDEX
                &&& forall|j: int|
                    0 <= j < MISC_INDEX ==> distance(rgb565, colors[i as int])
                        <= #[trigger] distance(rgb565, colors[j])
                &&& forall|j: int|
                    0 <= j < i ==> distance(rgb565, colors[i as int]) < #[trigger] distance(
                        rgb565,
                        colors[j],
                    )
            } else {
                i == MISC_INDEX
            }
        }),
{
    lemma_nearest_below(colors, rgb565, MISC_INDEX as nat);
}

/// A colour of the palette comes back as it was stored, by the first entry that has
/// it.
pub proof fn law_palette_colours_are_kept(colors: Seq<u16>, j: int)
    requires
        colors.len() == PALETTE_LEN,
        0 <= j < MISC_INDEX,
    ensures
        ({
            let i = nearest_index(colors, colors[j]);
            &&& i <= j
            &&& colors[i as int] == colors[j]
            &&& forall|k: int| 0 <= k < i ==> #[trigger] colors[k] != colors[j]
        }),
{
    let c = colors[j];
    lemma_nearest_below(colors, c, MISC_INDEX as nat);
    let i = nearest_below(colors, c, MISC_INDEX as nat);
    law_distance_is_zero_only_at_home(c, c);
    law_distance_is_zero_only_at_home(c, colors[i]);
    assert(distance(c, colors[i]) <= distance(c, colors[j]));
    assert forall|k: int| 0 <= k < i implies #[trigger] colors[k] != c by {
        law_distance_is_zero_only_at_home(c, colors[k]);
        assert(distance(c, colors[i]) < distance(c, colors[k]));
    }
}

/// The distance of two colours is the sum of the squares by which their red, green
/// and blue differ.
pub proof fn law_distance_is_that_of_the_components(
    r: u16,
    g: u16,
    b: u16,
    s: u16,
    h: u16,
    c: u16,
)
    requires
        r < 32 && g < 64 && b < 32 && s < 32 && h < 64 && c < 32,
    ensures
        distance((2048 * r + 32 * g + b) as u16, (2048 * s + 32 * h + c) as u16) == (r - s) * (r
            - s) + (g - h) * (g - h) + (b - c) * (b - c),
{
    lemma_components(r, g, b);
    lemma_components(s, h, c);
}

proof fn lemma_components(r: u16, g: u16, b: u16)
    requires
        r < 32 && g < 64 && b < 32,
    ensures
        components((2048 * r + 32 * g + b) as u16) == (r as u8, g as u8, b as u8),
{
    let px = 2048 * r + 32 * g + b;
    assert(px / 2048 == r);
    assert(px / 32 == 64 * r + g);
    assert(px % 32 == b);
}

/// The slot of stray colours is taken where every other entry is farther off than 8
/// steps of one component, and only there.
pub proof fn law_stray_colours_are_marked(colors: Seq<u16>, rgb565: u16)
    requires
        colors.len() == 16,
    ensures
        nearest_index(colors, rgb565) == 15 <==> forall|j: int|
            0 <= j < 15 ==> #[trigger] distance(rgb565, colors[j]) > 64,
        nearest_index(colors, rgb565) <= 15,
{
    law_nearest_is_nearest(colors, rgb565);
}

/// The panel's colours: black, green, yellow, white, red, orange and grey, and
/// magenta for stray ones.
pub proof fn law_the_panels_colours_are_named(i: int)
    ensures
        panel_colors().len() == 16,
        panel_colors()[0] == 0x0000,
        panel_colors()[1] == 63 * 32,
        panel_colors()[2] == 31 * 2048 + 63 * 32,
        panel_colors()[3] == 0xffff,
        panel_colors()[4] == 31 * 2048,
        panel_colors()[5] == 31 * 2048 + 41 * 32,
        panel_colors()[6] == 16 * 2048 + 32 * 32 + 16,
        7 <= i < 15 ==> panel_colors()[i] == 0,
        panel_colors()[15] == 31 * 2048 + 31,
{
}

/// What a call of [`Palette::nearest`] gives: an entry before the last that is as near as
/// any and within reach, or the last one where none is within reach.
pub proof fn law_nearest_finds_the_nearest(palette: Palette, rgb565: u16, idx: u8, j: int)
    requires
        call_ensures(Palette::nearest, (&palette, rgb565), idx),
        0 <= j < 15,
    ensures
        idx <= 15,
        idx < 15 ==> distance(rgb565, palette.colors@[idx as int]) <= distance(
            rgb565,
            palette.colors@[j],
        ) && distance(rgb565, palette.colors@[idx as int]) <= 64,
        idx == 15 ==> distance(rgb565, palette.colors@[j]) > 64,
        palette.colors@[j] == rgb565 ==> palette.colors@[idx as int] == rgb565,
{
    law_nearest_is_nearest(palette.colors@, rgb565);
    law_stray_colours_are_marked(palette.colors@, rgb565);
    law_distance_is_zero_only_at_home(rgb565, palette.colors@[j]);
    if idx < 15 {
        law_distance_is_zero_only_at_home(rgb565, palette.colors@[idx as int]);
    }
}

} // verus!
