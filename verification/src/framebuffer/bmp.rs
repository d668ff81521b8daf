//! The picture as a bitmap file, and as RGBA.
//!
//! The panel is mounted upside down, so pixels are written in reverse order.

use vstd::prelude::*;

use crate::bytes;
use crate::framebuffer::palette::Palette;
use crate::framebuffer::{Framebuffer, Palette4Store, PixelStore};
use crate::panel::PIXELS;

verus! {

/// Length of the header of a 24-bit bitmap.
pub const BMP_HEADER_LEN: usize = 54;

/// Length of the 24-bit bitmap.
pub const BMP_LEN: usize = 54 + 320 * 480 * 3;

/// Length of the header of a 4-bit bitmap, with its colour table.
pub const BMP4_HEADER_LEN: usize = 14 + 40 + 16 * 4;

/// Length of the pixels of a 4-bit bitmap.
pub const BMP4_PIXELS_LEN: usize = 160 * 480;

/// Length of the 4-bit bitmap.
pub const BMP4_LEN: usize = 14 + 40 + 16 * 4 + 160 * 480;

/// Length of the RGBA picture.
pub const RGBA8_LEN: usize = 320 * 480 * 4;

/// A 5-bit component spread over 8 bits.
pub open spec fn spread5(x: int) -> u8 {
    (x * 8 + x / 4) as u8
}

/// A 6-bit component spread over 8 bits.
pub open spec fn spread6(x: int) -> u8 {
    (x * 4 + x / 16) as u8
}

/// Red, green and blue of a colour, 8 bits each.
pub open spec fn rgb888(px: u16) -> (u8, u8, u8) {
    (spread5(px as int / 2048), spread6(px as int / 32 % 64), spread5(px as int % 32))
}

/// Expands an RGB565 colour to 8 bits a channel.
pub fn rgb565_to_rgb888(px: u16) -> (rgb: (u8, u8, u8))
    ensures
        rgb == rgb888(px),
{
    let r: u16 = px / 2048;
    let g: u16 = px / 32 % 64;
    let b: u16 = px % 32;
    ((r * 8 + r / 4) as u8, (g * 4 + g / 16) as u8, (b * 8 + b / 4) as u8)
}

/// `n` zero bytes.
pub open spec fn zeros(n: nat) -> Seq<u8> {
    Seq::new(n, |i: int| 0u8)
}

/// The header of a top-down bitmap of the panel: file length, offset and length
/// of the pixels, bits a pixel and entries of the colour table.
pub open spec fn bitmap_header(
    file_len: u32,
    pixels_at: u32,
    bits: u16,
    pixels_len: u32,
    table_len: u32,
) -> Seq<u8> {
    seq![0x42u8, 0x4Du8] + bytes::le32(file_len) + zeros(4) + bytes::le32(pixels_at) + bytes::le32(
        40,
    ) + bytes::le32(320) + bytes::le32(minus_480()) + bytes::le16(1) + bytes::le16(bits) + zeros(4)
        + bytes::le32(pixels_len) + zeros(8) + bytes::le32(table_len) + zeros(4)
}

/// The 32-bit pattern of -480. A negative height means that the first row is the
/// top one.
pub open spec fn minus_480() -> u32 {
    (0x1_0000_0000 - 480) as u32
}

/// The bytes of the 24-bit header.
pub open spec fn bmp_header_bytes() -> Seq<u8> {
    bitmap_header(BMP_LEN as u32, 54, 24, 460800, 0)
}

/// Writes a 16-bit integer into a header.
fn put16<const N: usize>(h: &mut [u8; N], off: usize, x: u16)
    requires
        off + 2 <= N,
    ensures
        final(h)@ == old(h)@.update(off as int, bytes::le16(x)[0]).update(
            off + 1,
            bytes::le16(x)[1],
        ),
{
    let b = bytes::split_u16(x);
    h[off] = b[0];
    h[off + 1] = b[1];
}

/// Writes a 32-bit integer into a header.
fn put32<const N: usize>(h: &mut [u8; N], off: usize, x: u32)
    requires
        off + 4 <= N,
    ensures
        final(h)@ == old(h)@.update(off as int, bytes::le32(x)[0]).update(
            off + 1,
            bytes::le32(x)[1],
        ).update(off + 2, bytes::le32(x)[2]).update(off + 3, bytes::le32(x)[3]),
{
    let b = bytes::split_u32(x);
    h[off] = b[0];
    h[off + 1] = b[1];
    h[off + 2] = b[2];
    h[off + 3] = b[3];
}

/// The header of the 24-bit bitmap. To stream the picture, send it, then the
/// pixels in pieces (see [`bmp_pixels_bgr`]).
pub fn bmp_header() -> (h: [u8; 54])
    ensures
        h@ == bmp_header_bytes(),
{
    let mut h: [u8; 54] = [0u8; 54];
    h[0] = 0x42;
    h[1] = 0x4D;
    put32(&mut h, 2, 460854);
    put32(&mut h, 10, 54);
    put32(&mut h, 14, 40);
    put32(&mut h, 18, 320);
    put32(&mut h, 22, 4294966816);
    put16(&mut h, 26, 1);
    put16(&mut h, 28, 24);
    put32(&mut h, 34, 460800);
    assert(h@ =~= bmp_header_bytes());
    h
}

/// One channel of a pixel in blue, green, red order.
pub open spec fn bgr_channel(px: u16, k: int) -> u8 {
    if k == 0 {
        rgb888(px).2
    } else if k == 1 {
        rgb888(px).1
    } else {
        rgb888(px).0
    }
}

/// The bytes of pixels `start..start + count` of the 24-bit bitmap: the picture
/// from its last pixel backwards.
pub open spec fn bgr_bytes(colors: Seq<u16>, start: int, count: nat) -> Seq<u8> {
    Seq::new(3 * count, |k: int| bgr_channel(colors[PIXELS - 1 - start - k / 3], k % 3))
}

/// Writes pixels `start..start + count` of the 24-bit bitmap to `out[at..]`.
fn bgr_at<S: PixelStore>(
    fb: &Framebuffer<S>,
    start: usize,
    count: usize,
    out: &mut [u8],
    at: usize,
)
    requires
        fb.wf(),
        start + count <= PIXELS,
        at + 3 * count <= old(out)@.len(),
    ensures
        final(out)@ == old(out)@.take(at as int) + bgr_bytes(
            fb.picture().pixels,
            start as int,
            count as nat,
        ) + old(out)@.skip(at + 3 * count),
{
    let ghost colors = fb.picture().pixels;
    proof {
        fb.lemma_covers_the_panel();
    }
    let total: usize = out.len();
    let mut n: usize = 0;
    while n < count
        invariant
            fb.wf(),
            at + 3 * count <= total,
            colors == fb.picture().pixels,
            colors.len() >= PIXELS,
            n <= count,
            start + count <= PIXELS,
            at + 3 * count <= out@.len(),
            out@.len() == old(out)@.len(),
            forall|k: int| 0 <= k < at ==> out@[k] == old(out)@[k],
            forall|k: int| at + 3 * n <= k < out@.len() ==> out@[k] == old(out)@[k],
            forall|k: int|
                at <= k < at + 3 * n ==> #[trigger] out@[k] == bgr_channel(
                    colors[PIXELS - 1 - start - (k - at) / 3],
                    (k - at) % 3,
                ),
        decreases count - n,
    {
        let src: usize = PIXELS - 1 - (start + n);
        let (r, g, b) = rgb565_to_rgb888(fb.store().get(src));
        let o: usize = at + 3 * n;
        out[o] = b;
        out[o + 1] = g;
        out[o + 2] = r;
        n += 1;
        assert((o - at) / 3 == n - 1 && (o + 1 - at) / 3 == n - 1 && (o + 2 - at) / 3 == n - 1);
    }
    assert(out@ =~= old(out)@.take(at as int) + bgr_bytes(colors, start as int, count as nat)
        + old(out)@.skip(at + 3 * count));
}

/// Writes pixels `start..start + count` of the 24-bit bitmap to the front of
/// `out`, and returns how many bytes these are.
pub fn bmp_pixels_bgr<S: PixelStore>(
    fb: &Framebuffer<S>,
    start: usize,
    count: usize,
    out: &mut [u8],
) -> (n: usize)
    requires
        fb.wf(),
        start + count <= PIXELS,
        3 * count <= old(out)@.len(),
    ensures
        n == 3 * count,
        final(out)@ == bgr_bytes(fb.picture().pixels, start as int, count as nat)
            + old(out)@.skip(3 * count),
{
    bgr_at(fb, start, count, out, 0);
    assert(out@ =~= bgr_bytes(fb.picture().pixels, start as int, count as nat)
        + old(out)@.skip(3 * count));
    3 * count
}

/// The whole 24-bit bitmap.
pub open spec fn bmp_bytes(colors: Seq<u16>) -> Seq<u8> {
    bmp_header_bytes() + bgr_bytes(colors, 0, PIXELS as nat)
}

/// Writes the 24-bit bitmap to the front of `out`, and returns its length.
pub fn write_bmp<S: PixelStore>(fb: &Framebuffer<S>, out: &mut [u8]) -> (n: usize)
    requires
        fb.wf(),
        old(out)@.len() >= BMP_LEN,
    ensures
        n == BMP_LEN,
        final(out)@ == bmp_bytes(fb.picture().pixels) + old(out)@.skip(BMP_LEN as int),
{
    let h = bmp_header();
    let mut i: usize = 0;
    while i < 54
        invariant
            i <= 54,
            h@ == bmp_header_bytes(),
            out@.len() == old(out)@.len(),
            out@.len() >= BMP_LEN,
            forall|k: int| 0 <= k < i ==> out@[k] == h@[k],
            forall|k: int| i <= k < out@.len() ==> out@[k] == old(out)@[k],
        decreases 54 - i,
    {
        out[i] = h[i];
        i += 1;
    }
    let ghost headed = out@;
    assert(headed.take(54) =~= bmp_header_bytes());
    bgr_at(fb, 0, PIXELS, out, 54);
    assert(headed.skip(BMP_LEN as int) =~= old(out)@.skip(BMP_LEN as int));
    assert(out@ =~= bmp_bytes(fb.picture().pixels) + old(out)@.skip(BMP_LEN as int));
    BMP_LEN
}

/// The bytes of the colour table: blue, green, red and a zero for each entry.
pub open spec fn color_table(colors: Seq<u16>) -> Seq<u8> {
    Seq::new(
        4 * colors.len(),
        |k: int|
            if k % 4 == 3 {
                0u8
            } else {
                bgr_channel(colors[k / 4], k % 4)
            },
    )
}

/// The bytes of the 4-bit header with its colour table.
pub open spec fn bmp4_header_bytes(colors: Seq<u16>) -> Seq<u8> {
    bitmap_header(BMP4_LEN as u32, BMP4_HEADER_LEN as u32, 4, BMP4_PIXELS_LEN as u32, 16)
        + color_table(colors)
}

/// The header of the 4-bit bitmap, with its colour table.
pub fn bmp4_header(palette: &Palette) -> (h: [u8; 118])
    ensures
        h@ == bmp4_header_bytes(palette.colors@),
{
    let mut h: [u8; 118] = [0u8; 118];
    h[0] = 0x42;
    h[1] = 0x4D;
    put32(&mut h, 2, 76918);
    put32(&mut h, 10, 118);
    put32(&mut h, 14, 40);
    put32(&mut h, 18, 320);
    put32(&mut h, 22, 4294966816);
    put16(&mut h, 26, 1);
    put16(&mut h, 28, 4);
    put32(&mut h, 34, 76800);
    put32(&mut h, 46, 16);
    let ghost head = bitmap_header(
        BMP4_LEN as u32,
        BMP4_HEADER_LEN as u32,
        4,
        BMP4_PIXELS_LEN as u32,
        16,
    );
    assert(h@.take(54) =~= head);
    let mut i: usize = 0;
    while i < 16
        invariant
            i <= 16,
            head.len() == 54,
            h@.take(54) == head,
            forall|k: int|
                54 <= k < 54 + 4 * i ==> #[trigger] h@[k] == color_table(palette.colors@)[k - 54],
        decreases 16 - i,
    {
        let (r, g, b) = rgb565_to_rgb888(palette.colors[i]);
        let o: usize = 54 + i * 4;
        h[o] = b;
        h[o + 1] = g;
        h[o + 2] = r;
        h[o + 3] = 0;
        i += 1;
        assert(h@.take(54) =~= head);
        assert((o - 54) / 4 == i - 1 && (o + 1 - 54) / 4 == i - 1 && (o + 2 - 54) / 4 == i - 1);
    }
    assert(h@ =~= bmp4_header_bytes(palette.colors@));
    h
}

/// The bytes of pixels `start..start + count` of the 4-bit bitmap: the picture
/// from its last pixel backwards, the left one of two in the high nibble.
pub open spec fn bmp4_bytes(indices: Seq<u8>, start: int, count: nat) -> Seq<u8> {
    Seq::new(
        count / 2,
        |k: int|
            (16 * indices[PIXELS - 1 - start - 2 * k] + indices[PIXELS - 2 - start - 2 * k]) as u8,
    )
}

/// Writes pixels `start..start + count` of the 4-bit bitmap to the front of
/// `out`, and returns how many bytes these are. Both numbers are even.
pub fn bmp4_pixels(
    store: &Palette4Store<'_>,
    start: usize,
    count: usize,
    out: &mut [u8],
) -> (n: usize)
    requires
        store.indices().len() >= PIXELS,
        start % 2 == 0,
        count % 2 == 0,
        start + count <= PIXELS,
        count / 2 <= old(out)@.len(),
    ensures
        n == count / 2,
        final(out)@ == bmp4_bytes(store.indices(), start as int, count as nat) + old(out)@.skip(
            count as int / 2,
        ),
{
    let mut o: usize = 0;
    let mut i: usize = start;
    while i < start + count
        invariant
            store.indices().len() >= PIXELS,
            start % 2 == 0,
            count % 2 == 0,
            start + count <= PIXELS,
            start <= i <= start + count,
            i == start + 2 * o,
            count / 2 <= out@.len(),
            out@.len() == old(out)@.len(),
            forall|k: int| o <= k < out@.len() ==> out@[k] == old(out)@[k],
            forall|k: int|
                0 <= k < o ==> #[trigger] out@[k] == bmp4_bytes(
                    store.indices(),
                    start as int,
                    count as nat,
                )[k],
        decreases start + count - i,
    {
        let hi: u8 = store.index_at(PIXELS - 1 - i);
        let lo: u8 = store.index_at(PIXELS - 1 - (i + 1));
        out[o] = hi * 16 + lo;
        o += 1;
        i += 2;
    }
    assert(out@ =~= bmp4_bytes(store.indices(), start as int, count as nat) + old(out)@.skip(
        count as int / 2,
    ));
    o
}

/// One channel of a pixel in red, green, blue, opaque order.
pub open spec fn rgba_channel(px: u16, k: int) -> u8 {
    if k == 0 {
        rgb888(px).0
    } else if k == 1 {
        rgb888(px).1
    } else if k == 2 {
        rgb888(px).2
    } else {
        0xFF
    }
}

/// The RGBA bytes of `n` pixels, from the last one backwards.
pub open spec fn rgba_bytes(colors: Seq<u16>, n: nat) -> Seq<u8> {
    Seq::new(4 * n, |k: int| rgba_channel(colors[n - 1 - k / 4], k % 4))
}

/// Writes the picture as RGBA to the front of `out`, turned upright, and returns
/// its length.
pub fn write_rgba8<S: PixelStore>(fb: &Framebuffer<S>, out: &mut [u8]) -> (n: usize)
    requires
        fb.wf(),
        old(out)@.len() >= RGBA8_LEN,
    ensures
        n == RGBA8_LEN,
        final(out)@ == rgba_bytes(fb.picture().pixels, PIXELS as nat) + old(out)@.skip(
            RGBA8_LEN as int,
        ),
{
    let ghost colors = fb.picture().pixels;
    proof {
        fb.lemma_covers_the_panel();
    }
    let mut n: usize = 0;
    while n < PIXELS
        invariant
            fb.wf(),
            colors == fb.picture().pixels,
            colors.len() >= PIXELS,
            n <= PIXELS,
            out@.len() >= RGBA8_LEN,
            out@.len() == old(out)@.len(),
            forall|k: int| 4 * n <= k < out@.len() ==> out@[k] == old(out)@[k],
            forall|k: int|
                0 <= k < 4 * n ==> #[trigger] out@[k] == rgba_channel(
                    colors[PIXELS - 1 - k / 4],
                    k % 4,
                ),
        decreases PIXELS - n,
    {
        let (r, g, b) = rgb565_to_rgb888(fb.store().get(PIXELS - 1 - n));
        let o: usize = 4 * n;
        out[o] = r;
        out[o + 1] = g;
        out[o + 2] = b;
        out[o + 3] = 0xFF;
        n += 1;
        assert(o as int / 4 == n - 1 && (o + 1) / 4 == n - 1 && (o + 2) / 4 == n - 1 && (o + 3) / 4
            == n - 1);
    }
    assert(out@ =~= rgba_bytes(colors, PIXELS as nat) + old(out)@.skip(RGBA8_LEN as int));
    RGBA8_LEN
}

/// Streaming the pixels of the 24-bit bitmap in pieces gives the whole.
pub proof fn law_bgr_pieces_join(colors: Seq<u16>, start: int, a: nat, b: nat)
    ensures
        bgr_bytes(colors, start, a) + bgr_bytes(colors, start + a, b) == bgr_bytes(
            colors,
            start,
            a + b,
        ),
{
    let l = bgr_bytes(colors, start, a) + bgr_bytes(colors, start + a, b);
    let r = bgr_bytes(colors, start, a + b);
    assert forall|k: int| 0 <= k < r.len() implies l[k] == r[k] by {
        if k >= 3 * a {
            assert((k - 3 * a) / 3 == k / 3 - a);
            assert((k - 3 * a) % 3 == k % 3);
        }
    }
    assert(l =~= r);
}

/// Streaming the pixels of the 4-bit bitmap in pieces of an even number of pixels
/// gives the whole.
pub proof fn law_bmp4_pieces_join(indices: Seq<u8>, start: int, a: nat, b: nat)
    requires
        a % 2 == 0,
        b % 2 == 0,
    ensures
        bmp4_bytes(indices, start, a) + bmp4_bytes(indices, start + a, b) == bmp4_bytes(
            indices,
            start,
            a + b,
        ),
{
    assert(bmp4_bytes(indices, start, a) + bmp4_bytes(indices, start + a, b) =~= bmp4_bytes(
        indices,
        start,
        a + b,
    ));
}

/// The 24-bit bitmap is as long as its header says, and its pixels start where
/// the header says.
pub proof fn law_bmp_length(colors: Seq<u16>)
    ensures
        bmp_header_bytes().len() == BMP_HEADER_LEN,
        bmp_bytes(colors).len() == BMP_LEN,
        bytes::word_at(bmp_header_bytes(), 2) == BMP_LEN,
        bytes::word_at(bmp_header_bytes(), 10) == BMP_HEADER_LEN,
{
    let h = bmp_header_bytes();
    assert(h.subrange(2, 6) =~= bytes::le32(BMP_LEN as u32));
    assert(h.subrange(10, 14) =~= bytes::le32(54));
    bytes::lemma_word_of_le32(h, 2, BMP_LEN as u32);
    bytes::lemma_word_of_le32(h, 10, 54);
}

/// A colour can be read back from its three channels: the top 5, 6 and 5 bits of red,
/// green and blue are those of the colour, and the bits below repeat the top ones,
/// so that black stays black and white white.
pub proof fn law_channels_are_those_of_the_colour(px: u16)
    ensures
        ({
            let (r, g, b) = rgb888(px);
            &&& px == 2048 * (r / 8) + 32 * (g / 4) + b / 8
            &&& r % 8 == r / 32
            &&& g % 4 == g / 64
            &&& b % 8 == b / 32
        }),
{
}

/// Which panel pixel shows in the upright picture at column `x`, row `y`: the panel
/// is mounted upside down.
pub open spec fn upright(colors: Seq<u16>, x: int, y: int) -> u16 {
    colors[320 * (479 - y) + (319 - x)]
}

/// Whether three bytes are blue, green and red of a colour: it can be read back from
/// their top 5, 6 and 5 bits, and the bits below repeat the top ones.
pub open spec fn is_bgr(b: u8, g: u8, r: u8, px: u16) -> bool {
    &&& b / 8 == px % 32
    &&& g / 4 == px / 32 % 64
    &&& r / 8 == px / 2048
    &&& b % 8 == b / 32
    &&& g % 4 == g / 64
    &&& r % 8 == r / 32
}

/// The 24-bit bitmap shows the picture: the three bytes of the pixel at column `x`,
/// row `y` are blue, green and red of the panel's pixel that shows there.
#[verifier::rlimit(50)]
pub proof fn law_the_bitmap_shows_the_picture(colors: Seq<u16>, x: int, y: int)
    requires
        colors.len() >= PIXELS,
        0 <= x < 320,
        0 <= y < 480,
    ensures
        ({
            let at = 54 + 3 * (320 * y + x);
            let bmp = bmp_bytes(colors);
            is_bgr(bmp[at], bmp[at + 1], bmp[at + 2], upright(colors, x, y))
        }),
{
    law_bmp_length(colors);
    let k = 320 * y + x;
    let at = 3 * k;
    let body = bgr_bytes(colors, 0, PIXELS as nat);
    assert(at / 3 == k && (at + 1) / 3 == k && (at + 2) / 3 == k);
    assert(at % 3 == 0 && (at + 1) % 3 == 1 && (at + 2) % 3 == 2);
    let bmp = bmp_bytes(colors);
    assert(bmp[54 + at] == body[at] && bmp[55 + at] == body[at + 1] && bmp[56 + at] == body[at
        + 2]);
}

/// Pixels that are streamed are those of the bitmap, wherever a piece starts: pixel
/// `k` of a piece is the one that shows `start + k` pixels into the picture.
pub proof fn law_a_piece_shows_its_pixels(colors: Seq<u16>, start: int, count: nat, k: int)
    requires
        colors.len() >= PIXELS,
        0 <= start,
        start + count <= PIXELS,
        0 <= k < count,
    ensures
        ({
            let piece = bgr_bytes(colors, start, count);
            let n = start + k;
            &&& piece.len() == 3 * count
            &&& is_bgr(
                piece[3 * k],
                piece[3 * k + 1],
                piece[3 * k + 2],
                upright(colors, n % 320, n / 320),
            )
        }),
{
    assert((3 * k) / 3 == k && (3 * k + 1) / 3 == k && (3 * k + 2) / 3 == k);
    let n = start + k;
    assert(320 * (479 - n / 320) + (319 - n % 320) == PIXELS - 1 - n);
}

/// Each entry of the colour table is blue, green, red and a zero of its colour.
pub proof fn law_the_colour_table_has_the_colours(colors: Seq<u16>, i: int)
    requires
        colors.len() == 16,
        0 <= i < 16,
    ensures
        ({
            let h = bmp4_header_bytes(colors);
            let at = 54 + 4 * i;
            &&& h.len() == BMP4_HEADER_LEN
            &&& is_bgr(h[at], h[at + 1], h[at + 2], colors[i])
            &&& h[at + 3] == 0
        }),
{
    lemma_table_entry(colors, i);
    lemma_header_len(BMP4_LEN as u32, BMP4_HEADER_LEN as u32, 4, BMP4_PIXELS_LEN as u32, 16);
    lemma_behind(
        bitmap_header(BMP4_LEN as u32, BMP4_HEADER_LEN as u32, 4, BMP4_PIXELS_LEN as u32, 16),
        color_table(colors),
        4 * i,
    );
}

proof fn lemma_table_entry(colors: Seq<u16>, i: int)
    requires
        0 <= i < colors.len(),
    ensures
        ({
            let table = color_table(colors);
            let k = 4 * i;
            &&& table.len() == 4 * colors.len()
            &&& is_bgr(table[k], table[k + 1], table[k + 2], colors[i])
            &&& table[k + 3] == 0
        }),
{
    let k = 4 * i;
    assert(k / 4 == i && (k + 1) / 4 == i && (k + 2) / 4 == i && (k + 3) / 4 == i);
    assert(k % 4 == 0 && (k + 1) % 4 == 1 && (k + 2) % 4 == 2 && (k + 3) % 4 == 3);
}

proof fn lemma_header_len(
    file_len: u32,
    pixels_at: u32,
    bits: u16,
    pixels_len: u32,
    table_len: u32,
)
    ensures
        bitmap_header(file_len, pixels_at, bits, pixels_len, table_len).len() == 54,
{
}

proof fn lemma_behind(head: Seq<u8>, tail: Seq<u8>, k: int)
    requires
        head.len() == 54,
        0 <= k,
        k + 4 <= tail.len(),
    ensures
        ({
            let s = head + tail;
            &&& s.len() == 54 + tail.len()
            &&& s[54 + k] == tail[k]
            &&& s[54 + k + 1] == tail[k + 1]
            &&& s[54 + k + 2] == tail[k + 2]
            &&& s[54 + k + 3] == tail[k + 3]
        }),
{
}

/// The 4-bit bitmap shows the picture: of two pixels side by side the left one is in
/// the high nibble.
pub proof fn law_the_small_bitmap_shows_the_picture(indices: Seq<u8>, x: int, y: int)
    requires
        indices.len() >= PIXELS,
        forall|i: int| 0 <= i < indices.len() ==> #[trigger] indices[i] < 16,
        0 <= x < 320,
        0 <= y < 480,
    ensures
        ({
            let body = bmp4_bytes(indices, 0, PIXELS as nat);
            let byte = body[160 * y + x / 2];
            let shown = indices[320 * (479 - y) + (319 - x)];
            &&& body.len() == BMP4_PIXELS_LEN
            &&& shown == if x % 2 == 0 {
                byte / 16
            } else {
                byte % 16
            }
        }),
{
    let k = 160 * y + x / 2;
    assert(indices[PIXELS - 1 - 2 * k] < 16 && indices[PIXELS - 2 - 2 * k] < 16);
    if x % 2 == 0 {
        assert(320 * (479 - y) + (319 - x) == PIXELS - 1 - 2 * k);
    } else {
        assert(320 * (479 - y) + (319 - x) == PIXELS - 2 - 2 * k);
    }
}

/// The RGBA picture shows the picture: red, green, blue and full opacity of the
/// panel's pixel that shows there.
pub proof fn law_the_rgba_picture_shows_the_picture(colors: Seq<u16>, x: int, y: int)
    requires
        colors.len() >= PIXELS,
        0 <= x < 320,
        0 <= y < 480,
    ensures
        ({
            let at = 4 * (320 * y + x);
            let out = rgba_bytes(colors, PIXELS as nat);
            &&& out.len() == RGBA8_LEN
            &&& is_bgr(out[at + 2], out[at + 1], out[at], upright(colors, x, y))
            &&& out[at + 3] == 255
        }),
{
    let k = 320 * y + x;
    let at = 4 * k;
    assert(at / 4 == k && (at + 1) / 4 == k && (at + 2) / 4 == k && (at + 3) / 4 == k);
    assert(at % 4 == 0 && (at + 1) % 4 == 1 && (at + 2) % 4 == 2 && (at + 3) % 4 == 3);
}

/// What both headers say: the picture is 320 columns wide and 480 rows high, the top
/// row first, uncompressed, with so many bits a pixel, and its pixels start behind the
/// header and fill the file.
pub proof fn law_headers_describe_the_picture(colors: Seq<u16>)
    requires
        colors.len() == 16,
    ensures
        ({
            let h = bmp_header_bytes();
            let s = bmp4_header_bytes(colors);
            &&& h[0] == 'B' as u8 && h[1] == 'M' as u8 && s[0] == 'B' as u8 && s[1] == 'M' as u8
            &&& bytes::word_at(h, 2) == 54 + 320 * 480 * 3
            &&& bytes::word_at(s, 2) == 54 + 16 * 4 + 320 * 480 / 2
            &&& bytes::word_at(h, 10) == 54 && bytes::word_at(s, 10) == 54 + 16 * 4
            &&& bytes::word_at(h, 14) == 40 && bytes::word_at(s, 14) == 40
            &&& bytes::word_at(h, 18) == 320 && bytes::word_at(s, 18) == 320
            &&& bytes::word_at(h, 22) + 480 == 0x1_0000_0000 && bytes::word_at(s, 22) + 480
                == 0x1_0000_0000
            &&& bytes::half_at(h, 26) == 1 && bytes::half_at(s, 26) == 1
            &&& bytes::half_at(h, 28) == 24 && bytes::half_at(s, 28) == 4
            &&& bytes::word_at(h, 30) == 0 && bytes::word_at(s, 30) == 0
            &&& bytes::word_at(h, 34) == 320 * 480 * 3 && bytes::word_at(s, 34) == 320 * 480 / 2
            &&& bytes::word_at(h, 46) == 0 && bytes::word_at(s, 46) == 16
        }),
{
    let none = Seq::<u8>::empty();
    lemma_header_fields(BMP_LEN as u32, 54, 24, 460800, 0, none);
    assert(bmp_header_bytes() + none =~= bmp_header_bytes());
    lemma_header_fields(
        BMP4_LEN as u32,
        BMP4_HEADER_LEN as u32,
        4,
        BMP4_PIXELS_LEN as u32,
        16,
        color_table(colors),
    );
}

/// The fields of a header lie where they should, whatever follows it.
#[verifier::rlimit(50)]
proof fn lemma_header_fields(
    file_len: u32,
    pixels_at: u32,
    bits: u16,
    pixels_len: u32,
    table_len: u32,
    tail: Seq<u8>,
)
    ensures
        ({
            let h = bitmap_header(file_len, pixels_at, bits, pixels_len, table_len) + tail;
            &&& h[0] == 0x42 && h[1] == 0x4D
            &&& bytes::word_at(h, 2) == file_len
            &&& bytes::word_at(h, 10) == pixels_at
            &&& bytes::word_at(h, 14) == 40
            &&& bytes::word_at(h, 18) == 320
            &&& bytes::word_at(h, 22) == minus_480()
            &&& bytes::half_at(h, 26) == 1
            &&& bytes::half_at(h, 28) == bits
            &&& bytes::word_at(h, 30) == 0
            &&& bytes::word_at(h, 34) == pixels_len
            &&& bytes::word_at(h, 46) == table_len
        }),
{
    let h = bitmap_header(file_len, pixels_at, bits, pixels_len, table_len) + tail;
    assert(h.subrange(2, 6) =~= bytes::le32(file_len));
    assert(h.subrange(10, 14) =~= bytes::le32(pixels_at));
    assert(h.subrange(14, 18) =~= bytes::le32(40));
    assert(h.subrange(18, 22) =~= bytes::le32(320));
    assert(h.subrange(22, 26) =~= bytes::le32(minus_480()));
    assert(h.subrange(26, 28) =~= bytes::le16(1));
    assert(h.subrange(28, 30) =~= bytes::le16(bits));
    assert(h.subrange(30, 34) =~= bytes::le32(0));
    assert(h.subrange(34, 38) =~= bytes::le32(pixels_len));
    assert(h.subrange(46, 50) =~= bytes::le32(table_len));
    bytes::lemma_word_of_le32(h, 2, file_len);
    bytes::lemma_word_of_le32(h, 10, pixels_at);
    bytes::lemma_word_of_le32(h, 14, 40);
    bytes::lemma_word_of_le32(h, 18, 320);
    bytes::lemma_word_of_le32(h, 22, minus_480());
    bytes::lemma_half_of_le16(h, 26, 1);
    bytes::lemma_half_of_le16(h, 28, bits);
    bytes::lemma_word_of_le32(h, 30, 0);
    bytes::lemma_word_of_le32(h, 34, pixels_len);
    bytes::lemma_word_of_le32(h, 46, table_len);
}

/// What a call of [`bmp_pixels_bgr`] writes: pixel `k` of the piece has its blue, green
/// and red in three bytes, in this order, each from its own bits of the colour that
/// shows there; what lies behind the piece stays.
pub proof fn law_streamed_pixels_have_their_channels<S: PixelStore>(
    fb: Framebuffer<S>,
    start: usize,
    count: usize,
    out: &mut [u8],
    n: usize,
    k: int,
)
    requires
        fb.wf(),
        fb.picture().pixels.len() == 320 * 480,
        start + count <= 320 * 480,
        3 * count <= old(out)@.len(),
        call_ensures(bmp_pixels_bgr::<S>, (&fb, start, count, out), n),
    ensures
        n == 3 * count,
        final(out)@.len() == old(out)@.len(),
        0 <= k < count ==> {
            let px = fb.picture().pixels[320 * 480 - 1 - (start + k)];
            &&& final(out)@[3 * k] / 8 == px % 32
            &&& final(out)@[3 * k + 1] / 4 == px / 32 % 64
            &&& final(out)@[3 * k + 2] / 8 == px / 2048
            &&& final(out)@[3 * k] % 8 == px % 32 / 4
            &&& final(out)@[3 * k + 1] % 4 == px / 32 % 64 / 16
            &&& final(out)@[3 * k + 2] % 8 == px / 2048 / 4
        },
        3 * count <= k < old(out)@.len() ==> final(out)@[k] == old(out)@[k],
{
    let colors = fb.picture().pixels;
    let piece = bgr_bytes(colors, start as int, count as nat);
    if 0 <= k < count {
        law_a_piece_shows_its_pixels(colors, start as int, count as nat, k);
        let m = start + k;
        assert(320 * (479 - m / 320) + (319 - m % 320) == 320 * 480 - 1 - m);
    }
    assert(piece.len() == 3 * count);
}

/// What a call of [`write_bmp`] writes: the file's header and, for each place of the
/// upright picture, the three channels of the panel's pixel that shows there.
pub proof fn law_the_file_shows_the_picture<S: PixelStore>(
    fb: Framebuffer<S>,
    out: &mut [u8],
    n: usize,
    x: int,
    y: int,
)
    requires
        fb.wf(),
        fb.picture().pixels.len() == 320 * 480,
        old(out)@.len() >= 54 + 3 * 320 * 480,
        call_ensures(write_bmp::<S>, (&fb, out), n),
        0 <= x < 320,
        0 <= y < 480,
    ensures
        n == 54 + 3 * 320 * 480,
        ({
            let at = 54 + 3 * (320 * y + x);
            let px = fb.picture().pixels[320 * (479 - y) + (319 - x)];
            &&& final(out)@[at] / 8 == px % 32
            &&& final(out)@[at + 1] / 4 == px / 32 % 64
            &&& final(out)@[at + 2] / 8 == px / 2048
        }),
        final(out)@[0] == 'B' as u8 && final(out)@[1] == 'M' as u8,
{
    let colors = fb.picture().pixels;
    law_the_bitmap_shows_the_picture(colors, x, y);
    law_bmp_length(colors);
    law_headers_describe_the_picture(Seq::new(16, |i: int| 0u16));
    let b = bmp_bytes(colors);
    assert(final(out)@ == b + old(out)@.skip(BMP_LEN as int));
    assert(b[0] == bmp_header_bytes()[0] && b[1] == bmp_header_bytes()[1]);
}

/// What a call of [`bmp4_header`] gives: each entry of its table is blue, green and red
/// of a colour of the palette, and a zero.
pub proof fn law_the_table_is_the_palette(palette: Palette, h: [u8; 118], i: int)
    requires
        palette.colors@.len() == 16,
        call_ensures(bmp4_header, (&palette,), h),
        0 <= i < 16,
    ensures
        ({
            let at = 54 + 4 * i;
            let px = palette.colors@[i];
            &&& h@[at] / 8 == px % 32
            &&& h@[at + 1] / 4 == px / 32 % 64
            &&& h@[at + 2] / 8 == px / 2048
            &&& h@[at + 3] == 0
        }),
{
    law_the_colour_table_has_the_colours(palette.colors@, i);
}

/// What a call of [`rgb565_to_rgb888`] gives: the three channels of the colour, widened.
pub proof fn law_a_colour_is_widened(px: u16, rgb: (u8, u8, u8))
    requires
        call_ensures(rgb565_to_rgb888, (px,), rgb),
    ensures
        rgb.0 / 8 == px / 2048 && rgb.0 % 8 == rgb.0 / 32,
        rgb.1 / 4 == px / 32 % 64 && rgb.1 % 4 == rgb.1 / 64,
        rgb.2 / 8 == px % 32 && rgb.2 % 8 == rgb.2 / 32,
{
    law_channels_are_those_of_the_colour(px);
}

/// What a call of [`bmp4_pixels`] writes: each byte has the indices of two pixels side
/// by side, the left one in the high nibble.
pub proof fn law_streamed_indices_share_bytes(
    store: Palette4Store<'_>,
    start: usize,
    count: usize,
    out: &mut [u8],
    n: usize,
    k: int,
)
    requires
        store.indices().len() >= PIXELS,
        start % 2 == 0,
        count % 2 == 0,
        start + count <= PIXELS,
        count / 2 <= old(out)@.len(),
        call_ensures(bmp4_pixels, (&store, start, count, out), n),
        0 <= k < count / 2,
        store.indices()[320 * 480 - 1 - (start + 2 * k)] < 16,
        store.indices()[320 * 480 - 2 - (start + 2 * k)] < 16,
    ensures
        n == count / 2,
        final(out)@[k] / 16 == store.indices()[320 * 480 - 1 - (start + 2 * k)],
        final(out)@[k] % 16 == store.indices()[320 * 480 - 2 - (start + 2 * k)],
{
    let piece = bmp4_bytes(store.indices(), start as int, count as nat);
    assert(final(out)@[k] == piece[k]);
}

/// What a call of [`write_rgba8`] writes: for each place of the upright picture red, green
/// and blue of the panel's pixel that shows there, and full opacity.
pub proof fn law_the_rgba_buffer_shows_the_picture<S: PixelStore>(
    fb: Framebuffer<S>,
    out: &mut [u8],
    n: usize,
    x: int,
    y: int,
)
    requires
        fb.wf(),
        fb.picture().pixels.len() == 320 * 480,
        old(out)@.len() >= 4 * 320 * 480,
        call_ensures(write_rgba8::<S>, (&fb, out), n),
        0 <= x < 320,
        0 <= y < 480,
    ensures
        n == 4 * 320 * 480,
        ({
            let at = 4 * (320 * y + x);
            let px = fb.picture().pixels[320 * (479 - y) + (319 - x)];
            &&& final(out)@[at] / 8 == px / 2048
            &&& final(out)@[at + 1] / 4 == px / 32 % 64
            &&& final(out)@[at + 2] / 8 == px % 32
            &&& final(out)@[at + 3] == 255
        }),
{
    let colors = fb.picture().pixels;
    law_the_rgba_picture_shows_the_picture(colors, x, y);
    assert(final(out)@ == rgba_bytes(colors, PIXELS as nat) + old(out)@.skip(RGBA8_LEN as int));
}

} // verus!
