//! What the HTTP server answers.

use vstd::prelude::*;

use crate::firmware_esp32::values::LatestValues;
use crate::fixed;
use crate::framebuffer::bmp;
use crate::framebuffer::{bmp4_pixels, Palette4Store, PIXELS};
use crate::host::decoder as glyph;
use crate::text;

verus! {

/// Pixels in one piece of the picture: enough bytes to fill a network segment.
pub const CHUNK_PX: usize = 4096;

/// The front of the answer to `/values`: an object with the first `n` rows.
pub open spec fn json_upto(values: Seq<Seq<char>>, n: nat) -> Seq<char>
    decreases n,
{
    if n == 0 {
        "{"@
    } else {
        let before = json_upto(values, (n - 1) as nat);
        let sep = if n > 1 {
            before + ","@
        } else {
            before
        };
        sep + "\""@ + glyph::row_names()[n - 1] + "\":\""@ + values[n - 1] + "\""@
    }
}

/// The answer to `/values`. Values are digits, dots and spaces, which JSON takes
/// as they are.
pub open spec fn json_text(values: Seq<Seq<char>>) -> Seq<char> {
    json_upto(values, glyph::ROWS_LEN as nat) + "}"@
}

spec fn size(t: Seq<char>) -> nat {
    vstd::utf8::encode_utf8(t).len()
}

proof fn lemma_size(a: Seq<char>, b: Seq<char>)
    ensures
        size(a + b) == size(a) + size(b),
{
    text::lemma_encode_concat(a, b);
}

proof fn lemma_row_name_size(i: int)
    requires
        0 <= i < glyph::ROWS_LEN,
    ensures
        size(glyph::row_names()[i]) <= 8,
{
    reveal_strlit("pm25");
    reveal_strlit("tvoc");
    reveal_strlit("co2");
    reveal_strlit("temp");
    reveal_strlit("humidity");
    text::lemma_ascii_len(glyph::row_names()[i]);
}

proof fn lemma_mark_sizes()
    ensures
        size("{"@) == 1,
        size("}"@) == 1,
        size(","@) == 1,
        size("\""@) == 1,
        size("\":\""@) == 3,
{
    reveal_strlit("{");
    reveal_strlit("}");
    reveal_strlit(",");
    reveal_strlit("\"");
    reveal_strlit("\":\"");
    text::lemma_ascii_len("{"@);
    text::lemma_ascii_len("}"@);
    text::lemma_ascii_len(","@);
    text::lemma_ascii_len("\""@);
    text::lemma_ascii_len("\":\""@);
}

/// Appends a piece that fits.
fn put(json: &mut heapless::String<256>, piece: &str)
    requires
        size(fixed::text256(*old(json))) + size(piece@) <= 256,
    ensures
        fixed::text256(*final(json)) == fixed::text256(*old(json)) + piece@,
        size(fixed::text256(*final(json))) == size(fixed::text256(*old(json))) + size(piece@),
{
    proof {
        lemma_size(fixed::text256(*json), piece@);
    }
    let _ = fixed::text256_push_str(json, piece);
}

/// The answer to `/values`, such as
/// `{"pm25":"6","tvoc":"0.1","co2":"586","temp":"26","humidity":"55"}`.
pub fn values_json(latest: &LatestValues) -> (json: heapless::String<256>)
    requires
        latest.wf(),
    ensures
        fixed::text256(json) == json_text(latest@),
{
    let mut json = fixed::text256_new();
    proof {
        lemma_mark_sizes();
        assert(size(Seq::empty()) == 0);
        assert(Seq::<char>::empty() + "{"@ =~= "{"@);
    }
    put(&mut json, "{");
    let mut i: usize = 0;
    while i < glyph::ROWS_LEN
        invariant
            i <= glyph::ROWS_LEN,
            latest.wf(),
            fixed::text256(json) == json_upto(latest@, i as nat),
            size(fixed::text256(json)) <= 1 + 30 * i,
        decreases glyph::ROWS_LEN - i,
    {
        proof {
            lemma_mark_sizes();
            lemma_row_name_size(i as int);
        }
        if i > 0 {
            put(&mut json, ",");
        }
        put(&mut json, "\"");
        put(&mut json, glyph::row_name(i));
        put(&mut json, "\":\"");
        put(&mut json, latest.get(i));
        put(&mut json, "\"");
        i += 1;
    }
    proof {
        lemma_mark_sizes();
    }
    put(&mut json, "}");
    json
}

/// The pixels of the picture, handed out piece by piece.
pub struct PixelStream {
    next: usize,
}

impl PixelStream {
    /// How many pixels were handed out.
    pub closed spec fn done(&self) -> int {
        self.next as int
    }

    pub closed spec fn wf(&self) -> bool {
        self.next % 2 == 0 && self.next <= PIXELS
    }

    /// Nothing handed out yet.
    pub fn new() -> (s: Self)
        ensures
            s.wf(),
            s.done() == 0,
    {
        PixelStream { next: 0 }
    }

    /// Puts the next piece into the front of `chunk`. Returns its length; 0 at the
    /// end of the picture.
    pub fn next_chunk(&mut self, store: &Palette4Store<'_>, chunk: &mut [u8]) -> (n: usize)
        requires
            old(self).wf(),
            store.indices().len() >= PIXELS,
            old(chunk)@.len() == CHUNK_PX / 2,
        ensures
            final(self).wf(),
            final(chunk)@.len() == old(chunk)@.len(),
            ({
                let left = PIXELS - old(self).done();
                let count = if left < CHUNK_PX {
                    left
                } else {
                    CHUNK_PX as int
                };
                &&& n == count / 2
                &&& final(self).done() == old(self).done() + count
                &&& final(chunk)@.take(n as int) == bmp::bmp4_bytes(
                    store.indices(),
                    old(self).done(),
                    count as nat,
                )
            }),
    {
        let left: usize = PIXELS - self.next;
        let count: usize = if left < CHUNK_PX {
            left
        } else {
            CHUNK_PX
        };
        let n: usize = bmp4_pixels(store, self.next, count, chunk);
        assert(chunk@.take(n as int) =~= bmp::bmp4_bytes(
            store.indices(),
            self.next as int,
            count as nat,
        ));
        self.next = self.next + count;
        n
    }
}

/// The pieces of the picture up to a pixel, one after the other.
pub open spec fn pieces(indices: Seq<u8>, done: int) -> Seq<u8>
    decreases done,
{
    if done <= 0 {
        Seq::empty()
    } else {
        let start = (done - 1) / (CHUNK_PX as int) * CHUNK_PX;
        pieces(indices, start) + bmp::bmp4_bytes(indices, start, (done - start) as nat)
    }
}

/// The pieces join to the whole picture, and with the header they are as many
/// bytes as were announced.
pub proof fn law_pieces_are_the_picture(indices: Seq<u8>, colors: Seq<u16>)
    requires
        colors.len() == 16,
    ensures
        pieces(indices, PIXELS as int) == bmp::bmp4_bytes(indices, 0, PIXELS as nat),
        bmp::bmp4_header_bytes(colors).len() + pieces(indices, PIXELS as int).len()
            == bmp::BMP4_LEN,
{
    lemma_pieces(indices, PIXELS as int);
}

proof fn lemma_pieces(indices: Seq<u8>, done: int)
    requires
        0 <= done,
        done % 2 == 0,
    ensures
        pieces(indices, done) == bmp::bmp4_bytes(indices, 0, done as nat),
    decreases done,
{
    if done > 0 {
        let start = (done - 1) / (CHUNK_PX as int) * CHUNK_PX;
        lemma_pieces(indices, start);
        bmp::law_bmp4_pieces_join(indices, 0, start as nat, (done - start) as nat);
    } else {
        assert(pieces(indices, done) =~= bmp::bmp4_bytes(indices, 0, 0));
    }
}

/// The answer to `/values` is one object that gives each row's value as a string under
/// its name, in the order of the rows.
pub proof fn law_every_value_is_answered(values: Seq<Seq<char>>)
    requires
        values.len() == 5,
    ensures
        json_text(values) == "{\"pm25\":\""@ + values[0] + "\",\"tvoc\":\""@ + values[1]
            + "\",\"co2\":\""@ + values[2] + "\",\"temp\":\""@ + values[3] + "\",\"humidity\":\""@
            + values[4] + "\"}"@,
{
    lemma_joints();
    let names = glyph::row_names();
    let a = "{\"pm25\":\""@ + values[0];
    let b = a + "\",\"tvoc\":\""@ + values[1];
    let c = b + "\",\"co2\":\""@ + values[2];
    let d = c + "\",\"temp\":\""@ + values[3];
    let e = d + "\",\"humidity\":\""@ + values[4];
    assert(json_upto(values, 0) == "{"@);
    assert(json_upto(values, 1) == "{"@ + "\""@ + names[0] + "\":\""@ + values[0] + "\""@);
    assert(json_upto(values, 1) == a + "\""@);
    lemma_next_row(values, 2, a, "\",\"tvoc\":\""@);
    lemma_next_row(values, 3, b, "\",\"co2\":\""@);
    lemma_next_row(values, 4, c, "\",\"temp\":\""@);
    lemma_next_row(values, 5, d, "\",\"humidity\":\""@);
    assert(e + "\""@ + "}"@ =~= e + ("\""@ + "}"@));
}

/// One more row behind those before it, with what stands between two values as one piece.
proof fn lemma_next_row(values: Seq<Seq<char>>, n: nat, front: Seq<char>, joint: Seq<char>)
    requires
        1 < n <= 5,
        json_upto(values, (n - 1) as nat) == front + "\""@,
        joint == "\""@ + (","@ + ("\""@ + (glyph::row_names()[n - 1] + "\":\""@))),
    ensures
        json_upto(values, n) == front + joint + values[n - 1] + "\""@,
{
    let name = glyph::row_names()[n - 1];
    assert(front + "\""@ + ","@ + "\""@ + name + "\":\""@ =~= front + joint);
}

/// What stands before, between and behind the values.
proof fn lemma_joints()
    ensures
        "{"@ + "\""@ + "pm25"@ + "\":\""@ == "{\"pm25\":\""@,
        "\""@ + (","@ + ("\""@ + ("tvoc"@ + "\":\""@))) == "\",\"tvoc\":\""@,
        "\""@ + (","@ + ("\""@ + ("co2"@ + "\":\""@))) == "\",\"co2\":\""@,
        "\""@ + (","@ + ("\""@ + ("temp"@ + "\":\""@))) == "\",\"temp\":\""@,
        "\""@ + (","@ + ("\""@ + ("humidity"@ + "\":\""@))) == "\",\"humidity\":\""@,
        "\""@ + "}"@ == "\"}"@,
{
    reveal_strlit("{\"pm25\":\"");
    reveal_strlit("\",\"tvoc\":\"");
    reveal_strlit("\",\"co2\":\"");
    reveal_strlit("\",\"temp\":\"");
    reveal_strlit("\",\"humidity\":\"");
    reveal_strlit("\"}");
    reveal_strlit("pm25");
    reveal_strlit("tvoc");
    reveal_strlit("co2");
    reveal_strlit("temp");
    reveal_strlit("humidity");
    reveal_strlit("{");
    reveal_strlit("}");
    reveal_strlit(",");
    reveal_strlit("\"");
    reveal_strlit("\":\"");
    assert("{"@ + "\""@ + "pm25"@ + "\":\""@ =~= "{\"pm25\":\""@);
    assert("\""@ + (","@ + ("\""@ + ("tvoc"@ + "\":\""@))) =~= "\",\"tvoc\":\""@);
    assert("\""@ + (","@ + ("\""@ + ("co2"@ + "\":\""@))) =~= "\",\"co2\":\""@);
    assert("\""@ + (","@ + ("\""@ + ("temp"@ + "\":\""@))) =~= "\",\"temp\":\""@);
    assert("\""@ + (","@ + ("\""@ + ("humidity"@ + "\":\""@))) =~= "\",\"humidity\":\""@);
    assert("\""@ + "}"@ =~= "\"}"@);
}

/// What a call of [`values_json`] answers: each row's latest value as a string under the
/// row's name, in one object.
pub proof fn law_the_answer_has_the_latest_values(
    latest: LatestValues,
    json: heapless::String<256>,
)
    requires
        latest.wf(),
        latest@.len() == 5,
        call_ensures(values_json, (&latest,), json),
    ensures
        fixed::text256(json) == "{\"pm25\":\""@ + latest@[0] + "\",\"tvoc\":\""@ + latest@[1]
            + "\",\"co2\":\""@ + latest@[2] + "\",\"temp\":\""@ + latest@[3]
            + "\",\"humidity\":\""@ + latest@[4] + "\"}"@,
{
    law_every_value_is_answered(latest@);
}

/// What calls of [`PixelStream::next_chunk`] hand out: 4096 pixels at a time, or what is
/// left, two in each byte, from where the last call ended, until the picture is done.
pub proof fn law_pieces_follow_each_other(
    s: &mut PixelStream,
    store: &Palette4Store<'_>,
    chunk: &mut [u8],
    n: usize,
    k: int,
)
    requires
        old(s).wf(),
        0 <= old(s).done() <= 320 * 480,
        old(s).done() % 2 == 0,
        store.indices().len() >= 320 * 480,
        old(chunk)@.len() == 2048,
        call_ensures(PixelStream::next_chunk, (s, store, chunk), n),
    ensures
        final(s).done() == old(s).done() + 2 * n,
        n == 2048 || final(s).done() == 320 * 480 && n < 2048,
        n == 0 <==> old(s).done() == 320 * 480,
        0 <= k < n && store.indices()[320 * 480 - 1 - old(s).done() - 2 * k] < 16
            && store.indices()[320 * 480 - 2 - old(s).done() - 2 * k] < 16 ==> {
            &&& final(chunk)@[k] / 16 == store.indices()[320 * 480 - 1 - old(s).done() - 2 * k]
            &&& final(chunk)@[k] % 16 == store.indices()[320 * 480 - 2 - old(s).done() - 2 * k]
        },
{
    if 0 <= k < n {
        assert(final(chunk)@.take(n as int)[k] == final(chunk)@[k]);
    }
}

} // verus!
