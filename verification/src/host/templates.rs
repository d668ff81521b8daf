//! Glyph templates: a glyph is known by its size and by a hash of its shape.
//!
//! A shape is a list of pixels, each like the first one or not. Its hash is
//! FNV-1a over the lengths of its runs, two bytes each, least significant first.

use vstd::prelude::*;

use crate::bytes;
use crate::fnv;
use crate::fnv::{fnv_init, fnv_mix};

verus! {

/// One known glyph.
#[derive(Clone, Copy, Debug)]
pub struct Template {
    pub w: u16,
    pub h: u16,
    pub label: &'static str,
    pub hash: u64,
}

/// The lengths of the runs of equal bits.
pub open spec fn runs(bits: Seq<bool>) -> Seq<nat>
    decreases bits.len(),
{
    if bits.len() == 0 {
        Seq::empty()
    } else {
        let before = runs(bits.drop_last());
        if bits.len() > 1 && bits.last() == bits[bits.len() - 2] {
            before.drop_last().push(before.last() + 1)
        } else {
            before.push(1)
        }
    }
}

/// A run length in the 16 bits that are hashed.
pub open spec fn low16(n: nat) -> u16 {
    (n % 65536) as u16
}

/// The bytes of run lengths.
pub open spec fn run_bytes(lens: Seq<nat>) -> Seq<u8>
    decreases lens.len(),
{
    if lens.len() == 0 {
        Seq::empty()
    } else {
        run_bytes(lens.drop_last()) + bytes::le16(low16(lens.last()))
    }
}

/// The hash of a shape.
pub open spec fn shape_hash(bits: Seq<bool>) -> u64 {
    fnv::hash_of(run_bytes(runs(bits)))
}

/// The hash of all runs of a shape but the one at its end.
pub open spec fn settled_hash(bits: Seq<bool>) -> u64 {
    fnv::hash_of(run_bytes(runs(bits).drop_last()))
}

pub proof fn lemma_runs_nonempty(bits: Seq<bool>)
    requires
        bits.len() > 0,
    ensures
        runs(bits).len() > 0,
        runs(bits).last() > 0,
    decreases bits.len(),
{
    if bits.len() > 1 {
        lemma_runs_nonempty(bits.drop_last());
    }
}

/// Mixing in the run at the end completes the hash.
pub proof fn lemma_hash_completes(bits: Seq<bool>)
    requires
        bits.len() > 0,
    ensures
        ({
            let last = bytes::le16(low16(runs(bits).last()));
            shape_hash(bits) == fnv::mixed(fnv::mixed(settled_hash(bits), last[0]), last[1])
        }),
{
    lemma_runs_nonempty(bits);
    let lens = runs(bits);
    let a = run_bytes(lens.drop_last());
    let last = bytes::le16(low16(lens.last()));
    fnv::law_hash_extends(a, last[0]);
    fnv::law_hash_extends(a.push(last[0]), last[1]);
    assert(run_bytes(lens) =~= a.push(last[0]).push(last[1]));
}

/// One more bit lengthens the run at the end, or settles it and starts another.
pub proof fn lemma_one_more_bit(bits: Seq<bool>, b: bool)
    requires
        bits.len() > 0,
    ensures
        b == bits.last() ==> settled_hash(bits.push(b)) == settled_hash(bits) && runs(
            bits.push(b),
        ).last() == runs(bits).last() + 1,
        b != bits.last() ==> settled_hash(bits.push(b)) == shape_hash(bits) && runs(
            bits.push(b),
        ).last() == 1,
{
    lemma_runs_nonempty(bits);
    let more = bits.push(b);
    assert(more.drop_last() =~= bits);
    assert(more[more.len() - 2] == bits.last());
    let lens = runs(bits);
    if b == bits.last() {
        assert(runs(more).drop_last() =~= lens.drop_last());
    } else {
        assert(runs(more).drop_last() =~= lens);
    }
}

/// Which pixels differ from the first.
pub open spec fn unlike_first<T>(pixels: Seq<T>) -> Seq<bool> {
    Seq::new(pixels.len(), |i: int| pixels[i] != pixels[0])
}

/// A shape hash that grows pixel by pixel: the hash of the settled runs, and the
/// run at the end. There is always a first pixel.
pub struct ShapeHasher {
    hash: u64,
    run_len: u16,
    run_is_fg: bool,
    bits: Ghost<Seq<bool>>,
}

impl View for ShapeHasher {
    type V = Seq<bool>;

    /// The bits so far.
    closed spec fn view(&self) -> Seq<bool> {
        self.bits@
    }
}

impl ShapeHasher {
    /// The fields tell of the bits so far.
    pub closed spec fn wf(&self) -> bool {
        &&& self@.len() > 0
        &&& self.hash == settled_hash(self@)
        &&& self.run_len == low16(runs(self@).last())
        &&& self.run_is_fg == self@.last()
    }

    /// The first pixel, which is like itself.
    pub fn start() -> (hasher: Self)
        ensures
            hasher.wf(),
            hasher@ == seq![false],
    {
        let ghost bits = seq![false];
        proof {
            assert(bits.drop_last() =~= Seq::<bool>::empty());
            assert(runs(bits.drop_last()) =~= Seq::<nat>::empty());
            assert(runs(bits) =~= seq![1nat]);
            assert(runs(bits).drop_last() =~= Seq::<nat>::empty());
        }
        ShapeHasher { hash: fnv_init(), run_len: 1, run_is_fg: false, bits: Ghost(bits) }
    }

    /// One more pixel: whether it differs from the first.
    pub fn extend(&mut self, is_fg: bool)
        requires
            old(self).wf(),
        ensures
            final(self).wf(),
            final(self)@ == old(self)@.push(is_fg),
    {
        proof {
            lemma_one_more_bit(self@, is_fg);
            lemma_hash_completes(self@);
        }
        if is_fg == self.run_is_fg {
            self.run_len = self.run_len.wrapping_add(1);
        } else {
            // Two bytes, so that a long run does not pass for a short one.
            self.hash = fnv_mix(self.hash, (self.run_len % 256) as u8);
            self.hash = fnv_mix(self.hash, (self.run_len / 256) as u8);
            self.run_len = 1;
            self.run_is_fg = is_fg;
        }
        self.bits = Ghost(self.bits@.push(is_fg));
    }

    /// The hash of the shape so far.
    pub fn finish(&self) -> (hash: u64)
        requires
            self.wf(),
        ensures
            hash == shape_hash(self@),
    {
        proof {
            lemma_hash_completes(self@);
        }
        fnv_mix(fnv_mix(self.hash, (self.run_len % 256) as u8), (self.run_len / 256) as u8)
    }
}

/// The hash of a binarized picture. It is walked from its last pixel backwards:
/// pictures are stored upright, and the panel draws upside down.
pub fn hash_picture(pixels: &[bool]) -> (hash: u64)
    ensures
        hash == shape_hash(unlike_first(pixels@.reverse())),
{
    let n: usize = pixels.len();
    let ghost drawn = pixels@.reverse();
    if n == 0 {
        assert(unlike_first(drawn) =~= Seq::<bool>::empty());
        return fnv_init();
    }
    let bg: bool = pixels[n - 1];
    let mut hasher = ShapeHasher::start();
    let mut i: usize = 1;
    assert(unlike_first(drawn).take(1) =~= seq![false]);
    while i < n
        invariant
            1 <= i <= n,
            n == pixels.len(),
            drawn == pixels@.reverse(),
            bg == drawn[0],
            hasher.wf(),
            hasher@ == unlike_first(drawn).take(i as int),
        decreases n - i,
    {
        let px: bool = pixels[n - 1 - i];
        hasher.extend(px != bg);
        i += 1;
        assert(hasher@ =~= unlike_first(drawn).take(i as int));
    }
    assert(unlike_first(drawn).take(n as int) =~= unlike_first(drawn));
    hasher.finish()
}

/// A template's hash is that of the windows it stands for: where a picture shows
/// the pixels that differ from a window's first pixel, the two hashes are equal.
pub proof fn law_baked_hash_is_drawn_hash(window: Seq<u16>, picture: Seq<bool>)
    requires
        picture.len() == window.len(),
        forall|i: int|
            0 <= i < window.len() ==> (#[trigger] picture.reverse()[i] == picture.reverse()[0]) == (
            window[i] == window[0]),
    ensures
        shape_hash(unlike_first(picture.reverse())) == shape_hash(unlike_first(window)),
{
    assert forall|i: int| 0 <= i < window.len() implies unlike_first(picture.reverse())[i]
        == unlike_first(window)[i] by {
        assert((picture.reverse()[i] == picture.reverse()[0]) == (window[i] == window[0]));
    }
    assert(unlike_first(picture.reverse()) =~= unlike_first(window));
}

/// The template for a shape.
pub open spec fn matching(templates: Seq<Template>, w: u16, h: u16, hash: u64) -> Option<int>
    decreases templates.len(),
{
    if templates.len() == 0 {
        None
    } else {
        match matching(templates.drop_last(), w, h, hash) {
            Some(i) => Some(i),
            None => {
                let t = templates.last();
                if t.w == w && t.h == h && t.hash == hash {
                    Some(templates.len() - 1)
                } else {
                    None
                }
            },
        }
    }
}

/// Whether any template has this size.
pub open spec fn has_size(templates: Seq<Template>, w: u16, h: u16) -> bool {
    exists|i: int| 0 <= i < templates.len() && (#[trigger] templates[i]).w == w && templates[i].h == h
}

/// Whether any template has this size.
pub fn any_of_size(templates: &[Template], w: u16, h: u16) -> (found: bool)
    ensures
        found == has_size(templates@, w, h),
{
    let mut i: usize = 0;
    while i < templates.len()
        invariant
            i <= templates.len(),
            forall|j: int|
                0 <= j < i ==> !((#[trigger] templates@[j]).w == w && templates@[j].h == h),
        decreases templates.len() - i,
    {
        if templates[i].w == w && templates[i].h == h {
            return true;
        }
        i += 1;
    }
    false
}

/// The label of a shape: that of the first template that matches, or `#`.
pub open spec fn label_of(templates: Seq<Template>, w: u16, h: u16, hash: u64) -> Seq<char> {
    match matching(templates, w, h, hash) {
        Some(i) => templates[i].label@,
        None => "#"@,
    }
}

/// The label of a shape: that of the first template that matches, or `#`.
pub fn find_label(templates: &[Template], w: u16, h: u16, hash: u64) -> (label: &'static str)
    ensures
        label@ == label_of(templates@, w, h, hash),
{
    let mut i: usize = 0;
    assert(templates@.take(0) =~= Seq::<Template>::empty());
    while i < templates.len()
        invariant
            i <= templates.len(),
            matching(templates@.take(i as int), w, h, hash) is None,
        decreases templates.len() - i,
    {
        let t = templates[i];
        assert(templates@.take(i + 1).drop_last() =~= templates@.take(i as int));
        if t.w == w && t.h == h && t.hash == hash {
            proof {
                lemma_matching_prefix(templates@, i + 1, w, h, hash);
            }
            return t.label;
        }
        i += 1;
    }
    assert(templates@.take(i as int) =~= templates@);
    "#"
}

proof fn lemma_matching_prefix(templates: Seq<Template>, n: int, w: u16, h: u16, hash: u64)
    requires
        0 <= n <= templates.len(),
        matching(templates.take(n), w, h, hash) is Some,
    ensures
        matching(templates, w, h, hash) == matching(templates.take(n), w, h, hash),
    decreases templates.len(),
{
    if n == templates.len() {
        assert(templates.take(n) =~= templates);
    } else {
        assert(templates.drop_last().take(n) =~= templates.take(n));
        lemma_matching_prefix(templates.drop_last(), n, w, h, hash);
    }
}

/// No two templates of one size share a hash.
pub open spec fn collision_free(templates: Seq<Template>) -> bool {
    forall|i: int, j: int|
        0 <= i < j < templates.len() ==> !collide(#[trigger] templates[i], #[trigger] templates[j])
}

/// Two templates that cannot be told apart.
pub open spec fn collide(a: Template, b: Template) -> bool {
    a.w == b.w && a.h == b.h && a.hash == b.hash
}

/// The first two templates that cannot be told apart, if there are any.
pub fn find_collision(templates: &[Template]) -> (pair: Option<(usize, usize)>)
    ensures
        match pair {
            Some((i, j)) => i < j < templates.len() && collide(
                templates@[i as int],
                templates@[j as int],
            ) && forall|a: int, b: int|
                0 <= a < b < templates.len() && (a < i || a == i && b < j) ==> !collide(
                    #[trigger] templates@[a],
                    #[trigger] templates@[b],
                ),
            None => collision_free(templates@),
        },
{
    let mut i: usize = 0;
    while i < templates.len()
        invariant
            i <= templates.len(),
            forall|a: int, b: int|
                0 <= a < b < templates.len() && a < i ==> !collide(
                    #[trigger] templates@[a],
                    #[trigger] templates@[b],
                ),
        decreases templates.len() - i,
    {
        let mut j: usize = i + 1;
        while j < templates.len()
            invariant
                i < j <= templates.len(),
                forall|a: int, b: int|
                    0 <= a < b < templates.len() && (a < i || a == i && b < j) ==> !collide(
                        #[trigger] templates@[a],
                        #[trigger] templates@[b],
                    ),
            decreases templates.len() - j,
        {
            if templates[i].w == templates[j].w && templates[i].h == templates[j].h
                && templates[i].hash == templates[j].hash {
                return Some((i, j));
            }
            j += 1;
        }
        i += 1;
    }
    None
}

/// Without collisions every template is found by its own shape, wherever it
/// stands in the table.
pub proof fn law_every_template_is_found(templates: Seq<Template>, i: int)
    requires
        collision_free(templates),
        0 <= i < templates.len(),
    ensures
        matching(templates, templates[i].w, templates[i].h, templates[i].hash) == Some(i),
    decreases templates.len(),
{
    if i < templates.len() - 1 {
        assert forall|a: int, b: int|
            0 <= a < b < templates.drop_last().len() implies !collide(
            #[trigger] templates.drop_last()[a],
            #[trigger] templates.drop_last()[b],
        ) by {
            assert(!collide(templates[a], templates[b]));
        }
        law_every_template_is_found(templates.drop_last(), i);
    } else {
        lemma_unmatched(templates, i);
    }
}

proof fn lemma_unmatched(templates: Seq<Template>, n: int)
    requires
        collision_free(templates),
        0 <= n < templates.len(),
    ensures
        matching(
            templates.take(n),
            templates.last().w,
            templates.last().h,
            templates.last().hash,
        ) is None,
    decreases n,
{
    if n > 0 {
        assert(templates.take(n).drop_last() =~= templates.take(n - 1));
        lemma_unmatched(templates, n - 1);
        assert(!collide(templates[n - 1], templates[templates.len() - 1]));
    }
    assert(templates.drop_last() =~= templates.take(templates.len() - 1));
}

/// `n` pixels that are all like the first, or all unlike it.
pub open spec fn stretch(n: nat, is_fg: bool) -> Seq<bool> {
    Seq::new(n, |i: int| is_fg)
}

proof fn lemma_stretch(bits: Seq<bool>, m: nat, is_fg: bool)
    requires
        m > 0,
        bits.len() > 0 ==> bits.last() != is_fg,
    ensures
        runs(bits + stretch(m, is_fg)).last() == m,
        bits.len() > 0 ==> settled_hash(bits + stretch(m, is_fg)) == shape_hash(bits),
        bits.len() == 0 ==> settled_hash(bits + stretch(m, is_fg)) == fnv::FNV_OFFSET,
    decreases m,
{
    let all = bits + stretch(m, is_fg);
    if m == 1 {
        assert(all =~= bits.push(is_fg));
        if bits.len() > 0 {
            lemma_one_more_bit(bits, is_fg);
        } else {
            assert(all.drop_last() =~= Seq::<bool>::empty());
            assert(runs(all.drop_last()) =~= Seq::<nat>::empty());
            assert(runs(all) =~= seq![1nat]);
            assert(runs(all).drop_last() =~= Seq::<nat>::empty());
            assert(run_bytes(Seq::<nat>::empty()) =~= Seq::<u8>::empty());
        }
    } else {
        let before = bits + stretch((m - 1) as nat, is_fg);
        lemma_stretch(bits, (m - 1) as nat, is_fg);
        assert(all =~= before.push(is_fg));
        assert(before.last() == is_fg);
        lemma_one_more_bit(before, is_fg);
    }
}

/// A shape is hashed run by run: a run of `m` pixels behind a shape that ends unlike
/// it mixes in the two bytes of `m`, the low one first. A shape of one run is that
/// run behind nothing.
pub proof fn law_shapes_are_hashed_run_by_run(bits: Seq<bool>, m: nat, is_fg: bool)
    requires
        m > 0,
        bits.len() > 0 ==> bits.last() != is_fg,
    ensures
        ({
            let start = if bits.len() > 0 {
                shape_hash(bits)
            } else {
                14695981039346656037
            };
            shape_hash(bits + stretch(m, is_fg)) == fnv::mixed(
                fnv::mixed(start, (m % 256) as u8),
                (m / 256 % 256) as u8,
            )
        }),
{
    lemma_stretch(bits, m, is_fg);
    lemma_hash_completes(bits + stretch(m, is_fg));
    lemma_len_bytes(m);
}

proof fn lemma_len_bytes(m: nat)
    ensures
        bytes::le16(low16(m))[0] == (m % 256) as u8,
        bytes::le16(low16(m))[1] == (m / 256 % 256) as u8,
{
    let low = low16(m);
    assert(low % 256 == m % 256 && low / 256 == m / 256 % 256);
}

/// A pixel of a shape tells whether the colour there is another than the first one;
/// which colours they are does not matter.
pub proof fn law_shapes_have_no_colours(pixels: Seq<u16>, i: int)
    requires
        0 <= i < pixels.len(),
    ensures
        unlike_first(pixels).len() == pixels.len(),
        unlike_first(pixels)[i] == (pixels[i] != pixels[0]),
{
}

/// A shape has the label of the first template of its size and hash, and `#` where
/// there is none.
pub proof fn law_a_shape_has_the_label_of_its_template(
    templates: Seq<Template>,
    w: u16,
    h: u16,
    hash: u64,
)
    ensures
        forall|i: int|
            0 <= i < templates.len() && (#[trigger] templates[i]).w == w && templates[i].h == h
                && templates[i].hash == hash && (forall|j: int|
                0 <= j < i ==> (#[trigger] templates[j]).w != w || templates[j].h != h
                    || templates[j].hash != hash) ==> label_of(templates, w, h, hash)
                == templates[i].label@,
        (forall|j: int|
            0 <= j < templates.len() ==> (#[trigger] templates[j]).w != w || templates[j].h != h
                || templates[j].hash != hash) ==> label_of(templates, w, h, hash) == "#"@,
{
    lemma_first_match(templates, w, h, hash);
}

proof fn lemma_first_match(templates: Seq<Template>, w: u16, h: u16, hash: u64)
    ensures
        match matching(templates, w, h, hash) {
            Some(i) => {
                &&& 0 <= i < templates.len()
                &&& templates[i].w == w && templates[i].h == h && templates[i].hash == hash
                &&& forall|j: int|
                    0 <= j < i ==> (#[trigger] templates[j]).w != w || templates[j].h != h
                        || templates[j].hash != hash
            },
            None => forall|j: int|
                0 <= j < templates.len() ==> (#[trigger] templates[j]).w != w || templates[j].h != h
                    || templates[j].hash != hash,
        },
    decreases templates.len(),
{
    if templates.len() > 0 {
        let before = templates.drop_last();
        lemma_first_match(before, w, h, hash);
        assert(forall|j: int| 0 <= j < before.len() ==> before[j] == #[trigger] templates[j]);
    }
}

/// What a call of [`find_label`] gives: the label of the first template with that size
/// and hash, or a hash mark where there is none.
pub proof fn law_the_first_match_gives_the_label(
    templates: &[Template],
    w: u16,
    h: u16,
    hash: u64,
    label: &'static str,
    i: int,
)
    requires
        call_ensures(find_label, (templates, w, h, hash), label),
        0 <= i <= templates@.len(),
        forall|j: int|
            0 <= j < i ==> (#[trigger] templates@[j]).w != w || templates@[j].h != h
                || templates@[j].hash != hash,
        i < templates@.len() ==> templates@[i].w == w && templates@[i].h == h
            && templates@[i].hash == hash,
    ensures
        i < templates@.len() ==> label@ == templates@[i].label@,
        i == templates@.len() ==> label@ == "#"@,
{
    law_a_shape_has_the_label_of_its_template(templates@, w, h, hash);
}

/// What a call of [`find_collision`] gives: two templates of one size and hash, if there
/// are any.
pub proof fn law_a_collision_is_found(
    templates: &[Template],
    pair: Option<(usize, usize)>,
    a: int,
    b: int,
)
    requires
        call_ensures(find_collision, (templates,), pair),
        0 <= a < b < templates@.len(),
    ensures
        pair matches Some((i, j)) ==> {
            &&& i < j < templates@.len()
            &&& templates@[i as int].w == templates@[j as int].w
            &&& templates@[i as int].h == templates@[j as int].h
            &&& templates@[i as int].hash == templates@[j as int].hash
        },
        templates@[a].w == templates@[b].w && templates@[a].h == templates@[b].h
            && templates@[a].hash == templates@[b].hash ==> pair is Some,
{
}

/// What a call of [`any_of_size`] tells: whether a template has that width and height.
pub proof fn law_sizes_are_those_of_templates(
    templates: &[Template],
    w: u16,
    h: u16,
    found: bool,
)
    requires
        call_ensures(any_of_size, (templates, w, h), found),
    ensures
        found <==> exists|i: int|
            0 <= i < templates@.len() && (#[trigger] templates@[i]).w == w && templates@[i].h == h,
{
}

} // verus!
