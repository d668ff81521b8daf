//! Getting in step with a board.
//!
//! Send STOP and read until the board falls silent: the acknowledgement must be
//! among what it said. Then send START; everything from there on is for the wire
//! decoder.

use vstd::prelude::*;

use crate::text;
use crate::wire::{HOST_CMD_START, HOST_CMD_STOP, TAG_STOPPED};

verus! {

/// Bytes shown of what was drained.
pub const PREVIEW_LEN: usize = 32;

/// Bytes with commas between them, two hexadecimal digits each.
pub open spec fn hex_list(s: Seq<u8>) -> Seq<char>
    decreases s.len(),
{
    if s.len() == 0 {
        Seq::empty()
    } else if s.len() == 1 {
        text::padded('0', 2, text::hexadecimal(s[0] as nat))
    } else {
        hex_list(s.drop_last()) + ", "@ + text::padded('0', 2, text::hexadecimal(s.last() as nat))
    }
}

/// Drained bytes, and whether the one that is waited for was among them.
pub struct Drain {
    needle: u8,
    saw_needle: bool,
    total: u64,
    preview: Vec<u8>,
    drained: Ghost<Seq<u8>>,
}

impl View for Drain {
    type V = Seq<u8>;

    /// Everything drained so far.
    closed spec fn view(&self) -> Seq<u8> {
        self.drained@
    }
}

/// The front of a sequence that is shown.
pub open spec fn preview_of(s: Seq<u8>) -> Seq<u8> {
    if s.len() <= PREVIEW_LEN {
        s
    } else {
        s.take(PREVIEW_LEN as int)
    }
}

/// One line about what was drained. The count is kept in 64 bits.
pub open spec fn drain_line(needle: u8, drained: Seq<u8>) -> Seq<char> {
    "sync: discarded "@ + text::decimal(drained.len() % 0x1_0000_0000_0000_0000)
        + " bytes while draining (looking for 0x"@ + text::padded(
        '0',
        2,
        text::hexadecimal(needle as nat),
    ) + ", "@ + (if drained.contains(needle) {
        "FOUND"@
    } else {
        "not found"@
    }) + "); first bytes: ["@ + hex_list(preview_of(drained)) + "]"@
}

impl Drain {
    /// The byte that is waited for.
    pub closed spec fn needle(&self) -> u8 {
        self.needle
    }

    pub closed spec fn wf(&self) -> bool {
        &&& self.saw_needle == self@.contains(self.needle)
        &&& self.total == self@.len() % 0x1_0000_0000_0000_0000
        &&& self.preview@ == preview_of(self@)
    }

    /// Nothing drained yet.
    pub fn new(needle: u8) -> (drain: Self)
        ensures
            drain.wf(),
            drain.needle() == needle,
            drain@ == Seq::<u8>::empty(),
    {
        Drain {
            needle,
            saw_needle: false,
            total: 0,
            preview: Vec::new(),
            drained: Ghost(Seq::empty()),
        }
    }

    /// Takes some drained bytes.
    pub fn absorb(&mut self, input: &[u8])
        requires
            old(self).wf(),
        ensures
            final(self).wf(),
            final(self).needle() == old(self).needle(),
            final(self)@ == old(self)@ + input@,
    {
        let ghost before = self@;
        let needle: u8 = self.needle;
        let mut i: usize = 0;
        assert(before + input@.take(0) =~= before);
        while i < input.len()
            invariant
                i <= input.len(),
                before == old(self)@,
                self.needle == needle,
                needle == old(self).needle,
                self.wf(),
                self.drained@ == before + input@.take(i as int),
            decreases input.len() - i,
        {
            let b: u8 = input[i];
            let ghost s = self.drained@;
            if b == needle {
                self.saw_needle = true;
            }
            if self.preview.len() < PREVIEW_LEN {
                self.preview.push(b);
            }
            self.total = self.total.wrapping_add(1);
            self.drained = Ghost(s.push(b));
            i += 1;
            proof {
                assert(self.drained@ =~= before + input@.take(i as int));
                assert(self.preview@ =~= preview_of(s.push(b)));
                if s.contains(needle) {
                    let j = s.index_of(needle);
                    assert(s.push(b)[j] == needle);
                }
                if s.push(b).contains(needle) && b != needle {
                    let j = s.push(b).index_of(needle);
                    assert(s[j] == needle);
                }
                if b == needle {
                    assert(s.push(b)[s.len() as int] == needle);
                }
            }
        }
        assert(input@.take(i as int) =~= input@);
    }

    /// Whether the byte that is waited for was drained.
    pub fn found(&self) -> (found: bool)
        requires
            self.wf(),
        ensures
            found == self@.contains(self.needle()),
    {
        self.saw_needle
    }

    /// One line about what was drained.
    pub fn summary(&self) -> (line: String)
        requires
            self.wf(),
        ensures
            line@ == drain_line(self.needle(), self@),
    {
        let mut line: String = "sync: discarded ".to_owned();
        text::push_decimal(&mut line, self.total);
        line.append(" bytes while draining (looking for 0x");
        text::push_hex(&mut line, 2, self.needle as u64);
        line.append(", ");
        line.append(
            if self.saw_needle {
                "FOUND"
            } else {
                "not found"
            },
        );
        line.append("); first bytes: [");
        let ghost head = line@;
        let mut i: usize = 0;
        assert(head + hex_list(self.preview@.take(0)) =~= head);
        while i < self.preview.len()
            invariant
                i <= self.preview.len(),
                line@ == head + hex_list(self.preview@.take(i as int)),
            decreases self.preview.len() - i,
        {
            if i > 0 {
                line.append(", ");
            }
            text::push_hex(&mut line, 2, self.preview[i] as u64);
            assert(self.preview@.take(i + 1).drop_last() =~= self.preview@.take(i as int));
            i += 1;
            assert(line@ =~= head + hex_list(self.preview@.take(i as int)));
        }
        assert(self.preview@.take(i as int) =~= self.preview@);
        line.append("]");
        line
    }
}

/// What to do next to get in step.
#[derive(Clone, Copy, Debug, PartialEq, Eq, Structural)]
pub enum SyncStep {
    /// Send this byte.
    Send(u8),
    /// Read until the board falls silent, looking for this byte.
    DrainFor(u8),
    /// In step: what comes next is for the wire decoder.
    Synced,
    /// The board did not acknowledge.
    Failed,
}

/// The first step.
pub fn sync_start() -> (step: SyncStep)
    ensures
        step == SyncStep::Send(HOST_CMD_STOP),
{
    SyncStep::Send(HOST_CMD_STOP)
}

/// The step after `step` was carried out; `found` tells how a drain ended.
pub open spec fn step_after(step: SyncStep, found: bool) -> SyncStep {
    match step {
        SyncStep::Send(b) => if b == HOST_CMD_STOP {
            SyncStep::DrainFor(TAG_STOPPED)
        } else {
            SyncStep::Synced
        },
        SyncStep::DrainFor(_) => if found {
            SyncStep::Send(HOST_CMD_START)
        } else {
            SyncStep::Failed
        },
        other => other,
    }
}

/// The step after `step` was carried out; `found` tells how a drain ended.
pub fn sync_next(step: SyncStep, found: bool) -> (next: SyncStep)
    ensures
        next == step_after(step, found),
{
    match step {
        SyncStep::Send(b) => {
            if b == HOST_CMD_STOP {
                SyncStep::DrainFor(TAG_STOPPED)
            } else {
                SyncStep::Synced
            }
        },
        SyncStep::DrainFor(_) => {
            if found {
                SyncStep::Send(HOST_CMD_START)
            } else {
                SyncStep::Failed
            }
        },
        other => other,
    }
}

/// START is sent only once the board acknowledged STOP, and then the board is in
/// step; a board that does not acknowledge is never started.
pub proof fn law_start_follows_the_acknowledgement(found: bool)
    ensures
        ({
            let drain = step_after(SyncStep::Send(HOST_CMD_STOP), found);
            let answer = step_after(drain, found);
            &&& drain == SyncStep::DrainFor(TAG_STOPPED)
            &&& found ==> answer == SyncStep::Send(HOST_CMD_START) && step_after(answer, found)
                == SyncStep::Synced
            &&& !found ==> answer == SyncStep::Failed && step_after(answer, found)
                == SyncStep::Failed
        }),
{
}

/// Getting in step takes four steps, over three bytes: STOP goes out, its
/// acknowledgement is waited for, START goes out.
pub proof fn law_getting_in_step_takes_four_steps(b: u8, found: bool)
    ensures
        step_after(SyncStep::Send(2), found) == SyncStep::DrainFor(0xfc),
        b != 2 ==> step_after(SyncStep::Send(b), found) == SyncStep::Synced,
        step_after(SyncStep::DrainFor(b), true) == SyncStep::Send(1),
        step_after(SyncStep::DrainFor(b), false) == SyncStep::Failed,
        step_after(SyncStep::Synced, found) == SyncStep::Synced,
        step_after(SyncStep::Failed, found) == SyncStep::Failed,
{
}

proof fn lemma_hex2(b: u8)
    ensures
        text::padded('0', 2, text::hexadecimal(b as nat)).len() == 2,
        text::writes(16, text::padded('0', 2, text::hexadecimal(b as nat)), b as int),
{
    text::law_numbers_are_written(b as nat, 2);
    reveal_with_fuel(vstd::arithmetic::power::pow, 3);
    assert(vstd::arithmetic::power::pow(16, 2) == 256);
    text::lemma_hex_plain(b as nat, 2);
}

/// A list of bytes shows each in two hexadecimal digits, in order, with a comma and a
/// space between two.
pub proof fn law_every_byte_is_shown(s: Seq<u8>, i: int)
    requires
        0 <= i < s.len(),
    ensures
        hex_list(s).len() == 4 * s.len() - 2,
        text::writes(16, hex_list(s).subrange(4 * i, 4 * i + 2), s[i] as int),
        i > 0 ==> hex_list(s).subrange(4 * i - 2, 4 * i) == seq![',', ' '],
    decreases s.len(),
{
    reveal_strlit(", ");
    let last = text::padded('0', 2, text::hexadecimal(s.last() as nat));
    lemma_hex2(s.last());
    if s.len() == 1 {
        assert(hex_list(s).subrange(0, 2) =~= last);
    } else {
        let before = s.drop_last();
        law_every_byte_is_shown(before, if i < before.len() {
            i
        } else {
            0
        });
        if i < before.len() {
            assert(hex_list(s).subrange(4 * i, 4 * i + 2) =~= hex_list(before).subrange(
                4 * i,
                4 * i + 2,
            ));
            if i > 0 {
                assert(hex_list(s).subrange(4 * i - 2, 4 * i) =~= hex_list(before).subrange(
                    4 * i - 2,
                    4 * i,
                ));
            }
        } else {
            assert(hex_list(s).subrange(4 * i, 4 * i + 2) =~= last);
            assert(hex_list(s).subrange(4 * i - 2, 4 * i) =~= seq![',', ' ']);
        }
    }
}

/// The line about a drain says how many bytes there were, which one was waited for,
/// whether it came, and shows the first ones, at most 32.
pub proof fn law_the_line_tells_the_drain(needle: u8, drained: Seq<u8>) -> (parts: (
    Seq<char>,
    Seq<char>,
    Seq<u8>,
))
    requires
        drained.len() < 0x1_0000_0000_0000_0000,
    ensures
        drain_line(needle, drained) == "sync: discarded "@ + parts.0
            + " bytes while draining (looking for 0x"@ + parts.1 + ", "@ + (if exists|i: int|
            0 <= i < drained.len() && drained[i] == needle {
            "FOUND"@
        } else {
            "not found"@
        }) + "); first bytes: ["@ + hex_list(parts.2) + "]"@,
        text::writes(10, parts.0, drained.len() as int),
        parts.1.len() == 2 && text::writes(16, parts.1, needle as int),
        parts.2.is_prefix_of(drained),
        parts.2.len() == 32 || (parts.2 == drained && drained.len() <= 32),
{
    text::law_numbers_are_written(drained.len(), 0);
    lemma_hex2(needle);
    assert(drained.contains(needle) <==> exists|i: int|
        0 <= i < drained.len() && drained[i] == needle);
    (
        text::decimal(drained.len()),
        text::padded('0', 2, text::hexadecimal(needle as nat)),
        preview_of(drained),
    )
}

/// What calls of [`Drain::new`], [`Drain::absorb`] and [`Drain::found`] tell: whether the
/// byte that is waited for was in anything that was drained, however it was cut.
pub proof fn law_a_drain_finds_its_byte(
    needle: u8,
    fresh: Drain,
    d: &mut Drain,
    a: &[u8],
    e: &mut Drain,
    b: &[u8],
    found: bool,
)
    requires
        call_ensures(Drain::new, (needle,), fresh),
        *old(d) == fresh,
        call_ensures(Drain::absorb, (d, a), ()),
        *old(e) == *final(d),
        call_ensures(Drain::absorb, (e, b), ()),
        call_ensures(Drain::found, (&*final(e),), found),
    ensures
        found <==> a@.contains(needle) || b@.contains(needle),
        final(e)@ == a@ + b@,
{
    let s = a@ + b@;
    assert(final(e)@ =~= s);
    if a@.contains(needle) {
        assert(s[a@.index_of(needle)] == needle);
    }
    if b@.contains(needle) {
        assert(s[a@.len() + b@.index_of(needle)] == needle);
    }
    if s.contains(needle) {
        let i = s.index_of(needle);
        if i < a@.len() {
            assert(a@[i] == needle);
        } else {
            assert(b@[i - a@.len()] == needle);
        }
    }
}

} // verus!
