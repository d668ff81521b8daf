//! Bus samples to transactions, with a fixed capacity for each.
//!
//! DC alone frames: DC low starts a new command, DC high is data. A memory write
//! that fills up is handed out, and a continued one goes on. Any other command
//! that is full drops further data: none needs more than a few words.

use vstd::prelude::*;

use crate::firmware::proto::{CMD_MEMORY_WRITE_CONTINUE, MAX_DATA_WORDS};
use crate::fixed;

verus! {

/// The command that writes pixels.
pub const MEMORY_WRITE: u8 = 0x2C;

pub struct Transaction {
    pub cmd: u8,
    pub data: heapless::Vec<u16, 4096>,
}

/// A transaction as a mathematical value.
pub struct Parcel {
    pub cmd: u8,
    pub data: Seq<u16>,
}

impl View for Transaction {
    type V = Parcel;

    open spec fn view(&self) -> Parcel {
        Parcel { cmd: self.cmd, data: fixed::words4096(self.data) }
    }
}

impl Transaction {
    /// A transaction without data.
    pub fn new(cmd: u8) -> (tx: Self)
        ensures
            tx@ == (Parcel { cmd, data: Seq::empty() }),
    {
        Transaction { cmd, data: fixed::words_new() }
    }
}

#[derive(Copy, Clone)]
pub struct Sample {
    pub data: u16,
    pub dc: bool,
    /// Captured, but not used for framing.
    pub cs: bool,
}

impl Sample {
    /// Unpacks the 18-bit value: data in bits 0..15, CS in bit 16, DC in bit 17.
    pub fn from_raw(raw: u32) -> (sample: Self)
        ensures
            sample.data == raw % 65536,
            sample.cs == (raw / 65536 % 2 == 1),
            sample.dc == (raw / 131072 % 2 == 1),
    {
        Sample {
            data: (raw % 65536) as u16,
            cs: raw / 65536 % 2 == 1,
            dc: raw / 131072 % 2 == 1,
        }
    }
}

/// The value of an optional transaction.
pub open spec fn value(tx: Option<Transaction>) -> Option<Parcel> {
    match tx {
        Some(t) => Some(t@),
        None => None,
    }
}

/// Whether a command writes pixels, from the start of its window or going on.
pub open spec fn writes_pixels(cmd: u8) -> bool {
    cmd == MEMORY_WRITE || cmd == CMD_MEMORY_WRITE_CONTINUE
}

/// What is in flight after a sample, and the transaction that is handed out.
pub open spec fn fed(current: Option<Parcel>, s: Sample) -> (Option<Parcel>, Option<Parcel>) {
    if !s.dc {
        (Some(Parcel { cmd: (s.data % 256) as u8, data: Seq::empty() }), current)
    } else {
        match current {
            None => (None, None),
            Some(p) => if p.data.len() < MAX_DATA_WORDS {
                (Some(Parcel { data: p.data.push(s.data), ..p }), None)
            } else if writes_pixels(p.cmd) {
                (
                    Some(Parcel { cmd: CMD_MEMORY_WRITE_CONTINUE, data: seq![s.data] }),
                    Some(p),
                )
            } else {
                (current, None)
            },
        }
    }
}

pub struct Decoder {
    current: Option<Transaction>,
}

impl View for Decoder {
    type V = Option<Parcel>;

    /// What is in flight.
    closed spec fn view(&self) -> Option<Parcel> {
        value(self.current)
    }
}

impl Default for Decoder {
    fn default() -> (decoder: Self)
        ensures
            decoder@ is None,
    {
        Decoder { current: None }
    }
}

impl Decoder {
    /// Feeds one sample. Hands out the transaction that it ends.
    pub fn feed(&mut self, s: Sample) -> (done: Option<Transaction>)
        ensures
            final(self)@ == fed(old(self)@, s).0,
            value(done) == fed(old(self)@, s).1,
    {
        if !s.dc {
            let done = self.current.take();
            self.current = Some(Transaction::new((s.data % 256) as u8));
            return done;
        }
        match self.current.take() {
            None => None,
            Some(mut tx) => {
                if fixed::words_push(&mut tx.data, s.data) {
                    self.current = Some(tx);
                    None
                } else if tx.cmd == MEMORY_WRITE || tx.cmd == CMD_MEMORY_WRITE_CONTINUE {
                    let mut next = Transaction::new(CMD_MEMORY_WRITE_CONTINUE);
                    let _ = fixed::words_push(&mut next.data, s.data);
                    assert(next@.data =~= seq![s.data]);
                    self.current = Some(next);
                    Some(tx)
                } else {
                    self.current = Some(tx);
                    None
                }
            },
        }
    }
}

/// What a list of samples hands out.
pub open spec fn handed_out(current: Option<Parcel>, samples: Seq<Sample>) -> (
    Option<Parcel>,
    Seq<Parcel>,
)
    decreases samples.len(),
{
    if samples.len() == 0 {
        (current, Seq::empty())
    } else {
        let (now, out) = handed_out(current, samples.drop_last());
        let (next, done) = fed(now, samples.last());
        (
            next,
            match done {
                Some(p) => out.push(p),
                None => out,
            },
        )
    }
}

/// The data of a list of transactions, one after the other.
pub open spec fn all_data(parcels: Seq<Parcel>) -> Seq<u16>
    decreases parcels.len(),
{
    if parcels.len() == 0 {
        Seq::empty()
    } else {
        all_data(parcels.drop_last()) + parcels.last().data
    }
}

/// No pixel of a memory write is lost, however long it is: what was handed out and
/// what is in flight hold the words in order.
pub proof fn law_long_transactions_lose_nothing(start: Parcel, samples: Seq<Sample>)
    requires
        start.data.len() <= MAX_DATA_WORDS,
        writes_pixels(start.cmd),
        forall|i: int| 0 <= i < samples.len() ==> (#[trigger] samples[i]).dc,
    ensures
        ({
            let (now, out) = handed_out(Some(start), samples);
            &&& now is Some
            &&& writes_pixels(now->0.cmd)
            &&& now->0.data.len() <= MAX_DATA_WORDS
            &&& all_data(out) + now->0.data == start.data + samples.map_values(|s: Sample| s.data)
        }),
    decreases samples.len(),
{
    if samples.len() == 0 {
        assert(all_data(Seq::<Parcel>::empty()) + start.data =~= start.data);
        assert(start.data + samples.map_values(|s: Sample| s.data) =~= start.data);
    } else {
        let before = samples.drop_last();
        let last = samples.last();
        law_long_transactions_lose_nothing(start, before);
        let (now, out) = handed_out(Some(start), before);
        let words = samples.map_values(|s: Sample| s.data);
        assert(words =~= before.map_values(|s: Sample| s.data).push(last.data));
        let p = now->0;
        if p.data.len() < MAX_DATA_WORDS {
            assert(all_data(out) + p.data.push(last.data) =~= (all_data(out) + p.data).push(
                last.data,
            ));
            assert((start.data + before.map_values(|s: Sample| s.data)).push(last.data)
                =~= start.data + words);
        } else {
            assert(out.push(p).drop_last() =~= out);
            assert(all_data(out.push(p)) + seq![last.data] =~= start.data + words);
        }
    }
}

/// Any other command keeps its first words: what comes once it is full is dropped,
/// and nothing is handed out before the next command.
pub proof fn law_other_commands_keep_their_first_words(start: Parcel, samples: Seq<Sample>)
    requires
        start.data.len() <= MAX_DATA_WORDS,
        !writes_pixels(start.cmd),
        forall|i: int| 0 <= i < samples.len() ==> (#[trigger] samples[i]).dc,
    ensures
        ({
            let (now, out) = handed_out(Some(start), samples);
            let words = start.data + samples.map_values(|s: Sample| s.data);
            &&& out == Seq::<Parcel>::empty()
            &&& now == Some(
                Parcel {
                    cmd: start.cmd,
                    data: if words.len() <= MAX_DATA_WORDS {
                        words
                    } else {
                        words.take(MAX_DATA_WORDS as int)
                    },
                },
            )
        }),
    decreases samples.len(),
{
    let words = start.data + samples.map_values(|s: Sample| s.data);
    if samples.len() == 0 {
        assert(words =~= start.data);
    } else {
        let before = samples.drop_last();
        law_other_commands_keep_their_first_words(start, before);
        let earlier = start.data + before.map_values(|s: Sample| s.data);
        assert(words =~= earlier.push(samples.last().data));
        if earlier.len() >= MAX_DATA_WORDS {
            assert(words.take(MAX_DATA_WORDS as int) =~= earlier.take(MAX_DATA_WORDS as int));
            assert(earlier.take(MAX_DATA_WORDS as int).len() == MAX_DATA_WORDS);
            if earlier.len() == MAX_DATA_WORDS {
                assert(earlier.take(MAX_DATA_WORDS as int) =~= earlier);
            }
        }
    }
}

/// Data words, as samples.
pub open spec fn data_samples(words: Seq<u16>, cs: bool) -> Seq<Sample> {
    words.map_values(|w: u16| Sample { data: w, dc: true, cs })
}

proof fn lemma_words_gather(cmd: u8, words: Seq<u16>, cs: bool)
    requires
        words.len() <= 4096,
    ensures
        handed_out(Some(Parcel { cmd, data: Seq::empty() }), data_samples(words, cs)) == (
            Some(Parcel { cmd, data: words }),
            Seq::<Parcel>::empty(),
        ),
    decreases words.len(),
{
    let samples = data_samples(words, cs);
    if words.len() > 0 {
        lemma_words_gather(cmd, words.drop_last(), cs);
        assert(samples.drop_last() =~= data_samples(words.drop_last(), cs));
        assert(words.drop_last().push(words.last()) =~= words);
    } else {
        assert(words =~= Seq::<u16>::empty());
    }
}

/// A command and up to 4096 words behind it come out as one transaction when the next
/// command starts, with the low byte of the command and the words in order. What was
/// in flight before comes out when this command starts.
pub proof fn law_the_next_command_hands_out_the_last(
    before: Option<Parcel>,
    command: Sample,
    words: Seq<u16>,
    cs: bool,
    next: Sample,
)
    requires
        !command.dc,
        !next.dc,
        words.len() <= 4096,
    ensures
        ({
            let first = fed(before, command);
            let inside = handed_out(first.0, data_samples(words, cs));
            let last = fed(inside.0, next);
            &&& first.1 == before
            &&& inside.1.len() == 0
            &&& last.1 is Some
            &&& last.1->0.cmd == command.data % 256
            &&& last.1->0.data == words
            &&& last.0 is Some
            &&& last.0->0.cmd == next.data % 256
            &&& last.0->0.data.len() == 0
        }),
{
    lemma_words_gather((command.data % 256) as u8, words, cs);
}

/// A memory write that is full comes out whole, and goes on as a continued one with
/// the word that did not fit. Any other command that is full stays as it is.
pub proof fn law_a_full_write_goes_on(p: Parcel, word: u16, cs: bool)
    requires
        p.data.len() == 4096,
    ensures
        ({
            let (now, out) = fed(Some(p), Sample { data: word, dc: true, cs });
            &&& p.cmd == 0x2c || p.cmd == 0x3c ==> out == Some(p) && now is Some && now->0.cmd
                == 0x3c && now->0.data == seq![word]
            &&& p.cmd != 0x2c && p.cmd != 0x3c ==> out is None && now == Some(p)
        }),
{
}

/// Data before any command is dropped.
pub proof fn law_data_without_a_command_is_dropped(words: Seq<u16>, cs: bool)
    ensures
        handed_out(None, data_samples(words, cs)) == (None::<Parcel>, Seq::<Parcel>::empty()),
    decreases words.len(),
{
    if words.len() > 0 {
        law_data_without_a_command_is_dropped(words.drop_last(), cs);
        assert(data_samples(words, cs).drop_last() =~= data_samples(words.drop_last(), cs));
    }
}

/// What a call of [`Sample::from_raw`] unpacks is all there is in the low 18 bits: put
/// together again, data, CS and DC give the value back.
pub proof fn law_samples_unpack_without_loss(raw: u32, sample: Sample)
    requires
        call_ensures(Sample::from_raw, (raw,), sample),
    ensures
        raw % 0x4_0000 == sample.data + (if sample.cs {
            0x1_0000int
        } else {
            0int
        }) + (if sample.dc {
            0x2_0000int
        } else {
            0int
        }),
{
}

/// What two calls of [`Decoder::feed`] do, one with a data word and one with a command:
/// the word is appended to what is in flight, and then that comes out, with all it had.
pub proof fn law_a_word_comes_out_with_its_command(
    d: &mut Decoder,
    first: Option<Transaction>,
    e: &mut Decoder,
    second: Option<Transaction>,
    word: Sample,
    command: Sample,
)
    requires
        word.dc,
        !command.dc,
        old(d)@ is Some,
        old(d)@->0.data.len() < 4096,
        call_ensures(Decoder::feed, (d, word), first),
        *old(e) == *final(d),
        call_ensures(Decoder::feed, (e, command), second),
    ensures
        first is None,
        second is Some,
        second->0.cmd == old(d)@->0.cmd,
        fixed::words4096(second->0.data) == old(d)@->0.data.push(word.data),
        final(e)@ is Some,
        final(e)@->0.cmd == command.data % 256,
        final(e)@->0.data.len() == 0,
{
    assert(value(second) == fed(old(e)@, command).1);
}

} // verus!
