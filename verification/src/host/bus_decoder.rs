//! 8080 bus framing: bus words to command transactions.
//!
//! A word that is not data is a command byte and starts a new transaction; a
//! data word joins the payload of the one in flight. A transaction is handed
//! out when the next command byte arrives.

use vstd::prelude::*;

verus! {

/// One framed 8080 transaction.
#[derive(Clone, Debug)]
pub struct Frame {
    pub cmd: u8,
    pub data: Vec<u16>,
}

/// A transaction as a mathematical value.
pub struct Transaction {
    pub cmd: u8,
    pub data: Seq<u16>,
}

impl View for Frame {
    type V = Transaction;

    open spec fn view(&self) -> Transaction {
        Transaction { cmd: self.cmd, data: self.data@ }
    }
}

pub struct BusDecoder {
    current: Option<Frame>,
}

/// The value of an optional transaction.
pub open spec fn value(f: Option<Frame>) -> Option<Transaction> {
    match f {
        Some(f) => Some(f@),
        None => None,
    }
}

/// The transaction that a command word starts.
pub open spec fn begun(word: u16) -> Transaction {
    Transaction { cmd: (word % 256) as u8, data: Seq::empty() }
}

/// The transaction in flight after one word.
pub open spec fn after(current: Option<Transaction>, word: u16, is_data: bool) -> Option<
    Transaction,
> {
    if !is_data {
        Some(begun(word))
    } else {
        match current {
            Some(t) => Some(Transaction { cmd: t.cmd, data: t.data.push(word) }),
            None => None,
        }
    }
}

/// The transaction in flight after `n` equal words.
pub open spec fn after_run(
    current: Option<Transaction>,
    n: nat,
    word: u16,
    is_data: bool,
) -> Option<Transaction>
    decreases n,
{
    if n == 0 {
        current
    } else {
        after(after_run(current, (n - 1) as nat, word, is_data), word, is_data)
    }
}

impl View for BusDecoder {
    type V = Option<Transaction>;

    /// The transaction in flight.
    closed spec fn view(&self) -> Option<Transaction> {
        value(self.current)
    }
}

impl Default for BusDecoder {
    fn default() -> (decoder: Self)
        ensures
            decoder@ is None,
    {
        BusDecoder { current: None }
    }
}

impl BusDecoder {
    /// A decoder with nothing in flight.
    pub fn new() -> (decoder: Self)
        ensures
            decoder@ is None,
    {
        BusDecoder { current: None }
    }

    /// Feeds one word. A command byte hands out the transaction before it.
    pub fn feed(&mut self, data: u16, is_data: bool) -> (done: Option<Frame>)
        ensures
            final(self)@ == after(old(self)@, data, is_data),
            value(done) == if is_data {
                None
            } else {
                old(self)@
            },
    {
        if !is_data {
            let next = Frame { cmd: (data % 256) as u8, data: Vec::new() };
            let done = self.current.take();
            self.current = Some(next);
            return done;
        }
        match &mut self.current {
            Some(tx) => {
                tx.data.push(data);
            },
            None => {},
        }
        None
    }

    /// Feeds `n` equal words. Command bytes in a row are one command repeated:
    /// the transaction before them is handed out once.
    pub fn feed_run(&mut self, n: usize, data: u16, is_data: bool) -> (done: Option<Frame>)
        ensures
            final(self)@ == after_run(old(self)@, n as nat, data, is_data),
            value(done) == if is_data || n == 0 {
                None
            } else {
                old(self)@
            },
    {
        if n == 0 {
            return None;
        }
        if !is_data {
            let next = Frame { cmd: (data % 256) as u8, data: Vec::new() };
            let done = self.current.take();
            self.current = Some(next);
            assert(self@->0.data =~= begun(data).data);
            return done;
        }
        let mut i: usize = 0;
        while i < n
            invariant
                i <= n,
                is_data,
                self@ == after_run(old(self)@, i as nat, data, is_data),
            decreases n - i,
        {
            match &mut self.current {
                Some(tx) => {
                    tx.data.push(data);
                },
                None => {},
            }
            i += 1;
        }
        None
    }
}

/// Data words in a run join the payload one after the other.
pub proof fn law_data_run_appends(current: Transaction, n: nat, word: u16)
    ensures
        after_run(Some(current), n, word, true) == Some(
            Transaction { cmd: current.cmd, data: current.data + Seq::new(n, |i: int| word) },
        ),
    decreases n,
{
    if n == 0 {
        assert(current.data + Seq::new(n, |i: int| word) =~= current.data);
    } else {
        law_data_run_appends(current, (n - 1) as nat, word);
        assert((current.data + Seq::new((n - 1) as nat, |i: int| word)).push(word)
            =~= current.data + Seq::new(n, |i: int| word));
    }
}

/// The bus words of a transaction: its command, then its data.
pub open spec fn words_of(t: Transaction) -> Seq<(u16, bool)> {
    seq![(t.cmd as u16, false)] + t.data.map_values(|d: u16| (d, true))
}

/// What is in flight after bus words, and the transactions that were handed out: a
/// command word hands out the one before it.
pub open spec fn taken(current: Option<Transaction>, words: Seq<(u16, bool)>) -> (
    Option<Transaction>,
    Seq<Transaction>,
)
    decreases words.len(),
{
    if words.len() == 0 {
        (current, Seq::empty())
    } else {
        let (now, out) = taken(current, words.drop_last());
        let (word, is_data) = words.last();
        (
            after(now, word, is_data),
            if !is_data && now is Some {
                out.push(now->0)
            } else {
                out
            },
        )
    }
}

/// A transaction comes back as it was sent: once its words are in, the one before
/// has been handed out and it is in flight, with its command and all its data in
/// order. The next command hands it out.
pub proof fn law_transactions_come_back(current: Option<Transaction>, t: Transaction)
    ensures
        taken(current, words_of(t)) == (
            Some(t),
            if current is Some {
                seq![current->0]
            } else {
                Seq::empty()
            },
        ),
    decreases t.data.len(),
{
    let words = words_of(t);
    if t.data.len() == 0 {
        assert(words =~= seq![(t.cmd as u16, false)]);
        assert(words.drop_last() =~= Seq::<(u16, bool)>::empty());
        assert(taken(current, words.drop_last()) == (current, Seq::<Transaction>::empty()));
        assert(begun(t.cmd as u16).data =~= t.data);
        assert(taken(current, words).1 =~= if current is Some {
            seq![current->0]
        } else {
            Seq::empty()
        });
    } else {
        let before = Transaction { cmd: t.cmd, data: t.data.drop_last() };
        law_transactions_come_back(current, before);
        assert(words.drop_last() =~= words_of(before));
        assert(words.last() == (t.data.last(), true));
        assert(before.data.push(t.data.last()) =~= t.data);
    }
}

/// Data before any command belongs to nothing and is dropped.
pub proof fn law_data_without_a_command_is_dropped(words: Seq<(u16, bool)>)
    requires
        forall|i: int| 0 <= i < words.len() ==> (#[trigger] words[i]).1,
    ensures
        taken(None, words) == (None::<Transaction>, Seq::<Transaction>::empty()),
    decreases words.len(),
{
    if words.len() > 0 {
        assert forall|i: int| 0 <= i < words.drop_last().len() implies (
        #[trigger] words.drop_last()[i]).1 by {
            assert(words[i].1);
        }
        law_data_without_a_command_is_dropped(words.drop_last());
        assert(words[words.len() - 1].1);
    }
}

/// A command that is repeated is that command, without data; only its low byte
/// counts.
pub proof fn law_repeated_commands_are_one(current: Option<Transaction>, n: nat, word: u16)
    requires
        n > 0,
    ensures
        after_run(current, n, word, false) is Some,
        after_run(current, n, word, false)->0.cmd == word % 256,
        after_run(current, n, word, false)->0.data.len() == 0,
{
}

/// What two calls of [`BusDecoder::feed`] do, one with a data word and one with a command:
/// the word joins what is in flight, and then that comes out, with all its words.
pub proof fn law_a_word_comes_out_with_its_command(
    d: &mut BusDecoder,
    first: Option<Frame>,
    e: &mut BusDecoder,
    second: Option<Frame>,
    word: u16,
    command: u16,
)
    requires
        call_ensures(BusDecoder::feed, (d, word, true), first),
        *old(e) == *final(d),
        call_ensures(BusDecoder::feed, (e, command, false), second),
    ensures
        first is None,
        old(d)@ is None ==> second is None,
        old(d)@ matches Some(t) ==> second is Some && second->0.cmd == t.cmd && second->0.data@
            == t.data.push(word),
        final(e)@ is Some,
        final(e)@->0.cmd == command % 256,
        final(e)@->0.data.len() == 0,
{
    assert(value(second) == old(e)@);
}

/// What a call of [`BusDecoder::feed_run`] does: equal data words all join, as many as
/// there are, and a repeated command is one command.
pub proof fn law_a_run_joins_whole(
    d: &mut BusDecoder,
    n: usize,
    word: u16,
    is_data: bool,
    done: Option<Frame>,
)
    requires
        n > 0,
        call_ensures(BusDecoder::feed_run, (d, n, word, is_data), done),
    ensures
        is_data ==> done is None,
        is_data ==> (old(d)@ matches Some(t) ==> final(d)@ == Some(
            Transaction { cmd: t.cmd, data: t.data + Seq::new(n as nat, |i: int| word) },
        )),
        !is_data ==> (done is Some <==> old(d)@ is Some),
        !is_data ==> (done matches Some(f) ==> f.cmd == old(d)@->0.cmd && f.data@
            == old(d)@->0.data),
        !is_data ==> final(d)@ is Some && final(d)@->0.cmd == word % 256
            && final(d)@->0.data.len() == 0,
{
    if is_data {
        if let Some(t) = old(d)@ {
            law_data_run_appends(t, n as nat, word);
        }
    } else {
        law_repeated_commands_are_one(old(d)@, n as nat, word);
        assert(value(done) == old(d)@);
    }
}

} // verus!
