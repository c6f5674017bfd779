//! The NFC reader abstraction that the CCID slot is bridged to.
//!
//! A backend answers four questions: what it is, whether a card is in the
//! field, how to switch the card off, and what the card answers to an APDU.
//! What a physical reader answers is not known in advance. The library
//! records each call it makes on a reader as a `ReaderCall`: the reader
//! before and after, what it was handed, and what the reader's own method
//! answered; the bridge's contracts are stated over these records.
use vstd::prelude::*;

pub mod dummy;
pub mod pn532;

verus! {

/// The radio protocol through which a card was reached.
#[derive(Debug, Clone, Copy, PartialEq, Eq, Structural)]
pub enum CardProtocol {
    Iso14443A,
    Iso14443B,
    IsoDep,
}

/// A card found in the reader's field.
#[derive(Debug, Clone, PartialEq, Eq)]
pub struct CardPresence {
    pub uid: Vec<u8>,
    pub protocol: CardProtocol,
    pub historical_bytes: Vec<u8>,
}

/// The mathematical value of a [`CardPresence`].
pub struct CardView {
    pub uid: Seq<u8>,
    pub protocol: CardProtocol,
    pub historical_bytes: Seq<u8>,
}

impl View for CardPresence {
    type V = CardView;

    open spec fn view(&self) -> CardView {
        CardView { uid: self.uid@, protocol: self.protocol, historical_bytes: self.historical_bytes@ }
    }
}

/// The card presence of an optional card, viewed.
pub open spec fn option_card_view(card: Option<CardPresence>) -> Option<CardView> {
    match card {
        Some(c) => Some(c@),
        None => None,
    }
}

/// What a reader backend reports about itself.
#[derive(Debug, Clone, PartialEq, Eq)]
pub struct ReaderCapabilities {
    pub name: &'static str,
    pub supports_iso_dep: bool,
    pub supports_apdu_exchange: bool,
}

/// Failures of a reader backend; each carries a human-readable detail.
#[derive(Debug, Clone, PartialEq, Eq)]
pub enum ReaderError {
    Configuration(String),
    Transport(String),
    Protocol(String),
    Unsupported(String),
    Io(String),
}

/// A physical or simulated NFC reader.
///
/// The answers of a reader come from outside the library: nothing is assumed
/// of them. The CCID bridge states which of these methods it calls, with what,
/// and what it does with each possible answer.
pub trait NfcReader: Send {
    fn capabilities(&self) -> ReaderCapabilities;

    fn poll_card(&mut self) -> Result<Option<CardPresence>, ReaderError>;

    fn power_off(&mut self) -> Result<(), ReaderError>;

    fn exchange_apdu(&mut self, apdu: &[u8]) -> Result<Vec<u8>, ReaderError>;
}

/// One call made on a reader: the reader before and after it, what it was
/// handed, and what it answered.
pub enum ReaderCall<R> {
    Poll { before: R, after: R, answer: Result<Option<CardPresence>, ReaderError> },
    PowerOff { before: R, after: R, answer: Result<(), ReaderError> },
    Exchange { before: R, after: R, apdu: Seq<u8>, answer: Result<Vec<u8>, ReaderError> },
}

impl<R> ReaderCall<R> {
    pub open spec fn before(self) -> R {
        match self {
            ReaderCall::Poll { before, .. } => before,
            ReaderCall::PowerOff { before, .. } => before,
            ReaderCall::Exchange { before, .. } => before,
        }
    }

    pub open spec fn after(self) -> R {
        match self {
            ReaderCall::Poll { after, .. } => after,
            ReaderCall::PowerOff { after, .. } => after,
            ReaderCall::Exchange { after, .. } => after,
        }
    }
}

/// Whether `call` is an answer that the reader's own method gives when it is
/// called through `inner` (for an exchange, with the bytes the call records).
pub open spec fn call_made<R: NfcReader>(call: ReaderCall<R>, inner: &mut R) -> bool {
    match call {
        ReaderCall::Poll { answer, .. } => call_ensures(R::poll_card, (inner,), answer),
        ReaderCall::PowerOff { answer, .. } => call_ensures(R::power_off, (inner,), answer),
        ReaderCall::Exchange { apdu, answer, .. } => exists|sent: &[u8]|
            sent@ == apdu && #[trigger] call_ensures(R::exchange_apdu, (inner, sent), answer),
    }
}

/// Each call was made through the matching reference: the reference starts
/// at the reader that the call records, and the reader's own method gives the
/// recorded answer when called through it.
pub open spec fn made_through<R: NfcReader>(calls: Seq<ReaderCall<R>>, refs: Seq<&mut R>) -> bool {
    &&& refs.len() == calls.len()
    &&& forall|i: int|
        #![trigger calls[i]]
        0 <= i < calls.len() ==> *refs[i] == calls[i].before() && call_made(calls[i], refs[i])
}

/// The calls follow one another on the reader, from `from` to `to`: each
/// starts where the one before ended, and without calls the reader is left
/// as it was.
pub open spec fn calls_chain<R>(from: R, to: R, calls: Seq<ReaderCall<R>>) -> bool
    decreases calls.len(),
{
    if calls.len() == 0 {
        from == to
    } else {
        calls[0].before() == from && calls_chain(calls[0].after(), to, calls.drop_first())
    }
}

/// Chains of calls put one after the other form a chain.
pub proof fn lemma_calls_chain_append<R>(
    a: R,
    b: R,
    c: R,
    first: Seq<ReaderCall<R>>,
    second: Seq<ReaderCall<R>>,
)
    requires
        calls_chain(a, b, first),
        calls_chain(b, c, second),
    ensures
        calls_chain(a, c, first + second),
    decreases first.len(),
{
    if first.len() == 0 {
        assert(first + second =~= second);
    } else {
        lemma_calls_chain_append(first[0].after(), b, c, first.drop_first(), second);
        assert((first + second).drop_first() =~= first.drop_first() + second);
    }
}

/// A single call forms a chain from where it starts to where it ends.
pub proof fn lemma_calls_chain_single<R>(from: R, to: R, call: ReaderCall<R>)
    ensures
        calls_chain(from, to, seq![call]) <==> (call.before() == from && call.after() == to),
{
    assert(seq![call].drop_first() =~= Seq::<ReaderCall<R>>::empty());
    assert(calls_chain(call.after(), to, Seq::<ReaderCall<R>>::empty()) <==> call.after() == to);
}

/// Where a chain of calls from `from` ends.
pub open spec fn chain_end<R>(from: R, calls: Seq<ReaderCall<R>>) -> R {
    if calls.len() == 0 {
        from
    } else {
        calls.last().after()
    }
}

/// A chain from `from` to `to` ends at `to`.
pub proof fn lemma_calls_chain_end<R>(from: R, to: R, calls: Seq<ReaderCall<R>>)
    requires
        calls_chain(from, to, calls),
    ensures
        chain_end(from, calls) == to,
    decreases calls.len(),
{
    if calls.len() > 0 {
        lemma_calls_chain_end(calls[0].after(), to, calls.drop_first());
        if calls.len() > 1 {
            assert(calls.drop_first().last() == calls.last());
        }
    }
}

/// Successive groups of calls, each group a chain starting where the one
/// before ended, from `from` to `to`.
pub open spec fn chain_all<R>(from: R, to: R, groups: Seq<Seq<ReaderCall<R>>>) -> bool
    decreases groups.len(),
{
    if groups.len() == 0 {
        from == to
    } else {
        calls_chain(from, chain_end(from, groups[0]), groups[0]) && chain_all(
            chain_end(from, groups[0]),
            to,
            groups.drop_first(),
        )
    }
}

/// Polls the reader behind a mutable reference with the reader's own
/// `poll_card`.
pub(crate) fn poll_through<R: NfcReader>(reader: &mut R) -> (polled: Result<
    Option<CardPresence>,
    ReaderError,
>)
    ensures
        exists|inner: &mut R|
            *inner == *old(reader) && *final(inner) == *final(reader) && call_ensures(
                R::poll_card,
                (inner,),
                polled,
            ),
{
    let poll = R::poll_card;
    poll(reader)
}

/// Switches off the card of the reader behind a mutable reference with the
/// reader's own `power_off`.
pub(crate) fn power_off_through<R: NfcReader>(reader: &mut R) -> (done: Result<(), ReaderError>)
    ensures
        exists|inner: &mut R|
            *inner == *old(reader) && *final(inner) == *final(reader) && call_ensures(
                R::power_off,
                (inner,),
                done,
            ),
{
    let power_off = R::power_off;
    power_off(reader)
}

/// Exchanges an APDU with the reader behind a mutable reference through the
/// reader's own `exchange_apdu`.
pub(crate) fn exchange_through<R: NfcReader>(reader: &mut R, apdu: &[u8]) -> (response: Result<
    Vec<u8>,
    ReaderError,
>)
    ensures
        exists|inner: &mut R|
            *inner == *old(reader) && *final(inner) == *final(reader) && call_ensures(
                R::exchange_apdu,
                (inner, apdu),
                response,
            ),
{
    let exchange = R::exchange_apdu;
    exchange(reader, apdu)
}

/// A boxed reader answers as the reader in the box: each answer is one that
/// the boxed reader's own method may give, and the boxed reader's state
/// changes as that method changes it.
impl<T: NfcReader> NfcReader for Box<T> {
    fn capabilities(&self) -> (capabilities: ReaderCapabilities)
        ensures
            call_ensures(T::capabilities, (&**self,), capabilities),
    {
        let capabilities = T::capabilities;
        capabilities(&**self)
    }

    fn poll_card(&mut self) -> (polled: Result<Option<CardPresence>, ReaderError>)
        ensures
            exists|inner: &mut T|
                *inner == **old(self) && *final(inner) == **final(self) && call_ensures(
                    T::poll_card,
                    (inner,),
                    polled,
                ),
    {
        poll_through(&mut **self)
    }

    fn power_off(&mut self) -> (done: Result<(), ReaderError>)
        ensures
            exists|inner: &mut T|
                *inner == **old(self) && *final(inner) == **final(self) && call_ensures(
                    T::power_off,
                    (inner,),
                    done,
                ),
    {
        power_off_through(&mut **self)
    }

    fn exchange_apdu(&mut self, apdu: &[u8]) -> (response: Result<Vec<u8>, ReaderError>)
        ensures
            exists|inner: &mut T|
                *inner == **old(self) && *final(inner) == **final(self) && call_ensures(
                    T::exchange_apdu,
                    (inner, apdu),
                    response,
                ),
    {
        exchange_through(&mut **self, apdu)
    }
}

/// Something that opens a reader backend.
pub trait ReaderFactory: Send + Sync {
    fn backend_name(&self) -> &'static str;

    fn open(&self) -> Result<Box<dyn NfcReader>, ReaderError>;
}

/// Whether two strings hold the same characters.
pub fn str_equal(a: &str, b: &str) -> (equal: bool)
    ensures
        equal == (a@ == b@),
{
    let n = a.unicode_len();
    if n != b.unicode_len() {
        return false;
    }
    let mut i: usize = 0;
    while i < n
        invariant
            n == a@.len(),
            n == b@.len(),
            0 <= i <= n,
            forall|j: int| 0 <= j < i ==> a@[j] == b@[j],
        decreases n - i,
    {
        if a.get_char(i) != b.get_char(i) {
            return false;
        }
        i = i + 1;
    }
    assert(a@ =~= b@);
    true
}

} // verus!
