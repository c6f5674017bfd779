//! The CCID slot: maps host commands onto operations of an NFC reader.
//!
//! The slot remembers the card found by the last poll, whether the host has
//! powered it, and the T=1 protocol parameters. Reader answers are outside the
//! library's control; the contract of each operation states which calls it
//! makes on the reader (`command_calls`), made through the reader's own
//! methods, and the result for every answer those calls may give.
use vstd::prelude::*;

use super::protocol::{
    CcidCommand,
    CcidResponse,
    CommandStatus,
    CommandView,
    IccStatus,
    ResponseView,
    SlotStatus,
};
use crate::nfc::{
    call_made,
    calls_chain,
    exchange_through,
    lemma_calls_chain_append,
    lemma_calls_chain_single,
    made_through,
    option_card_view,
    poll_through,
    power_off_through,
    str_equal,
    CardPresence,
    CardView,
    NfcReader,
    ReaderCall,
    ReaderCapabilities,
    ReaderError,
};

verus! {

pub const GENERIC_FAILURE_ERROR: u8 = 0xff;

pub const T1_PROTOCOL_NUM: u8 = 0x01;

pub const APDU_SELECT_INS: u8 = 0xa4;

pub const APDU_SELECT_BY_DF_NAME_P1: u8 = 0x04;

/// The default T=1 protocol data structure (bmFindexDindex, bmTCCKST1,
/// bGuardTimeT1, bmWaitingIntegersT1, bClockStop, bIFSC, bNadValue).
pub open spec fn default_t1_parameters() -> Seq<u8> {
    seq![0x11u8, 0x10, 0x00, 0x15, 0x00, 0xfe, 0x00]
}

/// The state of the slot.
pub struct BridgeState {
    /// The card found by the last poll, if any.
    pub card: Option<CardView>,
    /// Whether the host powered the card (and has not powered it off).
    pub slot_powered: bool,
    pub protocol_num: u8,
    pub parameters: Seq<u8>,
    /// The name that the reader gave for itself when the slot was created.
    pub reader_name: Seq<char>,
}

impl BridgeState {
    /// A powered slot always holds a card.
    pub open spec fn inv(self) -> bool {
        &&& self.slot_powered ==> self.card is Some
        &&& self.parameters.len() == 7
    }

    /// The simulated reader's card counts as powered as soon as it is seen.
    pub open spec fn powers_on_when_seen(self) -> bool {
        self.reader_name == "dummy"@
    }

    pub open spec fn icc_status(self) -> IccStatus {
        if self.card is None {
            IccStatus::NotPresent
        } else if self.slot_powered {
            IccStatus::Active
        } else {
            IccStatus::Inactive
        }
    }
}

/// What the reader answered during one command. Errors carry no information
/// that the slot uses, so they are only told apart from successes.
pub struct ReaderOutcome {
    pub poll: Result<Option<CardView>, ()>,
    pub power_off: Result<(), ()>,
    pub exchange: Result<Seq<u8>, ()>,
}

pub open spec fn poll_outcome(polled: Result<Option<CardPresence>, ReaderError>) -> Result<
    Option<CardView>,
    (),
> {
    match polled {
        Ok(card) => Ok(option_card_view(card)),
        Err(_) => Err(()),
    }
}

pub open spec fn exchange_outcome(exchanged: Result<Vec<u8>, ReaderError>) -> Result<Seq<u8>, ()> {
    match exchanged {
        Ok(bytes) => Ok(bytes@),
        Err(_) => Err(()),
    }
}

/// What a call answered to a poll, if it is a poll.
pub open spec fn poll_answer_of<R>(call: ReaderCall<R>) -> Result<Option<CardView>, ()> {
    match call {
        ReaderCall::Poll { answer, .. } => poll_outcome(answer),
        _ => Err(()),
    }
}

/// Whether a call is an exchange of exactly the bytes `apdu`.
pub open spec fn is_exchange_of<R>(call: ReaderCall<R>, apdu: Seq<u8>) -> bool {
    call matches ReaderCall::Exchange { apdu: sent, .. } && sent == apdu
}

/// The reader's answers during one command, read off the calls made: a poll
/// or a power-off comes first, an exchange last.
pub open spec fn outcome_of<R>(calls: Seq<ReaderCall<R>>) -> ReaderOutcome {
    ReaderOutcome {
        poll: if calls.len() > 0 {
            poll_answer_of(calls[0])
        } else {
            Err(())
        },
        power_off: if calls.len() > 0 {
            match calls[0] {
                ReaderCall::PowerOff { answer: Err(_), .. } => Err(()),
                _ => Ok(()),
            }
        } else {
            Ok(())
        },
        exchange: if calls.len() > 0 {
            match calls.last() {
                ReaderCall::Exchange { answer, .. } => exchange_outcome(answer),
                _ => Err(()),
            }
        } else {
            Err(())
        },
    }
}

/// The calls that refreshing the card presence makes: none while a powered
/// card is held, else one poll.
pub open spec fn refresh_calls<R>(s: BridgeState, calls: Seq<ReaderCall<R>>) -> bool {
    if s.slot_powered && s.card is Some {
        calls.len() == 0
    } else {
        calls.len() == 1 && calls[0] is Poll
    }
}

/// What refreshing the card presence returns, given the calls it made: the
/// poll's own error is passed on.
pub open spec fn refresh_answer<R>(calls: Seq<ReaderCall<R>>) -> Result<bool, ReaderError> {
    if calls.len() > 0 {
        match calls[0] {
            ReaderCall::Poll { answer: Ok(card), .. } => Ok(card is Some),
            ReaderCall::Poll { answer: Err(e), .. } => Err(e),
            _ => Ok(true),
        }
    } else {
        Ok(true)
    }
}

/// The calls that an XfrBlock makes: a poll when no card is held, then the
/// exchange of the command's payload when a powered card is there.
pub open spec fn xfr_calls<R>(s: BridgeState, payload: Seq<u8>, calls: Seq<ReaderCall<R>>) -> bool {
    if s.card is None {
        &&& calls.len() >= 1
        &&& calls[0] is Poll
        &&& {
            let (s1, refreshed) = spec_refresh(s, poll_answer_of(calls[0]));
            if refreshed is Ok && s1.card is Some && s1.slot_powered {
                calls.len() == 2 && is_exchange_of(calls[1], payload)
            } else {
                calls.len() == 1
            }
        }
    } else if s.slot_powered {
        calls.len() == 1 && is_exchange_of(calls[0], payload)
    } else {
        calls.len() == 0
    }
}

/// The calls that answering a command makes on the reader, in order.
pub open spec fn command_calls<R>(s: BridgeState, command: CommandView, calls: Seq<ReaderCall<R>>) -> bool {
    match command {
        CommandView::IccPowerOn { .. } => calls.len() == 1 && calls[0] is Poll,
        CommandView::IccPowerOff { .. } => calls.len() == 1 && calls[0] is PowerOff,
        CommandView::GetSlotStatus { .. } => refresh_calls(s, calls),
        CommandView::XfrBlock { payload, .. } => xfr_calls(s, payload, calls),
        _ => calls.len() == 0,
    }
}

/// XOR of all bytes.
pub open spec fn xor_fold(bytes: Seq<u8>) -> u8
    decreases bytes.len(),
{
    if bytes.len() == 0 {
        0
    } else {
        xor_fold(bytes.drop_last()) ^ bytes.last()
    }
}

/// Whether historical bytes are already a complete ATR.
pub open spec fn is_complete_atr(historical: Seq<u8>) -> bool {
    historical.len() > 0 && (historical[0] == 0x3b || historical[0] == 0x3f)
}

/// The ATR body before the check byte: TS, T0 (TD1 present, K historical
/// bytes), TD1 (T=0, TD2 present), TD2 (T=1), then at most 15 historical bytes.
pub open spec fn atr_body(historical: Seq<u8>) -> Seq<u8> {
    let h = if historical.len() > 15 {
        historical.take(15)
    } else {
        historical
    };
    seq![0x3bu8, (0x80 + h.len()) as u8, 0x80, 0x01] + h
}

/// The ATR reported for a contactless card: its historical bytes when they
/// already form an ATR, else a T=1 ATR built around them with its check byte.
pub open spec fn spec_pseudo_atr(historical: Seq<u8>) -> Seq<u8> {
    if is_complete_atr(historical) {
        historical
    } else {
        atr_body(historical).push(xor_fold(atr_body(historical).skip(1)))
    }
}

/// The AID that a SELECT-by-name APDU names, if it is one.
pub open spec fn spec_select_aid(apdu: Seq<u8>) -> Option<Seq<u8>> {
    if apdu.len() < 5 || apdu[1] != APDU_SELECT_INS || apdu[2] != APDU_SELECT_BY_DF_NAME_P1 {
        None
    } else if apdu[4] > 0 && apdu.len() >= 5 + apdu[4] {
        Some(apdu.subrange(5, 5 + apdu[4]))
    } else {
        None
    }
}

pub open spec fn slot_status_response(
    slot: u8,
    seq: u8,
    icc: IccStatus,
    command: CommandStatus,
    error: u8,
) -> ResponseView {
    ResponseView::SlotStatus {
        slot,
        seq,
        status: SlotStatus { icc, command },
        error,
        clock_status: 0,
    }
}

pub open spec fn ok_status(slot: u8, seq: u8, s: BridgeState) -> ResponseView {
    slot_status_response(slot, seq, s.icc_status(), CommandStatus::NoError, 0)
}

pub open spec fn failed_status(slot: u8, seq: u8, icc: IccStatus) -> ResponseView {
    slot_status_response(slot, seq, icc, CommandStatus::Failed, GENERIC_FAILURE_ERROR)
}

pub open spec fn parameters_view(slot: u8, seq: u8, s: BridgeState, failed: bool) -> ResponseView {
    ResponseView::Parameters {
        slot,
        seq,
        status: SlotStatus {
            icc: s.icc_status(),
            command: if failed {
                CommandStatus::Failed
            } else {
                CommandStatus::NoError
            },
        },
        error: if failed {
            GENERIC_FAILURE_ERROR
        } else {
            0
        },
        protocol_num: s.protocol_num,
        payload: s.parameters,
    }
}

/// Refreshing the card presence: a powered card is kept without polling;
/// otherwise the poll's answer replaces the card, and losing the card also
/// drops the power. A failed poll changes nothing.
pub open spec fn spec_refresh(s: BridgeState, poll: Result<Option<CardView>, ()>) -> (
    BridgeState,
    Result<bool, ()>,
) {
    if s.slot_powered && s.card is Some {
        (s, Ok(true))
    } else {
        match poll {
            Err(()) => (s, Err(())),
            Ok(card) => (
                BridgeState {
                    card,
                    slot_powered: if card is None {
                        false
                    } else {
                        s.slot_powered
                    },
                    ..s
                },
                Ok(card is Some),
            ),
        }
    }
}

pub open spec fn spec_power_on(
    s: BridgeState,
    slot: u8,
    seq: u8,
    poll: Result<Option<CardView>, ()>,
) -> (BridgeState, ResponseView) {
    match poll {
        Ok(Some(card)) => (
            BridgeState { card: Some(card), slot_powered: true, ..s },
            ResponseView::DataBlock {
                slot,
                seq,
                status: SlotStatus { icc: IccStatus::Active, command: CommandStatus::NoError },
                error: 0,
                chain_parameter: 0,
                payload: spec_pseudo_atr(card.historical_bytes),
            },
        ),
        Ok(None) => (
            BridgeState { card: None, slot_powered: false, ..s },
            failed_status(slot, seq, IccStatus::NotPresent),
        ),
        Err(()) => (
            BridgeState { card: None, slot_powered: false, ..s },
            failed_status(slot, seq, IccStatus::Inactive),
        ),
    }
}

pub open spec fn spec_power_off(s: BridgeState, slot: u8, seq: u8, result: Result<(), ()>) -> (
    BridgeState,
    ResponseView,
) {
    match result {
        Err(()) => (s, failed_status(slot, seq, IccStatus::Inactive)),
        Ok(()) => {
            let s2 = BridgeState { slot_powered: false, ..s };
            (s2, ok_status(slot, seq, s2))
        },
    }
}

pub open spec fn spec_slot_status(
    s: BridgeState,
    slot: u8,
    seq: u8,
    poll: Result<Option<CardView>, ()>,
) -> (BridgeState, ResponseView) {
    let (s1, refreshed) = spec_refresh(s, poll);
    match refreshed {
        Err(()) => (s1, failed_status(slot, seq, IccStatus::Inactive)),
        Ok(_) => {
            let s2 = if s1.card is Some && s1.powers_on_when_seen() {
                BridgeState { slot_powered: true, ..s1 }
            } else {
                s1
            };
            (s2, ok_status(slot, seq, s2))
        },
    }
}

pub open spec fn spec_set_parameters(
    s: BridgeState,
    slot: u8,
    seq: u8,
    protocol_num: u8,
    payload: Seq<u8>,
) -> (BridgeState, ResponseView) {
    if protocol_num != T1_PROTOCOL_NUM || payload.len() != 7 {
        (s, parameters_view(slot, seq, s, true))
    } else {
        let s2 = BridgeState { protocol_num, parameters: payload, ..s };
        (s2, parameters_view(slot, seq, s2, false))
    }
}

/// The APDU exchange once the card has been looked for (`s`), given what the
/// reader answered to the APDU.
pub open spec fn spec_xfr_exchange(
    s: BridgeState,
    slot: u8,
    seq: u8,
    exchange: Result<Seq<u8>, ()>,
) -> (BridgeState, ResponseView) {
    if s.card is None {
        (s, failed_status(slot, seq, IccStatus::NotPresent))
    } else if !s.slot_powered {
        (s, failed_status(slot, seq, IccStatus::Inactive))
    } else {
        match exchange {
            Ok(response) => (
                s,
                ResponseView::DataBlock {
                    slot,
                    seq,
                    status: SlotStatus { icc: IccStatus::Active, command: CommandStatus::NoError },
                    error: 0,
                    chain_parameter: 0,
                    payload: response,
                },
            ),
            Err(()) => (s, failed_status(slot, seq, s.icc_status())),
        }
    }
}

pub open spec fn spec_xfr_block(s: BridgeState, slot: u8, seq: u8, o: ReaderOutcome) -> (
    BridgeState,
    ResponseView,
) {
    if s.card is None {
        let (s1, refreshed) = spec_refresh(s, o.poll);
        match refreshed {
            Err(()) => (
                BridgeState { slot_powered: false, ..s1 },
                failed_status(slot, seq, IccStatus::Inactive),
            ),
            Ok(_) => spec_xfr_exchange(s1, slot, seq, o.exchange),
        }
    } else {
        spec_xfr_exchange(s, slot, seq, o.exchange)
    }
}

/// The slot's next state and its response to a command, given the reader's
/// answers.
pub open spec fn spec_handle(s: BridgeState, command: CommandView, o: ReaderOutcome) -> (
    BridgeState,
    ResponseView,
) {
    match command {
        CommandView::IccPowerOn { slot, seq, .. } => spec_power_on(s, slot, seq, o.poll),
        CommandView::IccPowerOff { slot, seq } => spec_power_off(s, slot, seq, o.power_off),
        CommandView::GetSlotStatus { slot, seq } => spec_slot_status(s, slot, seq, o.poll),
        CommandView::GetParameters { slot, seq } => (s, parameters_view(slot, seq, s, false)),
        CommandView::ResetParameters { slot, seq } => {
            let s2 = BridgeState {
                protocol_num: T1_PROTOCOL_NUM,
                parameters: default_t1_parameters(),
                ..s
            };
            (s2, parameters_view(slot, seq, s2, false))
        },
        CommandView::SetParameters { slot, seq, protocol_num, payload } => spec_set_parameters(
            s,
            slot,
            seq,
            protocol_num,
            payload,
        ),
        CommandView::XfrBlock { slot, seq, .. } => spec_xfr_block(s, slot, seq, o),
        CommandView::Abort { slot, seq } => (s, ok_status(slot, seq, s)),
        CommandView::Unknown { slot, seq, .. } => (
            s,
            slot_status_response(
                slot,
                seq,
                s.icc_status(),
                CommandStatus::Failed,
                GENERIC_FAILURE_ERROR,
            ),
        ),
    }
}

/// The CCID slot bridged to an NFC reader.
pub struct CcidBridge<R: NfcReader> {
    reader: R,
    slot: Slot,
}

/// What the slot holds besides its reader.
struct Slot {
    reader_capabilities: ReaderCapabilities,
    current_card: Option<CardPresence>,
    slot_powered: bool,
    protocol_num: u8,
    parameters: [u8; 7],
}

impl Slot {
    /// A powered slot always holds a card.
    #[verifier::type_invariant]
    spec fn powered_holds_card(self) -> bool {
        self.slot_powered ==> self.current_card is Some
    }
}

impl<R: NfcReader> View for CcidBridge<R> {
    type V = BridgeState;

    closed spec fn view(&self) -> BridgeState {
        BridgeState {
            card: option_card_view(self.slot.current_card),
            slot_powered: self.slot.slot_powered,
            protocol_num: self.slot.protocol_num,
            parameters: self.slot.parameters@,
            reader_name: self.slot.reader_capabilities.name@,
        }
    }
}

impl<R: NfcReader> CcidBridge<R> {
    /// A slot without a card, unpowered, with the default T=1 parameters,
    /// bridged to `reader`. The reader is only asked for its capabilities,
    /// through its own `capabilities`, and the slot keeps the name given there.
    pub fn new(reader: R) -> (bridge: Self)
        ensures
            bridge@.card is None,
            !bridge@.slot_powered,
            bridge@.protocol_num == T1_PROTOCOL_NUM,
            bridge@.parameters == default_t1_parameters(),
            bridge@.inv(),
            bridge.reader() == reader,
            exists|capabilities: ReaderCapabilities|
                call_ensures(R::capabilities, (&reader,), capabilities) && bridge@.reader_name
                    == capabilities.name@,
    {
        let capabilities = R::capabilities;
        let reader_capabilities = capabilities(&reader);
        let bridge = CcidBridge {
            reader,
            slot: Slot {
                reader_capabilities,
                current_card: None,
                slot_powered: false,
                protocol_num: T1_PROTOCOL_NUM,
                parameters: [0x11, 0x10, 0x00, 0x15, 0x00, 0xfe, 0x00],
            },
        };
        assert(bridge@.parameters =~= default_t1_parameters());
        bridge
    }

    /// Answers one host command. The reader is consulted only through its
    /// own methods, in the calls `command_calls` lists: IccPowerOn polls it,
    /// IccPowerOff switches it off, GetSlotStatus polls it unless a powered
    /// card is held, and XfrBlock polls it when no card is held and then hands
    /// the command's payload to `exchange_apdu` when a powered card is there.
    /// The response and the new slot state follow from what those calls
    /// answered; every other command leaves the reader alone.
    pub fn handle_command(&mut self, command: CcidCommand) -> (response: CcidResponse)
        ensures
            final(self)@.inv(),
            exists|calls: Seq<ReaderCall<R>>, refs: Seq<&mut R>|
                command_calls(old(self)@, command@, calls) && calls_chain(
                    old(self).reader(),
                    final(self).reader(),
                    calls,
                ) && made_through(calls, refs) && (forall|i: int|
                    #![trigger refs[i]]
                    0 <= i < refs.len() ==> *final(refs[i]) == calls[i].after()) && spec_handle(
                    old(self)@,
                    command@,
                    outcome_of(calls),
                ) == (final(self)@, response@),
    {
        proof {
            use_type_invariant(&self.slot);
        }
        let ghost pre = self@;
        let ghost cmd = command@;
        let ghost r0 = self.reader;
        let ghost no_calls = Seq::<ReaderCall<R>>::empty();
        let ghost no_refs = Seq::<&mut R>::empty();
        proof {
            assert forall|o: ReaderOutcome| pre.inv() implies #[trigger] spec_handle(
                pre,
                cmd,
                o,
            ).0.inv() by {
                lemma_handle_preserves_inv(pre, cmd, o);
            }
            assert(made_through(no_calls, no_refs));
        }
        match command {
            CcidCommand::IccPowerOn { slot, seq, .. } => {
                let polled = poll_through(&mut self.reader);
                let ghost call = ReaderCall::Poll { before: r0, after: self.reader, answer: polled };
                let ghost calls = seq![call];
                let ghost inner = choose|inner: &mut R|
                    *inner == r0 && *final(inner) == call.after() && call_ensures(
                        R::poll_card,
                        (inner,),
                        polled,
                    );
                let ghost refs = seq![inner];
                proof {
                    assert(call_made(call, inner));
                    assert(calls[0] == call);
                    assert(refs[0] == inner);
                    assert(made_through(calls, refs));
                }
                let response = self.complete_power_on(slot, seq, polled);
                proof {
                    lemma_calls_chain_single(r0, self.reader(), call);
                    assert(outcome_of(calls).poll == poll_outcome(polled));
                    assert(command_calls(pre, cmd, calls));
                    assert(spec_handle(pre, cmd, outcome_of(calls)) == (self@, response@));
                }
                proof {
                    use_type_invariant(&self.slot);
                }
                response
            },
            CcidCommand::IccPowerOff { slot, seq } => {
                let result = power_off_through(&mut self.reader);
                let ghost call = ReaderCall::PowerOff { before: r0, after: self.reader, answer: result };
                let ghost calls = seq![call];
                let ghost inner = choose|inner: &mut R|
                    *inner == r0 && *final(inner) == call.after() && call_ensures(
                        R::power_off,
                        (inner,),
                        result,
                    );
                let ghost refs = seq![inner];
                proof {
                    assert(call_made(call, inner));
                    assert(calls[0] == call);
                    assert(refs[0] == inner);
                    assert(made_through(calls, refs));
                }
                let response = self.complete_power_off(slot, seq, result);
                proof {
                    lemma_calls_chain_single(r0, self.reader(), call);
                    assert(outcome_of(calls).power_off == (if result is Ok {
                        Ok(())
                    } else {
                        Err(())
                    }));
                    assert(command_calls(pre, cmd, calls));
                    assert(spec_handle(pre, cmd, outcome_of(calls)) == (self@, response@));
                }
                proof {
                    use_type_invariant(&self.slot);
                }
                response
            },
            CcidCommand::GetSlotStatus { slot, seq } => {
                let refreshed = self.refresh_card_presence();
                let ghost calls = choose|calls: Seq<ReaderCall<R>>|
                    #![trigger calls_chain(r0, self.reader(), calls)]
                    exists|refs: Seq<&mut R>|
                    #![trigger made_through(calls, refs)]
                        refresh_calls(pre, calls) && calls_chain(r0, self.reader(), calls) && made_through(
                            calls,
                            refs,
                        ) && (forall|i: int|
                            #![trigger refs[i]]
                            0 <= i < refs.len() ==> *final(refs[i]) == calls[i].after()) && spec_refresh(
                            pre,
                            outcome_of(calls).poll,
                        ) == (self@, match refreshed {
                            Ok(b) => Ok(b),
                            Err(_) => Err(()),
                        }) && refreshed == refresh_answer(calls);
                    let ghost refs = choose|refs: Seq<&mut R>|
                    #![trigger made_through(calls, refs)]
                        refresh_calls(pre, calls) && calls_chain(r0, self.reader(), calls) && made_through(
                            calls,
                            refs,
                        ) && (forall|i: int|
                            #![trigger refs[i]]
                            0 <= i < refs.len() ==> *final(refs[i]) == calls[i].after()) && spec_refresh(
                            pre,
                            outcome_of(calls).poll,
                        ) == (self@, match refreshed {
                            Ok(b) => Ok(b),
                            Err(_) => Err(()),
                        }) && refreshed == refresh_answer(calls);
                    let ghost p = (calls, refs);
                let response = self.complete_slot_status(slot, seq, refreshed);
                proof {
                    assert(command_calls(pre, cmd, p.0));
                    assert(spec_handle(pre, cmd, outcome_of(p.0)) == (self@, response@));
                }
                proof {
                    use_type_invariant(&self.slot);
                }
                response
            },
            CcidCommand::GetParameters { slot, seq } => {
                let response = self.parameters_response(slot, seq, false);
                assert(command_calls(pre, cmd, no_calls));
                assert(calls_chain(r0, self.reader(), no_calls));
                assert(spec_handle(pre, cmd, outcome_of(no_calls)) == (self@, response@));
                proof {
                    use_type_invariant(&self.slot);
                }
                response
            },
            CcidCommand::ResetParameters { slot, seq } => {
                self.slot.protocol_num = T1_PROTOCOL_NUM;
                self.slot.parameters = [0x11, 0x10, 0x00, 0x15, 0x00, 0xfe, 0x00];
                assert(self@.parameters =~= default_t1_parameters());
                let response = self.parameters_response(slot, seq, false);
                assert(command_calls(pre, cmd, no_calls));
                assert(calls_chain(r0, self.reader(), no_calls));
                assert(spec_handle(pre, cmd, outcome_of(no_calls)) == (self@, response@));
                proof {
                    use_type_invariant(&self.slot);
                }
                response
            },
            CcidCommand::SetParameters { slot, seq, protocol_num, payload } => {
                assert(command_calls(pre, cmd, no_calls));
                if protocol_num != T1_PROTOCOL_NUM || payload.len() != 7 {
                    let response = self.parameters_response(slot, seq, true);
                    assert(calls_chain(r0, self.reader(), no_calls));
                    assert(spec_handle(pre, cmd, outcome_of(no_calls)) == (self@, response@));
                    proof {
                        use_type_invariant(&self.slot);
                    }
                    return response;
                }
                self.slot.protocol_num = protocol_num;
                self.slot.parameters = [
                    payload[0],
                    payload[1],
                    payload[2],
                    payload[3],
                    payload[4],
                    payload[5],
                    payload[6],
                ];
                assert(self@.parameters =~= payload@);
                let response = self.parameters_response(slot, seq, false);
                assert(calls_chain(r0, self.reader(), no_calls));
                assert(spec_handle(pre, cmd, outcome_of(no_calls)) == (self@, response@));
                proof {
                    use_type_invariant(&self.slot);
                }
                response
            },
            CcidCommand::XfrBlock { slot, seq, payload, .. } => {
                let had_card = self.slot.current_card.is_some();
                if !had_card {
                    let refreshed = self.refresh_card_presence();
                    if refreshed.is_err() {
                        let ghost calls = choose|calls: Seq<ReaderCall<R>>|
                    #![trigger calls_chain(r0, self.reader(), calls)]
                    exists|refs: Seq<&mut R>|
                    #![trigger made_through(calls, refs)]
                                refresh_calls(pre, calls) && calls_chain(r0, self.reader(), calls) && made_through(
                                    calls,
                                    refs,
                                ) && (forall|i: int|
                                    #![trigger refs[i]]
                                    0 <= i < refs.len() ==> *final(refs[i]) == calls[i].after()) && spec_refresh(
                                    pre,
                                    outcome_of(calls).poll,
                                ) == (self@, match refreshed {
                                    Ok(b) => Ok(b),
                                    Err(_) => Err(()),
                                }) && refreshed == refresh_answer(calls);
                            let ghost refs = choose|refs: Seq<&mut R>|
                    #![trigger made_through(calls, refs)]
                                refresh_calls(pre, calls) && calls_chain(r0, self.reader(), calls) && made_through(
                                    calls,
                                    refs,
                                ) && (forall|i: int|
                                    #![trigger refs[i]]
                                    0 <= i < refs.len() ==> *final(refs[i]) == calls[i].after()) && spec_refresh(
                                    pre,
                                    outcome_of(calls).poll,
                                ) == (self@, match refreshed {
                                    Ok(b) => Ok(b),
                                    Err(_) => Err(()),
                                }) && refreshed == refresh_answer(calls);
                            let ghost p = (calls, refs);
                        self.slot.slot_powered = false;
                        let response = CcidResponse::SlotStatus {
                            slot,
                            seq,
                            status: SlotStatus::failed(IccStatus::Inactive),
                            error: GENERIC_FAILURE_ERROR,
                            clock_status: 0,
                        };
                        proof {
                            assert(command_calls(pre, cmd, p.0));
                            assert(spec_handle(pre, cmd, outcome_of(p.0)) == (self@, response@));
                        }
                        proof {
                            use_type_invariant(&self.slot);
                        }
                        return response;
                    }
                } else {
                    assert(calls_chain(r0, self.reader(), no_calls));
                }
                let ghost calls = choose|calls: Seq<ReaderCall<R>>|
                    #![trigger calls_chain(r0, self.reader(), calls)]
                    exists|refs: Seq<&mut R>|
                    #![trigger made_through(calls, refs)]
                    calls_chain(r0, self.reader(), calls) && made_through(calls, refs) && (forall|i: int|
                        #![trigger refs[i]]
                        0 <= i < refs.len() ==> *final(refs[i]) == calls[i].after()) && if had_card {
                        calls.len() == 0 && self@ == pre
                    } else {
                        refresh_calls(pre, calls) && spec_refresh(pre, outcome_of(calls).poll).0 == self@
                            && spec_refresh(pre, outcome_of(calls).poll).1 is Ok
                    };
                let ghost refs = choose|refs: Seq<&mut R>|
                    #![trigger made_through(calls, refs)]
                    calls_chain(r0, self.reader(), calls) && made_through(calls, refs) && (forall|i: int|
                        #![trigger refs[i]]
                        0 <= i < refs.len() ==> *final(refs[i]) == calls[i].after()) && if had_card {
                        calls.len() == 0 && self@ == pre
                    } else {
                        refresh_calls(pre, calls) && spec_refresh(pre, outcome_of(calls).poll).0 == self@
                            && spec_refresh(pre, outcome_of(calls).poll).1 is Ok
                    };
                let ghost p = (calls, refs);
                let ghost polls = p.0;
                let ghost poll_refs = p.1;
                let ghost mid = self@;
                let ghost rm = self.reader;
                if self.slot.current_card.is_none() {
                    let response = CcidResponse::SlotStatus {
                        slot,
                        seq,
                        status: SlotStatus::failed(IccStatus::NotPresent),
                        error: GENERIC_FAILURE_ERROR,
                        clock_status: 0,
                    };
                    assert(command_calls(pre, cmd, polls));
                    assert(spec_xfr_exchange(mid, slot, seq, outcome_of(polls).exchange) == (
                        self@,
                        response@,
                    ));
                    assert(spec_handle(pre, cmd, outcome_of(polls)) == (self@, response@));
                    proof {
                        use_type_invariant(&self.slot);
                    }
                    return response;
                }
                if !self.slot.slot_powered {
                    let response = CcidResponse::SlotStatus {
                        slot,
                        seq,
                        status: SlotStatus::failed(IccStatus::Inactive),
                        error: GENERIC_FAILURE_ERROR,
                        clock_status: 0,
                    };
                    assert(command_calls(pre, cmd, polls));
                    assert(spec_xfr_exchange(mid, slot, seq, outcome_of(polls).exchange) == (
                        self@,
                        response@,
                    ));
                    assert(spec_handle(pre, cmd, outcome_of(polls)) == (self@, response@));
                    proof {
                        use_type_invariant(&self.slot);
                    }
                    return response;
                }
                let apdu = payload.as_slice();
                let exchanged = exchange_through(&mut self.reader, apdu);
                let ghost call = ReaderCall::Exchange {
                    before: rm,
                    after: self.reader,
                    apdu: payload@,
                    answer: exchanged,
                };
                let ghost inner = choose|inner: &mut R|
                    *inner == rm && *final(inner) == call.after() && call_ensures(
                        R::exchange_apdu,
                        (inner, apdu),
                        exchanged,
                    );
                let ghost calls = polls + seq![call];
                let ghost refs = poll_refs + seq![inner];
                proof {
                    assert(call_made(call, inner));
                    assert forall|i: int|
                        #![trigger calls[i]]
                        0 <= i < calls.len() implies *refs[i] == calls[i].before() && call_made(
                            calls[i],
                            refs[i],
                        ) by {
                        if i < polls.len() {
                            assert(calls[i] == polls[i]);
                            assert(refs[i] == poll_refs[i]);
                        } else {
                            assert(calls[i] == call);
                            assert(refs[i] == inner);
                        }
                    }
                    assert(made_through(calls, refs));
                    assert forall|i: int|
                        #![trigger refs[i]]
                        0 <= i < refs.len() implies *final(refs[i]) == calls[i].after() by {
                        if i < polls.len() {
                            assert(calls[i] == polls[i]);
                            assert(refs[i] == poll_refs[i]);
                        } else {
                            assert(calls[i] == call);
                            assert(refs[i] == inner);
                        }
                    }
                    lemma_calls_chain_single(rm, call.after(), call);
                    lemma_calls_chain_append(r0, rm, call.after(), polls, seq![call]);
                    assert(calls.last() == call);
                    assert(outcome_of(calls).exchange == exchange_outcome(exchanged));
                    if polls.len() > 0 {
                        assert(calls[0] == polls[0]);
                        assert(calls[1] == call);
                    } else {
                        assert(calls[0] == call);
                    }
                    assert(outcome_of(calls).poll == outcome_of(polls).poll);
                }
                let response = self.complete_xfr_block(slot, seq, exchanged);
                proof {
                    assert(command_calls(pre, cmd, calls));
                    assert(spec_xfr_exchange(mid, slot, seq, outcome_of(calls).exchange) == (
                        self@,
                        response@,
                    ));
                    assert(spec_handle(pre, cmd, outcome_of(calls)) == (self@, response@));
                }
                proof {
                    use_type_invariant(&self.slot);
                }
                response
            },
            CcidCommand::Abort { slot, seq } => {
                let response = CcidResponse::SlotStatus {
                    slot,
                    seq,
                    status: SlotStatus::ok(self.current_icc_status()),
                    error: 0,
                    clock_status: 0,
                };
                assert(command_calls(pre, cmd, no_calls));
                assert(calls_chain(r0, self.reader(), no_calls));
                assert(spec_handle(pre, cmd, outcome_of(no_calls)) == (self@, response@));
                proof {
                    use_type_invariant(&self.slot);
                }
                response
            },
            CcidCommand::Unknown { slot, seq, .. } => {
                let response = CcidResponse::SlotStatus {
                    slot,
                    seq,
                    status: SlotStatus { icc: self.current_icc_status(), command: CommandStatus::Failed },
                    error: GENERIC_FAILURE_ERROR,
                    clock_status: 0,
                };
                assert(command_calls(pre, cmd, no_calls));
                assert(calls_chain(r0, self.reader(), no_calls));
                assert(spec_handle(pre, cmd, outcome_of(no_calls)) == (self@, response@));
                proof {
                    use_type_invariant(&self.slot);
                }
                response
            },
        }
    }

    /// Finishes a power-on once the reader has been polled.
    pub fn complete_power_on(
        &mut self,
        slot: u8,
        seq: u8,
        polled: Result<Option<CardPresence>, ReaderError>,
    ) -> (response: CcidResponse)
        ensures
            spec_power_on(old(self)@, slot, seq, poll_outcome(polled)) == (final(self)@, response@),
            final(self).reader() == old(self).reader(),
    {
        proof {
            use_type_invariant(&self.slot);
        }
        match polled {
            Ok(Some(card)) => {
                let atr = Self::build_pseudo_atr(&card);
                self.slot.current_card = Some(card);
                self.slot.slot_powered = true;
                CcidResponse::DataBlock {
                    slot,
                    seq,
                    status: SlotStatus::ok(IccStatus::Active),
                    error: 0,
                    chain_parameter: 0,
                    payload: atr,
                }
            },
            Ok(None) => {
                self.slot.slot_powered = false;
                self.slot.current_card = None;
                CcidResponse::SlotStatus {
                    slot,
                    seq,
                    status: SlotStatus::failed(IccStatus::NotPresent),
                    error: GENERIC_FAILURE_ERROR,
                    clock_status: 0,
                }
            },
            Err(_) => {
                self.slot.slot_powered = false;
                self.slot.current_card = None;
                CcidResponse::SlotStatus {
                    slot,
                    seq,
                    status: SlotStatus::failed(IccStatus::Inactive),
                    error: GENERIC_FAILURE_ERROR,
                    clock_status: 0,
                }
            },
        }
    }

    /// Finishes a power-off once the reader has switched the card off (or failed to).
    pub fn complete_power_off(&mut self, slot: u8, seq: u8, result: Result<(), ReaderError>) -> (response:
        CcidResponse)
        ensures
            spec_power_off(
                old(self)@,
                slot,
                seq,
                if result is Ok {
                    Ok(())
                } else {
                    Err(())
                },
            ) == (final(self)@, response@),
            final(self).reader() == old(self).reader(),
    {
        proof {
            use_type_invariant(&self.slot);
        }
        if result.is_err() {
            return CcidResponse::SlotStatus {
                slot,
                seq,
                status: SlotStatus::failed(IccStatus::Inactive),
                error: GENERIC_FAILURE_ERROR,
                clock_status: 0,
            };
        }
        self.slot.slot_powered = false;
        CcidResponse::SlotStatus {
            slot,
            seq,
            status: SlotStatus::ok(self.current_icc_status()),
            error: 0,
            clock_status: 0,
        }
    }

    /// Finishes a slot status query once the card presence has been refreshed.
    pub fn complete_slot_status(&mut self, slot: u8, seq: u8, refreshed: Result<bool, ReaderError>) -> (response:
        CcidResponse)
        ensures
            match refreshed {
                Err(_) => *final(self) == *old(self) && response@ == failed_status(
                    slot,
                    seq,
                    IccStatus::Inactive,
                ),
                Ok(_) => {
                    let s1 = old(self)@;
                    let s2 = if s1.card is Some && s1.powers_on_when_seen() {
                        BridgeState { slot_powered: true, ..s1 }
                    } else {
                        s1
                    };
                    final(self)@ == s2 && response@ == ok_status(slot, seq, s2)
                },
            },
            final(self).reader() == old(self).reader(),
    {
        proof {
            use_type_invariant(&self.slot);
        }
        match refreshed {
            Ok(_) => {
                if self.slot.current_card.is_some() && str_equal(self.slot.reader_capabilities.name, "dummy") {
                    self.slot.slot_powered = true;
                }
                CcidResponse::SlotStatus {
                    slot,
                    seq,
                    status: SlotStatus::ok(self.current_icc_status()),
                    error: 0,
                    clock_status: 0,
                }
            },
            Err(_) => CcidResponse::SlotStatus {
                slot,
                seq,
                status: SlotStatus::failed(IccStatus::Inactive),
                error: GENERIC_FAILURE_ERROR,
                clock_status: 0,
            },
        }
    }

    /// Finishes an APDU exchange once the card has been looked for, given the
    /// reader's answer to the APDU (ignored when the card is absent or off).
    pub fn complete_xfr_block(&mut self, slot: u8, seq: u8, exchanged: Result<Vec<u8>, ReaderError>) -> (response:
        CcidResponse)
        ensures
            spec_xfr_exchange(old(self)@, slot, seq, exchange_outcome(exchanged)) == (
                final(self)@,
                response@,
            ),
            final(self).reader() == old(self).reader(),
    {
        proof {
            use_type_invariant(&self.slot);
        }
        if self.slot.current_card.is_none() {
            return CcidResponse::SlotStatus {
                slot,
                seq,
                status: SlotStatus::failed(IccStatus::NotPresent),
                error: GENERIC_FAILURE_ERROR,
                clock_status: 0,
            };
        }
        if !self.slot.slot_powered {
            return CcidResponse::SlotStatus {
                slot,
                seq,
                status: SlotStatus::failed(IccStatus::Inactive),
                error: GENERIC_FAILURE_ERROR,
                clock_status: 0,
            };
        }
        match exchanged {
            Ok(response) => CcidResponse::DataBlock {
                slot,
                seq,
                status: SlotStatus::ok(IccStatus::Active),
                error: 0,
                chain_parameter: 0,
                payload: response,
            },
            Err(_) => CcidResponse::SlotStatus {
                slot,
                seq,
                status: SlotStatus::failed(self.current_icc_status()),
                error: GENERIC_FAILURE_ERROR,
                clock_status: 0,
            },
        }
    }

    /// The reader the slot is bridged to.
    pub closed spec fn reader(&self) -> R {
        self.reader
    }

    /// Whether the slot holds a card.
    pub fn card_present(&self) -> (present: bool)
        ensures
            present == self@.card is Some,
            self@.inv(),
    {
        proof {
            use_type_invariant(&self.slot);
        }
        self.slot.current_card.is_some()
    }

    /// Looks for a card unless a powered card is already held. A poll is made
    /// through the reader's own `poll_card`; its error is passed on.
    pub fn refresh_card_presence(&mut self) -> (result: Result<bool, ReaderError>)
        ensures
            exists|calls: Seq<ReaderCall<R>>, refs: Seq<&mut R>|
                refresh_calls(old(self)@, calls) && calls_chain(
                    old(self).reader(),
                    final(self).reader(),
                    calls,
                ) && made_through(calls, refs) && (forall|i: int|
                    #![trigger refs[i]]
                    0 <= i < refs.len() ==> *final(refs[i]) == calls[i].after()) && spec_refresh(
                    old(self)@,
                    outcome_of(calls).poll,
                ) == (final(self)@, match result {
                    Ok(b) => Ok(b),
                    Err(_) => Err(()),
                }) && result == refresh_answer(calls),
            final(self)@.inv(),
    {
        proof {
            use_type_invariant(&self.slot);
        }
        if self.slot.slot_powered && self.slot.current_card.is_some() {
            let ghost calls = Seq::<ReaderCall<R>>::empty();
            let ghost refs = Seq::<&mut R>::empty();
            assert(calls_chain(old(self).reader(), self.reader(), calls));
            assert(spec_refresh(old(self)@, outcome_of(calls).poll) == (self@, Ok::<bool, ()>(true)));
            assert(refresh_calls(old(self)@, calls));
            assert(refresh_answer(calls) == Ok::<bool, ReaderError>(true));
            assert(made_through(calls, refs));
            proof {
                use_type_invariant(&self.slot);
            }
            return Ok(true);
        }
        let ghost r0 = self.reader;
        let polled = poll_through(&mut self.reader);
        let ghost call = ReaderCall::Poll { before: r0, after: self.reader, answer: polled };
        let ghost calls = seq![call];
        let ghost inner = choose|inner: &mut R|
            *inner == r0 && *final(inner) == call.after() && call_ensures(
                R::poll_card,
                (inner,),
                polled,
            );
        let ghost refs = seq![inner];
        proof {
            assert(call_made(call, inner));
            assert(calls[0] == call);
            assert(refs[0] == inner);
            assert(made_through(calls, refs));
            lemma_calls_chain_single(r0, call.after(), call);
        }
        let result = self.record_poll(polled);
        assert(calls_chain(old(self).reader(), self.reader(), calls));
        assert(spec_refresh(old(self)@, poll_outcome(polled)).0 == self@);
        assert(refresh_calls(old(self)@, calls));
        assert(outcome_of(calls).poll == poll_outcome(polled));
        assert(result == refresh_answer(calls));
        proof {
            use_type_invariant(&self.slot);
        }
        result
    }

    /// Records the reader's answer to a poll of an unpowered or empty slot.
    pub fn record_poll(&mut self, polled: Result<Option<CardPresence>, ReaderError>) -> (result:
        Result<bool, ReaderError>)
        ensures
            !(old(self)@.slot_powered && old(self)@.card is Some) ==> spec_refresh(
                old(self)@,
                poll_outcome(polled),
            ) == (final(self)@, match result {
                Ok(b) => Ok(b),
                Err(_) => Err(()),
            }),
            polled matches Err(e) ==> result == Err::<bool, ReaderError>(e),
            polled is Ok ==> result == Ok::<bool, ReaderError>(final(self)@.card is Some),
            final(self).reader() == old(self).reader(),
            final(self)@.inv(),
    {
        proof {
            use_type_invariant(&self.slot);
        }
        match polled {
            Err(error) => Err(error),
            Ok(card) => {
                if card.is_none() {
                    self.slot.slot_powered = false;
                }
                self.slot.current_card = card;
                proof {
                    use_type_invariant(&self.slot);
                }
                Ok(self.slot.current_card.is_some())
            },
        }
    }

    /// The card state reported in responses.
    pub fn current_icc_status(&self) -> (icc: IccStatus)
        ensures
            icc == self@.icc_status(),
            self@.inv(),
    {
        proof {
            use_type_invariant(&self.slot);
        }
        if self.slot.current_card.is_none() {
            IccStatus::NotPresent
        } else if self.slot.slot_powered {
            IccStatus::Active
        } else {
            IccStatus::Inactive
        }
    }

    /// The Parameters response for the current protocol data.
    pub fn parameters_response(&self, slot: u8, seq: u8, failed: bool) -> (response: CcidResponse)
        ensures
            response@ == parameters_view(slot, seq, self@, failed),
    {
        let icc = self.current_icc_status();
        CcidResponse::Parameters {
            slot,
            seq,
            status: if failed {
                SlotStatus::failed(icc)
            } else {
                SlotStatus::ok(icc)
            },
            error: if failed {
                GENERIC_FAILURE_ERROR
            } else {
                0
            },
            protocol_num: self.slot.protocol_num,
            payload: vstd::slice::slice_to_vec(self.slot.parameters.as_slice()),
        }
    }

    /// The ATR reported for a card.
    pub fn build_pseudo_atr(card: &CardPresence) -> (atr: Vec<u8>)
        ensures
            atr@ == spec_pseudo_atr(card.historical_bytes@),
    {
        let historical = card.historical_bytes.as_slice();
        if historical.len() > 0 && (historical[0] == 0x3b || historical[0] == 0x3f) {
            return vstd::slice::slice_to_vec(historical);
        }
        let h: &[u8] = if historical.len() > 15 {
            &historical[0..15]
        } else {
            historical
        };
        let n = h.len() as u8;
        assert(n <= 15 ==> 0x80u8 | n == 0x80 + n) by (bit_vector);
        let mut atr = vec![0x3b, 0x80 | n, 0x80, 0x01];
        atr.extend_from_slice(h);
        assert(h@ =~= (if historical@.len() > 15 {
            historical@.take(15)
        } else {
            historical@
        }));
        assert(atr@ =~= atr_body(historical@));
        let mut checksum: u8 = 0;
        let mut i: usize = 1;
        while i < atr.len()
            invariant
                1 <= i <= atr@.len(),
                atr@ == atr_body(historical@),
                checksum == xor_fold(atr@.subrange(1, i as int)),
            decreases atr@.len() - i,
        {
            assert(atr@.subrange(1, i + 1).drop_last() =~= atr@.subrange(1, i as int));
            checksum = checksum ^ atr[i];
            i = i + 1;
        }
        assert(atr@.subrange(1, atr@.len() as int) =~= atr@.skip(1));
        atr.push(checksum);
        atr
    }

    /// The AID named by a SELECT-by-name APDU.
    pub fn select_aid(apdu: &[u8]) -> (aid: Option<&[u8]>)
        ensures
            match aid {
                Some(a) => spec_select_aid(apdu@) == Some(a@),
                None => spec_select_aid(apdu@) is None,
            },
    {
        if apdu.len() < 5 || apdu[1] != APDU_SELECT_INS || apdu[2] != APDU_SELECT_BY_DF_NAME_P1 {
            return None;
        }
        let aid_len = apdu[4] as usize;
        if aid_len > 0 && apdu.len() - 5 >= aid_len {
            Some(&apdu[5..5 + aid_len])
        } else {
            None
        }
    }
}

/// The ATR built for a contactless card ends in a check byte: the XOR of all
/// bytes after TS is zero. It declares T=1 and carries at most fifteen of the
/// card's historical bytes, unchanged, after the four interface bytes.
pub proof fn lemma_pseudo_atr_layout(historical: Seq<u8>)
    requires
        !is_complete_atr(historical),
    ensures
        ({
            let atr = spec_pseudo_atr(historical);
            let k = if historical.len() > 15 {
                15
            } else {
                historical.len()
            };
            &&& atr.len() == 5 + k
            &&& atr[0] == 0x3b
            &&& atr[1] == 0x80 + k
            &&& atr[3] == 0x01
            &&& atr.subrange(4, 4 + k as int) == historical.take(k as int)
            &&& xor_fold(atr.skip(1)) == 0
        }),
{
    let body = atr_body(historical);
    let c = xor_fold(body.skip(1));
    let atr = body.push(c);
    assert(atr.skip(1) =~= body.skip(1).push(c));
    assert(atr.skip(1).drop_last() =~= body.skip(1));
    assert(c ^ c == 0) by (bit_vector);
    let k = if historical.len() > 15 {
        15
    } else {
        historical.len()
    };
    assert(atr.subrange(4, 4 + k as int) =~= historical.take(k as int));
}

/// A powered slot always holds a card, and the protocol data always has
/// seven bytes: every command keeps this, whatever the reader answers.
pub proof fn lemma_handle_preserves_inv(s: BridgeState, command: CommandView, o: ReaderOutcome)
    requires
        s.inv(),
    ensures
        spec_handle(s, command, o).0.inv(),
{
}

/// One thing done to the slot: a host command, or a refresh of the card
/// presence (as the interrupt endpoint does).
pub enum SlotStep {
    Command(CommandView),
    Refresh,
}

/// The slot after one step, the reader answering `o`.
pub open spec fn spec_step(s: BridgeState, step: SlotStep, o: ReaderOutcome) -> BridgeState {
    match step {
        SlotStep::Command(command) => spec_handle(s, command, o).0,
        SlotStep::Refresh => spec_refresh(s, o.poll).0,
    }
}

/// The slot after a sequence of steps, the reader answering `outcomes[i]`
/// during `steps[i]`.
pub open spec fn spec_run(s: BridgeState, steps: Seq<SlotStep>, outcomes: Seq<ReaderOutcome>) -> BridgeState
    decreases steps.len(),
{
    if steps.len() == 0 || outcomes.len() != steps.len() {
        s
    } else {
        spec_step(spec_run(s, steps.drop_last(), outcomes.drop_last()), steps.last(), outcomes.last())
    }
}

/// Whether the reader's answers to a command found a card when polled.
pub open spec fn finds_card(o: ReaderOutcome) -> bool {
    o.poll matches Ok(Some(_))
}

/// Whether a step is an IccPowerOn.
pub open spec fn is_power_on(step: SlotStep) -> bool {
    step matches SlotStep::Command(CommandView::IccPowerOn { .. })
}

/// Whether a step is an IccPowerOff that the reader carried out.
pub open spec fn is_power_off_done(step: SlotStep, o: ReaderOutcome) -> bool {
    step matches SlotStep::Command(CommandView::IccPowerOff { .. }) && o.power_off is Ok
}

/// Whether the last IccPowerOn of a sequence found a card and nothing since
/// switched it off: no later IccPowerOn, and no later IccPowerOff that the
/// reader carried out.
pub open spec fn powered_by_last_power_on(steps: Seq<SlotStep>, outcomes: Seq<ReaderOutcome>) -> bool {
    exists|i: int|
        #![trigger steps[i]]
        0 <= i < steps.len() && is_power_on(steps[i]) && finds_card(outcomes[i]) && forall|j: int|
            #![trigger steps[j]]
            i < j < steps.len() ==> !is_power_on(steps[j]) && !is_power_off_done(steps[j], outcomes[j])
}

/// One step, for a reader other than the simulated one: the slot stays well
/// formed, and the card is active afterwards exactly when the step was an
/// IccPowerOn that found a card, or it was active before and the step neither
/// was an IccPowerOn nor an IccPowerOff that the reader carried out. A
/// refresh never changes whether the card is active.
pub proof fn lemma_active_after_step(s: BridgeState, step: SlotStep, o: ReaderOutcome)
    requires
        s.inv(),
        !s.powers_on_when_seen(),
    ensures
        spec_step(s, step, o).inv(),
        spec_step(s, step, o).reader_name == s.reader_name,
        (spec_step(s, step, o).icc_status() == IccStatus::Active) <==> ((is_power_on(step)
            && finds_card(o)) || (s.icc_status() == IccStatus::Active && !is_power_on(step)
            && !is_power_off_done(step, o))),
{
    match step {
        SlotStep::Command(command) => {
            lemma_handle_preserves_inv(s, command, o);
            lemma_handle_keeps_reader_name(s, command, o);
        },
        SlotStep::Refresh => {},
    }
}

/// Over any sequence of commands and presence refreshes from an empty,
/// unpowered slot of a reader other than the simulated one: the slot stays
/// well formed, reports no card exactly when it holds none, and reports an
/// active card exactly when the last IccPowerOn found a card and nothing
/// since switched it off.
pub proof fn lemma_run_card_status(s: BridgeState, steps: Seq<SlotStep>, outcomes: Seq<ReaderOutcome>)
    requires
        s.card is None,
        !s.slot_powered,
        s.parameters.len() == 7,
        !s.powers_on_when_seen(),
        outcomes.len() == steps.len(),
    ensures
        spec_run(s, steps, outcomes).inv(),
        spec_run(s, steps, outcomes).reader_name == s.reader_name,
        (spec_run(s, steps, outcomes).icc_status() == IccStatus::NotPresent) <==> spec_run(
            s,
            steps,
            outcomes,
        ).card is None,
        (spec_run(s, steps, outcomes).icc_status() == IccStatus::Active)
            <==> powered_by_last_power_on(steps, outcomes),
    decreases steps.len(),
{
    if steps.len() == 0 {
        assert(!powered_by_last_power_on(steps, outcomes));
    } else {
        let n = steps.len() - 1;
        let cs = steps.drop_last();
        let os = outcomes.drop_last();
        lemma_run_card_status(s, cs, os);
        let prev = spec_run(s, cs, os);
        let c = steps.last();
        let o = outcomes.last();
        lemma_active_after_step(prev, c, o);
        assert(spec_run(s, steps, outcomes) == spec_step(prev, c, o));
        let now_on = is_power_on(c) && finds_card(o);
        let kept = !is_power_on(c) && !is_power_off_done(c, o);
        if powered_by_last_power_on(steps, outcomes) {
            let i = choose|i: int|
                #![trigger steps[i]]
                0 <= i < steps.len() && is_power_on(steps[i]) && finds_card(outcomes[i]) && forall|
                    j: int,
                |
                    #![trigger steps[j]]
                    i < j < steps.len() ==> !is_power_on(steps[j]) && !is_power_off_done(
                        steps[j],
                        outcomes[j],
                    );
            if i < n {
                assert(cs[i] == steps[i]);
                assert(os[i] == outcomes[i]);
                assert forall|j: int|
                    #![trigger cs[j]]
                    i < j < cs.len() implies !is_power_on(cs[j]) && !is_power_off_done(
                        cs[j],
                        os[j],
                    ) by {
                    assert(cs[j] == steps[j]);
                    assert(os[j] == outcomes[j]);
                }
                assert(powered_by_last_power_on(cs, os));
                assert(steps[n] == c);
                assert(kept);
            } else {
                assert(steps[i] == c);
                assert(now_on);
            }
        }
        if now_on {
            assert(steps[n] == c);
            assert(powered_by_last_power_on(steps, outcomes));
        } else if kept && powered_by_last_power_on(cs, os) {
            let i = choose|i: int|
                #![trigger cs[i]]
                0 <= i < cs.len() && is_power_on(cs[i]) && finds_card(os[i]) && forall|j: int|
                    #![trigger cs[j]]
                    i < j < cs.len() ==> !is_power_on(cs[j]) && !is_power_off_done(cs[j], os[j]);
            assert(steps[i] == cs[i]);
            assert(outcomes[i] == os[i]);
            assert forall|j: int|
                #![trigger steps[j]]
                i < j < steps.len() implies !is_power_on(steps[j]) && !is_power_off_done(
                    steps[j],
                    outcomes[j],
                ) by {
                if j < n {
                    assert(steps[j] == cs[j]);
                    assert(outcomes[j] == os[j]);
                } else {
                    assert(steps[j] == c);
                    assert(outcomes[j] == o);
                }
            }
            assert(powered_by_last_power_on(steps, outcomes));
        }
    }
}

/// The name a slot was created with never changes.
pub proof fn lemma_handle_keeps_reader_name(s: BridgeState, command: CommandView, o: ReaderOutcome)
    ensures
        spec_handle(s, command, o).0.reader_name == s.reader_name,
{
}

/// While a card is powered, looking for it again does not consult the reader:
/// the slot and the answer are the same whatever the reader would answer.
pub proof fn lemma_refresh_keeps_powered_card(
    s: BridgeState,
    p1: Result<Option<CardView>, ()>,
    p2: Result<Option<CardView>, ()>,
)
    requires
        s.slot_powered,
        s.card is Some,
    ensures
        spec_refresh(s, p1) == spec_refresh(s, p2),
        spec_refresh(s, p1) == (s, Ok::<bool, ()>(true)),
{
}

/// Powering off keeps the card but leaves it inactive.
pub proof fn lemma_power_off_keeps_card(s: BridgeState, slot: u8, seq: u8)
    requires
        s.card is Some,
    ensures
        spec_power_off(s, slot, seq, Ok(())).0.card == s.card,
        spec_power_off(s, slot, seq, Ok(())).1 == slot_status_response(
            slot,
            seq,
            IccStatus::Inactive,
            CommandStatus::NoError,
            0,
        ),
{
}

} // verus!
