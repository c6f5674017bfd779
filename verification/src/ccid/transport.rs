//! The USB side of the CCID reader: control requests, the bulk OUT stream
//! that carries commands, the bulk IN queue of responses and the interrupt IN
//! queue of slot-change notifications.
//!
//! Bulk OUT packets are concatenated and cut into complete frames by the
//! length field of their header, whatever the packet boundaries. Responses
//! are queued and handed out in packets of at most the host's buffer size.
//! A CCID abort is a two-part handshake: a class-specific control request and
//! a matching PC_to_RDR_Abort on the bulk pipe, in either order.
use vstd::prelude::*;

use super::bridge::{
    command_calls,
    ok_status,
    outcome_of,
    refresh_calls,
    slot_status_response,
    spec_handle,
    BridgeState,
    CcidBridge,
    ReaderOutcome,
};
use super::protocol::{
    declared_payload_len,
    spec_decode,
    spec_encode_response,
    CcidCommand,
    CcidProtocolError,
    CcidResponse,
    CommandStatus,
    CommandView,
    SlotStatus,
};
use crate::nfc::{
    call_made,
    made_through,
    calls_chain,
    chain_all,
    chain_end,
    lemma_calls_chain_end,
    CardView,
    NfcReader,
    ReaderCall,
};
use crate::text::bytes_equal;

verus! {

/// Largest payload of a CCID message (dwMaxCCIDMessageLength minus the header).
pub const CCID_MAX_MESSAGE_LENGTH: u64 = 3072;

pub const CCID_GET_CLOCK_FREQUENCIES: u8 = 0x02;

pub const CCID_GET_DATA_RATES: u8 = 0x03;

pub const CCID_ABORT: u8 = 0x01;

pub const CCID_NOTIFY_SLOT_CHANGE: u8 = 0x50;

pub const CMD_ABORTED_ERROR: u8 = 0xff;

/// Responses kept waiting for bulk IN at most; beyond that the stale ones are dropped.
pub const MAX_PENDING_IN_FRAMES: usize = 32;

/// Where the transport is in the exchange of a message.
#[derive(Debug, Clone, Copy, PartialEq, Eq, Structural)]
pub enum TransportState {
    /// Nothing received and nothing to send.
    Idle,
    /// Part of a command has arrived.
    Receiving,
    /// A response waits for bulk IN.
    ReadyToSend,
}

/// Requests and streams that the transport refuses.
#[derive(Debug, Clone, Copy, PartialEq, Eq, Structural)]
pub enum TransportError {
    /// A control request that a CCID reader does not answer.
    UnsupportedControlRequest { request_type: u8, request: u8 },
    /// A frame header announcing more than the maximum message length; holds
    /// the announced frame length.
    FrameTooLong(u64),
    /// A complete frame that is not a CCID command.
    InvalidFrame(CcidProtocolError),
}

/// The state of the transport.
pub struct TransportView {
    pub bridge: BridgeState,
    pub state: TransportState,
    /// Encoded responses waiting for bulk IN, oldest first.
    pub pending_in: Seq<Seq<u8>>,
    /// Slot change notifications waiting for interrupt IN, oldest first.
    pub pending_interrupt: Seq<Seq<u8>>,
    /// Bulk OUT bytes not yet cut into frames.
    pub out_buffer: Seq<u8>,
    pub next_frame_len: Option<usize>,
    /// The card presence last notified to the host.
    pub slot_present: bool,
    /// Sequence number of a bulk abort waiting for its control request.
    pub bulk_abort: Option<u8>,
    /// Slot and sequence number of a control abort waiting for its bulk abort.
    pub control_abort: Option<(u8, u8)>,
}

/// The frame length that a buffer's header announces.
pub open spec fn spec_frame_len(out: Seq<u8>) -> int {
    10 + declared_payload_len(out)
}

pub open spec fn max_frame_len() -> int {
    CCID_MAX_MESSAGE_LENGTH + 10
}

pub open spec fn derived_state(pending_in: Seq<Seq<u8>>, out: Seq<u8>) -> TransportState {
    if pending_in.len() > 0 {
        TransportState::ReadyToSend
    } else if out.len() == 0 {
        TransportState::Idle
    } else {
        TransportState::Receiving
    }
}

impl TransportView {
    /// The state tag follows the queues; the cached frame length is the one
    /// the buffered header announces; the response queue is bounded.
    pub open spec fn wf(self) -> bool {
        &&& self.state == derived_state(self.pending_in, self.out_buffer)
        &&& self.pending_in.len() <= MAX_PENDING_IN_FRAMES
        &&& self.cache_ok()
    }

    /// The cached frame length is the one that the buffered header announces.
    pub open spec fn cache_ok(self) -> bool {
        self.next_frame_len matches Some(n) ==> {
            &&& self.out_buffer.len() >= 10
            &&& n == spec_frame_len(self.out_buffer)
            &&& n <= max_frame_len()
        }
    }
}

pub open spec fn spec_update_state(t: TransportView) -> TransportView {
    if t.pending_in.len() > 0 {
        TransportView { state: TransportState::ReadyToSend, ..t }
    } else if t.out_buffer.len() == 0 {
        TransportView { state: TransportState::Idle, next_frame_len: None, ..t }
    } else {
        TransportView { state: TransportState::Receiving, ..t }
    }
}

/// The notification of a slot change: bit 0 tells whether a card is present,
/// bit 1 whether that changed since the last notification.
pub open spec fn spec_slot_presence(t: TransportView, present: bool) -> TransportView {
    if t.slot_present == present {
        TransportView {
            pending_interrupt: t.pending_interrupt.push(
                seq![
                    CCID_NOTIFY_SLOT_CHANGE,
                    if present {
                        1u8
                    } else {
                        0u8
                    },
                ],
            ),
            ..t
        }
    } else {
        TransportView {
            slot_present: present,
            pending_interrupt: t.pending_interrupt.push(
                seq![
                    CCID_NOTIFY_SLOT_CHANGE,
                    if present {
                        3u8
                    } else {
                        2u8
                    },
                ],
            ),
            ..t
        }
    }
}

/// Queues a response frame: a repeat of the last queued frame is dropped, and
/// a full queue is emptied first.
pub open spec fn spec_push_in(t: TransportView, frame: Seq<u8>) -> TransportView {
    if t.pending_in.len() > 0 && t.pending_in.last() == frame {
        t
    } else if t.pending_in.len() >= MAX_PENDING_IN_FRAMES {
        TransportView { pending_in: seq![frame], ..t }
    } else {
        TransportView { pending_in: t.pending_in.push(frame), ..t }
    }
}

pub open spec fn spec_enqueue(t: TransportView, frame: Seq<u8>, present: bool) -> TransportView {
    spec_update_state(spec_slot_presence(spec_push_in(t, frame), present))
}

/// Completing an abort: both halves forgotten, everything buffered in either
/// direction dropped, and the slot's answer to the abort queued.
pub open spec fn spec_finish_abort(t: TransportView, slot: u8, seq: u8) -> TransportView {
    let t1 = TransportView {
        bulk_abort: None,
        control_abort: None,
        out_buffer: Seq::empty(),
        next_frame_len: None,
        pending_in: Seq::empty(),
        ..t
    };
    spec_enqueue(
        t1,
        spec_encode_response(ok_status(slot, seq, t1.bridge)),
        t1.bridge.card is Some,
    )
}

/// A command received while an abort is pending is answered as aborted.
pub open spec fn spec_queue_aborted(t: TransportView, command: CommandView) -> TransportView {
    spec_enqueue(
        t,
        spec_encode_response(
            slot_status_response(
                command.slot(),
                command.seq(),
                t.bridge.icc_status(),
                CommandStatus::Failed,
                CMD_ABORTED_ERROR,
            ),
        ),
        t.bridge.card is Some,
    )
}

/// What one received command does to the transport.
pub open spec fn spec_process(t: TransportView, command: CommandView, o: ReaderOutcome) -> TransportView {
    match t.control_abort {
        Some((slot, seq)) => if command == (CommandView::Abort { slot, seq }) {
            spec_finish_abort(t, slot, seq)
        } else {
            spec_queue_aborted(t, command)
        },
        None => {
            let t1 = TransportView { bulk_abort: None, ..t };
            match command {
                CommandView::Abort { seq, .. } => TransportView { bulk_abort: Some(seq), ..t1 },
                _ => {
                    let (bridge, response) = spec_handle(t1.bridge, command, o);
                    spec_enqueue(
                        TransportView { bridge, ..t1 },
                        spec_encode_response(response),
                        bridge.card is Some,
                    )
                },
            }
        },
    }
}

/// What cutting the next frame off the bulk OUT buffer found.
pub enum Taken {
    Incomplete,
    TooLong(u64),
    Frame(Seq<u8>),
}

pub open spec fn spec_take(t: TransportView) -> (TransportView, Taken) {
    let out = t.out_buffer;
    if out.len() < 10 {
        (spec_update_state(TransportView { next_frame_len: None, ..t }), Taken::Incomplete)
    } else if spec_frame_len(out) > max_frame_len() {
        (
            spec_update_state(
                TransportView { out_buffer: Seq::empty(), next_frame_len: None, ..t },
            ),
            Taken::TooLong(spec_frame_len(out) as u64),
        )
    } else if out.len() < spec_frame_len(out) {
        (
            spec_update_state(
                TransportView { next_frame_len: Some(spec_frame_len(out) as usize), ..t },
            ),
            Taken::Incomplete,
        )
    } else {
        (
            spec_update_state(
                TransportView {
                    out_buffer: out.skip(spec_frame_len(out)),
                    next_frame_len: None,
                    ..t
                },
            ),
            Taken::Frame(out.take(spec_frame_len(out))),
        )
    }
}

/// Processing every complete frame in the bulk OUT buffer, in order; `os`
/// are the reader's answers during the successive commands.
#[verifier::opaque]
pub open spec fn spec_drain(t: TransportView, os: Seq<ReaderOutcome>) -> (
    TransportView,
    Result<(), TransportError>,
)
    decreases t.out_buffer.len(),
{
    let (t1, taken) = spec_take(t);
    match taken {
        Taken::Incomplete => (t1, Ok(())),
        Taken::TooLong(n) => (t1, Err(TransportError::FrameTooLong(n))),
        Taken::Frame(frame) => match spec_decode(frame) {
            Err(e) => (t1, Err(TransportError::InvalidFrame(e))),
            Ok(command) => {
                proof {
                    lemma_take_frame_shrinks(t);
                    lemma_process_out_len(t1, command, os[0]);
                }
                spec_drain(spec_process(t1, command, os[0]), os.drop_first())
            },
        },
    }
}

/// The calls that one received command makes on the reader: none while an
/// abort is pending or for a bulk abort, else those of the slot.
pub open spec fn process_calls<R>(t: TransportView, command: CommandView, calls: Seq<ReaderCall<R>>) -> bool {
    match t.control_abort {
        Some(_) => calls.len() == 0,
        None => match command {
            CommandView::Abort { .. } => calls.len() == 0,
            _ => command_calls(t.bridge, command, calls),
        },
    }
}

/// The reader's answers during successive commands, read off their calls.
pub open spec fn outcomes<R>(groups: Seq<Seq<ReaderCall<R>>>) -> Seq<ReaderOutcome> {
    groups.map_values(|calls: Seq<ReaderCall<R>>| outcome_of(calls))
}

/// The calls that draining the bulk OUT buffer makes, one group for each
/// command processed, in order.
#[verifier::opaque]
pub open spec fn drain_calls<R>(t: TransportView, groups: Seq<Seq<ReaderCall<R>>>) -> bool
    decreases t.out_buffer.len(),
{
    let (t1, taken) = spec_take(t);
    match taken {
        Taken::Frame(frame) => match spec_decode(frame) {
            Ok(command) => {
                proof {
                    lemma_take_frame_shrinks(t);
                    if groups.len() > 0 {
                        lemma_process_out_len(t1, command, outcome_of(groups[0]));
                    }
                }
                groups.len() > 0 && process_calls(t1, command, groups[0]) && drain_calls(
                    spec_process(t1, command, outcome_of(groups[0])),
                    groups.drop_first(),
                )
            },
            Err(_) => groups.len() == 0,
        },
        _ => groups.len() == 0,
    }
}

/// Draining from `t`, with the reader going from `from` to `to` through the
/// groups of calls `groups`, ends in `end` with `result`.
#[verifier::opaque]
pub open spec fn drained_with<R>(
    t: TransportView,
    from: R,
    to: R,
    groups: Seq<Seq<ReaderCall<R>>>,
    end: TransportView,
    result: Result<(), TransportError>,
) -> bool {
    &&& drain_calls(t, groups)
    &&& chain_all(from, to, groups)
    &&& spec_drain(t, outcomes(groups)) == (end, result)
}

/// A drain that stops at once makes no call.
proof fn lemma_drained_stop<R>(t: TransportView, r: R, end: TransportView, result: Result<(), TransportError>)
    requires
        spec_drain(t, Seq::<ReaderOutcome>::empty()) == (end, result),
        !(spec_take(t).1 matches Taken::Frame(frame) && spec_decode(frame) is Ok),
    ensures
        drained_with(t, r, r, Seq::<Seq<ReaderCall<R>>>::empty(), end, result),
{
    reveal(drained_with);
    reveal(drain_calls);
    let none = Seq::<Seq<ReaderCall<R>>>::empty();
    assert(outcomes(none) =~= Seq::<ReaderOutcome>::empty());
}

/// One command of a drain followed by the rest of it.
proof fn lemma_drained_step<R>(
    current: TransportView,
    after_take: TransportView,
    frame: Seq<u8>,
    command: CommandView,
    calls: Seq<ReaderCall<R>>,
    next: TransportView,
    r0: R,
    r1: R,
    r2: R,
    rest: Seq<Seq<ReaderCall<R>>>,
    end: TransportView,
    result: Result<(), TransportError>,
)
    requires
        spec_take(current) == (after_take, Taken::Frame(frame)),
        spec_decode(frame) == Ok::<CommandView, CcidProtocolError>(command),
        process_calls(after_take, command, calls),
        calls_chain(r0, r1, calls),
        next == spec_process(after_take, command, outcome_of(calls)),
        drained_with(next, r1, r2, rest, end, result),
    ensures
        drained_with(current, r0, r2, seq![calls] + rest, end, result),
{
    reveal(drained_with);
    let groups = seq![calls] + rest;
    lemma_drain_step(current, after_take, frame, command, outcome_of(calls), next);
    assert(outcomes(groups) =~= seq![outcome_of(calls)] + outcomes(rest));
    assert(groups[0] == calls);
    assert(groups.drop_first() =~= rest);
    reveal(drain_calls);
    assert(drain_calls(current, groups));
    lemma_calls_chain_end(r0, r1, calls);
    assert(chain_all(r0, r2, groups));
}

/// Each group of calls was made through the matching group of references.
pub open spec fn groups_made_through<R: NfcReader>(
    groups: Seq<Seq<ReaderCall<R>>>,
    refs: Seq<Seq<&mut R>>,
) -> bool {
    &&& refs.len() == groups.len()
    &&& forall|k: int|
        #![trigger groups[k]]
        0 <= k < groups.len() ==> made_through(groups[k], refs[k])
}

/// The drain stops at the first cut that yields no command.
proof fn lemma_drain_stop(current: TransportView, after_take: TransportView, os: Seq<ReaderOutcome>)
    requires
        spec_take(current).0 == after_take,
    ensures
        spec_take(current).1 is Incomplete ==> spec_drain(current, os) == (
            after_take,
            Ok::<(), TransportError>(()),
        ),
        spec_take(current).1 matches Taken::TooLong(n) ==> spec_drain(current, os) == (
            after_take,
            Err::<(), TransportError>(TransportError::FrameTooLong(n)),
        ),
        spec_take(current).1 matches Taken::Frame(frame) ==> (spec_decode(frame) matches Err(e)
            ==> spec_drain(current, os) == (
            after_take,
            Err::<(), TransportError>(TransportError::InvalidFrame(e)),
        )),
{
    reveal_with_fuel(spec_drain, 1);
}

/// Every frame cut from the bulk OUT stream is a well-formed CCID message:
/// its length field matches its payload, so it always decodes.
pub proof fn lemma_cut_frames_decode(t: TransportView)
    ensures
        spec_take(t).1 matches Taken::Frame(frame) ==> spec_decode(frame) is Ok,
{
    if let Taken::Frame(frame) = spec_take(t).1 {
        let out = t.out_buffer;
        assert(frame == out.take(spec_frame_len(out)));
        assert(frame[1] == out[1] && frame[2] == out[2] && frame[3] == out[3] && frame[4] == out[4]);
        assert(declared_payload_len(frame) == declared_payload_len(out));
    }
}

/// End to end: one complete command message (other than an abort) arriving
/// while no abort is pending is handed to the slot, the slot's response is
/// queued for bulk IN as the response queue rule says, the card presence is
/// notified, and the bulk OUT buffer is left empty.
pub proof fn lemma_command_message_end_to_end(
    t: TransportView,
    message_type: u8,
    slot: u8,
    seq: u8,
    p0: u8,
    p1: u8,
    p2: u8,
    payload: Seq<u8>,
    os: Seq<ReaderOutcome>,
)
    requires
        t.out_buffer.len() == 0,
        t.control_abort is None,
        payload.len() <= CCID_MAX_MESSAGE_LENGTH,
        os.len() > 0,
        !(super::protocol::command_from_parts(message_type, slot, seq, p0, p1, p2, payload) is Abort),
    ensures
        ({
            let frame = super::protocol::spec_header(message_type, payload.len(), slot, seq, p0, p1, p2)
                + payload;
            let command = super::protocol::command_from_parts(
                message_type,
                slot,
                seq,
                p0,
                p1,
                p2,
                payload,
            );
            let (bridge, response) = spec_handle(t.bridge, command, os[0]);
            let (t1, result) = spec_drain(spec_receive(t, frame), os);
            &&& result == Ok::<(), TransportError>(())
            &&& t1.out_buffer.len() == 0
            &&& t1.bridge == bridge
            &&& t1.bulk_abort is None
            &&& t1.pending_in == spec_push_in(t, spec_encode_response(response)).pending_in
            &&& t1.pending_interrupt == spec_slot_presence(t, bridge.card is Some).pending_interrupt
            &&& t1.slot_present == (bridge.card is Some)
        }),
{
    let frame = super::protocol::spec_header(message_type, payload.len(), slot, seq, p0, p1, p2)
        + payload;
    let command = super::protocol::command_from_parts(message_type, slot, seq, p0, p1, p2, payload);
    super::protocol::lemma_decode_of_framed_message(message_type, slot, seq, p0, p1, p2, payload);
    super::protocol::lemma_header_length_roundtrip(payload.len(), message_type, slot, seq, p0, p1, p2);
    let r = spec_receive(t, frame);
    assert(r.out_buffer =~= frame);
    assert(declared_payload_len(frame) == declared_payload_len(
        super::protocol::spec_header(message_type, payload.len(), slot, seq, p0, p1, p2),
    ));
    assert(frame.take(spec_frame_len(frame)) =~= frame);
    assert(frame.skip(spec_frame_len(frame)) =~= Seq::<u8>::empty());
    let (t1, taken) = spec_take(r);
    assert(taken == Taken::Frame(frame));
    let t2 = spec_process(t1, command, os[0]);
    assert(t2.out_buffer.len() == 0);
    reveal_with_fuel(spec_drain, 2);
    assert(spec_drain(r, os) == spec_drain(t2, os.drop_first()));
}

/// End to end: an APDU sent in one XfrBlock message to a powered card, with
/// no abort pending and nothing queued, is answered by exactly one queued
/// DataBlock that carries the card's response, and the bulk OUT buffer is
/// left empty.
pub proof fn lemma_apdu_exchange_end_to_end(
    t: TransportView,
    slot: u8,
    seq: u8,
    bwi: u8,
    level_parameter: u16,
    apdu: Seq<u8>,
    answer: Seq<u8>,
    os: Seq<ReaderOutcome>,
)
    requires
        t.out_buffer.len() == 0,
        t.pending_in.len() == 0,
        t.control_abort is None,
        t.bridge.card is Some,
        t.bridge.slot_powered,
        apdu.len() <= CCID_MAX_MESSAGE_LENGTH,
        os.len() > 0,
        os[0].exchange == Ok::<Seq<u8>, ()>(answer),
    ensures
        ({
            let frame = super::protocol::spec_header(
                super::protocol::PC_TO_RDR_XFR_BLOCK,
                apdu.len(),
                slot,
                seq,
                bwi,
                (level_parameter % 256) as u8,
                (level_parameter / 256) as u8,
            ) + apdu;
            let (t1, result) = spec_drain(spec_receive(t, frame), os);
            &&& result == Ok::<(), TransportError>(())
            &&& t1.out_buffer.len() == 0
            &&& t1.bridge == t.bridge
            &&& t1.pending_in == seq![
                spec_encode_response(
                    super::protocol::ResponseView::DataBlock {
                        slot,
                        seq,
                        status: SlotStatus {
                            icc: super::protocol::IccStatus::Active,
                            command: CommandStatus::NoError,
                        },
                        error: 0,
                        chain_parameter: 0,
                        payload: answer,
                    },
                ),
            ]
        }),
{
    let p1 = (level_parameter % 256) as u8;
    let p2 = (level_parameter / 256) as u8;
    let frame = super::protocol::spec_header(
        super::protocol::PC_TO_RDR_XFR_BLOCK,
        apdu.len(),
        slot,
        seq,
        bwi,
        p1,
        p2,
    ) + apdu;
    super::protocol::lemma_decode_of_framed_message(
        super::protocol::PC_TO_RDR_XFR_BLOCK,
        slot,
        seq,
        bwi,
        p1,
        p2,
        apdu,
    );
    super::protocol::lemma_header_length_roundtrip(
        apdu.len(),
        super::protocol::PC_TO_RDR_XFR_BLOCK,
        slot,
        seq,
        bwi,
        p1,
        p2,
    );
    assert((p1 + 256 * p2) as u16 == level_parameter);
    let r = spec_receive(t, frame);
    assert(r.out_buffer =~= frame);
    assert(declared_payload_len(frame) == declared_payload_len(
        super::protocol::spec_header(super::protocol::PC_TO_RDR_XFR_BLOCK, apdu.len(), slot, seq, bwi, p1, p2),
    ));
    assert(spec_frame_len(frame) == 10 + apdu.len());
    assert(frame.take(spec_frame_len(frame)) =~= frame);
    assert(frame.skip(spec_frame_len(frame)) =~= Seq::<u8>::empty());
    let (t1, taken) = spec_take(r);
    assert(taken == Taken::Frame(frame));
    let command = CommandView::XfrBlock { slot, seq, bwi, level_parameter, payload: apdu };
    assert(spec_decode(frame) == Ok::<CommandView, CcidProtocolError>(command));
    let t2 = spec_process(t1, command, os[0]);
    assert(t2.out_buffer.len() == 0);
    assert(t2.pending_in =~= seq![
        spec_encode_response(
            super::protocol::ResponseView::DataBlock {
                slot,
                seq,
                status: SlotStatus {
                    icc: super::protocol::IccStatus::Active,
                    command: CommandStatus::NoError,
                },
                error: 0,
                chain_parameter: 0,
                payload: answer,
            },
        ),
    ]);
    reveal_with_fuel(spec_drain, 2);
    assert(spec_drain(r, os) == spec_drain(t2, os.drop_first()));
}

/// Cutting off a frame shortens the buffer.
pub proof fn lemma_take_frame_shrinks(t: TransportView)
    ensures
        spec_take(t).1 is Frame ==> spec_take(t).0.out_buffer.len() < t.out_buffer.len(),
        spec_take(t).0.out_buffer.len() <= t.out_buffer.len(),
{
}

/// Processing a command never adds to the bulk OUT buffer.
pub proof fn lemma_process_out_len(t: TransportView, command: CommandView, o: ReaderOutcome)
    ensures
        spec_process(t, command, o).out_buffer.len() <= t.out_buffer.len(),
{
}

/// One step of the drain: a complete frame, decoded and processed with the
/// reader's answer `o`, leaves the rest of the drain to the remaining answers.
proof fn lemma_drain_step(
    current: TransportView,
    after_take: TransportView,
    frame: Seq<u8>,
    command: CommandView,
    o: ReaderOutcome,
    next: TransportView,
)
    requires
        spec_take(current) == (after_take, Taken::Frame(frame)),
        spec_decode(frame) == Ok::<CommandView, CcidProtocolError>(command),
        next == spec_process(after_take, command, o),
    ensures
        forall|os: Seq<ReaderOutcome>|
            #[trigger] spec_drain(current, seq![o] + os) == spec_drain(next, os),
{
    reveal(spec_drain);
    assert forall|os: Seq<ReaderOutcome>|
        #[trigger] spec_drain(current, seq![o] + os) == spec_drain(next, os) by {
        assert((seq![o] + os)[0] == o);
        assert((seq![o] + os).drop_first() =~= os);
    }
}

/// Appending a bulk OUT packet to the buffered bytes.
pub open spec fn spec_receive(t: TransportView, payload: Seq<u8>) -> TransportView {
    spec_update_state(TransportView { out_buffer: t.out_buffer + payload, ..t })
}

/// Handing out the oldest response in a packet of at most `max_len` bytes.
/// A longer frame is cut and its rest stays first in the queue; a frame that
/// fills whole packets is followed by an empty packet that ends the transfer.
pub open spec fn spec_bulk_in(t: TransportView, max_len: usize) -> (TransportView, Seq<u8>) {
    if t.pending_in.len() == 0 {
        (spec_update_state(t), Seq::empty())
    } else {
        let frame = t.pending_in[0];
        let rest = t.pending_in.drop_first();
        if frame.len() <= max_len {
            let queue = if max_len != 0 && frame.len() > 0 && frame.len() % (max_len as nat) == 0 {
                seq![Seq::<u8>::empty()] + rest
            } else {
                rest
            };
            (spec_update_state(TransportView { pending_in: queue, ..t }), frame)
        } else {
            (
                spec_update_state(
                    TransportView { pending_in: seq![frame.skip(max_len as int)] + rest, ..t },
                ),
                frame.take(max_len as int),
            )
        }
    }
}

pub open spec fn spec_expect_abort(t: TransportView, slot: u8, seq: u8) -> TransportView {
    if slot != 0 {
        t
    } else if t.bulk_abort == Some(seq) {
        spec_finish_abort(t, slot, seq)
    } else {
        TransportView { control_abort: Some((slot, seq)), ..t }
    }
}

pub open spec fn clock_frequency_bytes() -> Seq<u8> {
    seq![0xfcu8, 0x0d, 0x00, 0x00]
}

pub open spec fn data_rate_bytes() -> Seq<u8> {
    seq![0x80u8, 0x25, 0x00, 0x00]
}

/// The answer to a class-specific control request.
pub open spec fn spec_control_request(t: TransportView, request_type: u8, request: u8, value: u16) -> (
    TransportView,
    Result<Seq<u8>, TransportError>,
) {
    if request_type == 0xa1 && request == CCID_GET_CLOCK_FREQUENCIES {
        (t, Ok(clock_frequency_bytes()))
    } else if request_type == 0xa1 && request == CCID_GET_DATA_RATES {
        (t, Ok(data_rate_bytes()))
    } else if request_type == 0x21 && request == CCID_ABORT {
        (spec_expect_abort(t, (value % 256) as u8, (value / 256) as u8), Ok(Seq::empty()))
    } else {
        (t, Err(TransportError::UnsupportedControlRequest { request_type, request }))
    }
}

/// Answering an interrupt IN: the card presence is refreshed and notified,
/// then the oldest notification is handed out.
pub open spec fn spec_interrupt_in(t: TransportView, poll: Result<Option<CardView>, ()>) -> (
    TransportView,
    Seq<u8>,
) {
    let (bridge, refreshed) = super::bridge::spec_refresh(t.bridge, poll);
    let t1 = TransportView { bridge, ..t };
    let t2 = match refreshed {
        Ok(present) => spec_slot_presence(t1, present),
        Err(()) => t1,
    };
    if t2.pending_interrupt.len() > 0 {
        (
            TransportView { pending_interrupt: t2.pending_interrupt.drop_first(), ..t2 },
            t2.pending_interrupt[0],
        )
    } else {
        (t2, Seq::empty())
    }
}

/// Two transport states that differ only in the cached frame length and the
/// state tag are cut alike: cutting recomputes both.
proof fn lemma_take_ignores_cache(x: TransportView, y: TransportView)
    requires
        x.bridge == y.bridge,
        x.pending_in == y.pending_in,
        x.pending_interrupt == y.pending_interrupt,
        x.out_buffer == y.out_buffer,
        x.slot_present == y.slot_present,
        x.bulk_abort == y.bulk_abort,
        x.control_abort == y.control_abort,
    ensures
        spec_take(x) == spec_take(y),
{
}

/// Packet boundaries do not matter: when a first bulk OUT packet does not
/// complete a frame, nothing is answered, and the second packet then leads
/// to the same state and result as one packet holding both.
pub proof fn lemma_split_delivery(t: TransportView, a: Seq<u8>, b: Seq<u8>, os: Seq<ReaderOutcome>)
    requires
        spec_take(spec_receive(t, a)).1 is Incomplete,
    ensures
        ({
            let (t1, r1) = spec_drain(spec_receive(t, a), os);
            &&& r1 == Ok::<(), TransportError>(())
            &&& t1.pending_in == t.pending_in
            &&& t1.bridge == t.bridge
            &&& spec_drain(spec_receive(t1, b), os) == spec_drain(spec_receive(t, a + b), os)
        }),
{
    reveal_with_fuel(spec_drain, 1);
    let t1 = spec_take(spec_receive(t, a)).0;
    assert(spec_receive(t1, b).out_buffer =~= spec_receive(t, a + b).out_buffer);
    lemma_take_ignores_cache(spec_receive(t1, b), spec_receive(t, a + b));
    assert(spec_drain(spec_receive(t1, b), os) == spec_drain(spec_receive(t, a + b), os));
}

/// The transport after bulk OUT packets delivered one at a time, each one
/// drained before the next arrives.
pub open spec fn receive_each(t: TransportView, packets: Seq<Seq<u8>>) -> TransportView
    decreases packets.len(),
{
    if packets.len() == 0 {
        t
    } else {
        receive_each(
            spec_drain(spec_receive(t, packets[0]), Seq::<ReaderOutcome>::empty()).0,
            packets.drop_first(),
        )
    }
}

/// Whether none of the packets, delivered one at a time, completes a frame.
pub open spec fn none_complete(t: TransportView, packets: Seq<Seq<u8>>) -> bool
    decreases packets.len(),
{
    if packets.len() == 0 {
        true
    } else {
        spec_take(spec_receive(t, packets[0])).1 is Incomplete && none_complete(
            spec_drain(spec_receive(t, packets[0]), Seq::<ReaderOutcome>::empty()).0,
            packets.drop_first(),
        )
    }
}

/// Packet boundaries do not matter, however many packets a frame is split
/// into: while the packets complete no frame, each is answered with nothing
/// and only buffered, and the packet that follows them then leads to the same
/// state and result as one packet holding all of them.
pub proof fn lemma_split_delivery_any(
    t: TransportView,
    packets: Seq<Seq<u8>>,
    last: Seq<u8>,
    os: Seq<ReaderOutcome>,
)
    requires
        none_complete(t, packets),
    ensures
        receive_each(t, packets).pending_in == t.pending_in,
        receive_each(t, packets).bridge == t.bridge,
        receive_each(t, packets).out_buffer == t.out_buffer + packets.flatten(),
        spec_drain(spec_receive(receive_each(t, packets), last), os) == spec_drain(
            spec_receive(t, packets.flatten() + last),
            os,
        ),
    decreases packets.len(),
{
    if packets.len() == 0 {
        assert(t.out_buffer + packets.flatten() =~= t.out_buffer);
        assert(packets.flatten() + last =~= last);
    } else {
        let p = packets[0];
        let t1 = spec_drain(spec_receive(t, p), Seq::<ReaderOutcome>::empty()).0;
        lemma_drain_stop(spec_receive(t, p), spec_take(spec_receive(t, p)).0, Seq::<ReaderOutcome>::empty());
        lemma_drain_stop(spec_receive(t, p), spec_take(spec_receive(t, p)).0, os);
        let rest = packets.drop_first();
        lemma_split_delivery_any(t1, rest, last, os);
        assert(packets.flatten() == p + rest.flatten());
        assert(t1.out_buffer == t.out_buffer + p);
        assert(t.out_buffer + packets.flatten() =~= t1.out_buffer + rest.flatten());
        let x = spec_receive(t1, rest.flatten() + last);
        let y = spec_receive(t, packets.flatten() + last);
        assert(x.out_buffer =~= y.out_buffer);
        lemma_take_ignores_cache(x, y);
        reveal_with_fuel(spec_drain, 1);
        assert(spec_drain(x, os) == spec_drain(y, os));
    }
}

/// How many commands the complete frames at the start of a bulk OUT buffer
/// hold: frames are cut off one after the other until one is incomplete,
/// too long or not a command.
pub open spec fn frame_count(out: Seq<u8>) -> nat
    decreases out.len(),
{
    if out.len() < 10 || spec_frame_len(out) > max_frame_len() || out.len() < spec_frame_len(out) {
        0
    } else if spec_decode(out.take(spec_frame_len(out))) is Err {
        0
    } else {
        1 + frame_count(out.skip(spec_frame_len(out)))
    }
}

/// `longer` is `t` with the bytes `more` buffered after its bulk OUT bytes;
/// the cached frame length and the state tag may differ.
pub open spec fn extended_by(longer: TransportView, t: TransportView, more: Seq<u8>) -> bool {
    &&& longer.out_buffer == t.out_buffer + more
    &&& longer.bridge == t.bridge
    &&& longer.pending_in == t.pending_in
    &&& longer.pending_interrupt == t.pending_interrupt
    &&& longer.slot_present == t.slot_present
    &&& longer.bulk_abort == t.bulk_abort
    &&& longer.control_abort == t.control_abort
}

/// Two transports that are cut alike are drained alike.
proof fn lemma_drain_same_take(x: TransportView, y: TransportView, os: Seq<ReaderOutcome>)
    requires
        spec_take(x) == spec_take(y),
    ensures
        spec_drain(x, os) == spec_drain(y, os),
{
    reveal_with_fuel(spec_drain, 1);
}

/// More bytes after a complete frame do not change how it is cut.
proof fn lemma_take_extended(t: TransportView, longer: TransportView, more: Seq<u8>)
    requires
        extended_by(longer, t, more),
        spec_take(t).1 is Frame,
    ensures
        spec_take(longer).1 == spec_take(t).1,
        extended_by(spec_take(longer).0, spec_take(t).0, more),
{
    let out = t.out_buffer;
    let lout = longer.out_buffer;
    assert(lout[1] == out[1] && lout[2] == out[2] && lout[3] == out[3] && lout[4] == out[4]);
    let n = spec_frame_len(out);
    assert(spec_frame_len(lout) == n);
    assert(lout.take(n) =~= out.take(n));
    assert(lout.skip(n) =~= out.skip(n) + more);
}

/// Processing a command does not look at the bulk OUT bytes while no control
/// abort is pending.
proof fn lemma_process_extended(
    t: TransportView,
    longer: TransportView,
    more: Seq<u8>,
    command: CommandView,
    o: ReaderOutcome,
)
    requires
        extended_by(longer, t, more),
        t.control_abort is None,
    ensures
        extended_by(spec_process(longer, command, o), spec_process(t, command, o), more),
        spec_process(t, command, o).control_abort is None,
{
}

/// Draining a buffer with more bytes after it processes the same commands,
/// with the same answers, and then goes on as if the extra bytes had arrived
/// afterwards.
proof fn lemma_drain_extended(
    t: TransportView,
    longer: TransportView,
    more: Seq<u8>,
    os1: Seq<ReaderOutcome>,
    os2: Seq<ReaderOutcome>,
)
    requires
        extended_by(longer, t, more),
        t.control_abort is None,
        spec_drain(t, os1).1 is Ok,
        os1.len() == frame_count(t.out_buffer),
    ensures
        spec_drain(longer, os1 + os2) == spec_drain(spec_receive(spec_drain(t, os1).0, more), os2),
    decreases t.out_buffer.len(),
{
    let (t1, taken) = spec_take(t);
    lemma_drain_stop(t, t1, os1);
    let frame_command: Option<(Seq<u8>, CommandView)> = match taken {
        Taken::Frame(frame) => match spec_decode(frame) {
            Ok(command) => Some((frame, command)),
            Err(_) => None,
        },
        _ => None,
    };
    if let Some((frame, command)) = frame_command {
        {
            let n = spec_frame_len(t.out_buffer);
            assert(frame == t.out_buffer.take(n));
            assert(os1.len() > 0);
            lemma_take_extended(t, longer, more);
            let l1 = spec_take(longer).0;
            let o = os1[0];
            let p = spec_process(t1, command, o);
            let lp = spec_process(l1, command, o);
            lemma_process_extended(t1, l1, more, command, o);
            lemma_take_frame_shrinks(t);
            lemma_process_out_len(t1, command, o);
            lemma_drain_step(t, t1, frame, command, o, p);
            lemma_drain_step(longer, l1, frame, command, o, lp);
            assert(os1 =~= seq![o] + os1.drop_first());
            assert(os1 + os2 =~= seq![o] + (os1.drop_first() + os2));
            assert(t.out_buffer.skip(n) == t1.out_buffer);
            assert(p.out_buffer == t1.out_buffer);
            lemma_drain_extended(p, lp, more, os1.drop_first(), os2);
        }
    } else {
        assert(os1.len() == 0);
        assert(os1 + os2 =~= os2);
        let y = spec_receive(t1, more);
        lemma_take_ignores_cache(longer, y);
        lemma_drain_same_take(longer, y, os2);
    }
}

/// Two transports that are cut alike make the same calls when drained.
proof fn lemma_drain_calls_same_take<R>(x: TransportView, y: TransportView, groups: Seq<Seq<ReaderCall<R>>>)
    requires
        spec_take(x) == spec_take(y),
        drain_calls(y, groups),
    ensures
        drain_calls(x, groups),
{
    reveal(drain_calls);
}

/// The calls of a drain that starts with a command.
proof fn lemma_drain_calls_frame<R>(
    t: TransportView,
    after_take: TransportView,
    frame: Seq<u8>,
    command: CommandView,
    groups: Seq<Seq<ReaderCall<R>>>,
)
    requires
        spec_take(t) == (after_take, Taken::Frame(frame)),
        spec_decode(frame) == Ok::<CommandView, CcidProtocolError>(command),
        groups.len() > 0,
    ensures
        drain_calls(t, groups) <==> (process_calls(after_take, command, groups[0]) && drain_calls(
            spec_process(after_take, command, outcome_of(groups[0])),
            groups.drop_first(),
        )),
{
    reveal(drain_calls);
}

/// A drain that stops at once makes no call.
proof fn lemma_drain_calls_stop<R>(t: TransportView, groups: Seq<Seq<ReaderCall<R>>>)
    requires
        !(spec_take(t).1 matches Taken::Frame(frame) && spec_decode(frame) is Ok),
    ensures
        drain_calls(t, groups) <==> groups.len() == 0,
{
    reveal(drain_calls);
}

/// Draining a buffer with more bytes after it makes the calls of draining
/// the buffer, followed by the calls of draining the extra bytes afterwards.
proof fn lemma_drain_calls_extended<R>(
    t: TransportView,
    longer: TransportView,
    more: Seq<u8>,
    g1: Seq<Seq<ReaderCall<R>>>,
    g2: Seq<Seq<ReaderCall<R>>>,
)
    requires
        extended_by(longer, t, more),
        t.control_abort is None,
        spec_drain(t, outcomes(g1)).1 is Ok,
        g1.len() == frame_count(t.out_buffer),
        drain_calls(t, g1),
        drain_calls(spec_receive(spec_drain(t, outcomes(g1)).0, more), g2),
    ensures
        drain_calls(longer, g1 + g2),
    decreases t.out_buffer.len(),
{
    let (t1, taken) = spec_take(t);
    lemma_drain_stop(t, t1, outcomes(g1));
    let frame_command: Option<(Seq<u8>, CommandView)> = match taken {
        Taken::Frame(frame) => match spec_decode(frame) {
            Ok(command) => Some((frame, command)),
            Err(_) => None,
        },
        _ => None,
    };
    if let Some((frame, command)) = frame_command {
        let n = spec_frame_len(t.out_buffer);
        assert(frame == t.out_buffer.take(n));
        assert(g1.len() > 0);
        lemma_take_extended(t, longer, more);
        let l1 = spec_take(longer).0;
        let o = outcome_of(g1[0]);
        assert(outcomes(g1)[0] == o);
        let p = spec_process(t1, command, o);
        let lp = spec_process(l1, command, o);
        lemma_process_extended(t1, l1, more, command, o);
        lemma_take_frame_shrinks(t);
        lemma_process_out_len(t1, command, o);
        lemma_drain_step(t, t1, frame, command, o, p);
        assert(outcomes(g1) =~= seq![o] + outcomes(g1.drop_first()));
        assert(t.out_buffer.skip(n) == t1.out_buffer);
        assert(p.out_buffer == t1.out_buffer);
        lemma_drain_calls_frame(t, t1, frame, command, g1);
        lemma_drain_calls_extended(p, lp, more, g1.drop_first(), g2);
        let g = g1 + g2;
        assert(g[0] == g1[0]);
        assert(g.drop_first() =~= g1.drop_first() + g2);
        lemma_drain_calls_frame(longer, l1, frame, command, g);
    } else {
        lemma_drain_calls_stop(t, g1);
        assert(g1.len() == 0);
        assert(g1 + g2 =~= g2);
        let y = spec_receive(t1, more);
        lemma_take_ignores_cache(longer, y);
        lemma_drain_calls_same_take(longer, y, g2);
    }
}

/// Packet boundaries do not matter, even where packets complete frames:
/// delivering `a` and then `b` makes the same calls on the reader for the same
/// commands in the same order, and with the same answers ends in the same
/// state and result, as delivering `a + b` at once. This holds when no control abort is
/// pending, since completing an abort drops the bytes buffered after it.
pub proof fn lemma_split_delivery_frames<R>(
    t: TransportView,
    a: Seq<u8>,
    b: Seq<u8>,
    g1: Seq<Seq<ReaderCall<R>>>,
    g2: Seq<Seq<ReaderCall<R>>>,
)
    requires
        t.control_abort is None,
        spec_drain(spec_receive(t, a), outcomes(g1)).1 is Ok,
        g1.len() == frame_count(t.out_buffer + a),
    ensures
        spec_drain(spec_receive(spec_drain(spec_receive(t, a), outcomes(g1)).0, b), outcomes(g2))
            == spec_drain(spec_receive(t, a + b), outcomes(g1 + g2)),
        drain_calls(spec_receive(t, a), g1) && drain_calls(
            spec_receive(spec_drain(spec_receive(t, a), outcomes(g1)).0, b),
            g2,
        ) ==> drain_calls(spec_receive(t, a + b), g1 + g2),
{
    assert(spec_receive(t, a + b).out_buffer =~= spec_receive(t, a).out_buffer + b);
    assert(outcomes(g1 + g2) =~= outcomes(g1) + outcomes(g2));
    lemma_drain_extended(spec_receive(t, a), spec_receive(t, a + b), b, outcomes(g1), outcomes(g2));
    if drain_calls(spec_receive(t, a), g1) && drain_calls(
        spec_receive(spec_drain(spec_receive(t, a), outcomes(g1)).0, b),
        g2,
    ) {
        lemma_drain_calls_extended(spec_receive(t, a), spec_receive(t, a + b), b, g1, g2);
    }
}

/// Packets handed out by `n` successive bulk IN requests of at most
/// `max_len` bytes each, and the transport afterwards.
pub open spec fn bulk_in_run(t: TransportView, max_len: usize, n: nat) -> (TransportView, Seq<Seq<u8>>)
    decreases n,
{
    if n == 0 {
        (t, Seq::empty())
    } else {
        let (t1, packet) = spec_bulk_in(t, max_len);
        let (t2, packets) = bulk_in_run(t1, max_len, (n - 1) as nat);
        (t2, seq![packet] + packets)
    }
}

/// Bulk IN over any number of requests neither loses, reorders nor invents
/// bytes: the packets handed out, followed by what is still queued, are the
/// bytes that were queued, and no packet is longer than asked.
pub proof fn lemma_bulk_in_run_preserves_bytes(t: TransportView, max_len: usize, n: nat)
    ensures
        ({
            let (t2, packets) = bulk_in_run(t, max_len, n);
            &&& packets.flatten() + t2.pending_in.flatten() == t.pending_in.flatten()
            &&& packets.len() == n
            &&& forall|i: int| #![trigger packets[i]] 0 <= i < n ==> packets[i].len() <= max_len
        }),
    decreases n,
{
    if n > 0 {
        let (t1, packet) = spec_bulk_in(t, max_len);
        lemma_bulk_in_run_preserves_bytes(t1, max_len, (n - 1) as nat);
        let (t2, packets) = bulk_in_run(t1, max_len, (n - 1) as nat);
        let all = seq![packet] + packets;
        assert(all[0] == packet);
        assert(all.drop_first() =~= packets);
        assert(all.flatten() == packet + packets.flatten());
        if t.pending_in.len() == 0 {
            assert(packet =~= Seq::<u8>::empty());
            assert(t1.pending_in =~= t.pending_in);
            assert(packet + t1.pending_in.flatten() =~= t.pending_in.flatten());
        } else {
            lemma_bulk_in_preserves_bytes(t, max_len);
            assert(t.pending_in.flatten() == t.pending_in[0] + t.pending_in.drop_first().flatten());
            assert(t1.pending_in.flatten() == t1.pending_in[0] + t1.pending_in.drop_first().flatten()
                || t1.pending_in.len() == t.pending_in.len() - 1);
            if t1.pending_in.len() == t.pending_in.len() {
                assert(packet + t1.pending_in.flatten() =~= t.pending_in.flatten());
            } else {
                assert(packet + t1.pending_in.flatten() =~= t.pending_in.flatten());
            }
        }
        assert(all.flatten() + t2.pending_in.flatten() =~= t.pending_in.flatten());
        assert forall|i: int| #![trigger all[i]] 0 <= i < n implies all[i].len() <= max_len by {
            if i > 0 {
                assert(all[i] == packets[i - 1]);
            }
        }
    }
}

/// Where the packets of one response end: with `max_len` > 0, the first
/// queued frame of `n` bytes is handed out by exactly `n / max_len + 1`
/// successive bulk IN requests, as full packets of `max_len` bytes in order
/// followed by one shorter packet (empty when `n` is a multiple of
/// `max_len`), and only then is the next frame first in the queue.
pub proof fn lemma_bulk_in_frame_packets(t: TransportView, max_len: usize)
    requires
        t.pending_in.len() > 0,
        max_len > 0,
    ensures
        ({
            let frame = t.pending_in[0];
            let n = frame.len() as int;
            let m = max_len as int;
            let k = n / m;
            let (t2, packets) = bulk_in_run(t, max_len, (k + 1) as nat);
            &&& packets.len() == k + 1
            &&& forall|i: int|
                #![trigger packets[i]]
                0 <= i < k ==> packets[i] == frame.subrange(i * m, i * m + m)
            &&& packets[k] == frame.subrange(k * m, n)
            &&& packets[k].len() < m
            &&& t2.pending_in == t.pending_in.drop_first()
        }),
    decreases t.pending_in[0].len(),
{
    let frame = t.pending_in[0];
    let rest = t.pending_in.drop_first();
    let n = frame.len() as int;
    let m = max_len as int;
    let k = n / m;
    let (t1, packet) = spec_bulk_in(t, max_len);
    if n > m {
        assert(packet == frame.take(m));
        assert(t1.pending_in == seq![frame.skip(m)] + rest);
        assert(t1.pending_in[0] == frame.skip(m));
        assert(t1.pending_in.drop_first() =~= rest);
        lemma_bulk_in_frame_packets(t1, max_len);
        let n1 = n - m;
        let k1 = n1 / m;
        assert(k1 == k - 1) by (nonlinear_arith)
            requires
                n > m,
                m > 0,
                k == n / m,
                k1 == (n - m) / m,
        ;
        let (t2, ps1) = bulk_in_run(t1, max_len, (k1 + 1) as nat);
        assert(bulk_in_run(t, max_len, (k + 1) as nat) == (t2, seq![packet] + ps1));
        let packets = seq![packet] + ps1;
        let f1 = frame.skip(m);
        assert forall|i: int| #![trigger packets[i]] 0 <= i < k implies packets[i] == frame.subrange(
            i * m,
            i * m + m,
        ) by {
            if i == 0 {
                assert(packets[0] == packet);
                assert(i * m == 0) by (nonlinear_arith)
                    requires
                        i == 0,
                ;
                assert(frame.take(m) =~= frame.subrange(0, m));
            } else {
                let a = (i - 1) * m;
                assert(a + m == i * m) by (nonlinear_arith)
                    requires
                        a == (i - 1) * m,
                ;
                assert(i * m + m <= n) by (nonlinear_arith)
                    requires
                        i < k,
                        k == n / m,
                        m > 0,
                        n >= 0,
                ;
                assert(a >= 0) by (nonlinear_arith)
                    requires
                        a == (i - 1) * m,
                        i >= 1,
                        m > 0,
                ;
                assert(packets[i] == ps1[i - 1]);
                assert(i - 1 < k1);
                assert(ps1[i - 1] == f1.subrange(a, a + m));
                assert(f1.subrange(a, a + m) =~= frame.subrange(i * m, i * m + m));
            }
        }
        assert(packets[k] == ps1[k1]);
        assert(k1 * m + m == k * m) by (nonlinear_arith)
            requires
                k1 == k - 1,
        ;
        assert(k * m <= n) by (nonlinear_arith)
            requires
                k == n / m,
                m > 0,
                n >= 0,
        ;
        assert(f1.subrange(k1 * m, n1) =~= frame.subrange(k * m, n));
    } else if n == m {
        assert(k == 1) by (nonlinear_arith)
            requires
                n == m,
                m > 0,
                k == n / m,
        ;
        assert(n % m == 0) by (nonlinear_arith)
            requires
                n == m,
                m > 0,
        ;
        assert(packet == frame);
        assert(t1.pending_in == seq![Seq::<u8>::empty()] + rest);
        let (t2, packet2) = spec_bulk_in(t1, max_len);
        assert(t1.pending_in[0] == Seq::<u8>::empty());
        assert(packet2 == Seq::<u8>::empty());
        assert(t1.pending_in.drop_first() =~= rest);
        assert(t2.pending_in == rest);
        assert(bulk_in_run(t2, max_len, 0) == (t2, Seq::<Seq<u8>>::empty()));
        assert(bulk_in_run(t1, max_len, 1) == (t2, seq![packet2] + Seq::<Seq<u8>>::empty()));
        assert(bulk_in_run(t, max_len, 2) == (t2, seq![packet] + (seq![packet2] + Seq::<Seq<u8>>::empty())));
        let packets = seq![packet] + (seq![packet2] + Seq::<Seq<u8>>::empty());
        assert(packets[0] == packet);
        assert(packets[1] == packet2);
        assert(frame.subrange(0, m) =~= frame);
        assert(frame.subrange(m, n) =~= Seq::<u8>::empty());
        assert(forall|i: int| #![trigger packets[i]] 0 <= i < k ==> i == 0);
    } else {
        assert(k == 0) by (nonlinear_arith)
            requires
                0 <= n < m,
                k == n / m,
        ;
        assert(n > 0 ==> n % m != 0) by (nonlinear_arith)
            requires
                0 <= n < m,
        ;
        assert(packet == frame);
        assert(t1.pending_in =~= rest);
        assert(bulk_in_run(t1, max_len, 0) == (t1, Seq::<Seq<u8>>::empty()));
        assert(bulk_in_run(t, max_len, 1) == (t1, seq![packet] + Seq::<Seq<u8>>::empty()));
        let packets = seq![packet] + Seq::<Seq<u8>>::empty();
        assert(packets[0] == packet);
        assert(frame.subrange(0, n) =~= frame);
    }
}

/// A response queued twice in a row is queued once.
pub proof fn lemma_push_in_coalesces(t: TransportView, frame: Seq<u8>)
    requires
        t.pending_in.len() <= MAX_PENDING_IN_FRAMES,
    ensures
        spec_push_in(spec_push_in(t, frame), frame) == spec_push_in(t, frame),
        spec_push_in(t, frame).pending_in.last() == frame,
        spec_push_in(t, frame).pending_in.len() <= if t.pending_in.len() < MAX_PENDING_IN_FRAMES {
            t.pending_in.len() + 1
        } else {
            MAX_PENDING_IN_FRAMES as nat
        },
{
}

/// Bulk IN never loses or invents bytes: the packet is at most `max_len`
/// bytes long, and the packet followed by what stays first in the queue is
/// the frame that was first in the queue.
pub proof fn lemma_bulk_in_preserves_bytes(t: TransportView, max_len: usize)
    requires
        t.pending_in.len() > 0,
    ensures
        ({
            let (t1, packet) = spec_bulk_in(t, max_len);
            let frame = t.pending_in[0];
            &&& packet.len() <= max_len
            &&& t1.pending_in.len() == t.pending_in.len() || t1.pending_in.len() == t.pending_in.len() - 1
            &&& if t1.pending_in.len() == t.pending_in.len() {
                packet + t1.pending_in[0] == frame && t1.pending_in.drop_first() == t.pending_in.drop_first()
            } else {
                packet == frame && t1.pending_in == t.pending_in.drop_first()
            }
        }),
{
    let (t1, packet) = spec_bulk_in(t, max_len);
    let frame = t.pending_in[0];
    if frame.len() <= max_len {
        if max_len != 0 && frame.len() > 0 && frame.len() % (max_len as nat) == 0 {
            assert(packet + t1.pending_in[0] =~= frame);
            assert(t1.pending_in.drop_first() =~= t.pending_in.drop_first());
        }
    } else {
        assert(packet + t1.pending_in[0] =~= frame);
        assert(t1.pending_in.drop_first() =~= t.pending_in.drop_first());
    }
}

/// The abort handshake, control request first: the control request only
/// records the abort, and the matching bulk abort then drops everything
/// buffered and queues the slot's status as the only response.
pub proof fn lemma_abort_control_then_bulk(t: TransportView, seq: u8, o: ReaderOutcome)
    requires
        t.bulk_abort != Some(seq),
    ensures
        ({
            let t1 = spec_expect_abort(t, 0, seq);
            let t2 = spec_process(t1, CommandView::Abort { slot: 0, seq }, o);
            &&& t1.control_abort == Some((0u8, seq))
            &&& t1.pending_in == t.pending_in
            &&& t2.pending_in == seq![spec_encode_response(ok_status(0, seq, t.bridge))]
            &&& t2.out_buffer.len() == 0
            &&& t2.control_abort is None
            &&& t2.bulk_abort is None
            &&& t2.bridge == t.bridge
        }),
{
    let t1 = spec_expect_abort(t, 0, seq);
    let t2 = spec_process(t1, CommandView::Abort { slot: 0, seq }, o);
    assert(t2.pending_in =~= seq![spec_encode_response(ok_status(0, seq, t.bridge))]);
}

/// The abort handshake, bulk abort first: the bulk abort is only recorded,
/// and the matching control request completes it in the same way.
pub proof fn lemma_abort_bulk_then_control(t: TransportView, seq: u8, o: ReaderOutcome)
    requires
        t.control_abort is None,
    ensures
        ({
            let t1 = spec_process(t, CommandView::Abort { slot: 0, seq }, o);
            let t2 = spec_expect_abort(t1, 0, seq);
            &&& t1.bulk_abort == Some(seq)
            &&& t1.pending_in == t.pending_in
            &&& t2.pending_in == seq![spec_encode_response(ok_status(0, seq, t.bridge))]
            &&& t2.out_buffer.len() == 0
            &&& t2.control_abort is None
            &&& t2.bulk_abort is None
            &&& t2.bridge == t.bridge
        }),
{
    let t1 = spec_process(t, CommandView::Abort { slot: 0, seq }, o);
    let t2 = spec_expect_abort(t1, 0, seq);
    assert(t2.pending_in =~= seq![spec_encode_response(ok_status(0, seq, t.bridge))]);
}

/// While a control abort waits for its bulk abort, any other command is
/// answered as aborted (command failed, error CMD_ABORTED) without reaching
/// the slot.
pub proof fn lemma_commands_during_abort(t: TransportView, command: CommandView, o: ReaderOutcome)
    requires
        t.control_abort matches Some((slot, seq)) && command != (CommandView::Abort { slot, seq }),
    ensures
        spec_process(t, command, o).bridge == t.bridge,
        spec_process(t, command, o).control_abort == t.control_abort,
        spec_process(t, command, o) == spec_enqueue(
            t,
            spec_encode_response(
                slot_status_response(
                    command.slot(),
                    command.seq(),
                    t.bridge.icc_status(),
                    CommandStatus::Failed,
                    CMD_ABORTED_ERROR,
                ),
            ),
            t.bridge.card is Some,
        ),
{
}

/// Every notification is two bytes: RDR_to_PC_NotifySlotChange, then the
/// slot's presence in bit 0 and whether it changed in bit 1.
pub proof fn lemma_slot_notification(t: TransportView, present: bool)
    ensures
        ({
            let t1 = spec_slot_presence(t, present);
            let note = t1.pending_interrupt.last();
            &&& t1.pending_interrupt.len() == t.pending_interrupt.len() + 1
            &&& note.len() == 2
            &&& note[0] == CCID_NOTIFY_SLOT_CHANGE
            &&& note[1] % 2 == (if present {
                1int
            } else {
                0
            })
            &&& note[1] / 2 == (if t.slot_present != present {
                1int
            } else {
                0
            })
            &&& t1.slot_present == present
        }),
{
}

pub open spec fn frames_view(frames: Seq<Vec<u8>>) -> Seq<Seq<u8>> {
    frames.map_values(|f: Vec<u8>| f@)
}

/// The CCID transport of one virtual reader.
pub struct CcidTransport<R: NfcReader> {
    bridge: CcidBridge<R>,
    state: TransportState,
    pending_in_frames: std::collections::VecDeque<Vec<u8>>,
    pending_interrupt_frames: std::collections::VecDeque<Vec<u8>>,
    pending_out_buffer: Vec<u8>,
    next_frame_len: Option<usize>,
    slot_present: bool,
    bulk_abort: Option<u8>,
    control_abort: Option<(u8, u8)>,
}

impl<R: NfcReader> View for CcidTransport<R> {
    type V = TransportView;

    closed spec fn view(&self) -> TransportView {
        TransportView {
            bridge: self.bridge@,
            state: self.state,
            pending_in: frames_view(self.pending_in_frames@),
            pending_interrupt: frames_view(self.pending_interrupt_frames@),
            out_buffer: self.pending_out_buffer@,
            next_frame_len: self.next_frame_len,
            slot_present: self.slot_present,
            bulk_abort: self.bulk_abort,
            control_abort: self.control_abort,
        }
    }
}

impl<R: NfcReader> CcidTransport<R> {
    pub open spec fn wf(&self) -> bool {
        self@.wf()
    }

    /// The reader behind the slot.
    pub closed spec fn reader(&self) -> R {
        self.bridge.reader()
    }

    /// An idle transport over a slot.
    pub fn new(bridge: CcidBridge<R>) -> (transport: Self)
        ensures
            transport.wf(),
            transport@.bridge == bridge@,
            transport.reader() == bridge.reader(),
            transport@.state == TransportState::Idle,
            transport@.pending_in.len() == 0,
            transport@.pending_interrupt.len() == 0,
            transport@.out_buffer.len() == 0,
            transport@.next_frame_len is None,
            !transport@.slot_present,
            transport@.bulk_abort is None,
            transport@.control_abort is None,
    {
        let t = CcidTransport {
            bridge,
            state: TransportState::Idle,
            pending_in_frames: std::collections::VecDeque::new(),
            pending_interrupt_frames: std::collections::VecDeque::new(),
            pending_out_buffer: Vec::new(),
            next_frame_len: None,
            slot_present: false,
            bulk_abort: None,
            control_abort: None,
        };
        assert(t@.pending_in =~= Seq::<Seq<u8>>::empty());
        assert(t@.pending_interrupt =~= Seq::<Seq<u8>>::empty());
        t
    }

    /// Where the transport is in the exchange of a message.
    pub fn state(&self) -> (state: TransportState)
        ensures
            state == self@.state,
    {
        self.state
    }

    /// How many responses wait for bulk IN.
    pub fn pending_in_frame_count(&self) -> (count: usize)
        ensures
            count == self@.pending_in.len(),
    {
        self.pending_in_frames.len()
    }

    /// Answers a class-specific request on the control endpoint.
    pub fn handle_control_request(&mut self, request_type: u8, request: u8, value: u16) -> (result:
        Result<Vec<u8>, TransportError>)
        requires
            old(self).wf(),
        ensures
            final(self).reader() == old(self).reader(),
            final(self).wf(),
            spec_control_request(old(self)@, request_type, request, value) == (final(self)@, match result {
                Ok(bytes) => Ok(bytes@),
                Err(e) => Err(e),
            }),
    {
        if request_type == 0xa1 && request == CCID_GET_CLOCK_FREQUENCIES {
            let r = vec![0xfc, 0x0d, 0x00, 0x00];
            assert(r@ =~= clock_frequency_bytes());
            Ok(r)
        } else if request_type == 0xa1 && request == CCID_GET_DATA_RATES {
            let r = vec![0x80, 0x25, 0x00, 0x00];
            assert(r@ =~= data_rate_bytes());
            Ok(r)
        } else if request_type == 0x21 && request == CCID_ABORT {
            let slot = (value % 256) as u8;
            let seq = (value / 256) as u8;
            self.expect_abort(slot, seq);
            let r = Vec::new();
            assert(r@ =~= Seq::<u8>::empty());
            Ok(r)
        } else {
            Err(TransportError::UnsupportedControlRequest { request_type, request })
        }
    }

    /// Takes a bulk OUT packet and processes every command it completes. The
    /// reader is consulted only by the slot, one group of calls for each
    /// command processed, in order (`drain_calls`), each call made through
    /// the reader's own method; the commands are answered from what those
    /// calls answered.
    pub fn handle_bulk_out(&mut self, payload: &[u8]) -> (result: Result<(), TransportError>)
        requires
            old(self).wf(),
        ensures
            final(self).wf(),
            exists|groups: Seq<Seq<ReaderCall<R>>>, refss: Seq<Seq<&mut R>>|
                drain_calls(spec_receive(old(self)@, payload@), groups) && chain_all(
                    old(self).reader(),
                    final(self).reader(),
                    groups,
                ) && groups_made_through(groups, refss) && (forall|k: int, i: int|
                    #![trigger refss[k][i]]
                    0 <= k < refss.len() && 0 <= i < refss[k].len() ==> *final(refss[k][i]) == groups[k][i].after()) && spec_drain(spec_receive(old(self)@, payload@), outcomes(groups))
                    == (final(self)@, result),
    {
        let ghost pre = self@;
        self.pending_out_buffer.extend_from_slice(payload);
        assert(self@.out_buffer =~= pre.out_buffer + payload@);
        proof {
            if pre.next_frame_len is Some {
                assert(self@.out_buffer.subrange(0, 5) =~= pre.out_buffer.subrange(0, 5));
                assert(self@.out_buffer[1] == pre.out_buffer[1]);
                assert(self@.out_buffer[2] == pre.out_buffer[2]);
                assert(self@.out_buffer[3] == pre.out_buffer[3]);
                assert(self@.out_buffer[4] == pre.out_buffer[4]);
            }
        }
        self.update_state();
        assert(self@ == spec_receive(pre, payload@));
        let result = self.drain_frames();
        proof {
            reveal(drained_with);
        }
        result
    }

    /// Cuts every complete frame off the bulk OUT buffer and processes the
    /// command it holds, stopping at the first cut that yields no command.
    fn drain_frames(&mut self) -> (result: Result<(), TransportError>)
        requires
            old(self).wf(),
        ensures
            final(self).wf(),
            exists|groups: Seq<Seq<ReaderCall<R>>>, refss: Seq<Seq<&mut R>>|
                drained_with(
                    old(self)@,
                    old(self).reader(),
                    final(self).reader(),
                    groups,
                    final(self)@,
                    result,
                ) && groups_made_through(groups, refss) && (forall|k: int, i: int|
                    #![trigger refss[k][i]]
                    0 <= k < refss.len() && 0 <= i < refss[k].len() ==> *final(refss[k][i]) == groups[k][i].after()),
        decreases old(self)@.out_buffer.len(),
    {
        let ghost current = self@;
        let ghost r0 = self.reader();
        let ghost none = Seq::<Seq<ReaderCall<R>>>::empty();
        let ghost no_refs = Seq::<Seq<&mut R>>::empty();
        assert(groups_made_through(none, no_refs));
        let taken = self.try_take_complete_frame();
        let frame = match taken {
            Err(e) => {
                proof {
                    lemma_drain_stop(current, self@, Seq::<ReaderOutcome>::empty());
                    lemma_drained_stop(current, r0, self@, Err::<(), TransportError>(e));
                }
                return Err(e);
            },
            Ok(None) => {
                proof {
                    lemma_drain_stop(current, self@, Seq::<ReaderOutcome>::empty());
                    lemma_drained_stop(current, r0, self@, Ok::<(), TransportError>(()));
                }
                return Ok(());
            },
            Ok(Some(frame)) => frame,
        };
        let ghost after_take = self@;
        let command = match CcidCommand::decode(frame.as_slice()) {
            Err(e) => {
                proof {
                    lemma_drain_stop(current, self@, Seq::<ReaderOutcome>::empty());
                    lemma_drained_stop(
                        current,
                        r0,
                        self@,
                        Err::<(), TransportError>(TransportError::InvalidFrame(e)),
                    );
                }
                return Err(TransportError::InvalidFrame(e));
            },
            Ok(command) => command,
        };
        let ghost cmd = command@;
        self.process_command(command);
        let ghost r1 = self.reader();
        let ghost next = self@;
        let ghost calls = choose|calls: Seq<ReaderCall<R>>|
            #![trigger calls_chain(r0, r1, calls)]
            exists|refs: Seq<&mut R>|
                #![trigger made_through(calls, refs)]
                process_calls(after_take, cmd, calls) && calls_chain(r0, r1, calls) && made_through(calls, refs) && (forall|i: int|
                        #![trigger refs[i]]
                        0 <= i < refs.len() ==> *final(refs[i]) == calls[i].after()) && next == spec_process(after_take, cmd, outcome_of(calls));
        let ghost refs = choose|refs: Seq<&mut R>|
            #![trigger made_through(calls, refs)]
            process_calls(after_take, cmd, calls) && calls_chain(r0, r1, calls) && made_through(calls, refs) && (forall|i: int|
                    #![trigger refs[i]]
                    0 <= i < refs.len() ==> *final(refs[i]) == calls[i].after()) && next == spec_process(after_take, cmd, outcome_of(calls));
        proof {
            lemma_take_frame_shrinks(current);
            lemma_process_out_len(after_take, cmd, outcome_of(calls));
        }
        let result = self.drain_frames();
        let ghost r2 = self.reader();
        let ghost end = self@;
        let ghost rest = choose|groups: Seq<Seq<ReaderCall<R>>>|
            #![trigger drained_with(next, r1, r2, groups, end, result)]
            exists|refss: Seq<Seq<&mut R>>|
                #![trigger groups_made_through(groups, refss)]
                drained_with(next, r1, r2, groups, end, result) && groups_made_through(groups, refss) && (forall|k: int, i: int|
                        #![trigger refss[k][i]]
                        0 <= k < refss.len() && 0 <= i < refss[k].len() ==> *final(refss[k][i]) == groups[k][i].after());
        let ghost rest_refs = choose|refss: Seq<Seq<&mut R>>|
            #![trigger groups_made_through(rest, refss)]
            drained_with(next, r1, r2, rest, end, result) && groups_made_through(rest, refss) && (forall|k: int, i: int|
                    #![trigger refss[k][i]]
                    0 <= k < refss.len() && 0 <= i < refss[k].len() ==> *final(refss[k][i]) == rest[k][i].after());
        let ghost groups = seq![calls] + rest;
        let ghost refss = seq![refs] + rest_refs;
        proof {
            lemma_drained_step(
                current,
                after_take,
                frame@,
                cmd,
                calls,
                next,
                r0,
                r1,
                r2,
                rest,
                end,
                result,
            );
            assert forall|k: int|
                #![trigger groups[k]]
                0 <= k < groups.len() implies made_through(groups[k], refss[k]) by {
                if k == 0 {
                    assert(groups[k] == calls);
                    assert(refss[k] == refs);
                } else {
                    assert(groups[k] == rest[k - 1]);
                    assert(refss[k] == rest_refs[k - 1]);
                }
            }
            assert(groups_made_through(groups, refss));
            assert forall|k: int, i: int|
                #![trigger refss[k][i]]
                0 <= k < refss.len() && 0 <= i < refss[k].len() implies *final(refss[k][i])
                    == groups[k][i].after() by {
                if k == 0 {
                    assert(groups[k] == calls);
                    assert(refss[k] == refs);
                    assert(refss[k][i] == refs[i]);
                } else {
                    assert(groups[k] == rest[k - 1]);
                    assert(refss[k] == rest_refs[k - 1]);
                    assert(refss[k][i] == rest_refs[k - 1][i]);
                }
            }
        }
        result
    }

    /// Hands out the next bulk IN packet of at most `max_len` bytes.
    pub fn handle_bulk_in(&mut self, max_len: usize) -> (packet: Vec<u8>)
        requires
            old(self).wf(),
        ensures
            final(self).reader() == old(self).reader(),
            final(self).wf(),
            spec_bulk_in(old(self)@, max_len) == (final(self)@, packet@),
    {
        let ghost pre = self@;
        let popped = self.pending_in_frames.pop_front();
        let mut frame = match popped {
            None => {
                self.update_state();
                let r = Vec::new();
                assert(r@ =~= Seq::<u8>::empty());
                return r;
            },
            Some(frame) => frame,
        };
        assert(frames_view(self.pending_in_frames@) =~= pre.pending_in.drop_first());
        if frame.len() <= max_len {
            if max_len != 0 && frame.len() != 0 && frame.len() % max_len == 0 {
                self.pending_in_frames.push_front(Vec::new());
                assert(frames_view(self.pending_in_frames@) =~= seq![Seq::<u8>::empty()]
                    + pre.pending_in.drop_first());
            }
            self.update_state();
            return frame;
        }
        let remainder = frame.split_off(max_len);
        self.pending_in_frames.push_front(remainder);
        assert(frames_view(self.pending_in_frames@) =~= seq![pre.pending_in[0].skip(max_len as int)]
            + pre.pending_in.drop_first());
        self.update_state();
        frame
    }

    /// Refreshes the card presence and hands out the next slot notification.
    /// The reader is polled, through its own `poll_card`, unless a powered
    /// card is held.
    pub fn handle_interrupt_in(&mut self) -> (packet: Vec<u8>)
        requires
            old(self).wf(),
        ensures
            final(self).wf(),
            exists|calls: Seq<ReaderCall<R>>, refs: Seq<&mut R>|
                refresh_calls(old(self)@.bridge, calls) && calls_chain(
                    old(self).reader(),
                    final(self).reader(),
                    calls,
                ) && made_through(calls, refs) && (forall|i: int|
                    #![trigger refs[i]]
                    0 <= i < refs.len() ==> *final(refs[i]) == calls[i].after()) && spec_interrupt_in(
                    old(self)@,
                    outcome_of(calls).poll,
                ) == (final(self)@, packet@),
    {
        let ghost pre = self@;
        let ghost r0 = self.reader();
        let refreshed = self.bridge.refresh_card_presence();
        let ghost r1 = self.reader();
        let ghost calls = choose|calls: Seq<ReaderCall<R>>|
            #![trigger calls_chain(r0, r1, calls)]
            exists|refs: Seq<&mut R>|
                #![trigger made_through(calls, refs)]
                refresh_calls(pre.bridge, calls) && calls_chain(r0, r1, calls) && made_through(calls, refs) && (forall|i: int|
                        #![trigger refs[i]]
                        0 <= i < refs.len() ==> *final(refs[i]) == calls[i].after()) && super::bridge::spec_refresh(pre.bridge, outcome_of(calls).poll) == (
                    self.bridge@,
                    match refreshed {
                        Ok(b) => Ok(b),
                        Err(_) => Err(()),
                    },
                );
        let ghost refs = choose|refs: Seq<&mut R>|
            #![trigger made_through(calls, refs)]
            refresh_calls(pre.bridge, calls) && calls_chain(r0, r1, calls) && made_through(calls, refs) && (forall|i: int|
                    #![trigger refs[i]]
                    0 <= i < refs.len() ==> *final(refs[i]) == calls[i].after()) && super::bridge::spec_refresh(pre.bridge, outcome_of(calls).poll) == (
                self.bridge@,
                match refreshed {
                    Ok(b) => Ok(b),
                    Err(_) => Err(()),
                },
            );
        let ghost poll = outcome_of(calls).poll;
        match refreshed {
            Ok(present) => self.update_slot_presence(present),
            Err(_) => {},
        }
        let ghost t2 = self@;
        let popped = self.pending_interrupt_frames.pop_front();
        match popped {
            Some(packet) => {
                assert(frames_view(self.pending_interrupt_frames@) =~= t2.pending_interrupt.drop_first());
                assert(spec_interrupt_in(pre, poll) == (self@, packet@));
                packet
            },
            None => {
                let r = Vec::new();
                assert(r@ =~= Seq::<u8>::empty());
                assert(spec_interrupt_in(pre, poll) == (self@, r@));
                r
            },
        }
    }

    fn update_slot_presence(&mut self, present: bool)
        ensures
            final(self).reader() == old(self).reader(),
            final(self)@ == spec_slot_presence(old(self)@, present),
    {
        let ghost pre = self@;
        if self.slot_present == present {
            let note = vec![CCID_NOTIFY_SLOT_CHANGE, if present { 0b0000_0001 } else { 0b0000_0000 }];
            self.pending_interrupt_frames.push_back(note);
            assert(self@.pending_interrupt =~= spec_slot_presence(pre, present).pending_interrupt);
            return ;
        }
        self.slot_present = present;
        let note = vec![CCID_NOTIFY_SLOT_CHANGE, if present { 0b0000_0011 } else { 0b0000_0010 }];
        self.pending_interrupt_frames.push_back(note);
        assert(self@.pending_interrupt =~= spec_slot_presence(pre, present).pending_interrupt);
    }

    fn expect_abort(&mut self, slot: u8, seq: u8)
        requires
            old(self).wf(),
        ensures
            final(self).reader() == old(self).reader(),
            final(self).wf(),
            final(self)@ == spec_expect_abort(old(self)@, slot, seq),
    {
        if slot != 0 {
            return ;
        }
        if self.bulk_abort == Some(seq) {
            self.finish_abort(slot, seq);
        } else {
            self.control_abort = Some((slot, seq));
        }
    }

    fn finish_abort(&mut self, slot: u8, seq: u8)
        requires
            old(self).wf(),
        ensures
            final(self).reader() == old(self).reader(),
            final(self).wf(),
            final(self)@ == spec_finish_abort(old(self)@, slot, seq),
    {
        self.bulk_abort = None;
        self.control_abort = None;
        self.pending_out_buffer.clear();
        self.next_frame_len = None;
        self.pending_in_frames.clear();
        assert(self@.pending_in =~= Seq::<Seq<u8>>::empty());
        let ghost b = self.bridge@;
        let ghost r0 = self.bridge.reader();
        let response = self.bridge.handle_command(CcidCommand::Abort { slot, seq });
        proof {
            let calls = choose|calls: Seq<ReaderCall<R>>|
                command_calls(b, CommandView::Abort { slot, seq }, calls) && calls_chain(
                    r0,
                    self.bridge.reader(),
                    calls,
                ) && spec_handle(b, CommandView::Abort { slot, seq }, outcome_of(calls)) == (
                    self.bridge@,
                    response@,
                );
            assert(calls.len() == 0);
        }
        let card_present = self.bridge.card_present();
        assert(self.bridge@ == b);
        self.enqueue_response(response, card_present);
    }

    fn queue_aborted_response(&mut self, command: CcidCommand)
        requires
            old(self).wf(),
        ensures
            final(self).reader() == old(self).reader(),
            final(self).wf(),
            final(self)@ == spec_queue_aborted(old(self)@, command@),
    {
        let slot = command.slot();
        let seq = command.seq();
        let status = SlotStatus { icc: self.bridge.current_icc_status(), command: CommandStatus::Failed };
        let response = CcidResponse::SlotStatus {
            slot,
            seq,
            status,
            error: CMD_ABORTED_ERROR,
            clock_status: 0,
        };
        let encoded = response.encode();
        let card_present = self.bridge.card_present();
        self.push_in_frame(encoded);
        self.update_slot_presence(card_present);
        self.update_state();
    }

    fn enqueue_response(&mut self, response: CcidResponse, card_present: bool)
        requires
            old(self)@.pending_in.len() <= MAX_PENDING_IN_FRAMES,
            old(self)@.cache_ok(),
        ensures
            final(self).reader() == old(self).reader(),
            final(self).wf(),
            final(self)@ == spec_enqueue(old(self)@, spec_encode_response(response@), card_present),
    {
        let encoded = response.encode();
        self.push_in_frame(encoded);
        self.update_slot_presence(card_present);
        self.update_state();
    }

    /// Runs one received command through the abort handshake and the slot.
    fn process_command(&mut self, command: CcidCommand)
        requires
            old(self).wf(),
        ensures
            final(self).wf(),
            exists|calls: Seq<ReaderCall<R>>, refs: Seq<&mut R>|
                process_calls(old(self)@, command@, calls) && calls_chain(
                    old(self).reader(),
                    final(self).reader(),
                    calls,
                ) && made_through(calls, refs) && (forall|i: int|
                    #![trigger refs[i]]
                    0 <= i < refs.len() ==> *final(refs[i]) == calls[i].after()) && final(self)@ == spec_process(
                    old(self)@,
                    command@,
                    outcome_of(calls),
                ),
    {
        let ghost pre = self@;
        let ghost cmd = command@;
        let ghost none = Seq::<ReaderCall<R>>::empty();
        let ghost no_refs = Seq::<&mut R>::empty();
        assert(made_through(none, no_refs));
        if let Some((slot, seq)) = self.control_abort {
            let is_match = match &command {
                CcidCommand::Abort { slot: bulk_slot, seq: bulk_seq } => *bulk_slot == slot && *bulk_seq
                    == seq,
                _ => false,
            };
            if is_match {
                self.finish_abort(slot, seq);
            } else {
                self.queue_aborted_response(command);
            }
            assert(process_calls(pre, cmd, none));
            assert(calls_chain(old(self).reader(), self.reader(), none));
            assert(self@ == spec_process(pre, cmd, outcome_of(none)));
            return ;
        }
        self.bulk_abort = None;
        if let CcidCommand::Abort { slot: _, seq } = command {
            self.bulk_abort = Some(seq);
            assert(process_calls(pre, cmd, none));
            assert(calls_chain(old(self).reader(), self.reader(), none));
            assert(self@ == spec_process(pre, cmd, outcome_of(none)));
            return ;
        }
        let ghost b = self.bridge@;
        let ghost r0 = self.bridge.reader();
        let response = self.bridge.handle_command(command);
        let ghost r1 = self.bridge.reader();
        let ghost calls = choose|calls: Seq<ReaderCall<R>>|
            #![trigger calls_chain(r0, r1, calls)]
            exists|refs: Seq<&mut R>|
                #![trigger made_through(calls, refs)]
                command_calls(b, cmd, calls) && calls_chain(r0, r1, calls) && made_through(calls, refs) && (forall|i: int|
                        #![trigger refs[i]]
                        0 <= i < refs.len() ==> *final(refs[i]) == calls[i].after()) && spec_handle(b, cmd, outcome_of(calls)) == (
                    self.bridge@,
                    response@,
                );
        let ghost refs = choose|refs: Seq<&mut R>|
            #![trigger made_through(calls, refs)]
            command_calls(b, cmd, calls) && calls_chain(r0, r1, calls) && made_through(calls, refs) && (forall|i: int|
                    #![trigger refs[i]]
                    0 <= i < refs.len() ==> *final(refs[i]) == calls[i].after()) && spec_handle(b, cmd, outcome_of(calls)) == (
                self.bridge@,
                response@,
            );
        let card_present = self.bridge.card_present();
        self.enqueue_response(response, card_present);
        assert(process_calls(pre, cmd, calls));
        assert(self@ == spec_process(pre, cmd, outcome_of(calls)));
    }

    fn push_in_frame(&mut self, frame: Vec<u8>)
        requires
            old(self).pending_in_frames@.len() <= MAX_PENDING_IN_FRAMES,
        ensures
            final(self).reader() == old(self).reader(),
            final(self)@ == spec_push_in(old(self)@, frame@),
            final(self).pending_in_frames@.len() <= MAX_PENDING_IN_FRAMES,
    {
        let ghost pre = self@;
        let n = self.pending_in_frames.len();
        if n > 0 && bytes_equal(self.pending_in_frames[n - 1].as_slice(), frame.as_slice()) {
            return ;
        }
        if n >= MAX_PENDING_IN_FRAMES {
            self.pending_in_frames.clear();
            self.pending_in_frames.push_back(frame);
            assert(self@.pending_in =~= seq![frame@]);
            return ;
        }
        self.pending_in_frames.push_back(frame);
        assert(self@.pending_in =~= pre.pending_in.push(frame@));
    }

    fn try_take_complete_frame(&mut self) -> (result: Result<Option<Vec<u8>>, TransportError>)
        requires
            old(self).wf(),
        ensures
            final(self).reader() == old(self).reader(),
            final(self).wf(),
            final(self)@ == spec_take(old(self)@).0,
            match result {
                Err(e) => spec_take(old(self)@).1 == Taken::TooLong(e->FrameTooLong_0) && e is FrameTooLong,
                Ok(None) => spec_take(old(self)@).1 == Taken::Incomplete,
                Ok(Some(frame)) => spec_take(old(self)@).1 == Taken::Frame(frame@),
            },
            final(self)@.out_buffer.len() <= old(self)@.out_buffer.len(),
    {
        let ghost pre = self@;
        if self.pending_out_buffer.len() < 10 {
            self.next_frame_len = None;
            self.update_state();
            return Ok(None);
        }
        let frame_len: usize = match self.next_frame_len {
            Some(n) => n,
            None => {
                let b1 = self.pending_out_buffer[1] as u64;
                let b2 = self.pending_out_buffer[2] as u64;
                let b3 = self.pending_out_buffer[3] as u64;
                let b4 = self.pending_out_buffer[4] as u64;
                let frame_len: u64 = 10 + b1 + 256 * b2 + 65536 * b3 + 16777216 * b4;
                if frame_len > CCID_MAX_MESSAGE_LENGTH + 10 {
                    self.pending_out_buffer.clear();
                    self.next_frame_len = None;
                    self.update_state();
                    return Err(TransportError::FrameTooLong(frame_len));
                }
                self.next_frame_len = Some(frame_len as usize);
                frame_len as usize
            },
        };
        if self.pending_out_buffer.len() < frame_len {
            self.update_state();
            return Ok(None);
        }
        self.next_frame_len = None;
        let mut frame = self.pending_out_buffer.split_off(frame_len);
        std::mem::swap(&mut self.pending_out_buffer, &mut frame);
        self.update_state();
        Ok(Some(frame))
    }

    fn update_state(&mut self)
        ensures
            final(self).reader() == old(self).reader(),
            final(self)@ == spec_update_state(old(self)@),
    {
        if self.pending_in_frames.len() > 0 {
            self.state = TransportState::ReadyToSend;
        } else if self.pending_out_buffer.len() == 0 {
            self.next_frame_len = None;
            self.state = TransportState::Idle;
        } else {
            self.state = TransportState::Receiving;
        }
    }
}

} // verus!
