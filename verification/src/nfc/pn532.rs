//! The byte-level logic of the PN532 UART backend: response frames, the
//! InListPassiveTarget answer, the ATS and the InDataExchange answer.
//!
//! The serial port and the request/acknowledge exchange with the chip stay
//! outside the library; they hand the bytes they read to these functions.
use vstd::prelude::*;
use vstd::string::StringExecFns;

use super::{CardPresence, CardProtocol, ReaderError};
use crate::text::{decimal_string, format_hex, spec_decimal, spec_hex};

verus! {

pub const PN532_BUFFER_SIZE: usize = 320;

pub const PN532_INIT_TIMEOUT_MS: u64 = 1_000;

pub const PN532_POLL_TIMEOUT_MS: u64 = 500;

pub const PN532_APDU_TIMEOUT_MS: u64 = 5_000;

pub const PN532_POLL_INTERVAL_MS: u64 = 1_000;

pub const PN532_ABSENT_POLL_INTERVAL_MS: u64 = 2_000;

pub const ISO_A_TARGET_SLOT: u8 = 0x01;

pub const PN532_TO_HOST: u8 = 0xd5;

pub const POSTAMBLE: u8 = 0x00;

pub const ATS_T0_TA_PRESENT: u8 = 0x10;

pub const ATS_T0_TB_PRESENT: u8 = 0x20;

pub const ATS_T0_TC_PRESENT: u8 = 0x40;

/// Whether the card presence found by the last poll may be reported again
/// without polling: only shortly after that poll, and a card only while the
/// chip still has it activated as a target.
pub fn can_return_cached_presence(card_cached: bool, target_active: bool, recently_polled: bool) -> (cached:
    bool)
    ensures
        cached == (recently_polled && (!card_cached || target_active)),
{
    recently_polled && (!card_cached || target_active)
}

/// How long a poll result stays fresh: a present card is looked for again
/// sooner than an absent one.
pub fn poll_interval_ms(card_cached: bool) -> (ms: u64)
    ensures
        ms == if card_cached {
            PN532_POLL_INTERVAL_MS
        } else {
            PN532_ABSENT_POLL_INTERVAL_MS
        },
{
    if card_cached {
        PN532_POLL_INTERVAL_MS
    } else {
        PN532_ABSENT_POLL_INTERVAL_MS
    }
}

/// The RFConfiguration data that switches the RF field to `wanted`, or
/// nothing when it already is in that state.
pub fn rf_field_change(enabled: bool, wanted: bool) -> (data: Option<Vec<u8>>)
    ensures
        match data {
            None => enabled == wanted,
            Some(d) => enabled != wanted && d@ == seq![
                0x01u8,
                if wanted {
                    0x01u8
                } else {
                    0x00u8
                },
            ],
        },
{
    if enabled == wanted {
        return None;
    }
    let d = vec![0x01, if wanted { 0x01 } else { 0x00 }];
    Some(d)
}

/// The message of the error for an empty serial port path.
pub open spec fn empty_port_message() -> Seq<char> {
    "PN532 UART port path must not be empty"@
}

/// Refuses to open a reader on an empty serial port path.
pub fn check_port_path(path_empty: bool) -> (result: Result<(), ReaderError>)
    ensures
        result is Err <==> path_empty,
        path_empty ==> (result matches Err(ReaderError::Configuration(message)) && message@
            == empty_port_message()),
{
    if path_empty {
        return Err(ReaderError::Configuration("PN532 UART port path must not be empty".to_string()));
    }
    Ok(())
}

/// What a poll of the reader does.
pub enum PollAction {
    /// Report the card presence found by the last poll again.
    ReturnCached,
    /// Ask the chip for a target.
    PollChip,
}

/// Whether to poll the chip or report the last poll again, given whether a
/// card is cached, whether the chip holds a target active, and how many
/// milliseconds have passed since the last poll (none before the first).
/// The last answer is reported again only while it is fresh, and a card
/// only while its target is active.
pub fn next_poll_action(card_cached: bool, target_active: bool, since_last_poll_ms: Option<u64>) -> (action:
    PollAction)
    ensures
        action is ReturnCached <==> (since_last_poll_ms matches Some(ms) && ms < (if card_cached {
            PN532_POLL_INTERVAL_MS
        } else {
            PN532_ABSENT_POLL_INTERVAL_MS
        }) && (!card_cached || target_active)),
{
    let interval = poll_interval_ms(card_cached);
    let recently_polled = match since_last_poll_ms {
        Some(ms) => ms < interval,
        None => false,
    };
    if can_return_cached_presence(card_cached, target_active, recently_polled) {
        PollAction::ReturnCached
    } else {
        PollAction::PollChip
    }
}

/// The reader's state after the chip answered a poll.
pub struct PolledState {
    /// The target that the chip holds activated, if any.
    pub active_target: Option<u8>,
    /// The card reported, and remembered for later polls.
    pub card: Option<CardPresence>,
    /// Whether the RF field is to be switched off.
    pub switch_field_off: bool,
}

/// What a poll answer does to the reader: a target found is kept active and
/// its card reported and remembered; no target drops both and switches the
/// RF field off.
pub fn after_poll(found: Option<(u8, CardPresence)>) -> (state: PolledState)
    ensures
        match found {
            None => state.active_target is None && state.card is None && state.switch_field_off,
            Some((target, card)) => state.active_target == Some(target) && state.card == Some(card)
                && !state.switch_field_off,
        },
{
    match found {
        None => PolledState { active_target: None, card: None, switch_field_off: true },
        Some((target, card)) => PolledState {
            active_target: Some(target),
            card: Some(card),
            switch_field_off: false,
        },
    }
}

/// A string literal followed by a decimal number and another literal.
fn message_with_number(prefix: &str, n: usize, suffix: &str) -> (text: String)
    ensures
        text@ == prefix@ + spec_decimal(n as nat) + suffix@,
{
    let mut text = prefix.to_string();
    let number = decimal_string(n);
    text.append(number.as_str());
    text.append(suffix);
    text
}

pub open spec fn ats_too_short(len: nat) -> Seq<char> {
    "ATS too short: "@ + spec_decimal(len) + " bytes"@
}

pub open spec fn ats_length_mismatch(declared: nat, actual: nat) -> Seq<char> {
    "ATS length mismatch: TL="@ + spec_decimal(declared) + " actual="@ + spec_decimal(actual)
        + ""@
}

pub open spec fn ats_interface_overflow(declared: nat, t0: u8) -> Seq<char> {
    "ATS optional interface bytes exceed TL: TL="@ + spec_decimal(declared) + " T0=0x"@ + spec_hex(
        seq![t0],
    )
}

/// Where the historical bytes start: after TL, T0 and the interface bytes
/// TA, TB and TC that T0 announces.
pub open spec fn ats_historical_start(t0: u8) -> int {
    2 + (if t0 & ATS_T0_TA_PRESENT != 0 {
        1int
    } else {
        0
    }) + (if t0 & ATS_T0_TB_PRESENT != 0 {
        1int
    } else {
        0
    }) + (if t0 & ATS_T0_TC_PRESENT != 0 {
        1int
    } else {
        0
    })
}

/// The historical bytes of an ATS, or the message of the protocol error.
pub open spec fn spec_ats_historical_bytes(ats: Seq<u8>) -> Result<Seq<u8>, Seq<char>> {
    if ats.len() < 2 {
        Err(ats_too_short(ats.len()))
    } else if ats[0] != ats.len() {
        Err(ats_length_mismatch(ats[0] as nat, ats.len()))
    } else if ats_historical_start(ats[1]) > ats.len() {
        Err(ats_interface_overflow(ats[0] as nat, ats[1]))
    } else {
        Ok(ats.skip(ats_historical_start(ats[1])))
    }
}

/// The layout of an ATS (ISO/IEC 14443-4): TL, T0, then the interface bytes
/// TA, TB and TC, each present when T0 has bit 0x10, 0x20 or 0x40 set, then
/// the historical bytes. For every ATS whose TL is its length and that holds
/// the interface bytes T0 announces, the historical bytes are exactly what
/// follows those bytes.
pub proof fn lemma_ats_historical_bytes_layout(ats: Seq<u8>)
    requires
        ats.len() >= 2,
        ats[0] == ats.len(),
        2 + (if ats[1] & 0x10u8 != 0 {
            1int
        } else {
            0
        }) + (if ats[1] & 0x20u8 != 0 {
            1int
        } else {
            0
        }) + (if ats[1] & 0x40u8 != 0 {
            1int
        } else {
            0
        }) <= ats.len(),
    ensures
        spec_ats_historical_bytes(ats) == Ok::<Seq<u8>, Seq<char>>(
            ats.skip(
                2 + (if ats[1] & 0x10u8 != 0 {
                    1int
                } else {
                    0
                }) + (if ats[1] & 0x20u8 != 0 {
                    1int
                } else {
                    0
                }) + (if ats[1] & 0x40u8 != 0 {
                    1int
                } else {
                    0
                }),
            ),
        ),
{
}

/// The low nibble of T0 (FSCI, the frame size the card accepts) does not
/// say which interface bytes are present: two ATS that differ only there
/// are both accepted or both refused, with the same historical bytes.
pub proof fn lemma_ats_ignores_fsci(ats: Seq<u8>, other: Seq<u8>)
    requires
        ats.len() == other.len(),
        ats.len() >= 2,
        ats[0] == other[0],
        ats[1] & 0xf0u8 == other[1] & 0xf0u8,
        forall|i: int| 2 <= i < ats.len() ==> ats[i] == other[i],
    ensures
        spec_ats_historical_bytes(ats) is Ok <==> spec_ats_historical_bytes(other) is Ok,
        spec_ats_historical_bytes(ats) is Ok ==> spec_ats_historical_bytes(ats)
            == spec_ats_historical_bytes(other),
{
    let a = ats[1];
    let b = other[1];
    assert((a & 0x10u8 == 0) == (b & 0x10u8 == 0) && (a & 0x20u8 == 0) == (b & 0x20u8 == 0) && (a
        & 0x40u8 == 0) == (b & 0x40u8 == 0)) by (bit_vector)
        requires
            a & 0xf0u8 == b & 0xf0u8,
    ;
    assert(ats_historical_start(a) == ats_historical_start(b));
    let start = ats_historical_start(a);
    if 2 <= start <= ats.len() {
        assert(ats.skip(start) =~= other.skip(start));
    }
}

/// A protocol error whose message is `message`.
pub open spec fn is_protocol_error(error: ReaderError, message: Seq<char>) -> bool {
    error matches ReaderError::Protocol(m) && m@ == message
}

/// Extracts the historical bytes from an ATS (answer to select).
pub fn ats_historical_bytes(ats: &[u8]) -> (result: Result<Vec<u8>, ReaderError>)
    ensures
        match spec_ats_historical_bytes(ats@) {
            Ok(bytes) => result matches Ok(v) && v@ == bytes,
            Err(message) => result matches Err(e) && is_protocol_error(e, message),
        },
{
    if ats.len() < 2 {
        return Err(ReaderError::Protocol(message_with_number("ATS too short: ", ats.len(), " bytes")));
    }
    let declared_len = ats[0] as usize;
    if declared_len != ats.len() {
        let mut text = message_with_number("ATS length mismatch: TL=", declared_len, " actual=");
        let actual = decimal_string(ats.len());
        text.append(actual.as_str());
        text.append("");
        return Err(ReaderError::Protocol(text));
    }
    let t0 = ats[1];
    let mut historical_start: usize = 2;
    if t0 & ATS_T0_TA_PRESENT != 0 {
        historical_start = historical_start + 1;
    }
    if t0 & ATS_T0_TB_PRESENT != 0 {
        historical_start = historical_start + 1;
    }
    if t0 & ATS_T0_TC_PRESENT != 0 {
        historical_start = historical_start + 1;
    }
    if historical_start > ats.len() {
        let mut text = message_with_number("ATS optional interface bytes exceed TL: TL=", declared_len, " T0=0x");
        let t0_bytes = [t0];
        let t0_hex = format_hex(t0_bytes.as_slice());
        assert(t0_bytes@ =~= seq![t0]);
        text.append(t0_hex.as_str());
        return Err(ReaderError::Protocol(text));
    }
    Ok(vstd::slice::slice_to_vec(&ats[historical_start..ats.len()]))
}

pub open spec fn target_too_short(len: nat) -> Seq<char> {
    "PN532 target response too short: "@ + spec_decimal(len) + " bytes"@
}

pub open spec fn target_truncated_uid(len: nat) -> Seq<char> {
    "PN532 target response truncated before UID: "@ + spec_decimal(len) + " bytes"@
}

pub open spec fn target_truncated_ats(len: nat) -> Seq<char> {
    "PN532 target response truncated before ATS: "@ + spec_decimal(len) + " bytes"@
}

/// The card described by an InListPassiveTarget answer for one ISO14443-A
/// target (NbTg, Tg, SENS_RES, SEL_RES, NFCIDLength, NFCID, then optionally
/// the ATS), with the target number; `None` when no target was found.
pub open spec fn spec_target_response(r: Seq<u8>) -> Result<Option<(u8, Seq<u8>, Seq<u8>)>, Seq<char>> {
    if r.len() == 0 || r[0] == 0 {
        Ok(None)
    } else if r.len() < 6 {
        Err(target_too_short(r.len()))
    } else if r.len() < 6 + r[5] {
        Err(target_truncated_uid(r.len()))
    } else {
        let uid_end = 6 + r[5];
        let uid = r.subrange(6, uid_end);
        if r.len() > uid_end {
            let ats_end = uid_end + r[uid_end];
            if r.len() >= ats_end {
                match spec_ats_historical_bytes(r.subrange(uid_end, ats_end)) {
                    Ok(historical) => Ok(Some((r[1], uid, historical))),
                    Err(message) => Err(message),
                }
            } else {
                Err(target_truncated_ats(r.len()))
            }
        } else {
            Ok(Some((r[1], uid, Seq::empty())))
        }
    }
}

/// Reads the target number and the card out of an InListPassiveTarget answer.
pub fn parse_target_response(response: &[u8]) -> (result: Result<Option<(u8, CardPresence)>, ReaderError>)
    ensures
        match spec_target_response(response@) {
            Ok(None) => result matches Ok(None),
            Ok(Some((target, uid, historical))) => result matches Ok(Some((t, card))) && t == target
                && card.uid@ == uid && card.historical_bytes@ == historical && card.protocol
                == CardProtocol::IsoDep,
            Err(message) => result matches Err(e) && is_protocol_error(e, message),
        },
{
    if response.len() == 0 || response[0] == 0 {
        return Ok(None);
    }
    if response.len() < 6 {
        return Err(
            ReaderError::Protocol(
                message_with_number("PN532 target response too short: ", response.len(), " bytes"),
            ),
        );
    }
    let target = response[1];
    let uid_len = response[5] as usize;
    let uid_start: usize = 6;
    let uid_end = uid_start + uid_len;
    if response.len() < uid_end {
        return Err(
            ReaderError::Protocol(
                message_with_number(
                    "PN532 target response truncated before UID: ",
                    response.len(),
                    " bytes",
                ),
            ),
        );
    }
    let historical_bytes = if response.len() > uid_end {
        let ats_len = response[uid_end] as usize;
        let ats_end = uid_end + ats_len;
        if response.len() >= ats_end {
            match ats_historical_bytes(&response[uid_end..ats_end]) {
                Ok(h) => h,
                Err(e) => return Err(e),
            }
        } else {
            return Err(
                ReaderError::Protocol(
                    message_with_number(
                        "PN532 target response truncated before ATS: ",
                        response.len(),
                        " bytes",
                    ),
                ),
            );
        }
    } else {
        let empty: Vec<u8> = Vec::new();
        assert(empty@ =~= Seq::<u8>::empty());
        empty
    };
    let card = CardPresence {
        uid: vstd::slice::slice_to_vec(&response[uid_start..uid_end]),
        protocol: CardProtocol::IsoDep,
        historical_bytes,
    };
    Ok(Some((target, card)))
}

pub open spec fn apdu_too_long(len: nat) -> Seq<char> {
    "APDU of "@ + spec_decimal(len) + " bytes exceeds current PN532 buffer budget"@
}

/// Whether an APDU, with the target number before it, fits the PN532's frame buffer.
pub open spec fn apdu_fits(len: nat) -> bool {
    len + 1 <= PN532_BUFFER_SIZE - 9
}

/// The InDataExchange data: the target number, then the APDU.
pub fn build_exchange_request(target: u8, apdu: &[u8]) -> (result: Result<Vec<u8>, ReaderError>)
    ensures
        apdu_fits(apdu@.len()) ==> (result matches Ok(v) && v@ == seq![target] + apdu@),
        !apdu_fits(apdu@.len()) ==> (result matches Err(ReaderError::Unsupported(m)) && m@
            == apdu_too_long(apdu@.len())),
{
    if apdu.len() >= PN532_BUFFER_SIZE - 9 {
        return Err(
            ReaderError::Unsupported(
                message_with_number("APDU of ", apdu.len(), " bytes exceeds current PN532 buffer budget"),
            ),
        );
    }
    let mut request = Vec::new();
    request.push(target);
    request.extend_from_slice(apdu);
    assert(request@ =~= seq![target] + apdu@);
    Ok(request)
}

pub open spec fn empty_exchange_message() -> Seq<char> {
    "PN532 returned an empty APDU exchange response"@
}

pub open spec fn exchange_status_message(status: u8) -> Seq<char> {
    "PN532 reported APDU exchange status 0x"@ + spec_hex(seq![status])
}

/// The card's response APDU out of an InDataExchange answer (status byte,
/// then the data), or the protocol error that the status byte reports.
pub fn parse_exchange_response(response: &[u8]) -> (result: Result<Vec<u8>, ReaderError>)
    ensures
        response@.len() == 0 ==> (result matches Err(e) && is_protocol_error(e, empty_exchange_message())),
        response@.len() > 0 && response@[0] != 0 ==> (result matches Err(e) && is_protocol_error(
            e,
            exchange_status_message(response@[0]),
        )),
        response@.len() > 0 && response@[0] == 0 ==> (result matches Ok(v) && v@ == response@.skip(1)),
{
    if response.len() == 0 {
        return Err(ReaderError::Protocol("PN532 returned an empty APDU exchange response".to_string()));
    }
    if response[0] != 0x00 {
        let mut text = "PN532 reported APDU exchange status 0x".to_string();
        let status = [response[0]];
        assert(status@ =~= seq![response@[0]]);
        let status_hex = format_hex(status.as_slice());
        text.append(status_hex.as_str());
        return Err(ReaderError::Protocol(text));
    }
    Ok(vstd::slice::slice_to_vec(&response[1..response.len()]))
}

/// Failures of an exchange with the PN532 chip.
#[derive(Debug, Clone, PartialEq, Eq)]
pub enum Pn532Failure {
    BadAck,
    BadResponseFrame,
    Syntax,
    CrcError,
    BufTooSmall,
    TimeoutAck,
    TimeoutResponse,
    /// The serial port failed; holds its error's message.
    InterfaceError(String),
}

pub open spec fn failure_message(action: Seq<char>, detail: Seq<char>) -> Seq<char> {
    "failed to "@ + action + ": "@ + detail
}

fn failed_to(action: &str, detail: &str) -> (text: String)
    ensures
        text@ == failure_message(action@, detail@),
{
    let mut text = "failed to ".to_string();
    text.append(action);
    text.append(": ");
    text.append(detail);
    text
}

/// The reader error reported when `action` failed with `error`: framing and
/// checksum failures are protocol errors, timeouts are transport errors, and
/// serial port failures are I/O errors that keep the port's message.
pub fn map_pn532_error(action: &str, error: Pn532Failure) -> (mapped: ReaderError)
    ensures
        match error {
            Pn532Failure::BadAck => mapped matches ReaderError::Protocol(m) && m@ == failure_message(
                action@,
                "bad PN532 ACK"@,
            ),
            Pn532Failure::BadResponseFrame => mapped matches ReaderError::Protocol(m) && m@
                == failure_message(action@, "malformed PN532 response frame"@),
            Pn532Failure::Syntax => mapped matches ReaderError::Protocol(m) && m@ == failure_message(
                action@,
                "PN532 syntax error frame"@,
            ),
            Pn532Failure::CrcError => mapped matches ReaderError::Protocol(m) && m@
                == failure_message(action@, "PN532 checksum error"@),
            Pn532Failure::BufTooSmall => mapped matches ReaderError::Protocol(m) && m@
                == failure_message(action@, "configured PN532 response buffer is too small"@),
            Pn532Failure::TimeoutAck => mapped matches ReaderError::Transport(m) && m@
                == failure_message(action@, "timeout waiting for PN532 ACK"@),
            Pn532Failure::TimeoutResponse => mapped matches ReaderError::Transport(m) && m@
                == failure_message(action@, "timeout waiting for PN532 response"@),
            Pn532Failure::InterfaceError(inner) => mapped == ReaderError::Io(inner),
        },
{
    match error {
        Pn532Failure::BadAck => ReaderError::Protocol(failed_to(action, "bad PN532 ACK")),
        Pn532Failure::BadResponseFrame => ReaderError::Protocol(
            failed_to(action, "malformed PN532 response frame"),
        ),
        Pn532Failure::Syntax => ReaderError::Protocol(failed_to(action, "PN532 syntax error frame")),
        Pn532Failure::CrcError => ReaderError::Protocol(failed_to(action, "PN532 checksum error")),
        Pn532Failure::BufTooSmall => ReaderError::Protocol(
            failed_to(action, "configured PN532 response buffer is too small"),
        ),
        Pn532Failure::TimeoutAck => ReaderError::Transport(
            failed_to(action, "timeout waiting for PN532 ACK"),
        ),
        Pn532Failure::TimeoutResponse => ReaderError::Transport(
            failed_to(action, "timeout waiting for PN532 response"),
        ),
        Pn532Failure::InterfaceError(inner) => ReaderError::Io(inner),
    }
}

/// Ways in which bytes read from the chip fail to be a response frame.
#[derive(Debug, Clone, Copy, PartialEq, Eq, Structural)]
pub enum Pn532FrameError {
    BadResponseFrame,
    Syntax,
    CrcError,
    /// More bytes are needed: the frame read so far is this long at least.
    Truncated(usize),
}

/// The sum of the bytes.
pub open spec fn byte_sum(bytes: Seq<u8>) -> nat
    decreases bytes.len(),
{
    if bytes.len() == 0 {
        0
    } else {
        byte_sum(bytes.drop_last()) + bytes.last() as nat
    }
}

/// Whether a frame header starts with the extended-frame marker.
pub open spec fn is_extended(b: Seq<u8>) -> bool {
    b[3] == 0xff && b[4] == 0xff
}

/// The data of a PN532 response frame read from `b` (preamble, start code,
/// LEN and LCS, or the extended-frame marker followed by a two-byte LEN and
/// its LCS; then TFI = 0xD5, the response code, the data, DCS and the
/// postamble), for a response whose code is `command`.
pub open spec fn spec_response_frame(b: Seq<u8>, command: u8) -> Result<Seq<u8>, Pn532FrameError> {
    if b.len() < 5 {
        Err(Pn532FrameError::Truncated(5))
    } else if b[0] != 0x00 || b[1] != 0x00 || b[2] != 0xff {
        Err(Pn532FrameError::BadResponseFrame)
    } else if is_extended(b) && b.len() < 8 {
        Err(Pn532FrameError::Truncated(8))
    } else if is_extended(b) && (b[5] + b[6] + b[7]) % 256 != 0 {
        Err(Pn532FrameError::CrcError)
    } else if !is_extended(b) && (b[3] + b[4]) % 256 != 0 {
        Err(Pn532FrameError::CrcError)
    } else {
        let len: int = if is_extended(b) {
            256 * b[5] + b[6]
        } else {
            b[3] as int
        };
        let start: int = if is_extended(b) {
            8
        } else {
            5
        };
        if len == 0 {
            Err(Pn532FrameError::BadResponseFrame)
        } else if len == 1 {
            Err(Pn532FrameError::Syntax)
        } else if b.len() < start + len + 2 {
            Err(Pn532FrameError::Truncated((start + len + 2) as usize))
        } else {
            let frame = b.subrange(start, start + len + 2);
            if frame.last() != POSTAMBLE {
                Err(Pn532FrameError::BadResponseFrame)
            } else if frame[0] != PN532_TO_HOST || frame[1] != command {
                Err(Pn532FrameError::BadResponseFrame)
            } else if byte_sum(frame.drop_last()) % 256 != 0 {
                Err(Pn532FrameError::CrcError)
            } else {
                Ok(frame.subrange(2, frame.len() - 2))
            }
        }
    }
}

/// Reads one response frame out of the bytes received from the chip.
///
/// Bytes after the frame are ignored. When the bytes end too early the error
/// says how long the frame is known to be, so that a caller reading from a
/// port can fetch exactly the missing bytes and try again.
pub fn receive_dynamic_response_from(bytes: &[u8], expected_response_command: u8) -> (result: Result<
    Vec<u8>,
    Pn532FrameError,
>)
    ensures
        match result {
            Ok(data) => spec_response_frame(bytes@, expected_response_command) == Ok::<
                Seq<u8>,
                Pn532FrameError,
            >(data@),
            Err(e) => spec_response_frame(bytes@, expected_response_command) == Err::<
                Seq<u8>,
                Pn532FrameError,
            >(e),
        },
{
    if bytes.len() < 5 {
        return Err(Pn532FrameError::Truncated(5));
    }
    if bytes[0] != 0x00 || bytes[1] != 0x00 || bytes[2] != 0xff {
        return Err(Pn532FrameError::BadResponseFrame);
    }
    let extended = bytes[3] == 0xff && bytes[4] == 0xff;
    let (frame_len, start): (usize, usize) = if extended {
        if bytes.len() < 8 {
            return Err(Pn532FrameError::Truncated(8));
        }
        if (bytes[5] as u32 + bytes[6] as u32 + bytes[7] as u32) % 256 != 0 {
            return Err(Pn532FrameError::CrcError);
        }
        (256 * (bytes[5] as usize) + bytes[6] as usize, 8)
    } else {
        if (bytes[3] as u32 + bytes[4] as u32) % 256 != 0 {
            return Err(Pn532FrameError::CrcError);
        }
        (bytes[3] as usize, 5)
    };
    if frame_len == 0 {
        return Err(Pn532FrameError::BadResponseFrame);
    }
    if frame_len == 1 {
        return Err(Pn532FrameError::Syntax);
    }
    let end = start + frame_len + 2;
    if bytes.len() < end {
        return Err(Pn532FrameError::Truncated(end));
    }
    let frame = &bytes[start..end];
    if frame[frame.len() - 1] != POSTAMBLE {
        return Err(Pn532FrameError::BadResponseFrame);
    }
    if frame[0] != PN532_TO_HOST || frame[1] != expected_response_command {
        return Err(Pn532FrameError::BadResponseFrame);
    }
    let mut sum: u64 = 0;
    let mut i: usize = 0;
    while i < frame.len() - 1
        invariant
            frame@.len() >= 3,
            frame@.len() <= 65537,
            0 <= i <= frame@.len() - 1,
            sum == byte_sum(frame@.take(i as int)),
            sum <= 255 * i,
        decreases frame@.len() - 1 - i,
    {
        assert(frame@.take(i + 1).drop_last() =~= frame@.take(i as int));
        sum = sum + frame[i] as u64;
        i = i + 1;
    }
    assert(frame@.take(i as int) =~= frame@.drop_last());
    if sum % 256 != 0 {
        return Err(Pn532FrameError::CrcError);
    }
    Ok(vstd::slice::slice_to_vec(&frame[2..frame.len() - 2]))
}

/// The checksum byte that makes a byte sum a multiple of 256.
pub open spec fn checksum_byte(sum: nat) -> u8 {
    ((256 - sum % 256) % 256) as u8
}

/// The extended information frame in which the chip sends `data` as the
/// answer with response code `command`.
pub open spec fn spec_extended_frame(command: u8, data: Seq<u8>) -> Seq<u8> {
    let len = data.len() + 2;
    let body = seq![PN532_TO_HOST, command] + data;
    seq![0x00u8, 0x00, 0xff, 0xff, 0xff, (len / 256) as u8, (len % 256) as u8, checksum_byte(
        len / 256 + len % 256,
    )] + body + seq![checksum_byte(byte_sum(body)), POSTAMBLE]
}

/// The normal information frame in which the chip sends a short answer.
pub open spec fn spec_normal_frame(command: u8, data: Seq<u8>) -> Seq<u8> {
    let len = data.len() + 2;
    let body = seq![PN532_TO_HOST, command] + data;
    seq![0x00u8, 0x00, 0xff, len as u8, checksum_byte(len)] + body + seq![
        checksum_byte(byte_sum(body)),
        POSTAMBLE,
    ]
}

pub proof fn lemma_byte_sum_append(a: Seq<u8>, b: Seq<u8>)
    ensures
        byte_sum(a + b) == byte_sum(a) + byte_sum(b),
    decreases b.len(),
{
    if b.len() == 0 {
        assert(a + b =~= a);
    } else {
        lemma_byte_sum_append(a, b.drop_last());
        assert((a + b).drop_last() =~= a + b.drop_last());
    }
}

proof fn lemma_checksum_closes(sum: nat)
    ensures
        (sum + checksum_byte(sum)) % 256 == 0,
{
    assert((sum + checksum_byte(sum)) % 256 == 0) by (nonlinear_arith)
        requires
            checksum_byte(sum) == (256 - sum % 256) % 256,
    ;
}

/// A frame that has arrived only in part, header included, is reported as
/// truncated with the length of the whole frame: the header (8 bytes for an
/// extended frame, 5 for a normal one), LEN bytes, DCS and the postamble. A
/// caller that fetches exactly the missing bytes then reads the response.
pub proof fn lemma_extended_frame_truncated(command: u8, data: Seq<u8>, k: int)
    requires
        data.len() + 2 <= 0xffff,
        8 <= k < spec_extended_frame(command, data).len(),
    ensures
        spec_response_frame(spec_extended_frame(command, data).take(k), command) == Err::<
            Seq<u8>,
            Pn532FrameError,
        >(Pn532FrameError::Truncated(spec_extended_frame(command, data).len() as usize)),
        spec_extended_frame(command, data).len() == 8 + data.len() + 2 + 2,
{
    let len = data.len() + 2;
    let body = seq![PN532_TO_HOST, command] + data;
    let hi = (len / 256) as u8;
    let lo = (len % 256) as u8;
    let lcs = checksum_byte(len / 256 + len % 256);
    let dcs = checksum_byte(byte_sum(body));
    let head = seq![0x00u8, 0x00, 0xff, 0xff, 0xff, hi, lo, lcs];
    let tail = seq![dcs, POSTAMBLE];
    let f = spec_extended_frame(command, data);
    assert(f =~= head + body + tail);
    let p = f.take(k);
    assert(hi == len / 256 && lo == len % 256);
    lemma_checksum_closes(len / 256 + len % 256);
    assert(256 * hi + lo == len);
    assert(p[0] == 0 && p[1] == 0 && p[2] == 0xff && p[3] == 0xff && p[4] == 0xff);
    assert(p[5] == hi && p[6] == lo && p[7] == lcs);
    assert(is_extended(p));
}

/// The normal-frame case of the truncation report.
pub proof fn lemma_normal_frame_truncated(command: u8, data: Seq<u8>, k: int)
    requires
        data.len() + 2 <= 0xfe,
        5 <= k < spec_normal_frame(command, data).len(),
    ensures
        spec_response_frame(spec_normal_frame(command, data).take(k), command) == Err::<
            Seq<u8>,
            Pn532FrameError,
        >(Pn532FrameError::Truncated(spec_normal_frame(command, data).len() as usize)),
        spec_normal_frame(command, data).len() == 5 + data.len() + 2 + 2,
{
    let len = data.len() + 2;
    let body = seq![PN532_TO_HOST, command] + data;
    let lcs = checksum_byte(len);
    let dcs = checksum_byte(byte_sum(body));
    let head = seq![0x00u8, 0x00, 0xff, len as u8, lcs];
    let tail = seq![dcs, POSTAMBLE];
    let f = spec_normal_frame(command, data);
    assert(f =~= head + body + tail);
    let p = f.take(k);
    lemma_checksum_closes(len);
    assert(p[0] == 0 && p[1] == 0 && p[2] == 0xff && p[3] == len && p[4] == lcs);
    assert(!is_extended(p));
}

/// Round trip of the frame format: an extended frame that the chip builds
/// around a response is read back as exactly that response, whatever bytes
/// follow it.
pub proof fn lemma_extended_frame_roundtrip(command: u8, data: Seq<u8>, rest: Seq<u8>)
    requires
        data.len() + 2 <= 0xffff,
        data.len() + 2 >= 2,
    ensures
        spec_response_frame(spec_extended_frame(command, data) + rest, command) == Ok::<
            Seq<u8>,
            Pn532FrameError,
        >(data),
{
    let len = data.len() + 2;
    let body = seq![PN532_TO_HOST, command] + data;
    let hi = (len / 256) as u8;
    let lo = (len % 256) as u8;
    let lcs = checksum_byte(len / 256 + len % 256);
    let dcs = checksum_byte(byte_sum(body));
    let head = seq![0x00u8, 0x00, 0xff, 0xff, 0xff, hi, lo, lcs];
    let tail = seq![dcs, POSTAMBLE];
    let f = spec_extended_frame(command, data);
    let b = f + rest;
    assert(f =~= head + body + tail);
    assert(hi == len / 256 && lo == len % 256);
    lemma_checksum_closes(len / 256 + len % 256);
    assert(256 * hi + lo == len);
    assert(b[5] == hi && b[6] == lo && b[7] == lcs);
    assert(is_extended(b));
    let frame = b.subrange(8, 8 + len as int + 2);
    assert(frame =~= body + tail);
    assert(frame.drop_last() =~= body.push(dcs));
    lemma_byte_sum_append(body, seq![dcs]);
    assert(seq![dcs].drop_last() =~= Seq::<u8>::empty());
    assert(byte_sum(Seq::<u8>::empty()) == 0);
    assert(byte_sum(seq![dcs]) == dcs);
    assert(body.push(dcs) =~= body + seq![dcs]);
    lemma_checksum_closes(byte_sum(body));
    assert(frame.subrange(2, frame.len() - 2) =~= data);
}

/// Round trip of the normal frame format, for answers of up to 253 bytes.
pub proof fn lemma_normal_frame_roundtrip(command: u8, data: Seq<u8>, rest: Seq<u8>)
    requires
        data.len() + 2 <= 0xfe,
    ensures
        spec_response_frame(spec_normal_frame(command, data) + rest, command) == Ok::<
            Seq<u8>,
            Pn532FrameError,
        >(data),
{
    let len = data.len() + 2;
    let body = seq![PN532_TO_HOST, command] + data;
    let lcs = checksum_byte(len);
    let dcs = checksum_byte(byte_sum(body));
    let head = seq![0x00u8, 0x00, 0xff, len as u8, lcs];
    let tail = seq![dcs, POSTAMBLE];
    let f = spec_normal_frame(command, data);
    let b = f + rest;
    assert(f =~= head + body + tail);
    lemma_checksum_closes(len);
    assert(b[3] == len && b[4] == lcs);
    assert(!is_extended(b));
    let frame = b.subrange(5, 5 + len as int + 2);
    assert(frame =~= body + tail);
    assert(frame.drop_last() =~= body.push(dcs));
    lemma_byte_sum_append(body, seq![dcs]);
    assert(seq![dcs].drop_last() =~= Seq::<u8>::empty());
    assert(byte_sum(Seq::<u8>::empty()) == 0);
    assert(byte_sum(seq![dcs]) == dcs);
    assert(body.push(dcs) =~= body + seq![dcs]);
    lemma_checksum_closes(byte_sum(body));
    assert(frame.subrange(2, frame.len() - 2) =~= data);
}

} // verus!
