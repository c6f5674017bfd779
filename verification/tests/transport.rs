use std::collections::VecDeque;

use vusbipd_ccid::ccid::bridge::CcidBridge;
use vusbipd_ccid::ccid::protocol::{
    CcidCommand, PC_TO_RDR_ABORT, PC_TO_RDR_GET_SLOT_STATUS, PC_TO_RDR_ICC_POWER_ON,
};
use vusbipd_ccid::ccid::transport::{CcidTransport, TransportError, TransportState};
use vusbipd_ccid::nfc::{CardPresence, CardProtocol, NfcReader, ReaderCapabilities, ReaderError};

struct FakeReader {
    poll_results: VecDeque<Result<Option<CardPresence>, ReaderError>>,
}

impl NfcReader for FakeReader {
    fn capabilities(&self) -> ReaderCapabilities {
        ReaderCapabilities {
            name: "fake",
            supports_iso_dep: true,
            supports_apdu_exchange: true,
        }
    }

    fn poll_card(&mut self) -> Result<Option<CardPresence>, ReaderError> {
        self.poll_results.pop_front().unwrap_or_else(|| Ok(None))
    }

    fn power_off(&mut self) -> Result<(), ReaderError> {
        Ok(())
    }

    fn exchange_apdu(&mut self, _apdu: &[u8]) -> Result<Vec<u8>, ReaderError> {
        Ok(vec![0x90, 0x00])
    }
}

fn new_transport(
    poll_results: VecDeque<Result<Option<CardPresence>, ReaderError>>,
) -> CcidTransport<Box<FakeReader>> {
    let bridge = CcidBridge::new(Box::new(FakeReader { poll_results }));
    CcidTransport::new(bridge)
}

fn some_card() -> CardPresence {
    CardPresence {
        uid: vec![1, 2, 3, 4],
        protocol: CardProtocol::IsoDep,
        historical_bytes: vec![],
    }
}

#[test]
fn bulk_out_queues_a_response_frame() {
    let mut transport = new_transport(VecDeque::from([Ok(Some(some_card()))]));

    let payload = vec![PC_TO_RDR_GET_SLOT_STATUS, 0, 0, 0, 0, 0, 1, 0, 0, 0];
    let _decoded = CcidCommand::decode(&payload).expect("payload must decode");
    transport
        .handle_bulk_out(&payload)
        .expect("bulk out must succeed");
    assert!(!transport.handle_bulk_in(64).is_empty());
}

#[test]
fn fragmented_bulk_out_is_buffered_until_complete() {
    let mut transport = new_transport(VecDeque::from([Ok(Some(some_card()))]));

    let payload = vec![PC_TO_RDR_GET_SLOT_STATUS, 0, 0, 0, 0, 0, 1, 0, 0, 0];

    transport
        .handle_bulk_out(&payload[..4])
        .expect("first fragment must succeed");
    assert_eq!(transport.state(), TransportState::Receiving);
    assert!(transport.handle_bulk_in(64).is_empty());

    transport
        .handle_bulk_out(&payload[4..])
        .expect("second fragment must succeed");
    assert_eq!(transport.state(), TransportState::ReadyToSend);
    assert!(!transport.handle_bulk_in(64).is_empty());
}

#[test]
fn slot_change_interrupt_is_generated_when_card_appears() {
    let mut transport = new_transport(VecDeque::from([Ok(Some(some_card()))]));

    let payload = vec![PC_TO_RDR_ICC_POWER_ON, 0, 0, 0, 0, 0, 1, 0, 0, 0];
    let _decoded = CcidCommand::decode(&payload).expect("payload must decode");

    transport
        .handle_bulk_out(&payload)
        .expect("bulk out must succeed");

    assert_eq!(transport.handle_interrupt_in(), vec![0x50, 0x03]);
}

#[test]
fn interrupt_in_returns_empty_when_queue_is_empty() {
    let mut transport = new_transport(VecDeque::from([Ok(None)]));

    assert_eq!(transport.handle_interrupt_in(), vec![0x50, 0x00]);
    assert_eq!(transport.handle_interrupt_in(), vec![0x50, 0x00]);
}

#[test]
fn control_abort_requires_matching_bulk_abort() {
    let mut transport = new_transport(VecDeque::from([Ok(None)]));

    transport
        .handle_control_request(0x21, 0x01, u16::from_le_bytes([0, 7]))
        .expect("control abort must succeed");
    transport
        .handle_bulk_out(&[PC_TO_RDR_GET_SLOT_STATUS, 0, 0, 0, 0, 0, 9, 0, 0, 0])
        .expect("bulk out must succeed");

    let response = transport.handle_bulk_in(64);
    assert_eq!(response[0], 0x81);
    assert_eq!(response[6], 9);
    assert_eq!(response[7] >> 6, 1);
    assert_eq!(response[8], 0xff);
}

#[test]
fn matching_bulk_abort_completes_abort_sequence() {
    let mut transport = new_transport(VecDeque::from([Ok(None)]));

    transport
        .handle_control_request(0x21, 0x01, u16::from_le_bytes([0, 7]))
        .expect("control abort must succeed");
    transport
        .handle_bulk_out(&[PC_TO_RDR_ABORT, 0, 0, 0, 0, 0, 7, 0, 0, 0])
        .expect("matching bulk abort must succeed");

    let response = transport.handle_bulk_in(64);
    assert_eq!(response[0], 0x81);
    assert_eq!(response[6], 7);
    assert_eq!(response[7] >> 6, 0);
    assert_eq!(response[8], 0);
}

#[test]
fn duplicate_slot_status_responses_are_coalesced() {
    let mut transport = new_transport(VecDeque::from([Ok(None), Ok(None)]));
    let payload = [PC_TO_RDR_GET_SLOT_STATUS, 0, 0, 0, 0, 0, 1, 0, 0, 0];

    transport
        .handle_bulk_out(&payload)
        .expect("first slot status request must succeed");
    transport
        .handle_bulk_out(&payload)
        .expect("second slot status request must succeed");

    assert_eq!(transport.pending_in_frame_count(), 1);
}

// Further scenarios.

#[test]
fn control_requests_report_clock_and_data_rate() {
    let mut transport = new_transport(VecDeque::new());
    assert_eq!(transport.handle_control_request(0xa1, 0x02, 0), Ok(vec![0xfc, 0x0d, 0x00, 0x00]));
    assert_eq!(transport.handle_control_request(0xa1, 0x03, 0), Ok(vec![0x80, 0x25, 0x00, 0x00]));
    assert_eq!(
        transport.handle_control_request(0xa1, 0x09, 0),
        Err(TransportError::UnsupportedControlRequest { request_type: 0xa1, request: 0x09 })
    );
    assert_eq!(transport.state(), TransportState::Idle);
}

#[test]
fn bulk_abort_then_control_abort_completes() {
    let mut transport = new_transport(VecDeque::from([Ok(None)]));
    transport
        .handle_bulk_out(&[PC_TO_RDR_ABORT, 0, 0, 0, 0, 0, 5, 0, 0, 0])
        .expect("bulk abort must succeed");
    assert_eq!(transport.pending_in_frame_count(), 0);
    transport
        .handle_control_request(0x21, 0x01, u16::from_le_bytes([0, 5]))
        .expect("control abort must succeed");
    let response = transport.handle_bulk_in(64);
    assert_eq!(response, vec![0x81, 0, 0, 0, 0, 0, 5, 0x02, 0, 0]);
}

#[test]
fn control_abort_for_other_slot_is_ignored() {
    let mut transport = new_transport(VecDeque::from([Ok(None)]));
    transport
        .handle_control_request(0x21, 0x01, u16::from_le_bytes([1, 5]))
        .expect("control abort must succeed");
    transport
        .handle_bulk_out(&[PC_TO_RDR_GET_SLOT_STATUS, 0, 0, 0, 0, 0, 9, 0, 0, 0])
        .expect("bulk out must succeed");
    let response = transport.handle_bulk_in(64);
    assert_eq!(response, vec![0x81, 0, 0, 0, 0, 0, 9, 0x02, 0, 0]);
}

#[test]
fn oversized_frame_is_rejected_and_dropped() {
    let mut transport = new_transport(VecDeque::new());
    // Payload length 3073 exceeds the 3072 byte maximum.
    let result = transport.handle_bulk_out(&[0x6f, 0x01, 0x0c, 0, 0, 0, 1, 0, 0, 0]);
    assert_eq!(result, Err(TransportError::FrameTooLong(3083)));
    assert_eq!(transport.state(), TransportState::Idle);
}

#[test]
fn two_commands_in_one_packet_are_both_answered() {
    let mut transport = new_transport(VecDeque::from([Ok(None), Ok(None)]));
    let mut payload = vec![PC_TO_RDR_GET_SLOT_STATUS, 0, 0, 0, 0, 0, 1, 0, 0, 0];
    payload.extend_from_slice(&[PC_TO_RDR_GET_SLOT_STATUS, 0, 0, 0, 0, 0, 2, 0, 0, 0]);
    transport.handle_bulk_out(&payload).expect("bulk out must succeed");
    assert_eq!(transport.pending_in_frame_count(), 2);
    assert_eq!(transport.handle_bulk_in(64)[6], 1);
    assert_eq!(transport.handle_bulk_in(64)[6], 2);
    assert_eq!(transport.state(), TransportState::Idle);
}

#[test]
fn long_response_is_split_and_padded_with_empty_packet() {
    let mut transport = new_transport(VecDeque::from([Ok(None)]));
    transport
        .handle_bulk_out(&[PC_TO_RDR_GET_SLOT_STATUS, 0, 0, 0, 0, 0, 1, 0, 0, 0])
        .expect("bulk out must succeed");
    // The 10-byte response fits in 4 + 4 + 2 bytes.
    assert_eq!(transport.handle_bulk_in(4), vec![0x81, 0, 0, 0]);
    assert_eq!(transport.handle_bulk_in(4), vec![0, 0, 1, 0x02]);
    assert_eq!(transport.handle_bulk_in(4), vec![0, 0]);
    assert!(transport.handle_bulk_in(4).is_empty());

    transport
        .handle_bulk_out(&[PC_TO_RDR_GET_SLOT_STATUS, 0, 0, 0, 0, 0, 2, 0, 0, 0])
        .expect("bulk out must succeed");
    // A response that fills whole packets is followed by a zero-length packet.
    assert_eq!(transport.handle_bulk_in(5).len(), 5);
    assert_eq!(transport.handle_bulk_in(5).len(), 5);
    assert_eq!(transport.pending_in_frame_count(), 1);
    assert!(transport.handle_bulk_in(5).is_empty());
    assert_eq!(transport.pending_in_frame_count(), 0);
}

#[test]
fn interrupt_reports_card_removal() {
    let mut transport = new_transport(VecDeque::from([Ok(Some(some_card())), Ok(None)]));
    transport
        .handle_bulk_out(&[PC_TO_RDR_GET_SLOT_STATUS, 0, 0, 0, 0, 0, 1, 0, 0, 0])
        .expect("bulk out must succeed");
    assert_eq!(transport.handle_interrupt_in(), vec![0x50, 0x03]);
    assert_eq!(transport.handle_interrupt_in(), vec![0x50, 0x02]);
}

#[test]
fn apdu_exchange_end_to_end() {
    let mut transport = new_transport(VecDeque::from([Ok(Some(some_card()))]));
    transport
        .handle_bulk_out(&[PC_TO_RDR_ICC_POWER_ON, 0, 0, 0, 0, 0, 1, 0, 0, 0])
        .expect("power on must succeed");
    let atr = transport.handle_bulk_in(64);
    assert_eq!(&atr[..10], &[0x80, 5, 0, 0, 0, 0, 1, 0x00, 0, 0]);
    assert_eq!(&atr[10..], &[0x3b, 0x80, 0x80, 0x01, 0x01]);
    transport
        .handle_bulk_out(&[0x6f, 4, 0, 0, 0, 0, 2, 0, 0, 0, 0x00, 0xa4, 0x04, 0x00])
        .expect("APDU must be accepted");
    assert_eq!(transport.handle_bulk_in(64), vec![0x80, 2, 0, 0, 0, 0, 2, 0x00, 0, 0, 0x90, 0x00]);
    assert_eq!(transport.state(), TransportState::Idle);
}

#[test]
fn frame_split_into_three_packets_is_answered_once_complete() {
    let mut transport = new_transport(VecDeque::from([Ok(Some(some_card()))]));
    let payload = vec![PC_TO_RDR_GET_SLOT_STATUS, 0, 0, 0, 0, 0, 4, 0, 0, 0];

    transport.handle_bulk_out(&payload[..2]).expect("first packet");
    assert_eq!(transport.pending_in_frame_count(), 0);
    transport.handle_bulk_out(&payload[2..7]).expect("second packet");
    assert_eq!(transport.pending_in_frame_count(), 0);
    transport.handle_bulk_out(&payload[7..]).expect("third packet");
    assert_eq!(transport.pending_in_frame_count(), 1);

    let mut whole = new_transport(VecDeque::from([Ok(Some(some_card()))]));
    whole.handle_bulk_out(&payload).expect("one packet");
    assert_eq!(transport.handle_bulk_in(64), whole.handle_bulk_in(64));
}

#[test]
fn successive_bulk_in_packets_concatenate_to_the_response() {
    let mut transport = new_transport(VecDeque::from([Ok(Some(some_card()))]));
    transport
        .handle_bulk_out(&[PC_TO_RDR_ICC_POWER_ON, 0, 0, 0, 0, 0, 2, 0, 0, 0])
        .expect("bulk out must succeed");

    let mut whole = new_transport(VecDeque::from([Ok(Some(some_card()))]));
    whole
        .handle_bulk_out(&[PC_TO_RDR_ICC_POWER_ON, 0, 0, 0, 0, 0, 2, 0, 0, 0])
        .expect("bulk out must succeed");
    let expected = whole.handle_bulk_in(4096);

    let mut received = Vec::new();
    for _ in 0..16 {
        let packet = transport.handle_bulk_in(3);
        assert!(packet.len() <= 3);
        received.extend_from_slice(&packet);
    }
    assert_eq!(received, expected);
    assert_eq!(transport.pending_in_frame_count(), 0);
}

#[test]
fn chunks_that_complete_frames_are_answered_as_one_packet() {
    let mut frames = vec![PC_TO_RDR_GET_SLOT_STATUS, 0, 0, 0, 0, 0, 1, 0, 0, 0];
    frames.extend_from_slice(&[PC_TO_RDR_ICC_POWER_ON, 0, 0, 0, 0, 0, 2, 0, 0, 0]);

    let mut split = new_transport(VecDeque::from([Ok(Some(some_card())), Ok(Some(some_card()))]));
    split.handle_bulk_out(&frames[..3]).expect("first chunk");
    split.handle_bulk_out(&frames[3..13]).expect("second chunk");
    split.handle_bulk_out(&frames[13..]).expect("third chunk");

    let mut whole = new_transport(VecDeque::from([Ok(Some(some_card())), Ok(Some(some_card()))]));
    whole.handle_bulk_out(&frames).expect("one packet");

    assert_eq!(split.pending_in_frame_count(), whole.pending_in_frame_count());
    for _ in 0..3 {
        assert_eq!(split.handle_bulk_in(64), whole.handle_bulk_in(64));
    }
    assert_eq!(split.handle_interrupt_in(), whole.handle_interrupt_in());
}
