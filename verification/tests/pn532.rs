use vusbipd_ccid::nfc::pn532::{
    ats_historical_bytes, build_exchange_request, can_return_cached_presence, map_pn532_error,
    parse_exchange_response, parse_target_response, poll_interval_ms, receive_dynamic_response_from,
    rf_field_change, Pn532Failure, Pn532FrameError, PN532_TO_HOST,
};
use vusbipd_ccid::nfc::pn532::{after_poll, check_port_path, next_poll_action, PollAction};
use vusbipd_ccid::nfc::{CardPresence, CardProtocol, ReaderError};

#[test]
fn ats_historical_bytes_skip_tl_t0_and_interface_bytes() {
    let ats = [
        0x12, 0x78, 0xb3, 0x84, 0x00, 0x80, 0x73, 0xc0, 0x21, 0xc0, 0x57, 0x59, 0x75,
        0x62, 0x69, 0x4b, 0x65, 0x79,
    ];

    let historical_bytes = ats_historical_bytes(&ats).expect("ATS must parse");

    assert_eq!(
        historical_bytes,
        vec![0x80, 0x73, 0xc0, 0x21, 0xc0, 0x57, 0x59, 0x75, 0x62, 0x69, 0x4b, 0x65, 0x79]
    );
}

#[test]
fn cached_present_card_requires_active_target() {
    assert!(!can_return_cached_presence(true, false, true));
    assert!(can_return_cached_presence(true, true, true));
    assert!(can_return_cached_presence(false, false, true));
    assert!(!can_return_cached_presence(true, true, false));
}

#[test]
fn receive_dynamic_response_parses_extended_frames() {
    let expected_command = 0x41;
    let payload = vec![0xa5; 260];
    let frame_len = payload.len() + 2;
    let frame_len_bytes = (frame_len as u16).to_be_bytes();

    let mut frame = vec![0x00, 0x00, 0xff, 0xff, 0xff];
    frame.extend_from_slice(&frame_len_bytes);
    frame.push(
        0u8.wrapping_sub(frame_len_bytes[0].wrapping_add(frame_len_bytes[1])),
    );
    frame.push(PN532_TO_HOST);
    frame.push(expected_command);
    frame.extend_from_slice(&payload);

    let data_checksum = frame[8..]
        .iter()
        .fold(0u8, |sum, byte| sum.wrapping_add(*byte));
    frame.push(0u8.wrapping_sub(data_checksum));
    frame.push(0x00);

    let parsed = receive_dynamic_response_from(frame.as_slice(), expected_command)
        .expect("extended frame must parse");

    assert_eq!(parsed, payload);
}

// Further scenarios.

fn normal_frame(command: u8, data: &[u8]) -> Vec<u8> {
    let len = (data.len() + 2) as u8;
    let mut frame = vec![0x00, 0x00, 0xff, len, 0u8.wrapping_sub(len), PN532_TO_HOST, command];
    frame.extend_from_slice(data);
    let sum = frame[5..].iter().fold(0u8, |s, b| s.wrapping_add(*b));
    frame.push(0u8.wrapping_sub(sum));
    frame.push(0x00);
    frame
}

#[test]
fn normal_frame_parses_and_ignores_trailing_bytes() {
    let mut frame = normal_frame(0x4b, &[0x01, 0x01, 0x00, 0x44]);
    frame.extend_from_slice(&[0x00, 0x00, 0xff]);
    assert_eq!(receive_dynamic_response_from(&frame, 0x4b), Ok(vec![0x01, 0x01, 0x00, 0x44]));
}

#[test]
fn frame_errors() {
    let frame = normal_frame(0x4b, &[0x01]);
    assert_eq!(receive_dynamic_response_from(&frame[..3], 0x4b), Err(Pn532FrameError::Truncated(5)));
    assert_eq!(receive_dynamic_response_from(&frame[..6], 0x4b), Err(Pn532FrameError::Truncated(10)));
    assert_eq!(receive_dynamic_response_from(&frame, 0x43), Err(Pn532FrameError::BadResponseFrame));
    let mut bad_lcs = frame.clone();
    bad_lcs[4] ^= 1;
    assert_eq!(receive_dynamic_response_from(&bad_lcs, 0x4b), Err(Pn532FrameError::CrcError));
    let mut bad_dcs = frame.clone();
    bad_dcs[8] ^= 1;
    assert_eq!(receive_dynamic_response_from(&bad_dcs, 0x4b), Err(Pn532FrameError::CrcError));
    let mut bad_postamble = frame.clone();
    bad_postamble[9] = 0x01;
    assert_eq!(receive_dynamic_response_from(&bad_postamble, 0x4b), Err(Pn532FrameError::BadResponseFrame));
    assert_eq!(receive_dynamic_response_from(&[0x00, 0x00, 0xfe, 0x00, 0x00], 0x4b), Err(Pn532FrameError::BadResponseFrame));
    // A frame of length one is the chip's syntax error frame.
    assert_eq!(receive_dynamic_response_from(&[0x00, 0x00, 0xff, 0x01, 0xff, 0x7f, 0x81, 0x00], 0x4b), Err(Pn532FrameError::Syntax));
    assert_eq!(receive_dynamic_response_from(&[0x00, 0x00, 0xff, 0x00, 0x00, 0x00], 0x4b), Err(Pn532FrameError::BadResponseFrame));
    assert_eq!(receive_dynamic_response_from(&[0x00, 0x00, 0xff, 0xff, 0xff, 0x00], 0x4b), Err(Pn532FrameError::Truncated(8)));
}

#[test]
fn ats_errors_carry_messages() {
    assert_eq!(ats_historical_bytes(&[0x01]), Err(ReaderError::Protocol("ATS too short: 1 bytes".to_string())));
    assert_eq!(
        ats_historical_bytes(&[0x05, 0x00]),
        Err(ReaderError::Protocol("ATS length mismatch: TL=5 actual=2".to_string()))
    );
    assert_eq!(
        ats_historical_bytes(&[0x03, 0x70, 0x00]),
        Err(ReaderError::Protocol("ATS optional interface bytes exceed TL: TL=3 T0=0x70".to_string()))
    );
    assert_eq!(ats_historical_bytes(&[0x02, 0x00]), Ok(vec![]));
}

#[test]
fn target_response_parsing() {
    assert_eq!(parse_target_response(&[]), Ok(None));
    assert_eq!(parse_target_response(&[0x00]), Ok(None));
    assert_eq!(
        parse_target_response(&[0x01, 0x01, 0x00]),
        Err(ReaderError::Protocol("PN532 target response too short: 3 bytes".to_string()))
    );
    assert_eq!(
        parse_target_response(&[0x01, 0x01, 0x00, 0x44, 0x20, 0x07, 0x04]),
        Err(ReaderError::Protocol("PN532 target response truncated before UID: 7 bytes".to_string()))
    );
    assert_eq!(
        parse_target_response(&[0x01, 0x01, 0x00, 0x44, 0x20, 0x02, 0xaa, 0xbb, 0x05, 0x78]),
        Err(ReaderError::Protocol("PN532 target response truncated before ATS: 10 bytes".to_string()))
    );
    let (target, card) = parse_target_response(&[
        0x01, 0x01, 0x00, 0x44, 0x20, 0x02, 0xaa, 0xbb, 0x05, 0x78, 0x80, 0x70, 0x02, 0x11,
    ])
    .expect("response must parse")
    .expect("a target must be present");
    assert_eq!(target, 1);
    assert_eq!(card.uid, vec![0xaa, 0xbb]);
    assert_eq!(card.historical_bytes, Vec::<u8>::new());
    let (_, card) = parse_target_response(&[0x01, 0x02, 0x00, 0x44, 0x20, 0x01, 0xcc])
        .expect("response must parse")
        .expect("a target must be present");
    assert_eq!(card.uid, vec![0xcc]);
    assert!(card.historical_bytes.is_empty());
}

#[test]
fn exchange_request_and_response() {
    assert_eq!(build_exchange_request(1, &[0x00, 0xa4]), Ok(vec![0x01, 0x00, 0xa4]));
    assert_eq!(build_exchange_request(1, &[0u8; 310]).map(|v| v.len()), Ok(311));
    assert_eq!(
        build_exchange_request(1, &[0u8; 311]),
        Err(ReaderError::Unsupported("APDU of 311 bytes exceeds current PN532 buffer budget".to_string()))
    );
    assert_eq!(parse_exchange_response(&[0x00, 0x90, 0x00]), Ok(vec![0x90, 0x00]));
    assert_eq!(
        parse_exchange_response(&[]),
        Err(ReaderError::Protocol("PN532 returned an empty APDU exchange response".to_string()))
    );
    assert_eq!(
        parse_exchange_response(&[0x01]),
        Err(ReaderError::Protocol("PN532 reported APDU exchange status 0x01".to_string()))
    );
}

#[test]
fn pn532_errors_are_mapped() {
    assert_eq!(
        map_pn532_error("poll", Pn532Failure::BadAck),
        ReaderError::Protocol("failed to poll: bad PN532 ACK".to_string())
    );
    assert_eq!(
        map_pn532_error("poll", Pn532Failure::TimeoutResponse),
        ReaderError::Transport("failed to poll: timeout waiting for PN532 response".to_string())
    );
    assert_eq!(
        map_pn532_error("poll", Pn532Failure::InterfaceError("gone".to_string())),
        ReaderError::Io("gone".to_string())
    );
}

#[test]
fn polling_policy_helpers() {
    assert_eq!(poll_interval_ms(true), 1000);
    assert_eq!(poll_interval_ms(false), 2000);
    assert_eq!(rf_field_change(false, true), Some(vec![0x01, 0x01]));
    assert_eq!(rf_field_change(true, false), Some(vec![0x01, 0x00]));
    assert_eq!(rf_field_change(true, true), None);
}

#[test]
fn poll_answer_updates_reader_state() {
    let none = after_poll(None);
    assert_eq!(none.active_target, None);
    assert_eq!(none.card, None);
    assert!(none.switch_field_off);

    let card = CardPresence {
        uid: vec![0x04, 0x11],
        protocol: CardProtocol::IsoDep,
        historical_bytes: vec![0x80],
    };
    let found = after_poll(Some((1, card.clone())));
    assert_eq!(found.active_target, Some(1));
    assert_eq!(found.card, Some(card));
    assert!(!found.switch_field_off);
}

#[test]
fn empty_port_path_is_refused() {
    match check_port_path(true) {
        Err(ReaderError::Configuration(message)) => {
            assert_eq!(message, "PN532 UART port path must not be empty")
        }
        other => panic!("unexpected {other:?}"),
    }
    assert!(check_port_path(false).is_ok());
}

#[test]
fn poll_action_follows_freshness_and_target() {
    assert!(matches!(next_poll_action(false, false, None), PollAction::PollChip));
    assert!(matches!(next_poll_action(false, false, Some(0)), PollAction::ReturnCached));
    assert!(matches!(next_poll_action(true, true, Some(0)), PollAction::ReturnCached));
    assert!(matches!(next_poll_action(true, false, Some(0)), PollAction::PollChip));
    assert!(matches!(next_poll_action(true, true, Some(u64::MAX)), PollAction::PollChip));
}
