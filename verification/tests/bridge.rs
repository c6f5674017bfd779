use std::collections::VecDeque;

use vusbipd_ccid::ccid::bridge::CcidBridge;
use vusbipd_ccid::ccid::protocol::{CcidCommand, CcidResponse, CommandStatus, IccStatus, SlotStatus};
use vusbipd_ccid::nfc::{CardPresence, CardProtocol, NfcReader, ReaderCapabilities, ReaderError};
use vusbipd_ccid::text::format_hex;

struct FakeReader {
    poll_results: VecDeque<Result<Option<CardPresence>, ReaderError>>,
    exchange_result: Result<Vec<u8>, ReaderError>,
}

impl NfcReader for FakeReader {
    fn capabilities(&self) -> ReaderCapabilities {
        ReaderCapabilities {
            name: "fake",
            supports_iso_dep: true,
            supports_apdu_exchange: true,
        }
    }

    fn poll_card(&mut self) -> Result<Option<CardPresence>, ReaderError> {
        self.poll_results.pop_front().unwrap_or_else(|| Ok(None))
    }

    fn power_off(&mut self) -> Result<(), ReaderError> {
        Ok(())
    }

    fn exchange_apdu(&mut self, _apdu: &[u8]) -> Result<Vec<u8>, ReaderError> {
        self.exchange_result.clone()
    }
}

fn yubikey_card() -> CardPresence {
    CardPresence {
        uid: vec![0x01, 0x02, 0x03, 0x04],
        protocol: CardProtocol::IsoDep,
        historical_bytes: vec![0x3b, 0x68, 0x00, 0xff, 0x38, 0x2b, 0x41, 0x52, 0x44, 0x6e, 0x73, 0x73],
    }
}

#[test]
fn power_on_returns_data_block_when_card_exists() {
    let card = yubikey_card();

    let reader = FakeReader {
        poll_results: VecDeque::from([Ok(Some(card))]),
        exchange_result: Ok(vec![0x90, 0x00]),
    };
    let mut bridge = CcidBridge::new(Box::new(reader));

    let response = bridge.handle_command(CcidCommand::IccPowerOn {
        slot: 0,
        seq: 7,
        power_select: 0,
    });

    match response {
        CcidResponse::DataBlock {
            status, payload, ..
        } => {
            assert_eq!(status, SlotStatus::ok(IccStatus::Active));
            assert_eq!(payload, vec![0x3b, 0x68, 0x00, 0xff, 0x38, 0x2b, 0x41, 0x52, 0x44, 0x6e, 0x73, 0x73]);
        }
        other => panic!("unexpected response: {other:?}"),
    }
}

#[test]
fn power_off_keeps_card_present_but_inactive() {
    let card = yubikey_card();

    let reader = FakeReader {
        poll_results: VecDeque::from([Ok(Some(card.clone())), Ok(Some(card))]),
        exchange_result: Ok(vec![0x90, 0x00]),
    };
    let mut bridge = CcidBridge::new(Box::new(reader));

    let _ = bridge.handle_command(CcidCommand::IccPowerOn {
        slot: 0,
        seq: 1,
        power_select: 0,
    });
    let response = bridge.handle_command(CcidCommand::IccPowerOff { slot: 0, seq: 2 });

    match response {
        CcidResponse::SlotStatus { status, .. } => {
            assert_eq!(status, SlotStatus::ok(IccStatus::Inactive));
            assert!(bridge.card_present());
        }
        other => panic!("unexpected response: {other:?}"),
    }
}

#[test]
fn refresh_does_not_poll_while_powered_card_is_connected() {
    let card = CardPresence {
        uid: vec![0x01, 0x02, 0x03, 0x04],
        protocol: CardProtocol::IsoDep,
        historical_bytes: vec![0x3b, 0x68, 0x00, 0xff],
    };

    let reader = FakeReader {
        poll_results: VecDeque::from([Ok(Some(card)), Ok(None)]),
        exchange_result: Ok(vec![0x90, 0x00]),
    };
    let mut bridge = CcidBridge::new(Box::new(reader));

    let _ = bridge.handle_command(CcidCommand::IccPowerOn {
        slot: 0,
        seq: 1,
        power_select: 0,
    });

    assert!(bridge.refresh_card_presence().expect("refresh must succeed"));
    assert!(bridge.card_present());
    assert_eq!(bridge.current_icc_status(), IccStatus::Active);
}

#[test]
fn get_parameters_returns_t1_defaults() {
    let reader = FakeReader {
        poll_results: VecDeque::new(),
        exchange_result: Ok(vec![0x90, 0x00]),
    };
    let mut bridge = CcidBridge::new(Box::new(reader));

    let response = bridge.handle_command(CcidCommand::GetParameters { slot: 0, seq: 1 });

    match response {
        CcidResponse::Parameters {
            protocol_num,
            payload,
            ..
        } => {
            assert_eq!(protocol_num, 1);
            assert_eq!(payload, vec![0x11, 0x10, 0x00, 0x15, 0x00, 0xfe, 0x00]);
        }
        other => panic!("unexpected response: {other:?}"),
    }
}

#[test]
fn build_pseudo_atr_declares_t1_protocol() {
    let card = CardPresence {
        uid: vec![0x27, 0x9c, 0x8b, 0x22, 0x02, 0x8b, 0x9c],
        protocol: CardProtocol::IsoDep,
        historical_bytes: vec![
            0x80, 0x73, 0xc0, 0x21, 0xc0, 0x57, 0x59, 0x75, 0x62, 0x69, 0x4b, 0x65, 0x79,
        ],
    };

    let atr = CcidBridge::<FakeReader>::build_pseudo_atr(&card);

    assert_eq!(atr[0], 0x3b);
    assert_eq!(atr[1], 0x8d);
    assert_eq!(atr[2], 0x80);
    assert_eq!(atr[3], 0x01);
    assert_eq!(&atr[4..17], card.historical_bytes.as_slice());
}

#[test]
fn select_aid_extracts_df_name() {
    let apdu = [0x00, 0xa4, 0x04, 0x00, 0x03, 0xa0, 0x00, 0x01, 0x00];

    assert_eq!(CcidBridge::<FakeReader>::select_aid(&apdu), Some([0xa0, 0x00, 0x01].as_slice()));
}

#[test]
fn format_hex_returns_lowercase_hex() {
    assert_eq!(format_hex(&[0xa0, 0x00, 0x01]), "a00001");
}

// Further scenarios.

fn fake(poll_results: Vec<Result<Option<CardPresence>, ReaderError>>, exchange: Result<Vec<u8>, ReaderError>) -> CcidBridge<Box<FakeReader>> {
    CcidBridge::new(Box::new(FakeReader {
        poll_results: VecDeque::from(poll_results),
        exchange_result: exchange,
    }))
}

#[test]
fn pseudo_atr_check_byte_closes_the_xor() {
    let card = CardPresence {
        uid: vec![1],
        protocol: CardProtocol::IsoDep,
        historical_bytes: vec![0x80, 0x73, 0xc0, 0x21, 0xc0, 0x57, 0x59, 0x75, 0x62, 0x69, 0x4b, 0x65, 0x79],
    };
    let atr = CcidBridge::<FakeReader>::build_pseudo_atr(&card);
    assert_eq!(atr.len(), 18);
    assert_eq!(atr[1..].iter().fold(0u8, |a, b| a ^ b), 0);
    // 0x8d ^ 0x80 ^ 0x01 ^ (historical bytes) gives the check byte.
    let expected_tck = [0x8du8, 0x80, 0x01]
        .iter()
        .chain(card.historical_bytes.iter())
        .fold(0u8, |a, b| a ^ b);
    assert_eq!(atr[17], expected_tck);
}

#[test]
fn pseudo_atr_keeps_at_most_fifteen_historical_bytes() {
    let card = CardPresence {
        uid: vec![1],
        protocol: CardProtocol::IsoDep,
        historical_bytes: (1u8..=20).collect(),
    };
    let atr = CcidBridge::<FakeReader>::build_pseudo_atr(&card);
    assert_eq!(atr.len(), 20);
    assert_eq!(atr[1], 0x8f);
    assert_eq!(&atr[4..19], &card.historical_bytes[..15]);
}

#[test]
fn pseudo_atr_of_empty_historical_bytes() {
    let card = CardPresence { uid: vec![], protocol: CardProtocol::IsoDep, historical_bytes: vec![] };
    let atr = CcidBridge::<FakeReader>::build_pseudo_atr(&card);
    assert_eq!(atr, vec![0x3b, 0x80, 0x80, 0x01, 0x01]);
}

#[test]
fn select_aid_rejects_other_apdus() {
    assert_eq!(CcidBridge::<FakeReader>::select_aid(&[0x00, 0xa4, 0x04, 0x00, 0x00]), None);
    assert_eq!(CcidBridge::<FakeReader>::select_aid(&[0x00, 0xb0, 0x04, 0x00, 0x01, 0xaa]), None);
    assert_eq!(CcidBridge::<FakeReader>::select_aid(&[0x00, 0xa4, 0x04, 0x00, 0x03, 0xa0]), None);
    assert_eq!(CcidBridge::<FakeReader>::select_aid(&[0x00, 0xa4, 0x04]), None);
}

#[test]
fn power_on_without_card_reports_not_present() {
    let mut bridge = fake(vec![Ok(None)], Ok(vec![0x90, 0x00]));
    let response = bridge.handle_command(CcidCommand::IccPowerOn { slot: 0, seq: 3, power_select: 1 });
    assert_eq!(
        response,
        CcidResponse::SlotStatus {
            slot: 0,
            seq: 3,
            status: SlotStatus::failed(IccStatus::NotPresent),
            error: 0xff,
            clock_status: 0
        }
    );
    assert!(!bridge.card_present());
}

#[test]
fn power_on_with_reader_error_reports_inactive() {
    let mut bridge = fake(vec![Err(ReaderError::Transport("x".to_string()))], Ok(vec![]));
    let response = bridge.handle_command(CcidCommand::IccPowerOn { slot: 0, seq: 4, power_select: 0 });
    assert_eq!(
        response,
        CcidResponse::SlotStatus {
            slot: 0,
            seq: 4,
            status: SlotStatus::failed(IccStatus::Inactive),
            error: 0xff,
            clock_status: 0
        }
    );
}

#[test]
fn xfr_block_forwards_apdu_to_powered_card() {
    let mut bridge = fake(vec![Ok(Some(yubikey_card()))], Ok(vec![0x6a, 0x82]));
    let _ = bridge.handle_command(CcidCommand::IccPowerOn { slot: 0, seq: 1, power_select: 0 });
    let response = bridge.handle_command(CcidCommand::XfrBlock {
        slot: 0,
        seq: 2,
        bwi: 0,
        level_parameter: 0,
        payload: vec![0x00, 0xa4, 0x04, 0x00, 0x01, 0xaa],
    });
    assert_eq!(
        response,
        CcidResponse::DataBlock {
            slot: 0,
            seq: 2,
            status: SlotStatus::ok(IccStatus::Active),
            error: 0,
            chain_parameter: 0,
            payload: vec![0x6a, 0x82]
        }
    );
}

#[test]
fn xfr_block_to_unpowered_card_is_refused() {
    // The card is found by the poll that the APDU exchange triggers, but it has not been powered.
    let mut bridge = fake(vec![Ok(Some(yubikey_card()))], Ok(vec![0x90, 0x00]));
    let response = bridge.handle_command(CcidCommand::XfrBlock {
        slot: 0,
        seq: 5,
        bwi: 0,
        level_parameter: 0,
        payload: vec![0x00],
    });
    assert_eq!(
        response,
        CcidResponse::SlotStatus {
            slot: 0,
            seq: 5,
            status: SlotStatus::failed(IccStatus::Inactive),
            error: 0xff,
            clock_status: 0
        }
    );
    assert!(bridge.card_present());
}

#[test]
fn xfr_block_without_card_reports_not_present() {
    let mut bridge = fake(vec![Ok(None)], Ok(vec![0x90, 0x00]));
    let response = bridge.handle_command(CcidCommand::XfrBlock {
        slot: 0,
        seq: 6,
        bwi: 0,
        level_parameter: 0,
        payload: vec![0x00],
    });
    assert_eq!(
        response,
        CcidResponse::SlotStatus {
            slot: 0,
            seq: 6,
            status: SlotStatus::failed(IccStatus::NotPresent),
            error: 0xff,
            clock_status: 0
        }
    );
}

#[test]
fn xfr_block_exchange_failure_reports_failed_active() {
    let mut bridge = fake(vec![Ok(Some(yubikey_card()))], Err(ReaderError::Protocol("e".to_string())));
    let _ = bridge.handle_command(CcidCommand::IccPowerOn { slot: 0, seq: 1, power_select: 0 });
    let response = bridge.handle_command(CcidCommand::XfrBlock {
        slot: 0,
        seq: 2,
        bwi: 0,
        level_parameter: 0,
        payload: vec![0x00],
    });
    assert_eq!(
        response,
        CcidResponse::SlotStatus {
            slot: 0,
            seq: 2,
            status: SlotStatus::failed(IccStatus::Active),
            error: 0xff,
            clock_status: 0
        }
    );
}

#[test]
fn set_parameters_accepts_t1_and_rejects_others() {
    let mut bridge = fake(vec![], Ok(vec![]));
    let new_params = vec![0x13, 0x10, 0x00, 0x45, 0x00, 0xfe, 0x00];
    let response = bridge.handle_command(CcidCommand::SetParameters {
        slot: 0,
        seq: 1,
        protocol_num: 1,
        payload: new_params.clone(),
    });
    assert_eq!(
        response,
        CcidResponse::Parameters {
            slot: 0,
            seq: 1,
            status: SlotStatus::ok(IccStatus::NotPresent),
            error: 0,
            protocol_num: 1,
            payload: new_params.clone()
        }
    );
    let response = bridge.handle_command(CcidCommand::SetParameters {
        slot: 0,
        seq: 2,
        protocol_num: 0,
        payload: vec![0x11, 0x00, 0x00, 0x0a, 0x00],
    });
    assert_eq!(
        response,
        CcidResponse::Parameters {
            slot: 0,
            seq: 2,
            status: SlotStatus::failed(IccStatus::NotPresent),
            error: 0xff,
            protocol_num: 1,
            payload: new_params
        }
    );
    let response = bridge.handle_command(CcidCommand::ResetParameters { slot: 0, seq: 3 });
    assert_eq!(
        response,
        CcidResponse::Parameters {
            slot: 0,
            seq: 3,
            status: SlotStatus::ok(IccStatus::NotPresent),
            error: 0,
            protocol_num: 1,
            payload: vec![0x11, 0x10, 0x00, 0x15, 0x00, 0xfe, 0x00]
        }
    );
}

#[test]
fn unknown_command_is_answered_as_failed() {
    let mut bridge = fake(vec![], Ok(vec![]));
    let response = bridge.handle_command(CcidCommand::Unknown {
        message_type: 0x6b,
        slot: 0,
        seq: 9,
        parameters: [0, 0, 0],
        payload: vec![],
    });
    assert_eq!(
        response,
        CcidResponse::SlotStatus {
            slot: 0,
            seq: 9,
            status: SlotStatus { icc: IccStatus::NotPresent, command: CommandStatus::Failed },
            error: 0xff,
            clock_status: 0
        }
    );
}

#[test]
fn slot_status_with_dummy_reader_powers_the_card() {
    let factory = vusbipd_ccid::nfc::dummy::DummyReader {
        card_present: true,
        selected_applet: vusbipd_ccid::nfc::dummy::SelectedApplet::NoApplet,
    };
    let mut bridge = CcidBridge::new(factory);
    let response = bridge.handle_command(CcidCommand::GetSlotStatus { slot: 0, seq: 1 });
    assert_eq!(
        response,
        CcidResponse::SlotStatus {
            slot: 0,
            seq: 1,
            status: SlotStatus::ok(IccStatus::Active),
            error: 0,
            clock_status: 0
        }
    );
}

#[test]
fn slot_status_with_other_reader_leaves_card_inactive() {
    let mut bridge = fake(vec![Ok(Some(yubikey_card()))], Ok(vec![]));
    let response = bridge.handle_command(CcidCommand::GetSlotStatus { slot: 0, seq: 1 });
    assert_eq!(
        response,
        CcidResponse::SlotStatus {
            slot: 0,
            seq: 1,
            status: SlotStatus::ok(IccStatus::Inactive),
            error: 0,
            clock_status: 0
        }
    );
}

#[test]
fn completing_a_power_on_with_a_given_poll_answer() {
    let mut bridge = fake(vec![], Ok(vec![]));
    let card = CardPresence { uid: vec![9], protocol: CardProtocol::IsoDep, historical_bytes: vec![0x3f, 0x01] };
    let response = bridge.complete_power_on(0, 8, Ok(Some(card)));
    assert_eq!(
        response,
        CcidResponse::DataBlock {
            slot: 0,
            seq: 8,
            status: SlotStatus::ok(IccStatus::Active),
            error: 0,
            chain_parameter: 0,
            payload: vec![0x3f, 0x01]
        }
    );
    assert_eq!(bridge.current_icc_status(), IccStatus::Active);
}

#[test]
fn abort_is_answered_with_current_status() {
    let mut bridge = fake(vec![], Ok(vec![]));
    let response = bridge.handle_command(CcidCommand::Abort { slot: 0, seq: 4 });
    assert_eq!(
        response,
        CcidResponse::SlotStatus {
            slot: 0,
            seq: 4,
            status: SlotStatus::ok(IccStatus::NotPresent),
            error: 0,
            clock_status: 0
        }
    );
}

#[derive(Debug, Clone, PartialEq, Eq)]
enum Call {
    Poll,
    PowerOff,
    Exchange(Vec<u8>),
}

struct RecordingReader {
    calls: std::sync::Arc<std::sync::Mutex<Vec<Call>>>,
}

impl NfcReader for RecordingReader {
    fn capabilities(&self) -> ReaderCapabilities {
        ReaderCapabilities {
            name: "recording",
            supports_iso_dep: true,
            supports_apdu_exchange: true,
        }
    }

    fn poll_card(&mut self) -> Result<Option<CardPresence>, ReaderError> {
        self.calls.lock().unwrap().push(Call::Poll);
        Ok(Some(yubikey_card()))
    }

    fn power_off(&mut self) -> Result<(), ReaderError> {
        self.calls.lock().unwrap().push(Call::PowerOff);
        Ok(())
    }

    fn exchange_apdu(&mut self, apdu: &[u8]) -> Result<Vec<u8>, ReaderError> {
        self.calls.lock().unwrap().push(Call::Exchange(apdu.to_vec()));
        Ok(vec![0x90, 0x00])
    }
}

#[test]
fn commands_make_the_listed_reader_calls() {
    let calls = std::sync::Arc::new(std::sync::Mutex::new(Vec::new()));
    let mut bridge = CcidBridge::new(RecordingReader { calls: calls.clone() });
    assert!(calls.lock().unwrap().is_empty());

    bridge.handle_command(CcidCommand::GetParameters { slot: 0, seq: 1 });
    bridge.handle_command(CcidCommand::Abort { slot: 0, seq: 2 });
    assert!(calls.lock().unwrap().is_empty());

    bridge.handle_command(CcidCommand::IccPowerOn { slot: 0, seq: 3, power_select: 0 });
    assert_eq!(*calls.lock().unwrap(), vec![Call::Poll]);

    bridge.handle_command(CcidCommand::GetSlotStatus { slot: 0, seq: 4 });
    assert_eq!(*calls.lock().unwrap(), vec![Call::Poll]);

    let apdu = vec![0x00, 0xa4, 0x04, 0x00, 0x02, 0xa0, 0x00];
    let response = bridge.handle_command(CcidCommand::XfrBlock {
        slot: 0,
        seq: 5,
        bwi: 0,
        level_parameter: 0,
        payload: apdu.clone(),
    });
    assert_eq!(*calls.lock().unwrap(), vec![Call::Poll, Call::Exchange(apdu)]);
    match response {
        CcidResponse::DataBlock { payload, .. } => assert_eq!(payload, vec![0x90, 0x00]),
        other => panic!("unexpected response {other:?}"),
    }

    bridge.handle_command(CcidCommand::IccPowerOff { slot: 0, seq: 6 });
    assert_eq!(calls.lock().unwrap().last(), Some(&Call::PowerOff));
    assert_eq!(calls.lock().unwrap().len(), 3);
}
