use vusbipd_ccid::nfc::dummy::{DummyReader, DummyReaderFactory, SelectedApplet};
use vusbipd_ccid::nfc::{NfcReader, ReaderError, ReaderFactory};

const FIDO_VERSION_2_0: &[u8] = b"FIDO_2_0";

#[test]
fn select_fido_aid_returns_u2f_v2() {
    let mut reader = DummyReader {
        card_present: true,
        selected_applet: SelectedApplet::NoApplet,
    };

    let response = reader
        .handle_apdu(&[
            0x00, 0xa4, 0x04, 0x00, 0x08, 0xa0, 0x00, 0x00, 0x06, 0x47, 0x2f, 0x00,
            0x01,
        ])
        .expect("SELECT must succeed");

    assert_eq!(&response[..6], b"U2F_V2");
    assert!(response.ends_with(&[0x90, 0x00]));
}

#[test]
fn authenticator_get_info_returns_success_status() {
    let mut reader = DummyReader {
        card_present: true,
        selected_applet: SelectedApplet::NoApplet,
    };

    let _ = reader
        .handle_apdu(&[
            0x00, 0xa4, 0x04, 0x00, 0x08, 0xa0, 0x00, 0x00, 0x06, 0x47, 0x2f, 0x00,
            0x01,
        ])
        .expect("SELECT must succeed");

    let response = reader
        .handle_apdu(&[0x80, 0x10, 0x80, 0x00, 0x01, 0x04])
        .expect("authenticatorGetInfo must succeed");

    assert_eq!(response[0], 0x00);
    assert!(response.windows(FIDO_VERSION_2_0.len()).any(|window| window == FIDO_VERSION_2_0));
    assert!(response.ends_with(&[0x90, 0x00]));
}

// Further scenarios.

fn reader() -> DummyReader {
    DummyReader { card_present: true, selected_applet: SelectedApplet::NoApplet }
}

const SELECT_FIDO: [u8; 13] = [0x00, 0xa4, 0x04, 0x00, 0x08, 0xa0, 0x00, 0x00, 0x06, 0x47, 0x2f, 0x00, 0x01];

#[test]
fn missing_card_is_a_protocol_error() {
    let mut reader = DummyReader { card_present: false, selected_applet: SelectedApplet::NoApplet };
    assert_eq!(
        reader.handle_apdu(&SELECT_FIDO),
        Err(ReaderError::Protocol("no card present in dummy reader".to_string()))
    );
    assert_eq!(reader.poll_card(), Ok(None));
}

#[test]
fn short_apdu_is_wrong_length() {
    let mut reader = reader();
    assert_eq!(reader.handle_apdu(&[0x00, 0xa4]), Ok(vec![0x67, 0x00]));
    assert_eq!(reader.handle_apdu(&[0x00, 0xa4, 0x04, 0x00, 0x05, 0x01]), Ok(vec![0x67, 0x00]));
}

#[test]
fn other_aid_is_not_found_and_ctap_needs_selection() {
    let mut reader = reader();
    assert_eq!(reader.handle_apdu(&[0x00, 0xa4, 0x04, 0x0c, 0x02, 0xa0, 0x01]), Ok(vec![0x6a, 0x82]));
    assert_eq!(reader.handle_apdu(&[0x80, 0x10, 0x80, 0x00, 0x01, 0x04]), Ok(vec![0x6d, 0x00]));
    assert_eq!(reader.selected_applet, SelectedApplet::NoApplet);
}

#[test]
fn ctap_message_variants() {
    let mut reader = reader();
    reader.handle_apdu(&SELECT_FIDO).expect("SELECT must succeed");
    assert_eq!(reader.selected_applet, SelectedApplet::Fido);
    // P1 with bits other than the chaining bit is rejected.
    assert_eq!(reader.handle_apdu(&[0x80, 0x10, 0x01, 0x00, 0x01, 0x04]), Ok(vec![0x6a, 0x86]));
    // No CTAP command byte.
    assert_eq!(reader.handle_apdu(&[0x80, 0x10, 0x00, 0x00]), Ok(vec![0x67, 0x00]));
    // Unknown CTAP command.
    assert_eq!(reader.handle_apdu(&[0x80, 0x10, 0x00, 0x00, 0x01, 0x01]), Ok(vec![0x01, 0x90, 0x00]));
    // GET RESPONSE is not supported.
    assert_eq!(reader.handle_apdu(&[0x80, 0x11, 0x00, 0x00]), Ok(vec![0x6d, 0x00]));
    // End of CTAP message deselects the applet.
    assert_eq!(reader.handle_apdu(&[0x80, 0x12, 0x01, 0x00]), Ok(vec![0x90, 0x00]));
    assert_eq!(reader.selected_applet, SelectedApplet::NoApplet);
}

#[test]
fn get_info_bytes() {
    let info = DummyReader::authenticator_get_info();
    assert_eq!(&info[..3], &[0xa6, 0x01, 0x82]);
    assert_eq!(&info[3..10], &[0x66, b'U', b'2', b'F', b'_', b'V', b'2']);
    assert_eq!(info.len(), 3 + 7 + 9 + 2 + 16 + 2 + 3 + 1 + 3 + 1 + 5 + 1 + 10 + 1 + 4 + 3 + 2 + 4);
    assert_eq!(&info[info.len() - 4..], &[0x63, b'n', b'f', b'c']);
}

#[test]
fn cbor_text_and_status_helpers() {
    assert_eq!(DummyReader::encode_text(b"up"), vec![0x62, b'u', b'p']);
    assert_eq!(DummyReader::append_status(vec![1, 2], [0x90, 0x00]), vec![1, 2, 0x90, 0x00]);
    assert_eq!(DummyReader::ctap_success(vec![7]), vec![0x00, 7]);
    assert_eq!(DummyReader::ctap_error(0x01), vec![0x01]);
    assert_eq!(DummyReader::parse_short_apdu(&[1, 2, 3, 4, 2, 9, 8, 0]), Some((1, 2, 3, 4, &[9u8, 8][..])));
}

#[test]
fn dummy_reader_answers_like_a_security_key() {
    let mut reader = reader();
    assert_eq!(reader.capabilities().name, "dummy");
    let card = reader.poll_card().expect("poll must succeed").expect("card must be present");
    assert_eq!(card.uid, vec![1, 2, 3, 4]);
    assert_eq!(card.historical_bytes, FIDO_VERSION_2_0.to_vec());
    reader.handle_apdu(&SELECT_FIDO).expect("SELECT must succeed");
    reader.power_off().expect("power off must succeed");
    assert_eq!(reader.selected_applet, SelectedApplet::NoApplet);
    assert_eq!(reader.exchange_apdu(&[0x80, 0x11, 0x00, 0x00]), Ok(vec![0x6d, 0x00]));
}

#[test]
fn dummy_factory_opens_reader_with_card() {
    let factory = DummyReaderFactory;
    assert_eq!(factory.backend_name(), "dummy");
    let mut reader = factory.open().expect("open must succeed");
    assert!(reader.poll_card().expect("poll must succeed").is_some());
}
