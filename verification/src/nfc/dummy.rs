//! A simulated reader with a FIDO authenticator permanently in its field.
//!
//! It answers SELECT of the FIDO applet, NFCCTAP_MSG carrying
//! authenticatorGetInfo, NFCCTAP_GETRESPONSE and the end-of-message control,
//! which is enough for a host to enumerate a security key.
use vstd::prelude::*;

use super::{CardPresence, CardProtocol, NfcReader, ReaderCapabilities, ReaderError, ReaderFactory};
use crate::text::bytes_equal;

verus! {

pub const CTAP2_ERR_INVALID_COMMAND: u8 = 0x01;
pub const FIDO_NFCCTAP_MSG: u8 = 0x10;
pub const FIDO_NFCCTAP_GET_RESPONSE: u8 = 0x11;
pub const FIDO_NFCCTAP_CONTROL: u8 = 0x12;
pub const FIDO_NFC_END_CTAP_MSG: u8 = 0x01;
pub const CTAP_GET_INFO: u8 = 0x04;

/// The FIDO applet identifier.
pub open spec fn fido_aid() -> Seq<u8> {
    seq![0xa0u8, 0x00, 0x00, 0x06, 0x47, 0x2f, 0x00, 0x01]
}

/// "U2F_V2" in ASCII.
pub open spec fn version_u2f_v2() -> Seq<u8> {
    seq![0x55u8, 0x32, 0x46, 0x5f, 0x56, 0x32]
}

/// "FIDO_2_0" in ASCII.
pub open spec fn version_fido_2_0() -> Seq<u8> {
    seq![0x46u8, 0x49, 0x44, 0x4f, 0x5f, 0x32, 0x5f, 0x30]
}

/// The authenticator's AAGUID ("vusbipd-ccid-fid" in ASCII).
pub open spec fn dummy_aaguid() -> Seq<u8> {
    seq![
        0x76u8, 0x75, 0x73, 0x62, 0x69, 0x70, 0x64, 0x2d, 0x63, 0x63, 0x69, 0x64, 0x2d, 0x66, 0x69,
        0x64,
    ]
}

pub open spec fn sw_success() -> Seq<u8> {
    seq![0x90u8, 0x00]
}

pub open spec fn sw_ins_not_supported() -> Seq<u8> {
    seq![0x6du8, 0x00]
}

pub open spec fn sw_wrong_parameters() -> Seq<u8> {
    seq![0x6au8, 0x86]
}

pub open spec fn sw_wrong_length() -> Seq<u8> {
    seq![0x67u8, 0x00]
}

pub open spec fn sw_file_not_found() -> Seq<u8> {
    seq![0x6au8, 0x82]
}

/// A CBOR text string of fewer than 24 bytes: the header byte, then the bytes.
pub open spec fn spec_cbor_text(value: Seq<u8>) -> Seq<u8> {
    seq![(0x60 + value.len()) as u8] + value
}

/// The CBOR map that authenticatorGetInfo answers: versions, AAGUID,
/// options, maximum message size, PIN protocols and transports.
pub open spec fn spec_get_info() -> Seq<u8> {
    seq![0xa6u8, 0x01, 0x82] + spec_cbor_text(version_u2f_v2()) + spec_cbor_text(
        version_fido_2_0(),
    ) + seq![0x03u8, 0x50] + dummy_aaguid() + seq![0x04u8, 0xa4] + spec_cbor_text(seq![0x72u8, 0x6b])
        + seq![0xf4u8] + spec_cbor_text(seq![0x75u8, 0x70]) + seq![0xf5u8] + spec_cbor_text(
        seq![0x70u8, 0x6c, 0x61, 0x74],
    ) + seq![0xf4u8] + spec_cbor_text(seq![0x63u8, 0x6c, 0x69, 0x65, 0x6e, 0x74, 0x50, 0x69, 0x6e])
        + seq![0xf4u8] + seq![0x05u8, 0x19, 0x04, 0x00] + seq![0x06u8, 0x81, 0x01] + seq![
        0x09u8,
        0x81,
    ] + spec_cbor_text(seq![0x6eu8, 0x66, 0x63])
}

/// A short APDU split into class, instruction, parameters and command data.
/// The data is `Lc` bytes after the `Lc` byte; a body of at most one byte
/// (absent or `Le` only) carries no data.
pub open spec fn spec_parse_short_apdu(apdu: Seq<u8>) -> Option<(u8, u8, u8, u8, Seq<u8>)> {
    if apdu.len() < 4 {
        None
    } else if apdu.len() <= 5 {
        Some((apdu[0], apdu[1], apdu[2], apdu[3], Seq::empty()))
    } else if apdu.len() - 5 < apdu[4] {
        None
    } else {
        Some((apdu[0], apdu[1], apdu[2], apdu[3], apdu.subrange(5, 5 + apdu[4])))
    }
}

/// Which applet the simulated card has selected.
#[derive(Clone, Copy, Debug, Eq, PartialEq, Structural)]
pub enum SelectedApplet {
    NoApplet,
    Fido,
}

/// The answer to an NFCCTAP_MSG with parameter `p1` and data `data`.
pub open spec fn spec_ctap_msg(p1: u8, data: Seq<u8>) -> Seq<u8> {
    if p1 % 128 != 0 {
        sw_wrong_parameters()
    } else if data.len() == 0 {
        sw_wrong_length()
    } else if data[0] == CTAP_GET_INFO && data.len() == 1 {
        seq![0x00u8] + spec_get_info() + sw_success()
    } else {
        seq![CTAP2_ERR_INVALID_COMMAND] + sw_success()
    }
}

pub open spec fn is_select_by_name(cla: u8, ins: u8, p1: u8, p2: u8) -> bool {
    cla == 0x00 && ins == 0xa4 && p1 == 0x04 && (p2 == 0x00 || p2 == 0x0c)
}

/// The applet selected afterwards and the response APDU, for a card that is
/// present and has `selected` selected.
pub open spec fn spec_apdu_response(selected: SelectedApplet, apdu: Seq<u8>) -> (
    SelectedApplet,
    Seq<u8>,
) {
    match spec_parse_short_apdu(apdu) {
        None => (selected, sw_wrong_length()),
        Some((cla, ins, p1, p2, data)) => {
            let fido = selected == SelectedApplet::Fido;
            if is_select_by_name(cla, ins, p1, p2) && data == fido_aid() {
                (SelectedApplet::Fido, version_u2f_v2() + sw_success())
            } else if cla == 0x80 && ins == FIDO_NFCCTAP_MSG && p2 == 0x00 && fido {
                (selected, spec_ctap_msg(p1, data))
            } else if cla == 0x80 && ins == FIDO_NFCCTAP_GET_RESPONSE && p1 == 0x00 && p2 == 0x00
                && fido {
                (selected, sw_ins_not_supported())
            } else if cla == 0x80 && ins == FIDO_NFCCTAP_CONTROL && p1 == FIDO_NFC_END_CTAP_MSG && p2
                == 0x00 && fido {
                (SelectedApplet::NoApplet, sw_success())
            } else if is_select_by_name(cla, ins, p1, p2) {
                (selected, sw_file_not_found())
            } else {
                (selected, sw_ins_not_supported())
            }
        },
    }
}

/// SELECT by DF name of the FIDO applet (A0 00 00 06 47 2F 00 01), with P2
/// 00 (first or only occurrence) or 0C (no response data requested), and any
/// trailing Le: whatever was selected before, the card answers "U2F_V2" and
/// 9000 and has the FIDO applet selected afterwards. Both P2 values are
/// answered alike.
pub proof fn lemma_select_fido_by_name(selected: SelectedApplet, p2: u8, trailer: Seq<u8>)
    requires
        p2 == 0x00 || p2 == 0x0c,
        trailer.len() <= 1,
    ensures
        spec_apdu_response(
            selected,
            seq![0x00u8, 0xa4, 0x04, p2, 0x08, 0xa0, 0x00, 0x00, 0x06, 0x47, 0x2f, 0x00, 0x01] + trailer,
        ) == (SelectedApplet::Fido, seq![0x55u8, 0x32, 0x46, 0x5f, 0x56, 0x32, 0x90, 0x00]),
        spec_apdu_response(
            selected,
            seq![0x00u8, 0xa4, 0x04, 0x00, 0x08, 0xa0, 0x00, 0x00, 0x06, 0x47, 0x2f, 0x00, 0x01] + trailer,
        ) == spec_apdu_response(
            selected,
            seq![0x00u8, 0xa4, 0x04, 0x0c, 0x08, 0xa0, 0x00, 0x00, 0x06, 0x47, 0x2f, 0x00, 0x01] + trailer,
        ),
{
    assert forall|q: u8| q == 0x00 || q == 0x0c implies spec_apdu_response(
        selected,
        seq![0x00u8, 0xa4, 0x04, q, 0x08, 0xa0, 0x00, 0x00, 0x06, 0x47, 0x2f, 0x00, 0x01] + trailer,
    ) == (SelectedApplet::Fido, seq![0x55u8, 0x32, 0x46, 0x5f, 0x56, 0x32, 0x90, 0x00]) by {
        let apdu = seq![0x00u8, 0xa4, 0x04, q, 0x08, 0xa0, 0x00, 0x00, 0x06, 0x47, 0x2f, 0x00, 0x01]
            + trailer;
        assert(apdu.subrange(5, 13) =~= fido_aid());
        assert(spec_parse_short_apdu(apdu) == Some((0x00u8, 0xa4u8, 0x04u8, q, fido_aid())));
        assert(version_u2f_v2() + sw_success() =~= seq![
            0x55u8,
            0x32,
            0x46,
            0x5f,
            0x56,
            0x32,
            0x90,
            0x00,
        ]);
    }
}

/// The message of the error that a simulated reader without a card reports.
pub open spec fn no_card_message() -> Seq<char> {
    "no card present in dummy reader"@
}

/// Opens [`DummyReader`]s with a card in the field.
pub struct DummyReaderFactory;

impl ReaderFactory for DummyReaderFactory {
    fn backend_name(&self) -> (name: &'static str)
        ensures
            name@ == "dummy"@,
    {
        "dummy"
    }

    /// Opening the simulated reader always succeeds; the reader has a card in
    /// its field and no applet selected.
    fn open(&self) -> (reader: Result<Box<dyn NfcReader>, ReaderError>)
        ensures
            reader is Ok,
    {
        Ok(Box::new(DummyReader { card_present: true, selected_applet: SelectedApplet::NoApplet }))
    }
}

/// The simulated reader and the state of its simulated card.
pub struct DummyReader {
    pub card_present: bool,
    pub selected_applet: SelectedApplet,
}

impl NfcReader for DummyReader {
    fn capabilities(&self) -> (capabilities: ReaderCapabilities)
        ensures
            capabilities.name@ == "dummy"@,
            capabilities.supports_iso_dep,
            capabilities.supports_apdu_exchange,
    {
        ReaderCapabilities { name: "dummy", supports_iso_dep: true, supports_apdu_exchange: true }
    }

    /// The simulated card, when present: UID 01 02 03 04, ISO-DEP, historical
    /// bytes "FIDO_2_0".
    fn poll_card(&mut self) -> (polled: Result<Option<CardPresence>, ReaderError>)
        ensures
            *final(self) == *old(self),
            old(self).card_present ==> (polled matches Ok(Some(card)) && card.uid@ == seq![
                0x01u8,
                0x02,
                0x03,
                0x04,
            ] && card.protocol == CardProtocol::IsoDep && card.historical_bytes@
                == version_fido_2_0()),
            !old(self).card_present ==> polled matches Ok(None),
    {
        if self.card_present {
            let uid = vec![0x01, 0x02, 0x03, 0x04];
            assert(uid@ =~= seq![0x01u8, 0x02, 0x03, 0x04]);
            Ok(
                Some(
                    CardPresence {
                        uid,
                        protocol: CardProtocol::IsoDep,
                        historical_bytes: Self::fido_2_0(),
                    },
                ),
            )
        } else {
            Ok(None)
        }
    }

    /// Switching the field off deselects the applet.
    fn power_off(&mut self) -> (result: Result<(), ReaderError>)
        ensures
            result is Ok,
            final(self).selected_applet == SelectedApplet::NoApplet,
            final(self).card_present == old(self).card_present,
    {
        self.selected_applet = SelectedApplet::NoApplet;
        Ok(())
    }

    fn exchange_apdu(&mut self, apdu: &[u8]) -> (result: Result<Vec<u8>, ReaderError>)
        ensures
            final(self).card_present == old(self).card_present,
            !old(self).card_present ==> {
                &&& final(self).selected_applet == old(self).selected_applet
                &&& result matches Err(ReaderError::Protocol(message))
                &&& message@ == no_card_message()
            },
            old(self).card_present ==> {
                &&& result is Ok
                &&& (final(self).selected_applet, result->Ok_0@) == spec_apdu_response(
                    old(self).selected_applet,
                    apdu@,
                )
            },
    {
        self.handle_apdu(apdu)
    }
}

impl DummyReader {
    fn fido_2_0() -> (v: Vec<u8>)
        ensures
            v@ == version_fido_2_0(),
    {
        let v = vec![0x46, 0x49, 0x44, 0x4f, 0x5f, 0x32, 0x5f, 0x30];
        assert(v@ =~= version_fido_2_0());
        v
    }

    fn u2f_v2() -> (v: Vec<u8>)
        ensures
            v@ == version_u2f_v2(),
    {
        let v = vec![0x55, 0x32, 0x46, 0x5f, 0x56, 0x32];
        assert(v@ =~= version_u2f_v2());
        v
    }

    /// Answers one APDU as the simulated card would.
    pub fn handle_apdu(&mut self, apdu: &[u8]) -> (result: Result<Vec<u8>, ReaderError>)
        ensures
            final(self).card_present == old(self).card_present,
            !old(self).card_present ==> {
                &&& final(self).selected_applet == old(self).selected_applet
                &&& result matches Err(ReaderError::Protocol(message))
                &&& message@ == no_card_message()
            },
            old(self).card_present ==> {
                &&& result is Ok
                &&& (final(self).selected_applet, result->Ok_0@) == spec_apdu_response(
                    old(self).selected_applet,
                    apdu@,
                )
            },
    {
        if !self.card_present {
            return Err(ReaderError::Protocol("no card present in dummy reader".to_string()));
        }
        let parsed = Self::parse_short_apdu(apdu);
        let (cla, ins, p1, p2, data) = match parsed {
            None => {
                let r = vec![0x67, 0x00];
                assert(r@ =~= sw_wrong_length());
                return Ok(r);
            },
            Some(parts) => parts,
        };
        let fido = self.selected_applet == SelectedApplet::Fido;
        let select = cla == 0x00 && ins == 0xa4 && p1 == 0x04 && (p2 == 0x00 || p2 == 0x0c);
        let aid = [0xa0u8, 0x00, 0x00, 0x06, 0x47, 0x2f, 0x00, 0x01];
        assert(aid@ =~= fido_aid());
        let response = if select && bytes_equal(data, aid.as_slice()) {
            self.selected_applet = SelectedApplet::Fido;
            Self::append_status(Self::u2f_v2(), [0x90, 0x00])
        } else if cla == 0x80 && ins == FIDO_NFCCTAP_MSG && p2 == 0x00 && fido {
            self.handle_ctap_msg(p1, data)
        } else if cla == 0x80 && ins == FIDO_NFCCTAP_GET_RESPONSE && p1 == 0x00 && p2 == 0x00
            && fido {
            vec![0x6d, 0x00]
        } else if cla == 0x80 && ins == FIDO_NFCCTAP_CONTROL && p1 == FIDO_NFC_END_CTAP_MSG && p2
            == 0x00 && fido {
            self.selected_applet = SelectedApplet::NoApplet;
            vec![0x90, 0x00]
        } else if select {
            vec![0x6a, 0x82]
        } else {
            vec![0x6d, 0x00]
        };
        proof {
            let expected = spec_apdu_response(old(self).selected_applet, apdu@);
            assert(response@ =~= expected.1);
        }
        Ok(response)
    }

    /// Answers an NFCCTAP_MSG.
    pub fn handle_ctap_msg(&mut self, p1: u8, data: &[u8]) -> (response: Vec<u8>)
        ensures
            response@ == spec_ctap_msg(p1, data@),
            *final(self) == *old(self),
    {
        assert(p1 & 0x7f == p1 % 128) by (bit_vector);
        if p1 & 0x7f != 0 {
            let r = vec![0x6a, 0x86];
            assert(r@ =~= sw_wrong_parameters());
            return r;
        }
        if data.len() == 0 {
            let r = vec![0x67, 0x00];
            assert(r@ =~= sw_wrong_length());
            return r;
        }
        let command = data[0];
        let response = if command == CTAP_GET_INFO && data.len() == 1 {
            Self::ctap_success(Self::authenticator_get_info())
        } else {
            Self::ctap_error(CTAP2_ERR_INVALID_COMMAND)
        };
        let r = Self::append_status(response, [0x90, 0x00]);
        assert(r@ =~= spec_ctap_msg(p1, data@));
        r
    }

    /// Splits a short APDU into header bytes and command data.
    pub fn parse_short_apdu(apdu: &[u8]) -> (parsed: Option<(u8, u8, u8, u8, &[u8])>)
        ensures
            match parsed {
                None => spec_parse_short_apdu(apdu@) is None,
                Some((cla, ins, p1, p2, data)) => spec_parse_short_apdu(apdu@) == Some(
                    (cla, ins, p1, p2, data@),
                ),
            },
    {
        if apdu.len() < 4 {
            return None;
        }
        let cla = apdu[0];
        let ins = apdu[1];
        let p1 = apdu[2];
        let p2 = apdu[3];
        if apdu.len() <= 5 {
            let empty: &[u8] = &apdu[4..4];
            assert(empty@ =~= Seq::<u8>::empty());
            return Some((cla, ins, p1, p2, empty));
        }
        let lc = apdu[4] as usize;
        if apdu.len() - 5 < lc {
            return None;
        }
        Some((cla, ins, p1, p2, &apdu[5..5 + lc]))
    }

    /// The authenticatorGetInfo response map.
    pub fn authenticator_get_info() -> (response: Vec<u8>)
        ensures
            response@ == spec_get_info(),
    {
        let mut response = vec![0xa6, 0x01, 0x82];
        let mut part = Self::encode_text(Self::u2f_v2().as_slice());
        response.append(&mut part);
        let mut part = Self::encode_text(Self::fido_2_0().as_slice());
        response.append(&mut part);
        response.push(0x03);
        response.push(0x50);
        let mut part = vec![
            0x76, 0x75, 0x73, 0x62, 0x69, 0x70, 0x64, 0x2d, 0x63, 0x63, 0x69, 0x64, 0x2d, 0x66,
            0x69, 0x64,
        ];
        response.append(&mut part);
        response.push(0x04);
        response.push(0xa4);
        let mut part = Self::encode_text(vec![0x72, 0x6b].as_slice());
        response.append(&mut part);
        response.push(0xf4);
        let mut part = Self::encode_text(vec![0x75, 0x70].as_slice());
        response.append(&mut part);
        response.push(0xf5);
        let mut part = Self::encode_text(vec![0x70, 0x6c, 0x61, 0x74].as_slice());
        response.append(&mut part);
        response.push(0xf4);
        let mut part = Self::encode_text(
            vec![0x63, 0x6c, 0x69, 0x65, 0x6e, 0x74, 0x50, 0x69, 0x6e].as_slice(),
        );
        response.append(&mut part);
        response.push(0xf4);
        response.push(0x05);
        response.push(0x19);
        response.push(0x04);
        response.push(0x00);
        response.push(0x06);
        response.push(0x81);
        response.push(0x01);
        response.push(0x09);
        response.push(0x81);
        let mut part = Self::encode_text(vec![0x6e, 0x66, 0x63].as_slice());
        response.append(&mut part);
        assert(response@ =~= spec_get_info());
        response
    }

    /// A successful CTAP response: status byte zero, then the payload.
    pub fn ctap_success(payload: Vec<u8>) -> (response: Vec<u8>)
        ensures
            response@ == seq![0x00u8] + payload@,
    {
        let mut response = Vec::new();
        response.push(0x00);
        response.extend_from_slice(payload.as_slice());
        assert(response@ =~= seq![0x00u8] + payload@);
        response
    }

    /// A failed CTAP response: the error code alone.
    pub fn ctap_error(code: u8) -> (response: Vec<u8>)
        ensures
            response@ == seq![code],
    {
        let r = vec![code];
        assert(r@ =~= seq![code]);
        r
    }

    /// Encodes a short byte string as a CBOR text string.
    pub fn encode_text(value: &[u8]) -> (encoded: Vec<u8>)
        requires
            value@.len() < 24,
        ensures
            encoded@ == spec_cbor_text(value@),
    {
        let mut encoded = Vec::new();
        encoded.push(0x60 + value.len() as u8);
        encoded.extend_from_slice(value);
        assert(encoded@ =~= spec_cbor_text(value@));
        encoded
    }

    /// Appends a two-byte status word to a response.
    pub fn append_status(response: Vec<u8>, status: [u8; 2]) -> (full: Vec<u8>)
        ensures
            full@ == response@ + status@,
    {
        let ghost before = response@;
        let mut response = response;
        response.extend_from_slice(status.as_slice());
        assert(response@ =~= before + status@);
        response
    }
}

} // verus!
