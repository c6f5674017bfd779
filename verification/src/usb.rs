//! The USB device that the host sees: the CCID class descriptor and the
//! answers to the standard device requests that the virtual device serves
//! itself.
use vstd::prelude::*;

use crate::ccid::bridge::{atr_body, is_complete_atr, spec_pseudo_atr, T1_PROTOCOL_NUM};

verus! {

pub const CCID_INTERFACE_CLASS: u8 = 0x0b;

pub const CCID_INTERFACE_SUBCLASS: u8 = 0x00;

pub const CCID_INTERFACE_PROTOCOL: u8 = 0x00;

pub const CCID_BULK_IN_ENDPOINT: u8 = 0x81;

pub const CCID_BULK_OUT_ENDPOINT: u8 = 0x01;

pub const CCID_INTERRUPT_IN_ENDPOINT: u8 = 0x82;

pub const CCID_FUNCTIONAL_DESCRIPTOR_TYPE: u8 = 0x21;

/// Standard request codes (USB 2.0, table 9-4).
pub const USB_REQUEST_GET_STATUS: u8 = 0;

pub const USB_REQUEST_CLEAR_FEATURE: u8 = 1;

pub const USB_REQUEST_SET_FEATURE: u8 = 3;

pub const USB_REQUEST_GET_CONFIGURATION: u8 = 8;

/// The DEVICE_REMOTE_WAKEUP feature selector.
pub const USB_FEATURE_REMOTE_WAKEUP: u16 = 0x0001;

/// The CCID class descriptor: CCID 1.10, one slot, 5 V, T=1, 3.58 MHz clock,
/// 9600 bps, IFSD 254, short and extended APDU level exchange, maximum
/// message length 3082 bytes.
pub open spec fn spec_class_descriptor() -> Seq<u8> {
    seq![
        0x36u8, CCID_FUNCTIONAL_DESCRIPTOR_TYPE, 0x10, 0x01, 0x00, 0x01,
        0x02, 0x00, 0x00, 0x00,
        0xfc, 0x0d, 0x00, 0x00,
        0xfc, 0x0d, 0x00, 0x00,
        0x00,
        0x80, 0x25, 0x00, 0x00,
        0x80, 0x25, 0x00, 0x00,
        0x00,
        0xfe, 0x00, 0x00, 0x00,
        0x00, 0x00, 0x00, 0x00,
        0x00, 0x00, 0x00, 0x00,
        0x40, 0x08, 0x04, 0x00,
        0x00, 0x0c, 0x00, 0x00,
        0xff, 0xff, 0x00, 0x00, 0x00, 0x01,
    ]
}

/// The CCID class-specific descriptor of the interface.
pub fn class_specific_descriptor() -> (descriptor: Vec<u8>)
    ensures
        descriptor@ == spec_class_descriptor(),
        descriptor@.len() == 54,
        descriptor@[0] == descriptor@.len(),
{
    let d = vec![
        0x36, CCID_FUNCTIONAL_DESCRIPTOR_TYPE, 0x10, 0x01, 0x00, 0x01,
        0x02, 0x00, 0x00, 0x00,
        0xfc, 0x0d, 0x00, 0x00,
        0xfc, 0x0d, 0x00, 0x00,
        0x00,
        0x80, 0x25, 0x00, 0x00,
        0x80, 0x25, 0x00, 0x00,
        0x00,
        0xfe, 0x00, 0x00, 0x00,
        0x00, 0x00, 0x00, 0x00,
        0x00, 0x00, 0x00, 0x00,
        0x40, 0x08, 0x04, 0x00,
        0x00, 0x0c, 0x00, 0x00,
        0xff, 0xff, 0x00, 0x00, 0x00, 0x01,
    ];
    assert(d@ =~= spec_class_descriptor());
    d
}

/// The protocols the descriptor offers (dwProtocols, little-endian bytes 6
/// to 9) are exactly the one every pseudo ATR of the slot announces in TD2,
/// which is also the protocol of its Parameters responses (T=1): bit `p` of
/// dwProtocols is set exactly for that protocol number.
pub proof fn lemma_descriptor_protocol_matches_atr(historical: Seq<u8>)
    requires
        !is_complete_atr(historical),
    ensures
        ({
            let d = spec_class_descriptor();
            let protocols = (d[6] as u32) | ((d[7] as u32) << 8u32) | ((d[8] as u32) << 16u32) | ((
            d[9] as u32) << 24u32);
            let td2 = spec_pseudo_atr(historical)[3] & 0x0fu8;
            &&& td2 == T1_PROTOCOL_NUM
            &&& forall|p: u32|
                p < 32 ==> (((protocols >> p) & 1u32 == 1u32) <==> p == td2 as u32)
        }),
{
    let d = spec_class_descriptor();
    let atr = spec_pseudo_atr(historical);
    assert(atr_body(historical)[3] == 0x01);
    assert(atr[3] == 0x01);
    assert(0x01u8 & 0x0fu8 == 0x01u8) by (bit_vector);
    let protocols = (d[6] as u32) | ((d[7] as u32) << 8u32) | ((d[8] as u32) << 16u32) | ((
    d[9] as u32) << 24u32);
    assert(d[6] == 2 && d[7] == 0 && d[8] == 0 && d[9] == 0);
    assert((2u32) | ((0u32) << 8u32) | ((0u32) << 16u32) | ((0u32) << 24u32) == 2u32) by (bit_vector);
    assert(protocols == 2u32);
    assert forall|p: u32| p < 32 implies (((protocols >> p) & 1u32 == 1u32) <==> p == 1u32) by {
        assert(p < 32 ==> (((2u32 >> p) & 1u32 == 1u32) <==> p == 1u32)) by (bit_vector);
    }
}

/// A device request that the virtual device does not serve.
#[derive(Debug, Clone, Copy, PartialEq, Eq, Structural)]
pub struct UnsupportedDeviceRequest {
    pub request_type: u8,
    pub request: u8,
    pub value: u16,
}

/// The device-level state: whether the host enabled remote wakeup.
#[derive(Debug)]
pub struct DeviceRequests {
    pub remote_wakeup_enabled: bool,
}

/// The first bytes of a reply, as many as the host's buffer and the
/// request's wLength both allow.
pub open spec fn spec_limited(transfer_buffer_length: u32, length: u16, payload: Seq<u8>) -> Seq<u8> {
    let max = if transfer_buffer_length < length {
        transfer_buffer_length as int
    } else {
        length as int
    };
    if payload.len() <= max {
        payload
    } else {
        payload.take(max)
    }
}

/// The reply to a standard device request and whether remote wakeup is
/// enabled afterwards.
pub open spec fn spec_device_request(
    wakeup: bool,
    transfer_buffer_length: u32,
    request_type: u8,
    request: u8,
    value: u16,
    length: u16,
) -> (bool, Result<Seq<u8>, UnsupportedDeviceRequest>) {
    if request_type == 0x80 && request == USB_REQUEST_GET_STATUS {
        (
            wakeup,
            Ok(
                spec_limited(
                    transfer_buffer_length,
                    length,
                    seq![
                        if wakeup {
                            0x02u8
                        } else {
                            0x00u8
                        },
                        0x00u8,
                    ],
                ),
            ),
        )
    } else if request_type == 0x80 && request == USB_REQUEST_GET_CONFIGURATION {
        (wakeup, Ok(spec_limited(transfer_buffer_length, length, seq![1u8])))
    } else if request_type == 0x00 && request == USB_REQUEST_SET_FEATURE && value
        == USB_FEATURE_REMOTE_WAKEUP {
        (true, Ok(Seq::empty()))
    } else if request_type == 0x00 && request == USB_REQUEST_CLEAR_FEATURE && value
        == USB_FEATURE_REMOTE_WAKEUP {
        (false, Ok(Seq::empty()))
    } else {
        (wakeup, Err(UnsupportedDeviceRequest { request_type, request, value }))
    }
}

impl DeviceRequests {
    pub fn new() -> (d: Self)
        ensures
            !d.remote_wakeup_enabled,
    {
        DeviceRequests { remote_wakeup_enabled: false }
    }

    /// Truncates a reply to what the host accepts.
    pub fn limited_response(transfer_buffer_length: u32, length: u16, payload: Vec<u8>) -> (reply:
        Vec<u8>)
        ensures
            reply@ == spec_limited(transfer_buffer_length, length, payload@),
    {
        let max_len: usize = if transfer_buffer_length < length as u32 {
            transfer_buffer_length as usize
        } else {
            length as usize
        };
        let mut payload = payload;
        if payload.len() > max_len {
            payload.truncate(max_len);
        }
        payload
    }

    /// Answers a standard request addressed to the device.
    pub fn handle_request(
        &mut self,
        transfer_buffer_length: u32,
        request_type: u8,
        request: u8,
        value: u16,
        length: u16,
    ) -> (result: Result<Vec<u8>, UnsupportedDeviceRequest>)
        ensures
            spec_device_request(
                old(self).remote_wakeup_enabled,
                transfer_buffer_length,
                request_type,
                request,
                value,
                length,
            ) == (final(self).remote_wakeup_enabled, match result {
                Ok(reply) => Ok(reply@),
                Err(e) => Err(e),
            }),
    {
        if request_type == 0x80 && request == USB_REQUEST_GET_STATUS {
            let status: u8 = if self.remote_wakeup_enabled { 0x02 } else { 0x00 };
            let reply = vec![status, 0x00];
            assert(reply@ =~= seq![
                if self.remote_wakeup_enabled {
                    0x02u8
                } else {
                    0x00u8
                },
                0x00u8,
            ]);
            Ok(Self::limited_response(transfer_buffer_length, length, reply))
        } else if request_type == 0x80 && request == USB_REQUEST_GET_CONFIGURATION {
            let reply = vec![1];
            assert(reply@ =~= seq![1u8]);
            Ok(Self::limited_response(transfer_buffer_length, length, reply))
        } else if request_type == 0x00 && request == USB_REQUEST_SET_FEATURE && value
            == USB_FEATURE_REMOTE_WAKEUP {
            self.remote_wakeup_enabled = true;
            let r = Vec::new();
            assert(r@ =~= Seq::<u8>::empty());
            Ok(r)
        } else if request_type == 0x00 && request == USB_REQUEST_CLEAR_FEATURE && value
            == USB_FEATURE_REMOTE_WAKEUP {
            self.remote_wakeup_enabled = false;
            let r = Vec::new();
            assert(r@ =~= Seq::<u8>::empty());
            Ok(r)
        } else {
            Err(UnsupportedDeviceRequest { request_type, request, value })
        }
    }
}

/// GET_STATUS reports remote wakeup as the host last set or cleared it.
pub proof fn lemma_remote_wakeup_reported(wakeup: bool, set: bool, transfer_buffer_length: u32)
    requires
        transfer_buffer_length >= 2,
    ensures
        ({
            let (w, _) = spec_device_request(
                wakeup,
                0,
                0x00,
                if set {
                    USB_REQUEST_SET_FEATURE
                } else {
                    USB_REQUEST_CLEAR_FEATURE
                },
                USB_FEATURE_REMOTE_WAKEUP,
                0,
            );
            spec_device_request(w, transfer_buffer_length, 0x80, USB_REQUEST_GET_STATUS, 0, 2).1
                == Ok::<Seq<u8>, UnsupportedDeviceRequest>(
                seq![
                    if set {
                        0x02u8
                    } else {
                        0x00u8
                    },
                    0x00u8,
                ],
            )
        }),
{
}

} // verus!
