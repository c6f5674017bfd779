//! A virtual USB CCID smart card reader whose slot is backed by an NFC reader.
//!
//! The crate holds the byte-level logic of the bridge: CCID message framing,
//! the slot state machine that maps CCID commands onto NFC reader operations,
//! the bulk/interrupt transport that reassembles and queues CCID frames, the
//! simulated FIDO reader, the PN532 frame and ATS parsing used by the UART
//! reader backend, and the USB device requests the virtual device answers.
pub mod ccid;
pub mod config;
pub mod nfc;
pub mod text;
pub mod usb;
