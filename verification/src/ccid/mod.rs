//! CCID (USB smart card reader class) messages, slot bridge and transport.
pub mod bridge;
pub mod protocol;
pub mod transport;

pub use bridge::CcidBridge;
pub use transport::CcidTransport;
