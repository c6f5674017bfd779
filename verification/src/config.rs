//! Choices that select the reader backend.
use vstd::prelude::*;

verus! {

/// The NFC reader backend that the CCID slot is bridged to.
#[derive(Debug, Clone, Copy, Eq, PartialEq, Structural)]
pub enum ReaderBackend {
    Pn532Uart,
    Dummy,
}

} // verus!
