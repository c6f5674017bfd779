//! CCID bulk messages: decoding of host commands (PC_to_RDR) and encoding of
//! reader responses (RDR_to_PC).
//!
//! Every CCID bulk message starts with a ten byte header: the message type,
//! a little-endian 32-bit payload length, the slot number, the sequence number
//! and three message-specific parameter bytes. The payload follows the header.
use vstd::prelude::*;

verus! {

pub const PC_TO_RDR_ICC_POWER_ON: u8 = 0x62;
pub const PC_TO_RDR_ICC_POWER_OFF: u8 = 0x63;
pub const PC_TO_RDR_GET_SLOT_STATUS: u8 = 0x65;
pub const PC_TO_RDR_XFR_BLOCK: u8 = 0x6f;
pub const PC_TO_RDR_GET_PARAMETERS: u8 = 0x6c;
pub const PC_TO_RDR_RESET_PARAMETERS: u8 = 0x6d;
pub const PC_TO_RDR_SET_PARAMETERS: u8 = 0x61;
pub const PC_TO_RDR_ABORT: u8 = 0x72;

pub const RDR_TO_PC_DATA_BLOCK: u8 = 0x80;
pub const RDR_TO_PC_SLOT_STATUS: u8 = 0x81;
pub const RDR_TO_PC_PARAMETERS: u8 = 0x82;

/// Length of the fixed CCID message header.
pub const CCID_HEADER_LEN: usize = 10;

/// A command sent by the host on the bulk OUT endpoint.
#[derive(Debug, Clone, PartialEq, Eq)]
pub enum CcidCommand {
    IccPowerOn { slot: u8, seq: u8, power_select: u8 },
    IccPowerOff { slot: u8, seq: u8 },
    GetSlotStatus { slot: u8, seq: u8 },
    GetParameters { slot: u8, seq: u8 },
    ResetParameters { slot: u8, seq: u8 },
    SetParameters { slot: u8, seq: u8, protocol_num: u8, payload: Vec<u8> },
    XfrBlock { slot: u8, seq: u8, bwi: u8, level_parameter: u16, payload: Vec<u8> },
    Abort { slot: u8, seq: u8 },
    Unknown { message_type: u8, slot: u8, seq: u8, parameters: [u8; 3], payload: Vec<u8> },
}

/// The mathematical value of a [`CcidCommand`]: byte buffers become sequences.
pub enum CommandView {
    IccPowerOn { slot: u8, seq: u8, power_select: u8 },
    IccPowerOff { slot: u8, seq: u8 },
    GetSlotStatus { slot: u8, seq: u8 },
    GetParameters { slot: u8, seq: u8 },
    ResetParameters { slot: u8, seq: u8 },
    SetParameters { slot: u8, seq: u8, protocol_num: u8, payload: Seq<u8> },
    XfrBlock { slot: u8, seq: u8, bwi: u8, level_parameter: u16, payload: Seq<u8> },
    Abort { slot: u8, seq: u8 },
    Unknown { message_type: u8, slot: u8, seq: u8, parameters: Seq<u8>, payload: Seq<u8> },
}

impl View for CcidCommand {
    type V = CommandView;

    open spec fn view(&self) -> CommandView {
        match self {
            CcidCommand::IccPowerOn { slot, seq, power_select } => CommandView::IccPowerOn {
                slot: *slot,
                seq: *seq,
                power_select: *power_select,
            },
            CcidCommand::IccPowerOff { slot, seq } => CommandView::IccPowerOff { slot: *slot, seq: *seq },
            CcidCommand::GetSlotStatus { slot, seq } => CommandView::GetSlotStatus {
                slot: *slot,
                seq: *seq,
            },
            CcidCommand::GetParameters { slot, seq } => CommandView::GetParameters {
                slot: *slot,
                seq: *seq,
            },
            CcidCommand::ResetParameters { slot, seq } => CommandView::ResetParameters {
                slot: *slot,
                seq: *seq,
            },
            CcidCommand::SetParameters { slot, seq, protocol_num, payload } => CommandView::SetParameters {
                slot: *slot,
                seq: *seq,
                protocol_num: *protocol_num,
                payload: payload@,
            },
            CcidCommand::XfrBlock { slot, seq, bwi, level_parameter, payload } => CommandView::XfrBlock {
                slot: *slot,
                seq: *seq,
                bwi: *bwi,
                level_parameter: *level_parameter,
                payload: payload@,
            },
            CcidCommand::Abort { slot, seq } => CommandView::Abort { slot: *slot, seq: *seq },
            CcidCommand::Unknown { message_type, slot, seq, parameters, payload } => CommandView::Unknown {
                message_type: *message_type,
                slot: *slot,
                seq: *seq,
                parameters: parameters@,
                payload: payload@,
            },
        }
    }
}

impl CommandView {
    pub open spec fn slot(self) -> u8 {
        match self {
            CommandView::IccPowerOn { slot, .. } => slot,
            CommandView::IccPowerOff { slot, .. } => slot,
            CommandView::GetSlotStatus { slot, .. } => slot,
            CommandView::GetParameters { slot, .. } => slot,
            CommandView::ResetParameters { slot, .. } => slot,
            CommandView::SetParameters { slot, .. } => slot,
            CommandView::XfrBlock { slot, .. } => slot,
            CommandView::Abort { slot, .. } => slot,
            CommandView::Unknown { slot, .. } => slot,
        }
    }

    pub open spec fn seq(self) -> u8 {
        match self {
            CommandView::IccPowerOn { seq, .. } => seq,
            CommandView::IccPowerOff { seq, .. } => seq,
            CommandView::GetSlotStatus { seq, .. } => seq,
            CommandView::GetParameters { seq, .. } => seq,
            CommandView::ResetParameters { seq, .. } => seq,
            CommandView::SetParameters { seq, .. } => seq,
            CommandView::XfrBlock { seq, .. } => seq,
            CommandView::Abort { seq, .. } => seq,
            CommandView::Unknown { seq, .. } => seq,
        }
    }
}

/// Presence and activation state of the card in the slot (bmICCStatus).
#[derive(Debug, Clone, Copy, PartialEq, Eq, Structural)]
pub enum IccStatus {
    Active,
    Inactive,
    NotPresent,
}

/// Outcome of the command (bmCommandStatus).
#[derive(Debug, Clone, Copy, PartialEq, Eq, Structural)]
pub enum CommandStatus {
    NoError,
    Failed,
    TimeExtension,
}

/// The bmStatus byte of a response: card state and command outcome.
#[derive(Debug, Clone, Copy, PartialEq, Eq, Structural)]
pub struct SlotStatus {
    pub icc: IccStatus,
    pub command: CommandStatus,
}

/// The two-bit code of an [`IccStatus`].
pub open spec fn icc_code(icc: IccStatus) -> u8 {
    match icc {
        IccStatus::Active => 0,
        IccStatus::Inactive => 1,
        IccStatus::NotPresent => 2,
    }
}

/// The two-bit code of a [`CommandStatus`].
pub open spec fn command_code(command: CommandStatus) -> u8 {
    match command {
        CommandStatus::NoError => 0,
        CommandStatus::Failed => 1,
        CommandStatus::TimeExtension => 2,
    }
}

impl SlotStatus {
    /// bmStatus: the command status in bits 6-7, the card status in bits 0-1.
    pub open spec fn spec_encode(self) -> u8 {
        (command_code(self.command) * 64 + icc_code(self.icc)) as u8
    }

    pub fn ok(icc: IccStatus) -> (status: SlotStatus)
        ensures
            status == (SlotStatus { icc, command: CommandStatus::NoError }),
    {
        SlotStatus { icc, command: CommandStatus::NoError }
    }

    pub fn failed(icc: IccStatus) -> (status: SlotStatus)
        ensures
            status == (SlotStatus { icc, command: CommandStatus::Failed }),
    {
        SlotStatus { icc, command: CommandStatus::Failed }
    }

    pub fn encode(self) -> (byte: u8)
        ensures
            byte == self.spec_encode(),
    {
        let icc: u8 = match self.icc {
            IccStatus::Active => 0,
            IccStatus::Inactive => 1,
            IccStatus::NotPresent => 2,
        };
        let command: u8 = match self.command {
            CommandStatus::NoError => 0,
            CommandStatus::Failed => 1,
            CommandStatus::TimeExtension => 2,
        };
        command * 64 + icc
    }
}

/// The bmStatus byte names both fields of a slot status: the command status
/// is its top two bits and the card status its bottom two bits.
pub proof fn lemma_slot_status_encoding(status: SlotStatus)
    ensures
        status.spec_encode() / 64 == command_code(status.command),
        status.spec_encode() % 64 == icc_code(status.icc),
        status.spec_encode() < 192,
{
}

/// A response sent by the reader on the bulk IN endpoint.
#[derive(Debug, Clone, PartialEq, Eq)]
pub enum CcidResponse {
    DataBlock { slot: u8, seq: u8, status: SlotStatus, error: u8, chain_parameter: u8, payload: Vec<u8> },
    SlotStatus { slot: u8, seq: u8, status: SlotStatus, error: u8, clock_status: u8 },
    Parameters { slot: u8, seq: u8, status: SlotStatus, error: u8, protocol_num: u8, payload: Vec<u8> },
}

/// The mathematical value of a [`CcidResponse`].
pub enum ResponseView {
    DataBlock { slot: u8, seq: u8, status: SlotStatus, error: u8, chain_parameter: u8, payload: Seq<u8> },
    SlotStatus { slot: u8, seq: u8, status: SlotStatus, error: u8, clock_status: u8 },
    Parameters { slot: u8, seq: u8, status: SlotStatus, error: u8, protocol_num: u8, payload: Seq<u8> },
}

impl View for CcidResponse {
    type V = ResponseView;

    open spec fn view(&self) -> ResponseView {
        match self {
            CcidResponse::DataBlock { slot, seq, status, error, chain_parameter, payload } =>
                ResponseView::DataBlock {
                slot: *slot,
                seq: *seq,
                status: *status,
                error: *error,
                chain_parameter: *chain_parameter,
                payload: payload@,
            },
            CcidResponse::SlotStatus { slot, seq, status, error, clock_status } =>
                ResponseView::SlotStatus {
                slot: *slot,
                seq: *seq,
                status: *status,
                error: *error,
                clock_status: *clock_status,
            },
            CcidResponse::Parameters { slot, seq, status, error, protocol_num, payload } =>
                ResponseView::Parameters {
                slot: *slot,
                seq: *seq,
                status: *status,
                error: *error,
                protocol_num: *protocol_num,
                payload: payload@,
            },
        }
    }
}

/// Reasons a buffer is not a CCID command frame.
#[derive(Debug, Clone, Copy, PartialEq, Eq, Structural)]
pub enum CcidProtocolError {
    /// Fewer bytes than a header; holds the number of bytes present.
    FrameTooShort(usize),
    /// The header's payload length disagrees with the bytes after the header.
    LengthMismatch { expected: usize, actual: usize },
}

/// The number that four bytes encode in little-endian order.
pub open spec fn le_u32(b0: u8, b1: u8, b2: u8, b3: u8) -> int {
    b0 + 256 * b1 + 65536 * b2 + 16777216 * b3
}

/// The payload length that a frame's header declares.
pub open spec fn declared_payload_len(frame: Seq<u8>) -> int
    recommends
        frame.len() >= 5,
{
    le_u32(frame[1], frame[2], frame[3], frame[4])
}

/// The command that a well-framed message denotes.
pub open spec fn command_from_parts(
    message_type: u8,
    slot: u8,
    seq: u8,
    p0: u8,
    p1: u8,
    p2: u8,
    payload: Seq<u8>,
) -> CommandView {
    if message_type == PC_TO_RDR_ICC_POWER_ON {
        CommandView::IccPowerOn { slot, seq, power_select: p0 }
    } else if message_type == PC_TO_RDR_ICC_POWER_OFF {
        CommandView::IccPowerOff { slot, seq }
    } else if message_type == PC_TO_RDR_GET_SLOT_STATUS {
        CommandView::GetSlotStatus { slot, seq }
    } else if message_type == PC_TO_RDR_GET_PARAMETERS {
        CommandView::GetParameters { slot, seq }
    } else if message_type == PC_TO_RDR_RESET_PARAMETERS {
        CommandView::ResetParameters { slot, seq }
    } else if message_type == PC_TO_RDR_SET_PARAMETERS {
        CommandView::SetParameters { slot, seq, protocol_num: p0, payload }
    } else if message_type == PC_TO_RDR_XFR_BLOCK {
        CommandView::XfrBlock { slot, seq, bwi: p0, level_parameter: (p1 + 256 * p2) as u16, payload }
    } else if message_type == PC_TO_RDR_ABORT {
        CommandView::Abort { slot, seq }
    } else {
        CommandView::Unknown { message_type, slot, seq, parameters: seq![p0, p1, p2], payload }
    }
}

/// What decoding a byte sequence as one CCID command yields.
pub open spec fn spec_decode(frame: Seq<u8>) -> Result<CommandView, CcidProtocolError> {
    if frame.len() < 10 {
        Err(CcidProtocolError::FrameTooShort(frame.len() as usize))
    } else if declared_payload_len(frame) != frame.len() - 10 {
        Err(
            CcidProtocolError::LengthMismatch {
                expected: declared_payload_len(frame) as usize,
                actual: (frame.len() - 10) as usize,
            },
        )
    } else {
        Ok(
            command_from_parts(
                frame[0],
                frame[5],
                frame[6],
                frame[7],
                frame[8],
                frame[9],
                frame.skip(10),
            ),
        )
    }
}

/// The ten header bytes of a message; the length is reduced modulo 2^32, as
/// the field has 32 bits.
pub open spec fn spec_header(
    message_type: u8,
    payload_len: nat,
    slot: u8,
    seq: u8,
    p0: u8,
    p1: u8,
    p2: u8,
) -> Seq<u8> {
    let v = payload_len % 0x1_0000_0000;
    seq![
        message_type,
        (v % 256) as u8,
        ((v / 256) % 256) as u8,
        ((v / 65536) % 256) as u8,
        (v / 16777216) as u8,
        slot,
        seq,
        p0,
        p1,
        p2,
    ]
}

/// The bytes of an encoded response.
pub open spec fn spec_encode_response(response: ResponseView) -> Seq<u8> {
    match response {
        ResponseView::DataBlock { slot, seq, status, error, chain_parameter, payload } => spec_header(
            RDR_TO_PC_DATA_BLOCK,
            payload.len(),
            slot,
            seq,
            status.spec_encode(),
            error,
            chain_parameter,
        ) + payload,
        ResponseView::SlotStatus { slot, seq, status, error, clock_status } => spec_header(
            RDR_TO_PC_SLOT_STATUS,
            0,
            slot,
            seq,
            status.spec_encode(),
            error,
            clock_status,
        ),
        ResponseView::Parameters { slot, seq, status, error, protocol_num, payload } => spec_header(
            RDR_TO_PC_PARAMETERS,
            payload.len(),
            slot,
            seq,
            status.spec_encode(),
            error,
            protocol_num,
        ) + payload,
    }
}

impl CcidCommand {
    /// Decodes one complete CCID command frame.
    pub fn decode(frame: &[u8]) -> (result: Result<CcidCommand, CcidProtocolError>)
        ensures
            match result {
                Ok(command) => spec_decode(frame@) == Ok::<CommandView, CcidProtocolError>(
                    command@,
                ),
                Err(error) => spec_decode(frame@) == Err::<CommandView, CcidProtocolError>(error),
            },
    {
        if frame.len() < 10 {
            return Err(CcidProtocolError::FrameTooShort(frame.len()));
        }
        let message_type = frame[0];
        let payload_length: u64 = frame[1] as u64 + 256 * (frame[2] as u64) + 65536 * (
        frame[3] as u64) + 16777216 * (frame[4] as u64);
        let slot = frame[5];
        let seq = frame[6];
        let parameters = [frame[7], frame[8], frame[9]];
        let actual_payload_length = frame.len() - 10;

        if payload_length != actual_payload_length as u64 {
            return Err(
                CcidProtocolError::LengthMismatch {
                    expected: payload_length as usize,
                    actual: actual_payload_length,
                },
            );
        }
        let payload = vstd::slice::slice_to_vec(&frame[10..frame.len()]);
        assert(payload@ == frame@.skip(10));

        let command = if message_type == PC_TO_RDR_ICC_POWER_ON {
            CcidCommand::IccPowerOn { slot, seq, power_select: parameters[0] }
        } else if message_type == PC_TO_RDR_ICC_POWER_OFF {
            CcidCommand::IccPowerOff { slot, seq }
        } else if message_type == PC_TO_RDR_GET_SLOT_STATUS {
            CcidCommand::GetSlotStatus { slot, seq }
        } else if message_type == PC_TO_RDR_GET_PARAMETERS {
            CcidCommand::GetParameters { slot, seq }
        } else if message_type == PC_TO_RDR_RESET_PARAMETERS {
            CcidCommand::ResetParameters { slot, seq }
        } else if message_type == PC_TO_RDR_SET_PARAMETERS {
            CcidCommand::SetParameters { slot, seq, protocol_num: parameters[0], payload }
        } else if message_type == PC_TO_RDR_XFR_BLOCK {
            CcidCommand::XfrBlock {
                slot,
                seq,
                bwi: parameters[0],
                level_parameter: parameters[1] as u16 + 256 * (parameters[2] as u16),
                payload,
            }
        } else if message_type == PC_TO_RDR_ABORT {
            CcidCommand::Abort { slot, seq }
        } else {
            CcidCommand::Unknown { message_type, slot, seq, parameters, payload }
        };
        assert(parameters@ =~= seq![frame@[7], frame@[8], frame@[9]]);
        Ok(command)
    }

    /// The slot number that the command addresses.
    pub fn slot(&self) -> (slot: u8)
        ensures
            slot == self@.slot(),
    {
        match self {
            CcidCommand::IccPowerOn { slot, .. } => *slot,
            CcidCommand::IccPowerOff { slot, .. } => *slot,
            CcidCommand::GetSlotStatus { slot, .. } => *slot,
            CcidCommand::GetParameters { slot, .. } => *slot,
            CcidCommand::ResetParameters { slot, .. } => *slot,
            CcidCommand::SetParameters { slot, .. } => *slot,
            CcidCommand::XfrBlock { slot, .. } => *slot,
            CcidCommand::Abort { slot, .. } => *slot,
            CcidCommand::Unknown { slot, .. } => *slot,
        }
    }

    /// The sequence number of the command.
    pub fn seq(&self) -> (seq: u8)
        ensures
            seq == self@.seq(),
    {
        match self {
            CcidCommand::IccPowerOn { seq, .. } => *seq,
            CcidCommand::IccPowerOff { seq, .. } => *seq,
            CcidCommand::GetSlotStatus { seq, .. } => *seq,
            CcidCommand::GetParameters { seq, .. } => *seq,
            CcidCommand::ResetParameters { seq, .. } => *seq,
            CcidCommand::SetParameters { seq, .. } => *seq,
            CcidCommand::XfrBlock { seq, .. } => *seq,
            CcidCommand::Abort { seq, .. } => *seq,
            CcidCommand::Unknown { seq, .. } => *seq,
        }
    }
}

/// Builds the ten header bytes of a message.
pub fn header(message_type: u8, payload_length: usize, slot: u8, seq: u8, params: [u8; 3]) -> (frame:
    Vec<u8>)
    ensures
        frame@ == spec_header(
            message_type,
            payload_length as nat,
            slot,
            seq,
            params@[0],
            params@[1],
            params@[2],
        ),
{
    let v: u64 = (payload_length as u64) % 0x1_0000_0000;
    let frame = vec![
        message_type,
        (v % 256) as u8,
        ((v / 256) % 256) as u8,
        ((v / 65536) % 256) as u8,
        (v / 16777216) as u8,
        slot,
        seq,
        params[0],
        params[1],
        params[2],
    ];
    assert(frame@ =~= spec_header(
        message_type,
        payload_length as nat,
        slot,
        seq,
        params@[0],
        params@[1],
        params@[2],
    ));
    frame
}

impl CcidResponse {
    /// Encodes the response as a complete bulk IN frame.
    pub fn encode(&self) -> (frame: Vec<u8>)
        ensures
            frame@ == spec_encode_response(self@),
    {
        match self {
            CcidResponse::DataBlock { slot, seq, status, error, chain_parameter, payload } => {
                let mut frame = header(
                    RDR_TO_PC_DATA_BLOCK,
                    payload.len(),
                    *slot,
                    *seq,
                    [status.encode(), *error, *chain_parameter],
                );
                frame.extend_from_slice(payload.as_slice());
                assert(frame@ =~= spec_encode_response(self@));
                frame
            },
            CcidResponse::SlotStatus { slot, seq, status, error, clock_status } => {
                header(RDR_TO_PC_SLOT_STATUS, 0, *slot, *seq, [status.encode(), *error, *clock_status])
            },
            CcidResponse::Parameters { slot, seq, status, error, protocol_num, payload } => {
                let mut frame = header(
                    RDR_TO_PC_PARAMETERS,
                    payload.len(),
                    *slot,
                    *seq,
                    [status.encode(), *error, *protocol_num],
                );
                frame.extend_from_slice(payload.as_slice());
                assert(frame@ =~= spec_encode_response(self@));
                frame
            },
        }
    }
}

/// The length field of a header reads back as the length it was built from,
/// whenever that length fits in 32 bits.
pub proof fn lemma_header_length_roundtrip(len: nat, mt: u8, slot: u8, seq: u8, p0: u8, p1: u8, p2: u8)
    requires
        len < 0x1_0000_0000,
    ensures
        spec_header(mt, len, slot, seq, p0, p1, p2).len() == 10,
        declared_payload_len(spec_header(mt, len, slot, seq, p0, p1, p2)) == len,
{
    let h = spec_header(mt, len, slot, seq, p0, p1, p2);
    let v = len % 0x1_0000_0000;
    assert(v == len);
    assert(h[1] == v % 256);
    assert(h[2] == (v / 256) % 256);
    assert(h[3] == (v / 65536) % 256);
    assert(h[4] == v / 16777216);
    assert(v == v % 256 + 256 * ((v / 256) % 256) + 65536 * ((v / 65536) % 256) + 16777216 * (v
        / 16777216)) by (nonlinear_arith)
        requires
            0 <= v < 0x1_0000_0000,
    ;
}

/// Framing round trip: a message built from a header and a payload decodes
/// to the command that its type, slot, sequence number, parameters and
/// payload denote.
pub proof fn lemma_decode_of_framed_message(
    mt: u8,
    slot: u8,
    seq: u8,
    p0: u8,
    p1: u8,
    p2: u8,
    payload: Seq<u8>,
)
    requires
        payload.len() < 0x1_0000_0000,
    ensures
        spec_decode(spec_header(mt, payload.len(), slot, seq, p0, p1, p2) + payload) == Ok::<
            CommandView,
            CcidProtocolError,
        >(command_from_parts(mt, slot, seq, p0, p1, p2, payload)),
{
    let h = spec_header(mt, payload.len(), slot, seq, p0, p1, p2);
    lemma_header_length_roundtrip(payload.len(), mt, slot, seq, p0, p1, p2);
    let frame = h + payload;
    assert(frame.skip(10) =~= payload);
    assert(declared_payload_len(frame) == declared_payload_len(h));
}

/// An encoded response is a header of ten bytes followed by the payload, and
/// its length field states the payload length.
pub proof fn lemma_encoded_response_layout(response: ResponseView)
    ensures
        ({
            let frame = spec_encode_response(response);
            let payload = match response {
                ResponseView::DataBlock { payload, .. } => payload,
                ResponseView::SlotStatus { .. } => Seq::<u8>::empty(),
                ResponseView::Parameters { payload, .. } => payload,
            };
            &&& frame.len() == 10 + payload.len()
            &&& frame.skip(10) == payload
            &&& payload.len() < 0x1_0000_0000 ==> declared_payload_len(frame) == payload.len()
        }),
{
    let frame = spec_encode_response(response);
    match response {
        ResponseView::DataBlock { slot, seq, status, error, chain_parameter, payload } => {
            let h = spec_header(RDR_TO_PC_DATA_BLOCK, payload.len(), slot, seq, status.spec_encode(), error, chain_parameter);
            assert(frame.skip(10) =~= payload);
            if payload.len() < 0x1_0000_0000 {
                lemma_header_length_roundtrip(payload.len(), RDR_TO_PC_DATA_BLOCK, slot, seq, status.spec_encode(), error, chain_parameter);
                assert(declared_payload_len(frame) == declared_payload_len(h));
            }
        },
        ResponseView::SlotStatus { slot, seq, status, error, clock_status } => {
            assert(frame.skip(10) =~= Seq::<u8>::empty());
            lemma_header_length_roundtrip(0, RDR_TO_PC_SLOT_STATUS, slot, seq, status.spec_encode(), error, clock_status);
        },
        ResponseView::Parameters { slot, seq, status, error, protocol_num, payload } => {
            let h = spec_header(RDR_TO_PC_PARAMETERS, payload.len(), slot, seq, status.spec_encode(), error, protocol_num);
            assert(frame.skip(10) =~= payload);
            if payload.len() < 0x1_0000_0000 {
                lemma_header_length_roundtrip(payload.len(), RDR_TO_PC_PARAMETERS, slot, seq, status.spec_encode(), error, protocol_num);
                assert(declared_payload_len(frame) == declared_payload_len(h));
            }
        },
    }
}

} // verus!
