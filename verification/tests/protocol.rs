use vusbipd_ccid::ccid::protocol::{
    CcidCommand, CcidProtocolError, CcidResponse, CommandStatus, IccStatus, SlotStatus,
    PC_TO_RDR_ABORT, PC_TO_RDR_GET_SLOT_STATUS, PC_TO_RDR_ICC_POWER_ON, PC_TO_RDR_SET_PARAMETERS,
    PC_TO_RDR_XFR_BLOCK, RDR_TO_PC_DATA_BLOCK, RDR_TO_PC_PARAMETERS, RDR_TO_PC_SLOT_STATUS,
};

#[test]
fn decode_xfr_block_command() {
    let frame = [
        PC_TO_RDR_XFR_BLOCK,
        0x04,
        0x00,
        0x00,
        0x00,
        0x00,
        0x22,
        0x00,
        0x34,
        0x12,
        0x00,
        0xa4,
        0x04,
        0x00,
    ];

    let decoded = CcidCommand::decode(&frame).expect("decode should succeed");
    assert_eq!(
        decoded,
        CcidCommand::XfrBlock {
            slot: 0,
            seq: 0x22,
            bwi: 0,
            level_parameter: 0x1234,
            payload: vec![0x00, 0xa4, 0x04, 0x00],
        }
    );
}

#[test]
fn encode_data_block_response() {
    let frame = CcidResponse::DataBlock {
        slot: 0,
        seq: 1,
        status: SlotStatus {
            icc: IccStatus::Active,
            command: CommandStatus::NoError,
        },
        error: 0,
        chain_parameter: 0,
        payload: vec![0x90, 0x00],
    }
    .encode();

    assert_eq!(frame[0], RDR_TO_PC_DATA_BLOCK);
    assert_eq!(&frame[1..5], &[0x02, 0x00, 0x00, 0x00]);
    assert_eq!(&frame[10..], &[0x90, 0x00]);
}

// Further scenarios.

#[test]
fn decode_rejects_short_frames() {
    assert_eq!(
        CcidCommand::decode(&[PC_TO_RDR_GET_SLOT_STATUS, 0, 0, 0]),
        Err(CcidProtocolError::FrameTooShort(4))
    );
    assert_eq!(CcidCommand::decode(&[]), Err(CcidProtocolError::FrameTooShort(0)));
}

#[test]
fn decode_rejects_length_mismatch() {
    assert_eq!(
        CcidCommand::decode(&[PC_TO_RDR_XFR_BLOCK, 3, 0, 0, 0, 0, 1, 0, 0, 0, 0xaa]),
        Err(CcidProtocolError::LengthMismatch { expected: 3, actual: 1 })
    );
    assert_eq!(
        CcidCommand::decode(&[PC_TO_RDR_XFR_BLOCK, 0, 0, 0, 1, 0, 1, 0, 0, 0]),
        Err(CcidProtocolError::LengthMismatch { expected: 0x0100_0000, actual: 0 })
    );
}

#[test]
fn decode_each_command_type() {
    assert_eq!(
        CcidCommand::decode(&[PC_TO_RDR_ICC_POWER_ON, 0, 0, 0, 0, 0, 5, 2, 0, 0]),
        Ok(CcidCommand::IccPowerOn { slot: 0, seq: 5, power_select: 2 })
    );
    assert_eq!(
        CcidCommand::decode(&[0x63, 0, 0, 0, 0, 1, 6, 0, 0, 0]),
        Ok(CcidCommand::IccPowerOff { slot: 1, seq: 6 })
    );
    assert_eq!(
        CcidCommand::decode(&[0x6c, 0, 0, 0, 0, 0, 7, 0, 0, 0]),
        Ok(CcidCommand::GetParameters { slot: 0, seq: 7 })
    );
    assert_eq!(
        CcidCommand::decode(&[0x6d, 0, 0, 0, 0, 0, 8, 0, 0, 0]),
        Ok(CcidCommand::ResetParameters { slot: 0, seq: 8 })
    );
    assert_eq!(
        CcidCommand::decode(&[PC_TO_RDR_SET_PARAMETERS, 2, 0, 0, 0, 0, 9, 1, 0, 0, 0x11, 0x10]),
        Ok(CcidCommand::SetParameters { slot: 0, seq: 9, protocol_num: 1, payload: vec![0x11, 0x10] })
    );
    assert_eq!(
        CcidCommand::decode(&[PC_TO_RDR_ABORT, 0, 0, 0, 0, 0, 10, 0, 0, 0]),
        Ok(CcidCommand::Abort { slot: 0, seq: 10 })
    );
    assert_eq!(
        CcidCommand::decode(&[0x6a, 1, 0, 0, 0, 0, 11, 1, 2, 3, 4]),
        Ok(CcidCommand::Unknown { message_type: 0x6a, slot: 0, seq: 11, parameters: [1, 2, 3], payload: vec![4] })
    );
}

#[test]
fn slot_status_byte_layout() {
    assert_eq!(SlotStatus::ok(IccStatus::Active).encode(), 0x00);
    assert_eq!(SlotStatus::ok(IccStatus::Inactive).encode(), 0x01);
    assert_eq!(SlotStatus::failed(IccStatus::NotPresent).encode(), 0x42);
    assert_eq!(
        SlotStatus { icc: IccStatus::Inactive, command: CommandStatus::TimeExtension }.encode(),
        0x81
    );
}

#[test]
fn encode_slot_status_and_parameters() {
    let frame = CcidResponse::SlotStatus {
        slot: 0,
        seq: 3,
        status: SlotStatus::failed(IccStatus::NotPresent),
        error: 0xff,
        clock_status: 0,
    }
    .encode();
    assert_eq!(frame, vec![RDR_TO_PC_SLOT_STATUS, 0, 0, 0, 0, 0, 3, 0x42, 0xff, 0]);

    let frame = CcidResponse::Parameters {
        slot: 0,
        seq: 4,
        status: SlotStatus::ok(IccStatus::Active),
        error: 0,
        protocol_num: 1,
        payload: vec![0x11, 0x10, 0x00, 0x15, 0x00, 0xfe, 0x00],
    }
    .encode();
    assert_eq!(
        frame,
        vec![RDR_TO_PC_PARAMETERS, 7, 0, 0, 0, 0, 4, 0, 0, 1, 0x11, 0x10, 0x00, 0x15, 0x00, 0xfe, 0x00]
    );
}

#[test]
fn encode_long_payload_length_field() {
    let frame = CcidResponse::DataBlock {
        slot: 0,
        seq: 1,
        status: SlotStatus::ok(IccStatus::Active),
        error: 0,
        chain_parameter: 0,
        payload: vec![0u8; 0x0123],
    }
    .encode();
    assert_eq!(&frame[1..5], &[0x23, 0x01, 0x00, 0x00]);
    assert_eq!(frame.len(), 10 + 0x0123);
}

#[test]
fn header_then_payload_decodes_back() {
    let payload = vec![1u8, 2, 3, 4, 5];
    let mut frame = vusbipd_ccid::ccid::protocol::header(PC_TO_RDR_XFR_BLOCK, payload.len(), 0, 0x31, [7, 0x02, 0x01]);
    frame.extend_from_slice(&payload);
    assert_eq!(
        CcidCommand::decode(&frame),
        Ok(CcidCommand::XfrBlock { slot: 0, seq: 0x31, bwi: 7, level_parameter: 0x0102, payload })
    );
}

#[test]
fn command_slot_and_seq() {
    let command = CcidCommand::SetParameters { slot: 2, seq: 0x40, protocol_num: 1, payload: vec![] };
    assert_eq!(command.slot(), 2);
    assert_eq!(command.seq(), 0x40);
}
