use bio2_tools::bi2a_protocol::command_response::{CommandResponse, CommandResponseParseError};

#[test]
fn command_response_test_parse_pong_response() {
    let frame = vec![0xAA, 0xAA, 0x00, 0x00, 0x01, 0x00, 0x01, 0x01, 0x03];
    let response = CommandResponse::from_frame(&frame, false).unwrap();
    match response {
        CommandResponse::Pong {
            sequence_number,
            pong_value,
        } => {
            assert_eq!(sequence_number, 0x00);
            assert_eq!(pong_value, 0x01);
        }
        _ => panic!("Expected Pong response"),
    }
}

#[test]
fn test_parse_version_response() {
    let frame = vec![
        0xAA, 0xAA, 0x80, 0x00, 0x02, 0x01, 0x2C, 0x0D, 0x06, 0x00, 0x00, 0x00, 0x01, 0x02,
        0x0E, 0x42, 0x49, 0x32, 0x41, 0x4F, 0x63, 0x74, 0x20, 0x33, 0x31, 0x20, 0x32, 0x30,
        0x31, 0x38, 0x00, 0x00, 0x00, 0x00, 0x00, 0x31, 0x39, 0x3A, 0x31, 0x31, 0x3A, 0x35,
        0x33, 0x00, 0x00, 0x00, 0x00, 0x00, 0x00, 0x00, 0x00, 0x0E,
    ];
    let response = CommandResponse::from_frame(&frame, false).unwrap();
    match response {
        CommandResponse::Version {
            sequence_number,
            major,
            minor,
            patch,
            name,
            date,
            time: hour,
        } => {
            assert_eq!(sequence_number, 0x01);
            assert_eq!(major, 0x01);
            assert_eq!(minor, 0x02);
            assert_eq!(patch, 0x0E);
            assert_eq!(name, "BI2A");
            assert_eq!(date, "Oct 31 2018");
            assert_eq!(hour, "19:11:53");
        }
        _ => panic!("Expected Version response"),
    }
}

#[test]
fn test_parse_start_flash_response() {
    let frame = vec![0xAA, 0xAA, 0x80, 0x00, 0x04, 0x12, 0x01, 0x00, 0x97];
    let response = CommandResponse::from_frame(&frame, false).unwrap();
    match response {
        CommandResponse::StartFlash {
            sequence_number,
            ok,
        } => {
            assert_eq!(sequence_number, 0x12);
            assert_eq!(ok, true);
        }
        _ => panic!("Expected StartFlash response"),
    }

    let frame_not_ok = vec![0xAA, 0xAA, 0x80, 0x00, 0x04, 0x12, 0x01, 0x01, 0x98];
    let response_not_ok = CommandResponse::from_frame(&frame_not_ok, false).unwrap();
    match response_not_ok {
        CommandResponse::StartFlash {
            sequence_number,
            ok,
        } => {
            assert_eq!(sequence_number, 0x12);
            assert_eq!(ok, false);
        }
        _ => panic!("Expected StartFlash response"),
    }
}

#[test]
fn parse_ready_for_next_flash_block_response() {
    let frame = vec![0xA0];
    let response = CommandResponse::from_frame(&frame, false).unwrap();
    match response {
        CommandResponse::ReadyForNextFlashBlock => {}
        _ => panic!("Expected ReadyForNextFlashBlock response"),
    }
}

#[test]
fn parse_in_flashing_mode_response() {
    let frame_ok = vec![0xA1, 0xAC];
    let response_ok = CommandResponse::from_frame(&frame_ok, false).unwrap();
    match response_ok {
        CommandResponse::InFlashingModeOk => {}
        _ => panic!("Expected InFlashingModeOk response"),
    }

    let frame_not_ok = vec![0xA1, 0xAF];
    let response_not_ok = CommandResponse::from_frame(&frame_not_ok, false).unwrap();
    match response_not_ok {
        CommandResponse::InFlashingModeNotOk => {}
        _ => panic!("Expected InFlashingModeNotOk response"),
    }
}

#[test]
fn parse_flashed_block_ok_response() {
    let frame = vec![
        0xA2, 0x4B, 0x01, 0x7F, 0xCB, 0xB4, 0x00, 0x00, 0x00, 0x00, 0x00, 0x00, 0x00, 0x00,
        0x00, 0x00, 0x00, 0x00, 0x00, 0x00, 0x00, 0x00, 0x00, 0x00, 0x00, 0x00, 0x00, 0x00,
        0x00, 0x00, 0x00, 0x00, 0x00, 0xFF, 0x00, 0x00, 0x00, 0x39, 0x78, 0x0D, 0x09, 0x6B,
        0x7B, 0x06, 0x7D, 0x73, 0x5D, 0x54, 0x1C, 0x01, 0x15, 0x97, 0x13, 0x27, 0x00, 0x00,
        0x00, 0x00, 0x00, 0x00, 0x00, 0x00, 0x00, 0x00, 0x00, 0x00, 0x00, 0x00, 0x00, 0x00,
        0x00, 0x00, 0x00, 0x00, 0x00, 0x00, 0x00, 0x00, 0x00, 0x00, 0x00, 0x00, 0x00, 0x00,
        0x00, 0xFF, 0x01, 0xFE, 0x00, 0xEF, 0x11, 0xFE, 0x00, 0xEF, 0x11, 0xFE, 0x00, 0xFB,
        0x05, 0xFE, 0x00, 0xEF, 0x11, 0xFE, 0x00, 0xF7, 0x09, 0xFE, 0x00, 0xEF, 0x11, 0xFE,
        0x00, 0xEF, 0x11, 0xFE, 0x00, 0xEF, 0x11, 0xFE, 0x00, 0xEF, 0x11, 0xFE, 0x00, 0xF3,
        0x0D, 0xFE, 0x00, 0xFF, 0xF0, 0x0F, 0x00, 0xF2, 0xAC,
    ];
    let expected_block_data = [
        0xFF, 0xFF, 0xFF, 0xFF, 0xFF, 0xFF, 0xFF, 0xFF, 0xFF, 0xFF, 0xFF, 0xFF, 0xFF, 0xFF,
        0xFF, 0xFF, 0xFF, 0xFF, 0xFF, 0xFF, 0xFF, 0xFF, 0xFF, 0xFF, 0xFF, 0xFF, 0xFF, 0xFF,
        0x00, 0x00, 0x00, 0x00, 0x39, 0x41, 0x4C, 0x45, 0x2E, 0x55, 0x53, 0x2E, 0x5D, 0x00,
        0x54, 0x48, 0x49, 0x5C, 0xCB, 0xD8, 0xFF, 0xFF, 0xFF, 0xFF, 0xFF, 0xFF, 0xFF, 0xFF,
        0xFF, 0xFF, 0xFF, 0xFF, 0xFF, 0xFF, 0xFF, 0xFF, 0xFF, 0xFF, 0xFF, 0xFF, 0xFF, 0xFF,
        0xFF, 0xFF, 0xFF, 0xFF, 0xFF, 0xFF, 0xFF, 0xFF, 0xFF, 0xFF, 0x00, 0x01, 0xFF, 0xFF,
        0x10, 0x01, 0xFF, 0xFF, 0x10, 0x01, 0xFF, 0xFF, 0x04, 0x01, 0xFF, 0xFF, 0x10, 0x01,
        0xFF, 0xFF, 0x08, 0x01, 0xFF, 0xFF, 0x10, 0x01, 0xFF, 0xFF, 0x10, 0x01, 0xFF, 0xFF,
        0x10, 0x01, 0xFF, 0xFF, 0x10, 0x01, 0xFF, 0xFF, 0x0C, 0x01, 0xFF, 0xFF, 0x00, 0xF0,
        0xFF, 0xFF,
    ];
    let response = CommandResponse::from_frame(&frame, false).unwrap();
    match response {
        CommandResponse::WriteBlockOk {
            firmware_offset,
            block_data,
        } => {
            assert_eq!(firmware_offset, 0xFF80);
            assert_eq!(block_data, expected_block_data);
        }
        _ => panic!("Expected FlashedBlockOk response"),
    }

    let frame_not_ok = vec![
        0xA2, 0x4B, 0x01, 0x7F, 0xCB, 0xB4, 0x00, 0x00, 0x00, 0x00, 0x00, 0x00, 0x00, 0x00,
        0x00, 0x00, 0x00, 0x00, 0x00, 0x00, 0x00, 0x00, 0x00, 0x00, 0x00, 0x00, 0x00, 0x00,
        0x00, 0x00, 0x00, 0x00, 0x00, 0xFF, 0x00, 0x00, 0x00, 0x39, 0x78, 0x0D, 0x09, 0x6B,
        0x7B, 0x06, 0x7D, 0x73, 0x5D, 0x54, 0x1C, 0x01, 0x15, 0x97, 0x13, 0x27, 0x00, 0x00,
        0x00, 0x00, 0x00, 0x00, 0x00, 0x00, 0x00, 0x00, 0x00, 0x00, 0x00, 0x00, 0x00, 0x00,
        0x00, 0x00, 0x00, 0x00, 0x00, 0x00, 0x00, 0x00, 0x00, 0x00, 0x00, 0x00, 0x00, 0x00,
        0x00, 0xFF, 0x01, 0xFE, 0x00, 0xEF, 0x11, 0xFE, 0x00, 0xEF, 0x11, 0xFE, 0x00, 0xFB,
        0x05, 0xFE, 0x00, 0xEF, 0x11, 0xFE, 0x00, 0xF7, 0x09, 0xFE, 0x00, 0xEF, 0x11, 0xFE,
        0x00, 0xEF, 0x11, 0xFE, 0x00, 0xEF, 0x11, 0xFE, 0x00, 0xEF, 0x11, 0xFE, 0x00, 0xF3,
        0x0D, 0xFE, 0x00, 0xFF, 0xF0, 0x0F, 0x00, 0xF2, 0xAF,
    ];
    let response_not_ok = CommandResponse::from_frame(&frame_not_ok, false).unwrap();
    match response_not_ok {
        CommandResponse::WriteBlockNotOk => {}
        _ => panic!("Expected FlashedBlockNotOk response"),
    }
}

#[test]
fn parse_start_write_block_ok_response() {
    let frame = vec![0xA8, 0x00, 0x00, 0x00, 0x00];
    let response = CommandResponse::from_frame(&frame, false).unwrap();
    match response {
        CommandResponse::StartWriteOk { offset } => {
            assert_eq!(offset, 0x00000000);
        }
        _ => panic!("Expected StartWriteBlockOk response"),
    }
}

#[test]
fn parse_end_write_block_ok_response() {
    let frame_ok = vec![0xA8, 0xAC];
    let response_ok = CommandResponse::from_frame(&frame_ok, false).unwrap();
    match response_ok {
        CommandResponse::EndWriteOk => {}
        _ => panic!("Expected EndWriteBlockOk response"),
    }

    let frame_not_ok = vec![0xA8, 0xAF];
    let response_not_ok = CommandResponse::from_frame(&frame_not_ok, false).unwrap();
    match response_not_ok {
        CommandResponse::EndWriteNotOk => {}
        _ => panic!("Expected EndWriteBlockNotOk response"),
    }
}

// --- Error tests ---

#[test]
fn test_error_empty_frame() {
    let err = CommandResponse::from_frame(&[], false).unwrap_err();
    assert!(matches!(err, CommandResponseParseError::EmptyFrame));
}

#[test]
fn test_error_unexpected_end_of_frame_after_ff() {
    // escape=true: frame[0] is the outer marker, frame[1..] is unescaped.
    // 0xFF at the last position means no byte follows it.
    let frame = vec![0xA0, 0xFF];
    let err = CommandResponse::from_frame(&frame, true).unwrap_err();
    assert!(matches!(
        err,
        CommandResponseParseError::UnexpectedEndOfFrameAfterFF
    ));
}

#[test]
fn command_response_test_error_unknown_start_byte() {
    let frame = vec![0xB0];
    let err = CommandResponse::from_frame(&frame, false).unwrap_err();
    assert!(matches!(
        err,
        CommandResponseParseError::UnknownStartByte(0xB0)
    ));
}

// AA frame errors

#[test]
fn test_error_aa_missing_source_byte() {
    // AA frame with only 2 bytes: [0xAA, 0xAA] → len < 3
    let frame = vec![0xAA, 0xAA];
    let err = CommandResponse::from_frame(&frame, false).unwrap_err();
    assert!(matches!(err, CommandResponseParseError::MissingSourceByte));
}

#[test]
fn test_error_aa_missing_command_code() {
    // len=4 → len < 5
    let frame = vec![0xAA, 0xAA, 0x80, 0x00];
    let err = CommandResponse::from_frame(&frame, false).unwrap_err();
    assert!(matches!(err, CommandResponseParseError::MissingCommandCode));
}

#[test]
fn test_error_aa_missing_sequence_number() {
    // len=5 → len < 6
    let frame = vec![0xAA, 0xAA, 0x80, 0x00, 0x01];
    let err = CommandResponse::from_frame(&frame, false).unwrap_err();
    assert!(matches!(
        err,
        CommandResponseParseError::MissingSequenceNumber
    ));
}

#[test]
fn test_error_aa_missing_payload_length() {
    // len=6 → len < 7
    let frame = vec![0xAA, 0xAA, 0x80, 0x00, 0x01, 0x00];
    let err = CommandResponse::from_frame(&frame, false).unwrap_err();
    assert!(matches!(
        err,
        CommandResponseParseError::MissingPayloadLength
    ));
}

#[test]
fn test_error_aa_invalid_frame_length() {
    // payload_length=1 → expected_length = 7+1+1 = 9, but frame has 10 bytes
    let frame = vec![0xAA, 0xAA, 0x80, 0x00, 0x01, 0x00, 0x01, 0x01, 0x03, 0x00];
    let err = CommandResponse::from_frame(&frame, false).unwrap_err();
    assert!(matches!(
        err,
        CommandResponseParseError::InvalidFrameLength {
            expected: 9,
            actual: 10
        }
    ));
}

#[test]
fn command_response_test_error_aa_checksum_mismatch() {
    // Pong frame with correct length but wrong checksum byte (0xFF instead of 0x03)
    // Calculated over frame[2..8]: 0x00+0x00+0x01+0x00+0x01+0x01 = 0x03
    let frame = vec![0xAA, 0xAA, 0x00, 0x00, 0x01, 0x00, 0x01, 0x01, 0xFF];
    let err = CommandResponse::from_frame(&frame, false).unwrap_err();
    assert!(matches!(
        err,
        CommandResponseParseError::ChecksumMismatch {
            expected: 0x03,
            actual: 0xFF
        }
    ));
}

#[test]
fn command_response_test_error_aa_unknown_command() {
    // Command code 0x0099, payload 1 byte (0x00)
    // checksum over frame[2..8]: 0x80+0x00+0x99+0x00+0x01+0x00 = 282 → 0x1A
    let frame = vec![0xAA, 0xAA, 0x80, 0x00, 0x99, 0x00, 0x01, 0x00, 0x1A];
    let err = CommandResponse::from_frame(&frame, false).unwrap_err();
    match err {
        CommandResponseParseError::UnknownCommand { code, payload } => {
            assert_eq!(code, 0x0099);
            assert_eq!(payload, vec![0x00]);
        }
        _ => panic!("Expected UnknownCommand error"),
    }
}

#[test]
fn command_response_test_error_aa_invalid_payload_length_pong() {
    // Pong (0x0001) with 2-byte payload instead of 1
    // checksum over frame[2..9]: 0x80+0x00+0x01+0x00+0x02+0x01+0x02 = 134 = 0x86
    let frame = vec![0xAA, 0xAA, 0x80, 0x00, 0x01, 0x00, 0x02, 0x01, 0x02, 0x86];
    let err = CommandResponse::from_frame(&frame, false).unwrap_err();
    assert!(matches!(
        err,
        CommandResponseParseError::InvalidPayloadLength {
            expected: 1,
            actual: 2
        }
    ));
}

#[test]
fn command_response_test_error_aa_invalid_payload_length_version() {
    // Version (0x0002) with 1-byte payload instead of 44
    // checksum over frame[2..8]: 0x80+0x00+0x02+0x00+0x01+0x00 = 131 = 0x83
    let frame = vec![0xAA, 0xAA, 0x80, 0x00, 0x02, 0x00, 0x01, 0x00, 0x83];
    let err = CommandResponse::from_frame(&frame, false).unwrap_err();
    assert!(matches!(
        err,
        CommandResponseParseError::InvalidPayloadLength {
            expected: 44,
            actual: 1
        }
    ));
}

#[test]
fn command_response_test_error_aa_invalid_payload_length_start_flash() {
    // StartFlash (0x0004) with 2-byte payload instead of 1
    // checksum over frame[2..9]: 0x80+0x00+0x04+0x00+0x02+0x00+0x00 = 134 = 0x86
    let frame = vec![0xAA, 0xAA, 0x80, 0x00, 0x04, 0x00, 0x02, 0x00, 0x00, 0x86];
    let err = CommandResponse::from_frame(&frame, false).unwrap_err();
    assert!(matches!(
        err,
        CommandResponseParseError::InvalidPayloadLength {
            expected: 1,
            actual: 2
        }
    ));
}

// A0 frame errors

#[test]
fn test_error_a0_invalid_frame_length() {
    let frame = vec![0xA0, 0x00]; // len=2, expected=1
    let err = CommandResponse::from_frame(&frame, false).unwrap_err();
    assert!(matches!(
        err,
        CommandResponseParseError::InvalidFrameLength {
            expected: 1,
            actual: 2
        }
    ));
}

// A1 frame errors

#[test]
fn test_error_a1_invalid_frame_length() {
    let frame = vec![0xA1]; // len=1, expected=2
    let err = CommandResponse::from_frame(&frame, false).unwrap_err();
    assert!(matches!(
        err,
        CommandResponseParseError::InvalidFrameLength {
            expected: 2,
            actual: 1
        }
    ));
}

// A2 frame errors

#[test]
fn test_error_a2_invalid_frame_length() {
    let frame = vec![0xA2; 10]; // len=10, expected=135
    let err = CommandResponse::from_frame(&frame, false).unwrap_err();
    assert!(matches!(
        err,
        CommandResponseParseError::InvalidFrameLength {
            expected: 135,
            actual: 10
        }
    ));
}

#[test]
fn command_response_test_error_a2_invalid_command_byte1() {
    let mut frame = vec![0u8; 135];
    frame[0] = 0xA2;
    frame[1] = 0x00; // must be 0x4B
    let err = CommandResponse::from_frame(&frame, false).unwrap_err();
    assert!(matches!(
        err,
        CommandResponseParseError::InvalidA2CommandByte1(0x00)
    ));
}

#[test]
fn command_response_test_error_a2_invalid_firmware_offset_checksum() {
    let mut frame = vec![0u8; 135];
    frame[0] = 0xA2;
    frame[1] = 0x4B;
    frame[2] = 0x01;
    frame[3] = 0x7F;
    frame[4] = 0x00; // wrong: (0x4B + 0x01 + 0x7F) % 256 = 0xCB
    let err = CommandResponse::from_frame(&frame, false).unwrap_err();
    assert!(matches!(
        err,
        CommandResponseParseError::InvalidFirmwareOffsetChecksum {
            expected: 0x00,
            calculated: 0xCB
        }
    ));
}

#[test]
fn command_response_test_error_a2_invalid_firmware_block_data_checksum() {
    let mut frame = vec![0u8; 135];
    frame[0] = 0xA2;
    frame[1] = 0x4B;
    frame[2] = 0x01;
    frame[3] = 0x7F;
    frame[4] = 0xCB; // correct: (0x4B + 0x01 + 0x7F) % 256 = 0xCB
    // frame[5..133] are all 0x00, so block data checksum = 0x00
    frame[133] = 0xFF; // wrong, should be 0x00
    frame[134] = 0xAC;
    let err = CommandResponse::from_frame(&frame, false).unwrap_err();
    assert!(matches!(
        err,
        CommandResponseParseError::InvalidFirmwareBlockDataChecksum {
            expected: 0xFF,
            calculated: 0x00
        }
    ));
}

// A8 frame errors

#[test]
fn command_response_test_error_a8_invalid_frame_length() {
    let frame = vec![0xA8, 0x00, 0x00]; // len=3, not 2 or 5
    let err = CommandResponse::from_frame(&frame, false).unwrap_err();
    assert!(matches!(
        err,
        CommandResponseParseError::InvalidFrameLength {
            expected: 5,
            actual: 3
        }
    ));
}
