use bio2_tools::bi2x_protocol::frame::{Bi2xFrame, Bi2xFrameMode, Bi2xFrameParseError};

#[test]
fn test_new() {
    let frame = Bi2xFrame::new(0x01, 0x9D, false, None);
    assert_eq!(frame.mode, Bi2xFrameMode::Escaped);

    let frame = Bi2xFrame::new(0x01, 0x9D, false, Some(vec![0x00, 0x01]));
    assert_eq!(frame.mode, Bi2xFrameMode::Raw);

    let frame = Bi2xFrame::new(0x01, 0x9D, false, Some(vec![0x00; 10]));
    assert_eq!(frame.mode, Bi2xFrameMode::Compressed);

    let frame = Bi2xFrame::new(0x01, 0x9D, false, Some(vec![0x00, 0xAA, 0x01]));
    assert_eq!(frame.mode, Bi2xFrameMode::ByteSubstitution);
}

#[test]
fn test_no_payload() {
    let frame = vec![0xaa, 0x00, 0x9d, 0x00, 0x0e];
    let expected_result = Bi2xFrame {
        node: 0x00,
        sequence_number: 0x9d,
        mode: Bi2xFrameMode::Escaped,
        is_encrypted: false,
        payload: None,
    };

    let parsed = Bi2xFrame::parse(&frame, false).unwrap();
    assert_eq!(parsed, expected_result);

    let serialized = parsed.to_bytes(true).unwrap();
    assert_eq!(serialized, frame);
}

#[test]
fn test_raw() {
    let frame = vec![0xAA, 0x00, 0x9F, 0x02, 0x4e, 0x00, 0x01, 0x4a];
    let expected_result = Bi2xFrame {
        node: 0x00,
        sequence_number: 0x9F,
        mode: Bi2xFrameMode::Raw,
        is_encrypted: false,
        payload: Some(vec![0x00, 0x01]),
    };

    let parsed = Bi2xFrame::parse(&frame, true).unwrap();
    assert_eq!(parsed, expected_result);

    let serialized = parsed.to_bytes(true).unwrap();
    assert_eq!(serialized, frame);
}

#[test]
fn test_raw_and_encrypted() {
    let frame = vec![
        0xaa, 0x03, 0xa0, 0x23, 0x58, 0x7b, 0x1a, 0x71, 0x5b, 0x51, 0x44, 0x2c, 0x62, 0x72,
        0x32, 0x20, 0x6c, 0x06, 0x6e, 0x3d, 0x3b, 0xd7, 0x76, 0x85, 0x06, 0x47, 0x75, 0x16,
        0x12, 0x63, 0x60, 0x19, 0x5e, 0x3f, 0x0c, 0x55, 0xbb, 0x75, 0xdf, 0xb2, 0x14,
    ];
    let expected_result = Bi2xFrame {
        node: 0x03,
        sequence_number: 0xa0,
        mode: Bi2xFrameMode::Raw,
        is_encrypted: true,
        payload: Some(vec![
            0x00, 0x02, 0x00, 0x0d, 0x06, 0x00, 0x01, 0x00, 0x01, 0x02, 0x09, 0x42, 0x49, 0x32,
            0x58, 0x01, 0x96, 0x3e, 0xc4, 0x00, 0x00, 0x01, 0x0b, 0x00, 0x00, 0x00, 0x00, 0x00,
            0x00, 0x00, 0x00, 0xbb, 0x1f, 0x8e, 0xe2,
        ]),
    };

    let parsed = Bi2xFrame::parse(&frame, true).unwrap();
    assert_eq!(parsed, expected_result);

    let serialized = parsed.to_bytes(false).unwrap();
    assert_eq!(serialized, frame);
}

#[test]
fn test_compressed_and_encrypted() {
    let frame = vec![
        0xaa, 0x02, 0xa2, 0x47, 0x93, 0x6c, 0x4d, 0x11, 0x11, 0xa8, 0xb9, 0x7c, 0x3e, 0x2c,
        0xa1, 0x46, 0xff, 0x5b, 0x4c, 0xf1, 0x0b, 0x37, 0xf1, 0x60, 0x73, 0xba, 0x03, 0xff,
        0x08, 0x2a, 0x2e, 0x7f, 0x25, 0x66, 0x0b, 0x7b, 0x12, 0xf6, 0x56, 0x5c, 0x57, 0x2e,
        0x62, 0x76, 0x23, 0x3c, 0x2e, 0x4f, 0x5a, 0x76, 0x2d, 0x6b, 0x5c, 0x6a, 0x04, 0x65,
        0x25, 0x16, 0x31, 0x63, 0x78, 0x19, 0x52, 0x1b, 0x0c, 0x42, 0x66, 0x7b,
    ];
    let expected_result = Bi2xFrame {
        node: 0x02,
        sequence_number: 0xa2,
        mode: Bi2xFrameMode::Compressed,
        is_encrypted: true,
        payload: Some(vec![
            0x00, 0x13, 0x02, 0x00, 0x00, 0x00, 0x00, 0xf8, 0x32, 0x00, 0x00, 0xa4, 0x1c, 0x00,
            0x00, 0x00, 0x00, 0x00, 0x00, 0xf0, 0x2d, 0x00, 0x00, 0xe5, 0x1c, 0x00, 0x00, 0xf0,
            0x2d, 0x00, 0x00, 0x00, 0xff, 0x08, 0x13, 0x00, 0x00, 0x09, 0x13, 0x01, 0x00, 0x0a,
            0x13, 0x02, 0x00, 0x0b, 0x13, 0x03, 0x00, 0x05, 0x13, 0x15, 0x00, 0x06, 0x13, 0x17,
            0x00, 0x14, 0x0b, 0x22, 0x00, 0x13, 0x0b, 0x23, 0x00, 0x18, 0x0c, 0x24, 0x00, 0x17,
            0x0c,
        ]),
    };

    let parsed = Bi2xFrame::parse(&frame, false).unwrap();
    assert_eq!(parsed, expected_result);

    let serialized = parsed.to_bytes(true).unwrap();
    assert_eq!(serialized, frame);
}

#[test]
fn test_substition_byte_and_encrypted() {
    let frame = vec![
        0xaa, 0x02, 0xd0, 0x47, 0x79, 0x5b, 0x0b, 0x7b, 0x03, 0x26, 0x67, 0x1f, 0x7d, 0x25,
        0xa9, 0xff, 0x7f, 0x2e, 0x50, 0x3e, 0x4c, 0x64, 0x91, 0x1a, 0xee, 0xd1, 0x75, 0x56,
        0xb9, 0x56, 0xad, 0x63, 0x0c, 0x22, 0xed, 0x95, 0x73, 0x44, 0x25, 0x66, 0x0a, 0x3e,
        0x70, 0xec, 0x44, 0x3f, 0x94, 0xed, 0x17, 0x47, 0x19, 0xf5, 0x58, 0xa4, 0xbc, 0xf1,
        0x3a, 0x1a, 0x40, 0x95, 0x56, 0x0a, 0x3b, 0xe8, 0xeb, 0xf8, 0x72, 0x4e, 0x87, 0xf9,
        0x3f, 0x37, 0x32, 0x60, 0x14, 0x59, 0x66, 0x4b,
    ];
    let expected_result = Bi2xFrame {
        node: 0x02,
        sequence_number: 0xd0,
        mode: Bi2xFrameMode::ByteSubstitution,
        is_encrypted: true,
        payload: Some(vec![
            0x00, 0x13, 0x02, 0x00, 0x00, 0x0b, 0x40, 0x17, 0xa8, 0xff, 0x7f, 0x17, 0x2e, 0x61,
            0x60, 0x11, 0x91, 0x61, 0xee, 0xc1, 0x04, 0x00, 0xec, 0x12, 0xa8, 0xaa, 0x7f, 0x12,
            0xec, 0x91, 0x3c, 0x18, 0x40, 0x5c, 0x61, 0x76, 0x11, 0xe8, 0x03, 0x4b, 0x81, 0xfd,
            0x74, 0x27, 0x00, 0xa1, 0x67, 0xa0, 0xe9, 0xb1, 0x61, 0x62, 0x11, 0x81, 0x61, 0x2e,
            0x36, 0xa8, 0xeb, 0xa9, 0x62, 0x47, 0x83, 0xfc, 0x03, 0x72, 0x28, 0x2b, 0x3c, 0x18,
            0x00,
        ]),
    };

    let parsed = Bi2xFrame::parse(&frame, false).unwrap();
    assert_eq!(parsed, expected_result);

    let serialized = parsed.to_bytes(true).unwrap();
    assert_eq!(serialized, frame);
}

#[test]
fn test_escaped_and_encrypted() {
    let frame = vec![
        0xaa, 0x02, 0x73, 0xc2, 0x02, 0x1c, 0x64, 0x34, 0x3d, 0x33, 0x01, 0x03, 0x3d, 0x7b,
        0x59, 0x2b, 0x7d, 0x03, 0x71, 0x13, 0x7d, 0x5b, 0x59, 0x4b, 0x3d, 0x73, 0x61, 0x23,
        0x3d, 0x3b, 0x59, 0x4b, 0x7d, 0x23, 0x71, 0x53, 0x7d, 0x1b, 0x59, 0x6b, 0x3d, 0x33,
        0x41, 0x43, 0x3d, 0x7b, 0x19, 0x2b, 0x7d, 0x43, 0x71, 0x53, 0x7d, 0x1b, 0x19, 0x0b,
        0x3d, 0x73, 0x61, 0x23, 0x3d, 0x3b, 0x19, 0x0b, 0x7d, 0x23, 0x71, 0x13, 0x7d, 0x5b,
        0x19, 0x6b, 0x3d, 0x33, 0x01, 0x03, 0x3d, 0x7b, 0x59, 0x2b, 0x7d, 0x03, 0x71, 0x13,
        0x7d, 0x5b, 0x59, 0x4b, 0x3d, 0x73, 0x61, 0x23, 0x3d, 0x3b, 0x59, 0x4b, 0x7d, 0x23,
        0x71, 0x53, 0x7d, 0x1b, 0x59, 0x6b, 0x3d, 0x33, 0x41, 0x43, 0x3d, 0x7b, 0x19, 0x2b,
        0x7d, 0x43, 0x71, 0x53, 0x7d, 0x1b, 0x19, 0x0b, 0x3d, 0x73, 0x61, 0x23, 0x3d, 0x3b,
        0x19, 0x0b, 0x7d, 0x23, 0x71, 0x13, 0x7d, 0x5b, 0x19, 0x6b, 0x95, 0x91, 0x83, 0x83,
        0x95, 0xd1, 0xd3, 0x83, 0xdd, 0x89, 0xdb, 0x9b, 0xdd, 0xd9, 0xdb, 0xcb, 0x95, 0xd1,
        0xc3, 0x83, 0x95, 0x91, 0xd3, 0xc3, 0xdd, 0x89, 0xdb, 0xdb, 0xdd, 0x99, 0xdb, 0xcb,
        0xb5, 0xb1, 0xe3, 0xe3, 0xb5, 0xf1, 0xb3, 0xa3, 0xfd, 0xe9, 0xff, 0x0e, 0xab, 0xfc,
        0xfc, 0xae, 0xaf, 0xa4, 0xa4, 0xb6, 0xb6, 0xf4, 0xe4, 0xa6, 0xb6, 0xbc, 0xbc, 0xba,
        0xbb, 0xa8, 0xf8, 0xbe, 0xbf, 0xd0, 0x80, 0xc2, 0x82, 0x80, 0xc0, 0x92, 0x92, 0x98,
        0x88, 0x8a, 0x9a, 0xd8, 0xd8, 0x8a, 0xda, 0x90, 0xc0, 0x82, 0xc2, 0xc0, 0xc0, 0xd2,
        0x92, 0xd8, 0xc8, 0x8a, 0x9a, 0x98, 0xd8, 0xca, 0xda, 0xb0, 0xe0, 0xe2, 0xe2, 0xa0,
        0xe0, 0xf2, 0xb2, 0xb8, 0xe8, 0xea, 0xeb, 0xec, 0xbc, 0xee, 0xef, 0xe4, 0xa4, 0xb6,
        0xe6, 0xf4, 0xe4, 0xe6, 0xe6, 0xac, 0xac, 0xfa, 0xfb, 0xb8, 0xb8, 0xfe, 0xff, 0x02,
        0x42,
    ];
    let expected_result = Bi2xFrame {
        node: 0x02,
        sequence_number: 0x73,
        mode: Bi2xFrameMode::Escaped,
        is_encrypted: true,
        payload: Some(vec![
            0x03, 0x20, 0x00, 0x01, 0x02, 0x03, 0x04, 0x05, 0x06, 0x07, 0x08, 0x09, 0x0a, 0x0b,
            0x0c, 0x0d, 0x0e, 0x0f, 0x10, 0x11, 0x12, 0x13, 0x14, 0x15, 0x16, 0x17, 0x18, 0x19,
            0x1a, 0x1b, 0x1c, 0x1d, 0x1e, 0x1f, 0x20, 0x21, 0x22, 0x23, 0x24, 0x25, 0x26, 0x27,
            0x28, 0x29, 0x2a, 0x2b, 0x2c, 0x2d, 0x2e, 0x2f, 0x30, 0x31, 0x32, 0x33, 0x34, 0x35,
            0x36, 0x37, 0x38, 0x39, 0x3a, 0x3b, 0x3c, 0x3d, 0x3e, 0x3f, 0x40, 0x41, 0x42, 0x43,
            0x44, 0x45, 0x46, 0x47, 0x48, 0x49, 0x4a, 0x4b, 0x4c, 0x4d, 0x4e, 0x4f, 0x50, 0x51,
            0x52, 0x53, 0x54, 0x55, 0x56, 0x57, 0x58, 0x59, 0x5a, 0x5b, 0x5c, 0x5d, 0x5e, 0x5f,
            0x60, 0x61, 0x62, 0x63, 0x64, 0x65, 0x66, 0x67, 0x68, 0x69, 0x6a, 0x6b, 0x6c, 0x6d,
            0x6e, 0x6f, 0x70, 0x71, 0x72, 0x73, 0x74, 0x75, 0x76, 0x77, 0x78, 0x79, 0x7a, 0x7b,
            0x7c, 0x7d, 0x7e, 0x7f, 0x80, 0x81, 0x82, 0x83, 0x84, 0x85, 0x86, 0x87, 0x88, 0x89,
            0x8a, 0x8b, 0x8c, 0x8d, 0x8e, 0x8f, 0x90, 0x91, 0x92, 0x93, 0x94, 0x95, 0x96, 0x97,
            0x98, 0x99, 0x9a, 0x9b, 0x9c, 0x9d, 0x9e, 0x9f, 0xa0, 0xa1, 0xa2, 0xa3, 0xa4, 0xa5,
            0xa6, 0xa7, 0xa8, 0xa9, 0xaa, 0xab, 0xac, 0xad, 0xae, 0xaf, 0xb0, 0xb1, 0xb2, 0xb3,
            0xb4, 0xb5, 0xb6, 0xb7, 0xb8, 0xb9, 0xba, 0xbb, 0xbc, 0xbd, 0xbe, 0xbf, 0xc0, 0xc1,
            0xc2, 0xc3, 0xc4, 0xc5, 0xc6, 0xc7, 0xc8, 0xc9, 0xca, 0xcb, 0xcc, 0xcd, 0xce, 0xcf,
            0xd0, 0xd1, 0xd2, 0xd3, 0xd4, 0xd5, 0xd6, 0xd7, 0xd8, 0xd9, 0xda, 0xdb, 0xdc, 0xdd,
            0xde, 0xdf, 0xe0, 0xe1, 0xe2, 0xe3, 0xe4, 0xe5, 0xe6, 0xe7, 0xe8, 0xe9, 0xea, 0xeb,
            0xec, 0xed, 0xee, 0xef, 0xf0, 0xf1, 0xf2, 0xf3, 0xf4, 0xf5, 0xf6, 0xf7, 0xf8, 0xf9,
            0xfa, 0xfb, 0xfc, 0xfd, 0xfe, 0xff,
        ]),
    };

    let parsed = Bi2xFrame::parse(&frame, false).unwrap();
    assert_eq!(parsed, expected_result);

    let serialized = parsed.to_bytes(true).unwrap();
    assert_eq!(serialized, frame);
}

// --- Error path tests ---

#[test]
fn test_empty_frame() {
    let result = Bi2xFrame::parse(&[], false);
    assert!(matches!(result, Err(Bi2xFrameParseError::EmptyFrame)));
}

#[test]
fn test_invalid_start_marker() {
    let frame = vec![0x00, 0x00, 0x9d, 0x00, 0x0e];
    let result = Bi2xFrame::parse(&frame, false);
    assert!(matches!(
        result,
        Err(Bi2xFrameParseError::InvalidStartMarker(0x00))
    ));
}

#[test]
fn test_frame_too_short_after_start() {
    // After stripping the leading 0xAA only 2 bytes remain; parser needs at least 3.
    let frame = vec![0xAA, 0x00, 0x9d];
    let result = Bi2xFrame::parse(&frame, false);
    assert!(matches!(
        result,
        Err(Bi2xFrameParseError::InvalidFrameLength {
            expected: 3,
            actual: 2
        })
    ));
}

#[test]
fn test_invalid_length_byte() {
    // 0x80 sits in the 0x80–0xBF range: bit 7 set, bit 6 clear → invalid VLQ byte.
    let frame = vec![0xAA, 0x00, 0x9d, 0x80];
    let result = Bi2xFrame::parse(&frame, false);
    assert!(matches!(
        result,
        Err(Bi2xFrameParseError::InvalidLengthByte)
    ));
}

#[test]
fn test_length_truncated() {
    // 0xC0 is a VLQ continuation byte; the slice ends without a terminal byte.
    let frame = vec![0xAA, 0x00, 0x9d, 0xC0];
    let result = Bi2xFrame::parse(&frame, false);
    assert!(matches!(result, Err(Bi2xFrameParseError::LengthTruncated)));
}

#[test]
fn test_length_too_long() {
    // Five consecutive continuation bytes (0xC0) exceed the 4-byte limit.
    let frame = vec![0xAA, 0x00, 0x9d, 0xC0, 0xC0, 0xC0, 0xC0, 0xC0];
    let result = Bi2xFrame::parse(&frame, false);
    assert!(matches!(result, Err(Bi2xFrameParseError::LengthTooLong)));
}

#[test]
fn test_frame_too_short_for_flags() {
    // VLQ declares length=2 but the frame is cut off before the flags/CRC byte.
    let frame = vec![0xAA, 0x00, 0x9F, 0x02];
    let result = Bi2xFrame::parse(&frame, false);
    assert!(matches!(
        result,
        Err(Bi2xFrameParseError::InvalidFrameLength {
            expected: 4,
            actual: 3
        })
    ));
}

#[test]
fn test_header_crc_mismatch() {
    // Identical to test_no_payload but the CRC nibble is 0xF instead of 0xE.
    let frame = vec![0xaa, 0x00, 0x9d, 0x00, 0x0f];
    let result = Bi2xFrame::parse(&frame, false);
    assert!(matches!(
        result,
        Err(Bi2xFrameParseError::HeaderCrcMismatch {
            expected: 0xE,
            actual: 0xF
        })
    ));
}

#[test]
fn test_invalid_frame_mode() {
    // Flags byte 0xA1: mode bits 7+5 both set (0xA0) are not a valid combination.
    // CRC nibble 0x1 is correct for (node=0x00, seq=0x9d, length=0, flags_high=0xA0).
    let frame = vec![0xAA, 0x00, 0x9d, 0x00, 0xA1];
    let result = Bi2xFrame::parse(&frame, false);
    assert!(matches!(
        result,
        Err(Bi2xFrameParseError::InvalidFrameMode(0xA0))
    ));
}

#[test]
fn test_payload_crc_mismatch() {
    // Raw frame from test_raw with first payload byte flipped (0x00 → 0x01).
    let frame = vec![0xAA, 0x00, 0x9F, 0x02, 0x4e, 0x01, 0x01, 0x4a];
    let result = Bi2xFrame::parse(&frame, false);
    assert!(matches!(
        result,
        Err(Bi2xFrameParseError::PayloadCrcMismatch { .. })
    ));
}

#[test]
fn test_empty_payload_at_wrong_time() {
    // Header declares length=1 (Raw mode) but no payload bytes are present.
    // Flags byte 0x43: Raw mode (0x40) + CRC nibble 0x3
    // (verified for node=0x00, seq=0x9F, length=1).
    let frame = vec![0xAA, 0x00, 0x9F, 0x01, 0x43];
    let result = Bi2xFrame::parse(&frame, false);
    assert!(matches!(
        result,
        Err(Bi2xFrameParseError::EmptyPayloadAtWrongTime)
    ));
}

#[test]
fn test_zero_length_with_trailing_bytes() {
    // Valid no-payload frame (length=0) with an unexpected trailing byte.
    let frame = vec![0xaa, 0x00, 0x9d, 0x00, 0x0e, 0x00];
    let result = Bi2xFrame::parse(&frame, false);
    assert!(matches!(
        result,
        Err(Bi2xFrameParseError::InvalidFrameLength {
            expected: 4,
            actual: 5
        })
    ));
}
