use bio2_tools::bi2x_protocol::frame::{Bi2xFrame, Bi2xFrameMode};
use bio2_tools::bi2x_protocol::response::Bi2xResponse;

#[test]
fn response_test_parse_pong_response() {
    let frame = Bi2xFrame {
        node: 0x00,
        sequence_number: 0,
        mode: Bi2xFrameMode::Raw,
        is_encrypted: false,
        payload: Some(vec![]),
    };

    let responses = Bi2xResponse::from_frame(frame).unwrap();
    assert_eq!(responses.len(), 1);
    assert!(matches!(responses[0], Bi2xResponse::Pong));
}

#[test]
fn test_parse_initialization_result_response() {
    let frame = Bi2xFrame {
        node: 0x00,
        sequence_number: 0,
        mode: Bi2xFrameMode::Raw,
        is_encrypted: false,
        payload: Some(vec![0x00, 0x01, 0x00]),
    };

    let responses = Bi2xResponse::from_frame(frame).unwrap();
    assert_eq!(responses.len(), 1);
    assert!(matches!(
        responses[0],
        Bi2xResponse::InitializationResult { success: true }
    ));

    let frame = Bi2xFrame {
        node: 0x00,
        sequence_number: 0,
        mode: Bi2xFrameMode::Raw,
        is_encrypted: false,
        payload: Some(vec![0x00, 0x01, 0x01]),
    };

    let responses = Bi2xResponse::from_frame(frame).unwrap();
    assert_eq!(responses.len(), 1);
    assert!(matches!(
        responses[0],
        Bi2xResponse::InitializationResult { success: false }
    ));
}

#[test]
fn test_parse_firmware_version_response() {
    let frame = Bi2xFrame {
        node: 0x03,
        sequence_number: 0,
        mode: Bi2xFrameMode::Raw,
        is_encrypted: false,
        payload: Some(vec![
            0x00, 0x02, 0x00, 0x0d, 0x06, 0x00, 0x01, 0x00, 0x01, 0x02, 0x09, 0x42, 0x49, 0x32,
            0x58, 0x01, 0x96, 0x3e, 0xc4, 0x00, 0x00, 0x01, 0x0b, 0x00, 0x00, 0x00, 0x00, 0x00,
            0x00, 0x00, 0x00, 0xbb, 0x1f, 0x8e, 0xe2,
        ]),
    };

    let responses = Bi2xResponse::from_frame(frame).unwrap();
    assert_eq!(responses.len(), 1);
    if let Bi2xResponse::FirmwareVersion {
        success,
        major,
        minor,
        patch,
        name,
        timestamp_ms,
    } = &responses[0]
    {
        assert_eq!(major, &0x01);
        assert_eq!(minor, &0x02);
        assert_eq!(patch, &0x09);
        assert_eq!(name, "BI2X");
        assert_eq!(*timestamp_ms, 1597421040000);
        assert_eq!(*success, true);
    } else {
        panic!("Expected FirmwareVersion response");
    }
}

#[test]
fn test_parse_memory_allocation_result_response() {
    let frame = Bi2xFrame {
        node: 0x03,
        sequence_number: 0,
        mode: Bi2xFrameMode::Raw,
        is_encrypted: false,
        payload: Some(vec![0x00, 0x10, 0x00, 0x02]),
    };

    let responses = Bi2xResponse::from_frame(frame).unwrap();
    assert_eq!(responses.len(), 1);
    assert!(matches!(
        responses[0],
        Bi2xResponse::MemoryAllocationResult {
            success: true,
            handle: 2
        }
    ));

    let frame = Bi2xFrame {
        node: 0x03,
        sequence_number: 0,
        mode: Bi2xFrameMode::Raw,
        is_encrypted: false,
        payload: Some(vec![0x00, 0x10, 0x01, 0x02]),
    };

    let responses = Bi2xResponse::from_frame(frame).unwrap();
    assert_eq!(responses.len(), 1);
    assert!(matches!(
        responses[0],
        Bi2xResponse::MemoryAllocationResult {
            success: false,
            handle: 2
        }
    ));
}

#[test]
fn test_parse_firmware_upload_chunk_result_response() {
    let frame = Bi2xFrame {
        node: 0x03,
        sequence_number: 0,
        mode: Bi2xFrameMode::Raw,
        is_encrypted: false,
        payload: Some(vec![0x00, 0x13, 0x00]),
    };

    let responses = Bi2xResponse::from_frame(frame).unwrap();
    assert_eq!(responses.len(), 1);
    assert!(matches!(
        responses[0],
        Bi2xResponse::FirmwareUploadChunkResult { success: true }
    ));

    let frame = Bi2xFrame {
        node: 0x03,
        sequence_number: 0,
        mode: Bi2xFrameMode::Raw,
        is_encrypted: false,
        payload: Some(vec![0x00, 0x13, 0x01]),
    };

    let responses = Bi2xResponse::from_frame(frame).unwrap();
    assert_eq!(responses.len(), 1);
    assert!(matches!(
        responses[0],
        Bi2xResponse::FirmwareUploadChunkResult { success: false }
    ));
}

#[test]
fn test_parse_firmware_upload_finish_result_response() {
    let frame = Bi2xFrame {
        node: 0x03,
        sequence_number: 0,
        mode: Bi2xFrameMode::Raw,
        is_encrypted: false,
        payload: Some(vec![0x00, 0x78, 0x00, 0x02]),
    };

    let responses = Bi2xResponse::from_frame(frame).unwrap();
    assert_eq!(responses.len(), 1);
    assert!(matches!(
        responses[0],
        Bi2xResponse::FirmwareUploadFinishResult {
            success: true,
            handle: 2
        }
    ));

    let frame = Bi2xFrame {
        node: 0x03,
        sequence_number: 0,
        mode: Bi2xFrameMode::Raw,
        is_encrypted: false,
        payload: Some(vec![0x00, 0x78, 0x01, 0x02]),
    };

    let responses = Bi2xResponse::from_frame(frame).unwrap();
    assert_eq!(responses.len(), 1);
    assert!(matches!(
        responses[0],
        Bi2xResponse::FirmwareUploadFinishResult {
            success: false,
            handle: 2
        }
    ));
}

#[test]
fn test_parse_multiple_responses_in_single_frame() {
    let frame = Bi2xFrame {
        node: 0x03,
        sequence_number: 0,
        mode: Bi2xFrameMode::Raw,
        is_encrypted: false,
        payload: Some(vec![
            0x00, 0x02, 0x00, 0x0d, 0x06, 0x00, 0x01, 0x00, 0x01, 0x02, 0x09, 0x42, 0x49, 0x32,
            0x58, 0x01, 0x96, 0x3e, 0xc4, 0x00, 0x00, 0x01, 0x0b, 0x00, 0x00, 0x00, 0x00, 0x00,
            0x00, 0x00, 0x00, 0xbb, 0x1f, 0x8e, 0xe2, 0x00, 0x10, 0x00, 0x02,
        ]),
    };

    let responses = Bi2xResponse::from_frame(frame).unwrap();
    assert_eq!(responses.len(), 2);

    if let Bi2xResponse::FirmwareVersion {
        success,
        major,
        minor,
        patch,
        name,
        timestamp_ms,
    } = &responses[0]
    {
        assert_eq!(major, &0x01);
        assert_eq!(minor, &0x02);
        assert_eq!(patch, &0x09);
        assert_eq!(name, "BI2X");
        assert_eq!(*timestamp_ms, 1597421040000);
        assert_eq!(*success, true);
    } else {
        panic!("Expected FirmwareVersion response");
    }

    assert!(matches!(
        responses[1],
        Bi2xResponse::MemoryAllocationResult {
            success: true,
            handle: 2
        }
    ));
}
