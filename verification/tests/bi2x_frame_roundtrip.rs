use bio2_tools::bi2x_protocol::frame::{Bi2xFrame, Bi2xFrameMode, Bi2xFrameToBytesError};

fn payload(len: usize) -> Vec<u8> {
    (0..len).map(|i| ((i * 37) % 251) as u8 & 0x0F).collect()
}

fn roundtrip(frame: Bi2xFrame) {
    for &for_bio2 in &[true, false] {
        let bytes = frame.to_bytes(for_bio2).unwrap();
        let parsed = Bi2xFrame::parse(&bytes, !for_bio2).unwrap();
        assert_eq!(parsed, frame);
    }
}

#[test]
fn each_mode_roundtrips() {
    for &mode in &[
        Bi2xFrameMode::Compressed,
        Bi2xFrameMode::Raw,
        Bi2xFrameMode::Escaped,
        Bi2xFrameMode::ByteSubstitution,
    ] {
        for &enc in &[false, true] {
            let mut p = payload(300);
            p[10] = 0xAA;
            p[11] = 0xFF;
            roundtrip(Bi2xFrame { node: 0x02, sequence_number: 0x42, mode, is_encrypted: enc, payload: Some(p) });
        }
    }
}

#[test]
fn frame_without_payload_roundtrips() {
    roundtrip(Bi2xFrame { node: 0x01, sequence_number: 0x00, mode: Bi2xFrameMode::Escaped, is_encrypted: false, payload: None });
}

#[test]
fn written_frame_has_single_start_marker() {
    let frame = Bi2xFrame::new(0x02, 0x10, true, Some(payload(100)));
    let bytes = frame.to_bytes(true).unwrap();
    assert_eq!(bytes[0], 0xAA);
    assert!(!bytes[1..].contains(&0xAA));
}

#[test]
fn substitution_needs_a_free_byte() {
    let every_byte: Vec<u8> = (0..=255u8).collect();
    let frame = Bi2xFrame {
        node: 0x00,
        sequence_number: 0x01,
        mode: Bi2xFrameMode::ByteSubstitution,
        is_encrypted: false,
        payload: Some(every_byte),
    };
    assert!(matches!(frame.to_bytes(true), Err(Bi2xFrameToBytesError::NoSuitableSubstitutionByte)));
}

#[test]
fn escaped_flags_byte_is_inverted() {
    let plain = Bi2xFrame::parse(&[0xAA, 0x00, 0x9D, 0x00, 0x0E], false).unwrap();
    let escaped = Bi2xFrame::parse(&[0xAA, 0x00, 0x9D, 0x00, 0xFF, 0xF1], false).unwrap();
    assert_eq!(escaped, plain);
}

#[test]
fn leading_start_markers_are_skipped() {
    let once = Bi2xFrame::parse(&[0xAA, 0x00, 0x9D, 0x00, 0x0E], false).unwrap();
    let thrice = Bi2xFrame::parse(&[0xAA, 0xAA, 0xAA, 0x00, 0x9D, 0x00, 0x0E], false).unwrap();
    assert_eq!(thrice, once);
}

#[test]
fn parse_is_defined_on_ordinary_frames() {
    assert!(Bi2xFrame::parse_is_defined(&[]));
    assert!(Bi2xFrame::parse_is_defined(&[0x00]));
    assert!(Bi2xFrame::parse_is_defined(&[0xAA, 0x00, 0x9D, 0x00, 0x0E]));
    let bytes = Bi2xFrame::new(0x02, 0x10, true, Some(vec![1, 2, 3])).to_bytes(true).unwrap();
    assert!(Bi2xFrame::parse_is_defined(&bytes));
}

#[test]
fn parse_is_not_defined_on_a_frame_cut_after_escaped_flags() {
    assert!(!Bi2xFrame::parse_is_defined(&[0xAA, 0x00, 0x9D, 0x00, 0xFF]));
}
