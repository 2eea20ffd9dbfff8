use bio2_tools::protocol::frame::host_command::HostCommand;

fn unescape(bytes: &[u8]) -> Vec<u8> {
    let mut out = Vec::new();
    let mut i = 0;
    while i < bytes.len() {
        if bytes[i] == 0xFF {
            out.push(!bytes[i + 1]);
            i += 2;
        } else {
            out.push(bytes[i]);
            i += 1;
        }
    }
    out
}

#[test]
fn unescaped_frame_is_body_and_checksum() {
    let frame = HostCommand::Custom { command_code: 0x12AA, addr: 0xFF, payload: vec![0xAA, 0x01, 0xFF] }.to_frame(0x55);
    assert_eq!(frame[0], 0xAA);
    assert!(!frame[1..].contains(&0xAA));
    let body = unescape(&frame[1..]);
    let (checked, sum) = body.split_at(body.len() - 1);
    assert_eq!(checked, &[0xFF, 0x12, 0xAA, 0x55, 0x03, 0xAA, 0x01, 0xFF]);
    let total = checked.iter().fold(0u8, |a, &b| a.wrapping_add(b));
    assert_eq!(sum[0], total);
}

#[test]
fn version_frame() {
    let frame = HostCommand::Version.to_frame(0x01);
    let total = [0x01u8, 0x00, 0x02, 0x01, 0x00].iter().fold(0u8, |a, &b| a.wrapping_add(b));
    assert_eq!(frame, vec![0xAA, 0x01, 0x00, 0x02, 0x01, 0x00, total]);
}
