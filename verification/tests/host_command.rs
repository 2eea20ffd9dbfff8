use bio2_tools::protocol::frame::host_command::HostCommand;

#[test]
fn test_ping_command() {
    let command = HostCommand::Ping { ping_value: 0x05 };
    let frame = command.to_frame(0x53);
    let expected_frame = vec![0xAA, 0x00, 0x00, 0x01, 0x53, 0x01, 0x05, 0x5A];
    assert_eq!(
        frame, expected_frame,
        "Ping command frame does not match expected value"
    );
}

#[test]
fn test_version_command() {
    let command = HostCommand::Version;
    let frame = command.to_frame(0x19);
    let expected_frame = vec![0xAA, 0x01, 0x00, 0x02, 0x19, 0x00, 0x1C];
    assert_eq!(
        frame, expected_frame,
        "Version command frame does not match expected value"
    );
}

#[test]
fn test_start_flash_command() {
    let command = HostCommand::StartFlash;
    let frame = command.to_frame(0xA5);
    let expected_frame = vec![0xAA, 0x01, 0x00, 0x04, 0xA5, 0x00, 0xFF, 0x55];
    assert_eq!(
        frame, expected_frame,
        "StartFlash command frame does not match expected value"
    );
}

#[test]
fn test_escape_bytes() {
    let command = HostCommand::Ping { ping_value: 0xFF };
    let frame = command.to_frame(0xAA);
    let expected_frame = vec![0xAA, 0x00, 0x00, 0x01, 0xFF, 0x55, 0x01, 0xFF, 0x00, 0xAB];
    assert_eq!(
        frame, expected_frame,
        "Frame with escape byte does not match expected value"
    );
}
