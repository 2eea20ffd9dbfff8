use bio2_tools::bi2x_protocol::command::{Bi2xCommand, MultipleCommandsToFrameError};
use bio2_tools::bi2x_protocol::frame::{Bi2xFrame, Bi2xFrameMode};

#[test]
fn ping_frame_has_no_payload() {
    let frame = Bi2xCommand::Ping.to_frame(0x10);
    assert_eq!(frame, Bi2xFrame::new(0x00, 0x10, false, None));
    assert_eq!(frame.mode, Bi2xFrameMode::Escaped);
}

#[test]
fn allocate_frame_is_encrypted_for_node_two() {
    let frame = Bi2xCommand::AllocateMemoryForFirmwareUpload { size: 0x0102_0304 }.to_frame(7);
    assert_eq!(frame.node, 0x02);
    assert!(frame.is_encrypted);
    assert_eq!(frame.payload, Some(vec![0x00, 0x10, 0x01, 0x02, 0x03, 0x04]));
}

#[test]
fn upload_chunk_payload() {
    let frame = Bi2xCommand::UploadFirmwareChunk { handle: 5, offset: 0x40, data: vec![9, 8] }.to_frame(1);
    assert_eq!(frame.payload, Some(vec![0x00, 0x13, 5, 0, 0, 0, 0x40, 9, 8]));
}

#[test]
fn several_commands_share_one_frame() {
    let commands = vec![
        Bi2xCommand::GetFirmwareVersion,
        Bi2xCommand::FinishFirmwareUploadAndInit { handle: 1, firmware_descriptor_offset: 2, init_arguments: vec![0xEE] },
    ];
    let frame = Bi2xCommand::commands_to_frame(&commands, 0x21).unwrap();
    assert_eq!(frame.node, 0x02);
    assert_eq!(frame.sequence_number, 0x21);
    assert!(frame.is_encrypted);
    assert_eq!(
        frame.payload,
        Some(vec![0x00, 0x02, 0x81, 0x00, 0x78, 1, 0, 0, 0, 2, 0xEE])
    );
}

#[test]
fn single_command_frame_matches_to_frame() {
    let frame = Bi2xCommand::commands_to_frame(&[Bi2xCommand::Init], 3).unwrap();
    assert_eq!(frame, Bi2xCommand::Init.to_frame(3));
}

#[test]
fn no_commands_is_an_error() {
    assert!(matches!(
        Bi2xCommand::commands_to_frame(&[], 0),
        Err(MultipleCommandsToFrameError::NoCommands)
    ));
}

#[test]
fn ping_with_others_is_an_error() {
    assert!(matches!(
        Bi2xCommand::commands_to_frame(&[Bi2xCommand::Init, Bi2xCommand::Ping], 0),
        Err(MultipleCommandsToFrameError::PingWithOtherCommands)
    ));
}

#[test]
fn different_nodes_is_an_error() {
    assert!(matches!(
        Bi2xCommand::commands_to_frame(&[Bi2xCommand::Init, Bi2xCommand::GetFirmwareVersion], 0),
        Err(MultipleCommandsToFrameError::DifferentNodes)
    ));
}
