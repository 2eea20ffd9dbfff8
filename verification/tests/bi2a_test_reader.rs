use bio2_tools::bi2a_protocol::command_response::CommandResponse;
use bio2_tools::protocol::frame::flash_command::FlashCommand;
use bio2_tools::protocol::frame::host_command::HostCommand;
use bio2_tools::reader::bi2a_test_reader::Bi2aTestReader;
use bio2_tools::reader::bio2_reader::{Bio2Reader, Bio2ReaderError};

fn read_all_bytes(reader: &mut Bi2aTestReader) -> Vec<u8> {
    let mut bytes = Vec::new();
    while let Ok(Some(byte)) = reader.read_byte() {
        bytes.push(byte);
    }
    bytes
}

#[test]
fn test_ping() {
    let reader = &mut Bi2aTestReader::new();

    reader
        .write_bytes(&(HostCommand::Ping { ping_value: 0x00 }).to_frame(0x00))
        .unwrap();

    let response = CommandResponse::from_frame(&read_all_bytes(reader), true).unwrap();

    assert_eq!(
        response,
        CommandResponse::Pong {
            sequence_number: 0x00,
            pong_value: 0x01
        }
    );
}

#[test]
fn test_version() {
    let reader = &mut Bi2aTestReader::new();

    reader
        .write_bytes(&(HostCommand::Version).to_frame(0x01))
        .unwrap();

    let response = CommandResponse::from_frame(&read_all_bytes(reader), true).unwrap();

    assert_eq!(
        response,
        CommandResponse::Version {
            sequence_number: 0x01,
            major: 0x01,
            minor: 0x02,
            patch: 0x0E,
            name: "BI2A".to_string(),
            date: "Oct 31 2018".to_string(),
            time: "19:11:53".to_string()
        }
    );

    reader.set_has_rebooted(true);

    reader
        .write_bytes(&(HostCommand::Version).to_frame(0x02))
        .unwrap();

    let response = CommandResponse::from_frame(&read_all_bytes(reader), true).unwrap();

    assert_eq!(
        response,
        CommandResponse::Version {
            sequence_number: 0x02,
            major: 0x00,
            minor: 0x00,
            patch: 0x00,
            name: "BI2X".to_string(),
            date: "Apr 23 2019".to_string(),
            time: "10:55:23".to_string()
        }
    );
}

#[test]
fn test_start_flash() {
    let reader = &mut Bi2aTestReader::new();

    reader
        .write_bytes(&HostCommand::StartFlash.to_frame(0x03))
        .unwrap();

    // The answer frame is followed by a ready-for-next-block frame (0xA0).
    let bytes = read_all_bytes(reader);
    assert_eq!(bytes.len(), 10);
    assert_eq!(
        CommandResponse::from_frame(&bytes[9..], true),
        Ok(CommandResponse::ReadyForNextFlashBlock)
    );
    let response = CommandResponse::from_frame(&bytes[0..9], true).unwrap();

    assert_eq!(
        response,
        CommandResponse::StartFlash {
            sequence_number: 0x03,
            ok: true
        }
    );
}

#[test]
fn test_are_you_in_flash_mode() {
    let reader = &mut Bi2aTestReader::new();

    reader
        .write_bytes(&FlashCommand::AreYouInFlashMode.to_frame())
        .unwrap();

    let bytes = read_all_bytes(reader);

    assert_eq!(
        CommandResponse::from_frame(&bytes[0..2], true),
        Ok(CommandResponse::InFlashingModeOk)
    );
    assert_eq!(
        CommandResponse::from_frame(&bytes[2..], true),
        Ok(CommandResponse::ReadyForNextFlashBlock)
    );
}

#[test]
fn test_start_write() {
    let reader = &mut Bi2aTestReader::new();

    reader
        .write_bytes(&FlashCommand::StartWrite { offset: 0x12345678 }.to_frame())
        .unwrap();

    let bytes = read_all_bytes(reader);
    let response = CommandResponse::from_frame(&bytes[..(bytes.len() - 1)], true).unwrap();

    assert_eq!(
        response,
        CommandResponse::StartWriteOk { offset: 0x12345678 }
    );

    let response = CommandResponse::from_frame(&bytes[(bytes.len() - 1)..], true).unwrap();
    assert_eq!(response, CommandResponse::ReadyForNextFlashBlock);
}

#[test]
fn test_end_write() {
    let reader = &mut Bi2aTestReader::new();

    reader
        .write_bytes(&FlashCommand::EndWrite.to_frame())
        .unwrap();

    let bytes = &read_all_bytes(reader);

    let response = CommandResponse::from_frame(&bytes[0..2], true).unwrap();
    assert_eq!(response, CommandResponse::EndWriteOk);

    assert_eq!(
        CommandResponse::from_frame(&bytes[2..], true),
        Ok(CommandResponse::ReadyForNextFlashBlock)
    );
}

#[test]
fn test_reboot() {
    let reader = &mut Bi2aTestReader::new();

    reader
        .write_bytes(&FlashCommand::Reboot.to_frame())
        .unwrap();

    assert_eq!(
        reader.read_byte(),
        Err(Bio2ReaderError::Raw("Simulated timeout".to_string()))
    );
}

#[test]
fn test_timeout() {
    let reader = &mut Bi2aTestReader::new();

    reader.simulate_timeout();

    assert_eq!(
        reader.read_byte(),
        Err(Bio2ReaderError::Raw("Simulated timeout".to_string()))
    );

    // After the timeout, it should work normally
    reader
        .write_bytes(&HostCommand::Ping { ping_value: 0x42 }.to_frame(0x00))
        .unwrap();
    let response = CommandResponse::from_frame(&read_all_bytes(reader), true).unwrap();
    assert_eq!(
        response,
        CommandResponse::Pong {
            sequence_number: 0x00,
            pong_value: 0x43
        }
    );
}

#[test]
fn emulator_stores_written_block() {
    let reader = &mut Bi2aTestReader::new();
    let mut block = [0u8; 128];
    for (i, b) in block.iter_mut().enumerate() {
        *b = (i as u8).wrapping_mul(7).wrapping_add(0xF0);
    }

    let frame = FlashCommand::WriteBlock { firmware_offset: 0x0100, block_data: block, is_128kb_firmware: false }.to_frame();
    reader.write_bytes(&frame).unwrap();
    let bytes = read_all_bytes(reader);
    assert_eq!(&bytes[bytes.len() - 2..], &[0xAC, 0xA0]);

    let firmware = reader.get_flashed_firmware();
    assert_eq!(firmware.len(), 0x180);
    assert!(firmware[..0x100].iter().all(|&b| b == 0));
    assert_eq!(&firmware[0x100..0x180], &block[..]);

    // A second block elsewhere leaves the first one as it was.
    let other = [0x5Au8; 128];
    reader
        .write_bytes(&FlashCommand::WriteBlock { firmware_offset: 0x0000, block_data: other, is_128kb_firmware: false }.to_frame())
        .unwrap();
    read_all_bytes(reader);
    let firmware = reader.get_flashed_firmware();
    assert_eq!(&firmware[0x000..0x080], &other[..]);
    assert_eq!(&firmware[0x100..0x180], &block[..]);
}

#[test]
fn emulator_rejects_block_with_bad_checksum() {
    let reader = &mut Bi2aTestReader::new();
    let block = [0x11u8; 128];
    let mut frame = FlashCommand::WriteBlock { firmware_offset: 0x0080, block_data: block, is_128kb_firmware: false }.to_frame();
    // The last byte is the sum of the encoded block, 0x58 here.
    let n = frame.len();
    assert_eq!(frame[n - 1], 0x58);
    frame[n - 1] = 0x59;
    reader.write_bytes(&frame).unwrap();
    let bytes = read_all_bytes(reader);
    assert_eq!(&bytes[bytes.len() - 2..], &[0xAF, 0xA0]);
    assert_eq!(reader.get_flashed_firmware().len(), 0);
}

#[test]
fn emulator_logs_writes_as_hex() {
    let reader = &mut Bi2aTestReader::new();
    reader.write_bytes(&[0xA1]).unwrap();
    reader.write_bytes(&[0xA8, 0x0F, 0xC3]).unwrap();
    assert_eq!(reader.get_written_data(), &vec!["a1".to_string(), "a8 0f c3".to_string()]);
}

#[test]
fn emulator_answers_ping_with_value_plus_one() {
    for value in [0x00u8, 0x41, 0xAA, 0xFD] {
        let reader = &mut Bi2aTestReader::new();
        reader
            .write_bytes(&HostCommand::Ping { ping_value: value }.to_frame(0x10))
            .unwrap();
        let response = CommandResponse::from_frame(&read_all_bytes(reader), true).unwrap();
        assert_eq!(
            response,
            CommandResponse::Pong {
                sequence_number: 0x10,
                pong_value: value + 1
            }
        );
    }
}

#[test]
fn emulator_reconnect_clears_pending_bytes_and_timeout() {
    let reader = &mut Bi2aTestReader::new();
    reader.write_bytes(&[0xA1]).unwrap();
    reader.simulate_timeout();
    reader.reconnect().unwrap();
    assert_eq!(reader.read_byte(), Ok(None));
    reader.write_bytes(&[0xA1]).unwrap();
    reader.clear();
    assert_eq!(reader.read_byte(), Ok(None));
}

#[test]
fn written_data_logs_every_write_in_order() {
    let mut reader = Bi2aTestReader::new();
    reader.write_bytes(&[0xA1]).unwrap();
    reader.write_bytes(&[0xA8]).unwrap();
    reader.write_bytes(&[0xA8, 0x00, 0xFF, 0x5F, 0x00, 0x00]).unwrap();
    assert_eq!(
        reader.get_written_data(),
        &vec!["a1".to_string(), "a8".to_string(), "a8 00 ff 5f 00 00".to_string()]
    );
}

#[test]
fn flashed_image_in_any_block_order() {
    let image: Vec<u8> = (0..0x10000usize).map(|i| ((i * 7 + i / 128) % 256) as u8).collect();
    let mut order: Vec<u32> = (0..512).collect();
    // A fixed shuffle: odd blocks from the top, then even ones from the bottom.
    order.sort_by_key(|i| if i % 2 == 1 { (0, 511 - i) } else { (1, *i) });
    let mut reader = Bi2aTestReader::new();
    for i in order {
        let offset = i * 128;
        let mut block = [0u8; 128];
        block.copy_from_slice(&image[offset as usize..offset as usize + 128]);
        let frame = FlashCommand::WriteBlock { firmware_offset: offset, block_data: block, is_128kb_firmware: false }
            .to_frame();
        reader.write_bytes(&frame).unwrap();
        let answer = read_all_bytes(&mut reader);
        let mut expected = frame.clone();
        expected.extend_from_slice(&[0xAC, 0xA0]);
        assert_eq!(answer, expected);
    }
    assert_eq!(reader.get_flashed_firmware(), image);
}

#[test]
fn emulator_says_which_frames_it_takes() {
    let reader = Bi2aTestReader::new();
    assert!(reader.accepts_bytes(&(HostCommand::Ping { ping_value: 0x00 }).to_frame(0x00)));
    assert!(reader.accepts_bytes(&[0xA1]));
    assert!(!reader.accepts_bytes(&[]));
    assert!(!reader.accepts_bytes(&[0xFF]));
    assert!(!reader.accepts_bytes(&[0xAA, 0x00, 0x00]));
    assert!(!reader.accepts_bytes(&[0xAA, 0x00, 0x00, 0x01, 0x00, 0x01, 0xFF, 0x00]));
    assert!(!reader.accepts_bytes(&[0xA2, 0x00]));
}

#[test]
fn block_frame_with_an_extra_escape_is_stored() {
    let block: [u8; 128] = core::array::from_fn(|i| (i * 3 + 1) as u8);
    let frame = FlashCommand::WriteBlock { firmware_offset: 0, block_data: block, is_128kb_firmware: false }.to_frame();
    // Escape the first body byte, which needs no escape: 0xFF then its inverse.
    let mut escaped = vec![frame[0], 0xFF, !frame[1]];
    escaped.extend_from_slice(&frame[2..]);
    let mut reader = Bi2aTestReader::new();
    assert!(reader.accepts_bytes(&escaped));
    reader.write_bytes(&escaped).unwrap();
    let mut expected = escaped.clone();
    expected.extend_from_slice(&[0xAC, 0xA0]);
    assert_eq!(read_all_bytes(&mut reader), expected);
    assert_eq!(reader.get_flashed_firmware(), block.to_vec());
}
