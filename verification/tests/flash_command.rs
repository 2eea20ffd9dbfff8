use bio2_tools::bi2a_protocol::command_response::CommandResponse;
use bio2_tools::bi2a_protocol::command_response_decoder::CommandResponseDecoder;
use bio2_tools::protocol::frame::flash_command::FlashCommand;
use bio2_tools::reader::bi2a_test_reader::Bi2aTestReader;
use bio2_tools::reader::bio2_reader::Bio2Reader;

#[test]
fn simple_flash_frames() {
    assert_eq!(FlashCommand::AreYouInFlashMode.to_frame(), vec![0xA1]);
    assert_eq!(FlashCommand::EndWrite.to_frame(), vec![0xA8]);
    assert_eq!(FlashCommand::Reboot.to_frame(), vec![0xA8, 0xA8, 0xA8]);
    assert_eq!(FlashCommand::StartWrite { offset: 0x12345678 }.to_frame(), vec![0xA8, 0x12, 0x34, 0x56, 0x78]);
}

#[test]
fn start_write_escapes_command_bytes_and_ff() {
    assert_eq!(
        FlashCommand::StartWrite { offset: 0xA0FF_0012 }.to_frame(),
        vec![0xA8, 0xFF, 0x5F, 0xFF, 0x00, 0x00, 0x12]
    );
}

#[test]
fn write_block_frame_layout() {
    let block = [0x11u8; 128];
    let frame = FlashCommand::WriteBlock { firmware_offset: 0x0080, block_data: block, is_128kb_firmware: false }.to_frame();
    // Offset 0x0080: high byte 0x00 -> 0xFE, low byte 0x80 -> 0x80, check 0xC9.
    assert_eq!(&frame[..5], &[0xA2, 0x4B, 0xFE, 0x80, 0xC9]);
    // The first byte is XOR-ed with 0x80 ^ 0xC9, the others with the byte before.
    assert_eq!(frame[5], 0x11 ^ 0x49);
    assert!(frame[6..133].iter().all(|&b| b == 0));
    assert_eq!(frame[133], 0x58);
    assert_eq!(frame.len(), 134);
}

#[test]
fn block_offsets_of_128kb_firmware_are_words() {
    let block = [0x00u8; 128];
    let frame = FlashCommand::WriteBlock { firmware_offset: 0x1FF80, block_data: block, is_128kb_firmware: true }.to_frame();
    let mut reader = Bi2aTestReader::new();
    reader.write_bytes(&frame).unwrap();
    let mut bytes = Vec::new();
    while let Ok(Some(b)) = reader.read_byte() {
        bytes.push(b);
    }
    let response = CommandResponse::from_frame(&bytes[..bytes.len() - 1], true).unwrap();
    assert_eq!(response, CommandResponse::WriteBlockOk { firmware_offset: 0xFFC0, block_data: block });
}

#[test]
fn decoder_reads_board_answer_to_block_write() {
    let mut block = [0u8; 128];
    for (i, b) in block.iter_mut().enumerate() {
        // Plenty of 0xA? and 0xFF bytes once encoded.
        *b = if i % 3 == 0 { 0xFF } else { 0xA0 + (i % 16) as u8 };
    }
    let frame = FlashCommand::WriteBlock { firmware_offset: 0x4F00, block_data: block, is_128kb_firmware: false }.to_frame();
    let mut decoder = CommandResponseDecoder::new();
    let mut answer = frame.clone();
    answer.push(0xAC);
    for (i, &byte) in answer.iter().enumerate() {
        let result = decoder.update(byte).unwrap();
        if i + 1 < answer.len() {
            assert!(result.is_none());
        } else {
            assert_eq!(result, Some(CommandResponse::WriteBlockOk { firmware_offset: 0x4F00, block_data: block }));
        }
    }
    assert_eq!(decoder.update(0xA0).unwrap(), Some(CommandResponse::ReadyForNextFlashBlock));
}

fn generated(len: usize, seed: u32) -> Vec<u8> {
    let mut state = seed;
    (0..len)
        .map(|_| {
            state = state.wrapping_mul(1_664_525).wrapping_add(1_013_904_223);
            (state >> 24) as u8
        })
        .collect()
}

#[test]
fn write_block_frames_flash_whole_firmware() {
    for &(size, is_128kb) in &[(0x10000usize, false), (0x20000usize, true)] {
        let reader = &mut Bi2aTestReader::new();
        let firmware = generated(size, size as u32);
        for i in (0..size / 128).rev() {
            let firmware_offset = (i * 128) as u32;
            let block_data: [u8; 128] = firmware[i * 128..i * 128 + 128].try_into().unwrap();
            let command = FlashCommand::WriteBlock { firmware_offset, block_data, is_128kb_firmware: is_128kb };
            reader.write_bytes(&command.to_frame()).unwrap();

            let mut bytes = Vec::new();
            while let Ok(Some(b)) = reader.read_byte() {
                bytes.push(b);
            }
            let expected_offset = if is_128kb { (firmware_offset >> 1) as u16 } else { firmware_offset as u16 };
            let response = CommandResponse::from_frame(&bytes[..bytes.len() - 1], true).unwrap();
            assert_eq!(response, CommandResponse::WriteBlockOk { firmware_offset: expected_offset, block_data });
            let response = CommandResponse::from_frame(&bytes[bytes.len() - 1..], true).unwrap();
            assert_eq!(response, CommandResponse::ReadyForNextFlashBlock);
        }
        assert_eq!(reader.get_flashed_firmware(), firmware);
    }
}
