use bio2_tools::bi2a_protocol::command_response::CommandResponse;
use bio2_tools::protocol::frame::flash_command::FlashCommand;
use bio2_tools::reader::bi2a_test_reader::Bi2aTestReader;
use bio2_tools::reader::bio2_reader::{Bio2Reader, Bio2ReaderError};
use bio2_tools::tools::flash_state_machine::{
    FlashAction, FlashEvent, FlashState, FlashStateMachine, FlashStateMachineError,
};

fn read_next_response(
    machine: &mut FlashStateMachine,
    reader: &mut Bi2aTestReader,
) -> Result<CommandResponse, FlashStateMachineError> {
    while let Ok(Some(byte)) = reader.read_byte() {
        if let Some(result) = machine.receive_byte(byte) {
            return result;
        }
    }
    Err(FlashStateMachineError::ResponseTimeout)
}

/// Runs one step against the emulator; the reboot wait is skipped.
fn run_step(machine: &mut FlashStateMachine, reader: &mut Bi2aTestReader) -> Result<(), FlashStateMachineError> {
    let mut event = FlashEvent::Begin;
    loop {
        assert!(machine.takes_event(&event));
        let action = machine.step(event);
        event = match action {
            FlashAction::Write(bytes) => FlashEvent::Written(reader.write_bytes(&bytes)),
            FlashAction::ReadResponse => FlashEvent::Response(read_next_response(machine, reader)),
            FlashAction::Clear => {
                reader.clear();
                FlashEvent::Cleared
            }
            FlashAction::Reconnect { .. } => FlashEvent::Reconnected(reader.reconnect()),
            FlashAction::Finished(result) => return result,
        };
    }
}

fn run(machine: &mut FlashStateMachine, reader: &mut Bi2aTestReader) -> (Vec<FlashState>, Option<FlashStateMachineError>) {
    let mut states = vec![machine.state];
    while machine.state != FlashState::Finish {
        if let Err(e) = run_step(machine, reader) {
            return (states, Some(e));
        }
        if *states.last().unwrap() != machine.state {
            states.push(machine.state);
        }
    }
    (states, None)
}

fn firmware(len: usize) -> Vec<u8> {
    (0..len).map(|i| ((i * 131 + i / 256) % 256) as u8).collect()
}

#[test]
fn flashing_64kb_firmware_with_emulator() {
    let data = firmware(0x10000);
    let mut machine = FlashStateMachine::new_64kb(data.clone().try_into().unwrap());
    let mut reader = Bi2aTestReader::new();
    let (states, error) = run(&mut machine, &mut reader);
    assert_eq!(error, None);
    assert_eq!(
        states,
        vec![
            FlashState::Init,
            FlashState::PingSetup,
            FlashState::Ping,
            FlashState::EnterFlashModeSetup,
            FlashState::EnterFlashMode,
            FlashState::VerifyFlashModeSetup,
            FlashState::VerifyFlashMode,
            FlashState::StartWritingSetup,
            FlashState::StartWriting,
            FlashState::VerifyFlashMode2Setup,
            FlashState::VerifyFlashMode2,
            FlashState::BlockWriteSetup,
            FlashState::BlockWrite,
            FlashState::StopWritingSetup,
            FlashState::StopWriting,
            FlashState::StopWriting2Setup,
            FlashState::StopWriting2,
            FlashState::Reboot,
            FlashState::ReconnectAfterReboot,
            FlashState::IdentNewFirmwareSetup,
            FlashState::IdentNewFirmware,
            FlashState::Finish,
        ]
    );
    assert_eq!(reader.get_flashed_firmware(), data);
}

#[test]
fn flashing_128kb_firmware_with_emulator() {
    let data = firmware(0x20000);
    let mut machine = FlashStateMachine::new_128kb(data.clone().try_into().unwrap());
    let mut reader = Bi2aTestReader::new();
    let (_, error) = run(&mut machine, &mut reader);
    assert_eq!(error, None);
    assert_eq!(machine.state, FlashState::Finish);
    assert_eq!(reader.get_flashed_firmware(), data);
}

#[test]
fn blocks_are_sent_from_last_to_first() {
    let data = firmware(0x10000);
    let mut machine = FlashStateMachine::new_64kb(data.clone().try_into().unwrap());
    let mut reader = Bi2aTestReader::new();
    while machine.state != FlashState::BlockWrite {
        run_step(&mut machine, &mut reader).unwrap();
    }
    let before = reader.get_written_data().len();
    run_step(&mut machine, &mut reader).unwrap();
    let last_block: [u8; 128] = data[0xFF80..].try_into().unwrap();
    let frame = FlashCommand::WriteBlock { firmware_offset: 0xFF80, block_data: last_block, is_128kb_firmware: false }.to_frame();
    let hex: Vec<String> = frame.iter().map(|b| format!("{:02x}", b)).collect();
    assert_eq!(reader.get_written_data()[before], hex.join(" "));
}

#[test]
fn ping_retries_three_times_then_fails() {
    let mut machine = FlashStateMachine::new_64kb([0u8; 0x10000]);
    let mut reader = Bi2aTestReader::new();
    run_step(&mut machine, &mut reader).unwrap();
    run_step(&mut machine, &mut reader).unwrap();
    assert_eq!(machine.state, FlashState::Ping);
    // A board that never answers: every read times out.
    for _ in 0..2 {
        reader.simulate_timeout();
        assert_eq!(run_step(&mut machine, &mut reader), Ok(()));
        assert_eq!(machine.state, FlashState::Ping);
    }
    reader.simulate_timeout();
    assert_eq!(run_step(&mut machine, &mut reader), Err(FlashStateMachineError::ResponseTimeout));
    assert_eq!(machine.state, FlashState::Ping);
}

#[test]
fn ping_without_setup_is_an_invalid_state() {
    let mut machine = FlashStateMachine::new_64kb([0u8; 0x10000]);
    let mut reader = Bi2aTestReader::new();
    machine.state = FlashState::Ping;
    // No retry is left: the error ends the step at once.
    assert_eq!(
        run_step(&mut machine, &mut reader),
        Err(FlashStateMachineError::PingCommandSetupInvalidState)
    );
    assert_eq!(machine.state, FlashState::PingSetup);
}

#[test]
fn receive_byte_reports_unknown_start_byte() {
    let mut machine = FlashStateMachine::new_64kb([0u8; 0x10000]);
    assert_eq!(machine.receive_byte(0x12), Some(Err(FlashStateMachineError::UnknownResponse)));
    assert_eq!(machine.receive_byte(0xA0), Some(Ok(CommandResponse::ReadyForNextFlashBlock)));
    assert_eq!(machine.receive_byte(0xA1), None);
    assert_eq!(machine.receive_byte(0xAC), Some(Ok(CommandResponse::InFlashingModeOk)));
    assert_eq!(machine.receive_byte(0xA8), None);
    assert_eq!(machine.receive_byte(0xAF), Some(Ok(CommandResponse::EndWriteNotOk)));
}

#[test]
fn step_asks_for_the_answer_to_its_action() {
    let mut machine = FlashStateMachine::new_64kb([0u8; 0x10000]);
    assert!(machine.takes_event(&FlashEvent::Begin));
    assert!(!machine.takes_event(&FlashEvent::Cleared));
    assert!(matches!(machine.step(FlashEvent::Begin), FlashAction::Finished(Ok(()))));
    assert!(matches!(machine.step(FlashEvent::Begin), FlashAction::Finished(Ok(()))));
    match machine.step(FlashEvent::Begin) {
        FlashAction::Write(bytes) => assert_eq!(bytes, vec![0xAA, 0x00, 0x00, 0x01, 0x00, 0x01, 0x00, 0x02]),
        _ => panic!("expected a write"),
    }
    assert!(machine.takes_event(&FlashEvent::Written(Ok(()))));
    assert!(!machine.takes_event(&FlashEvent::Begin));
}

#[test]
fn a_failed_write_is_retried_twice_then_fails() {
    let mut machine = FlashStateMachine::new_64kb([0u8; 0x10000]);
    assert!(matches!(machine.step(FlashEvent::Begin), FlashAction::Finished(Ok(()))));
    assert!(matches!(machine.step(FlashEvent::Begin), FlashAction::Finished(Ok(()))));
    assert_eq!(machine.state, FlashState::Ping);
    for attempt in 0..3 {
        assert!(matches!(machine.step(FlashEvent::Begin), FlashAction::Write(_)));
        let failed = machine.step(FlashEvent::Written(Err(Bio2ReaderError::Raw("gone".to_string()))));
        assert!(matches!(failed, FlashAction::Clear));
        let result = machine.step(FlashEvent::Cleared);
        if attempt < 2 {
            assert!(matches!(result, FlashAction::Finished(Ok(()))));
        } else {
            assert!(matches!(
                result,
                FlashAction::Finished(Err(FlashStateMachineError::PingSendFailed(Bio2ReaderError::Raw(ref m)))) if m == "gone"
            ));
        }
        assert_eq!(machine.state, FlashState::Ping);
    }
}

#[test]
fn each_successful_exchange_moves_to_the_next_state() {
    let data = firmware(0x10000);
    let mut machine = FlashStateMachine::new_64kb(data.try_into().unwrap());
    let mut reader = Bi2aTestReader::new();
    let mut seen = Vec::new();
    while machine.state != FlashState::BlockWrite {
        let before = machine.state;
        run_step(&mut machine, &mut reader).unwrap();
        seen.push((before, machine.state));
    }
    assert_eq!(
        seen,
        vec![
            (FlashState::Init, FlashState::PingSetup),
            (FlashState::PingSetup, FlashState::Ping),
            (FlashState::Ping, FlashState::EnterFlashModeSetup),
            (FlashState::EnterFlashModeSetup, FlashState::EnterFlashMode),
            (FlashState::EnterFlashMode, FlashState::VerifyFlashModeSetup),
            (FlashState::VerifyFlashModeSetup, FlashState::VerifyFlashMode),
            (FlashState::VerifyFlashMode, FlashState::StartWritingSetup),
            (FlashState::StartWritingSetup, FlashState::StartWriting),
            (FlashState::StartWriting, FlashState::VerifyFlashMode2Setup),
            (FlashState::VerifyFlashMode2Setup, FlashState::VerifyFlashMode2),
            (FlashState::VerifyFlashMode2, FlashState::BlockWriteSetup),
            (FlashState::BlockWriteSetup, FlashState::BlockWrite),
        ]
    );
}
