//! The decisions of flashing a firmware to a BI2A board.
//!
//! Flashing goes through a fixed series of states: ping the board, put it
//! in flash mode, check that it is, start writing, send the firmware in
//! 128-byte blocks from the last block down to the first, stop writing
//! (twice), reboot the board, reconnect and ask for its version. Every
//! state that talks to the board retries up to three times.
//!
//! The machine itself does no I/O. A step starts with `FlashEvent::Begin`;
//! each call of `step` answers with what to do next (write bytes, read a
//! response, clear the link, reconnect) and the caller hands back what came
//! of it, until the step is `Finished`.

use vstd::prelude::*;
use crate::bi2a_protocol::command_response::{
    spec_from_frame, CommandResponse, CommandResponseParseError, CommandResponseParseErrorView, CommandResponseView,
};
use crate::bi2a_protocol::command_response_decoder::{
    decoder_run, decoder_step, empty_state, reads_frame, CommandResponseDecoder, CommandResponseDecoderError, DecoderState,
    DecoderStep,
};
use crate::protocol::frame::flash_command::{
    block_answer, block_wire_offset, lemma_decoder_reads_block_answer, spec_flash_frame, write_block_frame, FlashCommand,
};
use crate::protocol::frame::host_command::{spec_to_frame, HostCommand};
use crate::reader::bio2_reader::Bio2ReaderError;

verus! {

/// Where the flashing is.
#[derive(Debug, Clone, Copy, PartialEq, Eq, Structural)]
pub enum FlashState {
    Init,
    ReconnectAfterReboot,
    PingSetup,
    Ping,
    IdentSetup,
    Ident,
    EnterFlashModeSetup,
    EnterFlashMode,
    VerifyFlashModeSetup,
    VerifyFlashMode,
    StartWritingSetup,
    StartWriting,
    VerifyFlashMode2Setup,
    VerifyFlashMode2,
    BlockWriteSetup,
    BlockWrite,
    StopWritingSetup,
    StopWriting,
    StopWriting2Setup,
    StopWriting2,
    Reboot,
    IdentNewFirmwareSetup,
    IdentNewFirmware,
    Finish,
}

/// Why a step of the flashing failed.
#[derive(Debug, PartialEq, Eq)]
#[allow(inconsistent_fields)]
pub enum FlashStateMachineError {
    ReconnectFailed,
    PingCommandSetupInvalidState,
    PingSendFailed(Bio2ReaderError),
    ResponseTimeout,
    ResponseParseError(CommandResponseParseError),
    UnknownResponse,
    UnexpectedResponse(CommandResponse),
    WrongSequenceNumber { expected: u8, got: u8 },
    WrongPongValue { expected: u8, got: u8 },
    IdentCommandSetupInvalidState,
    IdentSendFailed(Bio2ReaderError),
    StartFlashSendFailed(Bio2ReaderError),
    StartFlashCommandSetupInvalidState,
    EnterFlashModeFailed,
    VerifyFlashModeSendFailed(Bio2ReaderError),
    VerifyFlashModeCommandSetupInvalidState,
    StartWritingSendFailed(Bio2ReaderError),
    StartWritingCommandSetupInvalidState,
    BoardNotReady,
    InvalidBlockDataLength,
    FlashBlockSendFailed(Bio2ReaderError),
    InvalidBlockWriteResponse,
    WriteBlockOffsetMismatch { expected: u32, got: u32 },
    WriteBlockDataMismatch { expected: Vec<u8>, got: Vec<u8> },
    StopWritingSendFailed(Bio2ReaderError),
    StopWritingCommandSetupInvalidState,
    EndWritingFailed,
    RebootFailed(Bio2ReaderError),
}

/// A flashing error with responses, parse errors and blocks as views.
#[allow(inconsistent_fields)]
pub enum FlashErrorView {
    ReconnectFailed,
    PingCommandSetupInvalidState,
    PingSendFailed(Bio2ReaderError),
    ResponseTimeout,
    ResponseParseError(CommandResponseParseErrorView),
    UnknownResponse,
    UnexpectedResponse(CommandResponseView),
    WrongSequenceNumber { expected: u8, got: u8 },
    WrongPongValue { expected: u8, got: u8 },
    IdentCommandSetupInvalidState,
    IdentSendFailed(Bio2ReaderError),
    StartFlashSendFailed(Bio2ReaderError),
    StartFlashCommandSetupInvalidState,
    EnterFlashModeFailed,
    VerifyFlashModeSendFailed(Bio2ReaderError),
    VerifyFlashModeCommandSetupInvalidState,
    StartWritingSendFailed(Bio2ReaderError),
    StartWritingCommandSetupInvalidState,
    BoardNotReady,
    InvalidBlockDataLength,
    FlashBlockSendFailed(Bio2ReaderError),
    InvalidBlockWriteResponse,
    WriteBlockOffsetMismatch { expected: u32, got: u32 },
    WriteBlockDataMismatch { expected: Seq<u8>, got: Seq<u8> },
    StopWritingSendFailed(Bio2ReaderError),
    StopWritingCommandSetupInvalidState,
    EndWritingFailed,
    RebootFailed(Bio2ReaderError),
}

impl View for FlashStateMachineError {
    type V = FlashErrorView;

    open spec fn view(&self) -> FlashErrorView {
        match *self {
            FlashStateMachineError::ReconnectFailed => FlashErrorView::ReconnectFailed,
            FlashStateMachineError::PingCommandSetupInvalidState => FlashErrorView::PingCommandSetupInvalidState,
            FlashStateMachineError::PingSendFailed(e) => FlashErrorView::PingSendFailed(e),
            FlashStateMachineError::ResponseTimeout => FlashErrorView::ResponseTimeout,
            FlashStateMachineError::ResponseParseError(e) => FlashErrorView::ResponseParseError(e@),
            FlashStateMachineError::UnknownResponse => FlashErrorView::UnknownResponse,
            FlashStateMachineError::UnexpectedResponse(r) => FlashErrorView::UnexpectedResponse(r@),
            FlashStateMachineError::WrongSequenceNumber { expected, got } =>
                FlashErrorView::WrongSequenceNumber { expected, got },
            FlashStateMachineError::WrongPongValue { expected, got } => FlashErrorView::WrongPongValue { expected, got },
            FlashStateMachineError::IdentCommandSetupInvalidState => FlashErrorView::IdentCommandSetupInvalidState,
            FlashStateMachineError::IdentSendFailed(e) => FlashErrorView::IdentSendFailed(e),
            FlashStateMachineError::StartFlashSendFailed(e) => FlashErrorView::StartFlashSendFailed(e),
            FlashStateMachineError::StartFlashCommandSetupInvalidState =>
                FlashErrorView::StartFlashCommandSetupInvalidState,
            FlashStateMachineError::EnterFlashModeFailed => FlashErrorView::EnterFlashModeFailed,
            FlashStateMachineError::VerifyFlashModeSendFailed(e) => FlashErrorView::VerifyFlashModeSendFailed(e),
            FlashStateMachineError::VerifyFlashModeCommandSetupInvalidState =>
                FlashErrorView::VerifyFlashModeCommandSetupInvalidState,
            FlashStateMachineError::StartWritingSendFailed(e) => FlashErrorView::StartWritingSendFailed(e),
            FlashStateMachineError::StartWritingCommandSetupInvalidState =>
                FlashErrorView::StartWritingCommandSetupInvalidState,
            FlashStateMachineError::BoardNotReady => FlashErrorView::BoardNotReady,
            FlashStateMachineError::InvalidBlockDataLength => FlashErrorView::InvalidBlockDataLength,
            FlashStateMachineError::FlashBlockSendFailed(e) => FlashErrorView::FlashBlockSendFailed(e),
            FlashStateMachineError::InvalidBlockWriteResponse => FlashErrorView::InvalidBlockWriteResponse,
            FlashStateMachineError::WriteBlockOffsetMismatch { expected, got } =>
                FlashErrorView::WriteBlockOffsetMismatch { expected, got },
            FlashStateMachineError::WriteBlockDataMismatch { expected, got } =>
                FlashErrorView::WriteBlockDataMismatch { expected: expected@, got: got@ },
            FlashStateMachineError::StopWritingSendFailed(e) => FlashErrorView::StopWritingSendFailed(e),
            FlashStateMachineError::StopWritingCommandSetupInvalidState =>
                FlashErrorView::StopWritingCommandSetupInvalidState,
            FlashStateMachineError::EndWritingFailed => FlashErrorView::EndWritingFailed,
            FlashStateMachineError::RebootFailed(e) => FlashErrorView::RebootFailed(e),
        }
    }
}

/// What came of the last action, handed back to the machine.
pub enum FlashEvent {
    /// Start a step.
    Begin,
    /// The bytes were written, or not.
    Written(Result<(), Bio2ReaderError>),
    /// A response was read, or reading failed.
    Response(Result<CommandResponse, FlashStateMachineError>),
    /// The link was cleared.
    Cleared,
    /// The link was opened again, or not.
    Reconnected(Result<(), Bio2ReaderError>),
}

/// An event with responses and errors as views.
pub enum FlashEventView {
    Begin,
    Written(Result<(), Bio2ReaderError>),
    Response(Result<CommandResponseView, FlashErrorView>),
    Cleared,
    Reconnected(Result<(), Bio2ReaderError>),
}

impl View for FlashEvent {
    type V = FlashEventView;

    open spec fn view(&self) -> FlashEventView {
        match *self {
            FlashEvent::Begin => FlashEventView::Begin,
            FlashEvent::Written(r) => FlashEventView::Written(r),
            FlashEvent::Response(r) => FlashEventView::Response(
                match r {
                    Ok(resp) => Ok(resp@),
                    Err(e) => Err(e@),
                },
            ),
            FlashEvent::Cleared => FlashEventView::Cleared,
            FlashEvent::Reconnected(r) => FlashEventView::Reconnected(r),
        }
    }
}

/// What the caller does next.
pub enum FlashAction {
    /// Write these bytes to the board, then hand back `Written`.
    Write(Vec<u8>),
    /// Read the next response, feeding each byte to `receive_byte`, then
    /// hand back `Response`.
    ReadResponse,
    /// Drop what came from the board and was not read, then hand back
    /// `Cleared`.
    Clear,
    /// Wait this long for the board to reboot, open the link again, then
    /// hand back `Reconnected`.
    Reconnect { wait_ms: u64 },
    /// The step is over.
    Finished(Result<(), FlashStateMachineError>),
}

/// An action with its bytes and error as views.
pub enum FlashActionView {
    Write(Seq<u8>),
    ReadResponse,
    Clear,
    Reconnect { wait_ms: u64 },
    Finished(Result<(), FlashErrorView>),
}

impl View for FlashAction {
    type V = FlashActionView;

    open spec fn view(&self) -> FlashActionView {
        match *self {
            FlashAction::Write(bytes) => FlashActionView::Write(bytes@),
            FlashAction::ReadResponse => FlashActionView::ReadResponse,
            FlashAction::Clear => FlashActionView::Clear,
            FlashAction::Reconnect { wait_ms } => FlashActionView::Reconnect { wait_ms },
            FlashAction::Finished(r) => FlashActionView::Finished(
                match r {
                    Ok(()) => Ok(()),
                    Err(e) => Err(e@),
                },
            ),
        }
    }
}

/// Where the machine is within a step.
enum FlashPhase {
    Idle,
    AwaitWrite { sequence: u8 },
    AwaitResponse { sequence: u8 },
    AwaitReady { next: FlashState },
    Failing(FlashStateMachineError),
    AwaitReboot,
    AwaitReconnect,
}

/// Where the machine is within a step: between steps; waiting for a write
/// (of a command with this sequence number), for its response, or for the
/// board to be ready before going to `next`; clearing the link after this
/// error; waiting for the reboot command to be written; or for the link to
/// be opened again.
pub enum FlashPhaseView {
    Idle,
    AwaitWrite { sequence: u8 },
    AwaitResponse { sequence: u8 },
    AwaitReady { next: FlashState },
    Failing(FlashErrorView),
    AwaitReboot,
    AwaitReconnect,
}

impl View for FlashPhase {
    type V = FlashPhaseView;

    closed spec fn view(&self) -> FlashPhaseView {
        match *self {
            FlashPhase::Idle => FlashPhaseView::Idle,
            FlashPhase::AwaitWrite { sequence } => FlashPhaseView::AwaitWrite { sequence },
            FlashPhase::AwaitResponse { sequence } => FlashPhaseView::AwaitResponse { sequence },
            FlashPhase::AwaitReady { next } => FlashPhaseView::AwaitReady { next },
            FlashPhase::Failing(e) => FlashPhaseView::Failing(e@),
            FlashPhase::AwaitReboot => FlashPhaseView::AwaitReboot,
            FlashPhase::AwaitReconnect => FlashPhaseView::AwaitReconnect,
        }
    }
}

/// Flashes a 64 KiB or 128 KiB firmware.
pub struct FlashStateMachine {
    pub state: FlashState,
    firmware: Vec<u8>,
    retries_countdown: i32,
    ping_command: Option<HostCommand>,
    ident_command: Option<HostCommand>,
    enter_flash_mode_command: Option<HostCommand>,
    verify_flash_mode_command: Option<FlashCommand>,
    start_writing_command: Option<FlashCommand>,
    verify_flash_mode_command_2: Option<FlashCommand>,
    stop_writing_command: Option<FlashCommand>,
    curr_block_offset: u32,
    curr_sequence: u8,
    last_block_write_was_error: bool,
    response_decoder: CommandResponseDecoder,
    is_128kb: bool,
    phase: FlashPhase,
}

/// The machine: its state, the firmware, the retries left in the current
/// state, the command of each state once it was set up, the offset of the
/// block being written, the next sequence number, whether the last block
/// write failed, the response decoder, the firmware size and the phase.
pub struct FlashMachineView {
    pub state: FlashState,
    pub firmware: Seq<u8>,
    pub retries_countdown: i32,
    pub ping_command: Option<HostCommand>,
    pub ident_command: Option<HostCommand>,
    pub enter_flash_mode_command: Option<HostCommand>,
    pub verify_flash_mode_command: Option<FlashCommand>,
    pub start_writing_command: Option<FlashCommand>,
    pub verify_flash_mode_command_2: Option<FlashCommand>,
    pub stop_writing_command: Option<FlashCommand>,
    pub curr_block_offset: u32,
    pub curr_sequence: u8,
    pub last_block_write_was_error: bool,
    pub decoder: DecoderState,
    pub is_128kb: bool,
    pub phase: FlashPhaseView,
}

impl View for FlashStateMachine {
    type V = FlashMachineView;

    closed spec fn view(&self) -> FlashMachineView {
        FlashMachineView {
            state: self.state,
            firmware: self.firmware@,
            retries_countdown: self.retries_countdown,
            ping_command: self.ping_command,
            ident_command: self.ident_command,
            enter_flash_mode_command: self.enter_flash_mode_command,
            verify_flash_mode_command: self.verify_flash_mode_command,
            start_writing_command: self.start_writing_command,
            verify_flash_mode_command_2: self.verify_flash_mode_command_2,
            stop_writing_command: self.stop_writing_command,
            curr_block_offset: self.curr_block_offset,
            curr_sequence: self.curr_sequence,
            last_block_write_was_error: self.last_block_write_was_error,
            decoder: self.response_decoder@,
            is_128kb: self.is_128kb,
            phase: self.phase@,
        }
    }
}

// ── the transitions ─────────────────────────────────────────────────────────

/// The size of the firmware: 128 KiB or 64 KiB.
pub open spec fn firmware_size(is_128kb: bool) -> u32 {
    if is_128kb { 0x20000 } else { 0x10000 }
}

/// A machine that can take its next event: the firmware has its size, the
/// block offset is a multiple of 128 within it, while blocks are written
/// there is a block to write (between steps and while clearing after a
/// failure) or the block being written lies in the firmware, and the
/// machine waits for the reboot or the reconnection only after rebooting.
pub open spec fn wf(m: FlashMachineView) -> bool {
    &&& m.firmware.len() == firmware_size(m.is_128kb)
    &&& m.curr_block_offset <= firmware_size(m.is_128kb)
    &&& m.curr_block_offset % 128 == 0
    &&& m.state == FlashState::BlockWrite ==> match m.phase {
        FlashPhaseView::Idle | FlashPhaseView::Failing(_) => m.curr_block_offset >= 128,
        _ => m.curr_block_offset + 128 <= firmware_size(m.is_128kb),
    }
    &&& m.phase == (FlashPhaseView::AwaitReady { next: FlashState::BlockWrite }) ==> m.curr_block_offset >= 128
    &&& (m.phase is AwaitReboot || m.phase is AwaitReconnect) ==> m.state == FlashState::ReconnectAfterReboot
}

/// Whether `event` answers `action`.
pub open spec fn answers(action: FlashActionView, event: FlashEventView) -> bool {
    match action {
        FlashActionView::Write(_) => event is Written,
        FlashActionView::ReadResponse => event is Response,
        FlashActionView::Clear => event is Cleared,
        FlashActionView::Reconnect { .. } => event is Reconnected,
        FlashActionView::Finished(_) => event is Begin,
    }
}

/// Whether the machine, in `phase`, takes `event`: `Begin` between steps,
/// and otherwise the answer to the action it gave last.
pub open spec fn takes(phase: FlashPhaseView, event: FlashEventView) -> bool {
    match phase {
        FlashPhaseView::Idle => event is Begin,
        FlashPhaseView::AwaitWrite { .. } | FlashPhaseView::AwaitReboot => event is Written,
        FlashPhaseView::AwaitResponse { .. } | FlashPhaseView::AwaitReady { .. } => event is Response,
        FlashPhaseView::Failing(_) => event is Cleared,
        FlashPhaseView::AwaitReconnect => event is Reconnected,
    }
}

/// The machine with another state and phase.
pub open spec fn moved(m: FlashMachineView, state: FlashState, phase: FlashPhaseView) -> FlashMachineView {
    FlashMachineView { state, phase, ..m }
}

/// A step that is over with `Ok`.
pub open spec fn done(m: FlashMachineView, state: FlashState) -> (FlashMachineView, FlashActionView) {
    (moved(m, state, FlashPhaseView::Idle), FlashActionView::Finished(Ok(())))
}

/// A failure: a failed block write gives its block back (the offset goes
/// up again by 128), then the link is cleared.
pub open spec fn fail(m: FlashMachineView, e: FlashErrorView) -> (FlashMachineView, FlashActionView) {
    let m1 = if m.state == FlashState::BlockWrite {
        FlashMachineView {
            curr_block_offset: (m.curr_block_offset + 128) as u32,
            last_block_write_was_error: true,
            ..m
        }
    } else {
        m
    };
    (moved(m1, m1.state, FlashPhaseView::Failing(e)), FlashActionView::Clear)
}

/// One retry less; `i32::MIN` stays.
pub open spec fn one_retry_less(r: i32) -> i32 {
    if r > i32::MIN { (r - 1) as i32 } else { r }
}

/// The retries left after a failure, and the outcome of the step: the error
/// when none is left.
pub open spec fn after_failure(m: FlashMachineView, e: FlashErrorView) -> (FlashMachineView, FlashActionView) {
    let r = one_retry_less(m.retries_countdown);
    (
        FlashMachineView { retries_countdown: r, phase: FlashPhaseView::Idle, ..m },
        FlashActionView::Finished(if r <= 0 { Err(e) } else { Ok(()) }),
    )
}

/// Setting up a state: its command, three retries, and the state itself.
pub open spec fn set_up(m: FlashMachineView, state: FlashState) -> FlashMachineView {
    FlashMachineView { state, retries_countdown: 3, phase: FlashPhaseView::Idle, ..m }
}

/// Sending a host command with the next sequence number, or failing when
/// the state was not set up.
pub open spec fn begin_host(
    m: FlashMachineView,
    cmd: Option<HostCommand>,
    setup: FlashState,
    unset: FlashErrorView,
) -> (FlashMachineView, FlashActionView) {
    match cmd {
        None => fail(moved(m, setup, m.phase), unset),
        Some(c) => (
            FlashMachineView {
                curr_sequence: m.curr_sequence.wrapping_add(1),
                phase: FlashPhaseView::AwaitWrite { sequence: m.curr_sequence },
                ..m
            },
            FlashActionView::Write(spec_to_frame(c, m.curr_sequence)),
        ),
    }
}

/// Sending a flash command, or failing when the state was not set up.
pub open spec fn begin_flash(
    m: FlashMachineView,
    cmd: Option<FlashCommand>,
    setup: FlashState,
    unset: FlashErrorView,
) -> (FlashMachineView, FlashActionView) {
    match cmd {
        None => fail(moved(m, setup, m.phase), unset),
        Some(c) => (
            moved(m, m.state, FlashPhaseView::AwaitWrite { sequence: 0 }),
            FlashActionView::Write(spec_flash_frame(c)),
        ),
    }
}

/// The block that starts at `offset`.
pub open spec fn firmware_block(m: FlashMachineView, offset: u32) -> Seq<u8> {
    m.firmware.subrange(offset as int, offset + 128)
}

/// The start of a step.
pub open spec fn spec_begin(m: FlashMachineView) -> (FlashMachineView, FlashActionView) {
    match m.state {
        FlashState::Init => done(m, FlashState::PingSetup),
        FlashState::ReconnectAfterReboot => (
            moved(m, m.state, FlashPhaseView::AwaitReconnect),
            FlashActionView::Reconnect { wait_ms: 4000 },
        ),
        FlashState::PingSetup => (
            FlashMachineView {
                ping_command: Some(HostCommand::Ping { ping_value: 0x00 }),
                ..set_up(m, FlashState::Ping)
            },
            FlashActionView::Finished(Ok(())),
        ),
        FlashState::Ping => begin_host(m, m.ping_command, FlashState::PingSetup, FlashErrorView::PingCommandSetupInvalidState),
        FlashState::IdentSetup => (
            FlashMachineView { ident_command: Some(HostCommand::Version), ..set_up(m, FlashState::Ident) },
            FlashActionView::Finished(Ok(())),
        ),
        FlashState::Ident => begin_host(m, m.ident_command, FlashState::IdentSetup, FlashErrorView::IdentCommandSetupInvalidState),
        FlashState::EnterFlashModeSetup => (
            FlashMachineView {
                enter_flash_mode_command: Some(HostCommand::StartFlash),
                ..set_up(m, FlashState::EnterFlashMode)
            },
            FlashActionView::Finished(Ok(())),
        ),
        FlashState::EnterFlashMode => begin_host(
            m,
            m.enter_flash_mode_command,
            FlashState::EnterFlashModeSetup,
            FlashErrorView::StartFlashCommandSetupInvalidState,
        ),
        FlashState::VerifyFlashModeSetup => (
            FlashMachineView {
                verify_flash_mode_command: Some(FlashCommand::AreYouInFlashMode),
                ..set_up(m, FlashState::VerifyFlashMode)
            },
            FlashActionView::Finished(Ok(())),
        ),
        FlashState::VerifyFlashMode => begin_flash(
            m,
            m.verify_flash_mode_command,
            FlashState::VerifyFlashModeSetup,
            FlashErrorView::VerifyFlashModeCommandSetupInvalidState,
        ),
        FlashState::StartWritingSetup => (
            FlashMachineView {
                start_writing_command: Some(FlashCommand::StartWrite { offset: 0 }),
                ..set_up(m, FlashState::StartWriting)
            },
            FlashActionView::Finished(Ok(())),
        ),
        FlashState::StartWriting => begin_flash(
            m,
            m.start_writing_command,
            FlashState::StartWritingSetup,
            FlashErrorView::StartWritingCommandSetupInvalidState,
        ),
        FlashState::VerifyFlashMode2Setup => (
            FlashMachineView {
                verify_flash_mode_command_2: Some(FlashCommand::AreYouInFlashMode),
                ..set_up(m, FlashState::VerifyFlashMode2)
            },
            FlashActionView::Finished(Ok(())),
        ),
        // The second check sends the command of the first one.
        FlashState::VerifyFlashMode2 => begin_flash(
            m,
            m.verify_flash_mode_command,
            FlashState::VerifyFlashMode2Setup,
            FlashErrorView::VerifyFlashModeCommandSetupInvalidState,
        ),
        FlashState::BlockWriteSetup => (
            FlashMachineView {
                curr_block_offset: firmware_size(m.is_128kb),
                last_block_write_was_error: false,
                ..set_up(m, FlashState::BlockWrite)
            },
            FlashActionView::Finished(Ok(())),
        ),
        FlashState::BlockWrite => {
            let offset = (m.curr_block_offset - 128) as u32;
            (
                FlashMachineView {
                    curr_block_offset: offset,
                    phase: FlashPhaseView::AwaitWrite { sequence: 0 },
                    ..m
                },
                FlashActionView::Write(write_block_frame(offset, firmware_block(m, offset), m.is_128kb)),
            )
        },
        FlashState::StopWritingSetup => (
            FlashMachineView { stop_writing_command: Some(FlashCommand::EndWrite), ..set_up(m, FlashState::StopWriting) },
            FlashActionView::Finished(Ok(())),
        ),
        FlashState::StopWriting => begin_flash(
            m,
            m.stop_writing_command,
            FlashState::StopWritingSetup,
            FlashErrorView::StopWritingCommandSetupInvalidState,
        ),
        FlashState::StopWriting2Setup => (
            FlashMachineView {
                stop_writing_command: Some(FlashCommand::EndWrite),
                ..set_up(m, FlashState::StopWriting2)
            },
            FlashActionView::Finished(Ok(())),
        ),
        FlashState::StopWriting2 => begin_flash(
            m,
            m.stop_writing_command,
            FlashState::StopWritingSetup,
            FlashErrorView::StopWritingCommandSetupInvalidState,
        ),
        FlashState::Reboot => (
            moved(m, FlashState::ReconnectAfterReboot, FlashPhaseView::AwaitReboot),
            FlashActionView::Write(spec_flash_frame(FlashCommand::Reboot)),
        ),
        FlashState::IdentNewFirmwareSetup => (
            FlashMachineView {
                ident_command: Some(HostCommand::Version),
                curr_sequence: 0,
                ..set_up(m, FlashState::IdentNewFirmware)
            },
            FlashActionView::Finished(Ok(())),
        ),
        FlashState::IdentNewFirmware => begin_host(
            m,
            m.ident_command,
            FlashState::IdentSetup,
            FlashErrorView::IdentCommandSetupInvalidState,
        ),
        FlashState::Finish => done(m, FlashState::Finish),
    }
}

/// The error for a command of `state` that could not be sent.
pub open spec fn send_failed(state: FlashState, e: Bio2ReaderError) -> FlashErrorView {
    match state {
        FlashState::Ping => FlashErrorView::PingSendFailed(e),
        FlashState::Ident | FlashState::IdentNewFirmware => FlashErrorView::IdentSendFailed(e),
        FlashState::EnterFlashMode => FlashErrorView::StartFlashSendFailed(e),
        FlashState::VerifyFlashMode | FlashState::VerifyFlashMode2 => FlashErrorView::VerifyFlashModeSendFailed(e),
        FlashState::StartWriting => FlashErrorView::StartWritingSendFailed(e),
        FlashState::BlockWrite => FlashErrorView::FlashBlockSendFailed(e),
        _ => FlashErrorView::StopWritingSendFailed(e),
    }
}

/// What a response means in a state.
pub enum Verdict {
    /// The step failed with this error.
    Fail(FlashErrorView),
    /// The step is done and the machine goes to this state.
    Next(FlashState),
    /// The board must say it is ready, then the machine goes to this state.
    Ready(FlashState),
}

/// What the response `r` to the command with sequence number `sequence`
/// means in the state of `m`.
pub open spec fn verdict(m: FlashMachineView, sequence: u8, r: CommandResponseView) -> Verdict {
    match (m.state, r) {
        (FlashState::Ping, CommandResponseView::Pong { sequence_number, pong_value }) =>
            if sequence != sequence_number {
                Verdict::Fail(FlashErrorView::WrongSequenceNumber { expected: sequence, got: sequence_number })
            } else if pong_value != 0x01 {
                Verdict::Fail(FlashErrorView::WrongPongValue { expected: 0x01, got: pong_value })
            } else {
                Verdict::Next(FlashState::EnterFlashModeSetup)
            },
        (FlashState::Ident, CommandResponseView::Version { sequence_number, .. }) =>
            if sequence != sequence_number {
                Verdict::Fail(FlashErrorView::WrongSequenceNumber { expected: sequence, got: sequence_number })
            } else {
                Verdict::Next(FlashState::EnterFlashModeSetup)
            },
        (FlashState::IdentNewFirmware, CommandResponseView::Version { sequence_number, .. }) =>
            if sequence != sequence_number {
                Verdict::Fail(FlashErrorView::WrongSequenceNumber { expected: sequence, got: sequence_number })
            } else {
                Verdict::Next(FlashState::Finish)
            },
        (FlashState::EnterFlashMode, CommandResponseView::StartFlash { sequence_number, ok }) =>
            if sequence != sequence_number {
                Verdict::Fail(FlashErrorView::WrongSequenceNumber { expected: sequence, got: sequence_number })
            } else if !ok {
                Verdict::Fail(FlashErrorView::EnterFlashModeFailed)
            } else {
                Verdict::Ready(FlashState::VerifyFlashModeSetup)
            },
        (FlashState::VerifyFlashMode, CommandResponseView::InFlashingModeOk) => Verdict::Ready(FlashState::StartWritingSetup),
        (FlashState::VerifyFlashMode2, CommandResponseView::InFlashingModeOk) => Verdict::Ready(FlashState::BlockWriteSetup),
        (FlashState::VerifyFlashMode, CommandResponseView::InFlashingModeNotOk) => Verdict::Fail(FlashErrorView::EnterFlashModeFailed),
        (FlashState::VerifyFlashMode2, CommandResponseView::InFlashingModeNotOk) => Verdict::Fail(FlashErrorView::EnterFlashModeFailed),
        (FlashState::StartWriting, CommandResponseView::StartWriteOk { .. }) => Verdict::Ready(FlashState::VerifyFlashMode2Setup),
        (FlashState::BlockWrite, CommandResponseView::WriteBlockOk { firmware_offset, block_data }) => {
            let got: u32 = if m.is_128kb { (firmware_offset * 2) as u32 } else { firmware_offset as u32 };
            if got != m.curr_block_offset {
                Verdict::Fail(FlashErrorView::WriteBlockOffsetMismatch { expected: m.curr_block_offset, got })
            } else if block_data != firmware_block(m, m.curr_block_offset) {
                Verdict::Fail(FlashErrorView::WriteBlockDataMismatch {
                    expected: firmware_block(m, m.curr_block_offset),
                    got: block_data,
                })
            } else if m.curr_block_offset == 0 {
                Verdict::Ready(FlashState::StopWritingSetup)
            } else {
                Verdict::Ready(FlashState::BlockWrite)
            }
        },
        (FlashState::BlockWrite, CommandResponseView::WriteBlockNotOk) => Verdict::Fail(FlashErrorView::InvalidBlockWriteResponse),
        (FlashState::StopWriting, CommandResponseView::EndWriteOk) => Verdict::Ready(FlashState::StopWriting2Setup),
        (FlashState::StopWriting2, CommandResponseView::EndWriteOk) => Verdict::Ready(FlashState::Reboot),
        (FlashState::StopWriting, CommandResponseView::EndWriteNotOk) => Verdict::Fail(FlashErrorView::EndWritingFailed),
        (FlashState::StopWriting2, CommandResponseView::EndWriteNotOk) => Verdict::Fail(FlashErrorView::EndWritingFailed),
        _ => Verdict::Fail(FlashErrorView::UnexpectedResponse(r)),
    }
}

/// What an event does to the machine, and what the caller does next.
pub open spec fn spec_step(m: FlashMachineView, event: FlashEventView) -> (FlashMachineView, FlashActionView) {
    match (m.phase, event) {
        (FlashPhaseView::AwaitWrite { sequence }, FlashEventView::Written(r)) => match r {
            Err(e) => fail(m, send_failed(m.state, e)),
            Ok(()) => (moved(m, m.state, FlashPhaseView::AwaitResponse { sequence }), FlashActionView::ReadResponse),
        },
        (FlashPhaseView::AwaitReboot, FlashEventView::Written(r)) => (
            moved(m, m.state, FlashPhaseView::Idle),
            FlashActionView::Finished(
                match r {
                    Ok(()) => Ok(()),
                    Err(e) => Err(FlashErrorView::RebootFailed(e)),
                },
            ),
        ),
        (FlashPhaseView::AwaitResponse { sequence }, FlashEventView::Response(r)) => match r {
            Err(e) => fail(m, e),
            Ok(resp) => match verdict(m, sequence, resp) {
                Verdict::Fail(e) => fail(m, e),
                Verdict::Next(state) => done(m, state),
                Verdict::Ready(next) => (
                    FlashMachineView {
                        last_block_write_was_error: if m.state == FlashState::BlockWrite {
                            false
                        } else {
                            m.last_block_write_was_error
                        },
                        phase: FlashPhaseView::AwaitReady { next },
                        ..m
                    },
                    FlashActionView::ReadResponse,
                ),
            },
        },
        (FlashPhaseView::AwaitReady { next }, FlashEventView::Response(r)) => match r {
            Ok(CommandResponseView::ReadyForNextFlashBlock) => done(m, next),
            Ok(other) => fail(m, FlashErrorView::UnexpectedResponse(other)),
            Err(FlashErrorView::ResponseTimeout) => fail(m, FlashErrorView::BoardNotReady),
            Err(e) => fail(m, e),
        },
        (FlashPhaseView::Failing(e), FlashEventView::Cleared) => after_failure(m, e),
        (FlashPhaseView::AwaitReconnect, FlashEventView::Reconnected(r)) => match r {
            Ok(()) => done(m, FlashState::IdentNewFirmwareSetup),
            Err(_) => after_failure(m, FlashErrorView::ReconnectFailed),
        },
        _ => spec_begin(m),
    }
}

/// What a byte read while waiting for a response does: the decoder takes
/// it; a byte that cannot start a frame is an unknown response, and a
/// complete frame gives its response or why it does not parse.
pub open spec fn spec_receive_byte(d: DecoderState, byte: u8) -> (DecoderState, Option<Result<CommandResponseView, FlashErrorView>>) {
    match decoder_step(d, byte) {
        DecoderStep::UnknownStart(_) => (d, Some(Err(FlashErrorView::UnknownResponse))),
        DecoderStep::Incomplete(s) => (s, None),
        DecoderStep::Frame(f) => (
            empty_state(),
            Some(
                match spec_from_frame(f, false) {
                    Ok(r) => Ok(r),
                    Err(e) => Err(FlashErrorView::ResponseParseError(e)),
                },
            ),
        ),
    }
}

/// The machine before the first step.
pub open spec fn initial(firmware: Seq<u8>, is_128kb: bool) -> FlashMachineView {
    FlashMachineView {
        state: FlashState::Init,
        firmware,
        retries_countdown: 0,
        ping_command: None,
        ident_command: None,
        enter_flash_mode_command: None,
        verify_flash_mode_command: None,
        start_writing_command: None,
        verify_flash_mode_command_2: None,
        stop_writing_command: None,
        curr_block_offset: 0,
        curr_sequence: 0,
        last_block_write_was_error: false,
        decoder: empty_state(),
        is_128kb,
        phase: FlashPhaseView::Idle,
    }
}

/// What a response means, with the error as built.
enum Judged {
    Fail(FlashStateMachineError),
    Next(FlashState),
    Ready(FlashState),
}

impl View for Judged {
    type V = Verdict;

    closed spec fn view(&self) -> Verdict {
        match *self {
            Judged::Fail(e) => Verdict::Fail(e@),
            Judged::Next(s) => Verdict::Next(s),
            Judged::Ready(s) => Verdict::Ready(s),
        }
    }
}

/// The frame of a host command with a sequence number, if there is a
/// command.
fn host_frame(cmd: &Option<HostCommand>, sequence: u8) -> (f: Option<Vec<u8>>)
    ensures
        match *cmd {
            None => f is None,
            Some(c) => f matches Some(v) && v@ == spec_to_frame(c, sequence),
        },
{
    match cmd {
        Some(c) => Some(c.to_frame(sequence)),
        None => None,
    }
}

/// The frame of a flash command, if there is a command.
fn flash_frame(cmd: &Option<FlashCommand>) -> (f: Option<Vec<u8>>)
    ensures
        match *cmd {
            None => f is None,
            Some(c) => f matches Some(v) && v@ == spec_flash_frame(c),
        },
{
    match cmd {
        Some(c) => Some(c.to_frame()),
        None => None,
    }
}

/// The error for a command of `state` that could not be sent.
fn send_failed_error(state: FlashState, e: Bio2ReaderError) -> (err: FlashStateMachineError)
    ensures
        err@ == send_failed(state, e),
{
    match state {
        FlashState::Ping => FlashStateMachineError::PingSendFailed(e),
        FlashState::Ident | FlashState::IdentNewFirmware => FlashStateMachineError::IdentSendFailed(e),
        FlashState::EnterFlashMode => FlashStateMachineError::StartFlashSendFailed(e),
        FlashState::VerifyFlashMode | FlashState::VerifyFlashMode2 => FlashStateMachineError::VerifyFlashModeSendFailed(e),
        FlashState::StartWriting => FlashStateMachineError::StartWritingSendFailed(e),
        FlashState::BlockWrite => FlashStateMachineError::FlashBlockSendFailed(e),
        _ => FlashStateMachineError::StopWritingSendFailed(e),
    }
}

/// Whether the two blocks hold the same bytes.
fn same_block(a: &[u8; 128], b: &[u8]) -> (same: bool)
    requires
        b.len() == 128,
    ensures
        same == (a@ == b@),
{
    let mut j: usize = 0;
    while j < 128
        invariant
            j <= 128,
            a@.len() == 128,
            b@.len() == 128,
            forall|k: int| 0 <= k < j ==> a@[k] == b@[k],
        decreases 128 - j,
    {
        if a[j] != b[j] {
            return false;
        }
        j += 1;
    }
    assert(a@ =~= b@);
    true
}

impl FlashStateMachine {
    /// A machine that flashes a 64 KiB firmware.
    pub fn new_64kb(firmware: [u8; 0x10000]) -> (m: Self)
        ensures
            m@ == initial(firmware@, false),
            wf(m@),
    {
        FlashStateMachine {
            state: FlashState::Init,
            firmware: vstd::slice::slice_to_vec(firmware.as_slice()),
            retries_countdown: 0,
            ping_command: None,
            ident_command: None,
            enter_flash_mode_command: None,
            verify_flash_mode_command: None,
            start_writing_command: None,
            verify_flash_mode_command_2: None,
            stop_writing_command: None,
            curr_sequence: 0,
            curr_block_offset: 0,
            last_block_write_was_error: false,
            response_decoder: CommandResponseDecoder::new(),
            is_128kb: false,
            phase: FlashPhase::Idle,
        }
    }

    /// A machine that flashes a 128 KiB firmware.
    pub fn new_128kb(firmware: [u8; 0x20000]) -> (m: Self)
        ensures
            m@ == initial(firmware@, true),
            wf(m@),
    {
        FlashStateMachine {
            state: FlashState::Init,
            firmware: vstd::slice::slice_to_vec(firmware.as_slice()),
            retries_countdown: 0,
            ping_command: None,
            ident_command: None,
            enter_flash_mode_command: None,
            verify_flash_mode_command: None,
            start_writing_command: None,
            verify_flash_mode_command_2: None,
            stop_writing_command: None,
            curr_sequence: 0,
            curr_block_offset: 0,
            last_block_write_was_error: false,
            response_decoder: CommandResponseDecoder::new(),
            is_128kb: true,
            phase: FlashPhase::Idle,
        }
    }

    /// Gives a failed block write its block back, then asks for the link
    /// to be cleared.
    fn fail(&mut self, e: FlashStateMachineError) -> (action: FlashAction)
        requires
            old(self).state == FlashState::BlockWrite ==> old(self).curr_block_offset + 128 <= u32::MAX,
        ensures
            (final(self)@, action@) == fail(old(self)@, e@),
    {
        if self.state == FlashState::BlockWrite {
            self.curr_block_offset = self.curr_block_offset + 128;
            self.last_block_write_was_error = true;
        }
        self.phase = FlashPhase::Failing(e);
        FlashAction::Clear
    }

    /// Counts a failure; the step fails when no retry is left.
    fn after_failure(&mut self, e: FlashStateMachineError) -> (action: FlashAction)
        ensures
            (final(self)@, action@) == after_failure(old(self)@, e@),
    {
        if self.retries_countdown > i32::MIN {
            self.retries_countdown = self.retries_countdown - 1;
        }
        self.phase = FlashPhase::Idle;
        if self.retries_countdown <= 0 {
            FlashAction::Finished(Err(e))
        } else {
            FlashAction::Finished(Ok(()))
        }
    }

    /// Ends a step in `state`.
    fn done(&mut self, state: FlashState) -> (action: FlashAction)
        ensures
            (final(self)@, action@) == done(old(self)@, state),
    {
        self.state = state;
        self.phase = FlashPhase::Idle;
        FlashAction::Finished(Ok(()))
    }

    /// Sends a host command's frame, or fails when there is no command.
    fn begin_host(
        &mut self,
        frame: Option<Vec<u8>>,
        Ghost(cmd): Ghost<Option<HostCommand>>,
        setup: FlashState,
        unset: FlashStateMachineError,
    ) -> (action: FlashAction)
        requires
            setup != FlashState::BlockWrite,
            match cmd {
                None => frame is None,
                Some(c) => frame matches Some(v) && v@ == spec_to_frame(c, old(self)@.curr_sequence),
            },
        ensures
            (final(self)@, action@) == begin_host(old(self)@, cmd, setup, unset@),
    {
        match frame {
            Some(f) => {
                let sequence: u8 = self.curr_sequence;
                self.curr_sequence = self.curr_sequence.wrapping_add(1);
                self.phase = FlashPhase::AwaitWrite { sequence };
                FlashAction::Write(f)
            },
            None => {
                self.state = setup;
                self.fail(unset)
            },
        }
    }

    /// Sends a flash command's frame, or fails when there is no command.
    fn begin_flash(
        &mut self,
        frame: Option<Vec<u8>>,
        Ghost(cmd): Ghost<Option<FlashCommand>>,
        setup: FlashState,
        unset: FlashStateMachineError,
    ) -> (action: FlashAction)
        requires
            setup != FlashState::BlockWrite,
            match cmd {
                None => frame is None,
                Some(c) => frame matches Some(v) && v@ == spec_flash_frame(c),
            },
        ensures
            (final(self)@, action@) == begin_flash(old(self)@, cmd, setup, unset@),
    {
        match frame {
            Some(f) => {
                self.phase = FlashPhase::AwaitWrite { sequence: 0 };
                FlashAction::Write(f)
            },
            None => {
                self.state = setup;
                self.fail(unset)
            },
        }
    }

    /// Sends the block below the current offset.
    fn begin_block_write(&mut self) -> (action: FlashAction)
        requires
            old(self).state == FlashState::BlockWrite,
            old(self)@.firmware.len() == firmware_size(old(self)@.is_128kb),
            128 <= old(self)@.curr_block_offset <= firmware_size(old(self)@.is_128kb),
        ensures
            (final(self)@, action@) == spec_begin(old(self)@),
    {
        self.curr_block_offset = self.curr_block_offset - 128;
        let offset: u32 = self.curr_block_offset;
        let start: usize = offset as usize;
        let mut block: [u8; 128] = [0u8; 128];
        let mut j: usize = 0;
        while j < 128
            invariant
                j <= 128,
                block@.len() == 128,
                start + 128 <= self.firmware.len(),
                forall|k: int| 0 <= k < j ==> block@[k] == self.firmware@[start + k],
            decreases 128 - j,
        {
            block[j] = self.firmware[start + j];
            j += 1;
        }
        let ghost m = self@;
        assert(block@ =~= firmware_block(m, offset));
        let cmd: FlashCommand = FlashCommand::WriteBlock {
            firmware_offset: offset,
            block_data: block,
            is_128kb_firmware: self.is_128kb,
        };
        let frame: Vec<u8> = cmd.to_frame();
        self.phase = FlashPhase::AwaitWrite { sequence: 0 };
        FlashAction::Write(frame)
    }
    /// What the response `resp` to the command with sequence number
    /// `sequence` means in the current state.
    fn judge(&self, sequence: u8, resp: CommandResponse) -> (v: Judged)
        requires
            self.state == FlashState::BlockWrite ==> {
                &&& self@.firmware.len() == firmware_size(self@.is_128kb)
                &&& self@.curr_block_offset + 128 <= firmware_size(self@.is_128kb)
            },
        ensures
            v@ == verdict(self@, sequence, resp@),
    {
        match self.state {
            FlashState::Ping => match resp {
                CommandResponse::Pong { sequence_number, pong_value } => {
                    if sequence != sequence_number {
                        Judged::Fail(FlashStateMachineError::WrongSequenceNumber { expected: sequence, got: sequence_number })
                    } else if pong_value != 0x01 {
                        Judged::Fail(FlashStateMachineError::WrongPongValue { expected: 0x01, got: pong_value })
                    } else {
                        Judged::Next(FlashState::EnterFlashModeSetup)
                    }
                },
                other => Judged::Fail(FlashStateMachineError::UnexpectedResponse(other)),
            },
            FlashState::Ident | FlashState::IdentNewFirmware => match resp {
                CommandResponse::Version { sequence_number, .. } => {
                    if sequence != sequence_number {
                        Judged::Fail(FlashStateMachineError::WrongSequenceNumber { expected: sequence, got: sequence_number })
                    } else if self.state == FlashState::Ident {
                        Judged::Next(FlashState::EnterFlashModeSetup)
                    } else {
                        Judged::Next(FlashState::Finish)
                    }
                },
                other => Judged::Fail(FlashStateMachineError::UnexpectedResponse(other)),
            },
            FlashState::EnterFlashMode => match resp {
                CommandResponse::StartFlash { sequence_number, ok } => {
                    if sequence != sequence_number {
                        Judged::Fail(FlashStateMachineError::WrongSequenceNumber { expected: sequence, got: sequence_number })
                    } else if !ok {
                        Judged::Fail(FlashStateMachineError::EnterFlashModeFailed)
                    } else {
                        Judged::Ready(FlashState::VerifyFlashModeSetup)
                    }
                },
                other => Judged::Fail(FlashStateMachineError::UnexpectedResponse(other)),
            },
            FlashState::VerifyFlashMode | FlashState::VerifyFlashMode2 => match resp {
                CommandResponse::InFlashingModeOk => {
                    if self.state == FlashState::VerifyFlashMode {
                        Judged::Ready(FlashState::StartWritingSetup)
                    } else {
                        Judged::Ready(FlashState::BlockWriteSetup)
                    }
                },
                CommandResponse::InFlashingModeNotOk => Judged::Fail(FlashStateMachineError::EnterFlashModeFailed),
                other => Judged::Fail(FlashStateMachineError::UnexpectedResponse(other)),
            },
            FlashState::StartWriting => match resp {
                CommandResponse::StartWriteOk { .. } => Judged::Ready(FlashState::VerifyFlashMode2Setup),
                other => Judged::Fail(FlashStateMachineError::UnexpectedResponse(other)),
            },
            FlashState::BlockWrite => match resp {
                CommandResponse::WriteBlockOk { firmware_offset, block_data } => {
                    let got: u32 = if self.is_128kb {
                        (firmware_offset as u32) << 1
                    } else {
                        firmware_offset as u32
                    };
                    assert((firmware_offset as u32) << 1 == firmware_offset * 2) by (bit_vector);
                    if got != self.curr_block_offset {
                        return Judged::Fail(FlashStateMachineError::WriteBlockOffsetMismatch {
                            expected: self.curr_block_offset,
                            got,
                        });
                    }
                    let start: usize = self.curr_block_offset as usize;
                    let expected: &[u8] = vstd::slice::slice_subrange(self.firmware.as_slice(), start, start + 128);
                    if !same_block(&block_data, expected) {
                        Judged::Fail(FlashStateMachineError::WriteBlockDataMismatch {
                            expected: vstd::slice::slice_to_vec(expected),
                            got: vstd::slice::slice_to_vec(block_data.as_slice()),
                        })
                    } else if self.curr_block_offset == 0 {
                        Judged::Ready(FlashState::StopWritingSetup)
                    } else {
                        Judged::Ready(FlashState::BlockWrite)
                    }
                },
                CommandResponse::WriteBlockNotOk => Judged::Fail(FlashStateMachineError::InvalidBlockWriteResponse),
                other => Judged::Fail(FlashStateMachineError::UnexpectedResponse(other)),
            },
            FlashState::StopWriting | FlashState::StopWriting2 => match resp {
                CommandResponse::EndWriteOk => {
                    if self.state == FlashState::StopWriting {
                        Judged::Ready(FlashState::StopWriting2Setup)
                    } else {
                        Judged::Ready(FlashState::Reboot)
                    }
                },
                CommandResponse::EndWriteNotOk => Judged::Fail(FlashStateMachineError::EndWritingFailed),
                other => Judged::Fail(FlashStateMachineError::UnexpectedResponse(other)),
            },
            _ => Judged::Fail(FlashStateMachineError::UnexpectedResponse(resp)),
        }
    }

    /// The start of a step.
    fn begin(&mut self) -> (action: FlashAction)
        requires
            wf(old(self)@),
            old(self)@.phase is Idle,
        ensures
            (final(self)@, action@) == spec_begin(old(self)@),
    {
        match self.state {
            FlashState::Init => self.done(FlashState::PingSetup),
            FlashState::ReconnectAfterReboot => {
                self.phase = FlashPhase::AwaitReconnect;
                FlashAction::Reconnect { wait_ms: 4000 }
            },
            FlashState::PingSetup => {
                self.state = FlashState::Ping;
                self.ping_command = Some(HostCommand::Ping { ping_value: 0x00 });
                self.retries_countdown = 3;
                self.phase = FlashPhase::Idle;
                FlashAction::Finished(Ok(()))
            },
            FlashState::Ping => {
                let frame: Option<Vec<u8>> = host_frame(&self.ping_command, self.curr_sequence);
                self.begin_host(
                    frame,
                    Ghost(self@.ping_command),
                    FlashState::PingSetup,
                    FlashStateMachineError::PingCommandSetupInvalidState,
                )
            },
            FlashState::IdentSetup => {
                self.ident_command = Some(HostCommand::Version);
                self.retries_countdown = 3;
                self.state = FlashState::Ident;
                self.phase = FlashPhase::Idle;
                FlashAction::Finished(Ok(()))
            },
            FlashState::Ident | FlashState::IdentNewFirmware => {
                let frame: Option<Vec<u8>> = host_frame(&self.ident_command, self.curr_sequence);
                self.begin_host(
                    frame,
                    Ghost(self@.ident_command),
                    FlashState::IdentSetup,
                    FlashStateMachineError::IdentCommandSetupInvalidState,
                )
            },
            FlashState::EnterFlashModeSetup => {
                self.state = FlashState::EnterFlashMode;
                self.enter_flash_mode_command = Some(HostCommand::StartFlash);
                self.retries_countdown = 3;
                self.phase = FlashPhase::Idle;
                FlashAction::Finished(Ok(()))
            },
            FlashState::EnterFlashMode => {
                let frame: Option<Vec<u8>> = host_frame(&self.enter_flash_mode_command, self.curr_sequence);
                self.begin_host(
                    frame,
                    Ghost(self@.enter_flash_mode_command),
                    FlashState::EnterFlashModeSetup,
                    FlashStateMachineError::StartFlashCommandSetupInvalidState,
                )
            },
            FlashState::VerifyFlashModeSetup => {
                self.state = FlashState::VerifyFlashMode;
                self.verify_flash_mode_command = Some(FlashCommand::AreYouInFlashMode);
                self.retries_countdown = 3;
                self.phase = FlashPhase::Idle;
                FlashAction::Finished(Ok(()))
            },
            FlashState::VerifyFlashMode => {
                let frame: Option<Vec<u8>> = flash_frame(&self.verify_flash_mode_command);
                self.begin_flash(
                    frame,
                    Ghost(self@.verify_flash_mode_command),
                    FlashState::VerifyFlashModeSetup,
                    FlashStateMachineError::VerifyFlashModeCommandSetupInvalidState,
                )
            },
            FlashState::StartWritingSetup => {
                self.state = FlashState::StartWriting;
                self.start_writing_command = Some(FlashCommand::StartWrite { offset: 0 });
                self.retries_countdown = 3;
                self.phase = FlashPhase::Idle;
                FlashAction::Finished(Ok(()))
            },
            FlashState::StartWriting => {
                let frame: Option<Vec<u8>> = flash_frame(&self.start_writing_command);
                self.begin_flash(
                    frame,
                    Ghost(self@.start_writing_command),
                    FlashState::StartWritingSetup,
                    FlashStateMachineError::StartWritingCommandSetupInvalidState,
                )
            },
            FlashState::VerifyFlashMode2Setup => {
                self.state = FlashState::VerifyFlashMode2;
                self.verify_flash_mode_command_2 = Some(FlashCommand::AreYouInFlashMode);
                self.retries_countdown = 3;
                self.phase = FlashPhase::Idle;
                FlashAction::Finished(Ok(()))
            },
            FlashState::VerifyFlashMode2 => {
                // The second check sends the command of the first one.
                let frame: Option<Vec<u8>> = flash_frame(&self.verify_flash_mode_command);
                self.begin_flash(
                    frame,
                    Ghost(self@.verify_flash_mode_command),
                    FlashState::VerifyFlashMode2Setup,
                    FlashStateMachineError::VerifyFlashModeCommandSetupInvalidState,
                )
            },
            FlashState::BlockWriteSetup => {
                self.state = FlashState::BlockWrite;
                self.retries_countdown = 3;
                self.curr_block_offset = if self.is_128kb { 0x20000 } else { 0x10000 };
                self.last_block_write_was_error = false;
                self.phase = FlashPhase::Idle;
                FlashAction::Finished(Ok(()))
            },
            FlashState::BlockWrite => self.begin_block_write(),
            FlashState::StopWritingSetup => {
                self.state = FlashState::StopWriting;
                self.retries_countdown = 3;
                self.stop_writing_command = Some(FlashCommand::EndWrite);
                self.phase = FlashPhase::Idle;
                FlashAction::Finished(Ok(()))
            },
            FlashState::StopWriting | FlashState::StopWriting2 => {
                let frame: Option<Vec<u8>> = flash_frame(&self.stop_writing_command);
                self.begin_flash(
                    frame,
                    Ghost(self@.stop_writing_command),
                    FlashState::StopWritingSetup,
                    FlashStateMachineError::StopWritingCommandSetupInvalidState,
                )
            },
            FlashState::StopWriting2Setup => {
                self.state = FlashState::StopWriting2;
                self.retries_countdown = 3;
                self.stop_writing_command = Some(FlashCommand::EndWrite);
                self.phase = FlashPhase::Idle;
                FlashAction::Finished(Ok(()))
            },
            FlashState::Reboot => {
                self.state = FlashState::ReconnectAfterReboot;
                self.phase = FlashPhase::AwaitReboot;
                FlashAction::Write(FlashCommand::Reboot.to_frame())
            },
            FlashState::IdentNewFirmwareSetup => {
                self.ident_command = Some(HostCommand::Version);
                self.retries_countdown = 3;
                self.curr_sequence = 0;
                self.state = FlashState::IdentNewFirmware;
                self.phase = FlashPhase::Idle;
                FlashAction::Finished(Ok(()))
            },
            FlashState::Finish => self.done(FlashState::Finish),
        }
    }

    /// Takes what came of the last action (or `Begin` between steps) and
    /// says what to do next. A step ends with `Finished`: `Ok` when it
    /// succeeded or will be retried, the error when no retry is left.
    pub fn step(&mut self, event: FlashEvent) -> (action: FlashAction)
        requires
            wf(old(self)@),
            takes(old(self)@.phase, event@),
        ensures
            wf(final(self)@),
            (final(self)@, action@) == spec_step(old(self)@, event@),
            forall|e: FlashEventView| answers(action@, e) ==> #[trigger] takes(final(self)@.phase, e),
    {
        proof {
            lemma_step_keeps_wf(self@, event@);
        }
        let mut phase: FlashPhase = FlashPhase::Idle;
        std::mem::swap(&mut phase, &mut self.phase);
        match event {
            FlashEvent::Begin => self.begin(),
            FlashEvent::Written(r) => match phase {
                FlashPhase::AwaitWrite { sequence } => match r {
                    Err(e) => {
                        let err: FlashStateMachineError = send_failed_error(self.state, e);
                        self.fail(err)
                    },
                    Ok(()) => {
                        self.phase = FlashPhase::AwaitResponse { sequence };
                        FlashAction::ReadResponse
                    },
                },
                FlashPhase::AwaitReboot => match r {
                    Ok(()) => FlashAction::Finished(Ok(())),
                    Err(e) => FlashAction::Finished(Err(FlashStateMachineError::RebootFailed(e))),
                },
                _ => {
                    proof {
                        assert(false);
                    }
                    FlashAction::ReadResponse
                },
            },
            FlashEvent::Response(r) => match phase {
                FlashPhase::AwaitResponse { sequence } => match r {
                    Err(e) => self.fail(e),
                    Ok(resp) => match self.judge(sequence, resp) {
                        Judged::Fail(e) => self.fail(e),
                        Judged::Next(state) => self.done(state),
                        Judged::Ready(next) => {
                            if self.state == FlashState::BlockWrite {
                                self.last_block_write_was_error = false;
                            }
                            self.phase = FlashPhase::AwaitReady { next };
                            FlashAction::ReadResponse
                        },
                    },
                },
                FlashPhase::AwaitReady { next } => match r {
                    Ok(CommandResponse::ReadyForNextFlashBlock) => self.done(next),
                    Ok(other) => self.fail(FlashStateMachineError::UnexpectedResponse(other)),
                    Err(FlashStateMachineError::ResponseTimeout) => self.fail(FlashStateMachineError::BoardNotReady),
                    Err(e) => self.fail(e),
                },
                _ => {
                    proof {
                        assert(false);
                    }
                    FlashAction::ReadResponse
                },
            },
            FlashEvent::Cleared => match phase {
                FlashPhase::Failing(e) => self.after_failure(e),
                _ => {
                    proof {
                        assert(false);
                    }
                    FlashAction::ReadResponse
                },
            },
            FlashEvent::Reconnected(r) => match phase {
                FlashPhase::AwaitReconnect => match r {
                    Ok(()) => self.done(FlashState::IdentNewFirmwareSetup),
                    Err(_) => self.after_failure(FlashStateMachineError::ReconnectFailed),
                },
                _ => {
                    proof {
                        assert(false);
                    }
                    FlashAction::ReadResponse
                },
            },
        }
    }

    /// Feeds a byte read while waiting for a response to the response
    /// decoder. Returns the response once a frame is complete, and an error
    /// for a byte that cannot start a frame or a frame that does not parse.
    pub fn receive_byte(&mut self, byte: u8) -> (res: Option<Result<CommandResponse, FlashStateMachineError>>)
        requires
            old(self)@.decoder.bytes.len() + 1 < usize::MAX,
        ensures
            final(self)@ == (FlashMachineView { decoder: spec_receive_byte(old(self)@.decoder, byte).0, ..old(self)@ }),
            received_view(res) == spec_receive_byte(old(self)@.decoder, byte).1,
    {
        match self.response_decoder.update(byte) {
            Ok(Some(response)) => Some(Ok(response)),
            Ok(None) => None,
            Err(CommandResponseDecoderError::UnknownStartByte(_)) => Some(Err(FlashStateMachineError::UnknownResponse)),
            Err(CommandResponseDecoderError::CommandResponseParseError(e)) => Some(
                Err(FlashStateMachineError::ResponseParseError(e)),
            ),
        }
    }

    /// Whether `step` takes `event` now.
    pub fn takes_event(&self, event: &FlashEvent) -> (b: bool)
        ensures
            b == takes(self@.phase, event@),
    {
        match &self.phase {
            FlashPhase::Idle => matches!(event, FlashEvent::Begin),
            FlashPhase::AwaitWrite { .. } | FlashPhase::AwaitReboot => matches!(event, FlashEvent::Written(_)),
            FlashPhase::AwaitResponse { .. } | FlashPhase::AwaitReady { .. } => matches!(event, FlashEvent::Response(_)),
            FlashPhase::Failing(_) => matches!(event, FlashEvent::Cleared),
            FlashPhase::AwaitReconnect => matches!(event, FlashEvent::Reconnected(_)),
        }
    }
}

/// A step keeps a machine able to take its next event, the machine then
/// takes the answer to the action it gave, and the firmware and its size
/// never change.
pub proof fn lemma_step_keeps_wf(m: FlashMachineView, event: FlashEventView)
    requires
        wf(m),
        takes(m.phase, event),
    ensures
        wf(spec_step(m, event).0),
        forall|e: FlashEventView| answers(spec_step(m, event).1, e) ==> #[trigger] takes(spec_step(m, event).0.phase, e),
        spec_step(m, event).0.firmware == m.firmware,
        spec_step(m, event).0.is_128kb == m.is_128kb,
{
}

/// A block write that the board answers, followed by its ready frame,
/// writes the block just below the current offset and moves down to it:
/// the machine sends the frame of that block (the frame of the
/// `WriteBlock` command for it); the board's answer (the
/// frame followed by `0xAC`) is read by the response decoder as one frame,
/// whose response the machine takes; after the ready frame the step ends
/// with the offset lowered by 128, no retry used, and as next state the
/// next block, or stopping the writing once the first block was written.
#[verifier::spinoff_prover]
#[verifier::rlimit(50)]
pub proof fn lemma_block_written(m: FlashMachineView)
    requires
        wf(m),
        m.state == FlashState::BlockWrite,
        m.phase is Idle,
    ensures
        ({
            let off = (m.curr_block_offset - 128) as u32;
            let frame = write_block_frame(off, firmware_block(m, off), m.is_128kb);
            let answer = block_answer(off, firmware_block(m, off), m.is_128kb);
            let (m1, a1) = spec_step(m, FlashEventView::Begin);
            let (m2, a2) = spec_step(m1, FlashEventView::Written(Ok(())));
            let (m3, a3) = spec_step(m2, FlashEventView::Response(
                match spec_from_frame(answer, false) {
                    Ok(r) => Ok(r),
                    Err(e) => Err(FlashErrorView::ResponseParseError(e)),
                },
            ));
            let (m4, a4) = spec_step(m3, FlashEventView::Response(Ok(CommandResponseView::ReadyForNextFlashBlock)));
            &&& a1 == FlashActionView::Write(frame)
            &&& forall|block: [u8; 128]| block@ == firmware_block(m, off) ==> #[trigger] spec_flash_frame(
                FlashCommand::WriteBlock { firmware_offset: off, block_data: block, is_128kb_firmware: m.is_128kb },
            ) == frame
            &&& reads_frame(decoder_run(empty_state(), frame.push(0xAC)), answer)
            &&& a2 == FlashActionView::ReadResponse
            &&& a3 == FlashActionView::ReadResponse
            &&& a4 == FlashActionView::Finished(Ok(()))
            &&& m4.state == (if off == 0 { FlashState::StopWritingSetup } else { FlashState::BlockWrite })
            &&& m4.curr_block_offset == off
            &&& m4.retries_countdown == m.retries_countdown
            &&& m4.firmware == m.firmware
            &&& !m4.last_block_write_was_error
            &&& m4.phase is Idle
            &&& wf(m4)
        }),
{
    let off = (m.curr_block_offset - 128) as u32;
    let block = firmware_block(m, off);
    lemma_decoder_reads_block_answer(off, block, m.is_128kb);
    let wire = block_wire_offset(off, m.is_128kb);
    let size = firmware_size(m.is_128kb);
    assert(off % 128 == 0 && off < size);
    if m.is_128kb {
        assert(((off >> 1) as u16) * 2 == off) by (bit_vector)
            requires
                off % 128 == 0,
                off < 0x20000;
    } else {
        assert((off as u16) == off) by (bit_vector)
            requires
                off < 0x10000;
    }
    let (m1, a1) = spec_step(m, FlashEventView::Begin);
    lemma_step_keeps_wf(m, FlashEventView::Begin);
    let (m2, a2) = spec_step(m1, FlashEventView::Written(Ok(())));
    lemma_step_keeps_wf(m1, FlashEventView::Written(Ok(())));
    let ev3 = FlashEventView::Response(Ok(CommandResponseView::WriteBlockOk { firmware_offset: wire, block_data: block }));
    let (m3, a3) = spec_step(m2, ev3);
    lemma_step_keeps_wf(m2, ev3);
    assert(off != 0 ==> off >= 128);
    lemma_step_keeps_wf(m3, FlashEventView::Response(Ok(CommandResponseView::ReadyForNextFlashBlock)));
}

/// The machine after a block write that the board answers, followed by
/// the ready frame (the four events of `lemma_block_written`).
pub open spec fn after_block_written(m: FlashMachineView) -> FlashMachineView {
    let off = (m.curr_block_offset - 128) as u32;
    let answer = block_answer(off, firmware_block(m, off), m.is_128kb);
    let m1 = spec_step(m, FlashEventView::Begin).0;
    let m2 = spec_step(m1, FlashEventView::Written(Ok(()))).0;
    let m3 = spec_step(m2, FlashEventView::Response(
        match spec_from_frame(answer, false) {
            Ok(r) => Ok(r),
            Err(e) => Err(FlashErrorView::ResponseParseError(e)),
        },
    )).0;
    spec_step(m3, FlashEventView::Response(Ok(CommandResponseView::ReadyForNextFlashBlock))).0
}

/// The machine after `k` answered block writes.
pub open spec fn blocks_written(m: FlashMachineView, k: nat) -> FlashMachineView
    decreases k,
{
    if k == 0 {
        m
    } else {
        after_block_written(blocks_written(m, (k - 1) as nat))
    }
}

/// Block writes that the board answers go down the firmware one block at a
/// time: after `k` of them the offset is `128 * k` lower, no retry was
/// used, and the machine writes the next block until the first block is
/// written, when it goes on to stop the writing. From the set-up offset,
/// the firmware size, the `size / 128` blocks are thus each written once,
/// from the last to the first.
pub proof fn lemma_all_blocks_written(m: FlashMachineView, k: nat)
    requires
        wf(m),
        m.state == FlashState::BlockWrite,
        m.phase is Idle,
        1 <= k,
        k * 128 <= m.curr_block_offset,
    ensures
        ({
            let mk = blocks_written(m, k);
            &&& mk.curr_block_offset == m.curr_block_offset - 128 * k
            &&& mk.state == (if mk.curr_block_offset == 0 { FlashState::StopWritingSetup } else { FlashState::BlockWrite })
            &&& mk.retries_countdown == m.retries_countdown
            &&& mk.firmware == m.firmware
            &&& mk.is_128kb == m.is_128kb
            &&& mk.phase is Idle
            &&& wf(mk)
        }),
    decreases k,
{
    if k > 1 {
        lemma_all_blocks_written(m, (k - 1) as nat);
    }
    let prev = blocks_written(m, (k - 1) as nat);
    assert(prev.curr_block_offset == m.curr_block_offset - 128 * (k - 1));
    assert(prev.curr_block_offset >= 128);
    lemma_block_written(prev);
}

/// Setting up the block writes starts at the end of the firmware with three
/// retries; the `size / 128` answered block writes that follow (each the
/// `WriteBlock` frame of the block below the last, as
/// `lemma_block_written` says) end at offset 0 in the state that stops the
/// writing, with no retry used.
pub proof fn lemma_block_write_phase(m: FlashMachineView)
    requires
        wf(m),
        m.phase is Idle,
        m.state == FlashState::BlockWriteSetup,
    ensures
        ({
            let (m1, a1) = spec_step(m, FlashEventView::Begin);
            let end = blocks_written(m1, (firmware_size(m.is_128kb) / 128) as nat);
            &&& a1 == FlashActionView::Finished(Ok(()))
            &&& m1.state == FlashState::BlockWrite
            &&& m1.curr_block_offset == firmware_size(m.is_128kb)
            &&& m1.retries_countdown == 3
            &&& end.state == FlashState::StopWritingSetup
            &&& end.curr_block_offset == 0
            &&& end.retries_countdown == 3
            &&& end.phase is Idle
            &&& wf(end)
        }),
{
    lemma_step_keeps_wf(m, FlashEventView::Begin);
    let m1 = spec_step(m, FlashEventView::Begin).0;
    let n = (firmware_size(m.is_128kb) / 128) as nat;
    lemma_all_blocks_written(m1, n);
}

/// A state that was just set up (three retries) fails for good only at its
/// third failure: clearing the link after the first two failures ends the
/// step with `Ok`, so that the state is tried again, and after the third
/// with its error; the state stays the same throughout.
pub proof fn lemma_three_tries(m: FlashMachineView, e1: FlashErrorView, e2: FlashErrorView, e3: FlashErrorView)
    requires
        m.retries_countdown == 3,
    ensures
        ({
            let (m1, a1) = spec_step(FlashMachineView { phase: FlashPhaseView::Failing(e1), ..m }, FlashEventView::Cleared);
            let (m2, a2) = spec_step(FlashMachineView { phase: FlashPhaseView::Failing(e2), ..m1 }, FlashEventView::Cleared);
            let (m3, a3) = spec_step(FlashMachineView { phase: FlashPhaseView::Failing(e3), ..m2 }, FlashEventView::Cleared);
            &&& a1 == FlashActionView::Finished(Ok(()))
            &&& a2 == FlashActionView::Finished(Ok(()))
            &&& a3 == FlashActionView::Finished(Err(e3))
            &&& m1.state == m.state && m2.state == m.state && m3.state == m.state
            &&& m3.phase is Idle
        }),
{
}

/// The state a successful exchange in `state` leads to.
pub open spec fn success_next(state: FlashState) -> FlashState {
    match state {
        FlashState::Ping | FlashState::Ident => FlashState::EnterFlashModeSetup,
        FlashState::EnterFlashMode => FlashState::VerifyFlashModeSetup,
        FlashState::VerifyFlashMode => FlashState::StartWritingSetup,
        FlashState::StartWriting => FlashState::VerifyFlashMode2Setup,
        FlashState::VerifyFlashMode2 => FlashState::BlockWriteSetup,
        FlashState::StopWriting => FlashState::StopWriting2Setup,
        FlashState::StopWriting2 => FlashState::Reboot,
        FlashState::IdentNewFirmware => FlashState::Finish,
        _ => state,
    }
}

/// Whether `state` sends one command and waits for its answer (block
/// writes aside).
pub open spec fn exchanges(state: FlashState) -> bool {
    match state {
        FlashState::Ping | FlashState::Ident | FlashState::EnterFlashMode | FlashState::VerifyFlashMode
        | FlashState::StartWriting | FlashState::VerifyFlashMode2 | FlashState::StopWriting
        | FlashState::StopWriting2 | FlashState::IdentNewFirmware => true,
        _ => false,
    }
}

/// Whether the command that the state of `m` sends was set up.
pub open spec fn command_set_up(m: FlashMachineView) -> bool {
    match m.state {
        FlashState::Ping => m.ping_command is Some,
        FlashState::Ident | FlashState::IdentNewFirmware => m.ident_command is Some,
        FlashState::EnterFlashMode => m.enter_flash_mode_command is Some,
        FlashState::VerifyFlashMode | FlashState::VerifyFlashMode2 => m.verify_flash_mode_command is Some,
        FlashState::StartWriting => m.start_writing_command is Some,
        FlashState::StopWriting | FlashState::StopWriting2 => m.stop_writing_command is Some,
        _ => true,
    }
}

/// The sequence number of the command the state of `m` sends: the next one
/// for a host command, none (zero) for a flash command.
pub open spec fn sent_sequence(m: FlashMachineView) -> u8 {
    match m.state {
        FlashState::Ping | FlashState::Ident | FlashState::EnterFlashMode | FlashState::IdentNewFirmware =>
            m.curr_sequence,
        _ => 0,
    }
}

/// Whether `r` is what a board that did what `state` asks answers to the
/// command with sequence number `sequence`.
pub open spec fn good_answer(state: FlashState, sequence: u8, r: CommandResponseView) -> bool {
    match state {
        FlashState::Ping => r == CommandResponseView::Pong { sequence_number: sequence, pong_value: 0x01 },
        FlashState::Ident | FlashState::IdentNewFirmware => r matches CommandResponseView::Version {
            sequence_number,
            ..
        } && sequence_number == sequence,
        FlashState::EnterFlashMode => r == CommandResponseView::StartFlash { sequence_number: sequence, ok: true },
        FlashState::VerifyFlashMode | FlashState::VerifyFlashMode2 => r == CommandResponseView::InFlashingModeOk,
        FlashState::StartWriting => r is StartWriteOk,
        FlashState::StopWriting | FlashState::StopWriting2 => r == CommandResponseView::EndWriteOk,
        _ => false,
    }
}

/// Whether the board sends a ready frame after its answer in `state`.
pub open spec fn ready_follows(state: FlashState) -> bool {
    !(state == FlashState::Ping || state == FlashState::Ident || state == FlashState::IdentNewFirmware)
}

/// A step whose exchange succeeds: the command is written, the board
/// answers `r`, then sends its ready frame where it sends one.
pub open spec fn successful_step(m: FlashMachineView, r: CommandResponseView) -> (FlashMachineView, FlashActionView) {
    let m1 = spec_step(m, FlashEventView::Begin).0;
    let m2 = spec_step(m1, FlashEventView::Written(Ok(()))).0;
    let (m3, a3) = spec_step(m2, FlashEventView::Response(Ok(r)));
    if ready_follows(m.state) {
        spec_step(m3, FlashEventView::Response(Ok(CommandResponseView::ReadyForNextFlashBlock)))
    } else {
        (m3, a3)
    }
}

/// A step whose exchange succeeds moves the machine on: from each state
/// that sends a command, once the board gave the right answer (the right
/// sequence number, the expected value) and its ready frame where it sends
/// one, the step ends with `Ok` in the next state of the flashing, with
/// its retries untouched.
#[verifier::spinoff_prover]
#[verifier::rlimit(50)]
pub proof fn lemma_successful_step(m: FlashMachineView, r: CommandResponseView)
    requires
        wf(m),
        m.phase is Idle,
        exchanges(m.state),
        command_set_up(m),
        good_answer(m.state, sent_sequence(m), r),
    ensures
        spec_step(m, FlashEventView::Begin).1 is Write,
        spec_step(spec_step(m, FlashEventView::Begin).0, FlashEventView::Written(Ok(()))).1
            == FlashActionView::ReadResponse,
        successful_step(m, r).1 == FlashActionView::Finished(Ok(())),
        successful_step(m, r).0.state == success_next(m.state),
        successful_step(m, r).0.retries_countdown == m.retries_countdown,
        successful_step(m, r).0.phase is Idle,
        wf(successful_step(m, r).0),
{
    let (m1, a1) = spec_step(m, FlashEventView::Begin);
    lemma_step_keeps_wf(m, FlashEventView::Begin);
    let (m2, a2) = spec_step(m1, FlashEventView::Written(Ok(())));
    lemma_step_keeps_wf(m1, FlashEventView::Written(Ok(())));
    let (m3, a3) = spec_step(m2, FlashEventView::Response(Ok(r)));
    lemma_step_keeps_wf(m2, FlashEventView::Response(Ok(r)));
    if ready_follows(m.state) {
        lemma_step_keeps_wf(m3, FlashEventView::Response(Ok(CommandResponseView::ReadyForNextFlashBlock)));
    }
}

/// Rebooting: the reboot command is written and the step ends with `Ok`,
/// waiting for the board to come back; the next step waits 4 s and opens
/// the link again, and once it is open the machine goes on to identify the
/// new firmware.
pub proof fn lemma_reboot_and_reconnect(m: FlashMachineView)
    requires
        wf(m),
        m.phase is Idle,
        m.state == FlashState::Reboot,
    ensures
        ({
            let (m1, a1) = spec_step(m, FlashEventView::Begin);
            let (m2, a2) = spec_step(m1, FlashEventView::Written(Ok(())));
            let (m3, a3) = spec_step(m2, FlashEventView::Begin);
            let (m4, a4) = spec_step(m3, FlashEventView::Reconnected(Ok(())));
            &&& a1 == FlashActionView::Write(spec_flash_frame(FlashCommand::Reboot))
            &&& a2 == FlashActionView::Finished(Ok(()))
            &&& m2.state == FlashState::ReconnectAfterReboot
            &&& a3 == (FlashActionView::Reconnect { wait_ms: 4000 })
            &&& a4 == FlashActionView::Finished(Ok(()))
            &&& m4.state == FlashState::IdentNewFirmwareSetup
            &&& m4.phase is Idle
        }),
{
}

/// The start of a step that fails on `ev`: the command is written (unless
/// `ev` is the failed write itself), then `ev` comes.
pub open spec fn failing_run(m: FlashMachineView, ev: FlashEventView) -> (FlashMachineView, FlashActionView) {
    let m1 = spec_step(m, FlashEventView::Begin).0;
    let m2 = if ev is Written { m1 } else { spec_step(m1, FlashEventView::Written(Ok(()))).0 };
    spec_step(m2, ev)
}

/// A failed step and the clearing of the link after it.
pub open spec fn failed_step(m: FlashMachineView, ev: FlashEventView) -> (FlashMachineView, FlashActionView) {
    spec_step(failing_run(m, ev).0, FlashEventView::Cleared)
}

/// The error a failed step ended on.
pub open spec fn failure_of(m: FlashMachineView, ev: FlashEventView) -> FlashErrorView {
    failing_run(m, ev).0.phase->Failing_0
}

/// A step that fails, whether the write fails or the answer is missing,
/// unreadable or wrong, asks for the link to be cleared; after that the
/// step ends in the same state (a block write gives its block back), one
/// retry less, with `Ok` while retries are left and the error otherwise.
#[verifier::spinoff_prover]
#[verifier::rlimit(50)]
pub proof fn lemma_failed_step(m: FlashMachineView, ev: FlashEventView)
    requires
        wf(m),
        m.phase is Idle,
        exchanges(m.state) || (m.state == FlashState::BlockWrite),
        command_set_up(m),
        ev is Written || ev is Response,
        failing_run(m, ev).1 == FlashActionView::Clear,
    ensures
        failing_run(m, ev).0.phase is Failing,
        failed_step(m, ev).1 == FlashActionView::Finished(
            if one_retry_less(m.retries_countdown) <= 0 { Err(failure_of(m, ev)) } else { Ok(()) },
        ),
        failed_step(m, ev).0.state == m.state,
        failed_step(m, ev).0.retries_countdown == one_retry_less(m.retries_countdown),
        failed_step(m, ev).0.curr_block_offset == m.curr_block_offset,
        failed_step(m, ev).0.phase is Idle,
        command_set_up(failed_step(m, ev).0),
        wf(failed_step(m, ev).0),
{
    let (m1, a1) = spec_step(m, FlashEventView::Begin);
    lemma_step_keeps_wf(m, FlashEventView::Begin);
    let m2 = if ev is Written { m1 } else { spec_step(m1, FlashEventView::Written(Ok(()))).0 };
    if !(ev is Written) {
        lemma_step_keeps_wf(m1, FlashEventView::Written(Ok(())));
    }
    assert(takes(m2.phase, ev));
    lemma_step_keeps_wf(m2, ev);
    let m3 = spec_step(m2, ev).0;
    lemma_step_keeps_wf(m3, FlashEventView::Cleared);
}

/// A state that was just set up fails for good only at its third failed
/// step: the first two end with `Ok` and the state is tried again, the
/// third ends with its error; the state stays the same throughout.
pub proof fn lemma_three_failed_steps(m: FlashMachineView, ev1: FlashEventView, ev2: FlashEventView, ev3: FlashEventView)
    requires
        wf(m),
        m.phase is Idle,
        m.retries_countdown == 3,
        exchanges(m.state) || (m.state == FlashState::BlockWrite),
        command_set_up(m),
        ev1 is Written || ev1 is Response,
        ev2 is Written || ev2 is Response,
        ev3 is Written || ev3 is Response,
        failing_run(m, ev1).1 == FlashActionView::Clear,
        failing_run(failed_step(m, ev1).0, ev2).1 == FlashActionView::Clear,
        failing_run(failed_step(failed_step(m, ev1).0, ev2).0, ev3).1 == FlashActionView::Clear,
    ensures
        ({
            let (m1, a1) = failed_step(m, ev1);
            let (m2, a2) = failed_step(m1, ev2);
            let (m3, a3) = failed_step(m2, ev3);
            &&& a1 == FlashActionView::Finished(Ok(()))
            &&& a2 == FlashActionView::Finished(Ok(()))
            &&& a3 == FlashActionView::Finished(Err(failure_of(m2, ev3)))
            &&& m1.state == m.state && m2.state == m.state && m3.state == m.state
            &&& m3.curr_block_offset == m.curr_block_offset
        }),
{
    lemma_failed_step(m, ev1);
    let m1 = failed_step(m, ev1).0;
    lemma_failed_step(m1, ev2);
    let m2 = failed_step(m1, ev2).0;
    lemma_failed_step(m2, ev3);
}

/// The first bytes of a BI2A firmware image.
pub const BI2A_FIRMWARE_HEADER: [u8; 6] = [0x52, 0x58, 0x55, 0x31, 0x0D, 0x06];

/// Whether `firmware` starts like a BI2A firmware image.
pub fn looks_like_bi2a_firmware(firmware: &[u8]) -> (b: bool)
    ensures
        b == (firmware@.len() >= 6 && firmware@.take(6) == BI2A_FIRMWARE_HEADER@),
{
    if firmware.len() < 6 {
        return false;
    }
    let mut i: usize = 0;
    while i < 6
        invariant
            i <= 6,
            firmware@.len() >= 6,
            forall|j: int| 0 <= j < i ==> firmware@[j] == BI2A_FIRMWARE_HEADER@[j],
        decreases 6 - i,
    {
        if firmware[i] != BI2A_FIRMWARE_HEADER[i] {
            assert(firmware@.take(6)[i as int] != BI2A_FIRMWARE_HEADER@[i as int]);
            return false;
        }
        i += 1;
    }
    assert(firmware@.take(6) =~= BI2A_FIRMWARE_HEADER@);
    true
}

/// A received response, with views.
pub open spec fn received_view(
    res: Option<Result<CommandResponse, FlashStateMachineError>>,
) -> Option<Result<CommandResponseView, FlashErrorView>> {
    match res {
        None => None,
        Some(Ok(r)) => Some(Ok(r@)),
        Some(Err(e)) => Some(Err(e@)),
    }
}

} // verus!
