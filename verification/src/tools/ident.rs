//! The decisions of identifying a board.
//!
//! The board is first asked for its version as a BI2A board. Whatever the
//! answer, the link is then opened again at the BI2X speed, the board is
//! sent the BI2X initialisation twice, and asked for its BI2X firmware
//! version. The machine does no I/O: each call of `ident_step` takes what
//! came of the last action and says what to do next.

use vstd::prelude::*;
use crate::bi2a_protocol::command_response::{CommandResponse, CommandResponseView};
use crate::bi2a_protocol::command_response_decoder::CommandResponseDecoderError;
use crate::bi2x_protocol::command::Bi2xCommand;
use crate::bi2x_protocol::frame::{
    frame_bytes_ok, lemma_frame_roundtrip, parse_panics, spec_parse, to_bytes_error, vlq_exact, Bi2xFrame,
    Bi2xFrameParseError, Bi2xFrameView,
};
use crate::bi2x_protocol::response::{
    payload_bytes, responses_view, spec_from_bytes, spec_from_frame, timestamp_of, Bi2xResponse, Bi2xResponseView,
    FrameToResponseError,
};
use crate::protocol::frame::host_command::HostCommand;
use crate::reader::bio2_serial_reader::Bio2SerialFirmware;

verus! {

/// The largest firmware time stamp a BI2X answer can carry: a 32-bit count
/// of minutes, in milliseconds.
pub const MAX_TIMESTAMP_MS: u64 = 0xFFFF_FFFF * 60000;

/// A time stamp in milliseconds since 1970-01-01 00:00:00 UTC, written as
/// `YYYY-MM-DD HH:MM:SS` in UTC.
pub uninterp spec fn utc_text(ms: u64) -> Seq<char>;

/// Calls `chrono::DateTime::from_timestamp_millis` and formats the time
/// with `%Y-%m-%d %H:%M:%S`. The contract claims only that the text is
/// `utc_text` of the time stamp. Below `MAX_TIMESTAMP_MS` (about 8,000
/// years) the time lies well within chrono's range of about 262,000 years,
/// for which its source returns `Some`.
#[verifier::external_body]
fn format_utc(ms: u64) -> (s: String)
    requires
        ms <= MAX_TIMESTAMP_MS,
    ensures
        s@ == utc_text(ms),
{
    chrono::DateTime::from_timestamp_millis(ms as i64)
        .expect("time stamp within chrono's range")
        .format("%Y-%m-%d %H:%M:%S")
        .to_string()
}

/// Where the identification is: what it waits for next.
#[derive(Debug, Clone, Copy, PartialEq, Eq, Structural)]
pub enum IdentStage {
    Start,
    Bi2aOpening,
    Bi2aSending,
    Bi2aReading,
    Bi2aReporting,
    Bi2xOpening,
    InitSending { tries: u8 },
    InitReading { tries: u8 },
    InitReporting { tries: u8 },
    VersionSending,
    VersionReading,
    VersionReporting,
    Done,
}

/// Why the identification failed.
#[derive(Debug)]
pub enum IdentFailure {
    /// The BI2A version answer has a sequence number other than 0.
    UnexpectedSequenceNumber(u8),
    /// The BI2A board answered with something other than its version.
    UnexpectedBi2aResponse(CommandResponse),
    /// The BI2A answer could not be decoded.
    Bi2aDecodeFailed(CommandResponseDecoderError),
    /// The BI2X answer ends on an escaping `0xFF` in place of its flags, or
    /// holds only the CRC of a substituted payload.
    FrameCut,
    /// The BI2X answer is not a frame.
    FrameParseFailed(Bi2xFrameParseError),
    /// The BI2X answer is a response frame without payload.
    EmptyResponsePayload,
    /// The BI2X answer's payload is not a list of responses.
    ResponseParseFailed(FrameToResponseError),
    /// The BI2X answer holds this many responses instead of one.
    UnexpectedResponseCount(usize),
    /// The BI2X answer is not the response asked for.
    UnexpectedBi2xResponse(Bi2xResponse),
    /// The board did not answer the firmware version request.
    NoFirmwareVersion,
}

pub enum IdentFailureView {
    UnexpectedSequenceNumber(u8),
    UnexpectedBi2aResponse(CommandResponseView),
    Bi2aDecodeFailed(CommandResponseDecoderError),
    FrameCut,
    FrameParseFailed(Bi2xFrameParseError),
    EmptyResponsePayload,
    ResponseParseFailed(FrameToResponseError),
    UnexpectedResponseCount(usize),
    UnexpectedBi2xResponse(Bi2xResponseView),
    NoFirmwareVersion,
}

impl View for IdentFailure {
    type V = IdentFailureView;

    open spec fn view(&self) -> IdentFailureView {
        match *self {
            IdentFailure::UnexpectedSequenceNumber(n) => IdentFailureView::UnexpectedSequenceNumber(n),
            IdentFailure::UnexpectedBi2aResponse(r) => IdentFailureView::UnexpectedBi2aResponse(r@),
            IdentFailure::Bi2aDecodeFailed(e) => IdentFailureView::Bi2aDecodeFailed(e),
            IdentFailure::FrameCut => IdentFailureView::FrameCut,
            IdentFailure::FrameParseFailed(e) => IdentFailureView::FrameParseFailed(e),
            IdentFailure::EmptyResponsePayload => IdentFailureView::EmptyResponsePayload,
            IdentFailure::ResponseParseFailed(e) => IdentFailureView::ResponseParseFailed(e),
            IdentFailure::UnexpectedResponseCount(n) => IdentFailureView::UnexpectedResponseCount(n),
            IdentFailure::UnexpectedBi2xResponse(r) => IdentFailureView::UnexpectedBi2xResponse(r@),
            IdentFailure::NoFirmwareVersion => IdentFailureView::NoFirmwareVersion,
        }
    }
}

/// What the identification has to tell.
#[derive(Debug)]
pub enum IdentReport {
    /// The board answered as a BI2A board with this version.
    Bi2aVersion(CommandResponse),
    /// The board did not answer as a BI2A board.
    NoBi2aAnswer,
    /// The board answered the BI2X initialisation; it fails when the board
    /// already was initialised.
    InitResult { success: bool },
    /// The board did not answer the BI2X initialisation.
    NoInitAnswer,
    /// The board's BI2X firmware version, with its time stamp as text.
    Bi2xFirmware { response: Bi2xResponse, time: String },
}

pub enum IdentReportView {
    Bi2aVersion(CommandResponseView),
    NoBi2aAnswer,
    InitResult { success: bool },
    NoInitAnswer,
    Bi2xFirmware { response: Bi2xResponseView, time: Seq<char> },
}

impl View for IdentReport {
    type V = IdentReportView;

    open spec fn view(&self) -> IdentReportView {
        match *self {
            IdentReport::Bi2aVersion(r) => IdentReportView::Bi2aVersion(r@),
            IdentReport::NoBi2aAnswer => IdentReportView::NoBi2aAnswer,
            IdentReport::InitResult { success } => IdentReportView::InitResult { success },
            IdentReport::NoInitAnswer => IdentReportView::NoInitAnswer,
            IdentReport::Bi2xFirmware { response, time } => IdentReportView::Bi2xFirmware {
                response: response@,
                time: time@,
            },
        }
    }
}

/// What came of the last action.
pub enum IdentEvent {
    /// Start the identification.
    Begin,
    /// The link was opened.
    Opened,
    /// The frame was sent.
    Sent,
    /// The BI2A answer: a response, a decoding error, or nothing (`None`).
    Bi2aAnswer(Result<CommandResponse, Option<CommandResponseDecoderError>>),
    /// The bytes of a BI2X answer, `None` when nothing came.
    Bi2xAnswer(Option<Vec<u8>>),
    /// The report was given.
    Reported,
}

pub enum IdentEventView {
    Begin,
    Opened,
    Sent,
    Bi2aAnswer(Result<CommandResponseView, Option<CommandResponseDecoderError>>),
    Bi2xAnswer(Option<Seq<u8>>),
    Reported,
}

impl View for IdentEvent {
    type V = IdentEventView;

    open spec fn view(&self) -> IdentEventView {
        match *self {
            IdentEvent::Begin => IdentEventView::Begin,
            IdentEvent::Opened => IdentEventView::Opened,
            IdentEvent::Sent => IdentEventView::Sent,
            IdentEvent::Bi2aAnswer(r) => IdentEventView::Bi2aAnswer(
                match r {
                    Ok(resp) => Ok(resp@),
                    Err(e) => Err(e),
                },
            ),
            IdentEvent::Bi2xAnswer(a) => IdentEventView::Bi2xAnswer(
                match a {
                    Some(b) => Some(b@),
                    None => None,
                },
            ),
            IdentEvent::Reported => IdentEventView::Reported,
        }
    }
}

/// What the caller does next.
pub enum IdentAction {
    /// Open the link to the board at the speed of this firmware, then hand
    /// back `Opened`.
    Open(Bio2SerialFirmware),
    /// Send these bytes, then hand back `Sent`.
    Write(Vec<u8>),
    /// Send this BI2X frame, written for the board, then hand back `Sent`.
    SendBi2x(Bi2xFrame),
    /// Read a BI2A answer with a fresh response decoder, then hand back
    /// `Bi2aAnswer`.
    ReadBi2a,
    /// Read every byte that comes, then hand back `Bi2xAnswer`.
    ReadBi2x,
    /// Tell this, then hand back `Reported`.
    Report(IdentReport),
    /// The identification is over.
    Finish(Result<(), IdentFailure>),
}

pub enum IdentActionView {
    Open(Bio2SerialFirmware),
    Write(Seq<u8>),
    SendBi2x(Bi2xFrameView),
    ReadBi2a,
    ReadBi2x,
    Report(IdentReportView),
    Finish(Result<(), IdentFailureView>),
}

impl View for IdentAction {
    type V = IdentActionView;

    open spec fn view(&self) -> IdentActionView {
        match *self {
            IdentAction::Open(f) => IdentActionView::Open(f),
            IdentAction::Write(b) => IdentActionView::Write(b@),
            IdentAction::SendBi2x(f) => IdentActionView::SendBi2x(f@),
            IdentAction::ReadBi2a => IdentActionView::ReadBi2a,
            IdentAction::ReadBi2x => IdentActionView::ReadBi2x,
            IdentAction::Report(r) => IdentActionView::Report(r@),
            IdentAction::Finish(r) => IdentActionView::Finish(
                match r {
                    Ok(()) => Ok(()),
                    Err(e) => Err(e@),
                },
            ),
        }
    }
}

// ── the transitions ─────────────────────────────────────────────────────────

/// Whether the machine, at `stage`, takes `event`: the answer to the action
/// it gave last, or `Begin` at the start.
pub open spec fn ident_takes(stage: IdentStage, event: IdentEventView) -> bool {
    match stage {
        IdentStage::Start => event is Begin,
        IdentStage::Bi2aOpening | IdentStage::Bi2xOpening => event is Opened,
        IdentStage::Bi2aSending | IdentStage::InitSending { .. } | IdentStage::VersionSending => event is Sent,
        IdentStage::Bi2aReading => event is Bi2aAnswer,
        IdentStage::InitReading { .. } | IdentStage::VersionReading => event is Bi2xAnswer,
        IdentStage::Bi2aReporting | IdentStage::InitReporting { .. } | IdentStage::VersionReporting => event is Reported,
        IdentStage::Done => false,
    }
}

/// The responses of a BI2X answer, or why it does not give any.
pub open spec fn spec_bi2x_answer(bytes: Seq<u8>) -> Result<Seq<Bi2xResponseView>, IdentFailureView> {
    if parse_panics(bytes) {
        Err(IdentFailureView::FrameCut)
    } else {
        match spec_parse(bytes, true) {
            Err(e) => Err(IdentFailureView::FrameParseFailed(e)),
            Ok(f) => if f.node == 0x03 && payload_bytes(f).len() == 0 {
                Err(IdentFailureView::EmptyResponsePayload)
            } else {
                match spec_from_frame(f.node, payload_bytes(f)) {
                    Err(e) => Err(IdentFailureView::ResponseParseFailed(e)),
                    Ok(v) => Ok(v),
                }
            },
        }
    }
}

/// The end of the identification, with this failure.
pub open spec fn failed(e: IdentFailureView) -> (IdentStage, IdentActionView) {
    (IdentStage::Done, IdentActionView::Finish(Err(e)))
}

/// What the BI2A answer gives: its version when it is one with sequence
/// number 0, the end otherwise; no answer moves on to BI2X.
pub open spec fn bi2a_outcome(r: Result<CommandResponseView, Option<CommandResponseDecoderError>>) -> (IdentStage, IdentActionView) {
    match r {
        Ok(CommandResponseView::Version { sequence_number, major, minor, patch, name, date, time }) =>
            if sequence_number != 0 {
                failed(IdentFailureView::UnexpectedSequenceNumber(sequence_number))
            } else {
                (
                    IdentStage::Bi2aReporting,
                    IdentActionView::Report(IdentReportView::Bi2aVersion(
                        CommandResponseView::Version { sequence_number, major, minor, patch, name, date, time },
                    )),
                )
            },
        Ok(other) => failed(IdentFailureView::UnexpectedBi2aResponse(other)),
        Err(Some(e)) => failed(IdentFailureView::Bi2aDecodeFailed(e)),
        Err(None) => (IdentStage::Bi2aReporting, IdentActionView::Report(IdentReportView::NoBi2aAnswer)),
    }
}

/// What an answer to the `tries`-th initialisation gives.
pub open spec fn init_outcome(tries: u8, a: Option<Seq<u8>>) -> (IdentStage, IdentActionView) {
    match a {
        None => (IdentStage::InitReporting { tries }, IdentActionView::Report(IdentReportView::NoInitAnswer)),
        Some(bytes) => match spec_bi2x_answer(bytes) {
            Err(e) => failed(e),
            Ok(v) => if v.len() != 1 {
                failed(IdentFailureView::UnexpectedResponseCount(v.len() as usize))
            } else {
                match v[0] {
                    Bi2xResponseView::InitializationResult { success } => (
                        IdentStage::InitReporting { tries },
                        IdentActionView::Report(IdentReportView::InitResult { success }),
                    ),
                    other => failed(IdentFailureView::UnexpectedBi2xResponse(other)),
                }
            },
        },
    }
}

/// What an answer to the firmware version request gives.
pub open spec fn version_outcome(a: Option<Seq<u8>>) -> (IdentStage, IdentActionView) {
    match a {
        None => failed(IdentFailureView::NoFirmwareVersion),
        Some(bytes) => match spec_bi2x_answer(bytes) {
            Err(e) => failed(e),
            Ok(v) => if v.len() != 1 {
                failed(IdentFailureView::UnexpectedResponseCount(v.len() as usize))
            } else {
                match v[0] {
                    Bi2xResponseView::FirmwareVersion { timestamp_ms, .. } => (
                        IdentStage::VersionReporting,
                        IdentActionView::Report(IdentReportView::Bi2xFirmware { response: v[0], time: utc_text(timestamp_ms) }),
                    ),
                    other => failed(IdentFailureView::UnexpectedBi2xResponse(other)),
                }
            },
        },
    }
}

/// The initialisation frame: sequence number 1.
pub open spec fn init_frame() -> Bi2xFrameView {
    crate::bi2x_protocol::command::spec_to_frame(Bi2xCommand::Init, 1)
}

/// The firmware version request: sequence number 2.
pub open spec fn version_frame() -> Bi2xFrameView {
    crate::bi2x_protocol::command::spec_to_frame(Bi2xCommand::GetFirmwareVersion, 2)
}

/// What an event does at a stage, and what the caller does next.
pub open spec fn spec_ident_step(stage: IdentStage, event: IdentEventView) -> (IdentStage, IdentActionView) {
    match (stage, event) {
        (IdentStage::Start, IdentEventView::Begin) => (IdentStage::Bi2aOpening, IdentActionView::Open(Bio2SerialFirmware::Bi2a)),
        (IdentStage::Bi2aOpening, IdentEventView::Opened) => (
            IdentStage::Bi2aSending,
            IdentActionView::Write(crate::protocol::frame::host_command::spec_to_frame(HostCommand::Version, 0)),
        ),
        (IdentStage::Bi2aSending, IdentEventView::Sent) => (IdentStage::Bi2aReading, IdentActionView::ReadBi2a),
        (IdentStage::Bi2aReading, IdentEventView::Bi2aAnswer(r)) => bi2a_outcome(r),
        (IdentStage::Bi2aReporting, IdentEventView::Reported) => (IdentStage::Bi2xOpening, IdentActionView::Open(Bio2SerialFirmware::Bi2x)),
        (IdentStage::Bi2xOpening, IdentEventView::Opened) => (IdentStage::InitSending { tries: 1 }, IdentActionView::SendBi2x(init_frame())),
        (IdentStage::InitSending { tries }, IdentEventView::Sent) => (IdentStage::InitReading { tries }, IdentActionView::ReadBi2x),
        (IdentStage::InitReading { tries }, IdentEventView::Bi2xAnswer(a)) => init_outcome(tries, a),
        (IdentStage::InitReporting { tries }, IdentEventView::Reported) => if tries < 2 {
            (IdentStage::InitSending { tries: (tries + 1) as u8 }, IdentActionView::SendBi2x(init_frame()))
        } else {
            (IdentStage::VersionSending, IdentActionView::SendBi2x(version_frame()))
        },
        (IdentStage::VersionSending, IdentEventView::Sent) => (IdentStage::VersionReading, IdentActionView::ReadBi2x),
        (IdentStage::VersionReading, IdentEventView::Bi2xAnswer(a)) => version_outcome(a),
        (IdentStage::VersionReporting, IdentEventView::Reported) => (IdentStage::Done, IdentActionView::Finish(Ok(()))),
        _ => (IdentStage::Done, IdentActionView::Finish(Ok(()))),
    }
}

/// A frame the board can write and the identification can read back: it
/// writes out without error, its node is not the start byte, and its
/// payload, if any, is not empty and has a length that its encoding holds.
pub open spec fn readable_board_frame(f: Bi2xFrameView) -> bool {
    &&& to_bytes_error(f) is None
    &&& f.node != 0xAA
    &&& f.payload matches Some(p) ==> p.len() > 0 && vlq_exact(p.len() as int)
}

/// The identification reads a BI2X answer as a frame written by the board:
/// for the bytes of any frame `f` the board writes (encrypted or not), the
/// responses read are those of `f`'s payload at `f`'s node.
pub proof fn lemma_board_answer_read(f: Bi2xFrameView, bytes: Seq<u8>)
    requires
        readable_board_frame(f),
        frame_bytes_ok(f, false, bytes),
        f.payload is Some,
    ensures
        spec_bi2x_answer(bytes) == match spec_from_frame(f.node, f.payload->0) {
            Err(e) => Err::<Seq<Bi2xResponseView>, IdentFailureView>(IdentFailureView::ResponseParseFailed(e)),
            Ok(v) => Ok(v),
        },
{
    lemma_frame_roundtrip(f, false, bytes);
}

/// The board's answer to an initialisation, written as any frame carrying
/// one initialisation result, is reported with that result.
pub proof fn lemma_board_init_answer(tries: u8, f: Bi2xFrameView, bytes: Seq<u8>, success: bool)
    requires
        readable_board_frame(f),
        frame_bytes_ok(f, false, bytes),
        f.payload is Some,
        spec_from_frame(f.node, f.payload->0) == Ok::<Seq<Bi2xResponseView>, FrameToResponseError>(
            seq![Bi2xResponseView::InitializationResult { success }],
        ),
    ensures
        spec_ident_step(IdentStage::InitReading { tries }, IdentEventView::Bi2xAnswer(Some(bytes))) == (
            IdentStage::InitReporting { tries },
            IdentActionView::Report(IdentReportView::InitResult { success }),
        ),
{
    lemma_board_answer_read(f, bytes);
}

// ── the implementation ──────────────────────────────────────────────────────

/// Reads the responses of a BI2X answer.
fn read_bi2x_responses(bytes: &[u8]) -> (res: Result<Vec<Bi2xResponse>, IdentFailure>)
    ensures
        match res {
            Ok(v) => spec_bi2x_answer(bytes@) == Ok::<Seq<Bi2xResponseView>, IdentFailureView>(responses_view(v@)),
            Err(e) => spec_bi2x_answer(bytes@) == Err::<Seq<Bi2xResponseView>, IdentFailureView>(e@),
        },
{
    if !Bi2xFrame::parse_is_defined(bytes) {
        return Err(IdentFailure::FrameCut);
    }
    let frame: Bi2xFrame = match Bi2xFrame::parse(bytes, true) {
        Ok(f) => f,
        Err(e) => return Err(IdentFailure::FrameParseFailed(e)),
    };
    let empty: bool = match &frame.payload {
        None => true,
        Some(p) => p.len() == 0,
    };
    if frame.node == 0x03 && empty {
        return Err(IdentFailure::EmptyResponsePayload);
    }
    match Bi2xResponse::from_frame(frame) {
        Ok(v) => Ok(v),
        Err(e) => Err(IdentFailure::ResponseParseFailed(e)),
    }
}

/// A firmware version read from a board carries a time stamp of at most
/// `MAX_TIMESTAMP_MS`.
proof fn lemma_timestamp_bound(bytes: Seq<u8>)
    requires
        spec_bi2x_answer(bytes) matches Ok(v) && v.len() >= 1 && v[0] is FirmwareVersion,
    ensures
        spec_bi2x_answer(bytes) matches Ok(v) && v[0]->FirmwareVersion_timestamp_ms <= MAX_TIMESTAMP_MS,
{
    let f = spec_parse(bytes, true)->Ok_0;
    let p = payload_bytes(f);
    let (r, k) = spec_from_bytes(f.node, p)->Ok_0;
    if r is FirmwareVersion {
        let m = p[15] * 0x1000000 + p[16] * 0x10000 + p[17] * 0x100 + p[18];
        assert(0 <= m <= 0xFFFF_FFFF);
        assert(m * 60000 <= 0xFFFF_FFFF * 60000);
        assert(timestamp_of(p) == m * 60000);
    }
}

/// Takes what came of the last action at `stage` and says what to do next.
pub fn ident_step(stage: IdentStage, event: IdentEvent) -> (res: (IdentStage, IdentAction))
    requires
        ident_takes(stage, event@),
    ensures
        res.0 == spec_ident_step(stage, event@).0,
        res.1@ == spec_ident_step(stage, event@).1,
{
    match event {
        IdentEvent::Begin => (IdentStage::Bi2aOpening, IdentAction::Open(Bio2SerialFirmware::Bi2a)),
        IdentEvent::Opened => {
            if stage == IdentStage::Bi2aOpening {
                (IdentStage::Bi2aSending, IdentAction::Write(HostCommand::Version.to_frame(0)))
            } else {
                (IdentStage::InitSending { tries: 1 }, IdentAction::SendBi2x(Bi2xCommand::Init.to_frame(1)))
            }
        },
        IdentEvent::Sent => match stage {
            IdentStage::Bi2aSending => (IdentStage::Bi2aReading, IdentAction::ReadBi2a),
            IdentStage::InitSending { tries } => (IdentStage::InitReading { tries }, IdentAction::ReadBi2x),
            _ => (IdentStage::VersionReading, IdentAction::ReadBi2x),
        },
        IdentEvent::Bi2aAnswer(r) => match r {
            Ok(CommandResponse::Version { sequence_number, major, minor, patch, name, date, time }) => {
                if sequence_number != 0 {
                    (IdentStage::Done, IdentAction::Finish(Err(IdentFailure::UnexpectedSequenceNumber(sequence_number))))
                } else {
                    (
                        IdentStage::Bi2aReporting,
                        IdentAction::Report(IdentReport::Bi2aVersion(
                            CommandResponse::Version { sequence_number, major, minor, patch, name, date, time },
                        )),
                    )
                }
            },
            Ok(other) => (IdentStage::Done, IdentAction::Finish(Err(IdentFailure::UnexpectedBi2aResponse(other)))),
            Err(Some(e)) => (IdentStage::Done, IdentAction::Finish(Err(IdentFailure::Bi2aDecodeFailed(e)))),
            Err(None) => (IdentStage::Bi2aReporting, IdentAction::Report(IdentReport::NoBi2aAnswer)),
        },
        IdentEvent::Bi2xAnswer(a) => {
            let is_init: bool = match stage {
                IdentStage::InitReading { .. } => true,
                _ => false,
            };
            let tries: u8 = match stage {
                IdentStage::InitReading { tries } => tries,
                _ => 0,
            };
            match a {
                None => {
                    if is_init {
                        (IdentStage::InitReporting { tries }, IdentAction::Report(IdentReport::NoInitAnswer))
                    } else {
                        (IdentStage::Done, IdentAction::Finish(Err(IdentFailure::NoFirmwareVersion)))
                    }
                },
                Some(bytes) => {
                    let mut v: Vec<Bi2xResponse> = match read_bi2x_responses(bytes.as_slice()) {
                        Ok(v) => v,
                        Err(e) => return (IdentStage::Done, IdentAction::Finish(Err(e))),
                    };
                    if v.len() != 1 {
                        return (
                            IdentStage::Done,
                            IdentAction::Finish(Err(IdentFailure::UnexpectedResponseCount(v.len()))),
                        );
                    }
                    let ghost answer = bytes@;
                    let r: Bi2xResponse = v.remove(0);
                    if is_init {
                        match r {
                            Bi2xResponse::InitializationResult { success } => (
                                IdentStage::InitReporting { tries },
                                IdentAction::Report(IdentReport::InitResult { success }),
                            ),
                            other => (
                                IdentStage::Done,
                                IdentAction::Finish(Err(IdentFailure::UnexpectedBi2xResponse(other))),
                            ),
                        }
                    } else {
                        match r {
                            Bi2xResponse::FirmwareVersion { success, major, minor, patch, name, timestamp_ms } => {
                                proof {
                                    lemma_timestamp_bound(answer);
                                }
                                let time: String = format_utc(timestamp_ms);
                                (
                                    IdentStage::VersionReporting,
                                    IdentAction::Report(IdentReport::Bi2xFirmware {
                                        response: Bi2xResponse::FirmwareVersion {
                                            success,
                                            major,
                                            minor,
                                            patch,
                                            name,
                                            timestamp_ms,
                                        },
                                        time,
                                    }),
                                )
                            },
                            other => (
                                IdentStage::Done,
                                IdentAction::Finish(Err(IdentFailure::UnexpectedBi2xResponse(other))),
                            ),
                        }
                    }
                },
            }
        },
        IdentEvent::Reported => match stage {
            IdentStage::Bi2aReporting => (IdentStage::Bi2xOpening, IdentAction::Open(Bio2SerialFirmware::Bi2x)),
            IdentStage::InitReporting { tries } => {
                if tries < 2 {
                    (IdentStage::InitSending { tries: tries + 1 }, IdentAction::SendBi2x(Bi2xCommand::Init.to_frame(1)))
                } else {
                    (IdentStage::VersionSending, IdentAction::SendBi2x(Bi2xCommand::GetFirmwareVersion.to_frame(2)))
                }
            },
            _ => (IdentStage::Done, IdentAction::Finish(Ok(()))),
        },
    }
}

/// Whether `ident_step` takes `event` at `stage`.
pub fn ident_takes_event(stage: IdentStage, event: &IdentEvent) -> (b: bool)
    ensures
        b == ident_takes(stage, event@),
{
    match stage {
        IdentStage::Start => matches!(event, IdentEvent::Begin),
        IdentStage::Bi2aOpening | IdentStage::Bi2xOpening => matches!(event, IdentEvent::Opened),
        IdentStage::Bi2aSending | IdentStage::InitSending { .. } | IdentStage::VersionSending => matches!(event, IdentEvent::Sent),
        IdentStage::Bi2aReading => matches!(event, IdentEvent::Bi2aAnswer(_)),
        IdentStage::InitReading { .. } | IdentStage::VersionReading => matches!(event, IdentEvent::Bi2xAnswer(_)),
        IdentStage::Bi2aReporting | IdentStage::InitReporting { .. } | IdentStage::VersionReporting => matches!(event, IdentEvent::Reported),
        IdentStage::Done => false,
    }
}

} // verus!
