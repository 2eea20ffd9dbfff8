//! Responses of a BI2A board: the frame kinds it sends back and how they
//! are read.

use vstd::prelude::*;
use crate::text::{string_from_utf8_lossy, trim_end_nul, trim_trailing_nul, utf8_lossy};

verus! {

/// A response of a BI2A board.
#[derive(Debug, PartialEq, Eq)]
pub enum CommandResponse {
    /// Answer to a ping: the pong value is the ping value plus one.
    Pong { sequence_number: u8, pong_value: u8 },
    /// Version information; the name is `BI2A` or `BI2X`.
    Version { sequence_number: u8, major: u8, minor: u8, patch: u8, name: String, date: String, time: String },
    /// Answer to a start of flashing: whether the board entered flash mode.
    StartFlash { sequence_number: u8, ok: bool },
    /// Sent in flash mode when the board waits for the next block.
    ReadyForNextFlashBlock,
    /// The board says it is in flash mode.
    InFlashingModeOk,
    /// The board says it is not in flash mode, or failed.
    InFlashingModeNotOk,
    /// A block was written: its offset in the firmware and its decoded data.
    WriteBlockOk { firmware_offset: u16, block_data: [u8; 128] },
    /// A block could not be written.
    WriteBlockNotOk,
    /// Writing starts at `offset`.
    StartWriteOk { offset: u32 },
    /// Writing ended well.
    EndWriteOk,
    /// Writing ended badly.
    EndWriteNotOk,
}

/// A response with its text as characters and its block as a sequence.
pub enum CommandResponseView {
    Pong { sequence_number: u8, pong_value: u8 },
    Version {
        sequence_number: u8,
        major: u8,
        minor: u8,
        patch: u8,
        name: Seq<char>,
        date: Seq<char>,
        time: Seq<char>,
    },
    StartFlash { sequence_number: u8, ok: bool },
    ReadyForNextFlashBlock,
    InFlashingModeOk,
    InFlashingModeNotOk,
    WriteBlockOk { firmware_offset: u16, block_data: Seq<u8> },
    WriteBlockNotOk,
    StartWriteOk { offset: u32 },
    EndWriteOk,
    EndWriteNotOk,
}

impl View for CommandResponse {
    type V = CommandResponseView;

    open spec fn view(&self) -> CommandResponseView {
        match *self {
            CommandResponse::Pong { sequence_number, pong_value } => CommandResponseView::Pong { sequence_number, pong_value },
            CommandResponse::Version { sequence_number, major, minor, patch, name, date, time } =>
                CommandResponseView::Version { sequence_number, major, minor, patch, name: name@, date: date@, time: time@ },
            CommandResponse::StartFlash { sequence_number, ok } => CommandResponseView::StartFlash { sequence_number, ok },
            CommandResponse::ReadyForNextFlashBlock => CommandResponseView::ReadyForNextFlashBlock,
            CommandResponse::InFlashingModeOk => CommandResponseView::InFlashingModeOk,
            CommandResponse::InFlashingModeNotOk => CommandResponseView::InFlashingModeNotOk,
            CommandResponse::WriteBlockOk { firmware_offset, block_data } =>
                CommandResponseView::WriteBlockOk { firmware_offset, block_data: block_data@ },
            CommandResponse::WriteBlockNotOk => CommandResponseView::WriteBlockNotOk,
            CommandResponse::StartWriteOk { offset } => CommandResponseView::StartWriteOk { offset },
            CommandResponse::EndWriteOk => CommandResponseView::EndWriteOk,
            CommandResponse::EndWriteNotOk => CommandResponseView::EndWriteNotOk,
        }
    }
}

/// Why a frame is not a valid response.
#[derive(Debug, PartialEq, Eq)]
#[allow(inconsistent_fields)]
pub enum CommandResponseParseError {
    EmptyFrame,
    UnexpectedEndOfFrameAfterFF,
    MissingSourceByte,
    InvalidSourceByte(u8),
    MissingCommandCode,
    MissingSequenceNumber,
    MissingPayloadLength,
    InvalidFrameLength { expected: usize, actual: usize },
    ChecksumMismatch { expected: u8, actual: u8 },
    InvalidA2CommandByte1(u8),
    InvalidFirmwareOffsetChecksum { expected: u8, calculated: u8 },
    InvalidFirmwareBlockDataChecksum { expected: u8, calculated: u8 },
    InvalidPayloadLength { expected: usize, actual: usize },
    UnknownCommand { code: u16, payload: Vec<u8> },
    UnknownStartByte(u8),
}

/// A parse error with its payload as a sequence.
#[allow(inconsistent_fields)]
pub enum CommandResponseParseErrorView {
    EmptyFrame,
    UnexpectedEndOfFrameAfterFF,
    MissingSourceByte,
    InvalidSourceByte(u8),
    MissingCommandCode,
    MissingSequenceNumber,
    MissingPayloadLength,
    InvalidFrameLength { expected: usize, actual: usize },
    ChecksumMismatch { expected: u8, actual: u8 },
    InvalidA2CommandByte1(u8),
    InvalidFirmwareOffsetChecksum { expected: u8, calculated: u8 },
    InvalidFirmwareBlockDataChecksum { expected: u8, calculated: u8 },
    InvalidPayloadLength { expected: usize, actual: usize },
    UnknownCommand { code: u16, payload: Seq<u8> },
    UnknownStartByte(u8),
}

impl View for CommandResponseParseError {
    type V = CommandResponseParseErrorView;

    open spec fn view(&self) -> CommandResponseParseErrorView {
        match *self {
            CommandResponseParseError::EmptyFrame => CommandResponseParseErrorView::EmptyFrame,
            CommandResponseParseError::UnexpectedEndOfFrameAfterFF => CommandResponseParseErrorView::UnexpectedEndOfFrameAfterFF,
            CommandResponseParseError::MissingSourceByte => CommandResponseParseErrorView::MissingSourceByte,
            CommandResponseParseError::InvalidSourceByte(b) => CommandResponseParseErrorView::InvalidSourceByte(b),
            CommandResponseParseError::MissingCommandCode => CommandResponseParseErrorView::MissingCommandCode,
            CommandResponseParseError::MissingSequenceNumber => CommandResponseParseErrorView::MissingSequenceNumber,
            CommandResponseParseError::MissingPayloadLength => CommandResponseParseErrorView::MissingPayloadLength,
            CommandResponseParseError::InvalidFrameLength { expected, actual } =>
                CommandResponseParseErrorView::InvalidFrameLength { expected, actual },
            CommandResponseParseError::ChecksumMismatch { expected, actual } =>
                CommandResponseParseErrorView::ChecksumMismatch { expected, actual },
            CommandResponseParseError::InvalidA2CommandByte1(b) => CommandResponseParseErrorView::InvalidA2CommandByte1(b),
            CommandResponseParseError::InvalidFirmwareOffsetChecksum { expected, calculated } =>
                CommandResponseParseErrorView::InvalidFirmwareOffsetChecksum { expected, calculated },
            CommandResponseParseError::InvalidFirmwareBlockDataChecksum { expected, calculated } =>
                CommandResponseParseErrorView::InvalidFirmwareBlockDataChecksum { expected, calculated },
            CommandResponseParseError::InvalidPayloadLength { expected, actual } =>
                CommandResponseParseErrorView::InvalidPayloadLength { expected, actual },
            CommandResponseParseError::UnknownCommand { code, payload } =>
                CommandResponseParseErrorView::UnknownCommand { code, payload: payload@ },
            CommandResponseParseError::UnknownStartByte(b) => CommandResponseParseErrorView::UnknownStartByte(b),
        }
    }
}

/// What parsing gives, with views.
pub type ParseResult = Result<CommandResponseView, CommandResponseParseErrorView>;

/// A parse result and its view agree.
pub open spec fn result_view(r: Result<CommandResponse, CommandResponseParseError>) -> ParseResult {
    match r {
        Ok(v) => Ok(v@),
        Err(e) => Err(e@),
    }
}

// ── the payload of an AA frame ──────────────────────────────────────────────

/// A text field: the bytes decoded as by `String::from_utf8_lossy`, without
/// trailing NULs.
pub open spec fn text_field(bytes: Seq<u8>) -> Seq<char> {
    trim_trailing_nul(utf8_lossy(bytes))
}

/// The response an `AA` frame carries, from its sequence number, command
/// code and payload.
pub open spec fn spec_from_aa_payload(sequence_number: u8, command_code: u16, p: Seq<u8>) -> ParseResult {
    if command_code == 0x0001 {
        if p.len() != 1 {
            Err(CommandResponseParseErrorView::InvalidPayloadLength { expected: 1, actual: p.len() as usize })
        } else {
            Ok(CommandResponseView::Pong { sequence_number, pong_value: p[0] })
        }
    } else if command_code == 0x0002 {
        if p.len() != 44 {
            Err(CommandResponseParseErrorView::InvalidPayloadLength { expected: 44, actual: p.len() as usize })
        } else {
            Ok(CommandResponseView::Version {
                sequence_number,
                major: p[5],
                minor: p[6],
                patch: p[7],
                name: text_field(p.subrange(8, 12)),
                date: text_field(p.subrange(12, 23)),
                time: text_field(p.subrange(28, 37)),
            })
        }
    } else if command_code == 0x0004 {
        if p.len() != 1 {
            Err(CommandResponseParseErrorView::InvalidPayloadLength { expected: 1, actual: p.len() as usize })
        } else {
            Ok(CommandResponseView::StartFlash { sequence_number, ok: p[0] == 0x00 })
        }
    } else {
        Err(CommandResponseParseErrorView::UnknownCommand { code: command_code, payload: p })
    }
}

/// The sum of `s`.
pub open spec fn byte_sum(s: Seq<u8>) -> nat
    decreases s.len(),
{
    if s.len() == 0 { 0 } else { (byte_sum(s.drop_last()) + s.last()) as nat }
}

/// The checksum of `s`: the sum of its bytes modulo 256.
pub open spec fn checksum8(s: Seq<u8>) -> u8 {
    (byte_sum(s) % 256) as u8
}

/// An `AA` frame: two start bytes, source, command code (big endian),
/// sequence number, payload length, payload, and the checksum of everything
/// after the start bytes.
pub open spec fn spec_parse_aa(f: Seq<u8>) -> ParseResult {
    if f.len() < 3 {
        Err(CommandResponseParseErrorView::MissingSourceByte)
    } else if f.len() < 5 {
        Err(CommandResponseParseErrorView::MissingCommandCode)
    } else if f.len() < 6 {
        Err(CommandResponseParseErrorView::MissingSequenceNumber)
    } else if f.len() < 7 {
        Err(CommandResponseParseErrorView::MissingPayloadLength)
    } else if f.len() != 8 + f[6] {
        Err(CommandResponseParseErrorView::InvalidFrameLength { expected: (8 + f[6]) as usize, actual: f.len() as usize })
    } else {
        let end = 7 + f[6];
        let expected = checksum8(f.subrange(2, end));
        if f[end] != expected {
            Err(CommandResponseParseErrorView::ChecksumMismatch { expected, actual: f[end] })
        } else {
            spec_from_aa_payload(f[5], (f[3] * 256 + f[4]) as u16, f.subrange(7, end))
        }
    }
}

// ── the other frame kinds ───────────────────────────────────────────────────

pub open spec fn spec_parse_a0(f: Seq<u8>) -> ParseResult {
    if f.len() != 1 {
        Err(CommandResponseParseErrorView::InvalidFrameLength { expected: 1, actual: f.len() as usize })
    } else {
        Ok(CommandResponseView::ReadyForNextFlashBlock)
    }
}

pub open spec fn spec_parse_a1(f: Seq<u8>) -> ParseResult {
    if f.len() != 2 {
        Err(CommandResponseParseErrorView::InvalidFrameLength { expected: 2, actual: f.len() as usize })
    } else if f[1] != 0xAC {
        Ok(CommandResponseView::InFlashingModeNotOk)
    } else {
        Ok(CommandResponseView::InFlashingModeOk)
    }
}

/// Byte `j` of the block an `A2` frame carries: each byte is XOR-ed with the
/// byte decoded before it, the first one with `key`.
pub open spec fn a2_block_byte(f: Seq<u8>, key: u8, j: nat) -> u8
    decreases j,
{
    if j == 0 {
        f[5] ^ key
    } else {
        f[5 + j as int] ^ a2_block_byte(f, key, (j - 1) as nat)
    }
}

/// The high byte of the firmware offset of an `A2` frame.
pub open spec fn a2_offset_hi(f: Seq<u8>) -> u8 {
    f[2] ^ 0xFE
}

/// The low byte of the firmware offset of an `A2` frame.
pub open spec fn a2_offset_lo(f: Seq<u8>) -> u8 {
    f[3] ^ a2_offset_hi(f)
}

/// An `A2` frame: a written block, with its offset in the firmware, both
/// obfuscated, and two checksums.
pub open spec fn spec_parse_a2(f: Seq<u8>) -> ParseResult {
    if f.len() != 135 {
        Err(CommandResponseParseErrorView::InvalidFrameLength { expected: 135, actual: f.len() as usize })
    } else if f[1] != 0x4B {
        Err(CommandResponseParseErrorView::InvalidA2CommandByte1(f[1]))
    } else if f[4] != ((0x4B + f[2] + f[3]) % 256) as u8 {
        Err(CommandResponseParseErrorView::InvalidFirmwareOffsetChecksum {
            expected: f[4],
            calculated: ((0x4B + f[2] + f[3]) % 256) as u8,
        })
    } else if f[133] != checksum8(f.subrange(5, 133)) {
        Err(CommandResponseParseErrorView::InvalidFirmwareBlockDataChecksum {
            expected: f[133],
            calculated: checksum8(f.subrange(5, 133)),
        })
    } else if f[134] != 0xAC {
        Ok(CommandResponseView::WriteBlockNotOk)
    } else {
        Ok(CommandResponseView::WriteBlockOk {
            firmware_offset: (a2_offset_hi(f) * 256 + a2_offset_lo(f)) as u16,
            block_data: Seq::new(128, |j: int| a2_block_byte(f, a2_offset_lo(f) ^ f[4], j as nat)),
        })
    }
}

pub open spec fn spec_parse_a8(f: Seq<u8>) -> ParseResult {
    if f.len() == 5 {
        Ok(CommandResponseView::StartWriteOk { offset: (f[1] * 0x1000000 + f[2] * 0x10000 + f[3] * 0x100 + f[4]) as u32 })
    } else if f.len() == 2 {
        if f[1] == 0xAC {
            Ok(CommandResponseView::EndWriteOk)
        } else {
            Ok(CommandResponseView::EndWriteNotOk)
        }
    } else {
        Err(CommandResponseParseErrorView::InvalidFrameLength { expected: 5, actual: f.len() as usize })
    }
}

// ── escaping and dispatch ───────────────────────────────────────────────────

/// Removes `0xFF` escapes: `0xFF` then `b` stands for the inverse of `b`.
/// `None` when the bytes end on an escaping `0xFF`.
pub open spec fn unescape_ff(s: Seq<u8>) -> Option<Seq<u8>>
    decreases s.len(),
{
    if s.len() == 0 {
        Some(Seq::empty())
    } else if s[0] == 0xFF {
        if s.len() < 2 {
            None
        } else {
            match unescape_ff(s.skip(2)) {
                Some(r) => Some(seq![!s[1]] + r),
                None => None,
            }
        }
    } else {
        match unescape_ff(s.drop_first()) {
            Some(r) => Some(seq![s[0]] + r),
            None => None,
        }
    }
}

/// Number of leading bytes a frame keeps as they are when unescaped: two for
/// an `AA` frame, one otherwise.
pub open spec fn unescaped_prefix(f: Seq<u8>) -> nat {
    if f[0] == 0xAA { 2 } else { 1 }
}

/// Unescapes a non-empty frame.
pub open spec fn spec_unescape_frame(f: Seq<u8>) -> Result<Seq<u8>, CommandResponseParseErrorView> {
    let i = unescaped_prefix(f);
    if f.len() < i {
        Err(CommandResponseParseErrorView::InvalidFrameLength { expected: i as usize, actual: f.len() as usize })
    } else {
        match unescape_ff(f.skip(i as int)) {
            Some(r) => Ok(f.take(i as int) + r),
            None => Err(CommandResponseParseErrorView::UnexpectedEndOfFrameAfterFF),
        }
    }
}

/// Reads an unescaped frame by its first byte.
pub open spec fn spec_parse_unescaped(f: Seq<u8>) -> ParseResult {
    if f[0] == 0xAA {
        spec_parse_aa(f)
    } else if f[0] == 0xA0 {
        spec_parse_a0(f)
    } else if f[0] == 0xA1 {
        spec_parse_a1(f)
    } else if f[0] == 0xA2 {
        spec_parse_a2(f)
    } else if f[0] == 0xA8 {
        spec_parse_a8(f)
    } else {
        Err(CommandResponseParseErrorView::UnknownStartByte(f[0]))
    }
}

/// What `from_frame` gives for `frame`.
pub open spec fn spec_from_frame(frame: Seq<u8>, unescape: bool) -> ParseResult {
    if frame.len() == 0 {
        Err(CommandResponseParseErrorView::EmptyFrame)
    } else if unescape {
        match spec_unescape_frame(frame) {
            Ok(f) => spec_parse_unescaped(f),
            Err(e) => Err(e),
        }
    } else {
        spec_parse_unescaped(frame)
    }
}

/// `a` followed by what `rest` holds, if anything.
pub open spec fn opt_prepend(a: Seq<u8>, rest: Option<Seq<u8>>) -> Option<Seq<u8>> {
    match rest {
        Some(r) => Some(a + r),
        None => None,
    }
}

pub(crate) proof fn lemma_big_endian(a: u8, b: u8, c: u8, d: u8)
    by (bit_vector)
    ensures
        ((a as u16) << 8) | (b as u16) == a * 256 + b,
        ((((a as u16) << 8) | (b as u16)) >> 8) as u8 == a,
        ((((a as u16) << 8) | (b as u16)) & 0xFF) as u8 == b,
        ((a as u32) << 24) | ((b as u32) << 16) | ((c as u32) << 8) | (d as u32)
            == a * 0x1000000 + b * 0x10000 + c * 0x100 + d,
{
}

proof fn lemma_sum_push(s: Seq<u8>, x: u8)
    ensures
        byte_sum(s.push(x)) == byte_sum(s) + x,
{
    assert(s.push(x).drop_last() =~= s);
}

proof fn lemma_wrapping_sum(total: nat, acc: u8, b: u8)
    requires
        acc == total % 256,
    ensures
        (if acc + b > 255 { acc + b - 256 } else { acc + b }) == (total + b) % 256,
{
    let q = total / 256;
    assert(total == 256 * q + acc) by (nonlinear_arith)
        requires
            acc == total % 256,
            q == total / 256;
    if acc + b > 255 {
        assert((total + b) % 256 == acc + b - 256) by (nonlinear_arith)
            requires
                total + b == 256 * (q + 1) + (acc + b - 256),
                0 <= acc + b - 256 < 256;
    } else {
        assert((total + b) % 256 == acc + b) by (nonlinear_arith)
            requires
                total + b == 256 * q + (acc + b),
                0 <= acc + b < 256;
    }
}

/// The sum of `bytes` modulo 256.
pub(crate) fn checksum(bytes: &[u8]) -> (sum: u8)
    ensures
        sum == checksum8(bytes@),
{
    let mut acc: u8 = 0;
    let mut i: usize = 0;
    while i < bytes.len()
        invariant
            i <= bytes.len(),
            acc == byte_sum(bytes@.take(i as int)) % 256,
        decreases bytes.len() - i,
    {
        let b: u8 = bytes[i];
        proof {
            lemma_wrapping_sum(byte_sum(bytes@.take(i as int)), acc, b);
            assert(bytes@.take(i + 1) =~= bytes@.take(i as int).push(b));
            lemma_sum_push(bytes@.take(i as int), b);
        }
        acc = acc.wrapping_add(b);
        i += 1;
    }
    assert(bytes@.take(bytes.len() as int) =~= bytes@);
    acc
}

/// Decodes the 128 data bytes of an `A2` frame, the first with `key`, and
/// sums the encoded bytes.
pub(crate) fn decode_a2_block(frame: &[u8], key: u8) -> (res: ([u8; 128], u64))
    requires
        frame.len() >= 133,
    ensures
        res.0@ == Seq::new(128, |j: int| a2_block_byte(frame@, key, j as nat)),
        res.1 == byte_sum(frame@.subrange(5, 133)),
{
    let ghost f = frame@;
    let mut key_byte: u8 = key;
    let mut decoded_block: [u8; 128] = [0u8; 128];
    let mut checksum: u64 = 0;

    let mut i: usize = 0;
    while i < 64
        invariant
            f == frame@,
            f.len() >= 133,
            i <= 64,
            decoded_block@.len() == 128,
            forall|j: int| 0 <= j < 2 * i ==> decoded_block@[j] == a2_block_byte(f, key, j as nat),
            i == 0 ==> key_byte == key,
            i > 0 ==> key_byte == a2_block_byte(f, key, (2 * i - 1) as nat),
            checksum == byte_sum(f.subrange(5, 5 + 2 * i)),
            checksum <= 510 * i,
        decreases 64 - i,
    {
        let enc1: u8 = frame[5 + i * 2] ^ key_byte;
        let enc2: u8 = frame[6 + i * 2] ^ enc1;
        assert(enc1 == a2_block_byte(f, key, (2 * i) as nat));
        assert(enc2 == a2_block_byte(f, key, (2 * i + 1) as nat));
        key_byte = enc2;
        decoded_block[i * 2] = enc1;
        decoded_block[i * 2 + 1] = enc2;
        proof {
            let s0 = f.subrange(5, 5 + 2 * i);
            let s1 = f.subrange(5, 5 + 2 * i + 1);
            let s2 = f.subrange(5, 5 + 2 * i + 2);
            assert(s1 =~= s0.push(f[5 + 2 * i]));
            assert(s2 =~= s1.push(f[6 + 2 * i]));
            lemma_sum_push(s0, f[5 + 2 * i]);
            lemma_sum_push(s1, f[6 + 2 * i]);
        }
        checksum += frame[5 + i * 2] as u64 + frame[6 + i * 2] as u64;
        i += 1;
    }
    assert(decoded_block@ =~= Seq::new(128, |j: int| a2_block_byte(f, key, j as nat)));
    (decoded_block, checksum)
}

impl CommandResponse {
    #[verifier::rlimit(30)]
    fn from_aa_seq_command_and_payload(
        sequence_number: u8,
        command_code: u16,
        payload: &[u8],
    ) -> (res: Result<Self, CommandResponseParseError>)
        ensures
            result_view(res) == spec_from_aa_payload(sequence_number, command_code, payload@),
    {
        match command_code {
            0x0001 => {
                if payload.len() != 1 {
                    return Err(CommandResponseParseError::InvalidPayloadLength { expected: 1, actual: payload.len() });
                }
                Ok(CommandResponse::Pong { sequence_number, pong_value: payload[0] })
            },
            0x0002 => {
                if payload.len() != 44 {
                    return Err(CommandResponseParseError::InvalidPayloadLength { expected: 44, actual: payload.len() });
                }
                let name: String = trim_end_nul(string_from_utf8_lossy(vstd::slice::slice_subrange(payload, 8, 12)).as_str());
                let date: String = trim_end_nul(string_from_utf8_lossy(vstd::slice::slice_subrange(payload, 12, 23)).as_str());
                let time: String = trim_end_nul(string_from_utf8_lossy(vstd::slice::slice_subrange(payload, 28, 37)).as_str());
                Ok(CommandResponse::Version {
                    sequence_number,
                    major: payload[5],
                    minor: payload[6],
                    patch: payload[7],
                    name,
                    date,
                    time,
                })
            },
            0x0004 => {
                if payload.len() != 1 {
                    return Err(CommandResponseParseError::InvalidPayloadLength { expected: 1, actual: payload.len() });
                }
                Ok(CommandResponse::StartFlash { sequence_number, ok: payload[0] == 0x00 })
            },
            _ => Err(CommandResponseParseError::UnknownCommand {
                code: command_code,
                payload: vstd::slice::slice_to_vec(payload),
            }),
        }
    }

    fn parse_aa_frame(frame: &[u8]) -> (res: Result<Self, CommandResponseParseError>)
        ensures
            result_view(res) == spec_parse_aa(frame@),
    {
        if frame.len() < 3 {
            return Err(CommandResponseParseError::MissingSourceByte);
        }
        // The source byte is not checked.
        if frame.len() < 5 {
            return Err(CommandResponseParseError::MissingCommandCode);
        }
        proof {
            lemma_big_endian(frame@[3], frame@[4], 0, 0);
        }
        let command_code: u16 = ((frame[3] as u16) << 8) | (frame[4] as u16);

        if frame.len() < 6 {
            return Err(CommandResponseParseError::MissingSequenceNumber);
        }
        let sequence_number: u8 = frame[5];

        if frame.len() < 7 {
            return Err(CommandResponseParseError::MissingPayloadLength);
        }
        let payload_length: u8 = frame[6];

        // 7 bytes before the payload, the payload, then the checksum
        let expected_length: usize = 7 + payload_length as usize + 1;
        if frame.len() != expected_length {
            return Err(CommandResponseParseError::InvalidFrameLength { expected: expected_length, actual: frame.len() });
        }

        let end: usize = 7 + payload_length as usize;
        let payload: &[u8] = vstd::slice::slice_subrange(frame, 7, end);
        let checksum_byte: u8 = frame[end];

        // Simple sum of all bytes after the start bytes, modulo 256
        let calculated_checksum: u8 = checksum(vstd::slice::slice_subrange(frame, 2, end));
        if checksum_byte != calculated_checksum {
            return Err(CommandResponseParseError::ChecksumMismatch { expected: calculated_checksum, actual: checksum_byte });
        }

        Self::from_aa_seq_command_and_payload(sequence_number, command_code, payload)
    }

    fn parse_a0_frame(frame: &[u8]) -> (res: Result<Self, CommandResponseParseError>)
        ensures
            result_view(res) == spec_parse_a0(frame@),
    {
        if frame.len() != 1 {
            return Err(CommandResponseParseError::InvalidFrameLength { expected: 1, actual: frame.len() });
        }
        Ok(CommandResponse::ReadyForNextFlashBlock)
    }

    fn parse_a1_frame(frame: &[u8]) -> (res: Result<Self, CommandResponseParseError>)
        ensures
            result_view(res) == spec_parse_a1(frame@),
    {
        if frame.len() != 2 {
            return Err(CommandResponseParseError::InvalidFrameLength { expected: 2, actual: frame.len() });
        }
        if frame[1] != 0xAC {
            Ok(CommandResponse::InFlashingModeNotOk)
        } else {
            Ok(CommandResponse::InFlashingModeOk)
        }
    }

    #[verifier::rlimit(30)]
    fn parse_a2_frame(frame: &[u8]) -> (res: Result<Self, CommandResponseParseError>)
        ensures
            result_view(res) == spec_parse_a2(frame@),
    {
        if frame.len() != 135 {
            return Err(CommandResponseParseError::InvalidFrameLength { expected: 135, actual: frame.len() });
        }

        // 0x4B ^ 0xB5 = 0xFE, the start of the firmware offset on the board
        if frame[1] != 0x4B {
            return Err(CommandResponseParseError::InvalidA2CommandByte1(frame[1]));
        }

        let hi: u8 = frame[2] ^ 0xFE;
        let lo: u8 = frame[3] ^ hi;
        proof {
            lemma_big_endian(hi, lo, 0, 0);
        }
        let firmware_offset: u16 = ((hi as u16) << 8) | (lo as u16);

        let firmware_offset_checksum: u8 = frame[4];
        let calculated_checksum: u64 = (0x4b + frame[2] as u64 + frame[3] as u64) % 256;
        if firmware_offset_checksum != calculated_checksum as u8 {
            return Err(CommandResponseParseError::InvalidFirmwareOffsetChecksum {
                expected: firmware_offset_checksum,
                calculated: calculated_checksum as u8,
            });
        }

        let ghost f = frame@;
        let (decoded_block, checksum): ([u8; 128], u64) = decode_a2_block(frame, lo ^ frame[4]);
        let final_checksum: u8 = (checksum % 256) as u8;
        if frame[133] != final_checksum {
            return Err(CommandResponseParseError::InvalidFirmwareBlockDataChecksum {
                expected: frame[133],
                calculated: final_checksum,
            });
        }

        if frame[134] != 0xAC {
            Ok(CommandResponse::WriteBlockNotOk)
        } else {
            Ok(CommandResponse::WriteBlockOk { firmware_offset, block_data: decoded_block })
        }
    }

    fn parse_a8_frame(frame: &[u8]) -> (res: Result<Self, CommandResponseParseError>)
        ensures
            result_view(res) == spec_parse_a8(frame@),
    {
        if frame.len() == 5 {
            proof {
                lemma_big_endian(frame@[1], frame@[2], frame@[3], frame@[4]);
            }
            Ok(CommandResponse::StartWriteOk {
                offset: ((frame[1] as u32) << 24) | ((frame[2] as u32) << 16) | ((frame[3] as u32) << 8)
                    | (frame[4] as u32),
            })
        } else if frame.len() == 2 {
            if frame[1] == 0xAC {
                Ok(CommandResponse::EndWriteOk)
            } else {
                Ok(CommandResponse::EndWriteNotOk)
            }
        } else {
            Err(CommandResponseParseError::InvalidFrameLength { expected: 5, actual: frame.len() })
        }
    }

    /// Undoes the `0xFF` escapes of a frame after its leading bytes.
    fn unescape_frame(frame: &[u8]) -> (res: Result<Vec<u8>, CommandResponseParseError>)
        requires
            frame.len() > 0,
        ensures
            match res {
                Ok(v) => spec_unescape_frame(frame@) == Ok::<Seq<u8>, CommandResponseParseErrorView>(v@) && v@.len() > 0,
                Err(e) => spec_unescape_frame(frame@) == Err::<Seq<u8>, CommandResponseParseErrorView>(e@),
            },
    {
        let mut unescaped: Vec<u8> = Vec::new();
        let mut i: usize = if frame[0] == 0xAA { 2 } else { 1 };

        let mut j: usize = 0;
        while j < i
            invariant
                i == unescaped_prefix(frame@),
                j <= i,
                j <= frame.len(),
                unescaped@ == frame@.take(j as int),
            decreases i - j,
        {
            if j >= frame.len() {
                return Err(CommandResponseParseError::InvalidFrameLength { expected: i, actual: frame.len() });
            }
            unescaped.push(frame[j]);
            j += 1;
            assert(unescaped@ =~= frame@.take(j as int));
        }
        let ghost start = i as int;
        assert(frame@.skip(start) =~= frame@.skip(i as int));

        while i < frame.len()
            invariant
                start <= i <= frame.len(),
                start >= 1,
                start == unescaped_prefix(frame@),
                unescaped@.len() >= 1,
                opt_prepend(unescaped@, unescape_ff(frame@.skip(i as int)))
                    == opt_prepend(frame@.take(start), unescape_ff(frame@.skip(start))),
            decreases frame.len() - i,
        {
            let ghost rest = frame@.skip(i as int);
            let ghost before = unescaped@;
            if frame[i] == 0xFF {
                if i + 1 >= frame.len() {
                    assert(unescape_ff(rest) is None);
                    return Err(CommandResponseParseError::UnexpectedEndOfFrameAfterFF);
                }
                unescaped.push(!frame[i + 1]);
                assert(rest.skip(2) =~= frame@.skip(i + 2));
                i += 1;
                proof {
                    match unescape_ff(rest.skip(2)) {
                        Some(r) => {
                            assert(unescaped@ + r =~= before + (seq![!rest[1]] + r));
                        },
                        None => {},
                    }
                }
            } else {
                unescaped.push(frame[i]);
                assert(rest.drop_first() =~= frame@.skip(i + 1));
                proof {
                    match unescape_ff(rest.drop_first()) {
                        Some(r) => {
                            assert(unescaped@ + r =~= before + (seq![rest[0]] + r));
                        },
                        None => {},
                    }
                }
            }
            i += 1;
        }
        assert(frame@.skip(i as int) =~= Seq::<u8>::empty());
        assert(unescaped@ + Seq::<u8>::empty() =~= unescaped@);
        Ok(unescaped)
    }

    /// Reads a response frame; `unescape` tells whether the `0xFF` escapes
    /// after its leading bytes are still in it.
    pub fn from_frame(frame: &[u8], unescape: bool) -> (res: Result<Self, CommandResponseParseError>)
        ensures
            result_view(res) == spec_from_frame(frame@, unescape),
    {
        if frame.len() == 0 {
            return Err(CommandResponseParseError::EmptyFrame);
        }

        let escaped_frame: Vec<u8> = if unescape {
            match Self::unescape_frame(frame) {
                Ok(v) => v,
                Err(e) => return Err(e),
            }
        } else {
            vstd::slice::slice_to_vec(frame)
        };

        if escaped_frame[0] == 0xAA {
            CommandResponse::parse_aa_frame(escaped_frame.as_slice())
        } else if escaped_frame[0] == 0xA0 {
            CommandResponse::parse_a0_frame(escaped_frame.as_slice())
        } else if escaped_frame[0] == 0xA1 {
            CommandResponse::parse_a1_frame(escaped_frame.as_slice())
        } else if escaped_frame[0] == 0xA2 {
            CommandResponse::parse_a2_frame(escaped_frame.as_slice())
        } else if escaped_frame[0] == 0xA8 {
            CommandResponse::parse_a8_frame(escaped_frame.as_slice())
        } else {
            Err(CommandResponseParseError::UnknownStartByte(escaped_frame[0]))
        }
    }
}

} // verus!
