//! BI2X frames: a start marker, a header (node, sequence number, length in a
//! variable-length encoding, flags with a CRC-4), and a payload that may be
//! escaped, compressed or byte-substituted, encrypted, and closed by a CRC-7.

use vstd::prelude::*;
use crate::compression::mc_lz::{deflate, inflate, spec_deflate, spec_inflate};
use crate::crypt::bi2x_payload::{
    decrypt_bi2x_payload, decrypt_seed, encrypt_bi2x_payload, encrypt_seed, lemma_scramble_stream_len,
    scramble_stream,
};

verus! {

/// How a frame's payload is laid out on the wire.
#[derive(Debug, Clone, Copy, PartialEq, Eq, Structural)]
pub enum Bi2xFrameMode {
    /// Flag bits (1, 0, 0): the payload is MC_LZ compressed.
    Compressed,
    /// Flag bits (0, 1, 0): the payload is sent as is.
    Raw,
    /// Flag bits (0, 0, 0): `0xFF` escapes the next byte, which is sent inverted.
    Escaped,
    /// Flag bits (0, 1, 1): a substitution byte stands for every `0xAA`.
    ByteSubstitution,
}

/// A BI2X frame.
#[derive(Debug, PartialEq, Eq)]
pub struct Bi2xFrame {
    pub node: u8,
    pub sequence_number: u8,
    pub mode: Bi2xFrameMode,
    pub is_encrypted: bool,
    pub payload: Option<Vec<u8>>,
}

/// A frame with its payload as a sequence.
pub struct Bi2xFrameView {
    pub node: u8,
    pub sequence_number: u8,
    pub mode: Bi2xFrameMode,
    pub is_encrypted: bool,
    pub payload: Option<Seq<u8>>,
}

impl View for Bi2xFrame {
    type V = Bi2xFrameView;

    open spec fn view(&self) -> Bi2xFrameView {
        Bi2xFrameView {
            node: self.node,
            sequence_number: self.sequence_number,
            mode: self.mode,
            is_encrypted: self.is_encrypted,
            payload: match self.payload {
                Some(p) => Some(p@),
                None => None,
            },
        }
    }
}

/// Why a byte sequence is not a frame.
#[derive(Debug)]
#[allow(inconsistent_fields)]
pub enum Bi2xFrameParseError {
    EmptyFrame,
    InvalidStartMarker(u8),
    InvalidFrameLength { expected: usize, actual: usize },
    LengthTooLong,
    InvalidLengthByte,
    LengthTruncated,
    LengthOverflow,
    InvalidFrameMode(u8),
    HeaderCrcMismatch { expected: u8, actual: u8 },
    PayloadCrcMismatch { expected: u8, actual: u8 },
    EmptyPayloadAtWrongTime,
}

/// Why a frame cannot be written out.
#[derive(Debug)]
pub enum Bi2xFrameToBytesError {
    LengthOverflow,
    NoSuitableSubstitutionByte,
}

// ── variable-length payload length ──────────────────────────────────────────

/// Decodes the length from byte `i` of `data` on, with `val` read so far.
/// Bytes `0xC0..=0xFF` carry six bits and continue (at most four of them),
/// bytes `0x00..=0x7F` carry seven bits and end the length, and bytes
/// `0x80..=0xBF` are invalid. The result is the length and the number of
/// bytes it took.
pub open spec fn vlq_decode_from(data: Seq<u8>, i: nat, val: nat) -> Result<(nat, nat), Bi2xFrameParseError>
    decreases data.len() - i,
{
    if i >= data.len() {
        Err(Bi2xFrameParseError::LengthTruncated)
    } else if data[i as int] >= 0xC0 {
        if i >= 4 {
            Err(Bi2xFrameParseError::LengthTooLong)
        } else {
            vlq_decode_from(data, i + 1, (val * 64 + (data[i as int] - 0xC0)) as nat)
        }
    } else if data[i as int] < 0x80 {
        Ok(((val * 128 + data[i as int]) as nat, i + 1))
    } else {
        Err(Bi2xFrameParseError::InvalidLengthByte)
    }
}

/// The length encoded at the start of `data`.
pub open spec fn vlq_decode(data: Seq<u8>) -> Result<(nat, nat), Bi2xFrameParseError> {
    vlq_decode_from(data, 0, 0)
}

/// A continuation byte carrying bits `shift..shift + 6` of `length`.
pub open spec fn length_byte(length: u32, shift: u32) -> u8 {
    (((length >> shift) as u8) & 0x3F) | 0xC0
}

/// The encoding of a length, in one to four bytes. Only the low six bits of
/// each continuation byte are kept, so a length with a bit set above them
/// (such as `0x2000` in two bytes) does not decode to itself.
pub open spec fn vlq_encode(length: u32) -> Seq<u8> {
    if length <= 0x7F {
        seq![length as u8]
    } else if length <= 0x3FFF {
        seq![length_byte(length, 7), (length as u8) & 0x7F]
    } else if length <= 0x1FFFFF {
        seq![length_byte(length, 13), length_byte(length, 7), (length as u8) & 0x7F]
    } else {
        seq![length_byte(length, 19), length_byte(length, 13), length_byte(length, 7), (length as u8) & 0x7F]
    }
}

/// Whether every bit of `length` fits in the bytes that encode it.
pub open spec fn vlq_exact(length: int) -> bool {
    ||| length < 0x2000
    ||| 0x4000 <= length < 0x80000
    ||| 0x200000 <= length < 0x2000000
}

spec fn pow64(i: nat) -> nat {
    if i == 0 { 1 } else if i == 1 { 64 } else if i == 2 { 4096 } else if i == 3 { 262144 } else { 16777216 }
}

proof fn lemma_vlq_byte(b: u8)
    by (bit_vector)
    ensures
        ((b & 0xC0) == 0xC0) == (b >= 0xC0),
        (b & 0x80 == 0) == (b < 0x80),
        b >= 0xC0 ==> (b & 0x3F) == b - 0xC0,
        b < 0x80 ==> (b & 0x7F) == b,
{
}

// ── CRCs ────────────────────────────────────────────────────────────────────

const CRC4_LGP_TABLE: [u8; 16] = [
    0x00, 0x0D, 0x03, 0x0E, 0x06, 0x0B, 0x05, 0x08, 0x0C, 0x01, 0x0F, 0x02, 0x0A, 0x07, 0x09, 0x04,
];

const CRC7_LGP48_TABLE: [u8; 16] = [
    0x00, 0x09, 0x12, 0x1B, 0x24, 0x2D, 0x36, 0x3F, 0x48, 0x41, 0x5A, 0x53, 0x6C, 0x65, 0x7E, 0x77,
];

pub open spec fn crc4_table(i: int) -> u8 {
    seq![0x00u8, 0x0D, 0x03, 0x0E, 0x06, 0x0B, 0x05, 0x08, 0x0C, 0x01, 0x0F, 0x02, 0x0A, 0x07, 0x09, 0x04][i]
}

pub open spec fn crc7_table(i: int) -> u8 {
    seq![0x00u8, 0x09, 0x12, 0x1B, 0x24, 0x2D, 0x36, 0x3F, 0x48, 0x41, 0x5A, 0x53, 0x6C, 0x65, 0x7E, 0x77][i]
}

/// One byte of the header CRC-4.
pub open spec fn crc4_step(crc: u8, b: u8) -> u8 {
    let tmp = crc4_table(((crc ^ b) & 0xF) as int);
    crc4_table((((b >> 4) ^ tmp ^ (crc >> 4)) & 0xF) as int) ^ (tmp >> 4)
}

/// The CRC-4 of `data` from `seed`.
pub open spec fn crc4(seed: u8, data: Seq<u8>) -> u8
    decreases data.len(),
{
    if data.len() == 0 {
        seed & 0xF
    } else {
        crc4_step(crc4(seed, data.drop_last()), data.last())
    }
}

/// The bytes the header CRC covers: node, sequence number, the length bytes
/// rebuilt from `length` and their count, and the high nibble of the flags.
pub open spec fn header_crc_bytes(node: u8, sequence_number: u8, count: u8, length: u32, flags: u8) -> Seq<u8> {
    seq![node, sequence_number]
        + (if count >= 5 { seq![length_byte(length, 25)] } else { Seq::empty() })
        + (if count >= 4 { seq![length_byte(length, 19)] } else { Seq::empty() })
        + (if count >= 3 { seq![length_byte(length, 13)] } else { Seq::empty() })
        + (if count >= 2 { seq![length_byte(length, 7)] } else { Seq::empty() })
        + seq![(length as u8) & 0x7F, flags & 0xF0]
}

/// The header CRC stored in the low nibble of the flags byte.
pub open spec fn header_crc(node: u8, sequence_number: u8, count: u8, length: u32, flags: u8) -> u8 {
    crc4(0xF, header_crc_bytes(node, sequence_number, count, length, flags)) ^ 0xF
}

/// One byte of the payload CRC-7.
pub open spec fn crc7_step(crc: u8, b: u8) -> u8 {
    let tmp = crc7_table(((crc ^ b) & 0xF) as int) ^ (crc >> 4);
    crc7_table((((b >> 4) ^ tmp) & 0xF) as int) ^ (tmp >> 4)
}

/// The CRC-7 register after `data`.
pub open spec fn crc7(data: Seq<u8>) -> u8
    decreases data.len(),
{
    if data.len() == 0 {
        0x7F
    } else {
        crc7_step(crc7(data.drop_last()), data.last())
    }
}

/// The CRC that closes a payload.
pub open spec fn payload_crc_of(data: Seq<u8>) -> u8 {
    crc7(data) ^ 0x7F
}

proof fn lemma_nibble(x: u8)
    by (bit_vector)
    ensures
        (x & 0xF) < 16,
        x < 16 ==> (x >> 4) == 0,
        x < 16 ==> (x & 0xF) == x,
        x < 16 ==> (x ^ 0xF) < 16,
        !(!x) == x,
{
}

proof fn lemma_nibble_xor(a: u8, b: u8)
    by (bit_vector)
    requires
        a < 16,
        b < 16,
    ensures
        (b ^ (a >> 4)) < 16,
{
}

proof fn lemma_crc4_small(seed: u8, data: Seq<u8>)
    ensures
        crc4(seed, data) < 16,
    decreases data.len(),
{
    if data.len() == 0 {
        lemma_nibble(seed);
    } else {
        lemma_crc4_small(seed, data.drop_last());
        let crc = crc4(seed, data.drop_last());
        let b = data.last();
        let i = ((crc ^ b) & 0xF) as int;
        lemma_nibble(crc ^ b);
        let tmp = crc4_table(i);
        assert(tmp < 16);
        let j = (((b >> 4) ^ tmp ^ (crc >> 4)) & 0xF) as int;
        lemma_nibble((b >> 4) ^ tmp ^ (crc >> 4));
        let t2 = crc4_table(j);
        assert(t2 < 16);
        lemma_nibble_xor(tmp, t2);
    }
}

/// Continuing a CRC-4 from an earlier result is the CRC-4 of the joined bytes.
proof fn lemma_crc4_push(seed: u8, a: Seq<u8>, x: u8)
    ensures
        crc4(crc4(seed, a), seq![x]) == crc4(seed, a.push(x)),
{
    let c = crc4(seed, a);
    lemma_crc4_small(seed, a);
    lemma_nibble(c);
    assert(seq![x].drop_last() =~= Seq::<u8>::empty());
    assert(crc4(c, Seq::<u8>::empty()) == c);
    assert(crc4(c, seq![x]) == crc4_step(c, x));
    assert(a.push(x).drop_last() =~= a);
}

impl Bi2xFrame {
    /// Decodes the variable-length payload length at the start of `data`;
    /// returns it and the number of bytes it took. The length never
    /// overflows: at most four continuation bytes are read.
    fn decode_length(data: &[u8]) -> (res: Result<(u32, usize), Bi2xFrameParseError>)
        ensures
            match res {
                Ok((v, n)) => {
                    &&& vlq_decode(data@) == Ok::<(nat, nat), Bi2xFrameParseError>((v as nat, n as nat))
                    &&& 1 <= n <= 5
                    &&& n <= data.len()
                },
                Err(e) => vlq_decode(data@) == Err::<(nat, nat), Bi2xFrameParseError>(e),
            },
    {
        let mut val: u32 = 0;
        let mut i: usize = 0;
        while i < data.len()
            invariant
                i <= 4,
                val < pow64(i as nat),
                vlq_decode_from(data@, i as nat, val as nat) == vlq_decode(data@),
            decreases data.len() - i,
        {
            let b: u8 = data[i];
            proof {
                lemma_vlq_byte(b);
            }
            if (b & 0xC0) == 0xC0 {
                // Continuation byte: bits 7 and 6 set, six data bits.
                if i >= 4 {
                    return Err(Bi2xFrameParseError::LengthTooLong);
                }
                val = val * 64 + (b & 0x3F) as u32;
            } else if b & 0x80 == 0 {
                // Terminal byte: bit 7 clear, seven data bits.
                val = val * 128 + (b & 0x7F) as u32;
                return Ok((val, i + 1));
            } else {
                // Bit 7 set, bit 6 clear.
                return Err(Bi2xFrameParseError::InvalidLengthByte);
            }
            i += 1;
        }
        Err(Bi2xFrameParseError::LengthTruncated)
    }

    /// Encodes a payload length; lengths above `0xFFFFFFF` cannot be encoded.
    fn encode_length(length: u32) -> (res: Result<Vec<u8>, Bi2xFrameToBytesError>)
        ensures
            match res {
                Ok(v) => length <= 0xFFFFFFF && v@ == vlq_encode(length),
                Err(e) => length > 0xFFFFFFF && e == Bi2xFrameToBytesError::LengthOverflow,
            },
    {
        if length <= 0x7F {
            Ok(vec![length as u8])
        } else if length <= 0x3FFF {
            Ok(vec![((length >> 7) as u8 & 0x3F) | 0xC0, (length as u8 & 0x7F)])
        } else if length <= 0x1FFFFF {
            Ok(vec![
                ((length >> 13) as u8 & 0x3F) | 0xC0,
                ((length >> 7) as u8 & 0x3F) | 0xC0,
                (length as u8 & 0x7F),
            ])
        } else if length <= 0xFFFFFFF {
            Ok(vec![
                ((length >> 19) as u8 & 0x3F) | 0xC0,
                ((length >> 13) as u8 & 0x3F) | 0xC0,
                ((length >> 7) as u8 & 0x3F) | 0xC0,
                (length as u8 & 0x7F),
            ])
        } else {
            Err(Bi2xFrameToBytesError::LengthOverflow)
        }
    }

    fn crc4_make_lgp_c(seed: u8, data: &[u8]) -> (crc: u8)
        ensures
            crc == crc4(seed, data@),
    {
        let mut crc: u8 = seed & 0xF;
        let mut i: usize = 0;
        while i < data.len()
            invariant
                i <= data.len(),
                crc == crc4(seed, data@.take(i as int)),
            decreases data.len() - i,
        {
            let b: u8 = data[i];
            proof {
                lemma_nibble(crc ^ b);
                lemma_nibble((b >> 4) ^ crc4_table(((crc ^ b) & 0xF) as int) ^ (crc >> 4));
                assert(data@.take(i + 1).drop_last() =~= data@.take(i as int));
            }
            let tmp: u8 = CRC4_LGP_TABLE[((crc ^ b) & 0xF) as usize];
            crc = CRC4_LGP_TABLE[((b >> 4 ^ tmp ^ crc >> 4) & 0xF) as usize] ^ (tmp >> 4);
            i += 1;
        }
        assert(data@.take(data.len() as int) =~= data@);
        crc
    }
}

// ── payload transforms ──────────────────────────────────────────────────────

/// Removes the escapes of an `Escaped` payload: `0xFF` drops out and the
/// byte after it is inverted. `escape_next` tells whether the previous byte
/// was such an escape.
pub open spec fn unescape_from(data: Seq<u8>, escape_next: bool) -> Seq<u8>
    decreases data.len(),
{
    if data.len() == 0 {
        Seq::empty()
    } else if escape_next {
        seq![!data[0]] + unescape_from(data.drop_first(), false)
    } else if data[0] == 0xFF {
        unescape_from(data.drop_first(), true)
    } else {
        seq![data[0]] + unescape_from(data.drop_first(), false)
    }
}

pub open spec fn unescape(data: Seq<u8>) -> Seq<u8> {
    unescape_from(data, false)
}

/// Escapes a payload: `0xFF` and `0xAA` become `0xFF` and their inverse.
pub open spec fn escape(data: Seq<u8>) -> Seq<u8>
    decreases data.len(),
{
    if data.len() == 0 {
        Seq::empty()
    } else {
        (if data[0] == 0xFF || data[0] == 0xAA { seq![0xFFu8, !data[0]] } else { seq![data[0]] })
            + escape(data.drop_first())
    }
}

/// Undoes byte substitution: the first byte names the substitute, which
/// stands for `0xAA` in the bytes after it.
pub open spec fn unsubstitute(data: Seq<u8>) -> Seq<u8> {
    Seq::new((data.len() - 1) as nat, |i: int| if data[i + 1] == data[0] { 0xAAu8 } else { data[i + 1] })
}

/// Substitutes `s` for every `0xAA` and puts `s` in front.
pub open spec fn substitute(data: Seq<u8>, s: u8) -> Seq<u8> {
    seq![s] + Seq::new(data.len(), |i: int| if data[i] == 0xAA { s } else { data[i] })
}

/// The first byte from `c` up to `0xFF` that is neither `0xAA` nor in `data`.
pub open spec fn substitution_byte_from(data: Seq<u8>, c: nat) -> Option<u8>
    decreases 256 - c,
{
    if c >= 256 {
        None
    } else if c != 0xAA && !data.contains(c as u8) {
        Some(c as u8)
    } else {
        substitution_byte_from(data, c + 1)
    }
}

/// The substitution byte chosen for `data`, searched from `0x01`.
pub open spec fn chosen_substitution_byte(data: Seq<u8>) -> Option<u8> {
    substitution_byte_from(data, 1)
}

/// The payload a mode's wire form stands for.
pub open spec fn decode_payload(mode: Bi2xFrameMode, data: Seq<u8>, length: nat) -> Seq<u8> {
    match mode {
        Bi2xFrameMode::Escaped => unescape(data),
        Bi2xFrameMode::Compressed => spec_inflate(data, length),
        Bi2xFrameMode::ByteSubstitution => unsubstitute(data),
        Bi2xFrameMode::Raw => data,
    }
}

// ── parsing ─────────────────────────────────────────────────────────────────

/// `bytes` without its leading run of `0xAA` markers.
pub open spec fn strip_markers(bytes: Seq<u8>) -> Seq<u8>
    decreases bytes.len(),
{
    if bytes.len() > 0 && bytes[0] == 0xAA {
        strip_markers(bytes.drop_first())
    } else {
        bytes
    }
}

/// The mode named by bits 7 to 5 of a flags byte.
pub open spec fn mode_of_flags(flags: u8) -> Option<Bi2xFrameMode> {
    let bits = flags & 0xE0;
    if bits == 0x80 {
        Some(Bi2xFrameMode::Compressed)
    } else if bits == 0x40 {
        Some(Bi2xFrameMode::Raw)
    } else if bits == 0x00 {
        Some(Bi2xFrameMode::Escaped)
    } else if bits == 0x60 {
        Some(Bi2xFrameMode::ByteSubstitution)
    } else {
        None
    }
}

/// Whether the flags byte at `2 + n` of the stripped frame `h` is escaped:
/// a `0xFF` there means that the flags are the inverse of the next byte.
pub open spec fn flags_escaped(h: Seq<u8>, n: nat) -> bool {
    h[2 + n as int] == 0xFF
}

/// The flags of the stripped frame `h` whose length took `n` bytes.
pub open spec fn flags_at(h: Seq<u8>, n: nat) -> u8 {
    if flags_escaped(h, n) { !h[3 + n as int] } else { h[2 + n as int] }
}

/// Where the payload starts in the stripped frame.
pub open spec fn body_start(h: Seq<u8>, n: nat) -> int {
    if flags_escaped(h, n) { 4 + n as int } else { 3 + n as int }
}

/// Reads the payload of a frame whose header is valid: `wire` is what
/// follows the flags byte, `length` the declared length.
pub open spec fn parse_payload_spec(
    wire: Seq<u8>,
    mode: Bi2xFrameMode,
    is_encrypted: bool,
    sequence_number: u8,
    length: nat,
    frame_len: nat,
    is_from_bio2: bool,
) -> Result<Option<Seq<u8>>, Bi2xFrameParseError> {
    if length != 0 {
        let clear = if is_encrypted { scramble_stream(decrypt_seed(sequence_number, is_from_bio2), wire) } else { wire };
        if clear.len() == 0 {
            Err(Bi2xFrameParseError::EmptyPayloadAtWrongTime)
        } else {
            let p = decode_payload(mode, clear.drop_last(), length);
            if clear.last() != payload_crc_of(p) {
                Err(Bi2xFrameParseError::PayloadCrcMismatch { expected: payload_crc_of(p), actual: clear.last() })
            } else if p.len() != length {
                Err(Bi2xFrameParseError::InvalidFrameLength { expected: length as usize, actual: frame_len as usize })
            } else {
                Ok(Some(p))
            }
        }
    } else if wire.len() != 0 {
        Err(Bi2xFrameParseError::InvalidFrameLength {
            expected: (frame_len - wire.len()) as usize,
            actual: frame_len as usize,
        })
    } else {
        Ok(None)
    }
}

/// Parses what follows the length of the stripped frame `h`: flags, header
/// CRC and payload. `length` is the decoded length and `n` the number of
/// bytes it took.
pub open spec fn parse_body(h: Seq<u8>, length: nat, n: nat, is_from_bio2: bool) -> Result<Bi2xFrameView, Bi2xFrameParseError> {
    let flags = flags_at(h, n);
    match mode_of_flags(flags) {
        None => Err(Bi2xFrameParseError::InvalidFrameMode(flags & 0xE0)),
        Some(mode) => {
            let is_encrypted = flags & 0x10 != 0;
            let expected = header_crc(h[0], h[1], n as u8, length as u32, flags);
            if flags & 0x0F != expected {
                Err(Bi2xFrameParseError::HeaderCrcMismatch { expected, actual: flags & 0x0F })
            } else {
                match parse_payload_spec(h.skip(body_start(h, n)), mode, is_encrypted, h[1], length, h.len(), is_from_bio2) {
                    Err(e) => Err(e),
                    Ok(payload) => Ok(Bi2xFrameView { node: h[0], sequence_number: h[1], mode, is_encrypted, payload }),
                }
            }
        },
    }
}

/// What parsing `bytes` gives.
pub open spec fn spec_parse(bytes: Seq<u8>, is_from_bio2: bool) -> Result<Bi2xFrameView, Bi2xFrameParseError> {
    if bytes.len() == 0 {
        Err(Bi2xFrameParseError::EmptyFrame)
    } else if bytes[0] != 0xAA {
        Err(Bi2xFrameParseError::InvalidStartMarker(bytes[0]))
    } else {
        let h = strip_markers(bytes);
        if h.len() < 3 {
            Err(Bi2xFrameParseError::InvalidFrameLength { expected: 3, actual: h.len() as usize })
        } else {
            match vlq_decode(h.skip(2)) {
                Err(e) => Err(e),
                Ok((length, n)) => if h.len() < 3 + n {
                    Err(Bi2xFrameParseError::InvalidFrameLength { expected: (3 + n) as usize, actual: h.len() as usize })
                } else {
                    parse_body(h, length, n, is_from_bio2)
                },
            }
        }
    }
}

/// The inputs `parse` is not defined on: an escaping `0xFF` in place of the
/// flags byte at the very end of the frame, and a `ByteSubstitution` frame
/// with a valid header and a declared length whose payload holds only its
/// CRC byte.
pub open spec fn parse_panics(bytes: Seq<u8>) -> bool {
    let h = strip_markers(bytes);
    &&& bytes.len() > 0
    &&& bytes[0] == 0xAA
    &&& h.len() >= 3
    &&& match vlq_decode(h.skip(2)) {
        Err(_) => false,
        Ok((length, n)) => {
            &&& h.len() >= 3 + n
            &&& if flags_escaped(h, n) && h.len() == 3 + n {
                true
            } else {
                let flags = flags_at(h, n);
                &&& mode_of_flags(flags) == Some(Bi2xFrameMode::ByteSubstitution)
                &&& flags & 0x0F == header_crc(h[0], h[1], n as u8, length as u32, flags)
                &&& length != 0
                &&& h.len() == body_start(h, n) + 1
            }
        },
    }
}

/// Copies `data[start..end]`.
fn copy_range(data: &[u8], start: usize, end: usize) -> (out: Vec<u8>)
    requires
        start <= end <= data.len(),
    ensures
        out@ == data@.subrange(start as int, end as int),
{
    vstd::slice::slice_to_vec(vstd::slice::slice_subrange(data, start, end))
}

/// `bytes` without its leading `0xAA` markers.
fn strip_start_markers(bytes: &[u8]) -> (out: Vec<u8>)
    ensures
        out@ == strip_markers(bytes@),
{
    let mut k: usize = 0;
    assert(bytes@.skip(0) =~= bytes@);
    while k < bytes.len() && bytes[k] == 0xAA
        invariant
            k <= bytes.len(),
            strip_markers(bytes@.skip(k as int)) == strip_markers(bytes@),
        decreases bytes.len() - k,
    {
        assert(bytes@.skip(k as int).drop_first() =~= bytes@.skip(k + 1));
        k += 1;
    }
    assert(bytes@.subrange(k as int, bytes.len() as int) =~= bytes@.skip(k as int));
    copy_range(bytes, k, bytes.len())
}

pub(crate) fn unescape_payload(payload: &[u8]) -> (out: Vec<u8>)
    ensures
        out@ == unescape(payload@),
{
    let mut out: Vec<u8> = Vec::with_capacity(payload.len());
    let mut escape_next: bool = false;
    let mut i: usize = 0;
    assert(out@ + unescape_from(payload@.skip(0), false) =~= unescape(payload@)) by {
        assert(payload@.skip(0) =~= payload@);
    }
    while i < payload.len()
        invariant
            i <= payload.len(),
            out@ + unescape_from(payload@.skip(i as int), escape_next) == unescape(payload@),
        decreases payload.len() - i,
    {
        let b: u8 = payload[i];
        let ghost rest = payload@.skip(i as int);
        assert(rest.drop_first() =~= payload@.skip(i + 1));
        if escape_next {
            out.push(!b);
            escape_next = false;
        } else if b == 0xFF {
            escape_next = true;
        } else {
            out.push(b);
        }
        i += 1;
        proof {
            assert(out@ + unescape_from(payload@.skip(i as int), escape_next) =~= unescape(payload@));
        }
    }
    assert(payload@.skip(i as int) =~= Seq::<u8>::empty());
    assert(out@ + Seq::<u8>::empty() =~= out@);
    out
}

fn escape_payload(payload: &[u8]) -> (out: Vec<u8>)
    ensures
        out@ == escape(payload@),
{
    let mut out: Vec<u8> = Vec::with_capacity(payload.len());
    let mut i: usize = 0;
    assert(out@ + escape(payload@.skip(0)) =~= escape(payload@)) by {
        assert(payload@.skip(0) =~= payload@);
    }
    while i < payload.len()
        invariant
            i <= payload.len(),
            out@ + escape(payload@.skip(i as int)) == escape(payload@),
        decreases payload.len() - i,
    {
        let b: u8 = payload[i];
        assert(payload@.skip(i as int).drop_first() =~= payload@.skip(i + 1));
        if b == 0xFF || b == 0xAA {
            out.push(0xFF);
            out.push(!b);
        } else {
            out.push(b);
        }
        i += 1;
        proof {
            assert(out@ + escape(payload@.skip(i as int)) =~= escape(payload@));
        }
    }
    assert(payload@.skip(i as int) =~= Seq::<u8>::empty());
    assert(out@ + Seq::<u8>::empty() =~= out@);
    out
}

fn unsubstitute_payload(payload: &[u8]) -> (out: Vec<u8>)
    requires
        payload.len() > 0,
    ensures
        out@ == unsubstitute(payload@),
{
    let substitution_byte: u8 = payload[0];
    let mut replaced: Vec<u8> = vstd::slice::slice_to_vec(payload);
    let mut i: usize = 0;
    while i < replaced.len()
        invariant
            replaced@.len() == payload@.len(),
            i <= replaced.len(),
            substitution_byte == payload@[0],
            forall|j: int| 0 <= j < i ==> replaced@[j] == if payload@[j] == substitution_byte { 0xAAu8 } else { payload@[j] },
            forall|j: int| i <= j < replaced@.len() ==> replaced@[j] == payload@[j],
        decreases replaced.len() - i,
    {
        if replaced[i] == substitution_byte {
            replaced.set(i, 0xAA);
        }
        i += 1;
    }
    let out: Vec<u8> = copy_range(replaced.as_slice(), 1, replaced.len());
    assert(out@ =~= unsubstitute(payload@));
    out
}

fn substitute_payload(payload: &[u8], substitution_byte: u8) -> (out: Vec<u8>)
    ensures
        out@ == substitute(payload@, substitution_byte),
{
    let mut out: Vec<u8> = vstd::slice::slice_to_vec(payload);
    let mut i: usize = 0;
    while i < out.len()
        invariant
            out@.len() == payload@.len(),
            i <= out.len(),
            forall|j: int| 0 <= j < i ==> out@[j] == if payload@[j] == 0xAA { substitution_byte } else { payload@[j] },
            forall|j: int| i <= j < out@.len() ==> out@[j] == payload@[j],
        decreases out.len() - i,
    {
        if out[i] == 0xAA {
            out.set(i, substitution_byte);
        }
        i += 1;
    }
    out.insert(0, substitution_byte);
    assert(out@ =~= substitute(payload@, substitution_byte));
    out
}

// ── writing ─────────────────────────────────────────────────────────────────

/// The flag bits of a mode.
pub open spec fn mode_flags(mode: Bi2xFrameMode) -> u8 {
    match mode {
        Bi2xFrameMode::Compressed => 0x80,
        Bi2xFrameMode::Raw => 0x40,
        Bi2xFrameMode::Escaped => 0x00,
        Bi2xFrameMode::ByteSubstitution => 0x60,
    }
}

/// The high nibble of a frame's flags byte.
pub open spec fn frame_flags(f: Bi2xFrameView) -> u8 {
    mode_flags(f.mode) | (if f.is_encrypted { 0x10u8 } else { 0x00u8 })
}

/// The length field written for a frame: the payload length as a `u32`.
pub open spec fn payload_len_field(f: Bi2xFrameView) -> u32 {
    match f.payload {
        Some(p) => p.len() as u32,
        None => 0,
    }
}

/// Start marker, node, sequence number, length and flags with header CRC.
pub open spec fn header_bytes(f: Bi2xFrameView) -> Seq<u8> {
    let length = payload_len_field(f);
    let encoded = vlq_encode(length);
    let flags = frame_flags(f);
    seq![0xAAu8, f.node, f.sequence_number] + encoded
        + seq![flags | header_crc(f.node, f.sequence_number, encoded.len() as u8, length, flags)]
}

/// The error, if any, that writing a frame out gives.
pub open spec fn to_bytes_error(f: Bi2xFrameView) -> Option<Bi2xFrameToBytesError> {
    if payload_len_field(f) > 0xFFFFFFF {
        Some(Bi2xFrameToBytesError::LengthOverflow)
    } else {
        match f.payload {
            Some(p) => if f.mode == Bi2xFrameMode::ByteSubstitution && chosen_substitution_byte(p) is None {
                Some(Bi2xFrameToBytesError::NoSuitableSubstitutionByte)
            } else {
                None
            },
            None => None,
        }
    }
}

/// Whether `body` is how `mode` puts payload `p` on the wire. A compressed
/// body is what the compressor makes of `p`: a stream without `0xAA` that
/// decompresses to `p`.
pub open spec fn payload_encoding(mode: Bi2xFrameMode, p: Seq<u8>, body: Seq<u8>) -> bool {
    match mode {
        Bi2xFrameMode::Raw => body == p,
        Bi2xFrameMode::Escaped => body == escape(p),
        Bi2xFrameMode::ByteSubstitution => chosen_substitution_byte(p) matches Some(s) && body == substitute(p, s),
        Bi2xFrameMode::Compressed => {
            &&& body == spec_deflate(p)
            &&& spec_inflate(body, p.len()) == p
            &&& forall|i: int| 0 <= i < body.len() ==> body[i] != 0xAA
        },
    }
}

/// The payload bytes as sent: encrypted when the frame says so.
pub open spec fn seal(f: Bi2xFrameView, is_for_bio2: bool, data: Seq<u8>) -> Seq<u8> {
    if f.is_encrypted {
        scramble_stream(encrypt_seed(f.sequence_number, is_for_bio2), data)
    } else {
        data
    }
}

/// Whether `bytes` is how frame `f` is written out: the header, then the
/// encoded payload closed by the CRC of the payload, sealed.
pub open spec fn frame_bytes_ok(f: Bi2xFrameView, is_for_bio2: bool, bytes: Seq<u8>) -> bool {
    match f.payload {
        None => bytes == header_bytes(f),
        Some(p) => exists|body: Seq<u8>|
            #[trigger] payload_encoding(f.mode, p, body)
                && bytes == header_bytes(f) + seal(f, is_for_bio2, body.push(payload_crc_of(p))),
    }
}

proof fn lemma_flag_bits(f: u8)
    by (bit_vector)
    ensures
        ((f & 0x80) | (f & 0x40) | (f & 0x20)) == f & 0xE0,
        (f & 0xE0 == 0x80) == ((f & 0x80) == 0x80 && (f & 0x40) == 0 && (f & 0x20) == 0),
        (f & 0xE0 == 0x40) == ((f & 0x80) == 0 && (f & 0x40) == 0x40 && (f & 0x20) == 0),
        (f & 0xE0 == 0x00) == ((f & 0x80) == 0 && (f & 0x40) == 0 && (f & 0x20) == 0),
        (f & 0xE0 == 0x60) == ((f & 0x80) == 0 && (f & 0x40) == 0x40 && (f & 0x20) == 0x20),
{
}

/// The mode `new` picks for a payload.
pub open spec fn mode_for_payload(payload: Option<Seq<u8>>) -> Bi2xFrameMode {
    match payload {
        Some(p) => if p.contains(0xAA) {
            Bi2xFrameMode::ByteSubstitution
        } else if p.len() > 7 {
            Bi2xFrameMode::Compressed
        } else {
            Bi2xFrameMode::Raw
        },
        None => Bi2xFrameMode::Escaped,
    }
}

pub open spec fn opt_view(payload: Option<Vec<u8>>) -> Option<Seq<u8>> {
    match payload {
        Some(p) => Some(p@),
        None => None,
    }
}

/// Whether `data` holds `b`.
fn contains_byte(data: &[u8], b: u8) -> (found: bool)
    ensures
        found == data@.contains(b),
{
    let mut i: usize = 0;
    while i < data.len()
        invariant
            i <= data.len(),
            forall|j: int| 0 <= j < i ==> data@[j] != b,
        decreases data.len() - i,
    {
        if data[i] == b {
            return true;
        }
        i += 1;
    }
    false
}

impl Bi2xFrame {
    /// The CRC-4 continued over one more byte.
    fn crc4_byte(seed: u8, b: u8) -> (crc: u8)
        ensures
            crc == crc4(seed, seq![b]),
    {
        let one: [u8; 1] = [b];
        assert(one@ =~= seq![b]);
        Self::crc4_make_lgp_c(seed, &one)
    }

    fn get_header_crc(
        node: u8,
        sequence_number: u8,
        payload_bytes_count: u8,
        payload_length: u32,
        flags: u8,
    ) -> (crc: u8)
        ensures
            crc == header_crc(node, sequence_number, payload_bytes_count, payload_length, flags),
    {
        let ghost mut covered: Seq<u8> = seq![node];
        let mut crc: u8 = Self::crc4_byte(0xF, node);
        proof {
            lemma_crc4_push(0xF, covered, sequence_number);
            covered = covered.push(sequence_number);
        }
        crc = Self::crc4_byte(crc, sequence_number);
        if payload_bytes_count >= 5 {
            let b: u8 = (((payload_length >> 25) as u8) & 0x3F) | 0xC0;
            proof {
                lemma_crc4_push(0xF, covered, b);
                covered = covered.push(b);
            }
            crc = Self::crc4_byte(crc, b);
        }
        let ghost c5 = covered;
        if payload_bytes_count >= 4 {
            let b: u8 = (((payload_length >> 19) as u8) & 0x3F) | 0xC0;
            proof {
                lemma_crc4_push(0xF, covered, b);
                covered = covered.push(b);
            }
            crc = Self::crc4_byte(crc, b);
        }
        let ghost c4 = covered;
        if payload_bytes_count >= 3 {
            let b: u8 = (((payload_length >> 13) as u8) & 0x3F) | 0xC0;
            proof {
                lemma_crc4_push(0xF, covered, b);
                covered = covered.push(b);
            }
            crc = Self::crc4_byte(crc, b);
        }
        let ghost c3 = covered;
        if payload_bytes_count >= 2 {
            let b: u8 = (((payload_length >> 7) as u8) & 0x3F) | 0xC0;
            proof {
                lemma_crc4_push(0xF, covered, b);
                covered = covered.push(b);
            }
            crc = Self::crc4_byte(crc, b);
        }
        let ghost c2 = covered;
        let low: u8 = payload_length as u8 & 0x7F;
        proof {
            lemma_crc4_push(0xF, covered, low);
            covered = covered.push(low);
        }
        crc = Self::crc4_byte(crc, low);
        let high: u8 = flags & 0xF0;
        proof {
            lemma_crc4_push(0xF, covered, high);
            covered = covered.push(high);
            assert(covered =~= header_crc_bytes(node, sequence_number, payload_bytes_count, payload_length, flags));
        }
        crc = Self::crc4_byte(crc, high);
        crc ^ 0xF
    }

    fn payload_crc(payload: &[u8]) -> (crc: u8)
        ensures
            crc == payload_crc_of(payload@),
    {
        let mut crc: u8 = 0x7F;
        let mut i: usize = 0;
        while i < payload.len()
            invariant
                i <= payload.len(),
                crc == crc7(payload@.take(i as int)),
            decreases payload.len() - i,
        {
            let b: u8 = payload[i];
            proof {
                lemma_nibble(crc ^ b);
                lemma_nibble((b >> 4) ^ (crc7_table(((crc ^ b) & 0xF) as int) ^ (crc >> 4)));
                assert(payload@.take(i + 1).drop_last() =~= payload@.take(i as int));
            }
            let tmp: u8 = CRC7_LGP48_TABLE[((crc ^ b) & 0xF) as usize] ^ (crc >> 4);
            crc = CRC7_LGP48_TABLE[(((b >> 4) ^ tmp) & 0xF) as usize] ^ (tmp >> 4);
            i += 1;
        }
        assert(payload@.take(payload.len() as int) =~= payload@);
        crc ^ 0x7F
    }

    /// Creates a frame, choosing the mode from the payload: `Escaped`
    /// without a payload, `ByteSubstitution` when it holds `0xAA`,
    /// `Compressed` when it is longer than seven bytes, `Raw` otherwise.
    pub fn new(node: u8, sequence_number: u8, is_encrypted: bool, payload: Option<Vec<u8>>) -> (frame: Self)
        ensures
            frame.node == node,
            frame.sequence_number == sequence_number,
            frame.is_encrypted == is_encrypted,
            frame@.payload == opt_view(payload),
            frame.mode == mode_for_payload(opt_view(payload)),
    {
        let mode: Bi2xFrameMode = match &payload {
            Some(p) => {
                if contains_byte(p.as_slice(), 0xAA) {
                    Bi2xFrameMode::ByteSubstitution
                } else if p.len() > 7 {
                    Bi2xFrameMode::Compressed
                } else {
                    Bi2xFrameMode::Raw
                }
            },
            None => Bi2xFrameMode::Escaped,
        };
        Bi2xFrame { node, sequence_number, mode, is_encrypted, payload }
    }
}

impl Bi2xFrame {
    /// Reads the payload from `bytes[start..]`: decrypts it if needed, takes
    /// off the CRC, undoes the mode's encoding and checks CRC and length.
    fn parse_payload(
        bytes: &[u8],
        start: usize,
        mode: Bi2xFrameMode,
        is_encrypted: bool,
        sequence_number: u8,
        length: u32,
        is_from_bio2: bool,
    ) -> (res: Result<Option<Vec<u8>>, Bi2xFrameParseError>)
        requires
            start <= bytes.len(),
            mode == Bi2xFrameMode::ByteSubstitution && length != 0 ==> bytes.len() != start + 1,
        ensures
            match res {
                Ok(p) => parse_payload_spec(bytes@.skip(start as int), mode, is_encrypted, sequence_number,
                    length as nat, bytes@.len(), is_from_bio2) == Ok::<Option<Seq<u8>>, Bi2xFrameParseError>(opt_view(p)),
                Err(e) => parse_payload_spec(bytes@.skip(start as int), mode, is_encrypted, sequence_number,
                    length as nat, bytes@.len(), is_from_bio2) == Err::<Option<Seq<u8>>, Bi2xFrameParseError>(e),
            },
    {
        let ghost wire = bytes@.skip(start as int);
        if length != 0 {
            let mut payload: Vec<u8> = copy_range(bytes, start, bytes.len());
            assert(payload@ =~= wire);

            // Decrypt if needed
            if is_encrypted {
                payload = decrypt_bi2x_payload(sequence_number, payload.as_slice(), is_from_bio2);
            }
            let ghost clear = payload@;
            proof {
                lemma_scramble_stream_len(decrypt_seed(sequence_number, is_from_bio2), wire);
            }

            // Pop and store the payload CRC before any processing
            let payload_crc: u8 = match payload.pop() {
                Some(c) => c,
                None => return Err(Bi2xFrameParseError::EmptyPayloadAtWrongTime),
            };
            assert(payload@ =~= clear.drop_last());

            match mode {
                Bi2xFrameMode::Escaped => {
                    // Bytes with value 0xFF are escaped by inverting the next byte.
                    payload = unescape_payload(payload.as_slice());
                },
                Bi2xFrameMode::Compressed => {
                    payload = inflate(payload.as_slice(), length as usize);
                },
                Bi2xFrameMode::ByteSubstitution => {
                    // The first byte is the substitution byte; every occurrence
                    // of it stands for 0xAA.
                    payload = unsubstitute_payload(payload.as_slice());
                },
                Bi2xFrameMode::Raw => {},
            }
            assert(payload@ == decode_payload(mode, clear.drop_last(), length as nat));

            // Verify payload CRC
            let computed_payload_crc: u8 = Self::payload_crc(payload.as_slice());
            if payload_crc != computed_payload_crc {
                return Err(Bi2xFrameParseError::PayloadCrcMismatch {
                    expected: computed_payload_crc,
                    actual: payload_crc,
                });
            }

            // Verify payload length
            if payload.len() != length as usize {
                return Err(Bi2xFrameParseError::InvalidFrameLength {
                    expected: length as usize,
                    actual: bytes.len(),
                });
            }
            Ok(Some(payload))
        } else {
            if bytes.len() != start {
                return Err(Bi2xFrameParseError::InvalidFrameLength { expected: start, actual: bytes.len() });
            }
            Ok(None)
        }
    }

    /// Parses a frame. `is_from_bio2` tells whether the frame was sent by
    /// the board, as encryption differs in the two directions.
    #[verifier::rlimit(40)]
    pub fn parse(bytes: &[u8], is_from_bio2: bool) -> (res: Result<Self, Bi2xFrameParseError>)
        requires
            !parse_panics(bytes@),
        ensures
            match res {
                Ok(f) => spec_parse(bytes@, is_from_bio2) == Ok::<Bi2xFrameView, Bi2xFrameParseError>(f@),
                Err(e) => spec_parse(bytes@, is_from_bio2) == Err::<Bi2xFrameView, Bi2xFrameParseError>(e),
            },
    {
        if bytes.len() == 0 {
            return Err(Bi2xFrameParseError::EmptyFrame);
        }

        let start_marker: u8 = bytes[0];
        if start_marker != 0xAA {
            return Err(Bi2xFrameParseError::InvalidStartMarker(start_marker));
        }

        // Remove all starting 0xAA bytes
        let mut bytes: Vec<u8> = strip_start_markers(bytes);
        let ghost h = bytes@;

        if bytes.len() < 3 {
            return Err(Bi2xFrameParseError::InvalidFrameLength { expected: 3, actual: bytes.len() });
        }

        // Parse header
        let node: u8 = bytes[0];
        let sequence_number: u8 = bytes[1];
        let decoded = Self::decode_length(vstd::slice::slice_subrange(bytes.as_slice(), 2, bytes.len()));
        let (length, mut bytes_consumed): (u32, usize) = match decoded {
            Ok(v) => v,
            Err(e) => return Err(e),
        };
        assert(h.subrange(2, h.len() as int) =~= h.skip(2));
        let ghost n: nat = bytes_consumed as nat;
        let payload_length_count: usize = bytes_consumed;

        if bytes.len() < 3 + bytes_consumed {
            return Err(Bi2xFrameParseError::InvalidFrameLength {
                expected: 3 + bytes_consumed,
                actual: bytes.len(),
            });
        }

        // The flags byte can be escaped: 0xFF, then the inverted flags
        if bytes[2 + bytes_consumed] == 0xFF {
            let inverted: u8 = !bytes[3 + bytes_consumed];
            bytes.set(3 + bytes_consumed, inverted);
            bytes_consumed += 1;
        }
        assert(bytes@.len() == h.len());
        assert(bytes.len() >= body_start(h, n));
        assert(bytes@.skip(body_start(h, n)) =~= h.skip(body_start(h, n)));

        // Parse flags
        let flags: u8 = bytes[2 + bytes_consumed];
        assert(flags == flags_at(h, n));
        proof {
            lemma_flag_bits(flags);
        }
        let flag_byte_1: u8 = flags & 0x80;
        let flag_byte_2: u8 = flags & 0x40;
        let flag_byte_3: u8 = flags & 0x20;
        let mode: Bi2xFrameMode = match (flag_byte_1, flag_byte_2, flag_byte_3) {
            (0x80, 0x00, 0x00) => Bi2xFrameMode::Compressed,
            (0x00, 0x40, 0x00) => Bi2xFrameMode::Raw,
            (0x00, 0x00, 0x00) => Bi2xFrameMode::Escaped,
            (0x00, 0x40, 0x20) => Bi2xFrameMode::ByteSubstitution,
            (a, b, c) => return Err(Bi2xFrameParseError::InvalidFrameMode(a | b | c)),
        };
        assert(mode_of_flags(flags) == Some(mode));
        let is_encrypted: bool = flags & 0x10 != 0;

        // Verify header CRC
        let header_crc: u8 = flags & 0x0F;
        let expected_header_crc: u8 = Self::get_header_crc(
            node,
            sequence_number,
            payload_length_count as u8,
            length,
            flags,
        );
        if header_crc != expected_header_crc {
            return Err(Bi2xFrameParseError::HeaderCrcMismatch { expected: expected_header_crc, actual: header_crc });
        }

        proof {
            if mode == Bi2xFrameMode::ByteSubstitution && length != 0 {
                assert(h.len() != body_start(h, n) + 1);
            }
        }
        let payload: Option<Vec<u8>> = match Self::parse_payload(
            bytes.as_slice(),
            3 + bytes_consumed,
            mode,
            is_encrypted,
            sequence_number,
            length,
            is_from_bio2,
        ) {
            Ok(p) => p,
            Err(e) => return Err(e),
        };
        Ok(Self { node, sequence_number, mode, is_encrypted, payload })
    }
}

impl Bi2xFrame {
    /// Whether `parse` is defined on `bytes`: it is not on a frame that
    /// ends with an escaping `0xFF` in place of its flags byte, nor on a
    /// `ByteSubstitution` frame with a valid header and a declared length
    /// whose payload holds only its CRC byte.
    pub fn parse_is_defined(bytes: &[u8]) -> (ok: bool)
        ensures
            ok == !parse_panics(bytes@),
    {
        if bytes.len() == 0 || bytes[0] != 0xAA {
            return true;
        }
        let h: Vec<u8> = strip_start_markers(bytes);
        if h.len() < 3 {
            return true;
        }
        let decoded = Self::decode_length(vstd::slice::slice_subrange(h.as_slice(), 2, h.len()));
        assert(h@.subrange(2, h.len() as int) =~= h@.skip(2));
        let (length, n): (u32, usize) = match decoded {
            Ok(v) => v,
            Err(_) => return true,
        };
        if h.len() < 3 + n {
            return true;
        }
        let escaped: bool = h[2 + n] == 0xFF;
        if escaped && h.len() == 3 + n {
            return false;
        }
        let flags: u8 = if escaped { !h[3 + n] } else { h[2 + n] };
        let start: usize = if escaped { 4 + n } else { 3 + n };
        let is_byte_substitution: bool = flags & 0xE0 == 0x60;
        let crc_matches: bool = flags & 0x0F == Self::get_header_crc(h[0], h[1], n as u8, length, flags);
        !(is_byte_substitution && crc_matches && length != 0 && h.len() == start + 1)
    }
}

impl Bi2xFrame {
    /// The frame's payload in its mode's wire form, without CRC.
    fn encode_payload(&self, payload: &Vec<u8>) -> (res: Result<Vec<u8>, Bi2xFrameToBytesError>)
        ensures
            match res {
                Ok(body) => chosen_substitution_byte(payload@) is Some || self.mode != Bi2xFrameMode::ByteSubstitution,
                Err(e) => self.mode == Bi2xFrameMode::ByteSubstitution && chosen_substitution_byte(payload@) is None
                    && e == Bi2xFrameToBytesError::NoSuitableSubstitutionByte,
            },
            res matches Ok(body) ==> payload_encoding(self.mode, payload@, body@),
    {
        match self.mode {
            Bi2xFrameMode::Escaped => {
                // 0xFF and 0xAA are sent as 0xFF and their inverse.
                Ok(escape_payload(payload.as_slice()))
            },
            Bi2xFrameMode::Compressed => Ok(deflate(payload.as_slice())),
            Bi2xFrameMode::ByteSubstitution => {
                // Choose a substitution byte that is neither in the payload nor
                // 0xAA; it stands for every 0xAA and goes in front.
                let mut substitution_byte: u8 = 0x01;
                while contains_byte(payload.as_slice(), substitution_byte) || substitution_byte == 0xAA
                    invariant
                        self.mode == Bi2xFrameMode::ByteSubstitution,
                        1 <= substitution_byte,
                        substitution_byte_from(payload@, substitution_byte as nat) == chosen_substitution_byte(payload@),
                    decreases 256 - substitution_byte,
                {
                    let ghost tried = substitution_byte;
                    assert(substitution_byte_from(payload@, tried as nat)
                        == substitution_byte_from(payload@, tried as nat + 1));
                    substitution_byte = substitution_byte.wrapping_add(1);
                    if substitution_byte == 0x00 {
                        assert(tried == 255);
                        assert(substitution_byte_from(payload@, 256) is None);
                        return Err(Bi2xFrameToBytesError::NoSuitableSubstitutionByte);
                    }
                }
                Ok(substitute_payload(payload.as_slice(), substitution_byte))
            },
            Bi2xFrameMode::Raw => Ok(vstd::slice::slice_to_vec(payload.as_slice())),
        }
    }

    /// Writes the frame out. `is_for_bio2` tells whether the frame is sent to
    /// the board, as encryption differs in the two directions.
    pub fn to_bytes(&self, is_for_bio2: bool) -> (res: Result<Vec<u8>, Bi2xFrameToBytesError>)
        ensures
            match res {
                Ok(bytes) => to_bytes_error(self@) is None && frame_bytes_ok(self@, is_for_bio2, bytes@),
                Err(e) => to_bytes_error(self@) == Some(e),
            },
    {
        let mut bytes: Vec<u8> = Vec::new();

        // Start marker and header
        bytes.push(0xAA);
        bytes.push(self.node);
        bytes.push(self.sequence_number);

        let payload_length: u32 = match &self.payload {
            Some(p) => p.len() as u32,
            None => 0,
        };
        assert(payload_length == payload_len_field(self@));
        let mut payload_length_bytes: Vec<u8> = match Self::encode_length(payload_length) {
            Ok(v) => v,
            Err(e) => return Err(e),
        };
        let count: u8 = payload_length_bytes.len() as u8;

        // Flags
        let flags: u8 = (match self.mode {
            Bi2xFrameMode::Compressed => 0x80u8,
            Bi2xFrameMode::Raw => 0x40u8,
            Bi2xFrameMode::Escaped => 0x00u8,
            Bi2xFrameMode::ByteSubstitution => 0x60u8,
        }) | if self.is_encrypted { 0x10u8 } else { 0x00u8 };

        // Header CRC
        let header_crc: u8 = Self::get_header_crc(
            self.node,
            self.sequence_number,
            count,
            payload_length,
            flags,
        );
        bytes.append(&mut payload_length_bytes);
        bytes.push(flags | header_crc);
        assert(bytes@ =~= header_bytes(self@));

        match &self.payload {
            Some(payload) => {
                let payload_crc: u8 = Self::payload_crc(payload.as_slice());
                let mut payload_bytes: Vec<u8> = match self.encode_payload(payload) {
                    Ok(b) => b,
                    Err(e) => return Err(e),
                };
                let ghost body = payload_bytes@;
                payload_bytes.push(payload_crc);

                // Encrypt if needed
                if self.is_encrypted {
                    payload_bytes = encrypt_bi2x_payload(self.sequence_number, payload_bytes.as_slice(), is_for_bio2);
                }
                let ghost head = bytes@;
                bytes.append(&mut payload_bytes);
                assert(bytes@ == header_bytes(self@) + seal(self@, is_for_bio2, body.push(payload_crc_of(payload@))));
                assert(payload_encoding(self.mode, payload@, body));
                Ok(bytes)
            },
            None => Ok(bytes),
        }
    }
}

// ── laws ────────────────────────────────────────────────────────────────────

/// A length whose bits all fit its encoding decodes to itself, whatever
/// follows it.
pub proof fn lemma_vlq_roundtrip(length: u32, tail: Seq<u8>)
    requires
        vlq_exact(length as int),
    ensures
        vlq_decode(vlq_encode(length) + tail) == Ok::<(nat, nat), Bi2xFrameParseError>((length as nat, vlq_encode(length).len())),
        1 <= vlq_encode(length).len() <= 4,
{
    let e = vlq_encode(length);
    let d = e + tail;
    let low: u8 = (length as u8) & 0x7F;
    lemma_vlq_bits(length);
    if length <= 0x7F {
        assert(d[0] == length as u8);
    } else if length <= 0x3FFF {
        let b0 = length_byte(length, 7);
        assert(d[0] == b0 && d[1] == low);
        assert(vlq_decode_from(d, 1, (b0 - 0xC0) as nat) == Ok::<(nat, nat), Bi2xFrameParseError>((length as nat, 2)));
    } else if length <= 0x1FFFFF {
        let b0 = length_byte(length, 13);
        let b1 = length_byte(length, 7);
        assert(d[0] == b0 && d[1] == b1 && d[2] == low);
        let v0 = (b0 - 0xC0) as nat;
        let v1 = (v0 * 64 + (b1 - 0xC0)) as nat;
        assert(vlq_decode_from(d, 2, v1) == Ok::<(nat, nat), Bi2xFrameParseError>((length as nat, 3)));
        assert(vlq_decode_from(d, 1, v0) == vlq_decode_from(d, 2, v1));
    } else {
        let b0 = length_byte(length, 19);
        let b1 = length_byte(length, 13);
        let b2 = length_byte(length, 7);
        assert(d[0] == b0 && d[1] == b1 && d[2] == b2 && d[3] == low);
        let v0 = (b0 - 0xC0) as nat;
        let v1 = (v0 * 64 + (b1 - 0xC0)) as nat;
        let v2 = (v1 * 64 + (b2 - 0xC0)) as nat;
        assert(vlq_decode_from(d, 3, v2) == Ok::<(nat, nat), Bi2xFrameParseError>((length as nat, 4)));
        assert(vlq_decode_from(d, 2, v1) == vlq_decode_from(d, 3, v2));
        assert(vlq_decode_from(d, 1, v0) == vlq_decode_from(d, 2, v1));
    }
}

/// The arithmetic meaning of the bytes of a length encoding.
proof fn lemma_vlq_bits(length: u32)
    by (bit_vector)
    ensures
        ((length as u8) & 0x7F) < 0x80,
        ((length as u8) & 0x7F) == length % 128,
        length <= 0x7F ==> (length as u8) as u32 == length,
        length_byte(length, 7) >= 0xC0 && length_byte(length, 7) - 0xC0 == (length >> 7) % 64,
        length_byte(length, 13) >= 0xC0 && length_byte(length, 13) - 0xC0 == (length >> 13) % 64,
        length_byte(length, 19) >= 0xC0 && length_byte(length, 19) - 0xC0 == (length >> 19) % 64,
        length < 0x2000 ==> ((length >> 7) % 64) * 128 + length % 128 == length,
        0x4000 <= length < 0x80000 ==> (((length >> 13) % 64) * 64 + (length >> 7) % 64) * 128 + length % 128 == length,
        0x200000 <= length < 0x2000000 ==> ((((length >> 19) % 64) * 64 + (length >> 13) % 64) * 64 + (length >> 7) % 64) * 128
            + length % 128 == length,
{
}

/// Escaping a payload and removing the escapes gives it back.
pub proof fn lemma_unescape_escape(p: Seq<u8>)
    ensures
        unescape(escape(p)) == p,
    decreases p.len(),
{
    if p.len() == 0 {
        assert(escape(p) =~= Seq::<u8>::empty());
        assert(unescape(escape(p)) =~= p);
    } else {
        let b = p[0];
        let rest = p.drop_first();
        lemma_unescape_escape(rest);
        let e = escape(rest);
        if b == 0xFF || b == 0xAA {
            let whole = seq![0xFFu8, !b] + e;
            assert(escape(p) == whole);
            assert(whole.drop_first() =~= seq![!b] + e);
            assert((seq![!b] + e).drop_first() =~= e);
            lemma_nibble(b);
            assert(unescape_from(seq![!b] + e, true) == seq![b] + unescape_from(e, false));
            assert(unescape(whole) == unescape_from(seq![!b] + e, true));
        } else {
            let whole = seq![b] + e;
            assert(escape(p) == whole);
            assert(whole.drop_first() =~= e);
        }
        assert(unescape(escape(p)) =~= p);
    }
}

/// Substituting a byte that is neither `0xAA` nor in the payload, then
/// undoing it, gives the payload back.
pub proof fn lemma_unsubstitute_substitute(p: Seq<u8>, s: u8)
    requires
        s != 0xAA,
        !p.contains(s),
    ensures
        unsubstitute(substitute(p, s)) == p,
{
    let d = substitute(p, s);
    assert forall|i: int| 0 <= i < p.len() implies #[trigger] unsubstitute(d)[i] == p[i] by {
        assert(d[i + 1] == if p[i] == 0xAA { s } else { p[i] });
        if p[i] == s {
            assert(p.contains(s));
        }
    }
    assert(unsubstitute(d) =~= p);
}

/// The substitution byte found for a payload is neither `0xAA` nor in it.
proof fn lemma_substitution_byte_fresh(p: Seq<u8>, c: nat)
    requires
        substitution_byte_from(p, c) matches Some(s),
    ensures
        substitution_byte_from(p, c) matches Some(s) && s != 0xAA && !p.contains(s),
    decreases 256 - c,
{
    if c < 256 && !(c != 0xAA && !p.contains(c as u8)) {
        lemma_substitution_byte_fresh(p, c + 1);
    }
}

proof fn lemma_strip_one(bytes: Seq<u8>)
    requires
        bytes.len() >= 2,
        bytes[0] == 0xAA,
        bytes[1] != 0xAA,
    ensures
        strip_markers(bytes) == bytes.drop_first(),
{
    assert(strip_markers(bytes.drop_first()) == bytes.drop_first());
}

/// The flags byte of a written frame: never `0xFF`, and it reads back as the
/// frame's mode, encryption and header CRC.
proof fn lemma_written_flags(f: Bi2xFrameView, crc: u8)
    requires
        crc < 16,
    ensures
        (frame_flags(f) | crc) != 0xFF,
        mode_of_flags(frame_flags(f) | crc) == Some(f.mode),
        ((frame_flags(f) | crc) & 0x10 != 0) == f.is_encrypted,
        (frame_flags(f) | crc) & 0x0F == crc,
        (frame_flags(f) | crc) & 0xF0 == frame_flags(f) & 0xF0,
{
    let m = mode_flags(f.mode);
    let e: u8 = if f.is_encrypted { 0x10u8 } else { 0x00u8 };
    let fb = (m | e) | crc;
    assert((m == 0x80 || m == 0x40 || m == 0x00 || m == 0x60) && (e == 0x10 || e == 0) && crc < 16 ==> {
        &&& fb != 0xFF
        &&& fb & 0xE0 == m
        &&& (fb & 0x10 != 0) == (e == 0x10)
        &&& fb & 0x0F == crc
        &&& fb & 0xF0 == (m | e) & 0xF0
    }) by (bit_vector)
        requires fb == (m | e) | crc;
}

proof fn lemma_header_crc_small(node: u8, sequence_number: u8, count: u8, length: u32, flags: u8)
    ensures
        header_crc(node, sequence_number, count, length, flags) < 16,
{
    let c = crc4(0xF, header_crc_bytes(node, sequence_number, count, length, flags));
    lemma_crc4_small(0xF, header_crc_bytes(node, sequence_number, count, length, flags));
    lemma_nibble(c);
}

/// A frame written out parses back, on the other side, as the same frame:
/// bytes written for the board parse as not coming from the board and the
/// other way round. This needs a node other than `0xAA` (the parser skips
/// leading `0xAA` bytes), a present payload that is not empty, and a payload
/// length whose bits all fit its length encoding.
#[verifier::spinoff_prover]
#[verifier::rlimit(40)]
pub proof fn lemma_frame_roundtrip(f: Bi2xFrameView, is_for_bio2: bool, bytes: Seq<u8>)
    requires
        to_bytes_error(f) is None,
        frame_bytes_ok(f, is_for_bio2, bytes),
        f.node != 0xAA,
        f.payload matches Some(p) ==> p.len() > 0 && vlq_exact(p.len() as int),
    ensures
        !parse_panics(bytes),
        spec_parse(bytes, !is_for_bio2) == Ok::<Bi2xFrameView, Bi2xFrameParseError>(f),
{
    let length = payload_len_field(f);
    let enc = vlq_encode(length);
    let n = enc.len();
    let flags = frame_flags(f);
    let crc = header_crc(f.node, f.sequence_number, n as u8, length, flags);
    let fb = flags | crc;
    let head = header_bytes(f);
    let rest = bytes.skip(head.len() as int);
    assert(bytes =~= head + rest);
    lemma_header_crc_small(f.node, f.sequence_number, n as u8, length, flags);
    lemma_written_flags(f, crc);
    lemma_vlq_roundtrip(length, seq![fb] + rest);
    let h = bytes.drop_first();
    lemma_strip_one(bytes);
    assert(h.skip(2) =~= enc + (seq![fb] + rest));
    assert(h[0] == f.node && h[1] == f.sequence_number);
    assert(h[2 + n as int] == fb);
    assert(flags_at(h, n) == fb);
    assert(h.skip(body_start(h, n)) =~= rest);
    assert(header_crc_bytes(f.node, f.sequence_number, n as u8, length, fb)
        =~= header_crc_bytes(f.node, f.sequence_number, n as u8, length, flags));
    match f.payload {
        None => {
            assert(rest =~= Seq::<u8>::empty());
            assert(parse_body(h, length as nat, n, !is_for_bio2) == Ok::<Bi2xFrameView, Bi2xFrameParseError>(f));
        },
        Some(p) => {
            let body = choose|body: Seq<u8>|
                #[trigger] payload_encoding(f.mode, p, body)
                    && bytes == header_bytes(f) + seal(f, is_for_bio2, body.push(payload_crc_of(p)));
            let sealed = body.push(payload_crc_of(p));
            assert(rest =~= seal(f, is_for_bio2, sealed));
            let clear = if f.is_encrypted {
                scramble_stream(decrypt_seed(f.sequence_number, !is_for_bio2), rest)
            } else {
                rest
            };
            crate::crypt::bi2x_payload::lemma_decrypt_encrypt(f.sequence_number, sealed, is_for_bio2);
            assert(clear == sealed);
            assert(sealed.drop_last() =~= body);
            match f.mode {
                Bi2xFrameMode::Escaped => {
                    lemma_unescape_escape(p);
                },
                Bi2xFrameMode::ByteSubstitution => {
                    let s = chosen_substitution_byte(p)->0;
                    lemma_substitution_byte_fresh(p, 1);
                    lemma_unsubstitute_substitute(p, s);
                    lemma_scramble_stream_len(encrypt_seed(f.sequence_number, is_for_bio2), sealed);
                    assert(rest.len() >= 2);
                },
                _ => {},
            }
            assert(decode_payload(f.mode, body, length as nat) == p);
            assert(parse_body(h, length as nat, n, !is_for_bio2) == Ok::<Bi2xFrameView, Bi2xFrameParseError>(f));
        },
    }
}

} // verus!
