//! Responses of a BI2X board, read from the payload of a frame.

use vstd::prelude::*;
use crate::bi2x_protocol::frame::{Bi2xFrame, Bi2xFrameView};
use crate::text::{string_from_utf8_lossy, utf8_lossy};

verus! {

/// A response of the board.
#[derive(Debug)]
pub enum Bi2xResponse {
    /// Answer to a ping.
    Pong,
    /// Answer to an initialisation; it fails when the board already is.
    InitializationResult { success: bool },
    /// Answer to a firmware version request.
    FirmwareVersion { success: bool, major: u8, minor: u8, patch: u8, name: String, timestamp_ms: u64 },
    /// Answer to a memory allocation, with the handle of the memory.
    MemoryAllocationResult { success: bool, handle: u8 },
    /// Answer to the upload of a firmware chunk.
    FirmwareUploadChunkResult { success: bool },
    /// Answer to the end of a firmware upload, with the firmware's handle.
    FirmwareUploadFinishResult { success: bool, handle: u8 },
    /// An error answer with its code.
    Error { code: u8 },
}

/// A response with its text as characters.
pub enum Bi2xResponseView {
    Pong,
    InitializationResult { success: bool },
    FirmwareVersion { success: bool, major: u8, minor: u8, patch: u8, name: Seq<char>, timestamp_ms: u64 },
    MemoryAllocationResult { success: bool, handle: u8 },
    FirmwareUploadChunkResult { success: bool },
    FirmwareUploadFinishResult { success: bool, handle: u8 },
    Error { code: u8 },
}

impl View for Bi2xResponse {
    type V = Bi2xResponseView;

    open spec fn view(&self) -> Bi2xResponseView {
        match *self {
            Bi2xResponse::Pong => Bi2xResponseView::Pong,
            Bi2xResponse::InitializationResult { success } => Bi2xResponseView::InitializationResult { success },
            Bi2xResponse::FirmwareVersion { success, major, minor, patch, name, timestamp_ms } =>
                Bi2xResponseView::FirmwareVersion { success, major, minor, patch, name: name@, timestamp_ms },
            Bi2xResponse::MemoryAllocationResult { success, handle } =>
                Bi2xResponseView::MemoryAllocationResult { success, handle },
            Bi2xResponse::FirmwareUploadChunkResult { success } =>
                Bi2xResponseView::FirmwareUploadChunkResult { success },
            Bi2xResponse::FirmwareUploadFinishResult { success, handle } =>
                Bi2xResponseView::FirmwareUploadFinishResult { success, handle },
            Bi2xResponse::Error { code } => Bi2xResponseView::Error { code },
        }
    }
}

/// Why a payload cannot be read as responses.
#[derive(Debug)]
pub enum FrameToResponseError {
    UnexpectedEndOfPayload,
    UnknownResponseType { node: u8, response_type: u8 },
    UnexpectedHandle { handle: u8 },
    UnknownNode { node: u8 },
}

/// The firmware time stamp, in milliseconds: a big-endian count of minutes.
pub open spec fn timestamp_of(b: Seq<u8>) -> u64 {
    ((b[15] * 0x1000000 + b[16] * 0x10000 + b[17] * 0x100 + b[18]) * 60000) as u64
}

/// The response at the start of `b`, from node `node`, and the number of
/// bytes it takes.
pub open spec fn spec_from_bytes(node: u8, b: Seq<u8>) -> Result<(Bi2xResponseView, nat), FrameToResponseError> {
    if b.len() == 1 {
        Err(FrameToResponseError::UnexpectedEndOfPayload)
    } else if node == 0x00 {
        if b.len() == 0 {
            Ok((Bi2xResponseView::Pong, 0))
        } else if b.len() < 3 {
            Err(FrameToResponseError::UnexpectedEndOfPayload)
        } else if b[0] == 0x00 && b[1] == 0x01 {
            Ok((Bi2xResponseView::InitializationResult { success: b[2] == 0x00 }, 3))
        } else {
            Err(FrameToResponseError::UnknownResponseType { node, response_type: b[1] })
        }
    } else if node == 0x03 {
        let min_len: nat = if b[1] == 0x02 { 35 } else if b[1] == 0x10 || b[1] == 0x78 { 4 } else { 3 };
        if !(b[1] == 0x02 || b[1] == 0x10 || b[1] == 0x13 || b[1] == 0x78) {
            Err(FrameToResponseError::UnknownResponseType { node, response_type: b[1] })
        } else if b.len() < min_len {
            Err(FrameToResponseError::UnexpectedEndOfPayload)
        } else if b[0] != 0x00 {
            Err(FrameToResponseError::UnexpectedHandle { handle: b[0] })
        } else {
            let success = b[2] == 0x00;
            let r = if b[1] == 0x02 {
                Bi2xResponseView::FirmwareVersion {
                    success,
                    major: b[8],
                    minor: b[9],
                    patch: b[10],
                    name: utf8_lossy(b.subrange(11, 15)),
                    timestamp_ms: timestamp_of(b),
                }
            } else if b[1] == 0x10 {
                Bi2xResponseView::MemoryAllocationResult { success, handle: b[3] }
            } else if b[1] == 0x13 {
                Bi2xResponseView::FirmwareUploadChunkResult { success }
            } else {
                Bi2xResponseView::FirmwareUploadFinishResult { success, handle: b[3] }
            };
            Ok((r, min_len))
        }
    } else {
        Err(FrameToResponseError::UnknownNode { node })
    }
}

/// A response read from a non-empty payload takes at least one byte and no
/// more than there are.
pub proof fn lemma_from_bytes_consumes(node: u8, b: Seq<u8>)
    requires
        b.len() > 0,
    ensures
        spec_from_bytes(node, b) matches Ok((r, k)) ==> 1 <= k <= b.len(),
{
}

/// The responses from byte `consumed` of payload `p` on.
pub open spec fn responses_from(node: u8, p: Seq<u8>, consumed: nat) -> Result<Seq<Bi2xResponseView>, FrameToResponseError>
    decreases p.len() - consumed,
{
    if consumed >= p.len() {
        Ok(Seq::empty())
    } else {
        proof {
            lemma_from_bytes_consumes(node, p.skip(consumed as int));
        }
        match spec_from_bytes(node, p.skip(consumed as int)) {
            Err(e) => Err(e),
            Ok((r, k)) => match responses_from(node, p, consumed + k) {
                Err(e) => Err(e),
                Ok(rest) => Ok(seq![r] + rest),
            },
        }
    }
}

/// The payload of a frame, empty when it has none.
pub open spec fn payload_bytes(f: Bi2xFrameView) -> Seq<u8> {
    match f.payload {
        Some(p) => p,
        None => Seq::empty(),
    }
}

/// The responses a payload from `node` holds, back to back: the first one
/// is read even from an empty payload.
pub open spec fn spec_from_frame(node: u8, p: Seq<u8>) -> Result<Seq<Bi2xResponseView>, FrameToResponseError> {
    match spec_from_bytes(node, p) {
        Err(e) => Err(e),
        Ok((r, k)) => match responses_from(node, p, k) {
            Err(e) => Err(e),
            Ok(rest) => Ok(seq![r] + rest),
        },
    }
}

/// `done` followed by what `rest` gives, or the error it gives.
pub open spec fn prepend(
    done: Seq<Bi2xResponseView>,
    rest: Result<Seq<Bi2xResponseView>, FrameToResponseError>,
) -> Result<Seq<Bi2xResponseView>, FrameToResponseError> {
    match rest {
        Ok(rs) => Ok(done + rs),
        Err(e) => Err(e),
    }
}

proof fn lemma_prepend_assoc(
    a: Seq<Bi2xResponseView>,
    b: Seq<Bi2xResponseView>,
    x: Result<Seq<Bi2xResponseView>, FrameToResponseError>,
)
    ensures
        prepend(a, prepend(b, x)) == prepend(a + b, x),
{
    if let Ok(rs) = x {
        assert(a + (b + rs) =~= (a + b) + rs);
    }
}

pub open spec fn responses_view(v: Seq<Bi2xResponse>) -> Seq<Bi2xResponseView> {
    v.map_values(|r: Bi2xResponse| r@)
}

proof fn lemma_timestamp_bits(a: u8, b: u8, c: u8, d: u8)
    by (bit_vector)
    ensures
        ((a as u64) << 24 | (b as u64) << 16 | (c as u64) << 8 | d as u64)
            == a * 0x1000000 + b * 0x10000 + c * 0x100 + d,
        ((a as u64) << 24 | (b as u64) << 16 | (c as u64) << 8 | d as u64) < 0x100000000,
{
}

impl Bi2xResponse {
    #[verifier::rlimit(30)]
    fn from_bytes(node: u8, bytes: &[u8]) -> (res: Result<(Bi2xResponse, usize), FrameToResponseError>)
        requires
            node == 0x03 ==> bytes.len() != 0,
        ensures
            match res {
                Ok((r, k)) => spec_from_bytes(node, bytes@) == Ok::<(Bi2xResponseView, nat), FrameToResponseError>((r@, k as nat)),
                Err(e) => spec_from_bytes(node, bytes@) == Err::<(Bi2xResponseView, nat), FrameToResponseError>(e),
            },
    {
        let mut consumed_bytes: usize = 0;

        if bytes.len() == 1 {
            return Err(FrameToResponseError::UnexpectedEndOfPayload);
        }

        match node {
            0x00 => {
                if bytes.len() == 0 {
                    return Ok((Bi2xResponse::Pong, consumed_bytes));
                }
                if bytes.len() < 3 {
                    return Err(FrameToResponseError::UnexpectedEndOfPayload);
                }
                if bytes[0] == 0x00 && bytes[1] == 0x01 {
                    let success: bool = bytes[2] == 0x00;
                    consumed_bytes += 3;
                    return Ok((Bi2xResponse::InitializationResult { success }, consumed_bytes));
                }
                Err(FrameToResponseError::UnknownResponseType { node, response_type: bytes[1] })
            },
            0x03 => match bytes[1] {
                0x02 => {
                    if bytes.len() < 35 {
                        return Err(FrameToResponseError::UnexpectedEndOfPayload);
                    }
                    if bytes[0] != 0x00 {
                        return Err(FrameToResponseError::UnexpectedHandle { handle: bytes[0] });
                    }
                    let success: bool = bytes[2] == 0x00;
                    let major: u8 = bytes[8];
                    let minor: u8 = bytes[9];
                    let patch: u8 = bytes[10];
                    let name: String = string_from_utf8_lossy(vstd::slice::slice_subrange(bytes, 11, 15));
                    proof {
                        lemma_timestamp_bits(bytes[15], bytes[16], bytes[17], bytes[18]);
                    }
                    let minutes: u64 = (bytes[15] as u64) << 24 | (bytes[16] as u64) << 16
                        | (bytes[17] as u64) << 8 | bytes[18] as u64;
                    let timestamp_ms: u64 = minutes * 60000;
                    consumed_bytes += 35;
                    Ok((Bi2xResponse::FirmwareVersion { success, major, minor, patch, name, timestamp_ms }, consumed_bytes))
                },
                0x10 => {
                    if bytes.len() < 4 {
                        return Err(FrameToResponseError::UnexpectedEndOfPayload);
                    }
                    if bytes[0] != 0x00 {
                        return Err(FrameToResponseError::UnexpectedHandle { handle: bytes[0] });
                    }
                    let success: bool = bytes[2] == 0x00;
                    let allocated_handle: u8 = bytes[3];
                    consumed_bytes += 4;
                    Ok((Bi2xResponse::MemoryAllocationResult { success, handle: allocated_handle }, consumed_bytes))
                },
                0x13 => {
                    if bytes.len() < 3 {
                        return Err(FrameToResponseError::UnexpectedEndOfPayload);
                    }
                    if bytes[0] != 0x00 {
                        return Err(FrameToResponseError::UnexpectedHandle { handle: bytes[0] });
                    }
                    let success: bool = bytes[2] == 0x00;
                    consumed_bytes += 3;
                    Ok((Bi2xResponse::FirmwareUploadChunkResult { success }, consumed_bytes))
                },
                0x78 => {
                    if bytes.len() < 4 {
                        return Err(FrameToResponseError::UnexpectedEndOfPayload);
                    }
                    if bytes[0] != 0x00 {
                        return Err(FrameToResponseError::UnexpectedHandle { handle: bytes[0] });
                    }
                    let success: bool = bytes[2] == 0x00;
                    let firmware_handle: u8 = bytes[3];
                    consumed_bytes += 4;
                    Ok((Bi2xResponse::FirmwareUploadFinishResult { success, handle: firmware_handle }, consumed_bytes))
                },
                _ => Err(FrameToResponseError::UnknownResponseType { node, response_type: bytes[1] }),
            },
            _ => Err(FrameToResponseError::UnknownNode { node }),
        }
    }

    /// Reads the responses a frame's payload holds; one frame may carry
    /// several, back to back.
    pub fn from_frame(frame: Bi2xFrame) -> (res: Result<Vec<Bi2xResponse>, FrameToResponseError>)
        requires
            frame.node == 0x03 ==> payload_bytes(frame@).len() != 0,
        ensures
            match res {
                Ok(v) => spec_from_frame(frame.node, payload_bytes(frame@))
                    == Ok::<Seq<Bi2xResponseView>, FrameToResponseError>(responses_view(v@)),
                Err(e) => spec_from_frame(frame.node, payload_bytes(frame@))
                    == Err::<Seq<Bi2xResponseView>, FrameToResponseError>(e),
            },
    {
        let mut responses: Vec<Bi2xResponse> = Vec::new();
        let node: u8 = frame.node;
        let payload: Vec<u8> = match frame.payload {
            Some(p) => p,
            None => Vec::new(),
        };
        let ghost p = payload@;
        let payload_length: usize = payload.len();

        let (first_response, mut consumed_bytes): (Bi2xResponse, usize) = match Self::from_bytes(node, payload.as_slice()) {
            Ok(v) => v,
            Err(e) => return Err(e),
        };
        responses.push(first_response);
        assert(responses_view(responses@) =~= seq![first_response@]);
        proof {
            if p.len() > 0 {
                lemma_from_bytes_consumes(node, p);
            }
        }

        while consumed_bytes < payload_length
            invariant
                payload@ == p,
                p == payload_bytes(frame@),
                node == frame.node,
                payload_length == p.len(),
                consumed_bytes <= payload_length,
                spec_from_frame(node, p) == prepend(responses_view(responses@), responses_from(node, p, consumed_bytes as nat)),
            decreases payload_length - consumed_bytes,
        {
            let rest: &[u8] = vstd::slice::slice_subrange(payload.as_slice(), consumed_bytes, payload_length);
            assert(rest@ =~= p.skip(consumed_bytes as int));
            proof {
                lemma_from_bytes_consumes(node, rest@);
            }
            let ghost c = consumed_bytes as nat;
            let (response, bytes_consumed): (Bi2xResponse, usize) = match Self::from_bytes(node, rest) {
                Ok(v) => v,
                Err(e) => {
                    assert(responses_from(node, p, c) == Err::<Seq<Bi2xResponseView>, FrameToResponseError>(e));
                    return Err(e);
                },
            };
            let ghost before = responses_view(responses@);
            responses.push(response);
            assert(responses_view(responses@) =~= before + seq![response@]);
            consumed_bytes += bytes_consumed;
            proof {
                assert(responses_from(node, p, c) == prepend(seq![response@], responses_from(node, p, consumed_bytes as nat)));
                lemma_prepend_assoc(before, seq![response@], responses_from(node, p, consumed_bytes as nat));
            }
        }
        Ok(responses)
    }
}

} // verus!
