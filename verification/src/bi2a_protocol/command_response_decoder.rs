//! A decoder that reads BI2A responses one byte at a time, as they come from
//! the serial port.

use vstd::prelude::*;
use crate::bi2a_protocol::command_response::{
    spec_from_frame, CommandResponse, CommandResponseParseError, CommandResponseParseErrorView, CommandResponseView,
    ParseResult,
};

verus! {

/// Accumulates bytes until a whole frame has come, then parses it and
/// starts over. `0xFF` escapes the next byte, which is stored inverted.
pub struct CommandResponseDecoder {
    core: DecoderCore,
}

/// The bytes of the frame so far, its length once known, and whether an
/// escape is pending.
struct DecoderCore {
    bytes: Vec<u8>,
    expected_length: Option<usize>,
    escaping: bool,
}

/// The decoder's state: the frame bytes so far, the frame length once it is
/// known, and whether the last byte was an escaping `0xFF`.
pub struct DecoderState {
    pub bytes: Seq<u8>,
    pub expected_length: Option<usize>,
    pub escaping: bool,
}

impl View for DecoderCore {
    type V = DecoderState;

    closed spec fn view(&self) -> DecoderState {
        DecoderState { bytes: self.bytes@, expected_length: self.expected_length, escaping: self.escaping }
    }
}

impl View for CommandResponseDecoder {
    type V = DecoderState;

    closed spec fn view(&self) -> DecoderState {
        self.core@
    }
}

/// Why the decoder refused a byte or a frame.
#[derive(Debug)]
pub enum CommandResponseDecoderError {
    UnknownStartByte(u8),
    CommandResponseParseError(CommandResponseParseError),
}

/// What one byte does to the decoder.
pub enum DecoderStep {
    /// The byte cannot start a frame; nothing changes.
    UnknownStart(u8),
    /// The byte was taken and the frame is not complete: the new state.
    Incomplete(DecoderState),
    /// The byte completed this frame; the decoder starts over.
    Frame(Seq<u8>),
}

/// A decoder with nothing in it.
pub open spec fn empty_state() -> DecoderState {
    DecoderState { bytes: Seq::empty(), expected_length: None, escaping: false }
}

/// After a byte was stored: an `AA` frame's length is known once its length
/// byte (the seventh) has come, and the frame is complete when it has as
/// many bytes as expected.
pub open spec fn complete_step(d: DecoderState) -> DecoderStep {
    let expected = if d.bytes[0] == 0xAA && d.bytes.len() == 7 {
        Some((d.bytes[6] + 8) as usize)
    } else {
        d.expected_length
    };
    if expected matches Some(n) && d.bytes.len() == n {
        DecoderStep::Frame(d.bytes)
    } else {
        DecoderStep::Incomplete(DecoderState { bytes: d.bytes, expected_length: expected, escaping: d.escaping })
    }
}

/// What `byte` does to a decoder in state `d`. A frame starts with a byte
/// `0xA?`; `0xA0` is a whole frame. After `0xA8` a second byte `0xA?` makes a
/// two-byte frame and any other a five-byte frame. After the first byte,
/// every `0xFF` escapes the next byte, which is stored inverted. Outside
/// `AA` frames a later `0xA?` byte, not escaped, ends the frame.
pub open spec fn decoder_step(d: DecoderState, byte: u8) -> DecoderStep {
    if d.bytes.len() == 0 {
        if byte & 0xF0 != 0xA0 {
            DecoderStep::UnknownStart(byte)
        } else {
            complete_step(DecoderState {
                bytes: seq![byte],
                expected_length: if byte == 0xA0 { Some(1usize) } else { d.expected_length },
                escaping: d.escaping,
            })
        }
    } else if d.escaping {
        complete_step(DecoderState { bytes: d.bytes.push(!byte), expected_length: d.expected_length, escaping: false })
    } else if d.bytes.len() == 1 && d.bytes[0] == 0xA8 {
        let expected = if byte & 0xF0 == 0xA0 { Some(2usize) } else { Some(5usize) };
        if byte == 0xFF {
            DecoderStep::Incomplete(DecoderState { bytes: d.bytes, expected_length: expected, escaping: true })
        } else {
            complete_step(DecoderState { bytes: d.bytes.push(byte), expected_length: expected, escaping: d.escaping })
        }
    } else if byte == 0xFF {
        DecoderStep::Incomplete(DecoderState { bytes: d.bytes, expected_length: d.expected_length, escaping: true })
    } else {
        let expected = if d.bytes[0] != 0xAA && byte & 0xF0 == 0xA0 {
            Some((d.bytes.len() + 1) as usize)
        } else {
            d.expected_length
        };
        complete_step(DecoderState { bytes: d.bytes.push(byte), expected_length: expected, escaping: d.escaping })
    }
}

/// What `update` returned, as a parse result when a frame was parsed.
pub open spec fn parsed_view(res: Result<Option<CommandResponse>, CommandResponseDecoderError>) -> Option<ParseResult> {
    match res {
        Ok(Some(r)) => Some(Ok(r@)),
        Err(CommandResponseDecoderError::CommandResponseParseError(e)) => Some(Err(e@)),
        _ => None,
    }
}

/// What `update_get_raw` returned, as a parse result when a frame was
/// parsed, with the frame when it parsed.
pub open spec fn parsed_raw_view(
    res: Result<Option<(CommandResponse, Vec<u8>)>, CommandResponseDecoderError>,
) -> Option<(ParseResult, Option<Seq<u8>>)> {
    match res {
        Ok(Some((r, raw))) => Some((Ok(r@), Some(raw@))),
        Err(CommandResponseDecoderError::CommandResponseParseError(e)) => Some((Err(e@), None)),
        _ => None,
    }
}

proof fn lemma_high_nibble(byte: u8)
    by (bit_vector)
    ensures
        byte == 0xA0 ==> byte & 0xF0 == 0xA0,
        byte == 0xAA ==> byte & 0xF0 == 0xA0,
        byte == 0xFF ==> byte & 0xF0 != 0xA0,
        !0u8 == 0xFF,
{
}

impl DecoderCore {
    fn new() -> (d: Self)
        ensures
            d@ == empty_state(),
    {
        DecoderCore { bytes: Vec::new(), expected_length: None, escaping: false }
    }

    /// Stores `byte`, as `decoder_step` says, without the completion check.
    /// Returns `Err` for a byte that cannot start a frame and `Ok(false)`
    /// for an escaping `0xFF`, which is not stored.
    fn accept(&mut self, byte: u8) -> (res: Result<bool, CommandResponseDecoderError>)
        requires
            old(self)@.bytes.len() + 1 < usize::MAX,
        ensures
            match decoder_step(old(self)@, byte) {
                DecoderStep::UnknownStart(b) => {
                    &&& final(self)@ == old(self)@
                    &&& res matches Err(CommandResponseDecoderError::UnknownStartByte(x))
                    &&& x == b
                },
                DecoderStep::Incomplete(s) => res matches Ok(stored) && (stored ==> complete_step(final(self)@) == DecoderStep::Incomplete(s))
                    && (!stored ==> final(self)@ == s),
                DecoderStep::Frame(f) => res == Ok::<bool, CommandResponseDecoderError>(true)
                    && complete_step(final(self)@) == DecoderStep::Frame(f),
            },
            res matches Ok(true) ==> final(self)@.bytes.len() > 0,
    {
        proof {
            lemma_high_nibble(byte);
        }
        if self.bytes.len() == 0 {
            if byte == 0xA0 {
                self.expected_length = Some(1);
            } else if byte & 0xF0 != 0xA0 {
                return Err(CommandResponseDecoderError::UnknownStartByte(byte));
            }
            self.bytes.push(byte);
            assert(self.bytes@ =~= seq![byte]);
        } else if self.escaping {
            self.escaping = false;
            self.bytes.push(!byte);
        } else if self.bytes.len() == 1 && self.bytes[0] == 0xA8 {
            if byte & 0xF0 == 0xA0 {
                self.expected_length = Some(2);
            } else {
                self.expected_length = Some(5);
            }
            if byte == 0xFF {
                self.escaping = true;
                return Ok(false);
            }
            self.bytes.push(byte);
        } else if byte == 0xFF {
            self.escaping = true;
            return Ok(false);
        } else {
            if self.bytes[0] != 0xAA && byte & 0xF0 == 0xA0 {
                self.expected_length = Some(self.bytes.len() + 1);
            }
            self.bytes.push(byte);
        }
        Ok(true)
    }

    /// Sets the length of an `AA` frame once its length byte has come, and
    /// tells whether the frame is complete.
    fn check_complete(&mut self) -> (complete: bool)
        requires
            old(self)@.bytes.len() > 0,
        ensures
            match complete_step(old(self)@) {
                DecoderStep::Frame(f) => complete && final(self)@.bytes == f,
                DecoderStep::Incomplete(s) => !complete && final(self)@ == s,
                DecoderStep::UnknownStart(_) => false,
            },
    {
        if self.bytes[0] == 0xAA {
            if self.bytes.len() == 7 {
                // 7 bytes of header, the payload, then the checksum
                self.expected_length = Some((self.bytes[6] as usize) + 8);
            }
        }
        match self.expected_length {
            Some(expected_length) => self.bytes.len() == expected_length,
            None => false,
        }
    }

}

impl CommandResponseDecoder {
    /// A decoder holding no bytes is a fresh one.
    #[verifier::type_invariant]
    spec fn well_formed(self) -> bool {
        decoder_wf(self.core@)
    }

    /// A decoder with nothing in it.
    pub fn new() -> (d: Self)
        ensures
            d@ == empty_state(),
    {
        CommandResponseDecoder { core: DecoderCore::new() }
    }

    /// Takes the state out, leaving a fresh decoder.
    fn take_core(&mut self) -> (core: DecoderCore)
        ensures
            core@ == old(self)@,
            decoder_wf(core@),
            final(self)@ == empty_state(),
    {
        proof {
            use_type_invariant(&*self);
        }
        let mut core: DecoderCore = DecoderCore::new();
        std::mem::swap(&mut core, &mut self.core);
        core
    }

    /// Feeds one byte. Returns the response when the byte completes a
    /// frame, `None` while the frame is incomplete, and an error for a byte
    /// that cannot start a frame or a complete frame that does not parse.
    /// Once a frame is complete the decoder starts over. Every decoder is
    /// well formed, and after a complete frame or a byte that cannot start
    /// one it is a fresh decoder.
    pub fn update(&mut self, byte: u8) -> (res: Result<Option<CommandResponse>, CommandResponseDecoderError>)
        requires
            old(self)@.bytes.len() + 1 < usize::MAX,
        ensures
            match decoder_step(old(self)@, byte) {
                DecoderStep::UnknownStart(b) => {
                    &&& final(self)@ == old(self)@
                    &&& res matches Err(CommandResponseDecoderError::UnknownStartByte(x))
                    &&& x == b
                },
                DecoderStep::Incomplete(s) => final(self)@ == s && res matches Ok(None),
                DecoderStep::Frame(f) => final(self)@ == empty_state() && parsed_view(res) == Some(spec_from_frame(f, false)),
            },
            decoder_wf(old(self)@),
            decoder_wf(final(self)@),
            decoder_step(old(self)@, byte) is UnknownStart ==> final(self)@ == empty_state(),
    {
        let mut core: DecoderCore = self.take_core();
        proof {
            lemma_decoder_restarts(core@, byte);
        }
        match core.accept(byte) {
            Err(e) => {
                self.core = core;
                return Err(e);
            },
            Ok(false) => {
                self.core = core;
                return Ok(None);
            },
            Ok(true) => {},
        }
        if core.check_complete() {
            let frame: Vec<u8> = vstd::slice::slice_to_vec(core.bytes.as_slice());
            return match CommandResponse::from_frame(frame.as_slice(), false) {
                Ok(r) => Ok(Some(r)),
                Err(e) => Err(CommandResponseDecoderError::CommandResponseParseError(e)),
            };
        }
        self.core = core;
        Ok(None)
    }

    /// Like `update`, and also returns the raw frame with its response.
    pub fn update_get_raw(&mut self, byte: u8) -> (res: Result<Option<(CommandResponse, Vec<u8>)>, CommandResponseDecoderError>)
        requires
            old(self)@.bytes.len() + 1 < usize::MAX,
        ensures
            match decoder_step(old(self)@, byte) {
                DecoderStep::UnknownStart(b) => {
                    &&& final(self)@ == old(self)@
                    &&& res matches Err(CommandResponseDecoderError::UnknownStartByte(x))
                    &&& x == b
                },
                DecoderStep::Incomplete(s) => final(self)@ == s && res matches Ok(None),
                DecoderStep::Frame(f) => {
                    &&& final(self)@ == empty_state()
                    &&& parsed_raw_view(res) matches Some((r, raw))
                    &&& r == spec_from_frame(f, false)
                    &&& r is Ok ==> raw == Some(f)
                },
            },
            decoder_wf(old(self)@),
            decoder_wf(final(self)@),
            decoder_step(old(self)@, byte) is UnknownStart ==> final(self)@ == empty_state(),
    {
        let mut core: DecoderCore = self.take_core();
        proof {
            lemma_decoder_restarts(core@, byte);
        }
        match core.accept(byte) {
            Err(e) => {
                self.core = core;
                return Err(e);
            },
            Ok(false) => {
                self.core = core;
                return Ok(None);
            },
            Ok(true) => {},
        }
        if core.check_complete() {
            let frame: Vec<u8> = vstd::slice::slice_to_vec(core.bytes.as_slice());
            return match CommandResponse::from_frame(frame.as_slice(), false) {
                Ok(r) => Ok(Some((r, frame))),
                Err(e) => Err(CommandResponseDecoderError::CommandResponseParseError(e)),
            };
        }
        self.core = core;
        Ok(None)
    }

    /// Drops any partial frame and escape.
    pub fn reset(&mut self)
        ensures
            final(self)@ == empty_state(),
    {
        self.core = DecoderCore::new();
    }
}

/// A decoder holding no bytes is a fresh decoder: no expected length and
/// no pending escape. Every decoder is one.
pub open spec fn decoder_wf(d: DecoderState) -> bool {
    d.bytes.len() == 0 ==> d == empty_state()
}

/// Every byte keeps a decoder well formed, and a byte that completes a
/// frame or cannot start one leaves it as a fresh decoder, so that the
/// decoder reads the next frame as if it were new.
pub proof fn lemma_decoder_restarts(d: DecoderState, byte: u8)
    requires
        decoder_wf(d),
    ensures
        decoder_wf(state_after(d, decoder_step(d, byte))),
        decoder_step(d, byte) is Frame || decoder_step(d, byte) is UnknownStart
            ==> state_after(d, decoder_step(d, byte)) == empty_state(),
{
    let step = decoder_step(d, byte);
    if d.bytes.len() > 0 {
        assert(!(step is UnknownStart));
    }
    match step {
        DecoderStep::Incomplete(s) => {
            assert(s.bytes.len() > 0);
        },
        _ => {},
    }
}

// ── reading whole frames ────────────────────────────────────────────────────

/// Bytes as they are sent: every `0xFF` goes as `0xFF 0x00`.
pub open spec fn escape_ff(s: Seq<u8>) -> Seq<u8>
    decreases s.len(),
{
    if s.len() == 0 {
        Seq::empty()
    } else {
        (if s[0] == 0xFF { seq![0xFFu8, 0x00u8] } else { seq![s[0]] }) + escape_ff(s.drop_first())
    }
}

/// A frame as it is sent: its first byte, then the rest escaped.
pub open spec fn wire_frame(f: Seq<u8>) -> Seq<u8> {
    seq![f[0]] + escape_ff(f.drop_first())
}

/// The state a decoder goes to after a step.
pub open spec fn state_after(d: DecoderState, step: DecoderStep) -> DecoderState {
    match step {
        DecoderStep::Incomplete(s) => s,
        DecoderStep::Frame(_) => empty_state(),
        DecoderStep::UnknownStart(_) => d,
    }
}

/// The steps a decoder in state `d` goes through when fed `wire`.
pub open spec fn decoder_run(d: DecoderState, wire: Seq<u8>) -> Seq<DecoderStep>
    decreases wire.len(),
{
    if wire.len() == 0 {
        Seq::empty()
    } else {
        let step = decoder_step(d, wire[0]);
        seq![step] + decoder_run(state_after(d, step), wire.drop_first())
    }
}

/// Every step is incomplete but the last, which completes frame `f`.
pub open spec fn reads_frame(steps: Seq<DecoderStep>, f: Seq<u8>) -> bool {
    &&& steps.len() > 0
    &&& steps.last() == DecoderStep::Frame(f)
    &&& forall|i: int| 0 <= i < steps.len() - 1 ==> steps[i] is Incomplete
}

/// The state of a decoder that has read the first `k` bytes of `AA` frame
/// `f`, escapes undone.
pub open spec fn aa_state(f: Seq<u8>, k: nat) -> DecoderState {
    DecoderState {
        bytes: f.take(k as int),
        expected_length: if k >= 7 { Some(f.len() as usize) } else { None },
        escaping: false,
    }
}

/// Whether `f` is a whole `AA` frame: its length is that of its header,
/// payload and checksum.
pub open spec fn is_aa_frame(f: Seq<u8>) -> bool {
    &&& f.len() >= 8
    &&& f[0] == 0xAA
    &&& f.len() == f[6] + 8
}

pub(crate) proof fn lemma_reads_frame_cons(step: DecoderStep, steps: Seq<DecoderStep>, f: Seq<u8>)
    requires
        step is Incomplete,
        reads_frame(steps, f),
    ensures
        reads_frame(seq![step] + steps, f),
{
    let all = seq![step] + steps;
    assert forall|i: int| 0 <= i < all.len() - 1 implies all[i] is Incomplete by {
        if i > 0 {
            assert(all[i] == steps[i - 1]);
        }
    }
}

proof fn lemma_aa_rest(f: Seq<u8>, k: nat)
    requires
        is_aa_frame(f),
        1 <= k < f.len(),
    ensures
        reads_frame(decoder_run(aa_state(f, k), escape_ff(f.skip(k as int))), f),
    decreases f.len() - k,
{
    let b = f[k as int];
    let rest = f.skip(k + 1 as int);
    assert(f.skip(k as int).drop_first() =~= rest);
    let tail = escape_ff(rest);
    let d = aa_state(f, k);
    let stored = DecoderState { bytes: f.take(k + 1 as int), expected_length: d.expected_length, escaping: false };
    assert(d.bytes.push(b) =~= f.take(k + 1 as int));
    lemma_high_nibble(b);
    let next = if k + 1 == f.len() { DecoderStep::Frame(f) } else { DecoderStep::Incomplete(aa_state(f, k + 1)) };
    assert(f.take(k + 1 as int)[0] == 0xAA);
    assert(complete_step(stored) == next) by {
        if k + 1 == f.len() {
            assert(f.take(k + 1 as int) =~= f);
        }
    }
    let wire = escape_ff(f.skip(k as int));
    if k + 1 < f.len() {
        lemma_aa_rest(f, k + 1);
    } else {
        assert(rest.len() == 0);
        assert(tail =~= Seq::<u8>::empty());
    }
    if b == 0xFF {
        let pair = seq![0xFFu8, 0x00u8];
        assert(wire == pair + tail);
        let escaped = DecoderState { bytes: d.bytes, expected_length: d.expected_length, escaping: true };
        assert(decoder_step(d, 0xFF) == DecoderStep::Incomplete(escaped));
        assert(decoder_step(escaped, 0x00) == next);
        assert(wire.drop_first() =~= seq![0x00u8] + tail);
        assert((seq![0x00u8] + tail).drop_first() =~= tail);
        let run2 = decoder_run(escaped, seq![0x00u8] + tail);
        assert(run2 == seq![next] + decoder_run(state_after(escaped, next), tail));
        if k + 1 < f.len() {
            lemma_reads_frame_cons(next, decoder_run(aa_state(f, k + 1), tail), f);
        } else {
            assert(decoder_run(state_after(escaped, next), tail) =~= Seq::<DecoderStep>::empty());
            assert(run2 =~= seq![next]);
        }
        lemma_reads_frame_cons(DecoderStep::Incomplete(escaped), run2, f);
    } else {
        assert(wire == seq![b] + tail);
        assert(wire.drop_first() =~= tail);
        assert(decoder_step(d, b) == next);
        if k + 1 < f.len() {
            lemma_reads_frame_cons(next, decoder_run(aa_state(f, k + 1), tail), f);
        } else {
            assert(decoder_run(state_after(d, next), tail) =~= Seq::<DecoderStep>::empty());
            assert(decoder_run(d, wire) =~= seq![next]);
        }
    }
}

/// A whole `AA` frame, sent with its `0xFF` bytes escaped, is read by a
/// fresh decoder as that frame at its last byte, and not before.
pub proof fn lemma_decoder_reads_aa_frame(f: Seq<u8>)
    requires
        is_aa_frame(f),
    ensures
        reads_frame(decoder_run(empty_state(), wire_frame(f)), f),
{
    let wire = wire_frame(f);
    lemma_high_nibble(0xAA);
    assert(f.drop_first() =~= f.skip(1));
    assert(seq![0xAAu8] =~= f.take(1));
    let first = DecoderStep::Incomplete(aa_state(f, 1));
    assert(decoder_step(empty_state(), 0xAA) == first);
    assert(wire.drop_first() =~= escape_ff(f.skip(1)));
    lemma_aa_rest(f, 1);
    lemma_reads_frame_cons(first, decoder_run(aa_state(f, 1), escape_ff(f.skip(1))), f);
}

} // verus!
