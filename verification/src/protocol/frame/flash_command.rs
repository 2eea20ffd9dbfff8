//! Commands the host sends to a BI2A board in flash mode, and their frames.
//!
//! A flash frame is a command byte `0xA?` followed by its arguments. In the
//! arguments, `0xFF` and every byte `0xA?` go as `0xFF` and the inverted
//! byte, so that the board's echo of a frame never holds a byte that would
//! end the frame early.

use vstd::prelude::*;
use crate::bi2a_protocol::command_response::{
    a2_block_byte, checksum, checksum8, opt_prepend, spec_from_frame, spec_parse_unescaped, unescape_ff, CommandResponseView,
    ParseResult,
};
use crate::bi2a_protocol::command_response_decoder::{
    complete_step, decoder_run, decoder_step, empty_state, lemma_reads_frame_cons, reads_frame, DecoderState, DecoderStep,
};
use crate::bi2x_protocol::command::be_bytes;

verus! {

/// A command for a board in flash mode.
#[derive(Debug, PartialEq, Eq)]
pub enum FlashCommand {
    /// Ask whether the board is in flash mode.
    AreYouInFlashMode,
    /// Start writing at `offset`.
    StartWrite { offset: u32 },
    /// Write the 128-byte block that starts at `firmware_offset` in the
    /// firmware. A 128 KiB firmware is addressed in 16-bit words.
    WriteBlock { firmware_offset: u32, block_data: [u8; 128], is_128kb_firmware: bool },
    /// Stop writing.
    EndWrite,
    /// Restart the board.
    Reboot,
}

/// Whether a byte is sent escaped.
pub open spec fn needs_flash_escape(b: u8) -> bool {
    b == 0xFF || b & 0xF0 == 0xA0
}

/// Escapes the arguments of a flash frame.
pub open spec fn escape_flash(s: Seq<u8>) -> Seq<u8>
    decreases s.len(),
{
    if s.len() == 0 {
        Seq::empty()
    } else {
        (if needs_flash_escape(s[0]) {
            seq![0xFFu8, !s[0]]
        } else {
            seq![s[0]]
        }) + escape_flash(s.drop_first())
    }
}

/// The offset a block write carries: the byte offset, or for a 128 KiB
/// firmware the word offset, in 16 bits.
pub open spec fn block_wire_offset(firmware_offset: u32, is_128kb_firmware: bool) -> u16 {
    (if is_128kb_firmware { firmware_offset >> 1 } else { firmware_offset }) as u16
}

/// A block as sent: each byte XOR-ed with the byte before it, the first
/// with `key`.
pub open spec fn encode_block(key: u8, block: Seq<u8>) -> Seq<u8> {
    Seq::new(block.len(), |j: int| block[j] ^ (if j == 0 { key } else { block[j - 1] }))
}

/// The arguments of a block write before escaping: `0x4B`, the offset
/// obfuscated (high byte XOR `0xFE`, low byte XOR high byte) and checked,
/// the encoded block, and the sum of the encoded block.
pub open spec fn write_block_body(offset: u16, block: Seq<u8>) -> Seq<u8> {
    let hi = (offset >> 8) as u8;
    let lo = offset as u8;
    let b2 = hi ^ 0xFE;
    let b3 = lo ^ hi;
    let b4 = ((0x4B + b2 + b3) % 256) as u8;
    let data = encode_block(lo ^ b4, block);
    seq![0x4Bu8, b2, b3, b4] + data + seq![checksum8(data)]
}

/// The frame that writes `block` at `firmware_offset`.
pub open spec fn write_block_frame(firmware_offset: u32, block: Seq<u8>, is_128kb_firmware: bool) -> Seq<u8> {
    seq![0xA2u8] + escape_flash(write_block_body(block_wire_offset(firmware_offset, is_128kb_firmware), block))
}

/// The frame of a flash command.
pub open spec fn spec_flash_frame(cmd: FlashCommand) -> Seq<u8> {
    match cmd {
        FlashCommand::AreYouInFlashMode => seq![0xA1u8],
        FlashCommand::StartWrite { offset } => seq![0xA8u8] + escape_flash(be_bytes(offset)),
        FlashCommand::WriteBlock { firmware_offset, block_data, is_128kb_firmware } =>
            write_block_frame(firmware_offset, block_data@, is_128kb_firmware),
        FlashCommand::EndWrite => seq![0xA8u8],
        FlashCommand::Reboot => seq![0xA8u8, 0xA8, 0xA8],
    }
}

/// Appends `args` to `out`, escaped.
fn push_escaped(out: &mut Vec<u8>, args: &[u8])
    ensures
        final(out)@ == old(out)@ + escape_flash(args@),
{
    let ghost start = out@;
    let mut i: usize = 0;
    assert(args@.skip(0) =~= args@);
    while i < args.len()
        invariant
            i <= args.len(),
            out@ + escape_flash(args@.skip(i as int)) == start + escape_flash(args@),
        decreases args.len() - i,
    {
        let b: u8 = args[i];
        let ghost before = out@;
        assert(args@.skip(i as int).drop_first() =~= args@.skip(i + 1));
        if b == 0xFF || b & 0xF0 == 0xA0 {
            out.push(0xFF);
            out.push(!b);
        } else {
            out.push(b);
        }
        i += 1;
        assert(out@ + escape_flash(args@.skip(i as int)) =~= before + escape_flash(args@.skip(i - 1)));
    }
    assert(args@.skip(i as int) =~= Seq::<u8>::empty());
    assert(out@ + Seq::<u8>::empty() =~= out@);
}

/// The arguments of a block write, before escaping.
fn block_body(offset: u16, block: &[u8; 128]) -> (body: Vec<u8>)
    ensures
        body@ == write_block_body(offset, block@),
{
    let hi: u8 = (offset >> 8) as u8;
    let lo: u8 = offset as u8;
    let b2: u8 = hi ^ 0xFE;
    let b3: u8 = lo ^ hi;
    let b4: u8 = ((0x4B + b2 as u32 + b3 as u32) % 256) as u8;
    let mut body: Vec<u8> = Vec::new();
    body.push(0x4B);
    body.push(b2);
    body.push(b3);
    body.push(b4);
    let ghost head = body@;
    let mut data: Vec<u8> = Vec::new();
    let mut previous: u8 = lo ^ b4;
    let mut j: usize = 0;
    while j < 128
        invariant
            j <= 128,
            block@.len() == 128,
            data@.len() == j,
            previous == (if j == 0 { lo ^ b4 } else { block@[j - 1] }),
            forall|k: int| 0 <= k < j ==> data@[k] == block@[k] ^ (if k == 0 { lo ^ b4 } else { block@[k - 1] }),
        decreases 128 - j,
    {
        data.push(block[j] ^ previous);
        previous = block[j];
        j += 1;
    }
    assert(data@ =~= encode_block(lo ^ b4, block@));
    let sum: u8 = checksum(data.as_slice());
    body.append(&mut data);
    body.push(sum);
    assert(body@ =~= write_block_body(offset, block@));
    body
}

impl FlashCommand {
    /// The frame of this command, escaped.
    pub fn to_frame(&self) -> (frame: Vec<u8>)
        ensures
            frame@ == spec_flash_frame(*self),
    {
        match self {
            FlashCommand::AreYouInFlashMode => {
                let f: Vec<u8> = vec![0xA1];
                assert(f@ =~= seq![0xA1u8]);
                f
            },
            FlashCommand::StartWrite { offset } => {
                let mut f: Vec<u8> = vec![0xA8];
                let args: Vec<u8> = vec![(*offset >> 24) as u8, (*offset >> 16) as u8, (*offset >> 8) as u8, *offset as u8];
                assert(args@ =~= be_bytes(*offset));
                push_escaped(&mut f, args.as_slice());
                assert(f@ =~= seq![0xA8u8] + escape_flash(be_bytes(*offset)));
                f
            },
            FlashCommand::WriteBlock { firmware_offset, block_data, is_128kb_firmware } => {
                let offset: u16 = if *is_128kb_firmware {
                    (*firmware_offset >> 1) as u16
                } else {
                    *firmware_offset as u16
                };
                let body: Vec<u8> = block_body(offset, block_data);
                let mut f: Vec<u8> = vec![0xA2];
                push_escaped(&mut f, body.as_slice());
                assert(f@ =~= seq![0xA2u8] + escape_flash(body@));
                f
            },
            FlashCommand::EndWrite => {
                let f: Vec<u8> = vec![0xA8];
                assert(f@ =~= seq![0xA8u8]);
                f
            },
            FlashCommand::Reboot => {
                let f: Vec<u8> = vec![0xA8, 0xA8, 0xA8];
                assert(f@ =~= seq![0xA8u8, 0xA8, 0xA8]);
                f
            },
        }
    }
}

// ── laws ────────────────────────────────────────────────────────────────────

/// Undoing the `0xFF` escapes of escaped arguments, followed by `rest`,
/// gives the arguments back, followed by `rest` unescaped.
pub proof fn lemma_unescape_flash(s: Seq<u8>, rest: Seq<u8>)
    ensures
        unescape_ff(escape_flash(s) + rest) == opt_prepend(s, unescape_ff(rest)),
    decreases s.len(),
{
    if s.len() == 0 {
        assert(escape_flash(s) + rest =~= rest);
        match unescape_ff(rest) {
            Some(r) => assert(s + r =~= r),
            None => {},
        }
    } else {
        let b = s[0];
        let tail = s.drop_first();
        lemma_unescape_flash(tail, rest);
        let e = escape_flash(tail) + rest;
        let w = escape_flash(s) + rest;
        assert(!(!b) == b) by (bit_vector);
        assert(b & 0xF0 == 0xA0 ==> b != 0xFF) by (bit_vector);
        if needs_flash_escape(b) {
            assert(w =~= seq![0xFFu8, !b] + e);
            assert(w.skip(2) =~= e);
        } else {
            assert(w =~= seq![b] + e);
            assert(w.drop_first() =~= e);
        }
        match unescape_ff(rest) {
            Some(r) => assert(seq![b] + (tail + r) =~= s + r),
            None => {},
        }
    }
}

/// No escaped argument byte is `0xA?`, so none ends a frame early.
pub proof fn lemma_escape_flash_no_command_byte(s: Seq<u8>)
    ensures
        forall|i: int| 0 <= i < escape_flash(s).len() ==> #[trigger] escape_flash(s)[i] & 0xF0 != 0xA0,
    decreases s.len(),
{
    if s.len() > 0 {
        let b = s[0];
        lemma_escape_flash_no_command_byte(s.drop_first());
        let e = escape_flash(s.drop_first());
        let w = escape_flash(s);
        assert(0xFFu8 & 0xF0 != 0xA0) by (bit_vector);
        assert(b & 0xF0 == 0xA0 ==> (!b) & 0xF0 != 0xA0) by (bit_vector);
        assert(b == 0xFF ==> (!b) & 0xF0 != 0xA0) by (bit_vector);
        let head = if needs_flash_escape(b) { seq![0xFFu8, !b] } else { seq![b] };
        assert(w == head + e);
        assert forall|i: int| 0 <= i < w.len() implies #[trigger] w[i] & 0xF0 != 0xA0 by {
            if i < head.len() {
                assert(w[i] == head[i]);
            } else {
                assert(w[i] == e[i - head.len()]);
            }
        }
    }
}

pub(crate) proof fn lemma_decode_block(f: Seq<u8>, key: u8, block: Seq<u8>, j: nat)
    requires
        block.len() == 128,
        f.len() >= 133,
        f.subrange(5, 133) == encode_block(key, block),
        j < 128,
    ensures
        a2_block_byte(f, key, j) == block[j as int],
    decreases j,
{
    assert(f[5 + j as int] == f.subrange(5, 133)[j as int]);
    if j == 0 {
        let x = block[0];
        assert(f[5] == x ^ key);
        assert((x ^ key) ^ key == x) by (bit_vector);
    } else {
        lemma_decode_block(f, key, block, (j - 1) as nat);
        let x = block[j as int];
        let y = block[j - 1];
        assert((x ^ y) ^ y == x) by (bit_vector);
    }
}

/// The board's answer to a block write, escapes undone: the frame's command
/// byte and arguments, then `0xAC`.
pub open spec fn block_answer(firmware_offset: u32, block: Seq<u8>, is_128kb_firmware: bool) -> Seq<u8> {
    seq![0xA2u8] + write_block_body(block_wire_offset(firmware_offset, is_128kb_firmware), block) + seq![0xACu8]
}

/// The block written, as a response.
pub open spec fn block_written(firmware_offset: u32, block: Seq<u8>, is_128kb_firmware: bool) -> ParseResult {
    Ok(CommandResponseView::WriteBlockOk {
        firmware_offset: block_wire_offset(firmware_offset, is_128kb_firmware),
        block_data: block,
    })
}

proof fn lemma_block_answer_parses(firmware_offset: u32, block: Seq<u8>, is_128kb_firmware: bool)
    requires
        block.len() == 128,
    ensures
        spec_parse_unescaped(block_answer(firmware_offset, block, is_128kb_firmware))
            == block_written(firmware_offset, block, is_128kb_firmware),
{
    let offset = block_wire_offset(firmware_offset, is_128kb_firmware);
    let f = block_answer(firmware_offset, block, is_128kb_firmware);
    let hi = (offset >> 8) as u8;
    let lo = offset as u8;
    let b2 = hi ^ 0xFE;
    let b3 = lo ^ hi;
    let b4 = ((0x4B + b2 + b3) % 256) as u8;
    let data = encode_block(lo ^ b4, block);
    assert(f.len() == 135);
    assert(f[0] == 0xA2 && f[1] == 0x4B);
    assert(f[2] == b2 && f[3] == b3 && f[4] == b4);
    assert(f.subrange(5, 133) =~= data);
    assert(f[133] == checksum8(data));
    assert(f[134] == 0xAC);
    assert((hi ^ 0xFE) ^ 0xFE == hi && (lo ^ hi) ^ hi == lo) by (bit_vector);
    assert(hi * 256 + lo == offset) by (bit_vector)
        requires
            hi == (offset >> 8) as u8,
            lo == offset as u8;
    assert forall|j: int| 0 <= j < 128 implies a2_block_byte(f, lo ^ b4, j as nat) == block[j] by {
        lemma_decode_block(f, lo ^ b4, block, j as nat);
    }
    assert(Seq::new(128, |j: int| a2_block_byte(f, lo ^ b4, j as nat)) =~= block);
}

/// The board answers a block write with the frame it received followed by
/// `0xAC`. That answer parses as the block written, with the offset and
/// the data of the block write.
pub proof fn lemma_write_block_answer(firmware_offset: u32, block: Seq<u8>, is_128kb_firmware: bool)
    requires
        block.len() == 128,
    ensures
        spec_from_frame(write_block_frame(firmware_offset, block, is_128kb_firmware).push(0xAC), true)
            == block_written(firmware_offset, block, is_128kb_firmware),
{
    let body = write_block_body(block_wire_offset(firmware_offset, is_128kb_firmware), block);
    let answer = write_block_frame(firmware_offset, block, is_128kb_firmware).push(0xAC);
    assert(unescape_ff(seq![0xACu8].drop_first()) == Some(Seq::<u8>::empty()));
    assert(seq![0xACu8] + Seq::<u8>::empty() =~= seq![0xACu8]);
    assert(unescape_ff(seq![0xACu8]) == Some(seq![0xACu8]));
    lemma_unescape_flash(body, seq![0xACu8]);
    assert(answer.skip(1) =~= escape_flash(body) + seq![0xACu8]);
    assert(answer.take(1) + (body + seq![0xACu8]) =~= block_answer(firmware_offset, block, is_128kb_firmware));
    lemma_block_answer_parses(firmware_offset, block, is_128kb_firmware);
}

/// The state of a decoder that has read the command byte `c` and then
/// `args` of a flash frame, escapes undone.
pub open spec fn flash_state(c: u8, args: Seq<u8>) -> DecoderState {
    DecoderState { bytes: seq![c] + args, expected_length: None, escaping: false }
}

proof fn lemma_decoder_reads_args(c: u8, done: Seq<u8>, rest: Seq<u8>, t: u8)
    requires
        c & 0xF0 == 0xA0,
        c != 0xAA,
        c != 0xA8,
        t & 0xF0 == 0xA0,
        done.len() + rest.len() + 2 <= usize::MAX,
    ensures
        reads_frame(
            decoder_run(flash_state(c, done), escape_flash(rest).push(t)),
            seq![c] + done + rest + seq![t],
        ),
    decreases rest.len(),
{
    let d = flash_state(c, done);
    let f = seq![c] + done + rest + seq![t];
    let wire = escape_flash(rest).push(t);
    assert(t != 0xFF) by (bit_vector)
        requires
            t & 0xF0 == 0xA0;
    if rest.len() == 0 {
        assert(escape_flash(rest) =~= Seq::<u8>::empty());
        assert(wire =~= seq![t]);
        assert((d.bytes.len() + 1) as usize == d.bytes.len() + 1);
        let stored = DecoderState { bytes: d.bytes.push(t), expected_length: Some((d.bytes.len() + 1) as usize), escaping: false };
        assert(d.bytes.push(t) =~= f);
        assert(decoder_step(d, t) == complete_step(stored));
        assert(complete_step(stored) == DecoderStep::Frame(f));
        assert(wire.drop_first() =~= Seq::<u8>::empty());
        assert(decoder_run(empty_state(), Seq::<u8>::empty()) =~= Seq::<DecoderStep>::empty());
        assert(decoder_run(d, wire) == seq![DecoderStep::Frame(f)] + decoder_run(empty_state(), wire.drop_first()));
        assert(decoder_run(d, wire) =~= seq![DecoderStep::Frame(f)]);
    } else {
        let b = rest[0];
        let tail = rest.drop_first();
        let next_done = done.push(b);
        assert(seq![c] + next_done + tail + seq![t] =~= f);
        lemma_decoder_reads_args(c, next_done, tail, t);
        let next = flash_state(c, next_done);
        let tail_wire = escape_flash(tail).push(t);
        assert(d.bytes.push(b) =~= next.bytes);
        if needs_flash_escape(b) {
            assert(!(!b) == b) by (bit_vector);
            assert(wire =~= seq![0xFFu8, !b] + tail_wire);
            let escaped = DecoderState { bytes: d.bytes, expected_length: None, escaping: true };
            assert(decoder_step(d, 0xFF) == DecoderStep::Incomplete(escaped));
            assert(decoder_step(escaped, !b) == DecoderStep::Incomplete(next));
            assert(wire.drop_first() =~= seq![!b] + tail_wire);
            assert((seq![!b] + tail_wire).drop_first() =~= tail_wire);
            let run2 = decoder_run(escaped, seq![!b] + tail_wire);
            assert(run2 == seq![DecoderStep::Incomplete(next)] + decoder_run(next, tail_wire));
            lemma_reads_frame_cons(DecoderStep::Incomplete(next), decoder_run(next, tail_wire), f);
            lemma_reads_frame_cons(DecoderStep::Incomplete(escaped), run2, f);
        } else {
            assert(b & 0xF0 != 0xA0 && b != 0xFF);
            assert(wire =~= seq![b] + tail_wire);
            assert(wire.drop_first() =~= tail_wire);
            assert(decoder_step(d, b) == DecoderStep::Incomplete(next));
            lemma_reads_frame_cons(DecoderStep::Incomplete(next), decoder_run(next, tail_wire), f);
        }
    }
}

/// A response decoder reads the board's answer to a block write, the
/// frame followed by `0xAC` as it comes from the link, as one frame
/// that ends with that byte and not before, and that frame parses as the
/// block written.
pub proof fn lemma_decoder_reads_block_answer(firmware_offset: u32, block: Seq<u8>, is_128kb_firmware: bool)
    requires
        block.len() == 128,
    ensures
        reads_frame(
            decoder_run(empty_state(), write_block_frame(firmware_offset, block, is_128kb_firmware).push(0xAC)),
            block_answer(firmware_offset, block, is_128kb_firmware),
        ),
        spec_from_frame(block_answer(firmware_offset, block, is_128kb_firmware), false)
            == block_written(firmware_offset, block, is_128kb_firmware),
{
    let body = write_block_body(block_wire_offset(firmware_offset, is_128kb_firmware), block);
    let wire = write_block_frame(firmware_offset, block, is_128kb_firmware).push(0xAC);
    assert(0xA2u8 & 0xF0 == 0xA0 && 0xACu8 & 0xF0 == 0xA0) by (bit_vector);
    let first = flash_state(0xA2, Seq::empty());
    assert(first.bytes =~= seq![0xA2u8]);
    assert(decoder_step(empty_state(), 0xA2) == DecoderStep::Incomplete(first));
    assert(wire.drop_first() =~= escape_flash(body).push(0xAC));
    assert(body.len() == 133);
    lemma_decoder_reads_args(0xA2, Seq::empty(), body, 0xAC);
    assert(seq![0xA2u8] + Seq::<u8>::empty() + body + seq![0xACu8] =~= block_answer(firmware_offset, block, is_128kb_firmware));
    lemma_reads_frame_cons(
        DecoderStep::Incomplete(first),
        decoder_run(first, escape_flash(body).push(0xAC)),
        block_answer(firmware_offset, block, is_128kb_firmware),
    );
    lemma_block_answer_parses(firmware_offset, block, is_128kb_firmware);
}

} // verus!
