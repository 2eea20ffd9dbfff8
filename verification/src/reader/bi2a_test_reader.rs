//! A BI2A board emulated in memory, to test what talks to a board.

use vstd::prelude::*;
use crate::bi2a_protocol::command_response::{
    a2_block_byte, checksum, checksum8, decode_a2_block, lemma_big_endian, spec_from_frame, unescape_ff,
    CommandResponseView,
};
use crate::protocol::frame::flash_command::{
    block_wire_offset, encode_block, escape_flash, lemma_decode_block, needs_flash_escape, write_block_body,
    write_block_frame,
};
use crate::protocol::frame::host_command::{escape_host, spec_to_frame, HostCommand};
use crate::bi2x_protocol::frame::{unescape, unescape_from, unescape_payload};
use crate::reader::bio2_reader::{Bio2Reader, Bio2ReaderError};
use crate::text::{format_hex_byte, hex_pair, join_spaced, join_with_space, strings_view};

verus! {

/// An emulated BI2A board. What is written to it is answered as a board
/// would; the blocks it is flashed with are kept.
pub struct Bi2aTestReader {
    data: Vec<u8>,
    will_timeout: bool,
    has_rebooted: bool,
    firmware_data_1: Vec<u8>,
    firmware_data_2: Vec<u8>,
    written_data: Vec<String>,
}

/// The state of an emulated board: the bytes it will send, whether the
/// next read times out, whether it rebooted, the blocks flashed at offsets
/// that are a multiple of 0x80 and the others, and a hex line for every
/// write.
pub struct TestReaderState {
    pub data: Seq<u8>,
    pub will_timeout: bool,
    pub has_rebooted: bool,
    pub firmware_data_1: Seq<u8>,
    pub firmware_data_2: Seq<u8>,
    pub written_data: Seq<Seq<char>>,
}

impl View for Bi2aTestReader {
    type V = TestReaderState;

    closed spec fn view(&self) -> TestReaderState {
        TestReaderState {
            data: self.data@,
            will_timeout: self.will_timeout,
            has_rebooted: self.has_rebooted,
            firmware_data_1: self.firmware_data_1@,
            firmware_data_2: self.firmware_data_2@,
            written_data: strings_view(self.written_data@),
        }
    }
}

/// The state with `more` bytes to send.
pub open spec fn answer(s: TestReaderState, more: Seq<u8>) -> TestReaderState {
    TestReaderState {
        data: s.data + more,
        will_timeout: s.will_timeout,
        has_rebooted: s.has_rebooted,
        firmware_data_1: s.firmware_data_1,
        firmware_data_2: s.firmware_data_2,
        written_data: s.written_data,
    }
}

/// The version payload: a BI2A firmware, or the BI2X one after a reboot.
pub open spec fn version_payload(has_rebooted: bool) -> Seq<u8> {
    if !has_rebooted {
        seq![
            0x0Du8, 0x06, 0x00, 0x00, 0x00, 0x01, 0x02, 0x0e, 0x42, 0x49, 0x32, 0x41, 0x4f, 0x63, 0x74, 0x20, 0x33,
            0x31, 0x20, 0x32, 0x30, 0x31, 0x38, 0x00, 0x00, 0x00, 0x00, 0x00, 0x31, 0x39, 0x3a, 0x31, 0x31, 0x3a,
            0x35, 0x33, 0x00, 0x00, 0x00, 0x00, 0x00, 0x00, 0x00, 0x00,
        ]
    } else {
        seq![
            0x0Du8, 0x06, 0x01, 0x00, 0x00, 0x00, 0x00, 0x00, 0x42, 0x49, 0x32, 0x58, 0x41, 0x70, 0x72, 0x20, 0x32,
            0x33, 0x20, 0x32, 0x30, 0x31, 0x39, 0x00, 0x00, 0x00, 0x00, 0x00, 0x31, 0x30, 0x3A, 0x35, 0x35, 0x3A,
            0x32, 0x33, 0x00, 0x00, 0x00, 0x00, 0x00, 0x00, 0x00, 0x00,
        ]
    }
}

/// The payload and node address of the answer to host command frame `e`.
pub open spec fn aa_answer_payload(e: Seq<u8>, has_rebooted: bool) -> (Seq<u8>, u8) {
    let command = e[2] * 256 + e[3];
    if command == 0x0001 {
        if e[5] != 1 { (Seq::empty(), 0x00) } else { (seq![(e[6] + 1) as u8], 0x00) }
    } else if command == 0x0002 {
        (version_payload(has_rebooted), 0x80)
    } else if command == 0x0004 {
        (seq![0x00u8], 0x80)
    } else {
        (Seq::empty(), 0x00)
    }
}

/// The answer to host command frame `e`: two start bytes, node address,
/// command code, sequence number, payload length, payload, checksum, and
/// for a start of flashing a ready byte.
pub open spec fn aa_answer(e: Seq<u8>, has_rebooted: bool) -> Seq<u8> {
    let (payload, addr) = aa_answer_payload(e, has_rebooted);
    let head = seq![0xAAu8, 0xAA, addr, e[2], e[3], e[4], payload.len() as u8] + payload;
    let framed = head.push(checksum8(head.skip(2)));
    if e[2] == 0 && e[3] == 4 { framed.push(0xA0) } else { framed }
}

/// `fw` with `block` at `offset`, grown with zeros as needed.
pub open spec fn stored_block(fw: Seq<u8>, offset: nat, block: Seq<u8>) -> Seq<u8> {
    let len = if fw.len() < offset + 128 { offset + 128 } else { fw.len() };
    Seq::new(len as nat, |i: int| if offset <= i < offset + 128 {
        block[i - offset]
    } else if i < fw.len() {
        fw[i]
    } else {
        0u8
    })
}

/// The firmware offset an `A2` frame names.
pub open spec fn block_offset(e: Seq<u8>) -> nat {
    let hi = e[2] ^ 0xFE;
    let lo = hi ^ e[3];
    (hi * 256 + lo) as nat
}

/// A block write `e` (sent as `raw`): checked, decoded and kept, and
/// answered with `raw` and `0xAC` (ok) or `0xAF` (error), then `0xA0`.
pub open spec fn a2_write(s: TestReaderState, e: Seq<u8>, raw: Seq<u8>) -> TestReaderState {
    let lo = (e[2] ^ 0xFE) ^ e[3];
    if e[4] != ((0x4B + e[2] + e[3]) % 256) as u8 || checksum8(e.subrange(5, 133)) != e[133] {
        answer(s, raw + seq![0xAFu8, 0xA0])
    } else {
        let block = Seq::new(128, |j: int| a2_block_byte(e, lo ^ e[4], j as nat));
        let offset = block_offset(e);
        let stored = if offset % 0x80 == 0 {
            TestReaderState { firmware_data_1: stored_block(s.firmware_data_1, offset, block), ..s }
        } else {
            TestReaderState { firmware_data_2: stored_block(s.firmware_data_2, offset, block), ..s }
        };
        answer(stored, raw + seq![0xACu8, 0xA0])
    }
}

/// The hex line logged for a write.
pub open spec fn hex_line(raw: Seq<u8>) -> Seq<char> {
    join_with_space(Seq::new(raw.len(), |i: int| hex_pair(raw[i])))
}

/// What writing `raw` does to the emulated board. The frame is unescaped
/// (`0xFF` then `b` stands for the inverse of `b`) and answered by its first
/// byte: `AA` host commands, `A1` flash mode query, `A8` start, end and
/// reboot, `A2` block write.
pub open spec fn emulated_write(s: TestReaderState, raw: Seq<u8>) -> TestReaderState {
    let logged = TestReaderState { written_data: s.written_data.push(hex_line(raw)), ..s };
    let e = unescape(raw);
    if e[0] == 0xAA {
        answer(logged, aa_answer(e, s.has_rebooted))
    } else if e[0] == 0xA1 {
        answer(logged, seq![0xA1u8, 0xAC, 0xA0])
    } else if e[0] == 0xA8 {
        if e.len() == 1 {
            answer(logged, seq![0xA8u8, 0xAC, 0xA0])
        } else if e.len() == 3 && e[1] == 0xA8 && e[2] == 0xA8 {
            TestReaderState { has_rebooted: true, will_timeout: true, ..logged }
        } else if e.len() == 5 {
            answer(logged, seq![0xA8u8, raw[1], raw[2], raw[3], raw[4], 0xA0])
        } else {
            answer(logged, raw + seq![0xAFu8, 0xA0])
        }
    } else if e[0] == 0xA2 {
        a2_write(logged, e, raw)
    } else {
        logged
    }
}

/// The frames the emulated board is defined on: a frame that is not empty
/// once unescaped, a host command frame with a full header and, for a ping
/// with a one-byte payload, a ping value other than `0xFF`, and a block
/// write of at least 134 bytes.
pub open spec fn write_defined(raw: Seq<u8>) -> bool {
    let e = unescape(raw);
    &&& e.len() > 0
    &&& e[0] == 0xAA ==> {
        &&& e.len() >= 6
        &&& e[2] == 0 && e[3] == 1 && e[5] == 1 ==> e.len() >= 7 && e[6] < 0xFF
    }
    &&& e[0] == 0xA2 ==> e.len() >= 134
}

/// Block `i` of firmware part `fw`, taken from `start`, or zeros past its end.
pub open spec fn firmware_block(fw: Seq<u8>, start: int) -> Seq<u8> {
    if start + 128 <= fw.len() { fw.subrange(start, start + 128) } else { Seq::new(128, |k: int| 0u8) }
}

/// The first `n` pairs of blocks of the flashed firmware: block `i` of the
/// first part, then the block of the second part that starts 64 bytes
/// further.
pub open spec fn interleaved(fw1: Seq<u8>, fw2: Seq<u8>, n: nat) -> Seq<u8>
    decreases n,
{
    if n == 0 {
        Seq::empty()
    } else {
        let i = n - 1;
        interleaved(fw1, fw2, (n - 1) as nat) + firmware_block(fw1, i * 128) + firmware_block(fw2, i * 128 + 64)
    }
}

/// The firmware the emulated board was flashed with: the first part alone,
/// or 512 interleaved pairs of blocks once the second part holds anything.
pub open spec fn flashed_firmware(s: TestReaderState) -> Seq<u8> {
    if s.firmware_data_2.len() == 0 {
        s.firmware_data_1
    } else {
        interleaved(s.firmware_data_1, s.firmware_data_2, 512)
    }
}

/// Undoing escapes never makes bytes longer.
pub proof fn lemma_unescape_len(s: Seq<u8>, escape_next: bool)
    ensures
        unescape_from(s, escape_next).len() <= s.len(),
    decreases s.len(),
{
    if s.len() > 0 {
        lemma_unescape_len(s.drop_first(), false);
        lemma_unescape_len(s.drop_first(), true);
    }
}

fn append_bytes(v: &mut Vec<u8>, more: &[u8])
    ensures
        final(v)@ == old(v)@ + more@,
{
    let mut copy: Vec<u8> = vstd::slice::slice_to_vec(more);
    v.append(&mut copy);
}

/// Puts `block` at `offset` of `fw`, growing it with zeros as needed.
fn store_block(fw: &mut Vec<u8>, offset: usize, block: &[u8; 128])
    requires
        offset <= 0xFFFF,
    ensures
        final(fw)@ == stored_block(old(fw)@, offset as nat, block@),
{
    let ghost before = fw@;
    if fw.len() < offset + 128 {
        fw.resize(offset + 128, 0);
    }
    let ghost grown = fw@;
    let mut i: usize = 0;
    while i < 128
        invariant
            offset <= 0xFFFF,
            fw@.len() == grown.len(),
            grown.len() >= offset + 128,
            i <= 128,
            forall|k: int| 0 <= k < grown.len() ==> #[trigger] fw@[k] == if offset <= k < offset + i {
                block@[k - offset]
            } else {
                grown[k]
            },
        decreases 128 - i,
    {
        fw.set(offset + i, block[i]);
        i += 1;
    }
    assert forall|k: int| 0 <= k < grown.len() implies grown[k] == if k < before.len() { before[k] } else { 0u8 } by {
        if k < before.len() && before.len() < offset + 128 {
            assert(grown.subrange(0, before.len() as int)[k] == before[k]);
        }
    }
    assert(fw@ =~= stored_block(before, offset as nat, block@));
}

impl Bi2aTestReader {
    /// An emulated board that has sent nothing, was flashed with nothing,
    /// and was not rebooted.
    pub fn new() -> (r: Self)
        ensures
            r@.data.len() == 0,
            !r@.will_timeout,
            !r@.has_rebooted,
            r@.firmware_data_1.len() == 0,
            r@.firmware_data_2.len() == 0,
            r@.written_data.len() == 0,
    {
        let r = Bi2aTestReader {
            data: Vec::new(),
            will_timeout: false,
            has_rebooted: false,
            firmware_data_1: Vec::new(),
            firmware_data_2: Vec::new(),
            written_data: Vec::new(),
        };
        assert(strings_view(r.written_data@) =~= Seq::<Seq<char>>::empty());
        r
    }

    /// Makes the next read time out.
    pub fn simulate_timeout(&mut self)
        ensures
            final(self)@ == (TestReaderState { will_timeout: true, ..old(self)@ }),
    {
        self.will_timeout = true;
    }

    /// The firmware flashed so far.
    pub fn get_flashed_firmware(&self) -> (fw: Vec<u8>)
        ensures
            fw@ == flashed_firmware(self@),
    {
        if self.firmware_data_2.len() == 0 {
            return vstd::slice::slice_to_vec(self.firmware_data_1.as_slice());
        }

        let mut final_firmware: Vec<u8> = Vec::new();
        let ghost fw1 = self.firmware_data_1@;
        let ghost fw2 = self.firmware_data_2@;
        let mut i: usize = 0;
        while i < 512
            invariant
                fw1 == self.firmware_data_1@,
                fw2 == self.firmware_data_2@,
                i <= 512,
                final_firmware@ == interleaved(fw1, fw2, i as nat),
            decreases 512 - i,
        {
            let zeros: [u8; 128] = [0u8; 128];
            let firmware_block_1: &[u8] = if i * 128 + 128 <= self.firmware_data_1.len() {
                vstd::slice::slice_subrange(self.firmware_data_1.as_slice(), i * 128, i * 128 + 128)
            } else {
                assert(zeros@ =~= Seq::new(128, |k: int| 0u8));
                zeros.as_slice()
            };
            let firmware_block_2: &[u8] = if i * 128 + 128 + 64 <= self.firmware_data_2.len() {
                vstd::slice::slice_subrange(self.firmware_data_2.as_slice(), i * 128 + 64, i * 128 + 128 + 64)
            } else {
                assert(zeros@ =~= Seq::new(128, |k: int| 0u8));
                zeros.as_slice()
            };
            assert(firmware_block_1@ == firmware_block(fw1, i * 128));
            assert(firmware_block_2@ == firmware_block(fw2, i * 128 + 64));
            append_bytes(&mut final_firmware, firmware_block_1);
            append_bytes(&mut final_firmware, firmware_block_2);
            i += 1;
        }
        final_firmware
    }

    /// Says whether the board rebooted, which changes its version answer.
    pub fn set_has_rebooted(&mut self, has_rebooted: bool)
        ensures
            final(self)@ == (TestReaderState { has_rebooted, ..old(self)@ }),
    {
        self.has_rebooted = has_rebooted;
    }

    /// The hex line of every write, in order.
    pub fn get_written_data(&self) -> (lines: &Vec<String>)
        ensures
            strings_view(lines@) == self@.written_data,
    {
        &self.written_data
    }

    /// Answers a host command frame `e`.
    fn answer_host_command(&mut self, e: &Vec<u8>)
        requires
            e@.len() >= 6,
            e@[2] == 0 && e@[3] == 1 && e@[5] == 1 ==> e@.len() >= 7 && e@[6] < 0xFF,
        ensures
            final(self)@ == answer(old(self)@, aa_answer(e@, old(self)@.has_rebooted)),
    {
        proof {
            lemma_big_endian(e@[2], e@[3], 0, 0);
        }
        let command: u16 = ((e[2] as u16) << 8) | (e[3] as u16);
        let sequence: u8 = e[4];
        let payload_size: usize = e[5] as usize;

        let (mut payload, resp_addr): (Vec<u8>, u8) = match command {
            0x0001 => {
                if payload_size != 1 {
                    (Vec::new(), 0x00)
                } else {
                    let v: Vec<u8> = vec![e[6] + 1];
                    assert(v@ =~= seq![(e@[6] + 1) as u8]);
                    (v, 0x00)
                }
            },
            0x0002 => {
                if !self.has_rebooted {
                    let v: Vec<u8> = vec![
                        0x0D, 0x06, 0x00, 0x00, 0x00, 0x01, 0x02, 0x0e, 0x42, 0x49, 0x32, 0x41, 0x4f, 0x63, 0x74,
                        0x20, 0x33, 0x31, 0x20, 0x32, 0x30, 0x31, 0x38, 0x00, 0x00, 0x00, 0x00, 0x00, 0x31, 0x39,
                        0x3a, 0x31, 0x31, 0x3a, 0x35, 0x33, 0x00, 0x00, 0x00, 0x00, 0x00, 0x00, 0x00, 0x00,
                    ];
                    assert(v@ =~= version_payload(false));
                    (v, 0x80)
                } else {
                    let v: Vec<u8> = vec![
                        0x0D, 0x06, 0x01, 0x00, 0x00, 0x00, 0x00, 0x00, 0x42, 0x49, 0x32, 0x58, 0x41, 0x70, 0x72,
                        0x20, 0x32, 0x33, 0x20, 0x32, 0x30, 0x31, 0x39, 0x00, 0x00, 0x00, 0x00, 0x00, 0x31, 0x30,
                        0x3A, 0x35, 0x35, 0x3A, 0x32, 0x33, 0x00, 0x00, 0x00, 0x00, 0x00, 0x00, 0x00, 0x00,
                    ];
                    assert(v@ =~= version_payload(true));
                    (v, 0x80)
                }
            },
            0x0004 => {
                let v: Vec<u8> = vec![0x00];
                assert(v@ =~= seq![0x00u8]);
                (v, 0x80)
            },
            _ => (Vec::new(), 0x00),
        };
        assert(payload@ == aa_answer_payload(e@, self.has_rebooted).0);

        let mut response: Vec<u8> = vec![
            0xaa,
            0xaa,
            resp_addr,
            (command >> 8) as u8,
            (command & 0xff) as u8,
            sequence,
            payload.len() as u8,
        ];
        response.append(&mut payload);
        let sum: u8 = checksum(vstd::slice::slice_subrange(response.as_slice(), 2, response.len()));
        response.push(sum);

        if command == 0x0004 {
            response.push(0xa0);
        }
        let ghost expected = aa_answer(e@, self.has_rebooted);
        assert(response@ =~= expected);
        self.data.append(&mut response);
    }

    /// Answers a block write `e`, sent as `raw`.
    fn write_block(&mut self, e: &Vec<u8>, raw: &[u8])
        requires
            e@.len() >= 134,
        ensures
            final(self)@ == a2_write(old(self)@, e@, raw@),
    {
        let hi: u8 = e[2] ^ 0xfe;
        let lo: u8 = hi ^ e[3];
        proof {
            lemma_big_endian(hi, lo, 0, 0);
        }
        let firmware_offset: u16 = ((hi as u16) << 8) | (lo as u16);

        let firmware_offset_checksum: u8 = e[4];
        let calculated_checksum: u64 = (0x4b + e[2] as u64 + e[3] as u64) % 256;
        if firmware_offset_checksum != calculated_checksum as u8 {
            append_bytes(&mut self.data, raw);
            self.data.push(0xaf);
            self.data.push(0xa0);
            assert(self.data@ =~= old(self)@.data + (raw@ + seq![0xAFu8, 0xA0]));
            return;
        }

        let (decoded_block, sum): ([u8; 128], u64) = decode_a2_block(e.as_slice(), lo ^ e[4]);
        let final_checksum: u8 = (sum % 256) as u8;
        if final_checksum != e[133] {
            append_bytes(&mut self.data, raw);
            self.data.push(0xaf);
            self.data.push(0xa0);
            assert(self.data@ =~= old(self)@.data + (raw@ + seq![0xAFu8, 0xA0]));
            return;
        }

        if firmware_offset % 0x80 == 0 {
            store_block(&mut self.firmware_data_1, firmware_offset as usize, &decoded_block);
        } else {
            store_block(&mut self.firmware_data_2, firmware_offset as usize, &decoded_block);
        }

        append_bytes(&mut self.data, raw);
        self.data.push(0xac);
        self.data.push(0xa0);
        assert(self.data@ =~= old(self)@.data + (raw@ + seq![0xACu8, 0xA0]));
    }

    /// Answers a start, end or reboot frame `e`, sent as `raw`.
    fn answer_flash_control(&mut self, e: &Vec<u8>, raw: &[u8])
        requires
            e@.len() > 0,
            e@[0] == 0xA8,
            e@.len() <= raw@.len(),
        ensures
            final(self)@ == ({
                let s = old(self)@;
                if e@.len() == 1 {
                    answer(s, seq![0xA8u8, 0xAC, 0xA0])
                } else if e@.len() == 3 && e@[1] == 0xA8 && e@[2] == 0xA8 {
                    TestReaderState { has_rebooted: true, will_timeout: true, ..s }
                } else if e@.len() == 5 {
                    answer(s, seq![0xA8u8, raw@[1], raw@[2], raw@[3], raw@[4], 0xA0])
                } else {
                    answer(s, raw@ + seq![0xAFu8, 0xA0])
                }
            }),
    {
        if e.len() == 1 {
            self.data.push(0xa8);
            self.data.push(0xac);
            self.data.push(0xa0);
            assert(self.data@ =~= old(self)@.data + seq![0xA8u8, 0xAC, 0xA0]);
        } else if e.len() == 3 && e[0] == 0xa8 && e[1] == 0xa8 && e[2] == 0xa8 {
            self.has_rebooted = true;
            self.will_timeout = true;
        } else if e.len() == 5 {
            self.data.push(0xa8);
            self.data.push(raw[1]);
            self.data.push(raw[2]);
            self.data.push(raw[3]);
            self.data.push(raw[4]);
            self.data.push(0xa0);
            assert(self.data@ =~= old(self)@.data + seq![0xA8u8, raw@[1], raw@[2], raw@[3], raw@[4], 0xA0]);
        } else {
            append_bytes(&mut self.data, raw);
            self.data.push(0xaf);
            self.data.push(0xa0);
            assert(self.data@ =~= old(self)@.data + (raw@ + seq![0xAFu8, 0xA0]));
        }
    }
}

impl Bio2Reader for Bi2aTestReader {
    open spec fn accepts(&self, data: Seq<u8>) -> bool {
        write_defined(data)
    }

    /// Whether the emulated board is defined on the frame `data`.
    fn accepts_bytes(&self, data: &[u8]) -> (b: bool) {
        let e: Vec<u8> = unescape_payload(data);
        if e.len() == 0 {
            return false;
        }
        if e[0] == 0xaa {
            if e.len() < 6 {
                return false;
            }
            if e[2] == 0 && e[3] == 1 && e[5] == 1 {
                return e.len() >= 7 && e[6] < 0xff;
            }
            return true;
        }
        if e[0] == 0xa2 {
            return e.len() >= 134;
        }
        true
    }

    /// The next byte the board sends; a simulated timeout comes first, once.
    fn read_byte(&mut self) -> (res: Result<Option<u8>, Bio2ReaderError>)
        ensures
            old(self)@.will_timeout ==> {
                &&& final(self)@ == (TestReaderState { will_timeout: false, ..old(self)@ })
                &&& res matches Err(Bio2ReaderError::Raw(m))
                &&& m@ == "Simulated timeout"@
            },
            !old(self)@.will_timeout && old(self)@.data.len() > 0 ==> {
                &&& res == Ok::<Option<u8>, Bio2ReaderError>(Some(old(self)@.data[0]))
                &&& final(self)@ == (TestReaderState { data: old(self)@.data.drop_first(), ..old(self)@ })
            },
            !old(self)@.will_timeout && old(self)@.data.len() == 0 ==> {
                &&& res == Ok::<Option<u8>, Bio2ReaderError>(None)
                &&& final(self)@ == old(self)@
            },
    {
        if self.will_timeout {
            self.will_timeout = false;
            return Err(Bio2ReaderError::Raw("Simulated timeout".to_owned()));
        }
        if self.data.len() > 0 {
            let byte: u8 = self.data[0];
            self.data.remove(0);
            assert(self.data@ =~= old(self)@.data.drop_first());
            Ok(Some(byte))
        } else {
            Ok(None)
        }
    }

    /// Logs the bytes as a hex line and answers them as a board would.
    fn write_bytes(&mut self, data: &[u8]) -> (res: Result<(), Bio2ReaderError>)
        ensures
            final(self)@ == emulated_write(old(self)@, data@),
            res is Ok,
    {
        let mut parts: Vec<String> = Vec::new();
        let mut i: usize = 0;
        while i < data.len()
            invariant
                i <= data.len(),
                strings_view(parts@) =~= Seq::new(i as nat, |k: int| hex_pair(data@[k])),
            decreases data.len() - i,
        {
            let ghost before = parts@;
            let piece: String = format_hex_byte(data[i]);
            parts.push(piece);
            assert(strings_view(parts@) =~= strings_view(before).push(piece@));
            i += 1;
        }
        let hex_string: String = join_spaced(&parts);
        self.written_data.push(hex_string);
        let ghost logged = self@;
        assert(logged.written_data =~= old(self)@.written_data.push(hex_line(data@)));

        let escaped_data: Vec<u8> = unescape_payload(data);
        proof {
            lemma_unescape_len(data@, false);
        }

        if escaped_data[0] == 0xaa {
            self.answer_host_command(&escaped_data);
        } else if escaped_data[0] == 0xa1 {
            self.data.push(0xa1);
            self.data.push(0xac);
            self.data.push(0xa0);
            assert(self.data@ =~= logged.data + seq![0xA1u8, 0xAC, 0xA0]);
        } else if escaped_data[0] == 0xa8 {
            self.answer_flash_control(&escaped_data, data);
        } else if escaped_data[0] == 0xa2 {
            self.write_block(&escaped_data, data);
        }
        Ok(())
    }

    /// Drops what was not read and any pending timeout.
    fn reconnect(&mut self) -> (res: Result<(), Bio2ReaderError>)
        ensures
            final(self)@ == (TestReaderState { data: Seq::empty(), will_timeout: false, ..old(self)@ }),
            res is Ok,
    {
        self.data.clear();
        self.will_timeout = false;
        Ok(())
    }

    /// Drops what was not read.
    fn clear(&mut self)
        ensures
            final(self)@ == (TestReaderState { data: Seq::empty(), ..old(self)@ }),
    {
        self.data.clear();
    }
}

// ── laws ────────────────────────────────────────────────────────────────────

/// The emulated board after `frames` were written to it, in order.
pub open spec fn emulated_writes(s: TestReaderState, frames: Seq<Seq<u8>>) -> TestReaderState
    decreases frames.len(),
{
    if frames.len() == 0 {
        s
    } else {
        emulated_write(emulated_writes(s, frames.drop_last()), frames.last())
    }
}

/// The write log holds one hex line per write, in the order of the writes:
/// after any frames are written, it is the log from before followed by the
/// hex line of each frame.
pub proof fn lemma_write_log(s: TestReaderState, frames: Seq<Seq<u8>>)
    ensures
        emulated_writes(s, frames).written_data == s.written_data + frames.map_values(|f: Seq<u8>| hex_line(f)),
    decreases frames.len(),
{
    if frames.len() == 0 {
        assert(s.written_data + frames.map_values(|f: Seq<u8>| hex_line(f)) =~= s.written_data);
    } else {
        lemma_write_log(s, frames.drop_last());
        assert(frames.map_values(|f: Seq<u8>| hex_line(f)) =~= frames.drop_last().map_values(
            |f: Seq<u8>| hex_line(f),
        ).push(hex_line(frames.last())));
    }
}

/// Block `i` of the 64 KiB image `fw`.
pub open spec fn image_block(fw: Seq<u8>, i: int) -> Seq<u8> {
    fw.subrange(i * 128, i * 128 + 128)
}

/// Whether each of `frames` writes the block of `fw` that `order` names at
/// the same position.
pub open spec fn frames_write_blocks(fw: Seq<u8>, order: Seq<int>, frames: Seq<Seq<u8>>) -> bool {
    &&& frames.len() == order.len()
    &&& forall|k: int| 0 <= k < order.len() ==> 0 <= #[trigger] order[k] < 512
    &&& forall|k: int|
        0 <= k < order.len() ==> is_block_frame(#[trigger] frames[k], (order[k] * 128) as u16, image_block(fw, order[k]))
}

/// After the first `n` of the frames were written, the first part of the
/// firmware holds each block they wrote and reaches past each, and the
/// second part is still empty.
proof fn lemma_image_prefix(s: TestReaderState, fw: Seq<u8>, order: Seq<int>, frames: Seq<Seq<u8>>, n: nat)
    requires
        s.firmware_data_1.len() == 0,
        s.firmware_data_2.len() == 0,
        fw.len() == 0x10000,
        frames_write_blocks(fw, order, frames),
        n <= order.len(),
    ensures
        ({
            let t = emulated_writes(s, frames.take(n as int));
            &&& t.firmware_data_2.len() == 0
            &&& t.firmware_data_1.len() <= 0x10000
            &&& forall|k: int| 0 <= k < n ==> t.firmware_data_1.len() >= #[trigger] order[k] * 128 + 128
            &&& forall|k: int, j: int|
                #![trigger t.firmware_data_1[j], order[k]]
                0 <= k < n && order[k] * 128 <= j < order[k] * 128 + 128 ==> t.firmware_data_1[j] == fw[j]
        }),
    decreases n,
{
    if n > 0 {
        let m = (n - 1) as nat;
        lemma_image_prefix(s, fw, order, frames, m);
        let prefix = frames.take(n as int);
        assert(prefix.drop_last() =~= frames.take(m as int));
        let t = emulated_writes(s, frames.take(m as int));
        let i = order[m as int];
        let off = i * 128;
        assert(0 <= off && off + 128 <= 0x10000 && off % 128 == 0) by (nonlinear_arith)
            requires
                off == i * 128,
                0 <= i < 512;
        let off16 = off as u16;
        assert(off16 == off);
        let block = fw.subrange(off, off + 128);
        assert(prefix.last() == frames[m as int]);
        assert(is_block_frame(frames[m as int], off16, image_block(fw, i)));
        lemma_emulated_a2_write(t, frames[m as int], off16, block);
        let u = emulated_write(t, prefix.last());
        assert(emulated_writes(s, prefix) == u);
        lemma_stored_block(t.firmware_data_1, off as nat, block);
        assert(u.firmware_data_1 == stored_block(t.firmware_data_1, off as nat, block));
        assert forall|k: int, j: int|
            #![trigger u.firmware_data_1[j], order[k]]
            0 <= k < n && order[k] * 128 <= j < order[k] * 128 + 128 implies u.firmware_data_1[j] == fw[j] by {
            if off <= j < off + 128 {
                assert(u.firmware_data_1[j] == block[j - off]);
            } else {
                assert(k < m);
                assert(t.firmware_data_1.len() >= order[k] * 128 + 128);
                assert(t.firmware_data_1[j] == fw[j]);
            }
        }
    }
}

/// Whether `order` names block `i`.
pub open spec fn names_block(order: Seq<int>, i: int) -> bool {
    exists|k: int| 0 <= k < order.len() && order[k] == i
}

/// Writing the 512 blocks of a 64 KiB image to a board that holds no
/// firmware yet, by any block-write frames (escaped in any way), in any
/// order and each at least once, leaves the board flashed with exactly that
/// image.
pub proof fn lemma_flashed_image(s: TestReaderState, fw: Seq<u8>, order: Seq<int>, frames: Seq<Seq<u8>>)
    requires
        s.firmware_data_1.len() == 0,
        s.firmware_data_2.len() == 0,
        fw.len() == 0x10000,
        frames_write_blocks(fw, order, frames),
        forall|i: int| 0 <= i < 512 ==> #[trigger] names_block(order, i),
    ensures
        flashed_firmware(emulated_writes(s, frames)) == fw,
{
    lemma_image_prefix(s, fw, order, frames, order.len());
    assert(frames.take(order.len() as int) =~= frames);
    let t = emulated_writes(s, frames);
    assert(names_block(order, 511));
    let k511 = choose|k: int| 0 <= k < order.len() && order[k] == 511;
    assert(t.firmware_data_1.len() >= order[k511] * 128 + 128);
    assert(t.firmware_data_1.len() == 0x10000);
    assert forall|j: int| 0 <= j < 0x10000 implies t.firmware_data_1[j] == fw[j] by {
        let i = j / 128;
        assert(0 <= i < 512 && i * 128 <= j < i * 128 + 128) by (nonlinear_arith)
            requires
                i == j / 128,
                0 <= j < 0x10000;
        assert(names_block(order, i));
        let k = choose|k: int| 0 <= k < order.len() && order[k] == i;
        assert(t.firmware_data_1[j] == fw[j]);
    }
    assert(t.firmware_data_1 =~= fw);
}

/// A stored block reads back at its offset, and the bytes around it are
/// kept.
pub proof fn lemma_stored_block(fw: Seq<u8>, offset: nat, block: Seq<u8>)
    requires
        block.len() == 128,
    ensures
        stored_block(fw, offset, block).subrange(offset as int, offset + 128 as int) == block,
        forall|i: int| 0 <= i < fw.len() && !(offset <= i < offset + 128) ==> #[trigger] stored_block(fw, offset, block)[i] == fw[i],
        stored_block(fw, offset, block).len() >= fw.len(),
{
    assert(stored_block(fw, offset, block).subrange(offset as int, offset + 128 as int) =~= block);
}

/// The emulated board undoes the escapes of a flash frame's arguments.
proof fn lemma_unescape_flash_args(s: Seq<u8>)
    ensures
        unescape_from(escape_flash(s), false) == s,
    decreases s.len(),
{
    if s.len() == 0 {
        assert(escape_flash(s) =~= Seq::<u8>::empty());
        assert(unescape_from(escape_flash(s), false) =~= s);
    } else {
        let b = s[0];
        let rest = s.drop_first();
        lemma_unescape_flash_args(rest);
        let e = escape_flash(rest);
        let w = escape_flash(s);
        assert(!(!b) == b) by (bit_vector);
        assert(b & 0xF0 == 0xA0 ==> b != 0xFF) by (bit_vector);
        if needs_flash_escape(b) {
            assert(w == seq![0xFFu8, !b] + e);
            assert(w.drop_first() =~= seq![!b] + e);
            assert((seq![!b] + e).drop_first() =~= e);
            assert(unescape_from(w, false) == unescape_from(seq![!b] + e, true));
            assert(unescape_from(seq![!b] + e, true) == seq![b] + unescape_from(e, false));
        } else {
            assert(w == seq![b] + e);
            assert(w.drop_first() =~= e);
            assert(unescape_from(w, false) == seq![b] + unescape_from(e, false));
        }
        assert(seq![b] + rest =~= s);
    }
}

/// Whether `raw` is a block-write frame for `block` at wire offset
/// `offset`: once its escapes are undone, it is `0xA2` and the body of that
/// write, whichever bytes were escaped.
pub open spec fn is_block_frame(raw: Seq<u8>, offset: u16, block: Seq<u8>) -> bool {
    unescape(raw) == seq![0xA2u8] + write_block_body(offset, block)
}

/// Writing a block-write frame to the emulated board is defined, logs the
/// frame, stores the block at the offset the frame carries (in the first
/// part of the firmware for an offset that is a multiple of 128, in the
/// second otherwise), and has the board answer with the frame, `0xAC` and
/// the ready byte `0xA0`.
pub proof fn lemma_emulated_a2_write(s: TestReaderState, raw: Seq<u8>, offset: u16, block: Seq<u8>)
    requires
        block.len() == 128,
        is_block_frame(raw, offset, block),
    ensures
        ({
            let t = emulated_write(s, raw);
            &&& write_defined(raw)
            &&& t.data == s.data + raw + seq![0xACu8, 0xA0]
            &&& t.written_data == s.written_data.push(hex_line(raw))
            &&& t.has_rebooted == s.has_rebooted
            &&& t.will_timeout == s.will_timeout
            &&& offset % 128 == 0 ==> t.firmware_data_1 == stored_block(s.firmware_data_1, offset as nat, block)
                && t.firmware_data_2 == s.firmware_data_2
            &&& offset % 128 != 0 ==> t.firmware_data_2 == stored_block(s.firmware_data_2, offset as nat, block)
                && t.firmware_data_1 == s.firmware_data_1
        }),
{
    let body = write_block_body(offset, block);
    let e = seq![0xA2u8] + body;
    assert(unescape(raw) == e);
    let hi = (offset >> 8) as u8;
    let lo = offset as u8;
    let b2 = hi ^ 0xFE;
    let b3 = lo ^ hi;
    let b4 = ((0x4B + b2 + b3) % 256) as u8;
    let data = encode_block(lo ^ b4, block);
    assert(e.len() == 134);
    assert(e[0] == 0xA2);
    assert(e[2] == b2 && e[3] == b3 && e[4] == b4);
    assert(e.subrange(5, 133) =~= data);
    assert(e[133] == checksum8(data));
    assert((hi ^ 0xFE) ^ 0xFE == hi && hi ^ (lo ^ hi) == lo && (lo ^ hi) ^ hi == lo) by (bit_vector);
    assert(hi * 256 + lo == offset) by (bit_vector)
        requires
            hi == (offset >> 8) as u8,
            lo == offset as u8;
    assert(block_offset(e) == offset);
    assert forall|j: int| 0 <= j < 128 implies a2_block_byte(e, lo ^ b4, j as nat) == block[j] by {
        lemma_decode_block(e, lo ^ b4, block, j as nat);
    }
    assert(Seq::new(128, |j: int| a2_block_byte(e, lo ^ b4, j as nat)) =~= block);
}

/// The block-write frame `FlashCommand` writes is one: it is defined on
/// the emulated board, which stores its block and answers as
/// `lemma_emulated_a2_write` says.
pub proof fn lemma_emulated_block_write(s: TestReaderState, firmware_offset: u32, block: Seq<u8>, is_128kb_firmware: bool)
    requires
        block.len() == 128,
    ensures
        is_block_frame(
            write_block_frame(firmware_offset, block, is_128kb_firmware),
            block_wire_offset(firmware_offset, is_128kb_firmware),
            block,
        ),
{
    let offset = block_wire_offset(firmware_offset, is_128kb_firmware);
    let body = write_block_body(offset, block);
    let raw = write_block_frame(firmware_offset, block, is_128kb_firmware);
    lemma_unescape_flash_args(body);
    assert(raw.drop_first() =~= escape_flash(body));
    assert(unescape(raw) == seq![0xA2u8] + unescape_from(escape_flash(body), false));
    assert(unescape(raw) =~= seq![0xA2u8] + body);
}

/// The emulator undoes the escapes the host puts in a frame.
proof fn lemma_unescape_escape_host(s: Seq<u8>)
    ensures
        unescape_from(escape_host(s), false) == s,
    decreases s.len(),
{
    if s.len() == 0 {
        assert(escape_host(s) =~= Seq::<u8>::empty());
        assert(unescape_from(escape_host(s), false) =~= s);
    } else {
        let b = s[0];
        let rest = s.drop_first();
        lemma_unescape_escape_host(rest);
        let e = escape_host(rest);
        let w = escape_host(s);
        if b == 0xAA || b == 0xFF {
            let x: u8 = if b == 0xAA { 0x55 } else { 0x00 };
            assert(w == seq![0xFFu8, x] + e);
            assert(w.drop_first() =~= seq![x] + e);
            assert((seq![x] + e).drop_first() =~= e);
            assert(!x == b) by (bit_vector)
                requires
                    x == (if b == 0xAA { 0x55u8 } else { 0x00u8 }),
                    b == 0xAA || b == 0xFF;
            assert(unescape_from(w, false) == unescape_from(seq![x] + e, true));
            assert(unescape_from(seq![x] + e, true) == seq![!x] + unescape_from(e, false));
        } else {
            assert(w == seq![b] + e);
            assert(w.drop_first() =~= e);
            assert(unescape_from(w, false) == seq![b] + unescape_from(e, false));
        }
        assert(seq![b] + rest =~= s);
    }
}

/// Bytes without `0xFF` need no unescaping.
proof fn lemma_unescape_ff_plain(s: Seq<u8>)
    requires
        forall|i: int| 0 <= i < s.len() ==> s[i] != 0xFF,
    ensures
        unescape_ff(s) == Some(s),
    decreases s.len(),
{
    if s.len() > 0 {
        lemma_unescape_ff_plain(s.drop_first());
        assert(seq![s[0]] + s.drop_first() =~= s);
    }
}

/// The emulated board answers a ping with the ping value plus one: the
/// answer to the frame of a ping with value `v` and sequence number `seq`
/// reads as a pong of `v + 1` with that sequence number. The answer is not
/// escaped, so this holds when none of its bytes after the start bytes is
/// `0xFF`.
pub proof fn lemma_emulated_ping(s: TestReaderState, v: u8, seq: u8)
    requires
        v < 0xFE,
        seq != 0xFF,
        checksum8(seq![0x00u8, 0x00, 0x01, seq, 0x01, (v + 1) as u8]) != 0xFF,
    ensures
        write_defined(spec_to_frame(HostCommand::Ping { ping_value: v }, seq)),
        ({
            let sent = emulated_write(s, spec_to_frame(HostCommand::Ping { ping_value: v }, seq));
            &&& sent.data.subrange(0, s.data.len() as int) == s.data
            &&& spec_from_frame(sent.data.skip(s.data.len() as int), true)
                == Ok::<CommandResponseView, crate::bi2a_protocol::command_response::CommandResponseParseErrorView>(CommandResponseView::Pong { sequence_number: seq, pong_value: (v + 1) as u8 })
        }),
{
    let cmd = HostCommand::Ping { ping_value: v };
    let raw = spec_to_frame(cmd, seq);
    let body = crate::protocol::frame::host_command::checked_body(cmd, seq);
    lemma_unescape_escape_host(body);
    assert(raw.drop_first() == escape_host(body));
    let e = unescape(raw);
    assert(e == seq![0xAAu8] + body) by {
        assert(raw == seq![0xAAu8] + escape_host(body));
        assert(raw.drop_first() =~= escape_host(body));
    }
    assert(body.len() == 7);
    lemma_big_endian(0, 1, 0, 0);
    assert(e[2] == 0 && e[3] == 1 && e[4] == seq && e[5] == 1 && e[6] == v);
    let answer_bytes = aa_answer(e, s.has_rebooted);
    let head = seq![0xAAu8, 0xAA, 0x00, 0x00, 0x01, seq, 0x01, (v + 1) as u8];
    assert(aa_answer_payload(e, s.has_rebooted) == (seq![(v + 1) as u8], 0x00u8));
    assert(answer_bytes == head.push(checksum8(head.skip(2)))) by {
        assert(seq![0xAAu8, 0xAA, 0x00, 0x00, 0x01, seq, 0x01] + seq![(v + 1) as u8] =~= head);
    }
    assert(head.skip(2) =~= seq![0x00u8, 0x00, 0x01, seq, 0x01, (v + 1) as u8]);
    let sent = emulated_write(s, raw);
    assert(sent.data == s.data + answer_bytes);
    assert(sent.data.subrange(0, s.data.len() as int) =~= s.data);
    assert(sent.data.skip(s.data.len() as int) =~= answer_bytes);
    let f = answer_bytes;
    assert(f.len() == 9);
    assert(f.skip(2) =~= seq![0x00u8, 0x00, 0x01, seq, 0x01, (v + 1) as u8, checksum8(head.skip(2))]);
    lemma_unescape_ff_plain(f.skip(2));
    assert(f.take(2) + f.skip(2) =~= f);
    assert(f.subrange(2, 8) =~= head.skip(2));
    assert(f.subrange(7, 8) =~= seq![(v + 1) as u8]);
}

} // verus!
