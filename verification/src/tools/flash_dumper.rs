//! Dumping the program ROM of a board running a custom firmware, 32 bytes
//! at a time.
//!
//! Each read is a host command `0x0002` to node `0x01` whose payload is the
//! address, low byte first. The answer is a frame of 40 bytes once
//! unescaped: 7 header bytes, the length `0x20`, the 32 bytes, and more.
//! The dump runs from `0xFFF80000` while the address is at most
//! `0xFFFFFFDF`.

use vstd::prelude::*;
use crate::protocol::frame::host_command::HostCommand;

verus! {

/// The first address dumped.
pub const DUMP_START: u32 = 0xFFF80000;

/// The number of bytes one read gives.
pub const DUMP_CHUNK: u32 = 0x20;

/// The length of an answer, once unescaped.
pub const DUMP_RESPONSE_LEN: usize = 0x28;

/// The dump so far: the next address to read and the bytes read.
pub struct FlashDumper {
    curr_addr: u32,
    dump: Vec<u8>,
}

/// A dump: the next address to read and the bytes read.
pub struct FlashDumperView {
    pub curr_addr: u32,
    pub dump: Seq<u8>,
}

impl View for FlashDumper {
    type V = FlashDumperView;

    closed spec fn view(&self) -> FlashDumperView {
        FlashDumperView { curr_addr: self.curr_addr, dump: self.dump@ }
    }
}

/// The dump holds the bytes of every address from the start up to the next
/// address to read, which moves in steps of 32 bytes.
pub open spec fn dumper_wf(d: FlashDumperView) -> bool {
    &&& DUMP_START <= d.curr_addr
    &&& d.dump.len() == d.curr_addr - DUMP_START
    &&& d.dump.len() % 32 == 0
}

/// Whether an answer carries 32 bytes: its length byte, the seventh, is
/// `0x20`.
pub open spec fn carries_chunk(response: Seq<u8>) -> bool {
    response.len() >= 7 && response[6] == 0x20
}

/// The little-endian bytes of `x`.
pub open spec fn le_bytes(x: u32) -> Seq<u8> {
    seq![x as u8, (x >> 8) as u8, (x >> 16) as u8, (x >> 24) as u8]
}

/// An answer read so far: its bytes unescaped, and whether the last byte
/// was an escaping `0xFF`.
pub struct DumpResponse {
    bytes: Vec<u8>,
    escape_next: bool,
}

/// An answer read so far, as its unescaped bytes and escape flag.
pub struct DumpResponseView {
    pub bytes: Seq<u8>,
    pub escape_next: bool,
}

impl View for DumpResponse {
    type V = DumpResponseView;

    closed spec fn view(&self) -> DumpResponseView {
        DumpResponseView { bytes: self.bytes@, escape_next: self.escape_next }
    }
}

impl DumpResponse {
    /// An answer with nothing read yet.
    pub fn new() -> (r: Self)
        ensures
            r@.bytes == Seq::<u8>::empty(),
            !r@.escape_next,
    {
        DumpResponse { bytes: Vec::new(), escape_next: false }
    }

    /// Takes one byte: `0xFF` escapes the next byte, which is stored
    /// inverted. Returns whether the answer is complete (40 bytes).
    pub fn push(&mut self, byte: u8) -> (complete: bool)
        requires
            old(self)@.bytes.len() < DUMP_RESPONSE_LEN,
        ensures
            final(self)@.bytes == (if old(self)@.escape_next {
                old(self)@.bytes.push(!byte)
            } else if byte == 0xFF {
                old(self)@.bytes
            } else {
                old(self)@.bytes.push(byte)
            }),
            final(self)@.escape_next == (!old(self)@.escape_next && byte == 0xFF),
            complete == (final(self)@.bytes.len() >= DUMP_RESPONSE_LEN),
    {
        if self.escape_next {
            self.bytes.push(!byte);
            self.escape_next = false;
        } else if byte == 0xFF {
            self.escape_next = true;
        } else {
            self.bytes.push(byte);
        }
        self.bytes.len() >= DUMP_RESPONSE_LEN
    }

    /// The bytes read, unescaped.
    pub fn bytes(&self) -> (b: &[u8])
        ensures
            b@ == self@.bytes,
    {
        self.bytes.as_slice()
    }
}

impl FlashDumper {
    /// A dump that starts at `0xFFF80000`.
    pub fn new() -> (d: Self)
        ensures
            d@.curr_addr == DUMP_START,
            d@.dump == Seq::<u8>::empty(),
            dumper_wf(d@),
    {
        FlashDumper { curr_addr: DUMP_START, dump: Vec::new() }
    }

    /// The next address to read.
    pub fn curr_addr(&self) -> (a: u32)
        ensures
            a == self@.curr_addr,
    {
        self.curr_addr
    }

    /// The read command for the next address, or `None` once the address
    /// is past `0xFFFFFFDF`.
    pub fn next_command(&self) -> (cmd: Option<HostCommand>)
        ensures
            match cmd {
                None => self@.curr_addr > 0xFFFFFFDF,
                Some(c) => {
                    &&& self@.curr_addr <= 0xFFFFFFDF
                    &&& c matches HostCommand::Custom { command_code, addr, payload }
                    &&& command_code == 0x0002
                    &&& addr == 0x01
                    &&& payload@ == le_bytes(self@.curr_addr)
                },
            },
    {
        if self.curr_addr > 0xFFFFFFFF - 0x20 {
            return None;
        }
        let a: u32 = self.curr_addr;
        let payload: Vec<u8> = vec![a as u8, (a >> 8) as u8, (a >> 16) as u8, (a >> 24) as u8];
        assert(payload@ =~= le_bytes(a));
        Some(HostCommand::Custom { addr: 0x01, command_code: 0x0002, payload })
    }

    /// Takes the answer for the next address: when it carries 32 bytes
    /// they are added to the dump and the address moves on by 32;
    /// otherwise nothing changes. Returns whether the answer was taken.
    pub fn take_response(&mut self, response: &[u8]) -> (taken: bool)
        requires
            dumper_wf(old(self)@),
            old(self)@.curr_addr <= 0xFFFFFFDF,
            carries_chunk(response@) ==> response.len() >= 7 + DUMP_CHUNK,
        ensures
            dumper_wf(final(self)@),
            taken == carries_chunk(response@),
            taken ==> final(self)@.dump == old(self)@.dump + response@.subrange(7, 7 + DUMP_CHUNK)
                && final(self)@.curr_addr == old(self)@.curr_addr + DUMP_CHUNK,
            !taken ==> final(self)@ == old(self)@,
    {
        if response.len() < 7 || response[6] != 0x20 {
            return false;
        }
        let chunk: &[u8] = vstd::slice::slice_subrange(response, 7, 7 + 0x20);
        let mut copy: Vec<u8> = vstd::slice::slice_to_vec(chunk);
        self.dump.append(&mut copy);
        self.curr_addr = self.curr_addr + 0x20;
        true
    }

    /// The bytes dumped so far, from `0xFFF80000` on.
    pub fn dump(&self) -> (d: &[u8])
        ensures
            d@ == self@.dump,
    {
        self.dump.as_slice()
    }
}

} // verus!
