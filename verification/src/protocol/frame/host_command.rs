//! Commands the host sends to a BI2A board, and their frames.

use vstd::prelude::*;
use crate::bi2a_protocol::command_response::{checksum, checksum8, unescape_ff};

verus! {

/// A command for the board.
#[derive(Debug, PartialEq, Eq)]
pub enum HostCommand {
    /// Ping the board; it answers with the ping value plus one.
    Ping { ping_value: u8 },
    /// Ask for the firmware version.
    Version,
    /// Enter flash mode; only flash commands may follow.
    StartFlash,
    /// Any command, with its own code, node address and payload.
    Custom { command_code: u16, addr: u8, payload: Vec<u8> },
}

pub open spec fn spec_command_code(cmd: HostCommand) -> u16 {
    match cmd {
        HostCommand::Ping { .. } => 0x0001,
        HostCommand::Version => 0x0002,
        HostCommand::StartFlash => 0x0004,
        HostCommand::Custom { command_code, .. } => command_code,
    }
}

pub open spec fn spec_payload(cmd: HostCommand) -> Seq<u8> {
    match cmd {
        HostCommand::Ping { ping_value } => seq![ping_value],
        HostCommand::Version => Seq::empty(),
        HostCommand::StartFlash => Seq::empty(),
        HostCommand::Custom { payload, .. } => payload@,
    }
}

pub open spec fn spec_addr(cmd: HostCommand) -> u8 {
    match cmd {
        HostCommand::Ping { .. } => 0x00,
        HostCommand::Version => 0x01,
        HostCommand::StartFlash => 0x01,
        HostCommand::Custom { addr, .. } => addr,
    }
}

/// The frame of a command before escaping and without its start byte:
/// node, command code (big endian), sequence number, payload length,
/// payload.
pub open spec fn command_body(cmd: HostCommand, sequence_number: u8) -> Seq<u8> {
    let code = spec_command_code(cmd);
    let payload = spec_payload(cmd);
    seq![spec_addr(cmd), (code >> 8) as u8, (code & 0xFF) as u8, sequence_number, payload.len() as u8] + payload
}

/// The body closed by its checksum.
pub open spec fn checked_body(cmd: HostCommand, sequence_number: u8) -> Seq<u8> {
    let body = command_body(cmd, sequence_number);
    body.push(checksum8(body))
}

/// Escapes a frame: `0xAA` becomes `0xFF 0x55` and `0xFF` becomes `0xFF 0x00`.
pub open spec fn escape_host(s: Seq<u8>) -> Seq<u8>
    decreases s.len(),
{
    if s.len() == 0 {
        Seq::empty()
    } else {
        (if s[0] == 0xAA {
            seq![0xFFu8, 0x55u8]
        } else if s[0] == 0xFF {
            seq![0xFFu8, 0x00u8]
        } else {
            seq![s[0]]
        }) + escape_host(s.drop_first())
    }
}

/// The frame of a command as sent: the start byte, then the checked body
/// escaped.
pub open spec fn spec_to_frame(cmd: HostCommand, sequence_number: u8) -> Seq<u8> {
    seq![0xAAu8] + escape_host(checked_body(cmd, sequence_number))
}

impl HostCommand {
    fn command_code(&self) -> (code: u16)
        ensures
            code == spec_command_code(*self),
    {
        match self {
            HostCommand::Ping { .. } => 0x0001,
            HostCommand::Version => 0x0002,
            HostCommand::StartFlash => 0x0004,
            HostCommand::Custom { command_code, .. } => *command_code,
        }
    }

    fn payload(&self) -> (p: Vec<u8>)
        ensures
            p@ == spec_payload(*self),
    {
        match self {
            HostCommand::Ping { ping_value } => {
                let v: Vec<u8> = vec![*ping_value];
                assert(v@ =~= seq![*ping_value]);
                v
            },
            HostCommand::Version => Vec::new(),
            HostCommand::StartFlash => Vec::new(),
            HostCommand::Custom { payload, .. } => vstd::slice::slice_to_vec(payload.as_slice()),
        }
    }

    fn addr(&self) -> (a: u8)
        ensures
            a == spec_addr(*self),
    {
        match self {
            HostCommand::Ping { .. } => 0x00,
            HostCommand::Version => 0x01,
            HostCommand::StartFlash => 0x01,
            HostCommand::Custom { addr, .. } => *addr,
        }
    }

    /// The frame of this command with the given sequence number, escaped and
    /// with its start byte.
    pub fn to_frame(&self, sequence_number: u8) -> (frame: Vec<u8>)
        ensures
            frame@ == spec_to_frame(*self, sequence_number),
    {
        let mut res: Vec<u8> = Vec::new();

        // Destination node address
        res.push(self.addr());

        // Command code, high byte first
        let command_code: u16 = self.command_code();
        res.push((command_code >> 8) as u8);
        res.push((command_code & 0xFF) as u8);

        // Sequence number
        res.push(sequence_number);

        // Payload length and data
        let mut payload: Vec<u8> = self.payload();
        res.push(payload.len() as u8);
        res.append(&mut payload);
        let ghost body = res@;
        assert(body =~= command_body(*self, sequence_number));

        // Checksum: sum of all bytes modulo 256
        let checksum: u8 = checksum(res.as_slice());
        res.push(checksum);
        let ghost checked = res@;
        assert(checked == checked_body(*self, sequence_number));

        // Start delimiter
        let mut escaped_res: Vec<u8> = Vec::new();
        escaped_res.push(0xAA);

        // Escape bytes: 0xAA => 0xFF 0x55, 0xFF => 0xFF 0x00
        let mut j: usize = 0;
        assert(checked.skip(0) =~= checked);
        while j < res.len()
            invariant
                res@ == checked,
                j <= res.len(),
                escaped_res@ + escape_host(checked.skip(j as int)) == seq![0xAAu8] + escape_host(checked),
            decreases res.len() - j,
        {
            let byte: u8 = res[j];
            let ghost before = escaped_res@;
            assert(checked.skip(j as int).drop_first() =~= checked.skip(j + 1));
            match byte {
                0xAA => {
                    escaped_res.push(0xFF);
                    escaped_res.push(0x55);
                },
                0xFF => {
                    escaped_res.push(0xFF);
                    escaped_res.push(0x00);
                },
                _ => escaped_res.push(byte),
            }
            j += 1;
            assert(escaped_res@ + escape_host(checked.skip(j as int)) =~= before + escape_host(checked.skip(j - 1)));
        }
        assert(checked.skip(j as int) =~= Seq::<u8>::empty());
        assert(escaped_res@ + Seq::<u8>::empty() =~= escaped_res@);
        escaped_res
    }
}

/// Undoing the `0xFF` escapes of what the host escaped gives it back.
pub proof fn lemma_unescape_host(s: Seq<u8>)
    ensures
        unescape_ff(escape_host(s)) == Some(s),
    decreases s.len(),
{
    if s.len() == 0 {
        assert(escape_host(s) =~= Seq::<u8>::empty());
    } else {
        let b = s[0];
        let rest = s.drop_first();
        lemma_unescape_host(rest);
        let e = escape_host(rest);
        let w = escape_host(s);
        if b == 0xAA || b == 0xFF {
            let x: u8 = if b == 0xAA { 0x55 } else { 0x00 };
            assert(w == seq![0xFFu8, x] + e);
            assert(w.skip(2) =~= e);
            assert(!x == b) by (bit_vector)
                requires
                    x == (if b == 0xAA { 0x55u8 } else { 0x00u8 }),
                    b == 0xAA || b == 0xFF;
            assert(seq![b] + rest =~= s);
        } else {
            assert(w == seq![b] + e);
            assert(w.drop_first() =~= e);
            assert(seq![b] + rest =~= s);
        }
    }
}

/// A command frame, without its start byte and once unescaped, is the
/// command's body followed by its checksum, the sum of the body modulo 256.
pub proof fn lemma_host_frame_unescapes(cmd: HostCommand, sequence_number: u8)
    ensures
        unescape_ff(spec_to_frame(cmd, sequence_number).drop_first()) == Some(checked_body(cmd, sequence_number)),
        checked_body(cmd, sequence_number).last() == checksum8(command_body(cmd, sequence_number)),
{
    let f = spec_to_frame(cmd, sequence_number);
    assert(f.drop_first() =~= escape_host(checked_body(cmd, sequence_number)));
    lemma_unescape_host(checked_body(cmd, sequence_number));
}

} // verus!
