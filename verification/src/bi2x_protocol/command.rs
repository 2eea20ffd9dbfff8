//! High-level BI2X commands and the frames that carry them.

use vstd::prelude::*;
use crate::bi2x_protocol::frame::{mode_for_payload, opt_view, Bi2xFrame, Bi2xFrameView};

verus! {

/// A high-level command that can be turned into a frame.
pub enum Bi2xCommand {
    /// Ping the board.
    Ping,
    /// Initialise the board.
    Init,
    /// Get the firmware version.
    GetFirmwareVersion,
    /// Allocate `size` bytes on the board for a firmware upload.
    AllocateMemoryForFirmwareUpload { size: u32 },
    /// Upload a chunk of firmware (64 bytes or less) at `offset`, into the
    /// memory that `handle` names.
    UploadFirmwareChunk { handle: u8, offset: u32, data: Vec<u8> },
    /// Finish the upload and start the firmware whose descriptor is at
    /// `firmware_descriptor_offset`, with extra initialisation arguments.
    FinishFirmwareUploadAndInit { handle: u8, firmware_descriptor_offset: u32, init_arguments: Vec<u8> },
}

/// Why several commands cannot share a frame.
#[derive(Debug)]
pub enum MultipleCommandsToFrameError {
    NoCommands,
    PingWithOtherCommands,
    DifferentNodes,
}

/// The big-endian bytes of `x`.
pub open spec fn be_bytes(x: u32) -> Seq<u8> {
    seq![(x >> 24) as u8, (x >> 16) as u8, (x >> 8) as u8, x as u8]
}

/// Whether a command is sent encrypted.
pub open spec fn spec_requires_encryption(cmd: Bi2xCommand) -> bool {
    match cmd {
        Bi2xCommand::Ping | Bi2xCommand::Init | Bi2xCommand::GetFirmwareVersion => false,
        _ => true,
    }
}

/// The node a command is sent to.
pub open spec fn spec_node(cmd: Bi2xCommand) -> u8 {
    match cmd {
        Bi2xCommand::Ping | Bi2xCommand::Init => 0x00,
        _ => 0x02,
    }
}

/// The payload record of a command: handle `0x00`, command byte, data.
pub open spec fn spec_payload_command(cmd: Bi2xCommand) -> Option<Seq<u8>> {
    match cmd {
        Bi2xCommand::Ping => None,
        Bi2xCommand::Init => Some(seq![0x00u8, 0x01]),
        Bi2xCommand::GetFirmwareVersion => Some(seq![0x00u8, 0x02, 0x81]),
        Bi2xCommand::AllocateMemoryForFirmwareUpload { size } => Some(seq![0x00u8, 0x10] + be_bytes(size)),
        Bi2xCommand::UploadFirmwareChunk { handle, offset, data } => Some(
            seq![0x00u8, 0x13, handle] + be_bytes(offset) + data@,
        ),
        Bi2xCommand::FinishFirmwareUploadAndInit { handle, firmware_descriptor_offset, init_arguments } => Some(
            seq![0x00u8, 0x78, handle] + be_bytes(firmware_descriptor_offset) + init_arguments@,
        ),
    }
}

/// The frame `Bi2xFrame::new` makes.
pub open spec fn new_frame(node: u8, sequence_number: u8, is_encrypted: bool, payload: Option<Seq<u8>>) -> Bi2xFrameView {
    Bi2xFrameView { node, sequence_number, mode: mode_for_payload(payload), is_encrypted, payload }
}

/// The frame that carries one command.
pub open spec fn spec_to_frame(cmd: Bi2xCommand, sequence_number: u8) -> Bi2xFrameView {
    new_frame(spec_node(cmd), sequence_number, spec_requires_encryption(cmd), spec_payload_command(cmd))
}

/// The payload records of several commands, back to back.
pub open spec fn commands_payload(cmds: Seq<Bi2xCommand>) -> Seq<u8>
    decreases cmds.len(),
{
    if cmds.len() == 0 {
        Seq::empty()
    } else {
        commands_payload(cmds.drop_last()) + match spec_payload_command(cmds.last()) {
            Some(p) => p,
            None => Seq::empty(),
        }
    }
}

/// The frame that carries several commands, or why they cannot share one.
pub open spec fn spec_commands_to_frame(cmds: Seq<Bi2xCommand>, sequence_number: u8) -> Result<Bi2xFrameView, MultipleCommandsToFrameError> {
    if cmds.len() == 0 {
        Err(MultipleCommandsToFrameError::NoCommands)
    } else if cmds.len() > 1 && exists|i: int| 0 <= i < cmds.len() && cmds[i] is Ping {
        Err(MultipleCommandsToFrameError::PingWithOtherCommands)
    } else if exists|i: int| 0 <= i < cmds.len() && #[trigger] spec_node(cmds[i]) != spec_node(cmds[0]) {
        Err(MultipleCommandsToFrameError::DifferentNodes)
    } else {
        Ok(new_frame(
            spec_node(cmds[0]),
            sequence_number,
            exists|i: int| 0 <= i < cmds.len() && spec_requires_encryption(cmds[i]),
            Some(commands_payload(cmds)),
        ))
    }
}

fn be_bytes_of(x: u32) -> (out: Vec<u8>)
    ensures
        out@ == be_bytes(x),
{
    let mut out: Vec<u8> = Vec::new();
    out.push((x >> 24) as u8);
    out.push((x >> 16) as u8);
    out.push((x >> 8) as u8);
    out.push(x as u8);
    assert(out@ =~= be_bytes(x));
    out
}

impl Bi2xCommand {
    fn requires_encryption(&self) -> (r: bool)
        ensures
            r == spec_requires_encryption(*self),
    {
        match self {
            Bi2xCommand::Ping => false,
            Bi2xCommand::Init => false,
            Bi2xCommand::GetFirmwareVersion => false,
            _ => true,
        }
    }

    fn node(&self) -> (r: u8)
        ensures
            r == spec_node(*self),
    {
        match self {
            Bi2xCommand::Ping => 0x00,
            Bi2xCommand::Init => 0x00,
            Bi2xCommand::GetFirmwareVersion => 0x02,
            Bi2xCommand::AllocateMemoryForFirmwareUpload { .. } => 0x02,
            Bi2xCommand::UploadFirmwareChunk { .. } => 0x02,
            Bi2xCommand::FinishFirmwareUploadAndInit { .. } => 0x02,
        }
    }

    fn payload_command(&self) -> (r: Option<Vec<u8>>)
        ensures
            opt_view(r) == spec_payload_command(*self),
    {
        match self {
            Bi2xCommand::Ping => None,
            Bi2xCommand::Init => {
                let v: Vec<u8> = vec![0x00, 0x01];
                assert(v@ =~= seq![0x00u8, 0x01]);
                Some(v)
            },
            Bi2xCommand::GetFirmwareVersion => {
                let v: Vec<u8> = vec![0x00, 0x02, 0x81];
                assert(v@ =~= seq![0x00u8, 0x02, 0x81]);
                Some(v)
            },
            Bi2xCommand::AllocateMemoryForFirmwareUpload { size } => {
                let mut payload: Vec<u8> = vec![0x00, 0x10];
                let mut b: Vec<u8> = be_bytes_of(*size);
                payload.append(&mut b);
                assert(payload@ =~= seq![0x00u8, 0x10] + be_bytes(*size));
                Some(payload)
            },
            Bi2xCommand::UploadFirmwareChunk { handle, offset, data } => {
                let mut payload: Vec<u8> = vec![0x00, 0x13];
                payload.push(*handle);
                let mut b: Vec<u8> = be_bytes_of(*offset);
                payload.append(&mut b);
                let mut d: Vec<u8> = vstd::slice::slice_to_vec(data.as_slice());
                payload.append(&mut d);
                assert(payload@ =~= seq![0x00u8, 0x13, *handle] + be_bytes(*offset) + data@);
                Some(payload)
            },
            Bi2xCommand::FinishFirmwareUploadAndInit { handle, firmware_descriptor_offset, init_arguments } => {
                let mut payload: Vec<u8> = vec![0x00, 0x78];
                payload.push(*handle);
                let mut b: Vec<u8> = be_bytes_of(*firmware_descriptor_offset);
                payload.append(&mut b);
                let mut d: Vec<u8> = vstd::slice::slice_to_vec(init_arguments.as_slice());
                payload.append(&mut d);
                assert(payload@ =~= seq![0x00u8, 0x78, *handle] + be_bytes(*firmware_descriptor_offset) + init_arguments@);
                Some(payload)
            },
        }
    }

    /// The frame that carries this command, with the given sequence number.
    pub fn to_frame(&self, sequence_number: u8) -> (frame: Bi2xFrame)
        ensures
            frame@ == spec_to_frame(*self, sequence_number),
            frame@.is_encrypted == !(*self is Ping || *self is Init || *self is GetFirmwareVersion),
            frame@.node == if *self is Ping || *self is Init { 0x00u8 } else { 0x02u8 },
            frame@.sequence_number == sequence_number,
    {
        proof {
            lemma_frame_encryption(*self, sequence_number);
        }
        Bi2xFrame::new(self.node(), sequence_number, self.requires_encryption(), self.payload_command())
    }

    /// One frame that carries all `commands`, their records back to back.
    /// Fails on no command, on a ping among several commands, and on
    /// commands for different nodes.
    pub fn commands_to_frame(commands: &[Bi2xCommand], sequence_number: u8) -> (res: Result<Bi2xFrame, MultipleCommandsToFrameError>)
        ensures
            match res {
                Ok(frame) => spec_commands_to_frame(commands@, sequence_number) == Ok::<Bi2xFrameView, MultipleCommandsToFrameError>(frame@)
                    && (frame@.is_encrypted <==> exists|i: int|
                        0 <= i < commands@.len() && !(#[trigger] commands@[i] is Ping || commands@[i] is Init
                            || commands@[i] is GetFirmwareVersion)),
                Err(e) => spec_commands_to_frame(commands@, sequence_number) == Err::<Bi2xFrameView, MultipleCommandsToFrameError>(e),
            },
    {
        if commands.len() == 0 {
            return Err(MultipleCommandsToFrameError::NoCommands);
        }

        if commands.len() > 1 {
            let mut i: usize = 0;
            while i < commands.len()
                invariant
                    i <= commands.len(),
                    commands.len() > 1,
                    forall|j: int| 0 <= j < i ==> !(commands@[j] is Ping),
                decreases commands.len() - i,
            {
                if matches!(commands[i], Bi2xCommand::Ping) {
                    assert(commands@[i as int] is Ping);
                    return Err(MultipleCommandsToFrameError::PingWithOtherCommands);
                }
                i += 1;
            }
        }

        let mut requires_encryption: bool = false;
        let mut i: usize = 0;
        while i < commands.len()
            invariant
                i <= commands.len(),
                requires_encryption == exists|j: int| 0 <= j < i && spec_requires_encryption(commands@[j]),
            decreases commands.len() - i,
        {
            if commands[i].requires_encryption() {
                requires_encryption = true;
            }
            i += 1;
        }

        let node: u8 = commands[0].node();
        let mut i: usize = 0;
        while i < commands.len()
            invariant
                i <= commands.len(),
                commands.len() > 0,
                commands.len() > 1 ==> forall|j: int| 0 <= j < commands.len() ==> !(commands@[j] is Ping),
                node == spec_node(commands@[0]),
                forall|j: int| 0 <= j < i ==> spec_node(commands@[j]) == node,
            decreases commands.len() - i,
        {
            if commands[i].node() != node {
                assert(spec_node(commands@[i as int]) != spec_node(commands@[0]));
                return Err(MultipleCommandsToFrameError::DifferentNodes);
            }
            i += 1;
        }

        let mut payload: Vec<u8> = Vec::new();
        let mut i: usize = 0;
        while i < commands.len()
            invariant
                i <= commands.len(),
                payload@ == commands_payload(commands@.take(i as int)),
            decreases commands.len() - i,
        {
            assert(commands@.take(i + 1).drop_last() =~= commands@.take(i as int));
            match commands[i].payload_command() {
                Some(mut cmd_payload) => {
                    payload.append(&mut cmd_payload);
                },
                None => {},
            }
            i += 1;
            assert(payload@ =~= commands_payload(commands@.take(i as int)));
        }
        assert(commands@.take(commands.len() as int) =~= commands@);

        proof {
            lemma_frames_encryption(commands@, sequence_number);
        }
        Ok(Bi2xFrame::new(node, sequence_number, requires_encryption, Some(payload)))
    }
}

/// A command frame is encrypted exactly when the command is not a ping, an
/// initialisation or a firmware version request; pings and
/// initialisations go to node 0, every other command to node 2.
pub proof fn lemma_frame_encryption(cmd: Bi2xCommand, sequence_number: u8)
    ensures
        spec_to_frame(cmd, sequence_number).is_encrypted == !(cmd is Ping || cmd is Init || cmd is GetFirmwareVersion),
        spec_to_frame(cmd, sequence_number).node == if cmd is Ping || cmd is Init { 0x00u8 } else { 0x02u8 },
        spec_to_frame(cmd, sequence_number).sequence_number == sequence_number,
{
}

/// Several commands share an encrypted frame exactly when one of them is
/// not a ping, an initialisation or a firmware version request.
pub proof fn lemma_frames_encryption(cmds: Seq<Bi2xCommand>, sequence_number: u8)
    ensures
        spec_commands_to_frame(cmds, sequence_number) matches Ok(f) ==> (f.is_encrypted <==> exists|i: int|
            0 <= i < cmds.len() && !(#[trigger] cmds[i] is Ping || cmds[i] is Init || cmds[i] is GetFirmwareVersion)),
{
    if spec_commands_to_frame(cmds, sequence_number) is Ok {
        let f = spec_commands_to_frame(cmds, sequence_number)->Ok_0;
        if f.is_encrypted {
            let i = choose|i: int| 0 <= i < cmds.len() && spec_requires_encryption(cmds[i]);
            assert(!(cmds[i] is Ping || cmds[i] is Init || cmds[i] is GetFirmwareVersion));
        }
        if exists|i: int| 0 <= i < cmds.len() && !(#[trigger] cmds[i] is Ping || cmds[i] is Init || cmds[i] is GetFirmwareVersion) {
            let i = choose|i: int| 0 <= i < cmds.len() && !(#[trigger] cmds[i] is Ping || cmds[i] is Init || cmds[i] is GetFirmwareVersion);
            assert(spec_requires_encryption(cmds[i]));
        }
    }
}

/// A single command other than a ping gets the same frame alone as through
/// `commands_to_frame`.
pub proof fn lemma_single_command_frame(cmd: Bi2xCommand, sequence_number: u8)
    requires
        !(cmd is Ping),
    ensures
        spec_commands_to_frame(seq![cmd], sequence_number) == Ok::<Bi2xFrameView, MultipleCommandsToFrameError>(
            spec_to_frame(cmd, sequence_number),
        ),
{
    let cmds = seq![cmd];
    assert(cmds.drop_last() =~= Seq::<Bi2xCommand>::empty());
    assert(commands_payload(cmds.drop_last()) == Seq::<u8>::empty());
    assert(commands_payload(cmds) =~= spec_payload_command(cmd)->0);
    assert(spec_requires_encryption(cmd) ==> exists|i: int| 0 <= i < cmds.len() && spec_requires_encryption(cmds[i])) by {
        assert(cmds[0] == cmd);
    }
}

} // verus!
