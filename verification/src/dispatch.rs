//! What a decoded packet is about: the kind of packet that an opcode stands
//! for, the command that a message of a batch carries, and what to do about
//! a message once it has been read as JSON.

use crate::frame::{OP_JOIN_ACK, OP_MESSAGE_BATCH, OP_POPULARITY};
use vstd::prelude::*;

verus! {

/// The kinds of packet that the server sends.
#[derive(Clone, Copy, Debug, PartialEq, Eq, Structural)]
pub enum PacketKind {
    /// The viewer count; the body holds one text with the count.
    Popularity,
    /// A batch of messages; the body holds one text for each message.
    MessageBatch,
    /// The answer to a request to join a room; there is no body.
    JoinAck,
    /// Anything else; there is no body.
    Other,
}

/// The commands that a message of a batch is known to carry.
#[derive(Clone, Copy, Debug, PartialEq, Eq, Structural)]
pub enum Command {
    /// A chat message.
    DanmuMsg,
    /// A gift.
    SendGift,
    /// A viewer who enters the room.
    Welcome,
}

/// What reading one text of a batch as JSON has shown.
#[derive(Clone, Copy, Debug, PartialEq, Eq)]
pub enum Reading<'a> {
    /// The text is no JSON.
    Unreadable,
    /// The text is JSON, but has no `cmd` field that holds a text.
    NoCommand,
    /// The text is JSON, and its `cmd` field holds this text.
    Command(&'a str),
}

/// What to do about one text of a batch.
#[derive(Clone, Copy, Debug, PartialEq, Eq, Structural)]
pub enum Step {
    /// Report that the text is no JSON and leave the rest of the batch.
    Fail,
    /// Leave the rest of the batch without a word.
    Leave,
    /// Pass over this text and go on with the next.
    Skip,
    /// Show the message of this command and go on with the next.
    Show(Command),
}

/// The kind of packet that opcode `op` stands for.
pub open spec fn kind_of(op: nat) -> PacketKind {
    if op == OP_POPULARITY {
        PacketKind::Popularity
    } else if op == OP_MESSAGE_BATCH {
        PacketKind::MessageBatch
    } else if op == OP_JOIN_ACK {
        PacketKind::JoinAck
    } else {
        PacketKind::Other
    }
}

/// The command that the text `cmd` names, if it is a known one.
pub open spec fn command_of(cmd: Seq<char>) -> Option<Command> {
    if cmd == "DANMU_MSG"@ {
        Some(Command::DanmuMsg)
    } else if cmd == "SEND_GIFT"@ {
        Some(Command::SendGift)
    } else if cmd == "WELCOME"@ {
        Some(Command::Welcome)
    } else {
        None
    }
}

/// What to do about a text of a batch that read as `reading`: a text that
/// is no JSON, or that names no command, ends the batch; an unknown command
/// is passed over.
pub open spec fn step_of(reading: Reading) -> Step {
    match reading {
        Reading::Unreadable => Step::Fail,
        Reading::NoCommand => Step::Leave,
        Reading::Command(cmd) => match command_of(cmd@) {
            Some(command) => Step::Show(command),
            None => Step::Skip,
        },
    }
}

/// Tells the kind of packet that opcode `op` stands for.
pub fn packet_kind(op: u32) -> (kind: PacketKind)
    ensures
        kind == kind_of(op as nat),
{
    if op == OP_POPULARITY {
        PacketKind::Popularity
    } else if op == OP_MESSAGE_BATCH {
        PacketKind::MessageBatch
    } else if op == OP_JOIN_ACK {
        PacketKind::JoinAck
    } else {
        PacketKind::Other
    }
}

/// Whether `a` and `b` are the same text.
fn same_text(a: &str, b: &str) -> (same: bool)
    ensures
        same == (a@ == b@),
{
    a.to_owned() == b.to_owned()
}

/// Tells the command that the text `cmd` names. A text that names no known
/// command gives `None`; such messages are passed over.
pub fn parse_command(cmd: &str) -> (command: Option<Command>)
    ensures
        command == command_of(cmd@),
{
    if same_text(cmd, "DANMU_MSG") {
        Some(Command::DanmuMsg)
    } else if same_text(cmd, "SEND_GIFT") {
        Some(Command::SendGift)
    } else if same_text(cmd, "WELCOME") {
        Some(Command::Welcome)
    } else {
        None
    }
}

/// Tells what to do about a text of a batch that read as `reading`.
pub fn next_step(reading: Reading) -> (step: Step)
    ensures
        step == step_of(reading),
{
    match reading {
        Reading::Unreadable => Step::Fail,
        Reading::NoCommand => Step::Leave,
        Reading::Command(cmd) => match parse_command(cmd) {
            Some(command) => Step::Show(command),
            None => Step::Skip,
        },
    }
}

} // verus!
