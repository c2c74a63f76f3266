//! Commands for running nodes and the dispatcher's failure taxonomy.

use vstd::prelude::*;

verus! {

/// An instruction sent to a running node. These are opaque to the
/// dispatcher: it only moves them to the right channel. The drop rate is
/// the same opaque code the rest of the library carries; the presentation
/// layer owns its encoding.
#[derive(Clone, Copy, PartialEq, Eq, Structural, Debug)]
pub enum Command {
    /// Stop processing and release resources.
    Crash,
    /// Wire a new outgoing channel to the given peer; the peer's channel
    /// handle is resolved outside the library from the peer id.
    AddSender(u8),
    /// Drop the outgoing channel to the given peer.
    RemoveSender(u8),
    /// Update the node's synthetic failure probability.
    SetDropRate(u32),
}

/// Why a command could not be handed to its node. None of these is ever
/// escalated: the calling workflow decides whether to continue with
/// best-effort semantics.
#[derive(Clone, Copy, PartialEq, Eq, Structural, Debug)]
pub enum SendError {
    /// No channel map is loaded at all.
    NoChannelMap,
    /// The map is loaded but holds no channel for this id.
    NoChannelForId,
    /// The node's receiving end is gone.
    ChannelClosed,
}

/// One dispatcher action taken while carrying out an operator intent: the
/// target node, the command, and how the send went.
#[derive(Clone, Copy, PartialEq, Eq, Debug)]
pub struct SendRecord {
    pub target: u8,
    pub command: Command,
    pub result: Result<(), SendError>,
}

} // verus!
