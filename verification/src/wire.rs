//! What goes over the wire, as values.
//!
//! The layout of a datagram belongs to the shell's codec: it turns bytes into a
//! [`Datagram`] before the core sees them, and a [`Datagram`] into bytes after
//! the core has decided to send it. What is decided — the type, the addresses,
//! the sequence, the time and every field of the payload — is decided here.

use vstd::prelude::*;

use crate::uuid::Uuid;

verus! {

/// What a datagram is.
#[derive(Clone, Copy, PartialEq, Eq, Debug, Structural)]
pub enum MsgType {
    Tick,
    SyncReq,
    SyncResp,
    Chan,
    ChanClaim,
    Frame,
    ProbeData,
    StateDigest,
    StatePull,
    StatePush,
    Activate,
    SrcPush,
    ProgBegin,
    ProgChunk,
    ProgEnd,
    Hello,
    /// A type that this core has no name for, by its number.
    Other(u8),
}

/// Which kind of delivery a message needs.
#[derive(Clone, Copy, PartialEq, Eq, Debug, Structural)]
pub enum Transport {
    /// Best effort: another is along in milliseconds.
    Datagram,
    /// It is said once, so it has to arrive.
    Reliable,
}

/// Who holds the timebase, and what time it is there.
#[derive(Clone, Copy, PartialEq, Eq, Debug)]
pub struct Tick {
    pub show_time_us: u64,
    pub master_uuid: Uuid,
    pub master_capacity: u32,
    pub election_epoch: u32,
    /// The wall clock, where the sender has one it can vouch for.
    pub wall_time_us: Option<u64>,
}

/// What time is it where you are?
#[derive(Clone, Copy, PartialEq, Eq, Debug, Structural)]
pub struct SyncReq {
    /// When the question was sent, on the asker's clock.
    pub t1: u64,
}

/// The answer to a [`SyncReq`].
#[derive(Clone, Copy, PartialEq, Eq, Debug, Structural)]
pub struct SyncResp {
    /// The question's own `t1`.
    pub t1: u64,
    /// When the question arrived, on the answerer's clock.
    pub t2: u64,
    /// When the answer was sent, on the answerer's clock.
    pub t3: u64,
}

/// What a datagram says.
#[derive(Clone, Copy, PartialEq, Eq, Debug)]
pub enum Payload {
    Tick(Tick),
    SyncReq(SyncReq),
    SyncResp(SyncResp),
    /// Something that is no concern of the timebase.
    Other,
}

/// Who a datagram is from, and which one it is.
#[derive(Clone, Copy, PartialEq, Eq, Debug)]
pub struct Header {
    pub msg_type: MsgType,
    pub mesh_prefix: [u8; 2],
    pub sender_prefix: [u8; 4],
    pub sequence: u32,
    pub show_time_us: u64,
}

/// A datagram.
#[derive(Clone, Copy, PartialEq, Eq, Debug)]
pub struct Datagram {
    pub header: Header,
    /// `None` where the type is not known or the payload is not one of its type.
    pub payload: Option<Payload>,
}

/// Whether two mesh prefixes are the same prefix.
pub fn same_mesh(a: &[u8; 2], b: &[u8; 2]) -> (same: bool)
    ensures
        same == (*a == *b),
{
    if a[0] == b[0] && a[1] == b[1] {
        assert(a@ =~= b@);
        assert(*a == *b);
        true
    } else {
        false
    }
}

} // verus!
