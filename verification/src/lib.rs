//! The decisions a lighting device makes, without the I/O.
//!
//! Every state machine here takes events and a clock and answers with actions.
//! The shell around it owns the sockets, the timers and the flash writes, and
//! brings three things of its own: the codec for datagrams, the fixed-point
//! arithmetic of the machine that runs effects, and that machine. What is decided
//! here is stated in contracts and proved.
//!
//! - [`sync`] — time sync. Unsynced, Syncing, Synced, with a clock that slews and
//!   never steps.
//! - [`election`] — timebase election, by capacity and never by load.
//! - [`node`] — the two together: events in, actions out.
//! - [`sources`] — the source stack: one mechanism for shows, schedules, alerts,
//!   manual control and streams, with priority and expiry on every one.
//! - [`zones`] — zone selectors and projections, evaluated on each device against
//!   its own LEDs.
//! - [`records`] — replicated state: hybrid logical clocks, who may sign what, and
//!   gossip.
//! - [`keepers`] — which devices hold the records.
//! - [`channels`] — the broadcast uniforms an effect reads.
//! - [`audio`] — turning samples into the numbers an effect reads.
//! - [`gateway`] — what an unauthenticated integration may do.
//! - [`render`] — the render loop, where a pixel finally gets a colour.
//! - [`bench`] — driving any of the above one scripted request at a time, and
//!   [`answers`], what it says in reply.
//!
//! Discovery is deliberately absent. Finding peers is I/O, none of it a decision.

use vstd::prelude::*;

pub mod answers;
pub mod audio;
pub mod bench;
pub mod channels;
pub mod election;
pub mod gateway;
pub mod keepers;
pub mod lists;
pub mod node;
pub mod num;
pub mod order;
pub mod q16;
pub mod records;
pub mod render;
pub mod sources;
pub mod sync;
pub mod table;
pub mod uuid;
pub mod wire;
pub mod zones;

pub use channels::{Channel, Channels};
pub use election::{Candidacy, Election, Role};
pub use node::Node;
pub use q16::Q16;
pub use records::{Authority, Hlc, Record, RecordType, Store};
pub use render::{Renderer, Rgb};
pub use sources::{Source, SourceStack};
pub use sync::{Sync, SyncState};
pub use uuid::Uuid;
pub use wire::Transport;
pub use zones::{MapQuality, Projection, Zone};

verus! {

/// Microseconds on the show clock.
pub type ShowTimeUs = u64;

/// How a datagram should be sent.
///
/// The core says *what kind of reach* a message needs, not which socket. The
/// shell maps that onto multicast groups and addresses.
#[derive(Clone, Copy, PartialEq, Eq, Debug)]
pub enum Destination {
    /// Every device in the mesh.
    Mesh,
    /// One peer, identified by the prefix that appears in a header.
    Peer([u8; 4]),
}

/// Everything the outside world can tell a node about.
#[derive(Clone, Copy, PartialEq, Eq, Debug)]
pub enum Event {
    /// A timer the core asked for has fired.
    Tick,
    /// Bytes arrived: the datagram they hold, or nothing where they hold none.
    Datagram { datagram: Option<wire::Datagram> },
    /// The shell found a peer, however it does that.
    PeerDiscovered { prefix: [u8; 4] },
    /// The shell lost a peer.
    PeerLost { prefix: [u8; 4] },
}

/// Everything a node can ask the outside world to do.
#[derive(Clone, Copy, PartialEq, Eq, Debug)]
pub enum Action {
    /// Call back in at most this many microseconds.
    ///
    /// A hint, not a contract: waking late is a quality problem, waking early is
    /// free.
    SetTimer { in_us: u64 },
    /// Send this datagram.
    Send { to: Destination, datagram: wire::Datagram, transport: Transport },
    /// Move the show clock by this much, by **slewing the rate**. Never a step.
    DisciplineClock { offset_us: i64 },
    /// This node took or lost the timebase.
    RoleChanged { role: Role, epoch: u32 },
    /// Suppress tightly-synced content: the clock is not trustworthy.
    SyncLost,
    /// The clock is trustworthy again.
    SyncAcquired,
}

/// Who this device is, for election purposes.
#[derive(Clone, Copy, PartialEq, Eq, Debug)]
pub struct Identity {
    pub uuid: Uuid,
    /// Static benchmark score. **Never current load.**
    pub capacity: u32,
    /// The prefix that names this device in a header.
    pub prefix: [u8; 4],
}

impl Identity {
    pub fn new(uuid: Uuid, capacity: u32, prefix: [u8; 4]) -> (me: Identity)
        ensures
            me == (Identity { uuid, capacity, prefix }),
    {
        Identity { uuid, capacity, prefix }
    }

    pub fn candidacy(&self) -> (c: Candidacy)
        ensures
            c == (Candidacy { capacity: self.capacity, uuid: self.uuid }),
    {
        Candidacy { capacity: self.capacity, uuid: self.uuid }
    }

    pub fn prefix(&self) -> (r: [u8; 4])
        ensures
            r == self.prefix,
    {
        self.prefix
    }
}

/// A source of pixels claiming a zone, with a priority and an expiry.
///
/// **Priority and timeout on everything.** Nothing can permanently capture a
/// pixel, and a dead publisher releases its claim on its own.
#[derive(Clone, Copy, PartialEq, Eq, Debug, Structural)]
pub struct SourceClaim {
    pub priority: u8,
    /// Show time at which this claim lapses. `None` is only legal at the ambient
    /// floor.
    pub expires_at_us: Option<u64>,
}

} // verus!
