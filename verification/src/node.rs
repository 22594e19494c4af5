//! The two state machines, wired together.
//!
//! [`Node`] is the core a shell drives: events in, actions out. It owns the parts
//! of the protocol that are decisions — which peer to probe, when to stand for
//! election, whether the clock can be trusted — and none of the parts that are
//! I/O.

use vstd::prelude::*;

use crate::election::{Candidacy, Election, Outcome as ElectionOutcome, Role};
use crate::num::{capped, least, least_of, most, most_of, past};
use crate::sync::{Outcome as SyncOutcome, Sample, Sync, SyncModel};
use crate::uuid::same_prefix;
use crate::wire::{
    same_mesh, Datagram, Header, MsgType, Payload, SyncReq, SyncResp, Tick, Transport,
};
use crate::{Action, Destination, Event, Identity};

verus! {

/// How long an unanswered probe blocks the next one.
///
/// A round trip on a local network is milliseconds, so a second is generous and
/// still fast enough that a device losing one packet is briefly rather than
/// permanently unsynchronised.
pub const PROBE_TIMEOUT_US: u64 = 1_000_000;

/// The shortest sleep a node asks for: a shell that honoured a zero delay would
/// spin.
pub const MIN_SLEEP_US: u64 = 1_000;

/// Whether a message is replaced on a schedule: another is along in milliseconds,
/// and a retransmission would arrive after the moment it described.
pub open spec fn scheduled(msg_type: MsgType) -> bool {
    ||| msg_type is Tick
    ||| msg_type is SyncReq
    ||| msg_type is SyncResp
    ||| msg_type is Chan
    ||| msg_type is Frame
    ||| msg_type is ProbeData
}

/// Which transport a message type requires.
pub fn transport_for(msg_type: MsgType) -> (r: Transport)
    ensures
        r == if scheduled(msg_type) {
            Transport::Datagram
        } else {
            Transport::Reliable
        },
{
    match msg_type {
        MsgType::Tick
        | MsgType::SyncReq
        | MsgType::SyncResp
        | MsgType::Chan
        | MsgType::Frame
        | MsgType::ProbeData => Transport::Datagram,
        _ => Transport::Reliable,
    }
}

/// A node as plain data.
pub ghost struct NodeModel {
    pub me: Identity,
    pub mesh_prefix: [u8; 2],
    pub election: Election,
    pub sync: SyncModel,
    pub boot_counter: u32,
    pub sequence: u32,
    pub master_prefix: Option<[u8; 4]>,
    pub pending_probe_t1: Option<u64>,
    pub probe_deadline_us: u64,
}

/// A node and what it has asked for so far.
pub ghost struct Turn {
    pub node: NodeModel,
    pub out: Seq<Action>,
}

/// The next of a counter that wraps.
pub open spec fn succeeded(sequence: u32) -> u32 {
    if sequence < u32::MAX {
        (sequence + 1) as u32
    } else {
        0
    }
}

impl NodeModel {
    /// A node that has decided nothing yet.
    pub open spec fn cold(
        me: Identity,
        mesh_prefix: [u8; 2],
        boot_counter: u32,
        now_us: u64,
    ) -> NodeModel {
        NodeModel {
            me,
            mesh_prefix,
            election: Election::cold(
                Candidacy { capacity: me.capacity, uuid: me.uuid },
                now_us,
            ),
            sync: SyncModel::cold(),
            boot_counter,
            sequence: 0,
            master_prefix: None,
            pending_probe_t1: None,
            probe_deadline_us: u64::MAX,
        }
    }

    /// What holds of every node: it stands for election as itself, and waits for
    /// an answer only to a probe that is out.
    pub open spec fn valid(self) -> bool {
        &&& self.election.wf()
        &&& self.election.me.uuid == self.me.uuid
        &&& self.pending_probe_t1 is None ==> self.probe_deadline_us == u64::MAX
    }

    /// A leader defines the timebase, so it is synced by definition.
    pub open spec fn synced(self) -> bool {
        self.election.role is Leader || self.sync.state is Synced
    }

    /// How long the shell may sleep.
    pub open spec fn sleep(self, now_us: u64) -> int {
        most(
            least(
                least(self.election.deadline(now_us), self.sync.deadline(now_us)),
                past(self.probe_deadline_us as int, now_us as int),
            ),
            MIN_SLEEP_US as int,
        )
    }

    /// Whether a datagram is from another device of this mesh.
    pub open spec fn hears(self, header: Header) -> bool {
        header.mesh_prefix == self.mesh_prefix && header.sender_prefix != self.me.prefix
    }

    /// The datagram that says `payload` next.
    pub open spec fn framed(self, now_us: u64, msg_type: MsgType, payload: Payload) -> Datagram {
        Datagram {
            header: Header {
                msg_type,
                mesh_prefix: self.mesh_prefix,
                sender_prefix: self.me.prefix,
                sequence: succeeded(self.sequence),
                show_time_us: now_us,
            },
            payload: Some(payload),
        }
    }

    pub open spec fn event(self, now_us: u64, ev: Event) -> Turn {
        let turn = Turn { node: self, out: Seq::empty() };
        let after = match ev {
            Event::Tick => turn.timer(now_us),
            Event::Datagram { datagram } => match datagram {
                Some(d) => turn.datagram(now_us, d),
                None => turn,
            },
            _ => turn,
        };
        after.says(Action::SetTimer { in_us: after.node.sleep(now_us) as u64 })
    }
}

impl Turn {
    pub open spec fn says(self, action: Action) -> Turn {
        Turn { out: self.out.push(action), ..self }
    }

    pub open spec fn sends(
        self,
        now_us: u64,
        msg_type: MsgType,
        to: Destination,
        payload: Payload,
    ) -> Turn {
        Turn {
            node: NodeModel { sequence: succeeded(self.node.sequence), ..self.node },
            out: self.out.push(
                Action::Send {
                    to,
                    datagram: self.node.framed(now_us, msg_type, payload),
                    transport: if scheduled(msg_type) {
                        Transport::Datagram
                    } else {
                        Transport::Reliable
                    },
                },
            ),
        }
    }

    /// Say who holds the timebase: this node. It vouches for no wall clock.
    pub open spec fn ticks(self, now_us: u64) -> Turn {
        self.sends(
            now_us,
            MsgType::Tick,
            Destination::Mesh,
            Payload::Tick(
                Tick {
                    show_time_us: now_us,
                    master_uuid: self.node.me.uuid,
                    master_capacity: self.node.me.capacity,
                    election_epoch: self.node.election.epoch,
                    wall_time_us: None,
                },
            ),
        )
    }

    /// Ask the master for the time, where that is another node and no question is
    /// out.
    pub open spec fn probes(self, now_us: u64) -> Turn {
        if self.node.election.role is Leader || self.node.master_prefix is None
            || self.node.pending_probe_t1 is Some {
            self
        } else {
            Turn {
                node: NodeModel {
                    pending_probe_t1: Some(now_us),
                    probe_deadline_us: capped(now_us + PROBE_TIMEOUT_US) as u64,
                    ..self.node
                },
                ..self
            }.sends(
                now_us,
                MsgType::SyncReq,
                Destination::Peer(self.node.master_prefix->0),
                Payload::SyncReq(SyncReq { t1: now_us }),
            )
        }
    }

    /// Say whether the clock can be trusted, where that changed.
    pub open spec fn announces(self, was_synced: bool) -> Turn {
        if self.node.synced() == was_synced {
            self
        } else if self.node.synced() {
            self.says(Action::SyncAcquired)
        } else {
            self.says(Action::SyncLost)
        }
    }

    /// Give up on a probe nobody answered.
    pub open spec fn expires_probe(self, now_us: u64) -> Turn {
        if now_us >= self.node.probe_deadline_us {
            Turn {
                node: NodeModel {
                    pending_probe_t1: None,
                    probe_deadline_us: u64::MAX,
                    ..self.node
                },
                ..self
            }
        } else {
            self
        }
    }

    pub open spec fn elects_on_timer(self, now_us: u64) -> Turn {
        let (election, outcome) = self.node.election.timer(now_us);
        let after = Turn { node: NodeModel { election, ..self.node }, ..self };
        match outcome {
            ElectionOutcome::Announce | ElectionOutcome::SendTick => after.ticks(now_us),
            ElectionOutcome::Became(role) => {
                let told = after.says(Action::RoleChanged { role, epoch: election.epoch });
                if role is Leader {
                    told.ticks(now_us)
                } else {
                    told
                }
            },
            ElectionOutcome::Idle => after,
        }
    }

    /// Act on what the clock discipline decided.
    pub open spec fn syncs(self, now_us: u64, decided: (SyncModel, SyncOutcome)) -> Turn {
        let after = Turn { node: NodeModel { sync: decided.0, ..self.node }, ..self };
        match decided.1 {
            SyncOutcome::Probe => after.probes(now_us),
            SyncOutcome::Discipline(offset_us) => after.says(Action::DisciplineClock { offset_us }),
            _ => after,
        }
    }

    pub open spec fn timer(self, now_us: u64) -> Turn {
        let elected = self.expires_probe(now_us).elects_on_timer(now_us);
        elected.syncs(now_us, elected.node.sync.timer(now_us)).announces(self.node.synced())
    }

    pub open spec fn datagram(self, now_us: u64, d: Datagram) -> Turn {
        if !self.node.hears(d.header) {
            self
        } else {
            match d.payload {
                None => self,
                Some(payload) => (match payload {
                    Payload::Tick(tick) => self.hears_tick(now_us, d.header, tick),
                    Payload::SyncReq(req) => self.sends(
                        now_us,
                        MsgType::SyncResp,
                        Destination::Peer(d.header.sender_prefix),
                        Payload::SyncResp(SyncResp { t1: req.t1, t2: now_us, t3: now_us }),
                    ),
                    Payload::SyncResp(resp) => self.hears_answer(now_us, resp),
                    Payload::Other => self,
                }).announces(self.node.synced()),
            }
        }
    }

    pub open spec fn hears_tick(self, now_us: u64, header: Header, tick: Tick) -> Turn {
        let (election, outcome) = self.node.election.tick(
            now_us,
            Candidacy { capacity: tick.master_capacity, uuid: tick.master_uuid },
            tick.election_epoch,
        );
        let after = Turn {
            node: NodeModel {
                election,
                master_prefix: Some(header.sender_prefix),
                ..self.node
            },
            ..self
        };
        let told = match outcome {
            ElectionOutcome::Became(role) => after.says(
                Action::RoleChanged { role, epoch: election.epoch },
            ),
            ElectionOutcome::Announce | ElectionOutcome::SendTick => after.ticks(now_us),
            ElectionOutcome::Idle => after,
        };
        if election.role is Leader {
            told
        } else {
            let (sync, next) = told.node.sync.tick(now_us);
            let noted = Turn { node: NodeModel { sync, ..told.node }, ..told };
            if next is Probe {
                noted.probes(now_us)
            } else {
                noted
            }
        }
    }

    pub open spec fn hears_answer(self, now_us: u64, resp: SyncResp) -> Turn {
        if self.node.pending_probe_t1 != Some(resp.t1) {
            self
        } else {
            let after = Turn {
                node: NodeModel {
                    pending_probe_t1: None,
                    probe_deadline_us: u64::MAX,
                    ..self.node
                },
                ..self
            };
            if self.node.election.role is Leader {
                after
            } else {
                after.syncs(
                    now_us,
                    after.node.sync.sample(
                        now_us,
                        Sample { t1: resp.t1, t2: resp.t2, t3: resp.t3, t4: now_us },
                    ),
                )
            }
        }
    }
}

/// A mesh participant: election and time sync together.
pub struct Node {
    me: Identity,
    mesh_prefix: [u8; 2],
    election: Election,
    sync: Sync,
    /// Increments on every datagram sent, per boot.
    sequence: u32,
    boot_counter: u32,
    /// The peer currently believed to hold the timebase.
    master_prefix: Option<[u8; 4]>,
    /// `t1` of the outstanding probe, if any.
    ///
    /// One at a time: a second request in flight would make the responses
    /// ambiguous.
    pending_probe_t1: Option<u64>,
    /// When to give up on the outstanding probe and allow another. Without this,
    /// one lost datagram stops time sync for ever.
    probe_deadline_us: u64,
}

impl View for Node {
    type V = NodeModel;

    closed spec fn view(&self) -> NodeModel {
        NodeModel {
            me: self.me,
            mesh_prefix: self.mesh_prefix,
            election: self.election,
            sync: self.sync@,
            boot_counter: self.boot_counter,
            sequence: self.sequence,
            master_prefix: self.master_prefix,
            pending_probe_t1: self.pending_probe_t1,
            probe_deadline_us: self.probe_deadline_us,
        }
    }
}

impl Node {
    pub closed spec fn wf(&self) -> bool {
        self.sync.wf() && self@.valid()
    }

    pub fn new(me: Identity, mesh_prefix: [u8; 2], boot_counter: u32, now_us: u64) -> (n: Node)
        ensures
            n.wf(),
            n@ == NodeModel::cold(me, mesh_prefix, boot_counter, now_us),
    {
        Node {
            election: Election::new(me.candidacy(), now_us),
            me,
            mesh_prefix,
            sync: Sync::new(),
            sequence: 0,
            boot_counter,
            master_prefix: None,
            pending_probe_t1: None,
            probe_deadline_us: u64::MAX,
        }
    }

    pub fn role(&self) -> (r: Role)
        ensures
            r == self@.election.role,
    {
        self.election.role()
    }

    pub fn is_synced(&self) -> (r: bool)
        requires
            self.wf(),
        ensures
            r == self@.synced(),
    {
        self.election.is_leader() || self.sync.is_synced()
    }

    pub fn epoch(&self) -> (r: u32)
        ensures
            r == self@.election.epoch,
    {
        self.election.epoch()
    }

    /// Which boot of this device this is, for the codec: with the sequence it
    /// makes every datagram's number its own.
    pub fn boot_counter(&self) -> (r: u32)
        ensures
            r == self@.boot_counter,
    {
        self.boot_counter
    }

    /// One event in, and everything to do about it out.
    pub fn on_event(&mut self, now_us: u64, ev: Event) -> (out: Vec<Action>)
        requires
            old(self).wf(),
        ensures
            final(self).wf(),
            (Turn { node: final(self)@, out: out@ }) == old(self)@.event(now_us, ev),
    {
        let mut out: Vec<Action> = Vec::new();
        match ev {
            Event::Tick => self.on_timer(now_us, &mut out),
            Event::Datagram { datagram } => {
                // Rubbish is dropped in silence. Replying would make the node an
                // amplifier for anyone who can send a malformed packet.
                if let Some(d) = datagram {
                    self.on_datagram(now_us, d, &mut out);
                }
            },
            // Nothing to decide. The core learns who exists from the traffic
            // itself, which is the only source that cannot be stale.
            Event::PeerDiscovered { .. } | Event::PeerLost { .. } => {},
        }
        let in_us: u64 = self.next_deadline_us(now_us);
        out.push(Action::SetTimer { in_us });
        out
    }

    fn next_deadline_us(&self, now_us: u64) -> (r: u64)
        requires
            self.wf(),
        ensures
            r == self@.sleep(now_us),
    {
        // The outstanding probe's timeout counts: a node that only woke for the
        // election and the resync interval would take thirty seconds to notice a
        // lost probe.
        let probe: u64 = self.probe_deadline_us.saturating_sub(now_us);
        let decided: u64 = least_of(
            self.election.next_deadline_us(now_us),
            self.sync.next_deadline_us(now_us),
        );
        most_of(least_of(decided, probe), MIN_SLEEP_US)
    }

    fn on_timer(&mut self, now_us: u64, out: &mut Vec<Action>)
        requires
            old(self).wf(),
        ensures
            final(self).wf(),
            (Turn { node: final(self)@, out: final(out)@ }) == (Turn {
                node: old(self)@,
                out: old(out)@,
            }).timer(now_us),
    {
        let before: bool = self.is_synced();
        if now_us >= self.probe_deadline_us {
            self.pending_probe_t1 = None;
            self.probe_deadline_us = u64::MAX;
        }
        match self.election.on_timer(now_us) {
            ElectionOutcome::Announce | ElectionOutcome::SendTick => self.send_tick(now_us, out),
            ElectionOutcome::Became(role) => {
                out.push(Action::RoleChanged { role, epoch: self.election.epoch() });
                if role == Role::Leader {
                    self.send_tick(now_us, out);
                }
            },
            ElectionOutcome::Idle => {},
        }
        match self.sync.on_timer(now_us) {
            SyncOutcome::Probe => self.send_sync_req(now_us, out),
            SyncOutcome::Discipline(offset_us) => {
                out.push(Action::DisciplineClock { offset_us });
            },
            SyncOutcome::Lost | SyncOutcome::Acquired | SyncOutcome::Idle => {},
        }
        self.announce_sync_change(before, out);
    }

    fn on_datagram(&mut self, now_us: u64, d: Datagram, out: &mut Vec<Action>)
        requires
            old(self).wf(),
        ensures
            final(self).wf(),
            (Turn { node: final(self)@, out: final(out)@ }) == (Turn {
                node: old(self)@,
                out: old(out)@,
            }).datagram(now_us, d),
    {
        if !same_mesh(&d.header.mesh_prefix, &self.mesh_prefix) {
            // Another mesh on the same network.
            return;
        }
        if same_prefix(&d.header.sender_prefix, &self.me.prefix) {
            // Our own multicast, looped back.
            return;
        }
        let payload = match d.payload {
            Some(payload) => payload,
            None => {
                // An unknown type is ignored, not rejected: that is what makes
                // minor-version additions safe.
                return;
            },
        };
        let before: bool = self.is_synced();
        match payload {
            Payload::Tick(tick) => self.on_tick_message(now_us, &d.header, tick, out),
            Payload::SyncReq(req) => self.on_sync_req(now_us, &d.header, req, out),
            Payload::SyncResp(resp) => self.on_sync_resp(now_us, resp, out),
            Payload::Other => {},
        }
        self.announce_sync_change(before, out);
    }

    fn on_tick_message(&mut self, now_us: u64, header: &Header, tick: Tick, out: &mut Vec<Action>)
        requires
            old(self).wf(),
        ensures
            final(self).wf(),
            (Turn { node: final(self)@, out: final(out)@ }) == (Turn {
                node: old(self)@,
                out: old(out)@,
            }).hears_tick(now_us, *header, tick),
    {
        let who = Candidacy { capacity: tick.master_capacity, uuid: tick.master_uuid };
        // Probe whoever is actually leading. Following a stale master is how a
        // node ends up synced to a device that left the mesh.
        self.master_prefix = Some(header.sender_prefix);
        match self.election.on_tick(now_us, who, tick.election_epoch) {
            ElectionOutcome::Became(role) => {
                out.push(Action::RoleChanged { role, epoch: self.election.epoch() });
            },
            ElectionOutcome::Announce | ElectionOutcome::SendTick => self.send_tick(now_us, out),
            ElectionOutcome::Idle => {},
        }
        // A leader does not sync to anyone; it is the reference.
        if self.election.is_leader() {
            return;
        }
        match self.sync.on_tick(now_us) {
            SyncOutcome::Probe => self.send_sync_req(now_us, out),
            _ => {},
        }
    }

    fn on_sync_req(&mut self, now_us: u64, header: &Header, req: SyncReq, out: &mut Vec<Action>)
        requires
            old(self).wf(),
        ensures
            final(self).wf(),
            (Turn { node: final(self)@, out: final(out)@ }) == (Turn {
                node: old(self)@,
                out: old(out)@,
            }).sends(
                now_us,
                MsgType::SyncResp,
                Destination::Peer(header.sender_prefix),
                Payload::SyncResp(SyncResp { t1: req.t1, t2: now_us, t3: now_us }),
            ),
    {
        // Anyone answers, not just the leader: refusing to answer while unsynced
        // would stop a mesh converging at all during the window where every node
        // is still unsynced.
        self.send(
            now_us,
            MsgType::SyncResp,
            Destination::Peer(header.sender_prefix),
            Payload::SyncResp(SyncResp { t1: req.t1, t2: now_us, t3: now_us }),
            out,
        );
    }

    fn on_sync_resp(&mut self, now_us: u64, resp: SyncResp, out: &mut Vec<Action>)
        requires
            old(self).wf(),
        ensures
            final(self).wf(),
            (Turn { node: final(self)@, out: final(out)@ }) == (Turn {
                node: old(self)@,
                out: old(out)@,
            }).hears_answer(now_us, resp),
    {
        // A response to a request we did not send is either a duplicate or
        // someone else's; either way it measures nothing about our path.
        match self.pending_probe_t1 {
            None => {
                return;
            },
            Some(t1) => {
                if resp.t1 != t1 {
                    return;
                }
            },
        }
        self.pending_probe_t1 = None;
        self.probe_deadline_us = u64::MAX;
        // A node that asked and has led since is the reference now.
        if self.election.is_leader() {
            return;
        }
        let sample = Sample { t1: resp.t1, t2: resp.t2, t3: resp.t3, t4: now_us };
        match self.sync.on_sample(now_us, sample) {
            SyncOutcome::Probe => self.send_sync_req(now_us, out),
            SyncOutcome::Discipline(offset_us) => {
                out.push(Action::DisciplineClock { offset_us });
            },
            SyncOutcome::Acquired | SyncOutcome::Lost | SyncOutcome::Idle => {},
        }
    }

    fn announce_sync_change(&mut self, was_synced: bool, out: &mut Vec<Action>)
        requires
            old(self).wf(),
        ensures
            final(self).wf(),
            (Turn { node: final(self)@, out: final(out)@ }) == (Turn {
                node: old(self)@,
                out: old(out)@,
            }).announces(was_synced),
    {
        let now: bool = self.is_synced();
        if now == was_synced {
            return;
        }
        out.push(
            if now {
                Action::SyncAcquired
            } else {
                Action::SyncLost
            },
        );
    }

    fn send_tick(&mut self, now_us: u64, out: &mut Vec<Action>)
        requires
            old(self).wf(),
        ensures
            final(self).wf(),
            (Turn { node: final(self)@, out: final(out)@ }) == (Turn {
                node: old(self)@,
                out: old(out)@,
            }).ticks(now_us),
    {
        let payload = Tick {
            show_time_us: now_us,
            master_uuid: self.me.uuid,
            master_capacity: self.me.capacity,
            election_epoch: self.election.epoch(),
            // Claiming a wall clock this node does not have would make schedules
            // fire at a plausible-looking wrong moment.
            wall_time_us: None,
        };
        self.send(now_us, MsgType::Tick, Destination::Mesh, Payload::Tick(payload), out);
    }

    fn send_sync_req(&mut self, now_us: u64, out: &mut Vec<Action>)
        requires
            old(self).wf(),
        ensures
            final(self).wf(),
            (Turn { node: final(self)@, out: final(out)@ }) == (Turn {
                node: old(self)@,
                out: old(out)@,
            }).probes(now_us),
    {
        // A leader that probed a follower would be disciplining itself towards a
        // clock derived from its own.
        if self.election.is_leader() {
            return;
        }
        let to = match self.master_prefix {
            Some(to) => to,
            None => {
                // Nobody to ask yet.
                return;
            },
        };
        if self.pending_probe_t1.is_some() {
            return;
        }
        self.pending_probe_t1 = Some(now_us);
        self.probe_deadline_us = now_us.saturating_add(PROBE_TIMEOUT_US);
        self.send(
            now_us,
            MsgType::SyncReq,
            Destination::Peer(to),
            Payload::SyncReq(SyncReq { t1: now_us }),
            out,
        );
    }

    /// Frame a payload into a datagram and queue it.
    ///
    /// The one place a header is built, so the sequence, the prefixes and the time
    /// cannot be forgotten on some path. The transport is derived from the message
    /// rather than passed in, so a caller cannot send a record unreliably by
    /// forgetting to say otherwise.
    pub fn send(
        &mut self,
        now_us: u64,
        msg_type: MsgType,
        to: Destination,
        payload: Payload,
        out: &mut Vec<Action>,
    )
        requires
            old(self).wf(),
        ensures
            final(self).wf(),
            (Turn { node: final(self)@, out: final(out)@ }) == (Turn {
                node: old(self)@,
                out: old(out)@,
            }).sends(now_us, msg_type, to, payload),
    {
        self.sequence = if self.sequence < u32::MAX {
            self.sequence + 1
        } else {
            0
        };
        out.push(
            Action::Send {
                to,
                datagram: Datagram {
                    header: Header {
                        msg_type,
                        mesh_prefix: self.mesh_prefix,
                        sender_prefix: self.me.prefix,
                        sequence: self.sequence,
                        show_time_us: now_us,
                    },
                    payload: Some(payload),
                },
                transport: transport_for(msg_type),
            },
        );
    }
}

/// What holds of every node, whatever happened to it.
pub proof fn law_every_node_is_valid(node: Node)
    requires
        node.wf(),
    ensures
        node@.valid(),
{
}

/// A recorded script of events.
pub type Script = Seq<(u64, Event)>;

/// Whether a run went through these states and asked for these actions, one event
/// of the script after another.
pub open spec fn is_run(script: Script, states: Seq<NodeModel>, asked: Seq<Seq<Action>>) -> bool {
    &&& states.len() == script.len() + 1
    &&& asked.len() == script.len()
    &&& forall|i: int|
        #![trigger asked[i]]
        0 <= i < script.len() ==> states[i].event(script[i].0, script[i].1) == (Turn {
            node: states[i + 1],
            out: asked[i],
        })
}

/// Replay: a script fed to a node in the same state gives an identical run.
pub proof fn law_a_script_replays_identically(
    script: Script,
    states: Seq<NodeModel>,
    asked: Seq<Seq<Action>>,
    again: Seq<NodeModel>,
    asked_again: Seq<Seq<Action>>,
)
    requires
        is_run(script, states, asked),
        is_run(script, again, asked_again),
        states[0] == again[0],
    ensures
        states == again,
        asked == asked_again,
{
    lemma_replays(script, states, asked, again, asked_again, script.len() as int);
    assert forall|i: int| 0 <= i < states.len() implies states[i] == again[i] by {
        lemma_replays(script, states, asked, again, asked_again, i);
    }
    assert forall|i: int| 0 <= i < asked.len() implies asked[i] == asked_again[i] by {
        lemma_replays(script, states, asked, again, asked_again, i);
    }
    assert(states =~= again);
    assert(asked =~= asked_again);
}

proof fn lemma_replays(
    script: Script,
    states: Seq<NodeModel>,
    asked: Seq<Seq<Action>>,
    again: Seq<NodeModel>,
    asked_again: Seq<Seq<Action>>,
    n: int,
)
    requires
        is_run(script, states, asked),
        is_run(script, again, asked_again),
        states[0] == again[0],
        0 <= n <= script.len(),
    ensures
        states[n] == again[n],
        n < script.len() ==> asked[n] == asked_again[n],
    decreases n,
{
    if n > 0 {
        lemma_replays(script, states, asked, again, asked_again, n - 1);
        assert(asked[n - 1] == asked_again[n - 1]);
    }
    if n < script.len() {
        let (a, b) = (asked[n], asked_again[n]);
        assert(a == b);
    }
}

/// Every event asks to be woken again, last and once, and never at once: a core
/// that stopped asking would simply stop, and one that asked for no delay would
/// spin.
pub proof fn law_every_event_sets_a_timer(node: NodeModel, now_us: u64, ev: Event)
    ensures
        ({
            let turn = node.event(now_us, ev);
            &&& turn.out.len() > 0
            &&& turn.out.last() == Action::SetTimer {
                in_us: turn.node.sleep(now_us) as u64,
            }
            &&& turn.node.sleep(now_us) >= MIN_SLEEP_US
            &&& turn.node.probe_deadline_us > now_us + MIN_SLEEP_US ==> turn.node.sleep(now_us)
                <= turn.node.probe_deadline_us - now_us
        }),
{
}

/// What does not concern this node changes nothing and is not answered: bytes that
/// are no datagram, another mesh's traffic, its own multicast looped back, and
/// types it does not know.
pub proof fn law_strangers_are_ignored(node: NodeModel, now_us: u64, ev: Event)
    requires
        ev matches Event::Datagram { datagram } && (datagram matches Some(d) ==> !node.hears(
            d.header,
        ) || d.payload is None),
    ensures
        node.event(now_us, ev).node == node,
        node.event(now_us, ev).out == seq![
            Action::SetTimer { in_us: node.sleep(now_us) as u64 },
        ],
{
    assert(node.event(now_us, ev).out =~= seq![
        Action::SetTimer { in_us: node.sleep(now_us) as u64 },
    ]);
}

/// A response to a probe that this node did not send measures nothing.
pub proof fn law_answers_to_nobody_are_ignored(
    node: NodeModel,
    now_us: u64,
    header: Header,
    resp: SyncResp,
)
    requires
        node.pending_probe_t1 != Some(resp.t1),
    ensures
        node.event(
            now_us,
            Event::Datagram {
                datagram: Some(Datagram { header, payload: Some(Payload::SyncResp(resp)) }),
            },
        ).node == node,
{
}

/// A lost probe does not silence the next: once it has timed out, whatever the
/// timer decides is decided with no probe out, and if another goes out it is a new
/// one.
pub proof fn law_a_lost_probe_does_not_stop_later_ones(node: NodeModel, now_us: u64)
    requires
        node.valid(),
        node.probe_deadline_us <= now_us,
    ensures
        ({
            let after = node.event(now_us, Event::Tick);
            &&& after.node.pending_probe_t1 is None || after.node.pending_probe_t1 == Some(now_us)
            &&& node.sync.timer(now_us).1 is Probe && node.master_prefix is Some
                && !(after.node.election.role is Leader) ==> after.node.pending_probe_t1 == Some(
                now_us,
            )
        }),
{
}

/// Whether an event is the answer to the probe that is out.
pub open spec fn answers(node: NodeModel, ev: Event) -> bool {
    ev matches Event::Datagram { datagram: Some(d) } && d.payload matches Some(
        Payload::SyncResp(resp),
    ) && node.pending_probe_t1 == Some(resp.t1)
}

/// Whether an action asks another node for the time.
pub open spec fn asks_the_time(action: Action) -> bool {
    action matches Action::Send { datagram, .. } && datagram.payload matches Some(
        Payload::SyncReq(_),
    )
}

/// One probe at a time: while one is out and has not timed out, no event but its
/// answer ends it, and none sends another.
#[verifier::spinoff_prover]
pub proof fn law_one_probe_at_a_time(node: NodeModel, now_us: u64, ev: Event)
    requires
        node.pending_probe_t1 is Some,
        now_us < node.probe_deadline_us,
        !answers(node, ev),
    ensures
        ({
            let after = node.event(now_us, ev);
            &&& after.node.pending_probe_t1 == node.pending_probe_t1
            &&& after.node.probe_deadline_us == node.probe_deadline_us
            &&& forall|i: int|
                0 <= i < after.out.len() ==> !asks_the_time(#[trigger] after.out[i])
        }),
{
}

/// Whether an action takes the time from another node: asks for it, or sets the
/// clock by an answer.
pub open spec fn takes_the_time(action: Action) -> bool {
    action is DisciplineClock || asks_the_time(action)
}

/// A leader is its own timebase: whatever happened, a node that leads afterwards is
/// synced, and has neither asked anybody for the time nor set its clock by an answer.
#[verifier::spinoff_prover]
pub proof fn law_a_leader_syncs_to_nobody(node: NodeModel, now_us: u64, ev: Event)
    ensures
        ({
            let after = node.event(now_us, ev);
            after.node.election.role is Leader ==> {
                &&& after.node.synced()
                &&& forall|i: int|
                    0 <= i < after.out.len() ==> !takes_the_time(#[trigger] after.out[i])
            }
        }),
{
}

/// No tick of a weaker peer moves a leader: it goes on leading. As long as a tick
/// leaves a node leading, what it knows of the time stays as it was.
pub proof fn law_a_weaker_peer_does_not_move_a_leader(
    node: NodeModel,
    now_us: u64,
    header: Header,
    tick: Tick,
)
    requires
        node.election.role is Leader,
    ensures
        ({
            let after = node.event(
                now_us,
                Event::Datagram {
                    datagram: Some(Datagram { header, payload: Some(Payload::Tick(tick)) }),
                },
            );
            &&& !(Candidacy { capacity: tick.master_capacity, uuid: tick.master_uuid }).wins_over(
                node.election.me,
            ) ==> after.node.election.role is Leader
            &&& after.node.election.role is Leader ==> {
                &&& after.node.sync == node.sync
                &&& after.node.pending_probe_t1 == node.pending_probe_t1
                &&& after.out.len() == 1
            }
        }),
{
}

/// A turn from a node that has sent nothing yet in it: what was sent since, and
/// what every datagram of it is.
pub open spec fn faithful(start: NodeModel, turn: Turn) -> bool {
    &&& turn.node.me == start.me
    &&& turn.node.mesh_prefix == start.mesh_prefix
    &&& turn.node.sequence == advanced(start.sequence, sends(turn.out).len())
    &&& forall|i: int|
        0 <= i < sends(turn.out).len() ==> {
            let d = #[trigger] sends(turn.out)[i];
            &&& d.header.sequence == advanced(start.sequence, (i + 1) as nat)
            &&& d.header.mesh_prefix == start.mesh_prefix
            &&& d.header.sender_prefix == start.me.prefix
            &&& d.payload matches Some(Payload::Tick(tick)) ==> tick.wall_time_us is None
                && tick.master_uuid == start.me.uuid && tick.master_capacity == start.me.capacity
        }
    &&& forall|i: int|
        0 <= i < turn.out.len() ==> (#[trigger] turn.out[i] matches Action::Send {
            transport,
            ..
        } ==> transport is Datagram)
}

/// A counter that wraps, `n` counts on.
pub open spec fn advanced(sequence: u32, n: nat) -> u32
    decreases n,
{
    if n == 0 {
        sequence
    } else {
        succeeded(advanced(sequence, (n - 1) as nat))
    }
}

/// The datagrams among some actions.
pub open spec fn sends(out: Seq<Action>) -> Seq<Datagram>
    decreases out.len(),
{
    if out.len() == 0 {
        Seq::empty()
    } else {
        match out.last() {
            Action::Send { datagram, .. } => sends(out.drop_last()).push(datagram),
            _ => sends(out.drop_last()),
        }
    }
}

proof fn lemma_says(start: NodeModel, turn: Turn, action: Action)
    requires
        faithful(start, turn),
        !(action is Send),
    ensures
        faithful(start, turn.says(action)),
{
    assert(turn.says(action).out.drop_last() =~= turn.out);
}

proof fn lemma_sends(
    start: NodeModel,
    turn: Turn,
    now_us: u64,
    msg_type: MsgType,
    to: Destination,
    payload: Payload,
)
    requires
        faithful(start, turn),
        scheduled(msg_type),
        payload matches Payload::Tick(tick) ==> tick.wall_time_us is None && tick.master_uuid
            == start.me.uuid && tick.master_capacity == start.me.capacity,
    ensures
        faithful(start, turn.sends(now_us, msg_type, to, payload)),
{
    let after = turn.sends(now_us, msg_type, to, payload);
    assert(after.out.drop_last() =~= turn.out);
    let n = sends(turn.out).len();
    assert(sends(after.out) =~= sends(turn.out).push(
        turn.node.framed(now_us, msg_type, payload),
    ));
    assert(after.node.sequence == advanced(start.sequence, n + 1));
    assert forall|i: int| 0 <= i < sends(after.out).len() implies {
        let d = #[trigger] sends(after.out)[i];
        &&& d.header.sequence == advanced(start.sequence, (i + 1) as nat)
        &&& d.header.mesh_prefix == start.mesh_prefix
        &&& d.header.sender_prefix == start.me.prefix
        &&& d.payload matches Some(Payload::Tick(tick)) ==> tick.wall_time_us is None
            && tick.master_uuid == start.me.uuid && tick.master_capacity == start.me.capacity
    } by {
        if i < n {
            assert(sends(after.out)[i] == sends(turn.out)[i]);
        }
    }
    assert forall|i: int| 0 <= i < after.out.len() implies (
    #[trigger] after.out[i] matches Action::Send { transport, .. } ==> transport is Datagram) by {
        if i < turn.out.len() {
            assert(after.out[i] == turn.out[i]);
        }
    }
}

proof fn lemma_ticks(start: NodeModel, turn: Turn, now_us: u64)
    requires
        faithful(start, turn),
    ensures
        faithful(start, turn.ticks(now_us)),
{
    lemma_sends(
        start,
        turn,
        now_us,
        MsgType::Tick,
        Destination::Mesh,
        Payload::Tick(
            Tick {
                show_time_us: now_us,
                master_uuid: turn.node.me.uuid,
                master_capacity: turn.node.me.capacity,
                election_epoch: turn.node.election.epoch,
                wall_time_us: None,
            },
        ),
    );
}

proof fn lemma_probes(start: NodeModel, turn: Turn, now_us: u64)
    requires
        faithful(start, turn),
    ensures
        faithful(start, turn.probes(now_us)),
{
    if turn.probes(now_us) != turn {
        let waiting = Turn {
            node: NodeModel {
                pending_probe_t1: Some(now_us),
                probe_deadline_us: capped(now_us + PROBE_TIMEOUT_US) as u64,
                ..turn.node
            },
            ..turn
        };
        assert(faithful(start, waiting));
        lemma_sends(
            start,
            waiting,
            now_us,
            MsgType::SyncReq,
            Destination::Peer(turn.node.master_prefix->0),
            Payload::SyncReq(SyncReq { t1: now_us }),
        );
    }
}

proof fn lemma_announces(start: NodeModel, turn: Turn, was_synced: bool)
    requires
        faithful(start, turn),
    ensures
        faithful(start, turn.announces(was_synced)),
{
    lemma_says(start, turn, Action::SyncAcquired);
    lemma_says(start, turn, Action::SyncLost);
}

proof fn lemma_syncs(
    start: NodeModel,
    turn: Turn,
    now_us: u64,
    decided: (SyncModel, SyncOutcome),
)
    requires
        faithful(start, turn),
    ensures
        faithful(start, turn.syncs(now_us, decided)),
{
    let after = Turn { node: NodeModel { sync: decided.0, ..turn.node }, ..turn };
    assert(faithful(start, after));
    match decided.1 {
        SyncOutcome::Probe => lemma_probes(start, after, now_us),
        SyncOutcome::Discipline(offset_us) => lemma_says(
            start,
            after,
            Action::DisciplineClock { offset_us },
        ),
        _ => {},
    }
}

/// Every datagram a node sends carries its own prefixes and the next sequence
/// number, goes best effort, and claims neither another's timebase nor a wall
/// clock it does not have.
pub proof fn law_datagrams_carry_their_sender_and_number(node: NodeModel, now_us: u64, ev: Event)
    ensures
        faithful(node, node.event(now_us, ev)),
{
    let turn = Turn { node, out: Seq::<Action>::empty() };
    assert(sends(turn.out).len() == 0);
    assert(faithful(node, turn));
    let after = match ev {
        Event::Tick => turn.timer(now_us),
        Event::Datagram { datagram } => match datagram {
            Some(d) => turn.datagram(now_us, d),
            None => turn,
        },
        _ => turn,
    };
    match ev {
        Event::Tick => {
            let expired = turn.expires_probe(now_us);
            assert(faithful(node, expired));
            let (election, outcome) = expired.node.election.timer(now_us);
            let stood = Turn { node: NodeModel { election, ..expired.node }, ..expired };
            assert(faithful(node, stood));
            lemma_ticks(node, stood, now_us);
            if let ElectionOutcome::Became(role) = outcome {
                let told = Action::RoleChanged { role, epoch: election.epoch };
                lemma_says(node, stood, told);
                lemma_ticks(node, stood.says(told), now_us);
            }
            let elected = expired.elects_on_timer(now_us);
            assert(faithful(node, elected));
            let synced = elected.syncs(now_us, elected.node.sync.timer(now_us));
            lemma_syncs(node, elected, now_us, elected.node.sync.timer(now_us));
            lemma_announces(node, synced, node.synced());
        },
        Event::Datagram { datagram } => {
            if let Some(d) = datagram {
                if node.hears(d.header) && d.payload is Some {
                    match d.payload->0 {
                        Payload::Tick(tick) => {
                            lemma_hears_tick(node, turn, now_us, d.header, tick);
                            lemma_announces(
                                node,
                                turn.hears_tick(now_us, d.header, tick),
                                node.synced(),
                            );
                        },
                        Payload::SyncReq(req) => {
                            let to = Destination::Peer(d.header.sender_prefix);
                            let answer = Payload::SyncResp(
                                SyncResp { t1: req.t1, t2: now_us, t3: now_us },
                            );
                            lemma_sends(node, turn, now_us, MsgType::SyncResp, to, answer);
                            lemma_announces(
                                node,
                                turn.sends(now_us, MsgType::SyncResp, to, answer),
                                node.synced(),
                            );
                        },
                        Payload::SyncResp(resp) => {
                            let cleared = Turn {
                                node: NodeModel {
                                    pending_probe_t1: None,
                                    probe_deadline_us: u64::MAX,
                                    ..turn.node
                                },
                                ..turn
                            };
                            assert(faithful(node, cleared));
                            let sample = Sample {
                                t1: resp.t1,
                                t2: resp.t2,
                                t3: resp.t3,
                                t4: now_us,
                            };
                            lemma_syncs(
                                node,
                                cleared,
                                now_us,
                                cleared.node.sync.sample(now_us, sample),
                            );
                            lemma_announces(
                                node,
                                turn.hears_answer(now_us, resp),
                                node.synced(),
                            );
                        },
                        Payload::Other => {
                            lemma_announces(node, turn, node.synced());
                        },
                    }
                }
            }
        },
        _ => {},
    }
    assert(faithful(node, after));
    lemma_says(node, after, Action::SetTimer { in_us: after.node.sleep(now_us) as u64 });
}

proof fn lemma_hears_tick(
    start: NodeModel,
    turn: Turn,
    now_us: u64,
    header: Header,
    tick: Tick,
)
    requires
        faithful(start, turn),
    ensures
        faithful(start, turn.hears_tick(now_us, header, tick)),
{
    let (election, outcome) = turn.node.election.tick(
        now_us,
        Candidacy { capacity: tick.master_capacity, uuid: tick.master_uuid },
        tick.election_epoch,
    );
    let after = Turn {
        node: NodeModel { election, master_prefix: Some(header.sender_prefix), ..turn.node },
        ..turn
    };
    assert(faithful(start, after));
    lemma_ticks(start, after, now_us);
    if let ElectionOutcome::Became(role) = outcome {
        lemma_says(start, after, Action::RoleChanged { role, epoch: election.epoch });
    }
    let told = match outcome {
        ElectionOutcome::Became(role) => after.says(
            Action::RoleChanged { role, epoch: election.epoch },
        ),
        ElectionOutcome::Announce | ElectionOutcome::SendTick => after.ticks(now_us),
        ElectionOutcome::Idle => after,
    };
    assert(faithful(start, told));
    let noted = Turn {
        node: NodeModel { sync: told.node.sync.tick(now_us).0, ..told.node },
        ..told
    };
    assert(faithful(start, noted));
    lemma_probes(start, noted, now_us);
}

/// An action, where there is occasion for it.
pub open spec fn when(occasion: bool, action: Action) -> Seq<Action> {
    if occasion {
        seq![action]
    } else {
        Seq::empty()
    }
}

/// The `n`th datagram that a node sends from now on, best effort.
pub open spec fn letter(
    node: NodeModel,
    n: int,
    now_us: u64,
    to: Destination,
    msg_type: MsgType,
    payload: Payload,
) -> Action {
    Action::Send {
        to,
        datagram: Datagram {
            header: Header {
                msg_type,
                mesh_prefix: node.mesh_prefix,
                sender_prefix: node.me.prefix,
                sequence: ((node.sequence + n) % 0x1_0000_0000) as u32,
                show_time_us: now_us,
            },
            payload: Some(payload),
        },
        transport: Transport::Datagram,
    }
}

/// What is said of the clock where it is trusted now and was not, or the reverse.
pub open spec fn news_of_the_clock(before: NodeModel, after: NodeModel) -> Seq<Action> {
    let was = before.election.role is Leader || before.sync.state is Synced;
    let now = after.election.role is Leader || after.sync.state is Synced;
    when(now && !was, Action::SyncAcquired) + when(was && !now, Action::SyncLost)
}

/// Whether this is how a node asks to be woken: at the first of what the election, the
/// clock and the probe that is out are due, and not within a millisecond.
pub open spec fn asks_to_be_woken(node: NodeModel, now_us: u64, action: Action) -> bool {
    let election = node.election.deadline(now_us);
    let clock = node.sync.deadline(now_us);
    let probe = if node.probe_deadline_us > now_us {
        node.probe_deadline_us - now_us
    } else {
        0
    };
    action matches Action::SetTimer { in_us } && {
        &&& in_us >= 1_000
        &&& in_us <= 1_000 || in_us <= election && in_us <= clock && in_us <= probe
        &&& in_us == 1_000 || in_us == election || in_us == clock || in_us == probe
    }
}

/// A tick from another device of the mesh: whoever sent it is the master from now on, and
/// the one that is asked. The election decides about roles by what the tick claims, and
/// the clock starts its exchange unless this node leads.
#[verifier::spinoff_prover]
pub proof fn law_a_node_asks_whoever_ticked_last(
    node: NodeModel,
    now_us: u64,
    header: Header,
    tick: Tick,
)
    requires
        header.mesh_prefix == node.mesh_prefix,
        header.sender_prefix != node.me.prefix,
    ensures
        ({
            let datagram = Some(Datagram { header, payload: Some(Payload::Tick(tick)) });
            let after = node.event(now_us, Event::Datagram { datagram });
            let who = Candidacy { capacity: tick.master_capacity, uuid: tick.master_uuid };
            let (election, said) = node.election.tick(now_us, who, tick.election_epoch);
            let leads = election.role is Leader;
            let asks = !leads && node.sync.state is Unsynced && node.pending_probe_t1 is None;
            let role = Action::RoleChanged { role: election.role, epoch: election.epoch };
            let question = letter(
                node,
                1,
                now_us,
                Destination::Peer(header.sender_prefix),
                MsgType::SyncReq,
                Payload::SyncReq(SyncReq { t1: now_us }),
            );
            &&& after.node.master_prefix == Some(header.sender_prefix)
            &&& after.node.election == election
            &&& after.node.sync == if leads {
                node.sync
            } else {
                node.sync.tick(now_us).0
            }
            &&& asks ==> after.node.pending_probe_t1 == Some(now_us)
            &&& asks && now_us + 1_000_000 <= u64::MAX ==> after.node.probe_deadline_us == now_us
                + 1_000_000
            &&& !asks ==> after.node.pending_probe_t1 == node.pending_probe_t1
                && after.node.probe_deadline_us == node.probe_deadline_us
            &&& after.out.drop_last() == when(said is Became, role) + when(asks, question)
                + news_of_the_clock(node, after.node)
            &&& asks_to_be_woken(after.node, now_us, after.out.last())
        }),
{
    let datagram = Some(Datagram { header, payload: Some(Payload::Tick(tick)) });
    let after = node.event(now_us, Event::Datagram { datagram });
    let who = Candidacy { capacity: tick.master_capacity, uuid: tick.master_uuid };
    let (election, said) = node.election.tick(now_us, who, tick.election_epoch);
    let asks = !(election.role is Leader) && node.sync.state is Unsynced
        && node.pending_probe_t1 is None;
    let role = Action::RoleChanged { role: election.role, epoch: election.epoch };
    let question = letter(
        node,
        1,
        now_us,
        Destination::Peer(header.sender_prefix),
        MsgType::SyncReq,
        Payload::SyncReq(SyncReq { t1: now_us }),
    );
    let begun = Turn { node, out: Seq::<Action>::empty() };
    let heard = begun.hears_tick(now_us, header, tick);
    assert(heard.out =~= when(said is Became, role) + when(asks, question));
    let told = heard.announces(node.synced());
    assert(told.out =~= heard.out + news_of_the_clock(node, told.node));
    assert(after.out.drop_last() =~= told.out);
    lemma_woken(told.node, now_us);
}

/// Every question a node sends goes to the master it has, asks at the present time, and
/// is the one it then waits for. Only a tick that it hears gives it another master.
pub proof fn law_questions_go_to_the_master(node: NodeModel, now_us: u64, ev: Event, i: int)
    ensures
        ({
            let after = node.event(now_us, ev);
            let heard = ev matches Event::Datagram { datagram: Some(d) } && d.header.mesh_prefix
                == node.mesh_prefix && d.header.sender_prefix != node.me.prefix && (
            d.payload matches Some(Payload::Tick(_)));
            &&& !heard ==> after.node.master_prefix == node.master_prefix
            &&& heard ==> (ev matches Event::Datagram { datagram: Some(d) }
                && after.node.master_prefix == Some(d.header.sender_prefix))
            &&& 0 <= i < after.out.len() && asks_the_time(after.out[i]) ==> {
                &&& after.node.master_prefix is Some
                &&& after.out[i]->to == Destination::Peer(after.node.master_prefix->0)
                &&& after.out[i]->datagram.payload == Some(
                    Payload::SyncReq(SyncReq { t1: now_us }),
                )
                &&& after.node.pending_probe_t1 == Some(now_us)
            }
        }),
{
    let begun = Turn { node, out: Seq::<Action>::empty() };
    assert(asks_well(now_us, begun));
    match ev {
        Event::Tick => {
            let expired = begun.expires_probe(now_us);
            let (election, outcome) = expired.node.election.timer(now_us);
            let stood = Turn { node: NodeModel { election, ..expired.node }, ..expired };
            assert(asks_well(now_us, stood));
            lemma_ticks_ask_well(now_us, stood);
            if let ElectionOutcome::Became(role) = outcome {
                let told = Action::RoleChanged { role, epoch: election.epoch };
                lemma_says_ask_well(now_us, stood, told);
                lemma_ticks_ask_well(now_us, stood.says(told));
            }
            let elected = expired.elects_on_timer(now_us);
            assert(asks_well(now_us, elected));
            let decided = elected.node.sync.timer(now_us);
            lemma_syncs_ask_well(now_us, elected, decided);
            lemma_announces_ask_well(now_us, elected.syncs(now_us, decided), node.synced());
            lemma_woken_ask_well(now_us, begun.timer(now_us));
        },
        Event::Datagram { datagram } => {
            if let Some(d) = datagram {
                if node.hears(d.header) && d.payload is Some {
                    match d.payload->0 {
                        Payload::Tick(tick) => {
                            lemma_hears_tick_ask_well(now_us, begun, d.header, tick);
                            lemma_announces_ask_well(
                                now_us,
                                begun.hears_tick(now_us, d.header, tick),
                                node.synced(),
                            );
                        },
                        Payload::SyncReq(req) => {
                            lemma_announces_ask_well(
                                now_us,
                                begun.sends(
                                    now_us,
                                    MsgType::SyncResp,
                                    Destination::Peer(d.header.sender_prefix),
                                    Payload::SyncResp(
                                        SyncResp { t1: req.t1, t2: now_us, t3: now_us },
                                    ),
                                ),
                                node.synced(),
                            );
                        },
                        Payload::SyncResp(resp) => {
                            let cleared = Turn {
                                node: NodeModel {
                                    pending_probe_t1: None,
                                    probe_deadline_us: u64::MAX,
                                    ..node
                                },
                                ..begun
                            };
                            let sample = Sample {
                                t1: resp.t1,
                                t2: resp.t2,
                                t3: resp.t3,
                                t4: now_us,
                            };
                            let decided = cleared.node.sync.sample(now_us, sample);
                            lemma_syncs_ask_well(now_us, cleared, decided);
                            lemma_announces_ask_well(
                                now_us,
                                begun.hears_answer(now_us, resp),
                                node.synced(),
                            );
                        },
                        Payload::Other => {
                            lemma_announces_ask_well(now_us, begun, node.synced());
                        },
                    }
                    lemma_woken_ask_well(now_us, begun.datagram(now_us, d));
                } else {
                    lemma_woken_ask_well(now_us, begun);
                }
            } else {
                lemma_woken_ask_well(now_us, begun);
            }
        },
        _ => {
            lemma_woken_ask_well(now_us, begun);
        },
    }
}

/// Whether every question of a turn so far goes to the master there is, asks at the
/// present time, and is the one that is waited for.
spec fn asks_well(now_us: u64, turn: Turn) -> bool {
    forall|i: int|
        0 <= i < turn.out.len() && asks_the_time(#[trigger] turn.out[i]) ==> {
            &&& turn.node.master_prefix is Some
            &&& turn.out[i]->to == Destination::Peer(turn.node.master_prefix->0)
            &&& turn.out[i]->datagram.payload == Some(Payload::SyncReq(SyncReq { t1: now_us }))
            &&& turn.node.pending_probe_t1 == Some(now_us)
        }
}

proof fn lemma_says_ask_well(now_us: u64, turn: Turn, action: Action)
    requires
        asks_well(now_us, turn),
        !asks_the_time(action),
    ensures
        asks_well(now_us, turn.says(action)),
        turn.says(action).node == turn.node,
{
    let after = turn.says(action);
    assert forall|i: int| 0 <= i < after.out.len() && asks_the_time(
        #[trigger] after.out[i],
    ) implies i < turn.out.len() && after.out[i] == turn.out[i] by {}
}

proof fn lemma_ticks_ask_well(now_us: u64, turn: Turn)
    requires
        asks_well(now_us, turn),
    ensures
        asks_well(now_us, turn.ticks(now_us)),
        turn.ticks(now_us).node.master_prefix == turn.node.master_prefix,
{
    let after = turn.ticks(now_us);
    assert forall|i: int| 0 <= i < after.out.len() && asks_the_time(
        #[trigger] after.out[i],
    ) implies i < turn.out.len() && after.out[i] == turn.out[i] by {}
}

proof fn lemma_probes_ask_well(now_us: u64, turn: Turn)
    requires
        asks_well(now_us, turn),
    ensures
        asks_well(now_us, turn.probes(now_us)),
        turn.probes(now_us).node.master_prefix == turn.node.master_prefix,
{
    let after = turn.probes(now_us);
    if turn.node.pending_probe_t1 is None {
        assert forall|i: int| 0 <= i < turn.out.len() implies !asks_the_time(
            #[trigger] turn.out[i],
        ) by {}
        assert forall|i: int| 0 <= i < after.out.len() && asks_the_time(
            #[trigger] after.out[i],
        ) implies i == turn.out.len() by {
            if i < turn.out.len() {
                assert(after.out[i] == turn.out[i]);
            }
        }
    }
}

proof fn lemma_announces_ask_well(now_us: u64, turn: Turn, was_synced: bool)
    requires
        asks_well(now_us, turn),
    ensures
        asks_well(now_us, turn.announces(was_synced)),
        turn.announces(was_synced).node == turn.node,
{
    lemma_says_ask_well(now_us, turn, Action::SyncAcquired);
    lemma_says_ask_well(now_us, turn, Action::SyncLost);
}

proof fn lemma_syncs_ask_well(now_us: u64, turn: Turn, decided: (SyncModel, SyncOutcome))
    requires
        asks_well(now_us, turn),
    ensures
        asks_well(now_us, turn.syncs(now_us, decided)),
        turn.syncs(now_us, decided).node.master_prefix == turn.node.master_prefix,
{
    let after = Turn { node: NodeModel { sync: decided.0, ..turn.node }, ..turn };
    assert(asks_well(now_us, after));
    match decided.1 {
        SyncOutcome::Probe => lemma_probes_ask_well(now_us, after),
        SyncOutcome::Discipline(offset_us) => lemma_says_ask_well(
            now_us,
            after,
            Action::DisciplineClock { offset_us },
        ),
        _ => {},
    }
}

proof fn lemma_hears_tick_ask_well(now_us: u64, turn: Turn, header: Header, tick: Tick)
    requires
        turn.out.len() == 0,
    ensures
        asks_well(now_us, turn.hears_tick(now_us, header, tick)),
        turn.hears_tick(now_us, header, tick).node.master_prefix == Some(header.sender_prefix),
{
    let (election, outcome) = turn.node.election.tick(
        now_us,
        Candidacy { capacity: tick.master_capacity, uuid: tick.master_uuid },
        tick.election_epoch,
    );
    let after = Turn {
        node: NodeModel { election, master_prefix: Some(header.sender_prefix), ..turn.node },
        ..turn
    };
    assert(asks_well(now_us, after));
    lemma_ticks_ask_well(now_us, after);
    if let ElectionOutcome::Became(role) = outcome {
        lemma_says_ask_well(now_us, after, Action::RoleChanged { role, epoch: election.epoch });
    }
    let told = match outcome {
        ElectionOutcome::Became(role) => after.says(
            Action::RoleChanged { role, epoch: election.epoch },
        ),
        ElectionOutcome::Announce | ElectionOutcome::SendTick => after.ticks(now_us),
        ElectionOutcome::Idle => after,
    };
    assert(asks_well(now_us, told));
    let noted = Turn {
        node: NodeModel { sync: told.node.sync.tick(now_us).0, ..told.node },
        ..told
    };
    assert(asks_well(now_us, noted));
    lemma_probes_ask_well(now_us, noted);
}

proof fn lemma_woken_ask_well(now_us: u64, turn: Turn)
    requires
        asks_well(now_us, turn),
    ensures
        asks_well(
            now_us,
            turn.says(Action::SetTimer { in_us: turn.node.sleep(now_us) as u64 }),
        ),
{
    lemma_says_ask_well(
        now_us,
        turn,
        Action::SetTimer { in_us: turn.node.sleep(now_us) as u64 },
    );
}

/// Whether an event is a tick that a node hears.
pub open spec fn hears_a_tick(node: NodeModel, ev: Event) -> bool {
    ev matches Event::Datagram { datagram: Some(d) } && d.header.mesh_prefix == node.mesh_prefix
        && d.header.sender_prefix != node.me.prefix && d.payload matches Some(Payload::Tick(_))
}

/// From one tick to the next, every question goes to the sender of the first: a node
/// never goes on asking a master that another has taken over from.
pub proof fn law_nobody_asks_a_stale_master(
    script: Script,
    states: Seq<NodeModel>,
    asked: Seq<Seq<Action>>,
    from: int,
    at: int,
    sender: [u8; 4],
    i: int,
)
    requires
        is_run(script, states, asked),
        0 <= from <= at < script.len(),
        hears_a_tick(states[from], script[from].1),
        script[from].1->datagram->0.header.sender_prefix == sender,
        forall|k: int| from < k <= at ==> !#[trigger] hears_a_tick(states[k], script[k].1),
        0 <= i < asked[at].len(),
        asks_the_time(asked[at][i]),
    ensures
        asked[at][i]->to == Destination::Peer(sender),
{
    lemma_master_stays(script, states, asked, from, at, sender);
    assert(asked[at] == states[at].event(script[at].0, script[at].1).out);
    law_questions_go_to_the_master(states[at], script[at].0, script[at].1, i);
}

proof fn lemma_master_stays(
    script: Script,
    states: Seq<NodeModel>,
    asked: Seq<Seq<Action>>,
    from: int,
    at: int,
    sender: [u8; 4],
)
    requires
        is_run(script, states, asked),
        0 <= from <= at < script.len(),
        hears_a_tick(states[from], script[from].1),
        script[from].1->datagram->0.header.sender_prefix == sender,
        forall|k: int| from < k <= at ==> !#[trigger] hears_a_tick(states[k], script[k].1),
    ensures
        states[at + 1].master_prefix == Some(sender),
    decreases at - from,
{
    assert(asked[at].len() >= 0);
    law_questions_go_to_the_master(states[at], script[at].0, script[at].1, 0);
    if from < at {
        lemma_master_stays(script, states, asked, from, at - 1, sender);
        assert(!hears_a_tick(states[at], script[at].1));
    }
}

/// Anyone of the mesh who asks is told when the question came and when it was answered,
/// on this node's clock, and gets its own time back. Nothing else comes of it.
pub proof fn law_whoever_asks_is_answered(
    node: NodeModel,
    now_us: u64,
    header: Header,
    req: SyncReq,
)
    requires
        header.mesh_prefix == node.mesh_prefix,
        header.sender_prefix != node.me.prefix,
    ensures
        ({
            let datagram = Some(Datagram { header, payload: Some(Payload::SyncReq(req)) });
            let after = node.event(now_us, Event::Datagram { datagram });
            let answer = letter(
                node,
                1,
                now_us,
                Destination::Peer(header.sender_prefix),
                MsgType::SyncResp,
                Payload::SyncResp(SyncResp { t1: req.t1, t2: now_us, t3: now_us }),
            );
            &&& after.out.len() == 2
            &&& after.out[0] == answer
            &&& asks_to_be_woken(after.node, now_us, after.out[1])
            &&& after.node == (NodeModel { sequence: after.node.sequence, ..node })
        }),
{
}

/// The answer to the probe that is out measures its round trip, from when it was asked
/// to when the answer came, and the clock is corrected as that says. The probe is over,
/// and the next may go out at once.
#[verifier::spinoff_prover]
pub proof fn law_answers_are_measured(
    node: NodeModel,
    now_us: u64,
    header: Header,
    resp: SyncResp,
)
    requires
        header.mesh_prefix == node.mesh_prefix,
        header.sender_prefix != node.me.prefix,
        node.pending_probe_t1 == Some(resp.t1),
        !(node.election.role is Leader),
    ensures
        ({
            let datagram = Some(Datagram { header, payload: Some(Payload::SyncResp(resp)) });
            let after = node.event(now_us, Event::Datagram { datagram });
            let sample = Sample { t1: resp.t1, t2: resp.t2, t3: resp.t3, t4: now_us };
            let (sync, said) = node.sync.sample(now_us, sample);
            let asks = said is Probe && node.master_prefix is Some;
            let question = letter(
                node,
                1,
                now_us,
                Destination::Peer(node.master_prefix->0),
                MsgType::SyncReq,
                Payload::SyncReq(SyncReq { t1: now_us }),
            );
            let by = said->Discipline_0;
            &&& after.node.sync == sync
            &&& after.node.election == node.election
            &&& after.node.master_prefix == node.master_prefix
            &&& after.node.pending_probe_t1 == if asks {
                Some(now_us)
            } else {
                None
            }
            &&& after.out.drop_last() == when(asks, question) + when(
                said is Discipline,
                Action::DisciplineClock { offset_us: by },
            ) + news_of_the_clock(node, after.node)
            &&& asks_to_be_woken(after.node, now_us, after.out.last())
        }),
{
    let datagram = Some(Datagram { header, payload: Some(Payload::SyncResp(resp)) });
    let after = node.event(now_us, Event::Datagram { datagram });
    let sample = Sample { t1: resp.t1, t2: resp.t2, t3: resp.t3, t4: now_us };
    let (sync, said) = node.sync.sample(now_us, sample);
    let asks = said is Probe && node.master_prefix is Some;
    let question = letter(
        node,
        1,
        now_us,
        Destination::Peer(node.master_prefix->0),
        MsgType::SyncReq,
        Payload::SyncReq(SyncReq { t1: now_us }),
    );
    let by = said->Discipline_0;
    let begun = Turn { node, out: Seq::<Action>::empty() };
    let heard = begun.hears_answer(now_us, resp);
    assert(heard.out =~= when(asks, question) + when(
        said is Discipline,
        Action::DisciplineClock { offset_us: by },
    ));
    let told = heard.announces(node.synced());
    assert(told.out =~= heard.out + news_of_the_clock(node, told.node));
    assert(after.out.drop_last() =~= told.out);
    lemma_woken(told.node, now_us);
}

/// What time makes of a node. A probe nobody answered for a second is given up; a
/// candidacy or a leader's tick goes to the whole mesh, in this node's own name; the
/// master, where that is another, is asked when the clock says so; and a change of role
/// or of trust in the clock is told.
#[verifier::spinoff_prover]
pub proof fn law_what_time_does(node: NodeModel, now_us: u64)
    ensures
        ({
            let after = node.event(now_us, Event::Tick);
            let (election, said) = node.election.timer(now_us);
            let leads = election.role is Leader;
            let ticks = said is Announce || said is SendTick || said is Became && leads;
            let waiting = node.pending_probe_t1 is Some && now_us < node.probe_deadline_us;
            let (sync, wanted) = node.sync.timer(now_us);
            let asks = wanted is Probe && !leads && node.master_prefix is Some && !waiting;
            let role = Action::RoleChanged { role: election.role, epoch: election.epoch };
            let tick = letter(
                node,
                1,
                now_us,
                Destination::Mesh,
                MsgType::Tick,
                Payload::Tick(
                    Tick {
                        show_time_us: now_us,
                        master_uuid: node.me.uuid,
                        master_capacity: node.me.capacity,
                        election_epoch: election.epoch,
                        wall_time_us: None,
                    },
                ),
            );
            let question = letter(
                node,
                if ticks {
                    2
                } else {
                    1
                },
                now_us,
                Destination::Peer(node.master_prefix->0),
                MsgType::SyncReq,
                Payload::SyncReq(SyncReq { t1: now_us }),
            );
            &&& after.node.election == election
            &&& after.node.sync == sync
            &&& after.node.master_prefix == node.master_prefix
            &&& after.node.pending_probe_t1 == if asks {
                Some(now_us)
            } else if waiting {
                node.pending_probe_t1
            } else {
                None
            }
            &&& asks && now_us + 1_000_000 <= u64::MAX ==> after.node.probe_deadline_us == now_us
                + 1_000_000
            &&& after.out.drop_last() == when(said is Became, role) + when(ticks, tick) + when(
                asks,
                question,
            ) + news_of_the_clock(node, after.node)
            &&& asks_to_be_woken(after.node, now_us, after.out.last())
        }),
{
    let (election, said) = node.election.timer(now_us);
    let leads = election.role is Leader;
    let ticks = said is Announce || said is SendTick || said is Became && leads;
    let waiting = node.pending_probe_t1 is Some && now_us < node.probe_deadline_us;
    let (sync, wanted) = node.sync.timer(now_us);
    let asks = wanted is Probe && !leads && node.master_prefix is Some && !waiting;
    let role = Action::RoleChanged { role: election.role, epoch: election.epoch };
    let tick = letter(
        node,
        1,
        now_us,
        Destination::Mesh,
        MsgType::Tick,
        Payload::Tick(
            Tick {
                show_time_us: now_us,
                master_uuid: node.me.uuid,
                master_capacity: node.me.capacity,
                election_epoch: election.epoch,
                wall_time_us: None,
            },
        ),
    );
    let question = letter(
        node,
        if ticks {
            2
        } else {
            1
        },
        now_us,
        Destination::Peer(node.master_prefix->0),
        MsgType::SyncReq,
        Payload::SyncReq(SyncReq { t1: now_us }),
    );
    let begun = Turn { node, out: Seq::<Action>::empty() };
    let expired = begun.expires_probe(now_us);
    let stood = Turn { node: NodeModel { election, ..expired.node }, ..expired };
    let elected = expired.elects_on_timer(now_us);
    assert(elected.out =~= when(said is Became, role) + when(ticks, tick)) by {
        lemma_ticked(stood, now_us);
    }
    assert(elected.node == (NodeModel { sequence: elected.node.sequence, ..stood.node }));
    assert(elected.node.sequence == if ticks {
        succeeded(node.sequence)
    } else {
        node.sequence
    });
    let synced = elected.syncs(now_us, (sync, wanted));
    assert(synced.out =~= elected.out + when(asks, question));
    let told = synced.announces(node.synced());
    assert(told.out =~= synced.out + news_of_the_clock(node, told.node));
    let after = node.event(now_us, Event::Tick);
    assert(after.out.drop_last() =~= told.out);
    lemma_woken(told.node, now_us);
}

/// Saying who holds the timebase is one action more.
proof fn lemma_ticked(turn: Turn, now_us: u64)
    ensures
        turn.ticks(now_us).out.len() == turn.out.len() + 1,
        turn.ticks(now_us).out.drop_last() == turn.out,
{
    assert(turn.ticks(now_us).out.drop_last() =~= turn.out);
}

/// How long a node sleeps is how it asks to be woken.
proof fn lemma_woken(node: NodeModel, now_us: u64)
    ensures
        asks_to_be_woken(node, now_us, Action::SetTimer { in_us: node.sleep(now_us) as u64 }),
{
}

/// A node that has just started stands for itself, has no master and has asked nothing.
pub proof fn law_a_cold_start_knows_nobody(
    me: Identity,
    mesh_prefix: [u8; 2],
    boot_counter: u32,
    now_us: u64,
)
    ensures
        ({
            let node = NodeModel::cold(me, mesh_prefix, boot_counter, now_us);
            &&& node.me == me && node.mesh_prefix == mesh_prefix
            &&& node.election.me == (Candidacy { capacity: me.capacity, uuid: me.uuid })
            &&& node.election.role is Follower && node.election.since_us == now_us
            &&& node.sync.state is Unsynced
            &&& node.sequence == 0
            &&& node.master_prefix is None
            &&& node.pending_probe_t1 is None
        }),
{
}

/// What is replaced on a schedule goes best effort, and what is said once does not.
pub proof fn law_what_goes_best_effort(other: u8)
    ensures
        scheduled(MsgType::Tick),
        scheduled(MsgType::SyncReq),
        scheduled(MsgType::SyncResp),
        scheduled(MsgType::Chan),
        scheduled(MsgType::Frame),
        scheduled(MsgType::ProbeData),
        !scheduled(MsgType::ChanClaim),
        !scheduled(MsgType::StateDigest),
        !scheduled(MsgType::StatePull),
        !scheduled(MsgType::StatePush),
        !scheduled(MsgType::Activate),
        !scheduled(MsgType::SrcPush),
        !scheduled(MsgType::ProgBegin),
        !scheduled(MsgType::ProgChunk),
        !scheduled(MsgType::ProgEnd),
        !scheduled(MsgType::Hello),
        !scheduled(MsgType::Other(other)),
{
}

/// Peers that come and go, and what is no concern of the timebase, change nothing: a node
/// learns who exists from the traffic itself. An answer that comes when it leads ends the
/// probe and no more.
pub proof fn law_what_changes_nothing(
    node: NodeModel,
    now_us: u64,
    prefix: [u8; 4],
    header: Header,
    resp: SyncResp,
)
    ensures
        ({
            let timer = seq![Action::SetTimer { in_us: node.sleep(now_us) as u64 }];
            let other = Event::Datagram {
                datagram: Some(Datagram { header, payload: Some(Payload::Other) }),
            };
            &&& node.event(now_us, Event::PeerDiscovered { prefix }) == (Turn { node, out: timer })
            &&& node.event(now_us, Event::PeerLost { prefix }) == (Turn { node, out: timer })
            &&& node.event(now_us, other) == (Turn { node, out: timer })
        }),
        ({
            let answer = Event::Datagram {
                datagram: Some(Datagram { header, payload: Some(Payload::SyncResp(resp)) }),
            };
            let after = node.event(now_us, answer);
            node.election.role is Leader && node.pending_probe_t1 == Some(resp.t1) && node.hears(
                header,
            ) ==> {
                &&& after.out.len() == 1
                &&& after.node == (NodeModel {
                    pending_probe_t1: None,
                    probe_deadline_us: u64::MAX,
                    ..node
                })
            }
        }),
        node.hears(header) <==> header.mesh_prefix == node.mesh_prefix && header.sender_prefix
            != node.me.prefix,
{
    let timer = seq![Action::SetTimer { in_us: node.sleep(now_us) as u64 }];
    let other = Event::Datagram {
        datagram: Some(Datagram { header, payload: Some(Payload::Other) }),
    };
    assert(node.event(now_us, Event::PeerDiscovered { prefix }).out =~= timer);
    assert(node.event(now_us, Event::PeerLost { prefix }).out =~= timer);
    assert(node.event(now_us, other).out =~= timer);
}

} // verus!
