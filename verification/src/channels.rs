//! Channels: the broadcast uniforms an effect reads.
//!
//! A channel is how the things that **cannot** be a pure function of position
//! and time — audio, sensors, simulations, external state — reach a running
//! program.
//!
//! # Ownership is claim-and-lease
//!
//! ```text
//! Unowned  | claim                           | Owned(claimant)
//! Owned(a) | claim from b, prio(b) > prio(a) | Owned(b); a stops immediately
//! Owned(a) | claim from b, prio(b) <= prio(a)| Owned(a)
//! Owned(a) | lease lapsed, or release        | Unowned
//! ```
//!
//! **Strictly greater priority preempts; equal priority does not.** That is what
//! stops two identical producers fighting over a channel forever. The lease is
//! what makes a crashed producer release it without anyone noticing it crashed.
//!
//! # Staleness is defined, not incidental
//!
//! A consumer decays a channel toward its declared default once the value stops
//! arriving. So a dead audio source fades the lights to steady rather than
//! freezing them mid-beat. **`hold 0` means never stale**: right for a value
//! pushed only on change.

use vstd::prelude::*;

use crate::num::{capped, past};
use crate::q16::{between, clamp_unit, is_arithmetic, ratio, unit_interval, Op, Q16};
use crate::table::{lists, Key, Table};
use crate::uuid::same_prefix;

verus! {

/// A producer, identified by the prefix that appears in a datagram header.
pub type ProducerId = [u8; 4];

/// Who holds a channel, and until when.
#[derive(Clone, Copy, PartialEq, Eq, Debug)]
pub struct Owner {
    pub producer: ProducerId,
    pub priority: u8,
    /// Show time at which the lease lapses.
    pub lease_until_us: u64,
    /// Highest sequence seen from this owner, or `None` before its first
    /// packet. Cleared on a change of owner: two producers' counters are
    /// unrelated.
    pub last_seq: Option<u16>,
}

/// What happened to a claim.
#[derive(Clone, Copy, PartialEq, Eq, Debug)]
pub enum ClaimOutcome {
    /// The channel was free.
    Taken,
    /// The previous owner was outranked and must stop immediately.
    Preempted { previous: ProducerId },
    /// Refused: the holder ranks at least as high.
    Refused { holder: ProducerId },
    /// The current owner renewed its own lease.
    Renewed,
}

/// One channel's declared shape and current value.
#[derive(Clone, Copy, Debug)]
pub struct Channel {
    pub id: u16,
    /// How long a value stays fresh. Zero means never stale.
    pub hold_ms: u32,
    /// What the value decays to when the producer dies.
    ///
    /// Not always zero: a channel that decays to zero turns the lights off.
    pub default: Q16,
    pub owner: Option<Owner>,
    pub value: Q16,
    /// When the value last arrived.
    pub updated_at_us: Option<u64>,
}

/// How far `seq` is ahead of `last` on a counter that wraps.
pub open spec fn ahead_by(seq: u16, last: u16) -> int {
    (seq - last) % 65_536
}

/// Whether `seq` is newer than `last`: half the space is ahead.
pub open spec fn newer(seq: u16, last: u16) -> bool {
    0 < ahead_by(seq, last) < 32_767
}

impl Channel {
    pub open spec fn fresh(id: u16, hold_ms: u32, default: Q16) -> Channel {
        Channel { id, hold_ms, default, owner: None, value: default, updated_at_us: None }
    }

    /// The channel in new hands. The value stays: a handover between two
    /// producers of the same thing should not blink.
    pub open spec fn held_by(
        self,
        producer: ProducerId,
        priority: u8,
        lease_until_us: u64,
    ) -> Channel {
        Channel {
            owner: Some(Owner { producer, priority, lease_until_us, last_seq: None }),
            ..self
        }
    }

    /// When a lease of `lease_ms` taken at `now_us` lapses.
    pub open spec fn lease_end(now_us: u64, lease_ms: u32) -> u64 {
        capped(now_us + lease_ms * 1_000) as u64
    }

    pub open spec fn claimed(
        self,
        now_us: u64,
        producer: ProducerId,
        priority: u8,
        lease_ms: u32,
    ) -> (Channel, ClaimOutcome) {
        let until = Channel::lease_end(now_us, lease_ms);
        match self.owner {
            None => (self.held_by(producer, priority, until), ClaimOutcome::Taken),
            Some(held) => if held.producer == producer {
                (
                    Channel {
                        owner: Some(Owner { priority, lease_until_us: until, ..held }),
                        ..self
                    },
                    ClaimOutcome::Renewed,
                )
            } else if priority > held.priority {
                (
                    self.held_by(producer, priority, until),
                    ClaimOutcome::Preempted { previous: held.producer },
                )
            } else {
                (self, ClaimOutcome::Refused { holder: held.producer })
            },
        }
    }

    pub open spec fn owned_by(self, producer: ProducerId) -> bool {
        self.owner matches Some(held) && held.producer == producer
    }

    /// The channel once `producer` let go of it, if it was its to let go of.
    pub open spec fn released(self, producer: ProducerId) -> Channel {
        if self.owned_by(producer) {
            Channel { owner: None, ..self }
        } else {
            self
        }
    }

    /// Whether a value from `producer` with this sequence is taken.
    pub open spec fn takes(self, producer: ProducerId, seq: u16) -> bool {
        self.owned_by(producer) && (self.owner->0.last_seq matches Some(last) ==> newer(seq, last))
    }

    pub open spec fn published(
        self,
        now_us: u64,
        producer: ProducerId,
        seq: u16,
        value: Q16,
    ) -> Channel {
        if self.takes(producer, seq) {
            Channel {
                owner: Some(Owner { last_seq: Some(seq), ..self.owner->0 }),
                value,
                updated_at_us: Some(now_us),
                ..self
            }
        } else {
            self
        }
    }

    /// How long a value stays fresh, in microseconds.
    pub open spec fn hold_us(self) -> int {
        self.hold_ms * 1_000
    }

    /// How many microseconds the cross-fade counts as one: as few as let the hold
    /// window fit the number that a fraction divides by.
    pub open spec fn grain(self) -> int {
        (self.hold_us() - 1) / (i32::MAX as int) + 1
    }

    /// How old the value is.
    pub open spec fn age(self, now_us: u64) -> int {
        past(now_us as int, self.updated_at_us->0 as int)
    }

    /// What an effect reads: the value while it is fresh, the default once it is
    /// two hold windows old, and a cross-fade between.
    pub open spec fn reading<F: Fn(Op, Q16, Q16, Q16) -> Q16>(self, unit: &F, now_us: u64) -> Q16 {
        if self.hold_ms == 0 {
            self.value
        } else if self.updated_at_us is None || self.age(now_us) >= 2 * self.hold_us() {
            self.default
        } else if self.age(now_us) <= self.hold_us() {
            self.value
        } else {
            between(
                unit,
                self.value,
                self.default,
                unit_interval(
                    ratio(
                        unit,
                        ((self.age(now_us) - self.hold_us()) / self.grain()) as i32,
                        (self.hold_us() / self.grain()) as i32,
                    ),
                ),
            )
        }
    }

    pub open spec fn stale(self, now_us: u64) -> bool {
        self.hold_ms != 0 && (self.updated_at_us is None || self.age(now_us) > self.hold_us())
    }

    /// Whether a lease has lapsed.
    pub open spec fn lapsed(self, now_us: u64) -> bool {
        self.owner matches Some(held) && now_us >= held.lease_until_us
    }

    pub open spec fn advanced(self, now_us: u64) -> Channel {
        if self.lapsed(now_us) {
            Channel { owner: None, ..self }
        } else {
            self
        }
    }

    pub fn new(id: u16, hold_ms: u32, default: Q16) -> (c: Channel)
        ensures
            c == Channel::fresh(id, hold_ms, default),
    {
        Channel { id, hold_ms, default, owner: None, value: default, updated_at_us: None }
    }

    pub fn owner(&self) -> (r: Option<Owner>)
        ensures
            r == self.owner,
    {
        self.owner
    }

    pub fn is_owned(&self) -> (r: bool)
        ensures
            r == (self.owner is Some),
    {
        self.owner.is_some()
    }

    /// Whether staleness applies at all.
    pub fn never_stale(&self) -> (r: bool)
        ensures
            r == (self.hold_ms == 0),
    {
        self.hold_ms == 0
    }

    /// A producer claims the channel.
    pub fn claim(&mut self, now_us: u64, producer: ProducerId, priority: u8, lease_ms: u32) -> (r:
        ClaimOutcome)
        ensures
            (*final(self), r) == old(self).claimed(now_us, producer, priority, lease_ms),
    {
        let lease_until_us: u64 = now_us.saturating_add(lease_ms as u64 * 1_000);
        match self.owner {
            None => {
                self.take(producer, priority, lease_until_us);
                ClaimOutcome::Taken
            },
            Some(held) => {
                if same_prefix(&held.producer, &producer) {
                    // Keeping the sequence is what stops a renewal reopening the
                    // channel to replayed packets.
                    self.owner = Some(
                        Owner {
                            producer: held.producer,
                            priority,
                            lease_until_us,
                            last_seq: held.last_seq,
                        },
                    );
                    ClaimOutcome::Renewed
                } else if priority > held.priority {
                    self.take(producer, priority, lease_until_us);
                    ClaimOutcome::Preempted { previous: held.producer }
                } else {
                    ClaimOutcome::Refused { holder: held.producer }
                }
            },
        }
    }

    /// A producer releases the channel, and whether it was its to release.
    ///
    /// Only its owner can: otherwise any device on the mesh could knock the
    /// desktop app off the audio channel with one packet.
    pub fn release(&mut self, producer: ProducerId) -> (r: bool)
        ensures
            r == old(self).owned_by(producer),
            *final(self) == if r {
                Channel { owner: None, ..*old(self) }
            } else {
                *old(self)
            },
            *final(self) == old(self).released(producer),
    {
        match self.owner {
            Some(held) => {
                if same_prefix(&held.producer, &producer) {
                    self.owner = None;
                    true
                } else {
                    false
                }
            },
            None => false,
        }
    }

    /// A value arrived.
    ///
    /// Returns whether it was taken. Refused if the sender does not own the
    /// channel, or if the sequence is not newer than the last seen.
    pub fn publish(&mut self, now_us: u64, producer: ProducerId, seq: u16, value: Q16) -> (r: bool)
        ensures
            r == old(self).takes(producer, seq),
            *final(self) == old(self).published(now_us, producer, seq, value),
    {
        let held = match self.owner {
            Some(held) => held,
            None => {
                return false;
            },
        };
        if !same_prefix(&held.producer, &producer) {
            return false;
        }
        if let Some(last) = held.last_seq {
            if !is_newer(seq, last) {
                return false;
            }
        }
        self.owner = Some(
            Owner {
                producer: held.producer,
                priority: held.priority,
                lease_until_us: held.lease_until_us,
                last_seq: Some(seq),
            },
        );
        self.value = value;
        self.updated_at_us = Some(now_us);
        true
    }

    /// The value an effect should read at `now_us`.
    ///
    /// Decays toward the default once the value goes stale: between one and two
    /// hold windows it cross-fades, because a cliff would show as a visible jump
    /// the moment a producer hiccuped.
    pub fn read<F: Fn(Op, Q16, Q16, Q16) -> Q16>(&self, unit: &F, now_us: u64) -> (r: Q16)
        requires
            is_arithmetic(*unit),
        ensures
            r == self.reading(unit, now_us),
    {
        if self.never_stale() {
            return self.value;
        }
        let updated: u64 = match self.updated_at_us {
            Some(updated) => updated,
            None => {
                return self.default;
            },
        };
        let hold_us: u64 = self.hold_ms as u64 * 1_000;
        let age: u64 = now_us.saturating_sub(updated);
        if age >= hold_us * 2 {
            return self.default;
        }
        if age <= hold_us {
            return self.value;
        }
        let grain: u64 = (hold_us - 1) / (i32::MAX as u64) + 1;
        proof {
            lemma_grain_fits(*self, age - hold_us, age - hold_us);
        }
        let t = clamp_unit(
            ratio(
                unit,
                ((age - hold_us) / grain) as i32,
                (hold_us / grain) as i32,
            ),
        );
        between(unit, self.value, self.default, t)
    }

    /// Whether the value is past its hold window.
    pub fn is_stale(&self, now_us: u64) -> (r: bool)
        ensures
            r == self.stale(now_us),
    {
        if self.never_stale() {
            return false;
        }
        match self.updated_at_us {
            None => true,
            Some(updated) => now_us.saturating_sub(updated) > self.hold_ms as u64 * 1_000,
        }
    }

    /// Expire a lapsed lease.
    ///
    /// Returns the producer that lost it, if any.
    pub fn advance(&mut self, now_us: u64) -> (r: Option<ProducerId>)
        ensures
            *final(self) == old(self).advanced(now_us),
            r == if old(self).lapsed(now_us) {
                Some(old(self).owner->0.producer)
            } else {
                None
            },
    {
        match self.owner {
            None => None,
            Some(held) => {
                if now_us < held.lease_until_us {
                    return None;
                }
                self.owner = None;
                Some(held.producer)
            },
        }
    }

    fn take(&mut self, producer: ProducerId, priority: u8, lease_until_us: u64)
        ensures
            *final(self) == old(self).held_by(producer, priority, lease_until_us),
    {
        self.owner = Some(Owner { producer, priority, lease_until_us, last_seq: None });
    }
}

/// Whether `seq` is newer than `last`, allowing for wraparound.
///
/// At 60 Hz a `u16` wraps every eighteen minutes, and a plain `>` would stall the
/// channel there until the producer restarted.
fn is_newer(seq: u16, last: u16) -> (r: bool)
    ensures
        r == newer(seq, last),
{
    seq != last && seq.wrapping_sub(last) < u16::MAX / 2
}

/// Every channel this device knows about.
#[derive(Clone, Debug)]
pub struct Channels {
    channels: Table<u16, Channel>,
}

impl View for Channels {
    type V = Map<u16, Channel>;

    closed spec fn view(&self) -> Map<u16, Channel> {
        self.channels@
    }
}

/// What a channel reads as: zero where there is none.
pub open spec fn channel_reading<F: Fn(Op, Q16, Q16, Q16) -> Q16>(
    channels: Map<u16, Channel>,
    unit: &F,
    id: u16,
    now_us: u64,
) -> Q16 {
    if channels.dom().contains(id) {
        channels[id].reading(unit, now_us)
    } else {
        Q16::zero()
    }
}

/// Every channel, as the passing of time leaves it.
pub open spec fn all_advanced(channels: Map<u16, Channel>, now_us: u64) -> Map<u16, Channel> {
    channels.map_values(|c: Channel| c.advanced(now_us))
}

/// The channels whose lease has lapsed.
pub open spec fn all_lapsed(channels: Map<u16, Channel>, now_us: u64) -> Set<u16> {
    Set::new(|id: u16| channels.dom().contains(id) && channels[id].lapsed(now_us))
}

impl Default for Channels {
    fn default() -> (c: Channels)
        ensures
            c.wf(),
            c@ == Map::<u16, Channel>::empty(),
    {
        Channels { channels: Table::new() }
    }
}

impl Channels {
    pub closed spec fn wf(&self) -> bool {
        self.channels.wf()
    }

    pub fn new() -> (c: Channels)
        ensures
            c.wf(),
            c@ == Map::<u16, Channel>::empty(),
    {
        Channels::default()
    }

    /// Declare a channel, in place of any other with its id.
    pub fn declare(&mut self, channel: Channel)
        requires
            old(self).wf(),
        ensures
            final(self).wf(),
            final(self)@ == old(self)@.insert(channel.id, channel),
    {
        self.channels.insert(channel.id, channel);
    }

    pub fn get(&self, id: u16) -> (r: Option<&Channel>)
        requires
            self.wf(),
        ensures
            match r {
                Some(c) => self@.contains_pair(id, *c),
                None => !self@.dom().contains(id),
            },
    {
        self.channels.get(id)
    }

    pub fn get_mut(&mut self, id: u16) -> (r: Option<&mut Channel>)
        requires
            old(self).wf(),
        ensures
            final(self).wf(),
            match r {
                Some(c) => {
                    &&& old(self)@.contains_pair(id, *c)
                    &&& final(self)@ == old(self)@.insert(id, *final(c))
                },
                None => !old(self)@.dom().contains(id) && final(self)@ == old(self)@,
            },
    {
        self.channels.get_mut(id)
    }

    pub fn len(&self) -> (n: usize)
        requires
            self.wf(),
        ensures
            n == self@.dom().len(),
            self@.dom().finite(),
    {
        proof {
            self.channels.keys_list_the_domain();
            crate::table::lemma_listing_counts(self.channels.keys(), self.channels@.dom());
        }
        self.channels.len()
    }

    pub fn is_empty(&self) -> (r: bool)
        requires
            self.wf(),
        ensures
            r == (self@.dom().len() == 0),
            self@.dom().finite(),
    {
        self.len() == 0
    }

    /// Read a channel, or zero if this device has never heard of it.
    ///
    /// An undeclared channel reads zero rather than failing: a program compiled
    /// against a channel the mesh no longer publishes must keep rendering.
    pub fn read<F: Fn(Op, Q16, Q16, Q16) -> Q16>(&self, unit: &F, id: u16, now_us: u64) -> (r: Q16)
        requires
            self.wf(),
            is_arithmetic(*unit),
        ensures
            r == channel_reading(self@, unit, id, now_us),
    {
        match self.channels.get(id) {
            Some(c) => c.read(unit, now_us),
            None => Q16::zero(),
        }
    }

    /// Expire every lapsed lease, returning the channels that came free.
    pub fn advance(&mut self, now_us: u64) -> (freed: Vec<u16>)
        requires
            old(self).wf(),
        ensures
            final(self).wf(),
            final(self)@ == old(self)@.map_values(|c: Channel| c.advanced(now_us)),
            lists(
                freed@,
                Set::new(
                    |id: u16| old(self)@.dom().contains(id) && old(self)@[id].lapsed(now_us),
                ),
            ),
            final(self)@ == all_advanced(old(self)@, now_us),
            lists(freed@, all_lapsed(old(self)@, now_us)),
    {
        let mut freed: Vec<u16> = Vec::new();
        let mut i: usize = 0;
        let ghost keys = self.channels.keys();
        let ghost was = self@;
        proof {
            self.channels.keys_list_the_domain();
        }
        while i < self.channels.len()
            invariant
                self.wf(),
                was == old(self)@,
                keys == self.channels.keys(),
                lists(keys, was.dom()),
                self@.dom() == was.dom(),
                i <= keys.len(),
                forall|k: int|
                    0 <= k < i ==> self@[#[trigger] keys[k]] == was[keys[k]].advanced(now_us),
                forall|k: int| i <= k < keys.len() ==> self@[#[trigger] keys[k]] == was[keys[k]],
                forall|id: u16| #[trigger]
                    freed@.contains(id) <==> exists|k: int|
                        0 <= k < i && #[trigger] keys[k] == id && was[id].lapsed(now_us),
                forall|a: int, b: int|
                    0 <= a < b < freed@.len() ==> (#[trigger] freed@[a]) < (#[trigger] freed@[b]),
                forall|a: int|
                    i < keys.len() && 0 <= a < freed@.len() ==> (#[trigger] freed@[a])
                        < keys[i as int],
            decreases keys.len() - i,
        {
            let id: u16 = self.channels.key_at(i);
            let mut channel = *self.channels.value_at(i);
            let ghost before = freed@;
            let ghost now = self@;
            assert(now[id] == was[id]);
            let lost: bool = channel.advance(now_us).is_some();
            self.channels.insert(id, channel);
            if lost {
                freed.push(id);
            }
            proof {
                assert(self@.dom() =~= was.dom());
                assert forall|k: int| 0 <= k < i + 1 implies self@[#[trigger] keys[k]]
                    == was[keys[k]].advanced(now_us) by {
                    if k < i {
                        assert(keys[k].place() < keys[i as int].place());
                    }
                }
                assert forall|k: int| i + 1 <= k < keys.len() implies self@[#[trigger] keys[k]]
                    == was[keys[k]] by {
                    assert(keys[i as int].place() < keys[k].place());
                }
                assert forall|x: u16| #[trigger] freed@.contains(x) <==> exists|k: int|
                    0 <= k < i + 1 && #[trigger] keys[k] == x && was[x].lapsed(now_us) by {
                    if lost {
                        assert(freed@[before.len() as int] == id);
                        assert(freed@ == before.push(id));
                    }
                    if before.contains(x) {
                        let k = before.index_of(x);
                        assert(freed@[k] == x);
                        let j = choose|j: int|
                            0 <= j < i && #[trigger] keys[j] == x && was[x].lapsed(now_us);
                        assert(keys[j] == x);
                    }
                    if freed@.contains(x) {
                        let k = freed@.index_of(x);
                        if k < before.len() {
                            assert(before[k] == x);
                        } else {
                            assert(keys[i as int] == x);
                        }
                    }
                    if exists|k: int|
                        0 <= k < i + 1 && #[trigger] keys[k] == x && was[x].lapsed(now_us) {
                        let k = choose|k: int|
                            0 <= k < i + 1 && #[trigger] keys[k] == x && was[x].lapsed(now_us);
                        if k < i {
                            assert(before.contains(x));
                            assert(freed@[before.index_of(x)] == x);
                        }
                    }
                }
                if i + 1 < keys.len() {
                    assert(keys[i as int].place() < keys[i + 1].place());
                }
            }
            i += 1;
        }
        proof {
            assert forall|id: u16| #[trigger] was.dom().contains(id) implies self@[id]
                == was[id].advanced(now_us) by {
                assert(keys.contains(id));
                assert(keys[keys.index_of(id)] == id);
            }
            assert(self@ =~= was.map_values(|c: Channel| c.advanced(now_us)));
            let lapsed = Set::new(
                |id: u16| was.dom().contains(id) && was[id].lapsed(now_us),
            );
            assert forall|id: u16| #[trigger] freed@.contains(id) <==> lapsed.contains(id) by {
                if lapsed.contains(id) {
                    assert(keys.contains(id));
                    assert(keys[keys.index_of(id)] == id);
                }
                if freed@.contains(id) {
                    let k = choose|k: int|
                        0 <= k < i && #[trigger] keys[k] == id && was[id].lapsed(now_us);
                    assert(keys.contains(id));
                }
            }
        }
        freed
    }
}

/// The device's channels, seen as a program's uniforms.
///
/// A program names a **slot**, not a channel id: it says "my third channel" and
/// its own table says which channel that is, so the same program can be pointed
/// at a different producer without recompiling.
///
/// Time is fixed for the frame: `now_us` is captured when this is built, so every
/// pixel of a frame sees the same channel values.
pub struct ChannelUniforms<'a> {
    pub channels: &'a Channels,
    /// The program's table: the channel of each of its slots.
    pub slots: &'a [u16],
    pub now_us: u64,
}

/// What a program reads from a slot. Every miss is zero: a slot the program does
/// not declare, a channel this device was never told about, a band past the last
/// that was declared.
pub open spec fn slot_reading<F: Fn(Op, Q16, Q16, Q16) -> Q16>(
    channels: Map<u16, Channel>,
    slots: Seq<u16>,
    unit: &F,
    slot: u8,
    offset: u8,
    now_us: u64,
) -> Q16 {
    if slot >= slots.len() || !channels.dom().contains(slots[slot as int]) {
        Q16::zero()
    } else if slots[slot as int] + offset > u16::MAX {
        Q16::zero()
    } else {
        channel_reading(channels, unit, (slots[slot as int] + offset) as u16, now_us)
    }
}

impl<'a> ChannelUniforms<'a> {
    pub fn new(channels: &'a Channels, slots: &'a [u16], now_us: u64) -> (u: ChannelUniforms<'a>)
        ensures
            u.channels == channels,
            u.slots == slots,
            u.now_us == now_us,
    {
        ChannelUniforms { channels, slots, now_us }
    }

    /// What the program reads from its slot `slot`, `offset` bands along.
    ///
    /// Multi-value channels — audio bands, a sensor with several readings — are
    /// consecutive ids from the declared one.
    pub fn channel<F: Fn(Op, Q16, Q16, Q16) -> Q16>(&self, unit: &F, slot: u8, offset: u8) -> (r:
        Q16)
        requires
            self.channels.wf(),
            is_arithmetic(*unit),
        ensures
            r == slot_reading(self.channels@, self.slots@, unit, slot, offset, self.now_us),
    {
        if slot as usize >= self.slots.len() {
            return Q16::zero();
        }
        let id: u16 = self.slots[slot as usize];
        let channel = match self.channels.get(id) {
            Some(channel) => channel,
            None => {
                return Q16::zero();
            },
        };
        if offset == 0 {
            return channel.read(unit, self.now_us);
        }
        match id.checked_add(offset as u16) {
            Some(at) => self.channels.read(unit, at, self.now_us),
            None => Q16::zero(),
        }
    }
}

/// A counter is newer than what came before it, never than itself, and of two
/// counters at most one is newer. The next count is always newer, across the wrap
/// too.
pub proof fn law_newer_counts(seq: u16, last: u16)
    ensures
        !newer(seq, seq),
        newer(seq, last) ==> !newer(last, seq),
        newer(
            if last == u16::MAX {
                0
            } else {
                (last + 1) as u16
            },
            last,
        ),
{
}

/// Equal or lower priority never takes a channel from its holder, so two
/// identical producers cannot fight over it.
pub proof fn law_only_greater_priority_preempts(
    c: Channel,
    now_us: u64,
    producer: ProducerId,
    priority: u8,
    lease_ms: u32,
)
    requires
        c.owner is Some,
        c.owner->0.producer != producer,
    ensures
        priority <= c.owner->0.priority ==> c.claimed(now_us, producer, priority, lease_ms) == (
            c,
            ClaimOutcome::Refused { holder: c.owner->0.producer },
        ),
        priority > c.owner->0.priority ==> c.claimed(now_us, producer, priority, lease_ms).1 == (
        ClaimOutcome::Preempted { previous: c.owner->0.producer }),
{
}

/// No claim changes what is shown: a handover does not blink, and a renewal keeps
/// the sequence, so it does not reopen the channel to old packets.
pub proof fn law_claims_change_nothing_visible<F: Fn(Op, Q16, Q16, Q16) -> Q16>(
    c: Channel,
    now_us: u64,
    producer: ProducerId,
    priority: u8,
    lease_ms: u32,
    unit: &F,
    at_us: u64,
)
    ensures
        c.claimed(now_us, producer, priority, lease_ms).0.reading(unit, at_us) == c.reading(
            unit,
            at_us,
        ),
        c.owned_by(producer) ==> c.claimed(now_us, producer, priority, lease_ms).0.owner->0.last_seq
            == c.owner->0.last_seq,
{
}

/// Whoever does not own a channel cannot change it by publishing.
pub proof fn law_only_the_owner_publishes(
    c: Channel,
    now_us: u64,
    producer: ProducerId,
    seq: u16,
    value: Q16,
)
    requires
        !c.owned_by(producer),
    ensures
        c.published(now_us, producer, seq, value) == c,
{
}

/// An older packet, or the same one again, cannot undo a fresher one.
pub proof fn law_latest_wins(
    c: Channel,
    now_us: u64,
    producer: ProducerId,
    seq: u16,
    value: Q16,
    again_us: u64,
    older: u16,
    other: Q16,
)
    requires
        c.takes(producer, seq),
        older == seq || newer(seq, older),
    ensures
        c.published(now_us, producer, seq, value).published(again_us, producer, older, other)
            == c.published(now_us, producer, seq, value),
{
    law_newer_counts(seq, older);
}

/// A crashed producer lets go: once its lease has lapsed, the channel is anyone's.
pub proof fn law_a_lapsed_lease_frees_the_channel(
    c: Channel,
    claimed_us: u64,
    holder: ProducerId,
    priority: u8,
    lease_ms: u32,
    now_us: u64,
    producer: ProducerId,
    lower: u8,
    next_ms: u32,
)
    requires
        c.owner is None,
        now_us >= claimed_us + lease_ms * 1_000,
    ensures
        c.claimed(claimed_us, holder, priority, lease_ms).0.advanced(now_us) == c,
        c.claimed(claimed_us, holder, priority, lease_ms).0.advanced(now_us).claimed(
            now_us,
            producer,
            lower,
            next_ms,
        ).1 == ClaimOutcome::Taken,
{
}

/// A fresh value reads back unchanged, a value with no hold never goes stale, and
/// a dead producer's value becomes the default.
pub proof fn law_staleness_is_defined<F: Fn(Op, Q16, Q16, Q16) -> Q16>(
    c: Channel,
    unit: &F,
    now_us: u64,
)
    ensures
        c.hold_ms == 0 ==> c.reading(unit, now_us) == c.value && !c.stale(now_us),
        c.hold_ms > 0 && c.updated_at_us is None ==> c.reading(unit, now_us) == c.default
            && c.stale(now_us),
        c.updated_at_us is Some && !c.stale(now_us) ==> c.reading(unit, now_us) == c.value,
        c.hold_ms > 0 && c.updated_at_us is Some && c.age(now_us) >= 2 * c.hold_us() ==> c.reading(
            unit,
            now_us,
        ) == c.default,
{
}

/// Whether two readings lead from one number toward another, the second at least
/// as far as the first and neither past it.
pub open spec fn leads(from: Q16, to: Q16, first: Q16, second: Q16) -> bool {
    if from.0 <= to.0 {
        from.0 <= first.0 <= second.0 <= to.0
    } else {
        from.0 >= first.0 >= second.0 >= to.0
    }
}

/// Whether an arithmetic ramps: more of a span is no smaller a fraction of it, and
/// a larger fraction leads no less far from one number to another.
pub open spec fn ramps<F: Fn(Op, Q16, Q16, Q16) -> Q16>(unit: &F) -> bool {
    &&& forall|a: i32, b: i32, span: i32|
        #![trigger ratio(unit, a, span), ratio(unit, b, span)]
        0 <= a <= b <= span ==> ratio(unit, a, span).0 <= ratio(unit, b, span).0
    &&& forall|from: Q16, to: Q16, s: Q16, t: Q16|
        #![trigger between(unit, from, to, s), between(unit, from, to, t)]
        0 <= s.0 <= t.0 <= 65_536 ==> leads(
            from,
            to,
            between(unit, from, to, s),
            between(unit, from, to, t),
        )
}

/// A window counted in grains fits, and a later place in it is no earlier grain.
proof fn lemma_grain_fits(c: Channel, a: int, b: int)
    requires
        c.hold_us() > 0,
        0 <= a <= b < c.hold_us(),
    ensures
        c.grain() >= 1,
        0 <= a / c.grain() <= b / c.grain() <= c.hold_us() / c.grain(),
        0 < c.hold_us() / c.grain() <= i32::MAX,
{
    let (hold, most) = (c.hold_us(), i32::MAX as int);
    let grain = c.grain();
    assert(grain >= 1 && hold <= grain * most && grain <= hold) by (nonlinear_arith)
        requires
            hold > 0,
            most == 0x7fff_ffff,
            grain == (hold - 1) / most + 1,
    ;
    assert(0 <= a / grain <= b / grain <= hold / grain && 0 < hold / grain <= most)
        by (nonlinear_arith)
        requires
            0 <= a <= b < hold <= grain * most,
            1 <= grain <= hold,
    ;
}

/// The fade is a ramp rather than a cliff: as time passes a reading only ever moves
/// from the value toward the default, however long the hold window.
pub proof fn law_the_fade_is_a_ramp<F: Fn(Op, Q16, Q16, Q16) -> Q16>(
    c: Channel,
    unit: &F,
    earlier_us: u64,
    later_us: u64,
)
    requires
        ramps(unit),
        earlier_us <= later_us,
    ensures
        leads(c.value, c.default, c.reading(unit, earlier_us), c.reading(unit, later_us)),
{
    let hold = c.hold_us();
    let (a, b) = (c.age(earlier_us), c.age(later_us));
    let grain = c.grain();
    if hold < b < 2 * hold {
        lemma_grain_fits(c, b - hold, b - hold);
        let t = unit_interval(ratio(unit, ((b - hold) / grain) as i32, (hold / grain) as i32));
        assert(leads(
            c.value,
            c.default,
            between(unit, c.value, c.default, t),
            between(unit, c.value, c.default, t),
        ));
    }
    if hold < a < 2 * hold {
        lemma_grain_fits(c, a - hold, a - hold);
        let s = unit_interval(ratio(unit, ((a - hold) / grain) as i32, (hold / grain) as i32));
        assert(leads(
            c.value,
            c.default,
            between(unit, c.value, c.default, s),
            between(unit, c.value, c.default, s),
        ));
        if b < 2 * hold {
            lemma_grain_fits(c, a - hold, b - hold);
            let t = unit_interval(ratio(unit, ((b - hold) / grain) as i32, (hold / grain) as i32));
            assert(s.0 <= t.0);
            assert(leads(
                c.value,
                c.default,
                between(unit, c.value, c.default, s),
                between(unit, c.value, c.default, t),
            ));
        }
    }
}

/// A claim that is not refused holds the channel for the whole of the lease it asked
/// for, a renewal as much as a first claim: until then no passing of time frees it, and
/// from then on any does. Only a holder that is another producer of at least the same
/// priority refuses one, and a refusal changes nothing.
pub proof fn law_a_claim_holds_for_its_lease(
    c: Channel,
    now_us: u64,
    producer: ProducerId,
    priority: u8,
    lease_ms: u32,
    later_us: u64,
)
    ensures
        ({
            let (after, said) = c.claimed(now_us, producer, priority, lease_ms);
            let in_the_way = c.owner matches Some(held) && held.producer != producer
                && held.priority >= priority;
            if in_the_way {
                after == c && said == (ClaimOutcome::Refused { holder: c.owner->0.producer })
            } else {
                &&& after.owner is Some
                &&& after.owner->0.producer == producer
                &&& after.owner->0.priority == priority
                &&& later_us < now_us + lease_ms * 1_000 && later_us < u64::MAX
                    ==> after.advanced(later_us) == after && !after.lapsed(later_us)
                &&& later_us >= now_us + lease_ms * 1_000 ==> after.advanced(later_us).owner is None
                    && after.lapsed(later_us)
                &&& said is Taken <==> c.owner is None
                &&& said is Renewed <==> (c.owner matches Some(held) && held.producer == producer)
                &&& said is Preempted ==> said->previous == c.owner->0.producer
                &&& !(said is Refused)
            }
        }),
{
}

/// A claim is about who speaks, not about what was said: the value, its age and what
/// was declared stay. A new owner starts its own count, one that renews goes on with it.
pub proof fn law_a_claim_keeps_what_was_said(
    c: Channel,
    now_us: u64,
    producer: ProducerId,
    priority: u8,
    lease_ms: u32,
)
    ensures
        ({
            let after = c.claimed(now_us, producer, priority, lease_ms).0;
            &&& after.id == c.id
            &&& after.hold_ms == c.hold_ms
            &&& after.default == c.default
            &&& after.value == c.value
            &&& after.updated_at_us == c.updated_at_us
            &&& c.owner is Some && c.owner->0.producer == producer ==> after.owner->0.last_seq
                == c.owner->0.last_seq
            &&& !(c.owner is Some && c.owner->0.producer == producer) && after != c
                ==> after.owner->0.last_seq is None
        }),
{
}

/// A lease ends at its own instant and takes nothing else with it.
pub proof fn law_a_lease_ends_when_it_says(c: Channel, now_us: u64)
    ensures
        c.lapsed(now_us) <==> (c.owner matches Some(held) && held.lease_until_us <= now_us),
        c.lapsed(now_us) ==> c.advanced(now_us) == (Channel { owner: None, ..c }),
        !c.lapsed(now_us) ==> c.advanced(now_us) == c,
{
}

/// Who holds a channel can let go of it, after which anyone may have it; from anyone
/// else a release does nothing.
pub proof fn law_only_the_owner_lets_go(
    c: Channel,
    producer: ProducerId,
    now_us: u64,
    other: ProducerId,
    priority: u8,
    lease_ms: u32,
)
    ensures
        c.owner matches Some(held) && held.producer == producer ==> {
            &&& c.released(producer).owner is None
            &&& c.released(producer).value == c.value
            &&& c.released(producer).updated_at_us == c.updated_at_us
            &&& c.released(producer).claimed(now_us, other, priority, lease_ms).1 is Taken
        },
        !(c.owner matches Some(held) && held.producer == producer) ==> c.released(producer) == c,
{
}

/// What the owner says with a newer count is what is read from then on, from the moment
/// it arrived until the hold window is over; anything else is as if it was never said.
/// Newer is less than half of the counts ahead, across the wrap too.
pub proof fn law_what_is_published_is_read<F: Fn(Op, Q16, Q16, Q16) -> Q16>(
    c: Channel,
    now_us: u64,
    producer: ProducerId,
    seq: u16,
    value: Q16,
    unit: &F,
    at_us: u64,
)
    ensures
        ({
            let after = c.published(now_us, producer, seq, value);
            let mine = c.owner matches Some(held) && held.producer == producer;
            let fresh = c.owner->0.last_seq matches Some(last) ==> {
                let ahead = if seq >= last {
                    seq - last
                } else {
                    seq + 65_536 - last
                };
                1 <= ahead <= 32_766
            };
            &&& c.takes(producer, seq) <==> mine && fresh
            &&& !c.takes(producer, seq) ==> after == c
            &&& c.takes(producer, seq) ==> {
                &&& after.owner == Some(Owner { last_seq: Some(seq), ..c.owner->0 })
                &&& after.value == value
                &&& after.updated_at_us == Some(now_us)
                &&& after.id == c.id && after.hold_ms == c.hold_ms && after.default == c.default
                &&& at_us <= now_us + c.hold_ms * 1_000 || c.hold_ms == 0 ==> after.reading(
                    unit,
                    at_us,
                ) == value
            }
        }),
{
}

/// What is read, by the age of what was said: the value for one hold window, the default
/// after two, and between them a mix of the two by how much of the second window is
/// gone. Nothing said reads as the default, and without a hold what was said lasts.
pub proof fn law_readings_go_by_age<F: Fn(Op, Q16, Q16, Q16) -> Q16>(
    c: Channel,
    unit: &F,
    now_us: u64,
    said_us: u64,
)
    ensures
        c.hold_ms == 0 ==> c.reading(unit, now_us) == c.value && !c.stale(now_us),
        c.hold_ms > 0 && c.updated_at_us is None ==> c.reading(unit, now_us) == c.default
            && c.stale(now_us),
        c.hold_ms > 0 && c.updated_at_us == Some(said_us) ==> {
            let hold = c.hold_ms * 1_000;
            &&& c.stale(now_us) <==> now_us > said_us + hold
            &&& now_us <= said_us + hold ==> c.reading(unit, now_us) == c.value
            &&& now_us >= said_us + 2 * hold ==> c.reading(unit, now_us) == c.default
            &&& said_us + hold < now_us < said_us + 2 * hold && hold <= i32::MAX ==> c.reading(
                unit,
                now_us,
            ) == between(
                unit,
                c.value,
                c.default,
                unit_interval(ratio(unit, (now_us - said_us - hold) as i32, hold as i32)),
            )
            &&& said_us + hold < now_us < said_us + 2 * hold && hold > i32::MAX ==> {
                // As many microseconds in one as bring the window into range.
                let grain = (hold + i32::MAX - 1) / (i32::MAX as int);
                c.reading(unit, now_us) == between(
                    unit,
                    c.value,
                    c.default,
                    unit_interval(
                        ratio(
                            unit,
                            ((now_us - said_us - hold) / grain) as i32,
                            (hold / grain) as i32,
                        ),
                    ),
                )
            }
        },
{
    if 0 < c.hold_ms && c.hold_ms * 1_000 <= i32::MAX {
        let hold = c.hold_ms * 1_000;
        assert((hold - 1) / (i32::MAX as int) == 0) by (nonlinear_arith)
            requires
                0 < hold <= i32::MAX,
        ;
        assert(c.grain() == 1);
        assert(hold / c.grain() == hold);
        assert((c.age(now_us) - hold) / c.grain() == c.age(now_us) - hold);
    } else if c.hold_ms > 0 {
        let hold = c.hold_ms * 1_000;
        let most = i32::MAX as int;
        assert((hold - 1) / most + 1 == (hold + most - 1) / most) by (nonlinear_arith)
            requires
                0 < hold,
                most == 0x7fff_ffff,
        ;
        assert(c.grain() == (hold + i32::MAX - 1) / (i32::MAX as int));
    }
}

/// A channel reads as itself under its own id and changes no other; one that was never
/// declared reads zero.
pub proof fn law_channels_are_read_by_their_ids<F: Fn(Op, Q16, Q16, Q16) -> Q16>(
    channels: Map<u16, Channel>,
    channel: Channel,
    unit: &F,
    id: u16,
    now_us: u64,
)
    ensures
        channel_reading(
            channels.insert(channel.id, channel),
            unit,
            channel.id,
            now_us,
        ) == channel.reading(unit, now_us),
        id != channel.id ==> channel_reading(
            channels.insert(channel.id, channel),
            unit,
            id,
            now_us,
        ) == channel_reading(channels, unit, id, now_us),
        channel_reading(channels.remove(id), unit, id, now_us) == Q16(0),
{
}

/// A slot reads the channel that the program's own table names, and its bands the
/// channels after it. Without a slot, or without the channel it names, zero is read, and
/// so it is past the last id.
pub proof fn law_slots_read_through_the_table<F: Fn(Op, Q16, Q16, Q16) -> Q16>(
    channels: Map<u16, Channel>,
    slots: Seq<u16>,
    unit: &F,
    slot: u8,
    offset: u8,
    id: u16,
    now_us: u64,
)
    ensures
        slot >= slots.len() ==> slot_reading(channels, slots, unit, slot, offset, now_us) == Q16(0),
        slot < slots.len() && slots[slot as int] == id ==> {
            &&& !channels.dom().contains(id) ==> slot_reading(
                channels,
                slots,
                unit,
                slot,
                offset,
                now_us,
            ) == Q16(0)
            &&& channels.dom().contains(id) ==> slot_reading(
                channels,
                slots,
                unit,
                slot,
                0,
                now_us,
            ) == channels[id].reading(unit, now_us)
            &&& channels.dom().contains(id) && id + offset <= u16::MAX ==> slot_reading(
                channels,
                slots,
                unit,
                slot,
                offset,
                now_us,
            ) == channel_reading(channels, unit, (id + offset) as u16, now_us)
            &&& id + offset > u16::MAX ==> slot_reading(
                channels,
                slots,
                unit,
                slot,
                offset,
                now_us,
            ) == Q16(0)
        },
{
}

/// A new channel belongs to nobody and reads as what it was declared to rest at.
pub proof fn law_a_new_channel_rests<F: Fn(Op, Q16, Q16, Q16) -> Q16>(
    id: u16,
    hold_ms: u32,
    default: Q16,
    unit: &F,
    now_us: u64,
)
    ensures
        ({
            let c = Channel::fresh(id, hold_ms, default);
            &&& c.id == id && c.hold_ms == hold_ms && c.default == default
            &&& c.owner is None
            &&& c.reading(unit, now_us) == default
        }),
{
}

/// Time frees exactly the channels whose lease has lapsed, and says which; every other
/// stays as it was.
pub proof fn law_time_frees_what_has_lapsed(channels: Map<u16, Channel>, now_us: u64, id: u16)
    ensures
        all_advanced(channels, now_us).dom() == channels.dom(),
        all_lapsed(channels, now_us).contains(id) <==> channels.dom().contains(id) && (
        channels[id].owner matches Some(held) && held.lease_until_us <= now_us),
        channels.dom().contains(id) ==> {
            let after = all_advanced(channels, now_us)[id];
            &&& all_lapsed(channels, now_us).contains(id) ==> after.owner is None
            &&& !all_lapsed(channels, now_us).contains(id) ==> after == channels[id]
            &&& after.value == channels[id].value
            &&& after.updated_at_us == channels[id].updated_at_us
        },
{
    assert(all_advanced(channels, now_us).dom() =~= channels.dom());
}

} // verus!
