//! Replicated records: hybrid logical clocks, signing authority, and gossip.
//!
//! Everything the mesh remembers is a record with an identity, a type, a hybrid
//! logical clock timestamp, an author, and a signature.
//!
//! # Every record is signed, and by whom matters
//!
//! The mesh key is symmetric and shared, so any paired device — including a
//! cheap bridged node someone tampered with — could otherwise forge a scene, a
//! schedule or a binding and have it replicate as genuine. There are two
//! authorities:
//!
//! - Everything authored by a person is signed by a **controller** key.
//! - A device record is signed by that **device's own** identity key, because a
//!   device is authoritative about itself and has no controller key.
//!
//! A device's self-signed record is accepted **only for its own identity**. So a
//! compromised device can lie about itself and nothing else.
//!
//! # Conflicts resolve simply, on purpose
//!
//! Last writer wins per record, ordered by clock then author as a tiebreak. A
//! record is replaced **whole**, never merged field by field.

use vstd::prelude::*;

use crate::num::most_of;
use crate::table::{lists, Key, Table};
use crate::uuid::{
    byte_order, byte_space, lemma_byte_order_is_numeric, lemma_key_injective, Uuid,
};

verus! {

/// Bytes of a public key.
pub const PUBLIC_KEY_LEN: usize = 32;

/// Bytes of a signature.
pub const SIGNATURE_LEN: usize = 64;

/// What a record holds.
#[derive(Clone, Copy, PartialEq, Eq, PartialOrd, Ord, Debug, Structural)]
pub enum RecordType {
    /// A device's own name, coordinates, output config and capabilities.
    Device,
    Zone,
    Effect,
    Scene,
    Show,
    Schedule,
    Binding,
    Channel,
    /// Authorised controller public keys, and revocations.
    Key,
}

impl RecordType {
    /// The byte that names this type on the wire.
    pub open spec fn code(self) -> u8 {
        match self {
            RecordType::Device => 0,
            RecordType::Zone => 1,
            RecordType::Effect => 2,
            RecordType::Scene => 3,
            RecordType::Show => 4,
            RecordType::Schedule => 5,
            RecordType::Binding => 6,
            RecordType::Channel => 7,
            RecordType::Key => 8,
        }
    }

    pub fn from_u8(v: u8) -> (r: Option<RecordType>)
        ensures
            v <= 8 ==> r is Some && r->0.code() == v,
            v > 8 ==> r is None,
    {
        match v {
            0 => Some(RecordType::Device),
            1 => Some(RecordType::Zone),
            2 => Some(RecordType::Effect),
            3 => Some(RecordType::Scene),
            4 => Some(RecordType::Show),
            5 => Some(RecordType::Schedule),
            6 => Some(RecordType::Binding),
            7 => Some(RecordType::Channel),
            8 => Some(RecordType::Key),
            _ => None,
        }
    }

    pub fn to_u8(self) -> (r: u8)
        ensures
            r == self.code(),
    {
        match self {
            RecordType::Device => 0,
            RecordType::Zone => 1,
            RecordType::Effect => 2,
            RecordType::Scene => 3,
            RecordType::Show => 4,
            RecordType::Schedule => 5,
            RecordType::Binding => 6,
            RecordType::Channel => 7,
            RecordType::Key => 8,
        }
    }

    /// Whether this type is signed by the device it describes rather than by a
    /// controller.
    pub fn is_self_signed(self) -> (r: bool)
        ensures
            r == (self is Device),
    {
        match self {
            RecordType::Device => true,
            _ => false,
        }
    }
}

/// A hybrid logical clock.
///
/// Wall time in the high bits, a counter in the low bits. The wall part keeps
/// ordering roughly meaningful to a human reading a log; the counter keeps it
/// **total** when two edits land in the same millisecond.
///
/// Packed into one `u64` because that is what the wire carries and what a
/// digest compares.
#[derive(Clone, Copy, PartialEq, Eq, PartialOrd, Ord, Default, Debug, Structural)]
pub struct Hlc(pub u64);

/// How many counts one wall millisecond has.
pub const COUNTS_PER_MS: u64 = 0x1_0000;

/// The first wall time, in milliseconds, that the wall part has no bits for.
pub const WALL_LIMIT_MS: u64 = 0x1_0000_0000_0000;

impl Hlc {
    /// The wall part.
    pub open spec fn wall(self) -> int {
        self.0 as int / COUNTS_PER_MS as int
    }

    /// The counter part.
    pub open spec fn count(self) -> int {
        self.0 as int % COUNTS_PER_MS as int
    }

    /// A wall time as the wall part holds it: one too long for its bits stays at
    /// the last that fits.
    pub open spec fn held(wall_ms: int) -> int {
        if wall_ms < WALL_LIMIT_MS {
            wall_ms
        } else {
            WALL_LIMIT_MS - 1
        }
    }

    /// A wall time and a counter, packed.
    pub open spec fn packed(wall_ms: int, counter: int) -> int {
        Hlc::held(wall_ms) * COUNTS_PER_MS + counter
    }

    pub open spec fn ticked(self, wall_ms: int) -> int {
        if Hlc::held(wall_ms) > self.wall() {
            Hlc::packed(wall_ms, 0)
        } else if self.0 < u64::MAX {
            self.0 + 1
        } else {
            u64::MAX as int
        }
    }

    /// The later of two clocks.
    pub open spec fn later(self, other: Hlc) -> Hlc {
        if self.0 >= other.0 {
            self
        } else {
            other
        }
    }

    pub open spec fn observed(self, other: Hlc, wall_ms: int) -> int {
        self.later(other).ticked(wall_ms)
    }

    /// The clock of nothing.
    #[verifier::allow_in_spec]
    pub fn zero() -> Hlc
        returns
            Hlc(0),
    {
        Hlc(0)
    }

    pub fn new(wall_ms: u64, counter: u16) -> (r: Hlc)
        ensures
            r.0 == Hlc::packed(wall_ms as int, counter as int),
    {
        Hlc(held_wall(wall_ms) * COUNTS_PER_MS + counter as u64)
    }

    pub fn wall_ms(self) -> (r: u64)
        ensures
            r == self.wall(),
    {
        self.0 / COUNTS_PER_MS
    }

    pub fn counter(self) -> (r: u16)
        ensures
            r == self.count(),
    {
        (self.0 % COUNTS_PER_MS) as u16
    }

    /// The next timestamp for a local write at `wall_ms`.
    ///
    /// Advances the counter rather than the wall part when the clock has not
    /// moved, and never goes backwards even if the wall clock does.
    pub fn tick(self, wall_ms: u64) -> (r: Hlc)
        ensures
            r.0 == self.ticked(wall_ms as int),
    {
        if held_wall(wall_ms) > self.wall_ms() {
            Hlc::new(wall_ms, 0)
        } else {
            Hlc(self.0.saturating_add(1))
        }
    }

    /// Merge a timestamp seen from a peer.
    ///
    /// Taking the maximum is what makes causality hold across the mesh: after
    /// receiving an edit, every later local edit sorts after it.
    pub fn observe(self, other: Hlc, wall_ms: u64) -> (r: Hlc)
        ensures
            r.0 == self.observed(other, wall_ms as int),
    {
        let highest = if self.0 >= other.0 {
            self
        } else {
            other
        };
        highest.tick(most_of(wall_ms, highest.wall_ms()))
    }
}

/// The wall time that the wall part holds for `wall_ms`. Dropping the bits that do
/// not fit would send the clock back to the beginning.
fn held_wall(wall_ms: u64) -> (r: u64)
    ensures
        r == Hlc::held(wall_ms as int),
{
    if wall_ms < WALL_LIMIT_MS {
        wall_ms
    } else {
        WALL_LIMIT_MS - 1
    }
}

/// A packed clock gives back what was packed, the wall time as far as it fits.
pub proof fn law_clock_packs_and_unpacks(wall_ms: u64, counter: u16, clock: Hlc)
    requires
        clock.0 == Hlc::packed(wall_ms as int, counter as int),
    ensures
        clock.wall() == Hlc::held(wall_ms as int),
        wall_ms < WALL_LIMIT_MS ==> clock.wall() == wall_ms,
        clock.count() == counter,
{
}

/// Clocks order by wall time, and by counter within a millisecond.
pub proof fn law_clocks_order_by_wall_then_counter(a: Hlc, b: Hlc)
    ensures
        a.0 < b.0 <==> (a.wall() < b.wall() || a.wall() == b.wall() && a.count() < b.count()),
{
}

/// A tick moves a clock forward whatever the wall clock does, until the clock is
/// at its end.
pub proof fn law_tick_never_goes_back(clock: Hlc, wall_ms: int)
    ensures
        clock.ticked(wall_ms) >= clock.0,
        clock.0 < u64::MAX ==> clock.ticked(wall_ms) > clock.0,
{
}

/// What is stamped after observing a peer sorts after what was observed, and
/// after everything before.
pub proof fn law_observing_sorts_after(mine: Hlc, theirs: Hlc, wall_ms: int)
    ensures
        mine.observed(theirs, wall_ms) >= mine.0,
        mine.observed(theirs, wall_ms) >= theirs.0,
        mine.0 < u64::MAX && theirs.0 < u64::MAX ==> mine.observed(theirs, wall_ms) > mine.0
            && mine.observed(theirs, wall_ms) > theirs.0,
{
}

/// The `n` lowest bytes of a number, least significant first.
pub open spec fn little_endian(v: nat, n: nat) -> Seq<u8>
    decreases n,
{
    if n == 0 {
        Seq::empty()
    } else {
        seq![(v % 256) as u8] + little_endian(v / 256, (n - 1) as nat)
    }
}

proof fn lemma_little_endian(a: nat, b: nat, n: nat)
    ensures
        little_endian(a, n).len() == n,
    decreases n,
{
    if n > 0 {
        lemma_little_endian(a / 256, b / 256, (n - 1) as nat);
    }
}

/// Two numbers that fit in `n` bytes and have the same bytes are one number.
proof fn lemma_little_endian_injective(a: nat, b: nat, n: nat, space: nat)
    requires
        little_endian(a, n) == little_endian(b, n),
        space == crate::uuid::byte_space(n),
        a < space,
        b < space,
    ensures
        a == b,
    decreases n,
{
    if n > 0 {
        let (x, y) = (little_endian(a, n), little_endian(b, n));
        assert(x[0] == y[0]);
        assert(x.skip(1) =~= little_endian(a / 256, (n - 1) as nat));
        assert(y.skip(1) =~= little_endian(b / 256, (n - 1) as nat));
        lemma_little_endian_injective(a / 256, b / 256, (n - 1) as nat, space / 256);
    }
}

/// A replicated record.
///
/// The body is opaque here. Replication only needs identity, ordering,
/// authorship and integrity, which is what lets a new record type replicate with
/// no change to this module.
#[derive(Clone, PartialEq, Eq, Debug)]
pub struct Record {
    pub id: Uuid,
    pub kind: RecordType,
    pub hlc: Hlc,
    /// Who signed it: a controller, or the device itself for a device record.
    pub author: Uuid,
    pub body: Vec<u8>,
    pub signature: [u8; SIGNATURE_LEN],
}

/// A record as plain data.
#[verifier::ext_equal]
pub ghost struct RecordModel {
    pub id: Uuid,
    pub kind: RecordType,
    pub hlc: Hlc,
    pub author: Uuid,
    pub body: Seq<u8>,
    pub signature: [u8; 64],
}

impl View for Record {
    type V = RecordModel;

    open spec fn view(&self) -> RecordModel {
        RecordModel {
            id: self.id,
            kind: self.kind,
            hlc: self.hlc,
            author: self.author,
            body: self.body@,
            signature: self.signature,
        }
    }
}

impl RecordModel {
    /// The bytes a signature covers, in order: identity, type, clock, author,
    /// body.
    pub open spec fn preimage(self) -> Seq<u8> {
        self.id.0@.push(self.kind.code()) + little_endian(self.hlc.0 as nat, 8) + self.author.0@
            + self.body
    }

    /// Later wins; at the same instant, the higher author does.
    pub open spec fn newer_than(self, other: RecordModel) -> bool {
        self.hlc.0 > other.hlc.0 || self.hlc.0 == other.hlc.0 && self.author.key()
            > other.author.key()
    }
}

impl Record {
    /// The bytes a signature covers: `id ‖ kind ‖ hlc ‖ author ‖ body`.
    ///
    /// The single definition. A signer and a verifier that disagreed about this
    /// would reject every record while each believed the other was at fault.
    pub fn signed_bytes(&self) -> (out: Vec<u8>)
        ensures
            out@ == self@.preimage(),
    {
        let mut out: Vec<u8> = Vec::new();
        append(&mut out, self.id.as_bytes().as_slice());
        out.push(self.kind.to_u8());
        append_clock(&mut out, self.hlc);
        append(&mut out, self.author.as_bytes().as_slice());
        append(&mut out, self.body.as_slice());
        assert(out@ =~= self@.preimage());
        out
    }

    /// Whether this record supersedes `other`.
    ///
    /// Clock first, then author as a tiebreak, so that two keepers handed the
    /// same pair reach the same answer.
    pub fn supersedes(&self, other: &Record) -> (r: bool)
        ensures
            r == self@.newer_than(other@),
    {
        if self.hlc.0 > other.hlc.0 {
            true
        } else if self.hlc.0 < other.hlc.0 {
            false
        } else {
            other.author.precedes(&self.author)
        }
    }

    fn duplicate(&self) -> (r: Record)
        ensures
            r@ == self@,
    {
        let mut body: Vec<u8> = Vec::new();
        append(&mut body, self.body.as_slice());
        assert(body@ =~= self.body@);
        Record {
            id: self.id,
            kind: self.kind,
            hlc: self.hlc,
            author: self.author,
            body,
            signature: self.signature,
        }
    }
}

fn append(out: &mut Vec<u8>, bytes: &[u8])
    ensures
        final(out)@ == old(out)@ + bytes@,
{
    let mut i: usize = 0;
    while i < bytes.len()
        invariant
            i <= bytes@.len(),
            out@ == old(out)@ + bytes@.take(i as int),
        decreases bytes@.len() - i,
    {
        out.push(bytes[i]);
        i += 1;
        assert(out@ =~= old(out)@ + bytes@.take(i as int));
    }
    assert(bytes@.take(i as int) =~= bytes@);
}

fn append_clock(out: &mut Vec<u8>, clock: Hlc)
    ensures
        final(out)@ == old(out)@ + little_endian(clock.0 as nat, 8),
{
    let mut left: u64 = clock.0;
    let mut i: usize = 0;
    while i < 8
        invariant
            i <= 8,
            out@ + little_endian(left as nat, (8 - i) as nat) == old(out)@ + little_endian(
                clock.0 as nat,
                8,
            ),
        decreases 8 - i,
    {
        let ghost before = out@;
        let ghost was = left;
        out.push((left % 256) as u8);
        left = left / 256;
        assert(out@ + little_endian(left as nat, (7 - i) as nat) =~= before + little_endian(
            was as nat,
            (8 - i) as nat,
        ));
        i += 1;
    }
    assert(out@ + little_endian(left as nat, 0) =~= out@);
}

/// Newer is a strict order, and two records neither of which is newer share
/// their clock and their author.
pub proof fn law_newer_is_an_order(a: RecordModel, b: RecordModel, c: RecordModel)
    ensures
        !a.newer_than(a),
        a.newer_than(b) ==> !b.newer_than(a),
        a.newer_than(b) && b.newer_than(c) ==> a.newer_than(c),
        !a.newer_than(b) && !b.newer_than(a) ==> a.hlc == b.hlc && a.author == b.author,
{
    if a.author.key() == b.author.key() {
        lemma_key_injective(a.author, b.author);
    }
}

/// A signature covers everything but itself: two records with the same signed
/// bytes say the same thing.
pub proof fn law_signed_bytes_say_everything(a: RecordModel, b: RecordModel)
    requires
        a.preimage() == b.preimage(),
    ensures
        a == (RecordModel { signature: a.signature, ..b }),
{
    let (x, y) = (a.preimage(), b.preimage());
    lemma_little_endian(a.hlc.0 as nat, a.hlc.0 as nat, 8);
    lemma_little_endian(b.hlc.0 as nat, b.hlc.0 as nat, 8);
    assert(x.subrange(0, 16) =~= a.id.0@);
    assert(y.subrange(0, 16) =~= b.id.0@);
    lemma_key_injective(a.id, b.id);
    assert(x[16] == a.kind.code());
    assert(y[16] == b.kind.code());
    assert(x.subrange(17, 25) =~= little_endian(a.hlc.0 as nat, 8));
    assert(y.subrange(17, 25) =~= little_endian(b.hlc.0 as nat, 8));
    assert(crate::uuid::byte_space(8) == 0x1_0000_0000_0000_0000) by {
        reveal_with_fuel(crate::uuid::byte_space, 9);
    }
    lemma_little_endian_injective(
        a.hlc.0 as nat,
        b.hlc.0 as nat,
        8,
        0x1_0000_0000_0000_0000,
    );
    assert(x.subrange(25, 41) =~= a.author.0@);
    assert(y.subrange(25, 41) =~= b.author.0@);
    lemma_key_injective(a.author, b.author);
    assert(x.skip(41) =~= a.body);
    assert(y.skip(41) =~= b.body);
    assert(a =~= (RecordModel { signature: a.signature, ..b }));
}

/// Why a record was refused.
#[derive(Clone, Copy, PartialEq, Eq, Debug, Structural)]
pub enum RejectReason {
    /// The signature did not verify.
    BadSignature,
    /// The author is not a currently-authorised controller.
    UnknownAuthor,
    /// A device record signed by some other device.
    NotItsOwnDeviceRecord,
    /// A controller key signed a record that only a device may sign, or the reverse.
    WrongAuthority,
    /// Older than what is already held.
    Superseded,
}

/// Who may sign what.
///
/// Held separately from the store, so revoking a key is one call rather than a
/// sweep.
#[derive(Clone, Debug)]
pub struct Authority {
    controllers: Table<Uuid, [u8; PUBLIC_KEY_LEN]>,
    devices: Table<Uuid, [u8; PUBLIC_KEY_LEN]>,
}

/// Who may sign what, as plain data.
#[verifier::ext_equal]
pub ghost struct AuthorityModel {
    pub controllers: Map<Uuid, [u8; 32]>,
    pub devices: Map<Uuid, [u8; 32]>,
}

impl AuthorityModel {
    /// The key that may have signed a record, and nothing else.
    pub open spec fn key_for(self, record: RecordModel) -> Result<[u8; 32], RejectReason> {
        if record.kind is Device {
            if self.controllers.dom().contains(record.author) && !self.devices.dom().contains(
                record.author,
            ) {
                Err(RejectReason::WrongAuthority)
            } else if record.author != record.id {
                Err(RejectReason::NotItsOwnDeviceRecord)
            } else if self.devices.dom().contains(record.author) {
                Ok(self.devices[record.author])
            } else {
                Err(RejectReason::UnknownAuthor)
            }
        } else if self.controllers.dom().contains(record.author) {
            Ok(self.controllers[record.author])
        } else if self.devices.dom().contains(record.author) {
            Err(RejectReason::WrongAuthority)
        } else {
            Err(RejectReason::UnknownAuthor)
        }
    }
}

impl View for Authority {
    type V = AuthorityModel;

    closed spec fn view(&self) -> AuthorityModel {
        AuthorityModel { controllers: self.controllers@, devices: self.devices@ }
    }
}

impl Default for Authority {
    fn default() -> (a: Authority)
        ensures
            a.wf(),
            a@.controllers == Map::<Uuid, [u8; 32]>::empty(),
            a@.devices == Map::<Uuid, [u8; 32]>::empty(),
    {
        Authority { controllers: Table::new(), devices: Table::new() }
    }
}

impl Authority {
    pub closed spec fn wf(&self) -> bool {
        self.controllers.wf() && self.devices.wf()
    }

    pub fn new() -> (a: Authority)
        ensures
            a.wf(),
            a@.controllers == Map::<Uuid, [u8; 32]>::empty(),
            a@.devices == Map::<Uuid, [u8; 32]>::empty(),
    {
        Authority::default()
    }

    pub fn authorise_controller(&mut self, id: Uuid, key: [u8; PUBLIC_KEY_LEN])
        requires
            old(self).wf(),
        ensures
            final(self).wf(),
            final(self)@ == (AuthorityModel {
                controllers: old(self)@.controllers.insert(id, key),
                ..old(self)@
            }),
    {
        self.controllers.insert(id, key);
    }

    /// Revoke a controller, and say whether there was one.
    ///
    /// Revocation replicates as a signed key record like any other state; this
    /// is what applying one does locally.
    pub fn revoke_controller(&mut self, id: Uuid) -> (r: bool)
        requires
            old(self).wf(),
        ensures
            final(self).wf(),
            r == old(self)@.controllers.dom().contains(id),
            final(self)@ == (AuthorityModel {
                controllers: old(self)@.controllers.remove(id),
                ..old(self)@
            }),
    {
        self.controllers.remove(id).is_some()
    }

    /// Register a device's identity key, learned at pairing.
    pub fn register_device(&mut self, id: Uuid, key: [u8; PUBLIC_KEY_LEN])
        requires
            old(self).wf(),
        ensures
            final(self).wf(),
            final(self)@ == (AuthorityModel {
                devices: old(self)@.devices.insert(id, key),
                ..old(self)@
            }),
    {
        self.devices.insert(id, key);
    }

    pub fn is_controller(&self, id: Uuid) -> (r: bool)
        requires
            self.wf(),
        ensures
            r == self@.controllers.dom().contains(id),
    {
        self.controllers.contains(id)
    }

    /// The key that may have signed `record`, and nothing else.
    pub fn key_for(&self, record: &Record) -> (r: Result<&[u8; PUBLIC_KEY_LEN], RejectReason>)
        requires
            self.wf(),
        ensures
            match r {
                Ok(key) => self@.key_for(record@) == Ok::<[u8; 32], RejectReason>(*key),
                Err(e) => self@.key_for(record@) == Err::<[u8; 32], RejectReason>(e),
            },
    {
        if record.kind.is_self_signed() {
            // A controller has no say about what a device is.
            if self.controllers.contains(record.author) && !self.devices.contains(record.author) {
                return Err(RejectReason::WrongAuthority);
            }
            // Accepting one signed by a different device would let any paired
            // node rewrite another's coordinates and capabilities.
            if record.author != record.id {
                return Err(RejectReason::NotItsOwnDeviceRecord);
            }
            return match self.devices.get(record.author) {
                Some(key) => Ok(key),
                None => Err(RejectReason::UnknownAuthor),
            };
        }
        if self.devices.contains(record.author) && !self.controllers.contains(record.author) {
            // Distinguished from an unknown author because the fix is different:
            // this one is a tampered node, not a missing pairing.
            return Err(RejectReason::WrongAuthority);
        }
        match self.controllers.get(record.author) {
            Some(key) => Ok(key),
            None => Err(RejectReason::UnknownAuthor),
        }
    }
}

/// A device speaks for itself and for nothing else: its key signs its own device
/// record, never another device's, and nothing of any other type. A controller does
/// not speak for a device, and either is told so when it tries the other's part.
pub proof fn law_a_device_speaks_only_for_itself(authority: AuthorityModel, record: RecordModel)
    ensures
        record.kind is Device && authority.devices.dom().contains(record.author) && record.author
            != record.id ==> authority.key_for(record) == Err::<[u8; 32], RejectReason>(
            RejectReason::NotItsOwnDeviceRecord,
        ),
        ({
            let device = authority.devices.dom().contains(record.author);
            let controller = authority.controllers.dom().contains(record.author);
            if record.kind is Device {
                controller && !device
            } else {
                device && !controller
            }
        }) <==> authority.key_for(record) == Err::<[u8; 32], RejectReason>(
            RejectReason::WrongAuthority,
        ),
        !(record.kind is Device) && !authority.controllers.dom().contains(record.author)
            ==> authority.key_for(record) is Err,
        authority.key_for(record) matches Ok(key) ==> if record.kind is Device {
            record.author == record.id && authority.devices.contains_pair(record.id, key)
        } else {
            authority.controllers.contains_pair(record.author, key)
        },
{
}

/// A revoked controller signs nothing any more.
pub proof fn law_revocation_takes_hold(
    authority: AuthorityModel,
    id: Uuid,
    record: RecordModel,
)
    requires
        record.author == id,
        !(record.kind is Device),
    ensures
        (AuthorityModel { controllers: authority.controllers.remove(id), ..authority }).key_for(
            record,
        ) is Err,
{
}

/// One entry of a gossip digest.
#[derive(Clone, Copy, PartialEq, Eq, Debug)]
pub struct DigestEntry {
    pub id: Uuid,
    pub hlc: Hlc,
}

/// What a gossip round should do, having compared two digests.
///
/// Both directions from one comparison, because a round is symmetric: whichever
/// node sent the digest, both ends learn the same set of differences and either
/// can act.
#[derive(Clone, Default, PartialEq, Eq, Debug)]
pub struct Reconcile {
    /// Records to ask the peer for.
    pub pull: Vec<Uuid>,
    /// Records to send the peer.
    pub push: Vec<Uuid>,
}

impl Reconcile {
    /// Whether the two nodes already agree: the overwhelmingly common outcome.
    pub fn is_empty(&self) -> (r: bool)
        ensures
            r == (self.pull@.len() == 0 && self.push@.len() == 0),
    {
        self.pull.len() == 0 && self.push.len() == 0
    }
}

/// Whether `verified` is an answer that a signature check may give of a key, a
/// message and a signature.
pub open spec fn may_say<F: Fn(&[u8; 32], &[u8], &[u8; 64]) -> bool>(
    verifier: F,
    key: [u8; 32],
    message: Seq<u8>,
    signature: [u8; 64],
    verified: bool,
) -> bool {
    exists|bytes: &[u8]|
        bytes@ == message && #[trigger] call_ensures(verifier, (&key, bytes, &signature), verified)
}

/// The replicated store.
#[derive(Clone, Debug)]
pub struct Store {
    records: Table<Uuid, Record>,
    /// Highest clock this node has seen from anywhere, for stamping local writes.
    clock: Hlc,
}

/// The replicated store as plain data.
#[verifier::ext_equal]
pub ghost struct StoreModel {
    pub records: Map<Uuid, RecordModel>,
    pub clock: Hlc,
}

impl StoreModel {
    pub open spec fn empty() -> StoreModel {
        StoreModel { records: Map::empty(), clock: Hlc(0) }
    }

    /// Every record is kept under its own identity.
    pub open spec fn valid(self) -> bool {
        forall|id: Uuid| #[trigger]
            self.records.dom().contains(id) ==> self.records[id].id == id
    }

    /// Whether what is held is at least as new as `record`.
    pub open spec fn outdates(self, record: RecordModel) -> bool {
        self.records.dom().contains(record.id) && !record.newer_than(self.records[record.id])
    }

    /// What can be said of a record before its signature is checked: the key to
    /// check it with, or why there is no need to.
    pub open spec fn screened(self, authority: AuthorityModel, record: RecordModel) -> Result<
        [u8; 32],
        RejectReason,
    > {
        if self.outdates(record) {
            Err(RejectReason::Superseded)
        } else {
            authority.key_for(record)
        }
    }

    /// The store once it gave out a timestamp.
    pub open spec fn stamped(self, wall_ms: int) -> StoreModel {
        StoreModel { clock: Hlc(self.clock.ticked(wall_ms) as u64), ..self }
    }

    /// The store with a record that was found good.
    pub open spec fn with(self, record: RecordModel, wall_ms: int) -> StoreModel {
        StoreModel {
            records: self.records.insert(record.id, record),
            clock: Hlc(self.clock.observed(record.hlc, wall_ms) as u64),
        }
    }

    /// What becomes of a record, given what its signature check says.
    pub open spec fn offered(
        self,
        authority: AuthorityModel,
        record: RecordModel,
        verified: bool,
        wall_ms: int,
    ) -> (StoreModel, Result<(), RejectReason>) {
        match self.screened(authority, record) {
            Err(e) => (self, Err(e)),
            Ok(_) => if verified {
                (self.with(record, wall_ms), Ok(()))
            } else {
                (self, Err(RejectReason::BadSignature))
            },
        }
    }

    /// Whether an entry of a peer's digest names something newer than what is
    /// held.
    pub open spec fn lacks(self, entry: DigestEntry) -> bool {
        self.records.dom().contains(entry.id) ==> entry.hlc.0 > self.records[entry.id].hlc.0
    }

    /// What to pull from a peer with this digest.
    pub open spec fn to_pull(self, theirs: Seq<DigestEntry>) -> Set<Uuid> {
        Set::new(
            |id: Uuid|
                exists|i: int|
                    0 <= i < theirs.len() && (#[trigger] theirs[i]).id == id && self.lacks(
                        theirs[i],
                    ),
        )
    }

    /// What to push to a peer with this digest: what is held and is newer than
    /// every copy the peer lists.
    pub open spec fn to_push(self, theirs: Seq<DigestEntry>) -> Set<Uuid> {
        Set::new(
            |id: Uuid|
                self.records.dom().contains(id) && forall|i: int|
                    0 <= i < theirs.len() && (#[trigger] theirs[i]).id == id
                        ==> self.records[id].hlc.0 > theirs[i].hlc.0,
        )
    }

    /// Whether `entries` is this store's digest: every record once, in order of
    /// identity, with its clock.
    pub open spec fn is_digest(self, entries: Seq<DigestEntry>) -> bool {
        &&& lists(entries.map_values(|e: DigestEntry| e.id), self.records.dom())
        &&& forall|i: int|
            0 <= i < entries.len() ==> (#[trigger] entries[i]).hlc
                == self.records[entries[i].id].hlc
    }

    /// The records that answer a request, in the order asked for, without those
    /// that are not held.
    pub open spec fn answer(self, ids: Seq<Uuid>) -> Seq<RecordModel>
        decreases ids.len(),
    {
        if ids.len() == 0 {
            Seq::empty()
        } else {
            let earlier = self.answer(ids.drop_last());
            if self.records.dom().contains(ids.last()) {
                earlier.push(self.records[ids.last()])
            } else {
                earlier
            }
        }
    }
}

impl View for Store {
    type V = StoreModel;

    closed spec fn view(&self) -> StoreModel {
        StoreModel {
            records: self.records@.map_values(|r: Record| r@),
            clock: self.clock,
        }
    }
}

impl Default for Store {
    fn default() -> (s: Store)
        ensures
            s.wf(),
            s@ == StoreModel::empty(),
    {
        let s = Store { records: Table::new(), clock: Hlc(0) };
        assert(s@ =~= StoreModel::empty());
        s
    }
}

impl Store {
    pub closed spec fn wf(&self) -> bool {
        &&& self.records.wf()
        &&& self@.valid()
    }

    pub fn new() -> (s: Store)
        ensures
            s.wf(),
            s@ == StoreModel::empty(),
    {
        Store::default()
    }

    /// How many records are held.
    pub fn len(&self) -> (n: usize)
        requires
            self.wf(),
        ensures
            n == self@.records.dom().len(),
            self@.records.dom().finite(),
    {
        proof {
            self.records.keys_list_the_domain();
            crate::table::lemma_listing_counts(self.records.keys(), self.records@.dom());
            assert(self@.records.dom() =~= self.records@.dom());
        }
        self.records.len()
    }

    pub fn is_empty(&self) -> (r: bool)
        requires
            self.wf(),
        ensures
            r == (self@.records.dom() == Set::<Uuid>::empty()),
    {
        proof {
            self.records.keys_list_the_domain();
            assert(self@.records.dom() =~= self.records@.dom());
            if self.records.keys().len() == 0 {
                assert(self@.records.dom() =~= Set::<Uuid>::empty()) by {
                    assert forall|id: Uuid| !self.records@.dom().contains(id) by {
                        assert(!self.records.keys().contains(id));
                    }
                }
            } else {
                assert(self.records.keys().contains(self.records.keys()[0]));
            }
        }
        self.records.len() == 0
    }

    pub fn get(&self, id: Uuid) -> (r: Option<&Record>)
        requires
            self.wf(),
        ensures
            match r {
                Some(record) => self@.records.contains_pair(id, record@),
                None => !self@.records.dom().contains(id),
            },
    {
        self.records.get(id)
    }

    pub fn clock(&self) -> (r: Hlc)
        ensures
            r == self@.clock,
    {
        self.clock
    }

    /// A timestamp for a record authored here.
    pub fn stamp(&mut self, wall_ms: u64) -> (r: Hlc)
        requires
            old(self).wf(),
        ensures
            final(self).wf(),
            r.0 == old(self)@.clock.ticked(wall_ms as int),
            final(self)@ == (StoreModel { clock: r, ..old(self)@ }),
            final(self)@ == old(self)@.stamped(wall_ms as int),
    {
        self.clock = self.clock.tick(wall_ms);
        self.clock
    }

    /// Whether a record's signature needs checking, and with which key.
    ///
    /// **Verification only happens when something actually changes.** A record
    /// that is no newer than what is held is refused here, before any signature
    /// is looked at.
    pub fn screen<'a>(&self, record: &Record, authority: &'a Authority) -> (r: Result<
        &'a [u8; PUBLIC_KEY_LEN],
        RejectReason,
    >)
        requires
            self.wf(),
            authority.wf(),
        ensures
            match r {
                Ok(key) => self@.screened(authority@, record@) == Ok::<[u8; 32], RejectReason>(
                    *key,
                ),
                Err(e) => self@.screened(authority@, record@) == Err::<[u8; 32], RejectReason>(e),
            },
    {
        if let Some(held) = self.records.get(record.id) {
            if !record.supersedes(held) {
                return Err(RejectReason::Superseded);
            }
        }
        authority.key_for(record)
    }

    /// Take a record whose signature was checked with the key that
    /// [`Store::screen`] gave: `verified` is what the check said.
    pub fn settle(
        &mut self,
        record: Record,
        authority: &Authority,
        verified: bool,
        wall_ms: u64,
    ) -> (r: Result<(), RejectReason>)
        requires
            old(self).wf(),
            authority.wf(),
        ensures
            final(self).wf(),
            (final(self)@, r) == old(self)@.offered(
                authority@,
                record@,
                verified,
                wall_ms as int,
            ),
    {
        match self.screen(&record, authority) {
            Err(e) => {
                return Err(e);
            },
            Ok(_key) => {},
        }
        if !verified {
            return Err(RejectReason::BadSignature);
        }
        let ghost was = self@;
        let ghost model = record@;
        // Only after it is known good: observing the clock of a record that
        // turned out to be forged would let anyone push this node's clock
        // forward.
        self.clock = self.clock.observe(record.hlc, wall_ms);
        let id = record.id;
        self.records.insert(id, record);
        proof {
            assert(self@.records =~= was.records.insert(id, model));
            assert(self@.clock == Hlc(was.clock.observed(model.hlc, wall_ms as int) as u64));
            assert(self@ =~= was.with(model, wall_ms as int));
        }
        Ok(())
    }

    /// Accept a record, verifying it first.
    ///
    /// `verifier` is asked about the key that may have signed the record, the
    /// bytes the signature covers and the signature, and about nothing when the
    /// record is refused before that.
    pub fn accept<F: Fn(&[u8; PUBLIC_KEY_LEN], &[u8], &[u8; SIGNATURE_LEN]) -> bool>(
        &mut self,
        record: Record,
        authority: &Authority,
        verifier: &F,
        wall_ms: u64,
    ) -> (r: Result<(), RejectReason>)
        requires
            old(self).wf(),
            authority.wf(),
            forall|key: &[u8; 32], message: &[u8], signature: &[u8; 64]| #[trigger]
                call_requires(*verifier, (key, message, signature)),
        ensures
            final(self).wf(),
            match old(self)@.screened(authority@, record@) {
                Err(e) => final(self)@ == old(self)@ && r == Err::<(), RejectReason>(e),
                Ok(key) => exists|verified: bool|
                    {
                        &&& #[trigger] may_say(
                            *verifier,
                            key,
                            record@.preimage(),
                            record@.signature,
                            verified,
                        )
                        &&& (final(self)@, r) == old(self)@.offered(
                            authority@,
                            record@,
                            verified,
                            wall_ms as int,
                        )
                    },
            },
    {
        let key = match self.screen(&record, authority) {
            Err(e) => {
                return Err(e);
            },
            Ok(key) => key,
        };
        let message = record.signed_bytes();
        let bytes = message.as_slice();
        let verified: bool = verifier(key, bytes, &record.signature);
        let ghost (screened, model) = (self@.screened(authority@, record@)->Ok_0, record@);
        assert(may_say(*verifier, screened, model.preimage(), model.signature, verified));
        let out = self.settle(record, authority, verified, wall_ms);
        assert(may_say(*verifier, screened, model.preimage(), model.signature, verified) && (
            self@,
            out,
        ) == old(self)@.offered(authority@, model, verified, wall_ms as int));
        out
    }

    /// A compact list of what this node holds, for gossip.
    ///
    /// Ordered by identity so two nodes produce comparable digests.
    pub fn digest(&self) -> (out: Vec<DigestEntry>)
        requires
            self.wf(),
        ensures
            self@.is_digest(out@),
    {
        let mut out: Vec<DigestEntry> = Vec::new();
        let mut i: usize = 0;
        let ghost keys = self.records.keys();
        while i < self.records.len()
            invariant
                self.wf(),
                keys == self.records.keys(),
                i <= keys.len(),
                out@.len() == i,
                forall|k: int|
                    0 <= k < i ==> (#[trigger] out@[k]).id == keys[k] && out@[k].hlc
                        == self@.records[keys[k]].hlc,
            decreases keys.len() - i,
        {
            let record = self.records.value_at(i);
            proof {
                assert(self@.records.dom().contains(keys[i as int]));
            }
            out.push(DigestEntry { id: record.id, hlc: record.hlc });
            i += 1;
        }
        proof {
            assert(out@.map_values(|e: DigestEntry| e.id) =~= keys);
            self.records.keys_list_the_domain();
            assert(self@.records.dom() =~= self.records@.dom());
        }
        out
    }

    /// Compare this store against a peer's digest, in both directions.
    ///
    /// A peer that is *behind* will never ask, so without the push half a record
    /// reaches a stale node only when that node happens to gossip first.
    ///
    /// Ordered by identity in both directions, so two nodes handed the same pair
    /// of digests produce the same plan. An equal clock means agreement, and
    /// nothing is transferred.
    pub fn reconcile(&self, theirs: &[DigestEntry]) -> (r: Reconcile)
        requires
            self.wf(),
        ensures
            lists(r.pull@, self@.to_pull(theirs@)),
            lists(r.push@, self@.to_push(theirs@)),
    {
        let mut pull: Table<Uuid, ()> = Table::new();
        // The newest copy of each record that the peer lists. A duplicated id is
        // not conforming; keeping the newer is the reading that cannot lose an
        // edit.
        let mut peer: Table<Uuid, Hlc> = Table::new();
        let mut i: usize = 0;
        while i < theirs.len()
            invariant
                self.wf(),
                pull.wf(),
                peer.wf(),
                i <= theirs@.len(),
                forall|id: Uuid| #[trigger]
                    pull@.dom().contains(id) <==> self@.to_pull(theirs@.take(i as int)).contains(
                        id,
                    ),
                forall|k: int|
                    0 <= k < i ==> peer@.dom().contains((#[trigger] theirs@[k]).id)
                        && peer@[theirs@[k].id].0 >= theirs@[k].hlc.0,
                forall|id: Uuid| #[trigger]
                    peer@.dom().contains(id) ==> exists|k: int|
                        0 <= k < i && #[trigger] theirs@[k] == (DigestEntry { id, hlc: peer@[id] }),
            decreases theirs@.len() - i,
        {
            let entry = theirs[i];
            let ghost (pulled, newest) = (pull@, peer@);
            proof {
                lemma_to_pull_grows(self@, theirs@, i as int);
            }
            if self.wants(&entry) {
                pull.insert(entry.id, ());
            }
            let newer: bool = match peer.get(entry.id) {
                Some(known) => entry.hlc.0 > known.0,
                None => true,
            };
            if newer {
                peer.insert(entry.id, entry.hlc);
            }
            proof {
                assert forall|id: Uuid| #[trigger] peer@.dom().contains(id) implies exists|k: int|
                    0 <= k < i + 1 && #[trigger] theirs@[k] == (DigestEntry {
                        id,
                        hlc: peer@[id],
                    }) by {
                    if newer && id == entry.id {
                        assert(theirs@[i as int] == (DigestEntry { id, hlc: peer@[id] }));
                    } else {
                        assert(newest.dom().contains(id));
                        let k = choose|k: int|
                            0 <= k < i && #[trigger] theirs@[k] == (DigestEntry {
                                id,
                                hlc: newest[id],
                            });
                        assert(theirs@[k] == (DigestEntry { id, hlc: peer@[id] }));
                    }
                }
            }
            i += 1;
        }
        proof {
            assert(theirs@.take(i as int) =~= theirs@);
            pull.keys_list_the_domain();
            assert(pull@.dom() =~= self@.to_pull(theirs@));
        }
        let push = self.ahead_of(&peer, Ghost(theirs@));
        Reconcile { pull: pull.key_list(), push }
    }

    /// The records that are newer than what `peer` says of them.
    fn ahead_of(&self, peer: &Table<Uuid, Hlc>, Ghost(theirs): Ghost<Seq<DigestEntry>>) -> (push:
        Vec<Uuid>)
        requires
            self.wf(),
            peer.wf(),
            forall|k: int|
                0 <= k < theirs.len() ==> peer@.dom().contains((#[trigger] theirs[k]).id)
                    && peer@[theirs[k].id].0 >= theirs[k].hlc.0,
            forall|id: Uuid| #[trigger]
                peer@.dom().contains(id) ==> exists|k: int|
                    0 <= k < theirs.len() && #[trigger] theirs[k] == (DigestEntry {
                        id,
                        hlc: peer@[id],
                    }),
        ensures
            lists(push@, self@.to_push(theirs)),
    {
        let mut push: Vec<Uuid> = Vec::new();
        let mut i: usize = 0;
        let ghost keys = self.records.keys();
        proof {
            self.records.keys_list_the_domain();
            assert(self@.records.dom() =~= self.records@.dom());
        }
        while i < self.records.len()
            invariant
                self.wf(),
                peer.wf(),
                keys == self.records.keys(),
                lists(keys, self@.records.dom()),
                i <= keys.len(),
                forall|k: int|
                    0 <= k < theirs.len() ==> peer@.dom().contains((#[trigger] theirs[k]).id)
                        && peer@[theirs[k].id].0 >= theirs[k].hlc.0,
                forall|id: Uuid| #[trigger]
                    peer@.dom().contains(id) ==> exists|k: int|
                        0 <= k < theirs.len() && #[trigger] theirs[k] == (DigestEntry {
                            id,
                            hlc: peer@[id],
                        }),
                lists(
                    push@,
                    self@.to_push(theirs).filter(|id: Uuid| keys.take(i as int).contains(id)),
                ),
                i < keys.len() ==> forall|k: int|
                    0 <= k < push@.len() ==> (#[trigger] push@[k]).key() < keys[i as int].key(),
            decreases keys.len() - i,
        {
            let id = self.records.key_at(i);
            let record = self.records.value_at(i);
            assert(keys.contains(keys[i as int]));
            assert(self@.records.dom().contains(id));
            let ours: bool = match peer.get(id) {
                Some(known) => record.hlc.0 > known.0,
                None => true,
            };
            let ghost before = push@;
            assert(ours == self@.to_push(theirs).contains(id)) by {
                if peer@.dom().contains(id) {
                    let k = choose|k: int|
                        0 <= k < theirs.len() && #[trigger] theirs[k] == (DigestEntry {
                            id,
                            hlc: peer@[id],
                        });
                    assert(theirs[k].id == id);
                }
            }
            if ours {
                push.push(id);
            }
            proof {
                let (m, n) = (
                    self@.to_push(theirs).filter(|x: Uuid| keys.take(i as int).contains(x)),
                    self@.to_push(theirs).filter(|x: Uuid| keys.take(i + 1).contains(x)),
                );
                assert forall|x: Uuid| #[trigger] push@.contains(x) <==> n.contains(x) by {
                    assert(before.contains(x) <==> m.contains(x));
                    if keys.take(i + 1).contains(x) {
                        let k = keys.take(i + 1).index_of(x);
                        if k < i {
                            assert(keys.take(i as int)[k] == x);
                        }
                    }
                    if keys.take(i as int).contains(x) {
                        let k = keys.take(i as int).index_of(x);
                        assert(keys.take(i + 1)[k] == x);
                    }
                    assert(keys.take(i + 1)[i as int] == id);
                    if ours {
                        assert(push@ == before.push(id));
                        assert(push@[before.len() as int] == id);
                        if before.contains(x) {
                            let k = choose|k: int| 0 <= k < before.len() && before[k] == x;
                            assert(push@[k] == x);
                        }
                        if push@.contains(x) && x != id {
                            let k = choose|k: int| 0 <= k < push@.len() && push@[k] == x;
                            assert(before[k] == x);
                        }
                    }
                }
                if i + 1 < keys.len() {
                    assert(keys[i as int].place() < keys[i + 1].place());
                }
            }
            i += 1;
        }
        proof {
            let m = self@.to_push(theirs).filter(|x: Uuid| keys.take(i as int).contains(x));
            assert(keys.take(i as int) =~= keys);
            assert(m =~= self@.to_push(theirs)) by {
                assert forall|x: Uuid| self@.to_push(theirs).contains(x) implies #[trigger] m.contains(
                    x,
                ) by {
                    assert(keys.contains(x));
                }
            }
        }
        push
    }

    fn wants(&self, entry: &DigestEntry) -> (r: bool)
        requires
            self.wf(),
        ensures
            r == self@.lacks(*entry),
    {
        match self.records.get(entry.id) {
            Some(held) => entry.hlc.0 > held.hlc.0,
            None => true,
        }
    }

    /// Which of a peer's records this node wants, given their digest: anything
    /// newer than what is held, and anything not held at all.
    pub fn wanted(&self, theirs: &[DigestEntry]) -> (out: Vec<Uuid>)
        requires
            self.wf(),
        ensures
            out@ == theirs@.filter(|e: DigestEntry| self@.lacks(e)).map_values(
                |e: DigestEntry| e.id,
            ),
    {
        let mut out: Vec<Uuid> = Vec::new();
        let mut i: usize = 0;
        let ghost lacking = |e: DigestEntry| self@.lacks(e);
        let ghost name = |e: DigestEntry| e.id;
        proof {
            reveal(Seq::filter);
            assert(out@ =~= theirs@.take(0).filter(lacking).map_values(name));
        }
        while i < theirs.len()
            invariant
                self.wf(),
                lacking == (|e: DigestEntry| self@.lacks(e)),
                name == (|e: DigestEntry| e.id),
                i <= theirs@.len(),
                out@ == theirs@.take(i as int).filter(lacking).map_values(name),
            decreases theirs@.len() - i,
        {
            let entry = theirs[i];
            proof {
                crate::lists::lemma_filter_take(theirs@, i as int, lacking);
            }
            let ghost before = theirs@.take(i as int).filter(lacking);
            if self.wants(&entry) {
                out.push(entry.id);
                assert(out@ =~= before.push(entry).map_values(name));
            }
            i += 1;
        }
        assert(theirs@.take(i as int) =~= theirs@);
        out
    }

    /// Records to send in answer to a pull.
    ///
    /// Silently skips ids this node does not hold: a peer asking for something
    /// that has since been superseded is normal.
    pub fn collect(&self, ids: &[Uuid]) -> (out: Vec<Record>)
        requires
            self.wf(),
        ensures
            out@.map_values(|r: Record| r@) == self@.answer(ids@),
    {
        let mut out: Vec<Record> = Vec::new();
        let mut i: usize = 0;
        let ghost plain = |r: Record| r@;
        assert(out@.map_values(plain) =~= self@.answer(ids@.take(0)));
        while i < ids.len()
            invariant
                self.wf(),
                plain == (|r: Record| r@),
                i <= ids@.len(),
                out@.map_values(plain) == self@.answer(ids@.take(i as int)),
            decreases ids@.len() - i,
        {
            let ghost before = out@;
            assert(ids@.take(i + 1).drop_last() =~= ids@.take(i as int));
            if let Some(record) = self.records.get(ids[i]) {
                out.push(record.duplicate());
                assert(out@.map_values(plain) =~= before.map_values(plain).push(record@));
            }
            i += 1;
        }
        assert(ids@.take(i as int) =~= ids@);
        out
    }
}

proof fn lemma_to_pull_grows(store: StoreModel, theirs: Seq<DigestEntry>, n: int)
    requires
        0 <= n < theirs.len(),
    ensures
        forall|id: Uuid|
            #![trigger store.to_pull(theirs.take(n + 1)).contains(id)]
            #![trigger store.to_pull(theirs.take(n)).contains(id)]
            store.to_pull(theirs.take(n + 1)).contains(id) <==> (store.to_pull(
                theirs.take(n),
            ).contains(id) || theirs[n].id == id && store.lacks(theirs[n])),
{
    let (a, b) = (theirs.take(n), theirs.take(n + 1));
    assert forall|id: Uuid|
        #![trigger store.to_pull(b).contains(id)]
        #![trigger store.to_pull(a).contains(id)]
        store.to_pull(b).contains(id) <==> (store.to_pull(a).contains(id) || theirs[n].id == id
            && store.lacks(theirs[n])) by {
        if store.to_pull(b).contains(id) {
            let i = choose|i: int|
                0 <= i < b.len() && (#[trigger] b[i]).id == id && store.lacks(b[i]);
            if i < n {
                assert(a[i] == b[i]);
            }
        }
        if store.to_pull(a).contains(id) {
            let i = choose|i: int|
                0 <= i < a.len() && (#[trigger] a[i]).id == id && store.lacks(a[i]);
            assert(b[i] == a[i]);
        }
        assert(b[n] == theirs[n]);
    }
}

/// What holds of every store, whatever was offered to it: every record is kept
/// under its own identity.
pub proof fn law_every_store_is_valid(store: Store)
    requires
        store.wf(),
    ensures
        store@.valid(),
{
}

/// A refused record changes nothing, and what is accepted was newer, was signed
/// by whoever may sign it, and verified.
pub proof fn law_only_good_records_get_in(
    store: StoreModel,
    authority: AuthorityModel,
    record: RecordModel,
    verified: bool,
    wall_ms: int,
)
    ensures
        ({
            let (after, r) = store.offered(authority, record, verified, wall_ms);
            &&& r is Err ==> after == store
            &&& r is Ok <==> verified && authority.key_for(record) is Ok && !store.outdates(record)
            &&& r is Ok ==> after.records == store.records.insert(record.id, record)
        }),
{
}

/// What is held never goes back: a record is only ever replaced by a newer one.
pub proof fn law_held_records_only_get_newer(
    store: StoreModel,
    authority: AuthorityModel,
    record: RecordModel,
    verified: bool,
    wall_ms: int,
    id: Uuid,
)
    requires
        store.records.dom().contains(id),
    ensures
        ({
            let after = store.offered(authority, record, verified, wall_ms).0;
            &&& after.records.dom().contains(id)
            &&& after.records[id] == store.records[id] || after.records[id].newer_than(
                store.records[id],
            )
        }),
{
}

/// Two nodes that are offered the same two records, in either order, end up with
/// the same records.
pub proof fn law_arrival_order_does_not_matter(
    store: StoreModel,
    authority: AuthorityModel,
    a: RecordModel,
    b: RecordModel,
    a_verified: bool,
    b_verified: bool,
    wall_ms: int,
)
    requires
        a.id == b.id ==> a == b || a.newer_than(b) || b.newer_than(a),
        a == b ==> a_verified == b_verified,
    ensures
        store.offered(authority, a, a_verified, wall_ms).0.offered(
            authority,
            b,
            b_verified,
            wall_ms,
        ).0.records == store.offered(authority, b, b_verified, wall_ms).0.offered(
            authority,
            a,
            a_verified,
            wall_ms,
        ).0.records,
{
    let ab = store.offered(authority, a, a_verified, wall_ms).0.offered(
        authority,
        b,
        b_verified,
        wall_ms,
    ).0;
    let ba = store.offered(authority, b, b_verified, wall_ms).0.offered(
        authority,
        a,
        a_verified,
        wall_ms,
    ).0;
    if store.records.dom().contains(a.id) {
        law_newer_is_an_order(a, b, store.records[a.id]);
        law_newer_is_an_order(b, a, store.records[a.id]);
    }
    law_newer_is_an_order(a, b, a);
    assert(ab.records =~= ba.records);
}

/// Whether the clock is past everything held.
pub open spec fn clock_covers(store: StoreModel) -> bool {
    forall|id: Uuid| #[trigger]
        store.records.dom().contains(id) ==> store.records[id].hlc.0 <= store.clock.0
}

/// The clock never goes back, and stays past everything held.
pub proof fn law_clock_covers_what_is_held(
    store: StoreModel,
    authority: AuthorityModel,
    record: RecordModel,
    verified: bool,
    wall_ms: int,
)
    requires
        clock_covers(store),
    ensures
        ({
            let after = store.offered(authority, record, verified, wall_ms).0;
            &&& after.clock.0 >= store.clock.0
            &&& clock_covers(after)
        }),
{
    law_observing_sorts_after(store.clock, record.hlc, wall_ms);
}

/// A record authored here sorts after everything held.
pub proof fn law_local_edits_win(store: StoreModel, wall_ms: int, id: Uuid)
    requires
        clock_covers(store),
        store.clock.0 < u64::MAX,
        store.records.dom().contains(id),
    ensures
        store.clock.ticked(wall_ms) > store.records[id].hlc.0,
{
    law_tick_never_goes_back(store.clock, wall_ms);
}

/// What a digest says of an identity.
proof fn lemma_digest(store: StoreModel, entries: Seq<DigestEntry>)
    requires
        store.is_digest(entries),
    ensures
        forall|i: int|
            0 <= i < entries.len() ==> store.records.dom().contains((#[trigger] entries[i]).id),
        forall|id: Uuid| #[trigger]
            store.records.dom().contains(id) ==> exists|i: int|
                0 <= i < entries.len() && (#[trigger] entries[i]).id == id && entries[i].hlc
                    == store.records[id].hlc,
{
    let ids = entries.map_values(|e: DigestEntry| e.id);
    assert forall|i: int| 0 <= i < entries.len() implies store.records.dom().contains(
        (#[trigger] entries[i]).id,
    ) by {
        assert(ids[i] == entries[i].id);
        assert(ids.contains(entries[i].id));
    }
    assert forall|id: Uuid| #[trigger] store.records.dom().contains(id) implies exists|i: int|
        0 <= i < entries.len() && (#[trigger] entries[i]).id == id && entries[i].hlc
            == store.records[id].hlc by {
        assert(ids.contains(id));
        let i = ids.index_of(id);
        assert(entries[i].id == id);
    }
}

/// A round is symmetric: what one node pulls is what the other pushes.
pub proof fn law_rounds_are_symmetric(
    a: StoreModel,
    b: StoreModel,
    a_digest: Seq<DigestEntry>,
    b_digest: Seq<DigestEntry>,
)
    requires
        a.is_digest(a_digest),
        b.is_digest(b_digest),
    ensures
        a.to_pull(b_digest) == b.to_push(a_digest),
        a.to_push(b_digest) == b.to_pull(a_digest),
{
    lemma_pull_is_push(a, b, a_digest, b_digest);
    lemma_pull_is_push(b, a, b_digest, a_digest);
}

proof fn lemma_pull_is_push(
    a: StoreModel,
    b: StoreModel,
    a_digest: Seq<DigestEntry>,
    b_digest: Seq<DigestEntry>,
)
    requires
        a.is_digest(a_digest),
        b.is_digest(b_digest),
    ensures
        a.to_pull(b_digest) == b.to_push(a_digest),
{
    lemma_digest(a, a_digest);
    lemma_digest(b, b_digest);
    assert forall|id: Uuid| a.to_pull(b_digest).contains(id) <==> #[trigger] b.to_push(
        a_digest,
    ).contains(id) by {
        if a.to_pull(b_digest).contains(id) {
            let i = choose|i: int|
                0 <= i < b_digest.len() && (#[trigger] b_digest[i]).id == id && a.lacks(
                    b_digest[i],
                );
            assert(b.records.dom().contains(b_digest[i].id));
        }
        if b.to_push(a_digest).contains(id) {
            assert(b.records.dom().contains(id));
            let i = choose|i: int|
                0 <= i < b_digest.len() && (#[trigger] b_digest[i]).id == id && b_digest[i].hlc
                    == b.records[id].hlc;
            if a.records.dom().contains(id) {
                let j = choose|j: int|
                    0 <= j < a_digest.len() && (#[trigger] a_digest[j]).id == id && a_digest[j].hlc
                        == a.records[id].hlc;
                assert(b.records[id].hlc.0 > a_digest[j].hlc.0);
            }
            assert(a.lacks(b_digest[i]));
        }
    }
    assert(a.to_pull(b_digest) =~= b.to_push(a_digest));
}

/// Whether two stores hold the same records by identity and clock.
pub open spec fn agree(a: StoreModel, b: StoreModel) -> bool {
    &&& a.records.dom() == b.records.dom()
    &&& forall|id: Uuid| #[trigger]
        a.records.dom().contains(id) ==> a.records[id].hlc == b.records[id].hlc
}

/// A mesh at rest has nothing to do: two nodes that agree plan nothing.
pub proof fn law_agreement_transfers_nothing(
    a: StoreModel,
    b: StoreModel,
    b_digest: Seq<DigestEntry>,
)
    requires
        agree(a, b),
        b.is_digest(b_digest),
    ensures
        a.to_pull(b_digest) == Set::<Uuid>::empty(),
        a.to_push(b_digest) == Set::<Uuid>::empty(),
{
    lemma_digest(b, b_digest);
    assert forall|id: Uuid| !a.to_pull(b_digest).contains(id) && !a.to_push(b_digest).contains(
        id,
    ) by {
        if a.to_pull(b_digest).contains(id) {
            let i = choose|i: int|
                0 <= i < b_digest.len() && (#[trigger] b_digest[i]).id == id && a.lacks(
                    b_digest[i],
                );
            assert(a.records.dom().contains(id));
        }
        if a.to_push(b_digest).contains(id) {
            assert(b.records.dom().contains(id));
            let i = choose|i: int|
                0 <= i < b_digest.len() && (#[trigger] b_digest[i]).id == id && b_digest[i].hlc
                    == b.records[id].hlc;
            assert(a.records[id].hlc.0 > b_digest[i].hlc.0);
        }
    }
    assert(a.to_pull(b_digest) =~= Set::<Uuid>::empty());
    assert(a.to_push(b_digest) =~= Set::<Uuid>::empty());
}

/// What a node holds once it has pulled everything a round told it to.
pub open spec fn caught_up(mine: StoreModel, theirs: StoreModel, pull: Set<Uuid>) -> Map<
    Uuid,
    RecordModel,
> {
    Map::new(
        |id: Uuid| mine.records.dom().contains(id) || pull.contains(id),
        |id: Uuid|
            if pull.contains(id) {
                theirs.records[id]
            } else {
                mine.records[id]
            },
    )
}

/// One round is enough: nothing that is pulled is refused as old, and when both
/// ends have what they lacked, they agree.
pub proof fn law_one_round_settles_two_nodes(
    a: StoreModel,
    b: StoreModel,
    a_digest: Seq<DigestEntry>,
    b_digest: Seq<DigestEntry>,
)
    requires
        a.valid(),
        b.valid(),
        a.is_digest(a_digest),
        b.is_digest(b_digest),
    ensures
        forall|id: Uuid| #[trigger]
            a.to_pull(b_digest).contains(id) ==> b.records.dom().contains(id) && !a.outdates(
                b.records[id],
            ),
        agree(
            (StoreModel { records: caught_up(a, b, a.to_pull(b_digest)), ..a }),
            (StoreModel { records: caught_up(b, a, b.to_pull(a_digest)), ..b }),
        ),
{
    law_rounds_are_symmetric(a, b, a_digest, b_digest);
    lemma_digest(a, a_digest);
    lemma_digest(b, b_digest);
    let (p, q) = (a.to_pull(b_digest), b.to_pull(a_digest));
    let x = caught_up(a, b, p);
    let y = caught_up(b, a, q);
    assert forall|id: Uuid| #[trigger] p.contains(id) implies b.records.dom().contains(id)
        && !a.outdates(b.records[id]) by {
        let i = choose|i: int|
            0 <= i < b_digest.len() && (#[trigger] b_digest[i]).id == id && a.lacks(b_digest[i]);
        assert(b.records.dom().contains(b_digest[i].id));
        assert(b_digest[i].hlc == b.records[id].hlc);
    }
    assert forall|id: Uuid|
        a.records.dom().contains(id) && b.records.dom().contains(id) implies #[trigger] p.contains(
        id,
    ) == (b.records[id].hlc.0 > a.records[id].hlc.0) && q.contains(id) == (a.records[id].hlc.0
        > b.records[id].hlc.0) by {
        let i = choose|i: int|
            0 <= i < b_digest.len() && (#[trigger] b_digest[i]).id == id && b_digest[i].hlc
                == b.records[id].hlc;
        let j = choose|j: int|
            0 <= j < a_digest.len() && (#[trigger] a_digest[j]).id == id && a_digest[j].hlc
                == a.records[id].hlc;
        assert(a.lacks(b_digest[i]) == (b.records[id].hlc.0 > a.records[id].hlc.0));
        assert(b.lacks(a_digest[j]) == (a.records[id].hlc.0 > b.records[id].hlc.0));
    }
    assert forall|id: Uuid| #[trigger] x.dom().contains(id) <==> y.dom().contains(id) by {
        if a.records.dom().contains(id) && !b.records.dom().contains(id) {
            let j = choose|j: int|
                0 <= j < a_digest.len() && (#[trigger] a_digest[j]).id == id && a_digest[j].hlc
                    == a.records[id].hlc;
            assert(b.lacks(a_digest[j]));
            assert(q.contains(id));
        }
        if b.records.dom().contains(id) && !a.records.dom().contains(id) {
            let i = choose|i: int|
                0 <= i < b_digest.len() && (#[trigger] b_digest[i]).id == id && b_digest[i].hlc
                    == b.records[id].hlc;
            assert(a.lacks(b_digest[i]));
            assert(p.contains(id));
        }
        if p.contains(id) {
            assert(b.records.dom().contains(id));
        }
        if q.contains(id) {
            let j = choose|j: int|
                0 <= j < a_digest.len() && (#[trigger] a_digest[j]).id == id && b.lacks(
                    a_digest[j],
                );
            assert(a.records.dom().contains(a_digest[j].id));
        }
    }
    assert forall|id: Uuid| #[trigger] x.dom().contains(id) implies x[id].hlc == y[id].hlc by {
        assert(y.dom().contains(id));
        if a.records.dom().contains(id) && b.records.dom().contains(id) {
            assert(p.contains(id) == (b.records[id].hlc.0 > a.records[id].hlc.0));
        }
        if p.contains(id) {
            assert(b.records.dom().contains(id));
        }
        if q.contains(id) {
            let j = choose|j: int|
                0 <= j < a_digest.len() && (#[trigger] a_digest[j]).id == id && b.lacks(
                    a_digest[j],
                );
            assert(a.records.dom().contains(a_digest[j].id));
        }
    }
    assert(x.dom() =~= y.dom());
}

/// The store once it was offered some records, one after another, with signatures
/// that check.
pub open spec fn taken_in(
    store: StoreModel,
    authority: AuthorityModel,
    records: Seq<RecordModel>,
    wall_ms: int,
) -> StoreModel
    decreases records.len(),
{
    if records.len() == 0 {
        store
    } else {
        taken_in(store, authority, records.drop_last(), wall_ms).offered(
            authority,
            records.last(),
            true,
            wall_ms,
        ).0
    }
}

/// Pulling catches a node up: what a peer collects for it, offered one after
/// another, leaves it with exactly what it asked for and with the rest of what it
/// had.
pub proof fn law_pulling_catches_up(
    mine: StoreModel,
    theirs: StoreModel,
    authority: AuthorityModel,
    ids: Seq<Uuid>,
    wall_ms: int,
)
    requires
        theirs.valid(),
        ids.no_duplicates(),
        forall|i: int|
            0 <= i < ids.len() ==> {
                &&& theirs.records.dom().contains(#[trigger] ids[i])
                &&& !mine.outdates(theirs.records[ids[i]])
                &&& authority.key_for(theirs.records[ids[i]]) is Ok
            },
    ensures
        taken_in(mine, authority, theirs.answer(ids), wall_ms).records == caught_up(
            mine,
            theirs,
            ids.to_set(),
        ),
    decreases ids.len(),
{
    if ids.len() == 0 {
        assert(ids.to_set() =~= Set::<Uuid>::empty());
        assert(mine.records =~= caught_up(mine, theirs, ids.to_set()));
    } else {
        let (rest, last) = (ids.drop_last(), ids.last());
        assert(ids[ids.len() - 1] == last);
        assert forall|i: int| 0 <= i < rest.len() implies {
            &&& theirs.records.dom().contains(#[trigger] rest[i])
            &&& !mine.outdates(theirs.records[rest[i]])
            &&& authority.key_for(theirs.records[rest[i]]) is Ok
        } by {
            assert(rest[i] == ids[i]);
        }
        law_pulling_catches_up(mine, theirs, authority, rest, wall_ms);
        let record = theirs.records[last];
        let before = taken_in(mine, authority, theirs.answer(rest), wall_ms);
        let after = taken_in(mine, authority, theirs.answer(ids), wall_ms);
        assert(theirs.answer(ids).drop_last() =~= theirs.answer(rest));
        assert(!rest.contains(last)) by {
            if rest.contains(last) {
                assert(ids[rest.index_of(last)] == ids[ids.len() - 1]);
            }
        }
        assert(!before.outdates(record));
        assert(after.records == before.records.insert(last, record));
        assert forall|id: Uuid| #[trigger] ids.to_set().contains(id) <==> id == last
            || rest.to_set().contains(id) by {
            if ids.contains(id) && id != last {
                assert(rest[ids.index_of(id)] == id);
            }
            if rest.contains(id) {
                assert(ids[rest.index_of(id)] == id);
            }
            assert(ids.contains(last));
        }
        assert(after.records =~= caught_up(mine, theirs, ids.to_set()));
    }
}

/// Gossip converges: two nodes that trust the same signers, and hold nothing those
/// did not sign, agree once each has been offered what it pulled from the other.
pub proof fn law_a_gossip_round_converges(
    a: StoreModel,
    b: StoreModel,
    authority: AuthorityModel,
    a_digest: Seq<DigestEntry>,
    b_digest: Seq<DigestEntry>,
    a_pull: Seq<Uuid>,
    b_pull: Seq<Uuid>,
    wall_ms: int,
)
    requires
        a.valid(),
        b.valid(),
        a.is_digest(a_digest),
        b.is_digest(b_digest),
        lists(a_pull, a.to_pull(b_digest)),
        lists(b_pull, b.to_pull(a_digest)),
        forall|id: Uuid| #[trigger]
            a.records.dom().contains(id) ==> authority.key_for(a.records[id]) is Ok,
        forall|id: Uuid| #[trigger]
            b.records.dom().contains(id) ==> authority.key_for(b.records[id]) is Ok,
    ensures
        agree(
            taken_in(a, authority, b.answer(a_pull), wall_ms),
            taken_in(b, authority, a.answer(b_pull), wall_ms),
        ),
{
    law_one_round_settles_two_nodes(a, b, a_digest, b_digest);
    law_one_round_settles_two_nodes(b, a, b_digest, a_digest);
    lemma_pull(a, b, authority, b_digest, a_pull);
    lemma_pull(b, a, authority, a_digest, b_pull);
    law_pulling_catches_up(a, b, authority, a_pull, wall_ms);
    law_pulling_catches_up(b, a, authority, b_pull, wall_ms);
    assert(a_pull.to_set() =~= a.to_pull(b_digest));
    assert(b_pull.to_set() =~= b.to_pull(a_digest));
}

proof fn lemma_pull(
    mine: StoreModel,
    theirs: StoreModel,
    authority: AuthorityModel,
    digest: Seq<DigestEntry>,
    pull: Seq<Uuid>,
)
    requires
        lists(pull, mine.to_pull(digest)),
        forall|id: Uuid| #[trigger]
            mine.to_pull(digest).contains(id) ==> theirs.records.dom().contains(id)
                && !mine.outdates(theirs.records[id]),
        forall|id: Uuid| #[trigger]
            theirs.records.dom().contains(id) ==> authority.key_for(theirs.records[id]) is Ok,
    ensures
        pull.no_duplicates(),
        forall|i: int|
            0 <= i < pull.len() ==> {
                &&& theirs.records.dom().contains(#[trigger] pull[i])
                &&& !mine.outdates(theirs.records[pull[i]])
                &&& authority.key_for(theirs.records[pull[i]]) is Ok
            },
{
    assert forall|i: int, j: int| 0 <= i < j < pull.len() implies pull[i] != pull[j] by {
        assert(pull[i].place() < pull[j].place());
    }
    assert forall|i: int| 0 <= i < pull.len() implies {
        &&& theirs.records.dom().contains(#[trigger] pull[i])
        &&& !mine.outdates(theirs.records[pull[i]])
        &&& authority.key_for(theirs.records[pull[i]]) is Ok
    } by {
        assert(pull.contains(pull[i]));
        assert(mine.to_pull(digest).contains(pull[i]));
    }
}

/// The numbers that record types go by on the wire.
pub proof fn law_record_types_have_their_numbers()
    ensures
        RecordType::Device.code() == 0,
        RecordType::Zone.code() == 1,
        RecordType::Effect.code() == 2,
        RecordType::Scene.code() == 3,
        RecordType::Show.code() == 4,
        RecordType::Schedule.code() == 5,
        RecordType::Binding.code() == 6,
        RecordType::Channel.code() == 7,
        RecordType::Key.code() == 8,
{
}

/// What a tick makes of a clock: the wall time where that is ahead, with the count at
/// nothing; else the next count. What is observed is ticked past, whichever is later.
pub proof fn law_what_a_tick_makes_of_a_clock(clock: Hlc, other: Hlc, wall_ms: u64)
    ensures
        ({
            let wall = if wall_ms < 0x1_0000_0000_0000 {
                wall_ms as int
            } else {
                0xffff_ffff_ffff
            };
            let now = clock.0 as int / 65_536;
            &&& clock.wall() == now
            &&& clock.count() == clock.0 as int % 65_536
            &&& wall > now ==> clock.ticked(wall_ms as int) == wall * 65_536
            &&& wall <= now && clock.0 < u64::MAX ==> clock.ticked(wall_ms as int) == clock.0 + 1
            &&& clock.0 == u64::MAX ==> clock.ticked(wall_ms as int) == clock.0
            &&& clock.0 >= other.0 ==> clock.observed(other, wall_ms as int) == clock.ticked(
                wall_ms as int,
            )
            &&& clock.0 <= other.0 ==> clock.observed(other, wall_ms as int) == other.ticked(
                wall_ms as int,
            )
        }),
{
}

/// A clock is packed with the wall time above sixteen bits of count.
pub proof fn law_a_clock_packs_wall_time_first(wall_ms: u64, counter: u16)
    ensures
        wall_ms < 0x1_0000_0000_0000 ==> Hlc::packed(wall_ms as int, counter as int) == wall_ms
            * 65_536 + counter,
        wall_ms >= 0x1_0000_0000_0000 ==> Hlc::packed(wall_ms as int, counter as int)
            == 0xffff_ffff_ffff * 65_536 + counter,
{
}

/// What is signed, byte by byte: the identity, the type, the clock with its least
/// significant byte first, the author, and the body.
pub proof fn law_the_layout_of_what_is_signed(record: RecordModel)
    ensures
        ({
            let bytes = record.preimage();
            let clock = record.hlc.0 as int;
            &&& bytes.len() == 41 + record.body.len()
            &&& bytes.subrange(0, 16) == record.id.0@
            &&& bytes[16] == record.kind.code()
            &&& bytes[17] == clock % 0x100
            &&& forall|i: int|
                0 <= i < 8 ==> bytes[17 + i] == clock / #[trigger] byte_space(i as nat) as int
                    % 0x100
            &&& bytes.subrange(25, 41) == record.author.0@
            &&& bytes.skip(41) == record.body
        }),
{
    let bytes = record.preimage();
    let clock = record.hlc.0 as nat;
    let stamp = little_endian(clock, 8);
    lemma_little_endian(clock, clock, 8);
    assert(bytes.subrange(0, 16) =~= record.id.0@);
    assert(bytes.subrange(17, 25) =~= stamp);
    assert(bytes.subrange(25, 41) =~= record.author.0@);
    assert(bytes.skip(41) =~= record.body);
    assert forall|i: int| 0 <= i < 8 implies bytes[17 + i] == record.hlc.0 as int
        / #[trigger] byte_space(i as nat) as int % 0x100 by {
        lemma_byte_of(clock, 8, i as nat);
        assert(bytes.subrange(17, 25)[i] == bytes[17 + i]);
    }
    lemma_byte_of(clock, 8, 0);
    assert(bytes.subrange(17, 25)[0] == bytes[17]);
}

/// Each byte of a number, least significant first.
proof fn lemma_byte_of(v: nat, n: nat, i: nat)
    requires
        i < n,
    ensures
        little_endian(v, n).len() == n,
        little_endian(v, n)[i as int] == v as int / byte_space(i) as int % 256,
        i == 0 ==> little_endian(v, n)[0] == v % 256,
    decreases n,
{
    lemma_little_endian(v, v, n);
    let rest = little_endian(v / 256, (n - 1) as nat);
    assert(little_endian(v, n) == seq![(v % 256) as u8] + rest);
    if i > 0 {
        let k = (i - 1) as nat;
        lemma_byte_of(v / 256, (n - 1) as nat, k);
        crate::uuid::lemma_byte_space_grows(k, k);
        vstd::arithmetic::div_mod::lemma_div_denominator(v as int, 256, byte_space(k) as int);
        assert(byte_space(i) == 256 * byte_space(k));
        assert(little_endian(v, n)[i as int] == rest[k as int]);
    } else {
        assert(byte_space(0) == 1);
        assert(v as int / 1 == v);
    }
}

/// Which of two records is newer: the later clock, and of two of the same clock the
/// author with the higher first byte that differs.
pub proof fn law_which_record_is_newer(a: RecordModel, b: RecordModel)
    ensures
        a.hlc.0 != b.hlc.0 ==> (a.newer_than(b) <==> a.hlc.0 > b.hlc.0),
        a.hlc.0 == b.hlc.0 ==> (a.newer_than(b) <==> byte_order(b.author.0@, a.author.0@)),
{
    lemma_byte_order_is_numeric(b.author.0@, a.author.0@);
}

/// Whose key a record must be signed with: a device's record with that device's own, any
/// other with its author's as a controller. Where there is no such key the reason says
/// what is the matter.
pub proof fn law_whose_key_a_record_needs(authority: AuthorityModel, record: RecordModel)
    ensures
        ({
            let device = authority.devices.dom().contains(record.author);
            let controller = authority.controllers.dom().contains(record.author);
            let needed = authority.key_for(record);
            if record.kind is Device {
                &&& device && record.author == record.id ==> needed == Ok::<[u8; 32], RejectReason>(
                    authority.devices[record.id],
                )
                &&& device && record.author != record.id ==> needed == Err::<
                    [u8; 32],
                    RejectReason,
                >(RejectReason::NotItsOwnDeviceRecord)
                &&& !device && controller ==> needed == Err::<[u8; 32], RejectReason>(
                    RejectReason::WrongAuthority,
                )
                &&& !device && !controller ==> needed == Err::<[u8; 32], RejectReason>(
                    if record.author == record.id {
                        RejectReason::UnknownAuthor
                    } else {
                        RejectReason::NotItsOwnDeviceRecord
                    },
                )
            } else {
                &&& controller ==> needed == Ok::<[u8; 32], RejectReason>(
                    authority.controllers[record.author],
                )
                &&& !controller && device ==> needed == Err::<[u8; 32], RejectReason>(
                    RejectReason::WrongAuthority,
                )
                &&& !controller && !device ==> needed == Err::<[u8; 32], RejectReason>(
                    RejectReason::UnknownAuthor,
                )
            }
        }),
{
}

/// What becomes of a record that is offered. One that is no newer than what is held is
/// superseded, whoever signed it; one that nobody there may sign, or whose signature is
/// not good, is refused. Any other is held from then on, in place of what had its
/// identity, and the clock has seen it. A refusal changes nothing, the clock neither.
pub proof fn law_what_becomes_of_an_offered_record(
    store: StoreModel,
    authority: AuthorityModel,
    record: RecordModel,
    verified: bool,
    wall_ms: u64,
    other: Uuid,
)
    ensures
        ({
            let (after, said) = store.offered(authority, record, verified, wall_ms as int);
            let stale = store.records.dom().contains(record.id) && !record.newer_than(
                store.records[record.id],
            );
            let key = authority.key_for(record);
            &&& stale ==> said == Err::<(), RejectReason>(RejectReason::Superseded)
            &&& !stale && key is Err ==> said == Err::<(), RejectReason>(key->Err_0)
            &&& !stale && key is Ok && !verified ==> said == Err::<(), RejectReason>(
                RejectReason::BadSignature,
            )
            &&& !stale && key is Ok && verified ==> said is Ok
            &&& said is Err ==> after == store
            &&& said is Ok ==> {
                &&& after.records.dom().contains(record.id)
                &&& after.records[record.id] == record
                &&& after.clock.0 == store.clock.observed(record.hlc, wall_ms as int)
                &&& other != record.id ==> (after.records.dom().contains(other)
                    <==> store.records.dom().contains(other))
                &&& other != record.id && store.records.dom().contains(other)
                    ==> after.records[other] == store.records[other]
            }
        }),
{
}

/// What two nodes exchange: what the other lists and is newer there or not here is
/// pulled, and what is here and newer than everything the other lists of it is pushed.
pub proof fn law_what_is_exchanged(store: StoreModel, theirs: Seq<DigestEntry>, id: Uuid)
    ensures
        store.to_pull(theirs).contains(id) <==> exists|i: int|
            0 <= i < theirs.len() && (#[trigger] theirs[i]).id == id && (
            store.records.dom().contains(id) ==> theirs[i].hlc.0 > store.records[id].hlc.0),
        store.to_push(theirs).contains(id) <==> store.records.dom().contains(id) && forall|i: int|
            0 <= i < theirs.len() && (#[trigger] theirs[i]).id == id ==> theirs[i].hlc.0
                < store.records[id].hlc.0,
        forall|entry: DigestEntry| #[trigger]
            store.lacks(entry) <==> !store.records.dom().contains(entry.id)
                || store.records[entry.id].hlc.0 < entry.hlc.0,
{
}

/// A pull is answered with what is held of what was asked for, in the order it was asked.
pub proof fn law_what_a_pull_gets(store: StoreModel, ids: Seq<Uuid>, id: Uuid)
    ensures
        store.answer(Seq::empty()).len() == 0,
        store.records.dom().contains(id) ==> store.answer(ids.push(id)) == store.answer(ids).push(
            store.records[id],
        ),
        !store.records.dom().contains(id) ==> store.answer(ids.push(id)) == store.answer(ids),
{
    assert(ids.push(id).drop_last() =~= ids);
}

/// A new store holds nothing and has seen no time.
pub proof fn law_a_new_store_is_empty(id: Uuid)
    ensures
        !StoreModel::empty().records.dom().contains(id),
        StoreModel::empty().clock.0 == 0,
{
}

/// Timestamps ascend, one after another, whatever the wall clock does between them, until
/// the clock is at its end; giving one out touches no record.
pub proof fn law_timestamps_ascend(store: StoreModel, wall_ms: u64, later_ms: u64)
    requires
        store.clock.0 < u64::MAX - 1,
    ensures
        store.stamped(wall_ms as int).clock.0 > store.clock.0,
        store.stamped(wall_ms as int).clock.0 < u64::MAX ==> store.stamped(
            wall_ms as int,
        ).stamped(later_ms as int).clock.0 > store.stamped(wall_ms as int).clock.0,
        store.stamped(wall_ms as int).records == store.records,
{
    law_tick_never_goes_back(store.clock, wall_ms as int);
    let once = store.stamped(wall_ms as int);
    law_tick_never_goes_back(once.clock, later_ms as int);
}

} // verus!
