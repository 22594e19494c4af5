//! Driving the machines one request at a time.
//!
//! A bench sets one machine up from a description and then hands it events, each
//! with the time it happens at. There are no sockets, no threads and no clock: the
//! script supplies the time. What a description leaves out has a default here;
//! what it may not leave out is named in the answer.
//!
//! Descriptions arrive as [`Json`] values: reading their text is the shell's. What
//! is said in reply is in [`crate::answers`].

use vstd::prelude::*;

use crate::channels::{Channel, ClaimOutcome, ProducerId};
use crate::gateway::{
    admission as gateway_admission, apply, Admitted, Binding, Gateway, Ingress, Protocol, Refusal,
    MAX_GATEWAY_PRIORITY,
};
use crate::node::{Node, NodeModel, Turn};
use crate::q16::{is_arithmetic, Op, Q16};
use crate::records::{
    may_say, Authority, AuthorityModel, DigestEntry, Hlc, Record, RecordModel, RecordType,
    RejectReason, Store, StoreModel,
};
use crate::render::{
    hosted, is_machine, Bound, Ran, RenderFault, Renderer, RendererModel, Rgb, Shard, Step,
};
use crate::sources::{place_of, Change, PushError, Source, SourceStack, StackModel};
use crate::uuid::Uuid;
use crate::wire::Datagram;
use crate::zones::{
    extent, names_ascending, Axis, Clause, CmpOp, DeviceLeds, Led, MapQuality, Membership,
    Predicate, Projection, Zone,
};
use crate::{Action, Event, Identity};

verus! {

/// A number of a description, as what it can be read as.
#[derive(Clone, Copy, PartialEq, Eq, Debug, Structural)]
pub struct Number {
    pub unsigned: Option<u64>,
    pub signed: Option<i64>,
}

/// A text of a description, and the bytes it spells in hexadecimal where it does.
#[derive(PartialEq, Eq, Debug)]
pub struct Text {
    pub text: String,
    pub bytes: Option<Vec<u8>>,
}

/// A description.
#[derive(PartialEq, Eq, Debug)]
pub enum Json {
    Null,
    Bool(bool),
    Number(Number),
    Text(Text),
    Array(Vec<Json>),
    Object(Vec<Entry>),
}

/// One entry of an object.
#[derive(PartialEq, Eq, Debug)]
pub struct Entry {
    pub key: String,
    pub value: Json,
}

/// The first value under a key, among the entries from `from` on.
pub open spec fn value_from(entries: Seq<Entry>, key: Seq<char>, from: int) -> Option<Json>
    decreases entries.len() - from,
{
    if from < 0 || from >= entries.len() {
        None
    } else if entries[from].key@ == key {
        Some(entries[from].value)
    } else {
        value_from(entries, key, from + 1)
    }
}

fn same_text(a: &String, b: &str) -> (same: bool)
    ensures
        same == (a@ == b@),
{
    let other: String = b.to_owned();
    *a == other
}

impl Json {
    /// The value under a key.
    pub open spec fn at(self, key: Seq<char>) -> Option<Json> {
        match self {
            Json::Object(entries) => value_from(entries@, key, 0),
            _ => None,
        }
    }

    pub open spec fn text_at(self, key: Seq<char>) -> Option<Seq<char>> {
        match self.at(key) {
            Some(Json::Text(t)) => Some(t.text@),
            _ => None,
        }
    }

    pub open spec fn number_at(self, key: Seq<char>) -> Option<u64> {
        match self.at(key) {
            Some(Json::Number(n)) => n.unsigned,
            _ => None,
        }
    }

    pub open spec fn list_at(self, key: Seq<char>) -> Option<Seq<Json>> {
        match self.at(key) {
            Some(Json::Array(list)) => Some(list@),
            _ => None,
        }
    }

    pub fn get(&self, key: &str) -> (r: Option<&Json>)
        ensures
            match r {
                Some(j) => self.at(key@) == Some(*j) && decreases_to!(*self => *j),
                None => self.at(key@) is None,
            },
    {
        match self {
            Json::Object(entries) => {
                let mut i: usize = 0;
                while i < entries.len()
                    invariant
                        *self == Json::Object(*entries),
                        i <= entries@.len(),
                        self.at(key@) == value_from(entries@, key@, i as int),
                    decreases entries@.len() - i,
                {
                    if same_text(&entries[i].key, key) {
                        assert(decreases_to!(*self => *entries));
                        assert(decreases_to!(*entries => entries@));
                        assert(decreases_to!(entries@ => entries@[i as int]));
                        assert(decreases_to!(entries@[i as int] => entries@[i as int].value));
                        return Some(&entries[i].value);
                    }
                    i += 1;
                }
                None
            },
            _ => None,
        }
    }

    pub fn get_text(&self, key: &str) -> (r: Option<&Text>)
        ensures
            match r {
                Some(t) => self.at(key@) == Some(Json::Text(*t)),
                None => self.text_at(key@) is None,
            },
    {
        match self.get(key) {
            Some(Json::Text(t)) => Some(t),
            _ => None,
        }
    }

    pub fn get_number(&self, key: &str) -> (r: Option<u64>)
        ensures
            r == self.number_at(key@),
    {
        match self.get(key) {
            Some(Json::Number(n)) => n.unsigned,
            _ => None,
        }
    }

    pub fn get_list(&self, key: &str) -> (r: Option<&Vec<Json>>)
        ensures
            match r {
                Some(list) => self.at(key@) == Some(Json::Array(*list)) && decreases_to!(
                    *self => *list
                ),
                None => self.list_at(key@) is None,
            },
    {
        match self.get(key) {
            Some(Json::Array(list)) => Some(list),
            _ => None,
        }
    }
}

/// What a description names.
#[derive(Clone, Copy, PartialEq, Eq, Debug, Structural)]
pub enum Field {
    Uuid,
    MeshId,
    Capacity,
    Id,
    Zone,
    Scene,
    Priority,
    Device,
    Leds,
    Key,
    Author,
    Signature,
    Body,
    Record,
    Protocol,
    PriorityCeiling,
    SourceId,
    Producer,
    Program,
    Prefix,
    Bytes,
    Of,
}

/// Why a request could not be carried out.
#[derive(Clone, Copy, PartialEq, Eq, Debug, Structural)]
pub enum Fault {
    /// No machine was named.
    NoMachine,
    /// No state was described.
    NoState,
    /// No event was described.
    NoEvent,
    /// The event does not say what it is.
    NoKind,
    UnknownMachine,
    UnknownEvent,
    UnknownRecordKind,
    UnknownAxis,
    UnknownComparison,
    UnknownPredicate,
    UnknownClause,
    UnknownQuality,
    UnknownProtocol,
    /// Something that has to be there is not.
    Missing(Field),
    /// A text that should spell bytes does not.
    Garbled(Field),
    /// Bytes of the wrong number.
    WrongLength { field: Field, got: usize },
    /// A bound program cannot be loaded.
    BadProgram,
    /// No machine was set up.
    NotSetUp,
    /// No request goes by that name.
    UnknownRequest,
    /// The request is one that this bench does not take.
    NotOffered,
}

/// The array that holds these bytes.
pub open spec fn array_of<const K: usize>(bytes: Seq<u8>) -> [u8; K] {
    choose|a: [u8; K]| a@ == bytes
}

fn fixed_4(bytes: &Vec<u8>) -> (r: [u8; 4])
    requires
        bytes@.len() == 4,
    ensures
        r == array_of::<4>(bytes@),
        r@ == bytes@,
{
    let mut r: [u8; 4] = [0; 4];
    let mut i: usize = 0;
    while i < 4
        invariant
            i <= 4,
            bytes@.len() == 4,
            forall|k: int| 0 <= k < i ==> r@[k] == bytes@[k],
        decreases 4 - i,
    {
        r[i] = bytes[i];
        i += 1;
    }
    proof {
        assert(r@ =~= bytes@);
        let c = array_of::<4>(bytes@);
        assert(c@ == bytes@);
        assert(c@ =~= r@);
        assert(c == r);
    }
    r
}

fn fixed_16(bytes: &Vec<u8>) -> (r: [u8; 16])
    requires
        bytes@.len() == 16,
    ensures
        r == array_of::<16>(bytes@),
        r@ == bytes@,
{
    let mut r: [u8; 16] = [0; 16];
    let mut i: usize = 0;
    while i < 16
        invariant
            i <= 16,
            bytes@.len() == 16,
            forall|k: int| 0 <= k < i ==> r@[k] == bytes@[k],
        decreases 16 - i,
    {
        r[i] = bytes[i];
        i += 1;
    }
    proof {
        assert(r@ =~= bytes@);
        let c = array_of::<16>(bytes@);
        assert(c@ == bytes@);
        assert(c@ =~= r@);
        assert(c == r);
    }
    r
}

fn fixed_32(bytes: &Vec<u8>) -> (r: [u8; 32])
    requires
        bytes@.len() == 32,
    ensures
        r == array_of::<32>(bytes@),
        r@ == bytes@,
{
    let mut r: [u8; 32] = [0; 32];
    let mut i: usize = 0;
    while i < 32
        invariant
            i <= 32,
            bytes@.len() == 32,
            forall|k: int| 0 <= k < i ==> r@[k] == bytes@[k],
        decreases 32 - i,
    {
        r[i] = bytes[i];
        i += 1;
    }
    proof {
        assert(r@ =~= bytes@);
        let c = array_of::<32>(bytes@);
        assert(c@ == bytes@);
        assert(c@ =~= r@);
        assert(c == r);
    }
    r
}

fn fixed_64(bytes: &Vec<u8>) -> (r: [u8; 64])
    requires
        bytes@.len() == 64,
    ensures
        r == array_of::<64>(bytes@),
        r@ == bytes@,
{
    let mut r: [u8; 64] = [0; 64];
    let mut i: usize = 0;
    while i < 64
        invariant
            i <= 64,
            bytes@.len() == 64,
            forall|k: int| 0 <= k < i ==> r@[k] == bytes@[k],
        decreases 64 - i,
    {
        r[i] = bytes[i];
        i += 1;
    }
    proof {
        assert(r@ =~= bytes@);
        let c = array_of::<64>(bytes@);
        assert(c@ == bytes@);
        assert(c@ =~= r@);
        assert(c == r);
    }
    r
}

/// The bytes that the text under a key spells.
pub open spec fn bytes_at(j: Json, key: Seq<char>, field: Field) -> Result<Seq<u8>, Fault> {
    match j.at(key) {
        Some(Json::Text(t)) => match t.bytes {
            Some(bytes) => Ok(bytes@),
            None => Err(Fault::Garbled(field)),
        },
        _ => Err(Fault::Missing(field)),
    }
}

/// As many bytes as there should be.
pub open spec fn exactly_at(j: Json, key: Seq<char>, field: Field, n: nat) -> Result<
    Seq<u8>,
    Fault,
> {
    match bytes_at(j, key, field) {
        Ok(bytes) => if bytes.len() == n {
            Ok(bytes)
        } else {
            Err(Fault::WrongLength { field, got: bytes.len() as usize })
        },
        Err(e) => Err(e),
    }
}

pub open spec fn uuid_at(j: Json, key: Seq<char>, field: Field) -> Result<Uuid, Fault> {
    match exactly_at(j, key, field, 16) {
        Ok(bytes) => Ok(Uuid(array_of::<16>(bytes))),
        Err(e) => Err(e),
    }
}

pub open spec fn key_at(j: Json, key: Seq<char>) -> Result<[u8; 32], Fault> {
    match exactly_at(j, key, Field::Key, 32) {
        Ok(bytes) => Ok(array_of::<32>(bytes)),
        Err(e) => Err(e),
    }
}

pub open spec fn producer_at(j: Json) -> Result<ProducerId, Fault> {
    match exactly_at(j, "producer"@, Field::Producer, 4) {
        Ok(bytes) => Ok(array_of::<4>(bytes)),
        Err(e) => Err(e),
    }
}

fn bytes_of<'a>(j: &'a Json, key: &str, field: Field) -> (r: Result<&'a Vec<u8>, Fault>)
    ensures
        match r {
            Ok(bytes) => bytes_at(*j, key@, field) == Ok::<Seq<u8>, Fault>(bytes@),
            Err(e) => bytes_at(*j, key@, field) == Err::<Seq<u8>, Fault>(e),
        },
{
    match j.get_text(key) {
        Some(t) => match &t.bytes {
            Some(bytes) => Ok(bytes),
            None => Err(Fault::Garbled(field)),
        },
        None => Err(Fault::Missing(field)),
    }
}

/// An identity: sixteen bytes.
pub fn uuid_field(j: &Json, key: &str, field: Field) -> (r: Result<Uuid, Fault>)
    ensures
        r == uuid_at(*j, key@, field),
{
    match bytes_of(j, key, field) {
        Ok(bytes) => {
            if bytes.len() == 16 {
                Ok(Uuid(fixed_16(bytes)))
            } else {
                Err(Fault::WrongLength { field, got: bytes.len() })
            }
        },
        Err(e) => Err(e),
    }
}

/// A public key: thirty-two bytes.
pub fn key32(j: &Json, key: &str) -> (r: Result<[u8; 32], Fault>)
    ensures
        r == key_at(*j, key@),
{
    match bytes_of(j, key, Field::Key) {
        Ok(bytes) => {
            if bytes.len() == 32 {
                Ok(fixed_32(bytes))
            } else {
                Err(Fault::WrongLength { field: Field::Key, got: bytes.len() })
            }
        },
        Err(e) => Err(e),
    }
}

/// A producer: four bytes.
pub fn producer_of(ev: &Json) -> (r: Result<ProducerId, Fault>)
    ensures
        r == producer_at(*ev),
{
    match bytes_of(ev, "producer", Field::Producer) {
        Ok(bytes) => {
            if bytes.len() == 4 {
                Ok(fixed_4(bytes))
            } else {
                Err(Fault::WrongLength { field: Field::Producer, got: bytes.len() })
            }
        },
        Err(e) => Err(e),
    }
}

/// A count, or what it is when it is left out.
pub open spec fn count_at(j: Json, key: Seq<char>, otherwise: u64) -> u64 {
    match j.number_at(key) {
        Some(n) => n,
        None => otherwise,
    }
}

fn count_of(j: &Json, key: &str, otherwise: u64) -> (r: u64)
    ensures
        r == count_at(*j, key@, otherwise),
{
    match j.get_number(key) {
        Some(n) => n,
        None => otherwise,
    }
}

/// A fixed-point number, given by its raw integer, which may be negative.
pub open spec fn q16_value(j: Json) -> Q16 {
    match j {
        Json::Number(n) => match n.signed {
            Some(v) => Q16(v as i32),
            None => Q16(0),
        },
        _ => Q16(0),
    }
}

pub open spec fn q16_at(j: Json, key: Seq<char>) -> Q16 {
    match j.at(key) {
        Some(v) => q16_value(v),
        None => Q16(0),
    }
}

fn q16_from(j: &Json) -> (r: Q16)
    ensures
        r == q16_value(*j),
{
    match j {
        Json::Number(n) => match n.signed {
            Some(v) => Q16(
                #[verifier::truncate]
                (v as i32),
            ),
            None => Q16(0),
        },
        _ => Q16(0),
    }
}

/// A fixed-point number, zero where it is left out.
pub fn q16_of(j: &Json, key: &str) -> (r: Q16)
    ensures
        r == q16_at(*j, key@),
{
    match j.get(key) {
        Some(v) => q16_from(v),
        None => Q16(0),
    }
}

/// The number in place `i` of a list, zero where there is none.
pub open spec fn part_at(list: Seq<Json>, i: int) -> Q16 {
    if i < list.len() {
        q16_value(list[i])
    } else {
        Q16(0)
    }
}

pub open spec fn triple_at(j: Json, key: Seq<char>) -> [Q16; 3] {
    match j.list_at(key) {
        Some(list) => [part_at(list, 0), part_at(list, 1), part_at(list, 2)],
        None => [Q16(0), Q16(0), Q16(0)],
    }
}

fn part_of(list: &Vec<Json>, i: usize) -> (r: Q16)
    ensures
        r == part_at(list@, i as int),
{
    if i < list.len() {
        q16_from(&list[i])
    } else {
        Q16(0)
    }
}

/// A point: the first three numbers of a list.
pub fn triple(j: &Json, key: &str) -> (r: [Q16; 3])
    ensures
        r == triple_at(*j, key@),
{
    match j.get_list(key) {
        Some(list) => [part_of(list, 0), part_of(list, 1), part_of(list, 2)],
        None => [Q16(0), Q16(0), Q16(0)],
    }
}

/// The source that a description describes, pushed when it arrives.
pub open spec fn source_at(ev: Json, at_us: u64) -> Result<Source, Fault> {
    match uuid_at(ev, "id"@, Field::Id) {
        Err(e) => Err(e),
        Ok(id) => match uuid_at(ev, "zone"@, Field::Zone) {
            Err(e) => Err(e),
            Ok(zone) => match uuid_at(ev, "scene"@, Field::Scene) {
                Err(e) => Err(e),
                Ok(scene) => match ev.number_at("priority"@) {
                    None => Err(Fault::Missing(Field::Priority)),
                    Some(priority) => Ok(
                        Source {
                            id,
                            zone,
                            scene,
                            priority: priority as u8,
                            expires_at_us: ev.number_at("expires_at_us"@),
                            fade_in_ms: count_at(ev, "fade_in_ms"@, 0) as u16,
                            fade_out_ms: count_at(ev, "fade_out_ms"@, 0) as u16,
                            pushed_at_us: at_us,
                            cost: count_at(ev, "cost"@, 0) as u32,
                        },
                    ),
                },
            },
        },
    }
}

/// Build a source. An absent expiry means that there is none, which is the whole
/// point of the ambient floor.
pub fn build_source(ev: &Json, at_us: u64) -> (r: Result<Source, Fault>)
    ensures
        r == source_at(*ev, at_us),
{
    let id = match uuid_field(ev, "id", Field::Id) {
        Ok(id) => id,
        Err(e) => {
            return Err(e);
        },
    };
    let zone = match uuid_field(ev, "zone", Field::Zone) {
        Ok(zone) => zone,
        Err(e) => {
            return Err(e);
        },
    };
    let scene = match uuid_field(ev, "scene", Field::Scene) {
        Ok(scene) => scene,
        Err(e) => {
            return Err(e);
        },
    };
    let priority: u64 = match ev.get_number("priority") {
        Some(priority) => priority,
        None => {
            return Err(Fault::Missing(Field::Priority));
        },
    };
    let expires_at_us: Option<u64> = ev.get_number("expires_at_us");
    let fade_in: u64 = count_of(ev, "fade_in_ms", 0);
    let fade_out: u64 = count_of(ev, "fade_out_ms", 0);
    let cost: u64 = count_of(ev, "cost", 0);
    Ok(
        Source {
            id,
            zone,
            scene,
            priority: #[verifier::truncate]
            (priority as u8),
            expires_at_us,
            fade_in_ms: #[verifier::truncate]
            (fade_in as u16),
            fade_out_ms: #[verifier::truncate]
            (fade_out as u16),
            pushed_at_us: at_us,
            cost: #[verifier::truncate]
            (cost as u32),
        },
    )
}

/// Why a stack did not do what it was asked.
#[derive(Clone, Copy, PartialEq, Eq, Debug, Structural)]
pub enum Refused {
    Push(PushError),
    /// There was nothing to pop: a caller that pops twice has lost track of its
    /// own source.
    NotFound,
}

/// What became of a request to a stack: what changed, then the refusal, if there
/// was one.
pub struct SourcesAnswer {
    pub changes: Vec<Change>,
    pub refused: Option<Refused>,
}

pub ghost struct SourcesOutcome {
    pub changes: Seq<Change>,
    pub refused: Option<Refused>,
}

impl View for SourcesAnswer {
    type V = SourcesOutcome;

    open spec fn view(&self) -> SourcesOutcome {
        SourcesOutcome { changes: self.changes@, refused: self.refused }
    }
}

pub open spec fn pushed_onto(stack: StackModel, at_us: u64, source: Source) -> (
    StackModel,
    SourcesOutcome,
) {
    match stack.refusal(at_us, source) {
        Some(e) => (
            stack,
            SourcesOutcome { changes: Seq::empty(), refused: Some(Refused::Push(e)) },
        ),
        None => (
            stack.pushed(source),
            SourcesOutcome { changes: stack.push_changes(source), refused: None },
        ),
    }
}

pub open spec fn sources_step(stack: StackModel, at_us: u64, kind: Seq<char>, ev: Json) -> (
    StackModel,
    Result<SourcesOutcome, Fault>,
) {
    if kind == "push"@ {
        match source_at(ev, at_us) {
            Err(e) => (stack, Err(e)),
            Ok(source) => {
                let (after, outcome) = pushed_onto(stack, at_us, source);
                (after, Ok(outcome))
            },
        }
    } else if kind == "pop"@ {
        match uuid_at(ev, "id"@, Field::Id) {
            Err(e) => (stack, Err(e)),
            Ok(id) => (
                stack.popped(at_us, id),
                Ok(
                    SourcesOutcome {
                        changes: stack.pop_changes(at_us, id),
                        refused: if place_of(stack.active, id) is Some {
                            None
                        } else {
                            Some(Refused::NotFound)
                        },
                    },
                ),
            ),
        }
    } else if kind == "advance"@ {
        (
            stack.advanced(at_us),
            Ok(SourcesOutcome { changes: stack.advance_changes(at_us), refused: None }),
        )
    } else {
        (stack, Err(Fault::UnknownEvent))
    }
}

/// Whether an answer is the one that is due.
pub open spec fn answers<A: View>(r: Result<A, Fault>, due: Result<A::V, Fault>) -> bool {
    match r {
        Ok(a) => due == Ok::<A::V, Fault>(a@),
        Err(e) => due == Err::<A::V, Fault>(e),
    }
}

fn push_onto(stack: &mut SourceStack, at_us: u64, source: Source) -> (r: SourcesAnswer)
    requires
        old(stack).wf(),
    ensures
        final(stack).wf(),
        (final(stack)@, r@) == pushed_onto(old(stack)@, at_us, source),
{
    let mut changes: Vec<Change> = Vec::new();
    let ghost was = stack@;
    match stack.push(at_us, source, &mut changes) {
        Ok(()) => {
            assert(changes@ =~= was.push_changes(source));
            SourcesAnswer { changes, refused: None }
        },
        Err(e) => SourcesAnswer { changes, refused: Some(Refused::Push(e)) },
    }
}

/// One event for a source stack.
pub fn sources_event(stack: &mut SourceStack, at_us: u64, kind: &String, ev: &Json) -> (r: Result<
    SourcesAnswer,
    Fault,
>)
    requires
        old(stack).wf(),
    ensures
        final(stack).wf(),
        final(stack)@ == sources_step(old(stack)@, at_us, kind@, *ev).0,
        answers(r, sources_step(old(stack)@, at_us, kind@, *ev).1),
{
    let ghost was = stack@;
    if same_text(kind, "push") {
        match build_source(ev, at_us) {
            Ok(source) => Ok(push_onto(stack, at_us, source)),
            Err(e) => Err(e),
        }
    } else if same_text(kind, "pop") {
        let id = match uuid_field(ev, "id", Field::Id) {
            Ok(id) => id,
            Err(e) => {
                return Err(e);
            },
        };
        let mut changes: Vec<Change> = Vec::new();
        let found: bool = stack.pop(at_us, id, &mut changes);
        assert(changes@ =~= was.pop_changes(at_us, id));
        let refused = if found {
            None
        } else {
            Some(Refused::NotFound)
        };
        Ok(SourcesAnswer { changes, refused })
    } else if same_text(kind, "advance") {
        let mut changes: Vec<Change> = Vec::new();
        stack.advance(at_us, &mut changes);
        assert(changes@ =~= was.advance_changes(at_us));
        Ok(SourcesAnswer { changes, refused: None })
    } else {
        Err(Fault::UnknownEvent)
    }
}

/// What a channel answers.
#[derive(Clone, Copy, PartialEq, Eq, Debug)]
pub enum ChannelAnswer {
    Claimed(ClaimOutcome),
    Released,
    /// Somebody else's release: ignored, not honoured.
    ReleaseIgnored,
    Published,
    Dropped,
    LeaseLapsed(ProducerId),
    Value { value: Q16, stale: bool },
    /// There is nothing to say.
    Quiet,
}

pub open spec fn channel_step<F: Fn(Op, Q16, Q16, Q16) -> Q16>(
    ch: Channel,
    unit: &F,
    at_us: u64,
    kind: Seq<char>,
    ev: Json,
) -> (Channel, Result<ChannelAnswer, Fault>) {
    if kind == "claim"@ {
        match producer_at(ev) {
            Err(e) => (ch, Err(e)),
            Ok(producer) => {
                let (after, outcome) = ch.claimed(
                    at_us,
                    producer,
                    count_at(ev, "priority"@, 0) as u8,
                    count_at(ev, "lease_ms"@, 0) as u32,
                );
                (after, Ok(ChannelAnswer::Claimed(outcome)))
            },
        }
    } else if kind == "release"@ {
        match producer_at(ev) {
            Err(e) => (ch, Err(e)),
            Ok(producer) => if ch.owned_by(producer) {
                (Channel { owner: None, ..ch }, Ok(ChannelAnswer::Released))
            } else {
                (ch, Ok(ChannelAnswer::ReleaseIgnored))
            },
        }
    } else if kind == "publish"@ {
        match producer_at(ev) {
            Err(e) => (ch, Err(e)),
            Ok(producer) => {
                let seq = count_at(ev, "seq"@, 0) as u16;
                (
                    ch.published(at_us, producer, seq, q16_at(ev, "value"@)),
                    Ok(
                        if ch.takes(producer, seq) {
                            ChannelAnswer::Published
                        } else {
                            ChannelAnswer::Dropped
                        },
                    ),
                )
            },
        }
    } else if kind == "advance"@ {
        (
            ch.advanced(at_us),
            Ok(
                if ch.lapsed(at_us) {
                    ChannelAnswer::LeaseLapsed(ch.owner->0.producer)
                } else {
                    ChannelAnswer::Quiet
                },
            ),
        )
    } else if kind == "read"@ {
        (
            ch,
            Ok(
                ChannelAnswer::Value {
                    value: ch.reading(unit, at_us),
                    stale: ch.stale(at_us),
                },
            ),
        )
    } else {
        (ch, Err(Fault::UnknownEvent))
    }
}

/// One event for a channel.
pub fn channel_event<F: Fn(Op, Q16, Q16, Q16) -> Q16>(
    ch: &mut Channel,
    unit: &F,
    at_us: u64,
    kind: &String,
    ev: &Json,
) -> (r: Result<ChannelAnswer, Fault>)
    requires
        is_arithmetic(*unit),
    ensures
        (*final(ch), r) == channel_step(*old(ch), unit, at_us, kind@, *ev),
{
    if same_text(kind, "claim") {
        let producer = match producer_of(ev) {
            Ok(producer) => producer,
            Err(e) => {
                return Err(e);
            },
        };
        let priority: u64 = count_of(ev, "priority", 0);
        let lease_ms: u64 = count_of(ev, "lease_ms", 0);
        let outcome = ch.claim(
            at_us,
            producer,
            #[verifier::truncate]
            (priority as u8),
            #[verifier::truncate]
            (lease_ms as u32),
        );
        Ok(ChannelAnswer::Claimed(outcome))
    } else if same_text(kind, "release") {
        match producer_of(ev) {
            Ok(producer) => {
                if ch.release(producer) {
                    Ok(ChannelAnswer::Released)
                } else {
                    Ok(ChannelAnswer::ReleaseIgnored)
                }
            },
            Err(e) => Err(e),
        }
    } else if same_text(kind, "publish") {
        let producer = match producer_of(ev) {
            Ok(producer) => producer,
            Err(e) => {
                return Err(e);
            },
        };
        let seq: u64 = count_of(ev, "seq", 0);
        let value = q16_of(ev, "value");
        let taken: bool = ch.publish(
            at_us,
            producer,
            #[verifier::truncate]
            (seq as u16),
            value,
        );
        if taken {
            Ok(ChannelAnswer::Published)
        } else {
            Ok(ChannelAnswer::Dropped)
        }
    } else if same_text(kind, "advance") {
        match ch.advance(at_us) {
            Some(producer) => Ok(ChannelAnswer::LeaseLapsed(producer)),
            None => Ok(ChannelAnswer::Quiet),
        }
    } else if same_text(kind, "read") {
        Ok(ChannelAnswer::Value { value: ch.read(unit, at_us), stale: ch.is_stale(at_us) })
    } else {
        Err(Fault::UnknownEvent)
    }
}

/// What a gateway answers.
#[derive(Clone, Copy, PartialEq, Eq, Debug)]
pub enum GatewayAnswer {
    Admitted(Admitted),
    Refused(Refusal),
    /// Whether it would take a program.
    Program(bool),
    /// The highest priority a binding may be given.
    Ceiling(u8),
}

pub open spec fn protocol_named(name: Seq<char>) -> Result<Protocol, Fault> {
    if name == "artnet"@ {
        Ok(Protocol::ArtNet)
    } else if name == "e131"@ {
        Ok(Protocol::E131)
    } else if name == "ddp"@ {
        Ok(Protocol::Ddp)
    } else if name == "mqtt"@ {
        Ok(Protocol::Mqtt)
    } else if name == "http"@ {
        Ok(Protocol::Http)
    } else {
        Err(Fault::UnknownProtocol)
    }
}

pub fn protocol_of(name: &String) -> (r: Result<Protocol, Fault>)
    ensures
        r == protocol_named(name@),
{
    if same_text(name, "artnet") {
        Ok(Protocol::ArtNet)
    } else if same_text(name, "e131") {
        Ok(Protocol::E131)
    } else if same_text(name, "ddp") {
        Ok(Protocol::Ddp)
    } else if same_text(name, "mqtt") {
        Ok(Protocol::Mqtt)
    } else if same_text(name, "http") {
        Ok(Protocol::Http)
    } else {
        Err(Fault::UnknownProtocol)
    }
}

/// The binding that a description describes. It is not judged here: what is wrong
/// with it is the gateway's to say.
pub open spec fn binding_at(state: Json) -> Result<Binding, Fault> {
    match state.text_at("protocol"@) {
        None => Err(Fault::Missing(Field::Protocol)),
        Some(name) => match protocol_named(name) {
            Err(e) => Err(e),
            Ok(protocol) => match uuid_at(state, "id"@, Field::Id) {
                Err(e) => Err(e),
                Ok(id) => match uuid_at(state, "zone"@, Field::Zone) {
                    Err(e) => Err(e),
                    Ok(zone) => match state.number_at("priority_ceiling"@) {
                        None => Err(Fault::Missing(Field::PriorityCeiling)),
                        Some(ceiling) => Ok(
                            Binding {
                                id,
                                protocol,
                                zone,
                                pixels: (
                                    count_at(state, "pixel_from"@, 0) as u16,
                                    count_at(state, "pixel_to"@, 0) as u16,
                                ),
                                priority_ceiling: ceiling as u8,
                            },
                        ),
                    },
                },
            },
        },
    }
}

pub fn build_binding(state: &Json) -> (r: Result<Binding, Fault>)
    ensures
        r == binding_at(*state),
{
    let protocol = match state.get_text("protocol") {
        Some(t) => match protocol_of(&t.text) {
            Ok(protocol) => protocol,
            Err(e) => {
                return Err(e);
            },
        },
        None => {
            return Err(Fault::Missing(Field::Protocol));
        },
    };
    let from: u64 = count_of(state, "pixel_from", 0);
    let to: u64 = count_of(state, "pixel_to", 0);
    let id = match uuid_field(state, "id", Field::Id) {
        Ok(id) => id,
        Err(e) => {
            return Err(e);
        },
    };
    let zone = match uuid_field(state, "zone", Field::Zone) {
        Ok(zone) => zone,
        Err(e) => {
            return Err(e);
        },
    };
    let ceiling: u64 = match state.get_number("priority_ceiling") {
        Some(ceiling) => ceiling,
        None => {
            return Err(Fault::Missing(Field::PriorityCeiling));
        },
    };
    Ok(
        Binding {
            id,
            protocol,
            zone,
            pixels: (
                #[verifier::truncate]
                (from as u16),
                #[verifier::truncate]
                (to as u16),
            ),
            priority_ceiling: #[verifier::truncate]
            (ceiling as u8),
        },
    )
}

/// What an integration asks for. A priority that is left out is not a priority of
/// zero: the protocol carries none at all.
pub open spec fn ingress_at(ev: Json) -> Ingress {
    Ingress {
        offset: count_at(ev, "offset"@, 0) as u16,
        count: count_at(ev, "count"@, 0) as u16,
        priority: match ev.number_at("priority"@) {
            Some(p) => Some(p as u8),
            None => None,
        },
    }
}

pub open spec fn gateway_step(binding: Binding, at_us: u64, kind: Seq<char>, ev: Json) -> Result<
    GatewayAnswer,
    Fault,
> {
    if kind == "ingress"@ {
        match uuid_at(ev, "source_id"@, Field::SourceId) {
            Err(e) => Err(e),
            Ok(id) => Ok(
                match gateway_admission(binding, ingress_at(ev), id, at_us) {
                    Ok(a) => GatewayAnswer::Admitted(a),
                    Err(refusal) => GatewayAnswer::Refused(refusal),
                },
            ),
        }
    } else if kind == "program"@ {
        Ok(GatewayAnswer::Program(false))
    } else if kind == "ceiling"@ {
        Ok(GatewayAnswer::Ceiling(MAX_GATEWAY_PRIORITY))
    } else {
        Err(Fault::UnknownEvent)
    }
}

/// One event for a gateway.
pub fn gateway_event(binding: &Binding, at_us: u64, kind: &String, ev: &Json) -> (r: Result<
    GatewayAnswer,
    Fault,
>)
    ensures
        r == gateway_step(*binding, at_us, kind@, *ev),
{
    if same_text(kind, "ingress") {
        let offset: u64 = count_of(ev, "offset", 0);
        let count: u64 = count_of(ev, "count", 0);
        let priority: Option<u8> = match ev.get_number("priority") {
            Some(p) => Some(
                #[verifier::truncate]
                (p as u8),
            ),
            None => None,
        };
        let ingress = Ingress {
            offset: #[verifier::truncate]
            (offset as u16),
            count: #[verifier::truncate]
            (count as u16),
            priority,
        };
        let id = match uuid_field(ev, "source_id", Field::SourceId) {
            Ok(id) => id,
            Err(e) => {
                return Err(e);
            },
        };
        match apply(binding, &ingress, id, at_us) {
            Ok(a) => Ok(GatewayAnswer::Admitted(a)),
            Err(refusal) => Ok(GatewayAnswer::Refused(refusal)),
        }
    } else if same_text(kind, "program") {
        let gateway = Gateway::new();
        Ok(GatewayAnswer::Program(gateway.accepts_programs()))
    } else if same_text(kind, "ceiling") {
        Ok(GatewayAnswer::Ceiling(MAX_GATEWAY_PRIORITY))
    } else {
        Err(Fault::UnknownEvent)
    }
}

pub open spec fn axis_named(name: Option<Seq<char>>) -> Result<Axis, Fault> {
    match name {
        Some(n) => if n == "x"@ {
            Ok(Axis::X)
        } else if n == "y"@ {
            Ok(Axis::Y)
        } else if n == "z"@ {
            Ok(Axis::Z)
        } else {
            Err(Fault::UnknownAxis)
        },
        None => Err(Fault::UnknownAxis),
    }
}

pub open spec fn comparison_named(name: Option<Seq<char>>) -> Result<CmpOp, Fault> {
    match name {
        Some(n) => if n == "lt"@ {
            Ok(CmpOp::Lt)
        } else if n == "le"@ {
            Ok(CmpOp::Le)
        } else if n == "gt"@ {
            Ok(CmpOp::Gt)
        } else if n == "ge"@ {
            Ok(CmpOp::Ge)
        } else {
            Err(Fault::UnknownComparison)
        },
        None => Err(Fault::UnknownComparison),
    }
}

fn axis_of(j: &Json) -> (r: Result<Axis, Fault>)
    ensures
        r == axis_named(j.text_at("axis"@)),
{
    match j.get_text("axis") {
        Some(t) => if same_text(&t.text, "x") {
            Ok(Axis::X)
        } else if same_text(&t.text, "y") {
            Ok(Axis::Y)
        } else if same_text(&t.text, "z") {
            Ok(Axis::Z)
        } else {
            Err(Fault::UnknownAxis)
        },
        None => Err(Fault::UnknownAxis),
    }
}

fn comparison_of(j: &Json) -> (r: Result<CmpOp, Fault>)
    ensures
        r == comparison_named(j.text_at("op"@)),
{
    match j.get_text("op") {
        Some(t) => if same_text(&t.text, "lt") {
            Ok(CmpOp::Lt)
        } else if same_text(&t.text, "le") {
            Ok(CmpOp::Le)
        } else if same_text(&t.text, "gt") {
            Ok(CmpOp::Gt)
        } else if same_text(&t.text, "ge") {
            Ok(CmpOp::Ge)
        } else {
            Err(Fault::UnknownComparison)
        },
        None => Err(Fault::UnknownComparison),
    }
}

/// What is under a key is smaller than what it is in.
pub proof fn lemma_within(j: Json, key: Seq<char>)
    ensures
        j.at(key) matches Some(v) ==> decreases_to!(j => v),
        j.list_at(key) matches Some(parts) ==> decreases_to!(j => parts) && forall|i: int|
            0 <= i < parts.len() ==> decreases_to!(j => #[trigger] parts[i]),
{
    if let Json::Object(entries) = j {
        lemma_value_within(entries@, key, 0);
        assert(decreases_to!(j => entries));
        assert(decreases_to!(entries => entries@));
        if let Some(Json::Array(list)) = j.at(key) {
            let v = j.at(key)->0;
            assert(decreases_to!(j => v));
            assert(decreases_to!(v => list));
            assert(decreases_to!(list => list@));
        }
    }
}

proof fn lemma_value_within(entries: Seq<Entry>, key: Seq<char>, from: int)
    ensures
        value_from(entries, key, from) matches Some(v) ==> decreases_to!(entries => v),
    decreases entries.len() - from,
{
    if 0 <= from < entries.len() {
        if entries[from].key@ == key {
            assert(decreases_to!(entries => entries[from]));
            assert(decreases_to!(entries[from] => entries[from].value));
        } else {
            lemma_value_within(entries, key, from + 1);
        }
    }
}

/// What keeps a description from describing a predicate: the first thing wrong
/// with it, if anything is.
pub open spec fn predicate_fault(j: Json) -> Option<Fault>
    decreases j, 0nat,
{
    proof {
        lemma_within(j, "of"@);
    }
    match j.text_at("predicate"@) {
        None => Some(Fault::UnknownPredicate),
        Some(name) => if name == "compare"@ {
            match axis_named(j.text_at("axis"@)) {
                Err(e) => Some(e),
                Ok(_) => match comparison_named(j.text_at("op"@)) {
                    Err(e) => Some(e),
                    Ok(_) => None,
                },
            }
        } else if name == "near"@ {
            None
        } else if name == "not"@ {
            match j.at("of"@) {
                None => Some(Fault::Missing(Field::Of)),
                Some(inner) => predicate_fault(inner),
            }
        } else if name == "all"@ || name == "any"@ {
            match j.list_at("of"@) {
                None => Some(Fault::Missing(Field::Of)),
                Some(parts) => parts_fault(parts, parts.len()),
            }
        } else {
            Some(Fault::UnknownPredicate)
        },
    }
}

/// The first thing wrong with the first `n` of some descriptions.
pub open spec fn parts_fault(parts: Seq<Json>, n: nat) -> Option<Fault>
    decreases parts, n,
{
    if n == 0 || n > parts.len() {
        None
    } else {
        match parts_fault(parts, (n - 1) as nat) {
            Some(e) => Some(e),
            None => predicate_fault(parts[n - 1]),
        }
    }
}

/// Whether a description describes this predicate.
pub open spec fn describes(j: Json, p: Predicate) -> bool
    decreases j,
{
    proof {
        lemma_within(j, "of"@);
    }
    match j.text_at("predicate"@) {
        None => false,
        Some(name) => if name == "compare"@ {
            p matches Predicate::Compare { axis, op, value } && axis_named(j.text_at("axis"@))
                == Ok::<Axis, Fault>(axis) && comparison_named(j.text_at("op"@)) == Ok::<
                CmpOp,
                Fault,
            >(op) && value == q16_at(j, "value"@)
        } else if name == "near"@ {
            p == Predicate::Near { point: triple_at(j, "point"@), radius: q16_at(j, "radius"@) }
        } else if name == "not"@ {
            p matches Predicate::Not(inner) && (j.at("of"@) matches Some(of) && describes(
                of,
                *inner,
            ))
        } else if name == "all"@ {
            p matches Predicate::All(ps) && (j.list_at("of"@) matches Some(parts) && parts.len()
                == ps@.len() && forall|i: int|
                0 <= i < parts.len() ==> describes(#[trigger] parts[i], ps@[i]))
        } else if name == "any"@ {
            p matches Predicate::Any(ps) && (j.list_at("of"@) matches Some(parts) && parts.len()
                == ps@.len() && forall|i: int|
                0 <= i < parts.len() ==> describes(#[trigger] parts[i], ps@[i]))
        } else {
            false
        },
    }
}

/// Build a predicate.
pub fn build_predicate(j: &Json) -> (r: Result<Predicate, Fault>)
    ensures
        match r {
            Ok(p) => predicate_fault(*j) is None && describes(*j, p),
            Err(e) => predicate_fault(*j) == Some(e),
        },
    decreases *j, 0nat,
{
    let name = match j.get_text("predicate") {
        Some(t) => &t.text,
        None => {
            return Err(Fault::UnknownPredicate);
        },
    };
    if same_text(name, "compare") {
        let axis = match axis_of(j) {
            Ok(axis) => axis,
            Err(e) => {
                return Err(e);
            },
        };
        let op = match comparison_of(j) {
            Ok(op) => op,
            Err(e) => {
                return Err(e);
            },
        };
        Ok(Predicate::Compare { axis, op, value: q16_of(j, "value") })
    } else if same_text(name, "near") {
        Ok(Predicate::Near { point: triple(j, "point"), radius: q16_of(j, "radius") })
    } else if same_text(name, "not") {
        match j.get("of") {
            Some(inner) => match build_predicate(inner) {
                Ok(p) => Ok(Predicate::Not(Box::new(p))),
                Err(e) => Err(e),
            },
            None => Err(Fault::Missing(Field::Of)),
        }
    } else if same_text(name, "all") {
        match j.get_list("of") {
            Some(parts) => match build_predicates(parts) {
                Ok(ps) => Ok(Predicate::All(ps)),
                Err(e) => Err(e),
            },
            None => Err(Fault::Missing(Field::Of)),
        }
    } else if same_text(name, "any") {
        match j.get_list("of") {
            Some(parts) => match build_predicates(parts) {
                Ok(ps) => Ok(Predicate::Any(ps)),
                Err(e) => Err(e),
            },
            None => Err(Fault::Missing(Field::Of)),
        }
    } else {
        Err(Fault::UnknownPredicate)
    }
}

fn build_predicates(parts: &Vec<Json>) -> (r: Result<Vec<Predicate>, Fault>)
    ensures
        match r {
            Ok(ps) => parts_fault(parts@, parts@.len()) is None && ps@.len() == parts@.len()
                && forall|i: int|
                0 <= i < parts@.len() ==> describes(#[trigger] parts@[i], ps@[i]),
            Err(e) => parts_fault(parts@, parts@.len()) == Some(e),
        },
    decreases *parts, 1nat,
{
    let mut ps: Vec<Predicate> = Vec::new();
    let mut i: usize = 0;
    #[verifier::loop_isolation(false)]
    while i < parts.len()
        invariant
            i <= parts@.len(),
            ps@.len() == i,
            parts_fault(parts@, i as nat) is None,
            forall|k: int| 0 <= k < i ==> describes(#[trigger] parts@[k], ps@[k]),
        decreases parts@.len() - i,
    {
        proof {
            assert(decreases_to!(*parts => parts@));
            assert(decreases_to!(parts@ => parts@[i as int]));
        }
        match build_predicate(&parts[i]) {
            Ok(p) => {
                assert(parts_fault(parts@, (i + 1) as nat) is None);
                ps.push(p);
            },
            Err(e) => {
                proof {
                    assert(parts_fault(parts@, (i + 1) as nat) == Some(e));
                    lemma_fault_stays(parts@, (i + 1) as nat, parts@.len());
                }
                return Err(e);
            },
        }
        i += 1;
    }
    Ok(ps)
}

proof fn lemma_fault_stays(parts: Seq<Json>, n: nat, m: nat)
    requires
        n <= m <= parts.len(),
        parts_fault(parts, n) is Some,
    ensures
        parts_fault(parts, m) == parts_fault(parts, n),
    decreases m,
{
    if n < m {
        lemma_fault_stays(parts, n, (m - 1) as nat);
    }
}

/// The count in place `i` of a list, zero where there is none.
pub open spec fn count_in(list: Seq<Json>, i: int) -> u64 {
    if i < list.len() {
        match list[i] {
            Json::Number(n) => match n.unsigned {
                Some(v) => v,
                None => 0,
            },
            _ => 0,
        }
    } else {
        0
    }
}

fn count_within(list: &Vec<Json>, i: usize) -> (r: u64)
    ensures
        r == count_in(list@, i as int),
{
    if i < list.len() {
        match &list[i] {
            Json::Number(n) => match n.unsigned {
                Some(v) => v,
                None => 0,
            },
            _ => 0,
        }
    } else {
        0
    }
}

/// What keeps a description from describing a clause.
pub open spec fn clause_fault(j: Json) -> Option<Fault> {
    match j.text_at("clause"@) {
        None => Some(Fault::UnknownClause),
        Some(name) => if name == "device"@ {
            match uuid_at(j, "device"@, Field::Device) {
                Ok(_) => None,
                Err(e) => Some(e),
            }
        } else if name == "where"@ {
            predicate_fault(j)
        } else {
            Some(Fault::UnknownClause)
        },
    }
}

/// Whether a description describes this clause.
pub open spec fn describes_clause(j: Json, c: Clause) -> bool {
    match j.text_at("clause"@) {
        None => false,
        Some(name) => if name == "device"@ {
            uuid_at(j, "device"@, Field::Device) matches Ok(device) && c == (Clause::Device {
                device,
                leds: match j.list_at("leds"@) {
                    Some(list) => Some((count_in(list, 0) as u16, count_in(list, 1) as u16)),
                    None => None,
                },
            })
        } else {
            name == "where"@ && (c matches Clause::Where(p) && describes(j, p))
        },
    }
}

/// Build a clause.
pub fn build_clause(j: &Json) -> (r: Result<Clause, Fault>)
    ensures
        match r {
            Ok(c) => clause_fault(*j) is None && describes_clause(*j, c),
            Err(e) => clause_fault(*j) == Some(e),
        },
{
    let name = match j.get_text("clause") {
        Some(t) => &t.text,
        None => {
            return Err(Fault::UnknownClause);
        },
    };
    if same_text(name, "device") {
        let leds: Option<(u16, u16)> = match j.get_list("leds") {
            Some(list) => {
                let (from, to) = (count_within(list, 0), count_within(list, 1));
                Some(
                    (
                        #[verifier::truncate]
                        (from as u16),
                        #[verifier::truncate]
                        (to as u16),
                    ),
                )
            },
            None => None,
        };
        match uuid_field(j, "device", Field::Device) {
            Ok(device) => Ok(Clause::Device { device, leds }),
            Err(e) => Err(e),
        }
    } else if same_text(name, "where") {
        match build_predicate(j) {
            Ok(p) => Ok(Clause::Where(p)),
            Err(e) => Err(e),
        }
    } else {
        Err(Fault::UnknownClause)
    }
}

/// The first thing wrong with the first `n` of some clauses.
pub open spec fn clauses_fault(parts: Seq<Json>, n: nat) -> Option<Fault>
    decreases n,
{
    if n == 0 || n > parts.len() {
        None
    } else {
        match clauses_fault(parts, (n - 1) as nat) {
            Some(e) => Some(e),
            None => clause_fault(parts[n - 1]),
        }
    }
}

/// The clauses under a key: none where it is left out.
pub open spec fn clauses_at(j: Json, key: Seq<char>) -> Seq<Json> {
    match j.list_at(key) {
        Some(parts) => parts,
        None => Seq::empty(),
    }
}

pub open spec fn describes_clauses(parts: Seq<Json>, clauses: Seq<Clause>) -> bool {
    parts.len() == clauses.len() && forall|i: int|
        0 <= i < parts.len() ==> describes_clause(#[trigger] parts[i], clauses[i])
}

proof fn lemma_clauses_fault_stays(parts: Seq<Json>, n: nat, m: nat)
    requires
        n <= m <= parts.len(),
        clauses_fault(parts, n) is Some,
    ensures
        clauses_fault(parts, m) == clauses_fault(parts, n),
    decreases m,
{
    if n < m {
        lemma_clauses_fault_stays(parts, n, (m - 1) as nat);
    }
}

fn build_clauses(j: &Json, key: &str) -> (r: Result<Vec<Clause>, Fault>)
    ensures
        ({
            let parts = clauses_at(*j, key@);
            match r {
                Ok(cs) => clauses_fault(parts, parts.len()) is None && describes_clauses(
                    parts,
                    cs@,
                ),
                Err(e) => clauses_fault(parts, parts.len()) == Some(e),
            }
        }),
{
    let mut out: Vec<Clause> = Vec::new();
    let parts = match j.get_list(key) {
        Some(parts) => parts,
        None => {
            return Ok(out);
        },
    };
    let mut i: usize = 0;
    while i < parts.len()
        invariant
            parts@ == clauses_at(*j, key@),
            i <= parts@.len(),
            out@.len() == i,
            clauses_fault(parts@, i as nat) is None,
            forall|k: int| 0 <= k < i ==> describes_clause(#[trigger] parts@[k], out@[k]),
        decreases parts@.len() - i,
    {
        match build_clause(&parts[i]) {
            Ok(c) => {
                assert(clauses_fault(parts@, (i + 1) as nat) is None);
                out.push(c);
            },
            Err(e) => {
                proof {
                    assert(clauses_fault(parts@, (i + 1) as nat) == Some(e));
                    lemma_clauses_fault_stays(parts@, (i + 1) as nat, parts@.len());
                }
                return Err(e);
            },
        }
        i += 1;
    }
    Ok(out)
}

pub open spec fn quality_named(name: Option<Seq<char>>) -> Result<MapQuality, Fault> {
    match name {
        Some(n) => if n == "synthetic"@ {
            Ok(MapQuality::Synthetic)
        } else if n == "rough"@ {
            Ok(MapQuality::Rough)
        } else if n == "mapped"@ {
            Ok(MapQuality::Mapped)
        } else {
            Err(Fault::UnknownQuality)
        },
        None => Err(Fault::UnknownQuality),
    }
}

fn quality_of(j: &Json) -> (r: Result<MapQuality, Fault>)
    ensures
        r == quality_named(j.text_at("quality"@)),
{
    match j.get_text("quality") {
        Some(t) => if same_text(&t.text, "synthetic") {
            Ok(MapQuality::Synthetic)
        } else if same_text(&t.text, "rough") {
            Ok(MapQuality::Rough)
        } else if same_text(&t.text, "mapped") {
            Ok(MapQuality::Mapped)
        } else {
            Err(Fault::UnknownQuality)
        },
        None => Err(Fault::UnknownQuality),
    }
}

/// The LED that a description describes.
pub open spec fn led_at(j: Json) -> Led {
    Led {
        index: count_at(j, "index"@, 0) as u16,
        world: triple_at(j, "world"@),
        local: triple_at(j, "local"@),
    }
}

/// What keeps a description from describing a zone and a device.
pub open spec fn zone_state_fault(state: Json) -> Option<Fault> {
    match state.at("zone"@) {
        None => Some(Fault::Missing(Field::Zone)),
        Some(zj) => {
            let (inc, exc) = (clauses_at(zj, "include"@), clauses_at(zj, "exclude"@));
            match uuid_at(zj, "id"@, Field::Id) {
                Err(e) => Some(e),
                Ok(_) => match clauses_fault(inc, inc.len()) {
                    Some(e) => Some(e),
                    None => match clauses_fault(exc, exc.len()) {
                        Some(e) => Some(e),
                        None => match state.at("device"@) {
                            None => Some(Fault::Missing(Field::Device)),
                            Some(dj) => match quality_named(dj.text_at("quality"@)) {
                                Err(e) => Some(e),
                                Ok(_) => match dj.list_at("leds"@) {
                                    None => Some(Fault::Missing(Field::Leds)),
                                    Some(_) => match uuid_at(dj, "device"@, Field::Device) {
                                        Err(e) => Some(e),
                                        Ok(_) => None,
                                    },
                                },
                            },
                        },
                    },
                },
            }
        },
    }
}

/// Whether a description describes this zone and this device. Membership does not
/// depend on the projection, so it is the one an unmapped device uses.
pub open spec fn describes_zone_state(state: Json, zone: Zone, dev: DeviceLeds) -> bool {
    state.at("zone"@) matches Some(zj) && state.at("device"@) matches Some(dj) && {
        &&& uuid_at(zj, "id"@, Field::Id) == Ok::<Uuid, Fault>(zone.id)
        &&& describes_clauses(clauses_at(zj, "include"@), zone.included@)
        &&& describes_clauses(clauses_at(zj, "exclude"@), zone.excluded@)
        &&& zone.projection is Strip
        &&& quality_named(dj.text_at("quality"@)) == Ok::<MapQuality, Fault>(dev.quality)
        &&& uuid_at(dj, "device"@, Field::Device) == Ok::<Uuid, Fault>(dev.device)
        &&& dj.list_at("leds"@) matches Some(leds) && dev.leds@ == leds.map_values(
            |j: Json| led_at(j),
        )
    }
}

/// Build a zone and the device it is judged against.
pub fn build_zone_state(state: &Json) -> (r: Result<(Zone, DeviceLeds), Fault>)
    ensures
        match r {
            Ok((zone, dev)) => zone_state_fault(*state) is None && describes_zone_state(
                *state,
                zone,
                dev,
            ),
            Err(e) => zone_state_fault(*state) == Some(e),
        },
{
    let zj = match state.get("zone") {
        Some(zj) => zj,
        None => {
            return Err(Fault::Missing(Field::Zone));
        },
    };
    let id = match uuid_field(zj, "id", Field::Id) {
        Ok(id) => id,
        Err(e) => {
            return Err(e);
        },
    };
    let included = match build_clauses(zj, "include") {
        Ok(clauses) => clauses,
        Err(e) => {
            return Err(e);
        },
    };
    let excluded = match build_clauses(zj, "exclude") {
        Ok(clauses) => clauses,
        Err(e) => {
            return Err(e);
        },
    };
    let dj = match state.get("device") {
        Some(dj) => dj,
        None => {
            return Err(Fault::Missing(Field::Device));
        },
    };
    let quality = match quality_of(dj) {
        Ok(quality) => quality,
        Err(e) => {
            return Err(e);
        },
    };
    let listed = match dj.get_list("leds") {
        Some(listed) => listed,
        None => {
            return Err(Fault::Missing(Field::Leds));
        },
    };
    let leds = build_leds(listed);
    let device = match uuid_field(dj, "device", Field::Device) {
        Ok(device) => device,
        Err(e) => {
            return Err(e);
        },
    };
    Ok(
        (
            Zone { id, included, excluded, projection: Projection::Strip },
            DeviceLeds { device, quality, leds },
        ),
    )
}

fn build_leds(listed: &Vec<Json>) -> (leds: Vec<Led>)
    ensures
        leds@ == listed@.map_values(|j: Json| led_at(j)),
{
    let mut leds: Vec<Led> = Vec::new();
    let mut i: usize = 0;
    while i < listed.len()
        invariant
            i <= listed@.len(),
            leds@.len() == i,
            forall|k: int| 0 <= k < i ==> #[trigger] leds@[k] == led_at(listed@[k]),
        decreases listed@.len() - i,
    {
        let j = &listed[i];
        let index: u64 = count_of(j, "index", 0);
        leds.push(
            Led {
                index: #[verifier::truncate]
                (index as u16),
                world: triple(j, "world"),
                local: triple(j, "local"),
            },
        );
        i += 1;
    }
    assert(leds@ =~= listed@.map_values(|j: Json| led_at(j)));
    leds
}

/// What a zone answers.
#[derive(PartialEq, Eq, Debug)]
pub enum ZoneAnswer {
    /// The LEDs it covers.
    Selected(Vec<u16>),
    /// Whether the device would be covered if only it were placed.
    ExcludedForMapping(bool),
}

/// Whether this is what a zone answers.
pub open spec fn zone_answers<F: Fn(Op, Q16, Q16, Q16) -> Q16>(
    zone: Zone,
    dev: DeviceLeds,
    unit: &F,
    kind: Seq<char>,
    r: Result<ZoneAnswer, Fault>,
) -> bool {
    if kind == "resolve"@ {
        r matches Ok(ZoneAnswer::Selected(leds)) && names_ascending(
            leds@,
            zone.members(unit, dev.device, !(dev.quality is Synthetic), dev.leds@),
        )
    } else if kind == "why_excluded"@ {
        r == Ok::<ZoneAnswer, Fault>(
            ZoneAnswer::ExcludedForMapping(
                dev.quality is Synthetic && zone.members(
                    unit,
                    dev.device,
                    false,
                    dev.leds@,
                ).len() == 0 && zone.members(unit, dev.device, true, dev.leds@).len() > 0,
            ),
        )
    } else {
        r == Err::<ZoneAnswer, Fault>(Fault::UnknownEvent)
    }
}

/// One event for a zone.
pub fn zone_event<F: Fn(Op, Q16, Q16, Q16) -> Q16>(
    zone: &Zone,
    dev: &DeviceLeds,
    unit: &F,
    kind: &String,
) -> (r: Result<ZoneAnswer, Fault>)
    requires
        is_arithmetic(*unit),
    ensures
        zone_answers(*zone, *dev, unit, kind@, r),
{
    if same_text(kind, "resolve") {
        let m = zone.resolve(unit, dev);
        Ok(ZoneAnswer::Selected(m.leds))
    } else if same_text(kind, "why_excluded") {
        Ok(ZoneAnswer::ExcludedForMapping(zone.excluded_for_mapping(unit, dev)))
    } else {
        Err(Fault::UnknownEvent)
    }
}

/// The first `n` of some identities and keys, taken in: the keys so far, or the
/// first thing wrong.
pub open spec fn keys_in(list: Seq<Json>, n: nat) -> Result<Map<Uuid, [u8; 32]>, Fault>
    decreases n,
{
    if n == 0 || n > list.len() {
        Ok(Map::empty())
    } else {
        match keys_in(list, (n - 1) as nat) {
            Err(e) => Err(e),
            Ok(before) => match uuid_at(list[n - 1], "id"@, Field::Id) {
                Err(e) => Err(e),
                Ok(id) => match key_at(list[n - 1], "key"@) {
                    Err(e) => Err(e),
                    Ok(key) => Ok(before.insert(id, key)),
                },
            },
        }
    }
}

/// Everyone that a list under a key names: nobody where it is left out.
pub open spec fn keys_at(state: Json, key: Seq<char>) -> Result<Map<Uuid, [u8; 32]>, Fault> {
    match state.list_at(key) {
        Some(list) => keys_in(list, list.len()),
        None => Ok(Map::empty()),
    }
}

/// Who may sign what, as a description says.
pub open spec fn authority_at(state: Json) -> Result<AuthorityModel, Fault> {
    match keys_at(state, "controllers"@) {
        Err(e) => Err(e),
        Ok(controllers) => match keys_at(state, "devices"@) {
            Err(e) => Err(e),
            Ok(devices) => Ok(AuthorityModel { controllers, devices }),
        },
    }
}

proof fn lemma_keys_fault_stays(list: Seq<Json>, n: nat, m: nat)
    requires
        n <= m <= list.len(),
        keys_in(list, n) is Err,
    ensures
        keys_in(list, m) == keys_in(list, n),
    decreases m,
{
    if n < m {
        lemma_keys_fault_stays(list, n, (m - 1) as nat);
    }
}

fn take_keys(a: &mut Authority, state: &Json, key: &str, controllers: bool) -> (r: Result<
    (),
    Fault,
>)
    requires
        old(a).wf(),
        controllers ==> old(a)@.controllers == Map::<Uuid, [u8; 32]>::empty(),
        !controllers ==> old(a)@.devices == Map::<Uuid, [u8; 32]>::empty(),
    ensures
        final(a).wf(),
        match r {
            Ok(()) => {
                &&& controllers ==> keys_at(*state, key@) == Ok::<Map<Uuid, [u8; 32]>, Fault>(
                    final(a)@.controllers,
                ) && final(a)@.devices == old(a)@.devices
                &&& !controllers ==> keys_at(*state, key@) == Ok::<Map<Uuid, [u8; 32]>, Fault>(
                    final(a)@.devices,
                ) && final(a)@.controllers == old(a)@.controllers
            },
            Err(e) => keys_at(*state, key@) == Err::<Map<Uuid, [u8; 32]>, Fault>(e),
        },
{
    let list = match state.get_list(key) {
        Some(list) => list,
        None => {
            return Ok(());
        },
    };
    let ghost was = a@;
    let mut i: usize = 0;
    while i < list.len()
        invariant
            a.wf(),
            keys_at(*state, key@) == keys_in(list@, list@.len()),
            was == old(a)@,
            i <= list@.len(),
            controllers ==> keys_in(list@, i as nat) == Ok::<Map<Uuid, [u8; 32]>, Fault>(
                a@.controllers,
            ) && a@.devices == was.devices,
            !controllers ==> keys_in(list@, i as nat) == Ok::<Map<Uuid, [u8; 32]>, Fault>(
                a@.devices,
            ) && a@.controllers == was.controllers,
        decreases list@.len() - i,
    {
        let id = match uuid_field(&list[i], "id", Field::Id) {
            Ok(id) => id,
            Err(e) => {
                proof {
                    assert(keys_in(list@, (i + 1) as nat) == Err::<Map<Uuid, [u8; 32]>, Fault>(e));
                    lemma_keys_fault_stays(list@, (i + 1) as nat, list@.len());
                }
                return Err(e);
            },
        };
        let public = match key32(&list[i], "key") {
            Ok(public) => public,
            Err(e) => {
                proof {
                    assert(keys_in(list@, (i + 1) as nat) == Err::<Map<Uuid, [u8; 32]>, Fault>(e));
                    lemma_keys_fault_stays(list@, (i + 1) as nat, list@.len());
                }
                return Err(e);
            },
        };
        if controllers {
            a.authorise_controller(id, public);
        } else {
            a.register_device(id, public);
        }
        i += 1;
    }
    Ok(())
}

/// Build the table of who may sign what.
pub fn build_authority(state: &Json) -> (r: Result<Authority, Fault>)
    ensures
        answers(r, authority_at(*state)),
        r matches Ok(a) ==> a.wf(),
{
    let mut a = Authority::new();
    match take_keys(&mut a, state, "controllers", true) {
        Ok(()) => {},
        Err(e) => {
            return Err(e);
        },
    }
    match take_keys(&mut a, state, "devices", false) {
        Ok(()) => {},
        Err(e) => {
            return Err(e);
        },
    }
    Ok(a)
}

/// The record that a description describes.
pub open spec fn record_at(j: Json) -> Result<RecordModel, Fault> {
    let kind = count_at(j, "kind"@, 255) as u8;
    if kind > 8 {
        Err(Fault::UnknownRecordKind)
    } else {
        match exactly_at(j, "signature"@, Field::Signature, 64) {
            Err(e) => Err(e),
            Ok(signature) => match uuid_at(j, "id"@, Field::Id) {
                Err(e) => Err(e),
                Ok(id) => match uuid_at(j, "author"@, Field::Author) {
                    Err(e) => Err(e),
                    Ok(author) => match body_at(j) {
                        Err(e) => Err(e),
                        Ok(body) => Ok(
                            RecordModel {
                                id,
                                kind: choose|k: RecordType| k.code() == kind,
                                hlc: Hlc(count_at(j, "hlc"@, 0)),
                                author,
                                body,
                                signature: array_of::<64>(signature),
                            },
                        ),
                    },
                },
            },
        }
    }
}

/// A record's body: nothing where it is left out.
pub open spec fn body_at(j: Json) -> Result<Seq<u8>, Fault> {
    match bytes_at(j, "body"@, Field::Body) {
        Err(Fault::Missing(_)) => Ok(Seq::empty()),
        other => other,
    }
}

fn copied(bytes: &Vec<u8>) -> (r: Vec<u8>)
    ensures
        r@ == bytes@,
{
    let mut r: Vec<u8> = Vec::new();
    let mut i: usize = 0;
    while i < bytes.len()
        invariant
            i <= bytes@.len(),
            r@ == bytes@.take(i as int),
        decreases bytes@.len() - i,
    {
        r.push(bytes[i]);
        i += 1;
        assert(r@ =~= bytes@.take(i as int));
    }
    assert(bytes@.take(i as int) =~= bytes@);
    r
}

/// Build a record.
pub fn build_record(j: &Json) -> (r: Result<Record, Fault>)
    ensures
        answers(r, record_at(*j)),
{
    let number: u64 = count_of(j, "kind", 255);
    let code: u8 = #[verifier::truncate]
    (number as u8);
    let kind = match RecordType::from_u8(code) {
        Some(kind) => kind,
        None => {
            return Err(Fault::UnknownRecordKind);
        },
    };
    let signature: [u8; 64] = match bytes_of(j, "signature", Field::Signature) {
        Ok(bytes) => {
            if bytes.len() != 64 {
                return Err(Fault::WrongLength { field: Field::Signature, got: bytes.len() });
            }
            fixed_64(bytes)
        },
        Err(e) => {
            return Err(e);
        },
    };
    let id = match uuid_field(j, "id", Field::Id) {
        Ok(id) => id,
        Err(e) => {
            return Err(e);
        },
    };
    let hlc = Hlc(count_of(j, "hlc", 0));
    let author = match uuid_field(j, "author", Field::Author) {
        Ok(author) => author,
        Err(e) => {
            return Err(e);
        },
    };
    let body: Vec<u8> = match bytes_of(j, "body", Field::Body) {
        Ok(bytes) => copied(bytes),
        Err(Fault::Missing(_)) => Vec::new(),
        Err(e) => {
            return Err(e);
        },
    };
    proof {
        let k = choose|k: RecordType| k.code() == code;
        assert(kind.code() == code);
        assert(k == kind);
    }
    Ok(Record { id, kind, hlc, author, body, signature })
}

/// The name of a reason.
pub open spec fn named_reason(r: RejectReason) -> Seq<char> {
    match r {
        RejectReason::BadSignature => "bad_signature"@,
        RejectReason::UnknownAuthor => "unknown_author"@,
        RejectReason::NotItsOwnDeviceRecord => "not_its_own_device_record"@,
        RejectReason::WrongAuthority => "wrong_authority"@,
        RejectReason::Superseded => "superseded"@,
    }
}

pub fn reject_name(r: &RejectReason) -> (name: &'static str)
    ensures
        name@ == named_reason(*r),
{
    match r {
        RejectReason::BadSignature => "bad_signature",
        RejectReason::UnknownAuthor => "unknown_author",
        RejectReason::NotItsOwnDeviceRecord => "not_its_own_device_record",
        RejectReason::WrongAuthority => "wrong_authority",
        RejectReason::Superseded => "superseded",
    }
}

/// What a store answers.
#[derive(PartialEq, Eq, Debug)]
pub enum RecordsAnswer {
    Accepted,
    Rejected(RejectReason),
    Digest(Vec<DigestEntry>),
    Wanted(Vec<Uuid>),
}

/// The first `n` entries of a peer's digest that can be read; the others are
/// passed over.
pub open spec fn entries_in(list: Seq<Json>, n: nat) -> Seq<DigestEntry>
    decreases n,
{
    if n == 0 || n > list.len() {
        Seq::empty()
    } else {
        let before = entries_in(list, (n - 1) as nat);
        match (uuid_at(list[n - 1], "id"@, Field::Id), list[n - 1].number_at("hlc"@)) {
            (Ok(id), Some(hlc)) => before.push(DigestEntry { id, hlc: Hlc(hlc) }),
            _ => before,
        }
    }
}

pub open spec fn theirs_at(ev: Json) -> Seq<DigestEntry> {
    match ev.list_at("theirs"@) {
        Some(list) => entries_in(list, list.len()),
        None => Seq::empty(),
    }
}

fn build_theirs(ev: &Json) -> (out: Vec<DigestEntry>)
    ensures
        out@ == theirs_at(*ev),
{
    let mut out: Vec<DigestEntry> = Vec::new();
    let list = match ev.get_list("theirs") {
        Some(list) => list,
        None => {
            return out;
        },
    };
    let mut i: usize = 0;
    while i < list.len()
        invariant
            i <= list@.len(),
            out@ == entries_in(list@, i as nat),
        decreases list@.len() - i,
    {
        if let Ok(id) = uuid_field(&list[i], "id", Field::Id) {
            if let Some(hlc) = list[i].get_number("hlc") {
                out.push(DigestEntry { id, hlc: Hlc(hlc) });
            }
        }
        i += 1;
    }
    out
}

/// Whether a store does this with an event, and answers so.
pub open spec fn records_answers<F: Fn(&[u8; 32], &[u8], &[u8; 64]) -> bool>(
    was: StoreModel,
    now: StoreModel,
    authority: AuthorityModel,
    verifier: F,
    kind: Seq<char>,
    ev: Json,
    r: Result<RecordsAnswer, Fault>,
) -> bool {
    if kind == "accept"@ {
        match ev.at("record"@) {
            None => now == was && r == Err::<RecordsAnswer, Fault>(Fault::Missing(Field::Record)),
            Some(rj) => match record_at(rj) {
                Err(e) => now == was && r == Err::<RecordsAnswer, Fault>(e),
                Ok(record) => match was.screened(authority, record) {
                    Err(e) => now == was && r == Ok::<RecordsAnswer, Fault>(
                        RecordsAnswer::Rejected(e),
                    ),
                    Ok(key) => exists|verified: bool|
                        {
                            let wall_ms = count_at(ev, "wall_ms"@, 0) as int;
                            let offered = was.offered(authority, record, verified, wall_ms);
                            &&& #[trigger] may_say(
                                verifier,
                                key,
                                record.preimage(),
                                record.signature,
                                verified,
                            )
                            &&& now == offered.0
                            &&& r == Ok::<RecordsAnswer, Fault>(
                                match offered.1 {
                                    Ok(_) => RecordsAnswer::Accepted,
                                    Err(e) => RecordsAnswer::Rejected(e),
                                },
                            )
                        },
                },
            },
        }
    } else if kind == "digest"@ {
        &&& now == was
        &&& r matches Ok(RecordsAnswer::Digest(entries)) && was.is_digest(entries@)
    } else if kind == "wanted"@ {
        &&& now == was
        &&& r matches Ok(RecordsAnswer::Wanted(ids)) && ids@ == theirs_at(ev).filter(
            |e: DigestEntry| was.lacks(e),
        ).map_values(|e: DigestEntry| e.id)
    } else {
        now == was && r == Err::<RecordsAnswer, Fault>(Fault::UnknownEvent)
    }
}

/// One event for a store.
pub fn records_event<F: Fn(&[u8; 32], &[u8], &[u8; 64]) -> bool>(
    store: &mut Store,
    authority: &Authority,
    verifier: &F,
    kind: &String,
    ev: &Json,
) -> (r: Result<RecordsAnswer, Fault>)
    requires
        old(store).wf(),
        authority.wf(),
        forall|key: &[u8; 32], message: &[u8], signature: &[u8; 64]| #[trigger]
            call_requires(*verifier, (key, message, signature)),
    ensures
        final(store).wf(),
        records_answers(
            old(store)@,
            final(store)@,
            authority@,
            *verifier,
            kind@,
            *ev,
            r,
        ),
{
    if same_text(kind, "accept") {
        let rj = match ev.get("record") {
            Some(rj) => rj,
            None => {
                return Err(Fault::Missing(Field::Record));
            },
        };
        let record = match build_record(rj) {
            Ok(record) => record,
            Err(e) => {
                return Err(e);
            },
        };
        let wall_ms: u64 = count_of(ev, "wall_ms", 0);
        match store.accept(record, authority, verifier, wall_ms) {
            Ok(()) => Ok(RecordsAnswer::Accepted),
            Err(e) => Ok(RecordsAnswer::Rejected(e)),
        }
    } else if same_text(kind, "digest") {
        Ok(RecordsAnswer::Digest(store.digest()))
    } else if same_text(kind, "wanted") {
        let theirs = build_theirs(ev);
        Ok(RecordsAnswer::Wanted(store.wanted(theirs.as_slice())))
    } else {
        Err(Fault::UnknownEvent)
    }
}

/// Whether `r` is what a function of the shell may answer about some bytes.
pub open spec fn may_read<T, F: Fn(&[u8]) -> T>(f: F, bytes: Seq<u8>, r: T) -> bool {
    exists|b: &[u8]| b@ == bytes && #[trigger] call_ensures(f, (b,), r)
}

/// What a node is told, and whether it could be read: a datagram is whatever the
/// codec makes of the bytes.
pub open spec fn is_node_event<D: Fn(&[u8]) -> Option<Datagram>>(
    codec: D,
    kind: Seq<char>,
    ev: Json,
    told: Result<Event, Fault>,
) -> bool {
    if kind == "tick"@ {
        told == Ok::<Event, Fault>(Event::Tick)
    } else if kind == "datagram"@ {
        match bytes_at(ev, "bytes"@, Field::Bytes) {
            Err(e) => told == Err::<Event, Fault>(e),
            Ok(bytes) => told matches Ok(Event::Datagram { datagram }) && may_read(
                codec,
                bytes,
                datagram,
            ),
        }
    } else if kind == "peer_discovered"@ || kind == "peer_lost"@ {
        match exactly_at(ev, "prefix"@, Field::Prefix, 4) {
            Err(e) => told == Err::<Event, Fault>(e),
            Ok(bytes) => told == Ok::<Event, Fault>(
                if kind == "peer_discovered"@ {
                    Event::PeerDiscovered { prefix: array_of::<4>(bytes) }
                } else {
                    Event::PeerLost { prefix: array_of::<4>(bytes) }
                },
            ),
        }
    } else {
        told == Err::<Event, Fault>(Fault::UnknownEvent)
    }
}

/// Read the event that a node is told.
pub fn node_event_of<D: Fn(&[u8]) -> Option<Datagram>>(codec: &D, kind: &String, ev: &Json) -> (r:
    Result<Event, Fault>)
    requires
        forall|bytes: &[u8]| #[trigger] call_requires(*codec, (bytes,)),
    ensures
        is_node_event(*codec, kind@, *ev, r),
{
    if same_text(kind, "tick") {
        Ok(Event::Tick)
    } else if same_text(kind, "datagram") {
        match bytes_of(ev, "bytes", Field::Bytes) {
            Ok(bytes) => {
                let slice = bytes.as_slice();
                let datagram = codec(slice);
                assert(may_read(*codec, bytes@, datagram));
                Ok(Event::Datagram { datagram })
            },
            Err(e) => Err(e),
        }
    } else {
        let found: bool = same_text(kind, "peer_discovered");
        if found || same_text(kind, "peer_lost") {
            match bytes_of(ev, "prefix", Field::Prefix) {
                Ok(bytes) => {
                    if bytes.len() != 4 {
                        return Err(
                            Fault::WrongLength { field: Field::Prefix, got: bytes.len() },
                        );
                    }
                    let prefix = fixed_4(bytes);
                    if found {
                        Ok(Event::PeerDiscovered { prefix })
                    } else {
                        Ok(Event::PeerLost { prefix })
                    }
                },
                Err(e) => Err(e),
            }
        } else {
            Err(Fault::UnknownEvent)
        }
    }
}

/// Whether a node does this with an event, and answers so.
pub open spec fn node_answers<D: Fn(&[u8]) -> Option<Datagram>>(
    was: NodeModel,
    now: NodeModel,
    codec: D,
    at_us: u64,
    kind: Seq<char>,
    ev: Json,
    r: Result<Vec<Action>, Fault>,
) -> bool {
    exists|told: Result<Event, Fault>|
        {
            &&& #[trigger] is_node_event(codec, kind, ev, told)
            &&& match told {
                Err(e) => now == was && r == Err::<Vec<Action>, Fault>(e),
                Ok(event) => r matches Ok(out) && (Turn { node: now, out: out@ }) == was.event(
                    at_us,
                    event,
                ),
            }
        }
}

/// One event for a node.
pub fn node_event<D: Fn(&[u8]) -> Option<Datagram>>(
    node: &mut Node,
    codec: &D,
    at_us: u64,
    kind: &String,
    ev: &Json,
) -> (r: Result<Vec<Action>, Fault>)
    requires
        old(node).wf(),
        forall|bytes: &[u8]| #[trigger] call_requires(*codec, (bytes,)),
    ensures
        final(node).wf(),
        node_answers(old(node)@, final(node)@, *codec, at_us, kind@, *ev, r),
{
    let told = node_event_of(codec, kind, ev);
    match told {
        Ok(event) => {
            let out = node.on_event(at_us, event);
            assert(is_node_event(*codec, kind@, *ev, Ok::<Event, Fault>(event)));
            Ok(out)
        },
        Err(e) => {
            assert(is_node_event(*codec, kind@, *ev, Err::<Event, Fault>(e)));
            Err(e)
        },
    }
}

/// Sixteen bytes of one value.
pub open spec fn strip_device() -> Uuid {
    Uuid(
        [
            0xDD,
            0xDD,
            0xDD,
            0xDD,
            0xDD,
            0xDD,
            0xDD,
            0xDD,
            0xDD,
            0xDD,
            0xDD,
            0xDD,
            0xDD,
            0xDD,
            0xDD,
            0xDD,
        ],
    )
}

/// LED `i` of a strip: a metre past the one before.
pub open spec fn strip_led(i: u16) -> Led {
    let at = [Q16(((i as i16) * 65_536) as i32), Q16(0), Q16(0)];
    Led { index: i, world: at, local: at }
}

/// A strip: `count` LEDs in a line, one metre apart.
pub fn strip_of(count: u16) -> (dev: DeviceLeds)
    ensures
        dev.device == strip_device(),
        dev.quality is Rough,
        dev.leds@ == Seq::new(count as nat, |i: int| strip_led(i as u16)),
{
    let mut leds: Vec<Led> = Vec::new();
    let mut i: u16 = 0;
    while i < count
        invariant
            i <= count,
            leds@.len() == i,
            forall|k: int| 0 <= k < i ==> #[trigger] leds@[k] == strip_led(k as u16),
        decreases count - i,
    {
        let x = Q16::from_int(
            #[verifier::truncate]
            (i as i16),
        );
        leds.push(Led { index: i, world: [x, Q16(0), Q16(0)], local: [x, Q16(0), Q16(0)] });
        i += 1;
    }
    assert(leds@ =~= Seq::new(count as nat, |i: int| strip_led(i as u16)));
    DeviceLeds {
        device: Uuid(
            [
                0xDD,
                0xDD,
                0xDD,
                0xDD,
                0xDD,
                0xDD,
                0xDD,
                0xDD,
                0xDD,
                0xDD,
                0xDD,
                0xDD,
                0xDD,
                0xDD,
                0xDD,
                0xDD,
            ],
        ),
        // Rough rather than synthetic, so that a geometric zone would be
        // meaningful here.
        quality: MapQuality::Rough,
        leds,
    }
}

/// A black buffer, so that a script can tell "nothing wrote here" apart from
/// "something wrote black".
pub fn alloc_pixels(n: usize) -> (out: Vec<Rgb>)
    ensures
        out@ == Seq::new(n as nat, |i: int| Rgb::black()),
{
    let mut out: Vec<Rgb> = Vec::new();
    let mut i: usize = 0;
    while i < n
        invariant
            i <= n,
            out@.len() == i,
            forall|k: int| 0 <= k < i ==> #[trigger] out@[k] == Rgb::black(),
        decreases n - i,
    {
        out.push(Rgb::black());
        i += 1;
    }
    assert(out@ =~= Seq::new(n as nat, |i: int| Rgb::black()));
    out
}

/// A source, the program it was bound with, and the LEDs it covers.
pub struct BoundSource {
    pub source: Source,
    pub bytecode: Vec<u8>,
    pub membership: Membership,
}

/// What a script of frames accumulates: a stack, the device's LEDs, and one
/// program per bound source.
pub struct RenderState<M> {
    pub renderer: Renderer<M>,
    pub stack: SourceStack,
    pub leds: DeviceLeds,
    pub bound: Vec<BoundSource>,
}

/// A program that was loaded, and what it costs.
#[derive(Clone, Copy, Debug)]
pub struct Loaded<P> {
    pub program: P,
    pub frame_cost: u32,
    pub budget: u32,
}

/// What rendering answers.
pub enum RenderAnswer {
    Bound(SourcesAnswer),
    /// A frame, and the sources whose programs faulted in it.
    Pixels { rgb: Vec<Rgb>, faulted: Vec<Uuid> },
    Advanced(Vec<Change>),
}

impl<M> RenderState<M> {
    pub open spec fn wf(&self) -> bool {
        self.renderer.wf() && self.stack.wf()
    }
}

/// The program that a description binds: no bytes where it is left out.
pub open spec fn program_at(ev: Json) -> Result<Seq<u8>, Fault> {
    match bytes_at(ev, "program"@, Field::Program) {
        Err(Fault::Missing(_)) => Ok(Seq::empty()),
        other => other,
    }
}

/// The run of LEDs that a bound source covers.
pub open spec fn run_at(ev: Json, len: nat) -> (u16, u16) {
    (count_at(ev, "led_from"@, 0) as u16, count_at(ev, "led_to"@, len as u64) as u16)
}

/// The LEDs of a strip in a half-open run of indices.
pub open spec fn run_of(leds: Seq<Led>, run: (u16, u16)) -> Seq<Led> {
    leds.filter(|led: Led| run.0 <= led.index < run.1)
}

/// Whether binding left this behind: the source pushed or refused, and bound
/// either way, to the LEDs of its run.
pub open spec fn is_bound<M>(
    was: RenderState<M>,
    now: RenderState<M>,
    at_us: u64,
    ev: Json,
    source: Source,
    bytecode: Seq<u8>,
    answer: SourcesOutcome,
) -> bool {
    let members = run_of(was.leds.leds@, run_at(ev, was.leds.leds@.len()));
    &&& now.renderer == was.renderer
    &&& now.leds == was.leds
    &&& (now.stack@, answer) == pushed_onto(was.stack@, at_us, source)
    &&& now.bound@.len() == was.bound@.len() + 1
    &&& now.bound@.drop_last() == was.bound@
    &&& now.bound@.last().source == source
    &&& now.bound@.last().bytecode@ == bytecode
    &&& now.bound@.last().membership.zone == source.zone
    &&& names_ascending(now.bound@.last().membership.leds@, members)
    &&& now.bound@.last().membership.bounds == extent(members)
}

/// Bind a source to a program and a run of LEDs, and push it.
///
/// The membership comes from resolving a real zone: its bounds are computed by
/// that resolution and are not to be invented here.
fn bind<M, U: Fn(Op, Q16, Q16, Q16) -> Q16>(
    st: &mut RenderState<M>,
    unit: &U,
    at_us: u64,
    ev: &Json,
) -> (r: Result<SourcesAnswer, Fault>)
    requires
        old(st).wf(),
        is_arithmetic(*unit),
    ensures
        final(st).wf(),
        match program_at(*ev) {
            Err(e) => *final(st) == *old(st) && r == Err::<SourcesAnswer, Fault>(e),
            Ok(bytecode) => match source_at(*ev, at_us) {
                Err(e) => *final(st) == *old(st) && r == Err::<SourcesAnswer, Fault>(e),
                Ok(source) => r matches Ok(answer) && is_bound(
                    *old(st),
                    *final(st),
                    at_us,
                    *ev,
                    source,
                    bytecode,
                    answer@,
                ),
            },
        },
{
    let bytecode: Vec<u8> = match bytes_of(ev, "program", Field::Program) {
        Ok(bytes) => copied(bytes),
        Err(Fault::Missing(_)) => Vec::new(),
        Err(e) => {
            return Err(e);
        },
    };
    let source = match build_source(ev, at_us) {
        Ok(source) => source,
        Err(e) => {
            return Err(e);
        },
    };
    let from: u64 = count_of(ev, "led_from", 0);
    let to: u64 = count_of(ev, "led_to", st.leds.leds.len() as u64);
    let run: (u16, u16) = (
        #[verifier::truncate]
        (from as u16),
        #[verifier::truncate]
        (to as u16),
    );
    let mut included: Vec<Clause> = Vec::new();
    included.push(Clause::Device { device: st.leds.device, leds: Some(run) });
    let excluded: Vec<Clause> = Vec::new();
    let zone = Zone { id: source.zone, included, excluded, projection: Projection::Strip };
    let membership = zone.resolve(unit, &st.leds);
    proof {
        let trusted = !(st.leds.quality is Synthetic);
        let device = st.leds.device;
        let in_run = |led: Led| run.0 <= led.index < run.1;
        let covered = |led: Led| zone.covers(unit, device, trusted, led);
        assert forall|led: Led| #[trigger] covered(led) == in_run(led) by {
            assert(zone.included@[0].selects(unit, device, trusted, led) == in_run(led));
        }
        assert(covered =~= in_run);
    }
    let answer = push_onto(&mut st.stack, at_us, source);
    let ghost before = st.bound@;
    st.bound.push(BoundSource { source, bytecode, membership });
    assert(st.bound@.drop_last() =~= before);
    Ok(answer)
}

/// A list of bound sources, each with its program.
pub open spec fn loaded_bounds<'a, P>(
    bound: Seq<BoundSource>,
    programs: Seq<Loaded<P>>,
) -> Seq<Bound<'a, P>> {
    Seq::new(
        bound.len(),
        |i: int|
            Bound {
                source: bound[i].source,
                program: programs[i].program,
                frame_cost: programs[i].frame_cost,
                budget: programs[i].budget,
                membership: &bound[i].membership,
                projection: Projection::Strip,
            },
    )
}

/// Whether these are the programs of some bound sources.
pub open spec fn are_loaded<P, L: Fn(&[u8]) -> Option<Loaded<P>>>(
    load: L,
    bound: Seq<BoundSource>,
    programs: Seq<Loaded<P>>,
) -> bool {
    &&& programs.len() == bound.len()
    &&& forall|i: int|
        0 <= i < bound.len() ==> may_read(
            load,
            (#[trigger] bound[i]).bytecode@,
            Some(programs[i]),
        )
}

/// Load every bound program, or say that one cannot be.
fn load_all<P: Copy, L: Fn(&[u8]) -> Option<Loaded<P>>>(load: &L, bound: &Vec<BoundSource>) -> (r:
    Result<Vec<Loaded<P>>, Fault>)
    requires
        forall|bytes: &[u8]| #[trigger] call_requires(*load, (bytes,)),
    ensures
        match r {
            Ok(programs) => are_loaded(*load, bound@, programs@),
            Err(e) => e == Fault::BadProgram && exists|i: int|
                0 <= i < bound@.len() && may_read(
                    *load,
                    (#[trigger] bound@[i]).bytecode@,
                    None::<Loaded<P>>,
                ),
        },
{
    let mut programs: Vec<Loaded<P>> = Vec::new();
    let mut i: usize = 0;
    while i < bound.len()
        invariant
            forall|bytes: &[u8]| #[trigger] call_requires(*load, (bytes,)),
            i <= bound@.len(),
            programs@.len() == i,
            forall|k: int|
                0 <= k < i ==> may_read(
                    *load,
                    (#[trigger] bound@[k]).bytecode@,
                    Some(programs@[k]),
                ),
        decreases bound@.len() - i,
    {
        let slice = bound[i].bytecode.as_slice();
        let found = load(slice);
        assert(may_read(*load, bound@[i as int].bytecode@, found));
        match found {
            Some(program) => {
                programs.push(program);
            },
            None => {
                assert(may_read(*load, bound@[i as int].bytecode@, None::<Loaded<P>>));
                return Err(Fault::BadProgram);
            },
        }
        i += 1;
    }
    Ok(programs)
}

/// The source of a fault.
pub open spec fn culprit(f: RenderFault) -> Uuid {
    match f {
        RenderFault::Program { source, .. } => source,
    }
}

/// Whether a frame came out so, with these programs.
pub open spec fn is_rendered<
    M,
    P,
    U: Fn(Op, Q16, Q16, Q16) -> Q16,
    F: Fn(Option<M>, Step<P>) -> Ran<M>,
>(
    was: RenderState<M>,
    now: RenderState<M>,
    unit: &U,
    vm: F,
    at_us: u64,
    t: Q16,
    programs: Seq<Loaded<P>>,
    rgb: Seq<Rgb>,
    faulted: Seq<Uuid>,
) -> bool {
    let n = was.leds.leds@.len();
    let scene = was.renderer@.frame(
        hosted(unit, vm),
        at_us,
        t,
        was.leds.leds@,
        was.stack@.admission().admitted,
        was.stack@.fading,
        loaded_bounds(was.bound@, programs),
        Seq::new(n, |i: int| Rgb::black()),
        Shard::all_of(
            if n < u16::MAX {
                n as u16
            } else {
                u16::MAX
            },
        ),
    );
    &&& now.stack == was.stack
    &&& now.leds == was.leds
    &&& now.bound == was.bound
    &&& now.renderer@.machines == scene.machines
    &&& now.renderer@.history == scene.history
    &&& now.renderer@.last_t == Some(t)
    &&& rgb == scene.out
    &&& faulted == scene.faults.map_values(|f: RenderFault| culprit(f))
}

fn draw<
    M,
    P: Copy,
    U: Fn(Op, Q16, Q16, Q16) -> Q16,
    F: Fn(Option<M>, Step<P>) -> Ran<M>,
>(
    st: &mut RenderState<M>,
    unit: &U,
    vm: &F,
    at_us: u64,
    t: Q16,
    programs: &Vec<Loaded<P>>,
) -> (r: (Vec<Rgb>, Vec<Uuid>))
    requires
        old(st).wf(),
        is_arithmetic(*unit),
        is_machine(*vm),
        programs@.len() == old(st).bound@.len(),
    ensures
        final(st).wf(),
        is_rendered(
            *old(st),
            *final(st),
            unit,
            *vm,
            at_us,
            t,
            programs@,
            r.0@,
            r.1@,
        ),
{
    let mut out = alloc_pixels(st.leds.leds.len());
    let mut bound: Vec<Bound<P>> = Vec::new();
    let mut i: usize = 0;
    while i < st.bound.len()
        invariant
            *st == *old(st),
            programs@.len() == st.bound@.len(),
            i <= st.bound@.len(),
            bound@.len() == i,
            forall|k: int|
                0 <= k < i ==> #[trigger] bound@[k] == loaded_bounds(st.bound@, programs@)[k],
        decreases st.bound@.len() - i,
    {
        let b = &st.bound[i];
        let p = programs[i];
        bound.push(
            Bound {
                source: b.source,
                program: p.program,
                frame_cost: p.frame_cost,
                budget: p.budget,
                membership: &b.membership,
                projection: Projection::Strip,
            },
        );
        i += 1;
    }
    assert(bound@ =~= loaded_bounds(st.bound@, programs@));
    let report = st.renderer.render(
        unit,
        vm,
        at_us,
        t,
        &st.leds,
        &st.stack,
        bound.as_slice(),
        out.as_mut_slice(),
    );
    let faulted = culprits(&report.faults);
    (out, faulted)
}

fn culprits(faults: &Vec<RenderFault>) -> (out: Vec<Uuid>)
    ensures
        out@ == faults@.map_values(|f: RenderFault| culprit(f)),
{
    let mut out: Vec<Uuid> = Vec::new();
    let mut i: usize = 0;
    while i < faults.len()
        invariant
            i <= faults@.len(),
            out@.len() == i,
            forall|k: int| 0 <= k < i ==> #[trigger] out@[k] == culprit(faults@[k]),
        decreases faults@.len() - i,
    {
        match faults[i] {
            RenderFault::Program { source, .. } => {
                out.push(source);
            },
        }
        i += 1;
    }
    assert(out@ =~= faults@.map_values(|f: RenderFault| culprit(f)));
    out
}

/// Whether a renderer does this with an event, and answers so.
pub open spec fn render_answers<
    M,
    P,
    U: Fn(Op, Q16, Q16, Q16) -> Q16,
    F: Fn(Option<M>, Step<P>) -> Ran<M>,
    L: Fn(&[u8]) -> Option<Loaded<P>>,
>(
    was: RenderState<M>,
    now: RenderState<M>,
    unit: &U,
    vm: F,
    load: L,
    at_us: u64,
    kind: Seq<char>,
    ev: Json,
    r: Result<RenderAnswer, Fault>,
) -> bool {
    if kind == "bind"@ {
        match program_at(ev) {
            Err(e) => now == was && r == Err::<RenderAnswer, Fault>(e),
            Ok(bytecode) => match source_at(ev, at_us) {
                Err(e) => now == was && r == Err::<RenderAnswer, Fault>(e),
                Ok(source) => r matches Ok(RenderAnswer::Bound(answer)) && is_bound(
                    was,
                    now,
                    at_us,
                    ev,
                    source,
                    bytecode,
                    answer@,
                ),
            },
        }
    } else if kind == "frame"@ {
        match r {
            Ok(RenderAnswer::Pixels { rgb, faulted }) => exists|programs: Seq<Loaded<P>>|
                {
                    &&& #[trigger] are_loaded(load, was.bound@, programs)
                    &&& is_rendered(
                        was,
                        now,
                        unit,
                        vm,
                        at_us,
                        q16_at(ev, "t"@),
                        programs,
                        rgb@,
                        faulted@,
                    )
                },
            Err(e) => {
                &&& e == Fault::BadProgram
                &&& now == was
                &&& exists|i: int|
                    0 <= i < was.bound@.len() && may_read(
                        load,
                        (#[trigger] was.bound@[i]).bytecode@,
                        None::<Loaded<P>>,
                    )
            },
            _ => false,
        }
    } else if kind == "advance"@ {
        &&& r matches Ok(RenderAnswer::Advanced(changes)) && changes@ == was.stack@.advance_changes(
            at_us,
        )
        &&& now.stack@ == was.stack@.advanced(at_us)
        &&& now.renderer == was.renderer
        &&& now.leds == was.leds
        &&& now.bound == was.bound
    } else {
        now == was && r == Err::<RenderAnswer, Fault>(Fault::UnknownEvent)
    }
}

/// One event for a renderer.
pub fn render_event<
    M,
    P: Copy,
    U: Fn(Op, Q16, Q16, Q16) -> Q16,
    F: Fn(Option<M>, Step<P>) -> Ran<M>,
    L: Fn(&[u8]) -> Option<Loaded<P>>,
>(
    st: &mut RenderState<M>,
    unit: &U,
    vm: &F,
    load: &L,
    at_us: u64,
    kind: &String,
    ev: &Json,
) -> (r: Result<RenderAnswer, Fault>)
    requires
        old(st).wf(),
        is_arithmetic(*unit),
        is_machine(*vm),
        forall|bytes: &[u8]| #[trigger] call_requires(*load, (bytes,)),
    ensures
        final(st).wf(),
        render_answers(*old(st), *final(st), unit, *vm, *load, at_us, kind@, *ev, r),
{
    if same_text(kind, "bind") {
        match bind(st, unit, at_us, ev) {
            Ok(answer) => Ok(RenderAnswer::Bound(answer)),
            Err(e) => Err(e),
        }
    } else if same_text(kind, "frame") {
        let t = q16_of(ev, "t");
        let programs = match load_all(load, &st.bound) {
            Ok(programs) => programs,
            Err(e) => {
                return Err(e);
            },
        };
        let (rgb, faulted) = draw(st, unit, vm, at_us, t, &programs);
        assert(are_loaded(*load, old(st).bound@, programs@));
        Ok(RenderAnswer::Pixels { rgb, faulted })
    } else if same_text(kind, "advance") {
        let mut changes: Vec<Change> = Vec::new();
        st.stack.advance(at_us, &mut changes);
        assert(changes@ =~= old(st).stack@.advance_changes(at_us));
        Ok(RenderAnswer::Advanced(changes))
    } else {
        Err(Fault::UnknownEvent)
    }
}

/// Whichever machine a script asked for.
pub enum Machine<M> {
    /// Nothing was set up.
    Idle,
    Node(Node),
    Sources(SourceStack),
    Channel(Channel),
    /// A gateway is judged against one binding.
    Gateway(Binding),
    /// A zone is judged against one device.
    Zone(Zone, DeviceLeds),
    Records(Store, Authority),
    Render(RenderState<M>),
}

impl<M> Machine<M> {
    pub open spec fn wf(&self) -> bool {
        match self {
            Machine::Node(node) => node.wf(),
            Machine::Sources(stack) => stack.wf(),
            Machine::Records(store, authority) => store.wf() && authority.wf(),
            Machine::Render(st) => st.wf(),
            _ => true,
        }
    }
}

/// Whether a node may have been set up so. `naming` gives the prefixes by which an
/// identity is known in a header: as a sender, and as a mesh.
pub open spec fn sets_up_node<X: Fn(&Uuid) -> ([u8; 4], [u8; 2])>(
    naming: X,
    state: Json,
    r: Result<NodeModel, Fault>,
) -> bool {
    match uuid_at(state, "uuid"@, Field::Uuid) {
        Err(e) => r == Err::<NodeModel, Fault>(e),
        Ok(uuid) => match uuid_at(state, "mesh_id"@, Field::MeshId) {
            Err(e) => r == Err::<NodeModel, Fault>(e),
            Ok(mesh) => match state.number_at("capacity"@) {
                None => r == Err::<NodeModel, Fault>(Fault::Missing(Field::Capacity)),
                Some(capacity) => exists|me: ([u8; 4], [u8; 2]), us: ([u8; 4], [u8; 2])|
                    #![trigger call_ensures(naming, (&uuid,), me), call_ensures(naming, (&mesh,), us)]
                    {
                        &&& call_ensures(naming, (&uuid,), me)
                        &&& call_ensures(naming, (&mesh,), us)
                        &&& r == Ok::<NodeModel, Fault>(
                            NodeModel::cold(
                                Identity { uuid, capacity: capacity as u32, prefix: me.0 },
                                us.1,
                                count_at(state, "boot_counter"@, 1) as u32,
                                count_at(state, "now_us"@, 0),
                            ),
                        )
                    },
            },
        },
    }
}

/// The plain data of a result.
pub open spec fn plain_node(r: Result<Node, Fault>) -> Result<NodeModel, Fault> {
    match r {
        Ok(node) => Ok(node@),
        Err(e) => Err(e),
    }
}

/// Build a node.
pub fn build_node<X: Fn(&Uuid) -> ([u8; 4], [u8; 2])>(state: &Json, naming: &X) -> (r: Result<
    Node,
    Fault,
>)
    requires
        forall|id: &Uuid| #[trigger] call_requires(*naming, (id,)),
    ensures
        sets_up_node(*naming, *state, plain_node(r)),
        r matches Ok(node) ==> node.wf(),
{
    let uuid = match uuid_field(state, "uuid", Field::Uuid) {
        Ok(uuid) => uuid,
        Err(e) => {
            return Err(e);
        },
    };
    let mesh = match uuid_field(state, "mesh_id", Field::MeshId) {
        Ok(mesh) => mesh,
        Err(e) => {
            return Err(e);
        },
    };
    let capacity: u64 = match state.get_number("capacity") {
        Some(capacity) => capacity,
        None => {
            return Err(Fault::Missing(Field::Capacity));
        },
    };
    let boot: u64 = count_of(state, "boot_counter", 1);
    let now_us: u64 = count_of(state, "now_us", 0);
    let me = naming(&uuid);
    let us = naming(&mesh);
    let identity = Identity::new(
        uuid,
        #[verifier::truncate]
        (capacity as u32),
        me.0,
    );
    let node = Node::new(
        identity,
        us.1,
        #[verifier::truncate]
        (boot as u32),
        now_us,
    );
    assert(call_ensures(*naming, (&uuid,), me) && call_ensures(*naming, (&mesh,), us));
    Ok(node)
}

/// Whether a machine may have been set up so by a description.
pub open spec fn sets_up<M, X: Fn(&Uuid) -> ([u8; 4], [u8; 2])>(
    naming: X,
    body: Json,
    r: Result<Machine<M>, Fault>,
) -> bool {
    match body.text_at("machine"@) {
        None => r == Err::<Machine<M>, Fault>(Fault::NoMachine),
        Some(name) => match body.at("state"@) {
            None => r == Err::<Machine<M>, Fault>(Fault::NoState),
            Some(state) => if name == "node"@ {
                match r {
                    Ok(Machine::Node(node)) => sets_up_node(naming, state, Ok(node@)),
                    Err(e) => sets_up_node(naming, state, Err(e)),
                    _ => false,
                }
            } else if name == "sources"@ {
                r matches Ok(Machine::Sources(stack)) && stack@ == StackModel::empty(
                    (count_at(state, "budget"@, 0) as u32) as int,
                    (count_at(state, "max_concurrent"@, 0) as usize) as int,
                )
            } else if name == "channel"@ {
                r == Ok::<Machine<M>, Fault>(
                    Machine::Channel(
                        Channel::fresh(
                            count_at(state, "channel_id"@, 0) as u16,
                            count_at(state, "hold_ms"@, 0) as u32,
                            q16_at(state, "default"@),
                        ),
                    ),
                )
            } else if name == "gateway"@ {
                match binding_at(state) {
                    Ok(binding) => r == Ok::<Machine<M>, Fault>(Machine::Gateway(binding)),
                    Err(e) => r == Err::<Machine<M>, Fault>(e),
                }
            } else if name == "zone"@ {
                match r {
                    Ok(Machine::Zone(zone, dev)) => zone_state_fault(state) is None
                        && describes_zone_state(state, zone, dev),
                    Err(e) => zone_state_fault(state) == Some(e),
                    _ => false,
                }
            } else if name == "records"@ {
                match r {
                    Ok(Machine::Records(store, authority)) => store@ == StoreModel::empty()
                        && authority_at(state) == Ok::<AuthorityModel, Fault>(authority@),
                    Err(e) => authority_at(state) == Err::<AuthorityModel, Fault>(e),
                    _ => false,
                }
            } else if name == "render"@ {
                r matches Ok(Machine::Render(st)) && {
                    &&& st.renderer@ == RendererModel::<M>::fresh()
                    &&& st.stack@ == StackModel::empty(
                        (count_at(state, "budget"@, u32::MAX as u64) as u32) as int,
                        (count_at(state, "max_concurrent"@, 8) as usize) as int,
                    )
                    &&& st.leds.device == strip_device()
                    &&& st.leds.quality is Rough
                    &&& st.leds.leds@ == Seq::new(
                        (count_at(state, "led_count"@, 4) as u16) as nat,
                        |i: int| strip_led(i as u16),
                    )
                    &&& st.bound@.len() == 0
                }
            } else {
                r == Err::<Machine<M>, Fault>(Fault::UnknownMachine)
            },
        },
    }
}

/// Set a machine up.
pub fn reset<M, X: Fn(&Uuid) -> ([u8; 4], [u8; 2])>(body: &Json, naming: &X) -> (r: Result<
    Machine<M>,
    Fault,
>)
    requires
        forall|id: &Uuid| #[trigger] call_requires(*naming, (id,)),
    ensures
        sets_up(*naming, *body, r),
        r matches Ok(machine) ==> machine.wf(),
{
    let name = match body.get_text("machine") {
        Some(t) => &t.text,
        None => {
            return Err(Fault::NoMachine);
        },
    };
    let state = match body.get("state") {
        Some(state) => state,
        None => {
            return Err(Fault::NoState);
        },
    };
    if same_text(name, "node") {
        match build_node(state, naming) {
            Ok(node) => Ok(Machine::Node(node)),
            Err(e) => Err(e),
        }
    } else if same_text(name, "sources") {
        let budget: u64 = count_of(state, "budget", 0);
        let max: u64 = count_of(state, "max_concurrent", 0);
        Ok(
            Machine::Sources(
                SourceStack::new(
                    #[verifier::truncate]
                    (budget as u32),
                    #[verifier::truncate]
                    (max as usize),
                ),
            ),
        )
    } else if same_text(name, "channel") {
        let id: u64 = count_of(state, "channel_id", 0);
        let hold_ms: u64 = count_of(state, "hold_ms", 0);
        Ok(
            Machine::Channel(
                Channel::new(
                    #[verifier::truncate]
                    (id as u16),
                    #[verifier::truncate]
                    (hold_ms as u32),
                    q16_of(state, "default"),
                ),
            ),
        )
    } else if same_text(name, "gateway") {
        match build_binding(state) {
            Ok(binding) => Ok(Machine::Gateway(binding)),
            Err(e) => Err(e),
        }
    } else if same_text(name, "zone") {
        match build_zone_state(state) {
            Ok((zone, dev)) => Ok(Machine::Zone(zone, dev)),
            Err(e) => Err(e),
        }
    } else if same_text(name, "records") {
        match build_authority(state) {
            Ok(authority) => Ok(Machine::Records(Store::new(), authority)),
            Err(e) => Err(e),
        }
    } else if same_text(name, "render") {
        let budget: u64 = count_of(state, "budget", u32::MAX as u64);
        let max: u64 = count_of(state, "max_concurrent", 8);
        let leds: u64 = count_of(state, "led_count", 4);
        Ok(
            Machine::Render(
                RenderState {
                    renderer: Renderer::new(),
                    stack: SourceStack::new(
                        #[verifier::truncate]
                        (budget as u32),
                        #[verifier::truncate]
                        (max as usize),
                    ),
                    leds: strip_of(
                        #[verifier::truncate]
                        (leds as u16),
                    ),
                    bound: Vec::new(),
                },
            ),
        )
    } else {
        Err(Fault::UnknownMachine)
    }
}

/// What a machine answers.
pub enum Answer {
    Node(Vec<Action>),
    Sources(SourcesAnswer),
    Channel(ChannelAnswer),
    Gateway(GatewayAnswer),
    Zone(ZoneAnswer),
    Records(RecordsAnswer),
    Render(RenderAnswer),
}

/// What every machine borrows from the shell.
pub struct Shell<U, F, L, D, V> {
    /// The fixed-point arithmetic.
    pub unit: U,
    /// The machine that runs programs.
    pub vm: F,
    /// What loads a program.
    pub load: L,
    /// What reads a datagram.
    pub codec: D,
    /// What checks a signature.
    pub verifier: V,
}

/// Whether a machine does this with an event, and answers so.
pub open spec fn machine_answers<
    M,
    P,
    U: Fn(Op, Q16, Q16, Q16) -> Q16,
    F: Fn(Option<M>, Step<P>) -> Ran<M>,
    L: Fn(&[u8]) -> Option<Loaded<P>>,
    D: Fn(&[u8]) -> Option<Datagram>,
    V: Fn(&[u8; 32], &[u8], &[u8; 64]) -> bool,
>(
    was: Machine<M>,
    now: Machine<M>,
    shell: Shell<U, F, L, D, V>,
    at_us: u64,
    kind: Seq<char>,
    ev: Json,
    r: Result<Answer, Fault>,
) -> bool {
    match (was, now) {
        (Machine::Idle, Machine::Idle) => r == Err::<Answer, Fault>(Fault::NotSetUp),
        (Machine::Node(a), Machine::Node(b)) => match r {
            Ok(Answer::Node(out)) => node_answers(a@, b@, shell.codec, at_us, kind, ev, Ok(out)),
            Err(e) => node_answers(a@, b@, shell.codec, at_us, kind, ev, Err(e)),
            _ => false,
        },
        (Machine::Sources(a), Machine::Sources(b)) => {
            let (after, due) = sources_step(a@, at_us, kind, ev);
            &&& b@ == after
            &&& match r {
                Ok(Answer::Sources(answer)) => due == Ok::<SourcesOutcome, Fault>(answer@),
                Err(e) => due == Err::<SourcesOutcome, Fault>(e),
                _ => false,
            }
        },
        (Machine::Channel(a), Machine::Channel(b)) => match r {
            Ok(Answer::Channel(answer)) => (b, Ok::<ChannelAnswer, Fault>(answer)) == channel_step(
                a,
                &shell.unit,
                at_us,
                kind,
                ev,
            ),
            Err(e) => (b, Err::<ChannelAnswer, Fault>(e)) == channel_step(
                a,
                &shell.unit,
                at_us,
                kind,
                ev,
            ),
            _ => false,
        },
        (Machine::Gateway(a), Machine::Gateway(b)) => {
            &&& a == b
            &&& match r {
                Ok(Answer::Gateway(answer)) => gateway_step(a, at_us, kind, ev) == Ok::<
                    GatewayAnswer,
                    Fault,
                >(answer),
                Err(e) => gateway_step(a, at_us, kind, ev) == Err::<GatewayAnswer, Fault>(e),
                _ => false,
            }
        },
        (Machine::Zone(a, x), Machine::Zone(b, y)) => {
            &&& a == b
            &&& x == y
            &&& match r {
                Ok(Answer::Zone(answer)) => zone_answers(a, x, &shell.unit, kind, Ok(answer)),
                Err(e) => zone_answers(a, x, &shell.unit, kind, Err(e)),
                _ => false,
            }
        },
        (Machine::Records(a, x), Machine::Records(b, y)) => {
            &&& x == y
            &&& match r {
                Ok(Answer::Records(answer)) => records_answers(
                    a@,
                    b@,
                    x@,
                    shell.verifier,
                    kind,
                    ev,
                    Ok(answer),
                ),
                Err(e) => records_answers(a@, b@, x@, shell.verifier, kind, ev, Err(e)),
                _ => false,
            }
        },
        (Machine::Render(a), Machine::Render(b)) => match r {
            Ok(Answer::Render(answer)) => render_answers(
                a,
                b,
                &shell.unit,
                shell.vm,
                shell.load,
                at_us,
                kind,
                ev,
                Ok(answer),
            ),
            Err(e) => render_answers(
                a,
                b,
                &shell.unit,
                shell.vm,
                shell.load,
                at_us,
                kind,
                ev,
                Err(e),
            ),
            _ => false,
        },
        _ => false,
    }
}

/// Whether every function of a shell can be called, and the arithmetic and the
/// machine answer alike each time.
pub open spec fn is_shell<
    M,
    P,
    U: Fn(Op, Q16, Q16, Q16) -> Q16,
    F: Fn(Option<M>, Step<P>) -> Ran<M>,
    L: Fn(&[u8]) -> Option<Loaded<P>>,
    D: Fn(&[u8]) -> Option<Datagram>,
    V: Fn(&[u8; 32], &[u8], &[u8; 64]) -> bool,
>(shell: Shell<U, F, L, D, V>) -> bool {
    &&& is_arithmetic(shell.unit)
    &&& is_machine(shell.vm)
    &&& forall|bytes: &[u8]| #[trigger] call_requires(shell.load, (bytes,))
    &&& forall|bytes: &[u8]| #[trigger] call_requires(shell.codec, (bytes,))
    &&& forall|key: &[u8; 32], message: &[u8], signature: &[u8; 64]| #[trigger]
        call_requires(shell.verifier, (key, message, signature))
}

/// Whether a machine is handed what a request describes, and answers so.
pub open spec fn handles<
    M,
    P,
    U: Fn(Op, Q16, Q16, Q16) -> Q16,
    F: Fn(Option<M>, Step<P>) -> Ran<M>,
    L: Fn(&[u8]) -> Option<Loaded<P>>,
    D: Fn(&[u8]) -> Option<Datagram>,
    V: Fn(&[u8; 32], &[u8], &[u8; 64]) -> bool,
>(
    was: Machine<M>,
    now: Machine<M>,
    shell: Shell<U, F, L, D, V>,
    body: Json,
    r: Result<Answer, Fault>,
) -> bool {
    match body.at("event"@) {
        None => now == was && r == Err::<Answer, Fault>(Fault::NoEvent),
        Some(ev) => match ev.text_at("event"@) {
            None => now == was && r == Err::<Answer, Fault>(Fault::NoKind),
            Some(kind) => machine_answers(
                was,
                now,
                shell,
                count_at(body, "at_us"@, 0),
                kind,
                ev,
                r,
            ),
        },
    }
}

/// One event for whichever machine there is: what it is, and when it happens, are
/// in the request.
pub fn event<
    M,
    P: Copy,
    U: Fn(Op, Q16, Q16, Q16) -> Q16,
    F: Fn(Option<M>, Step<P>) -> Ran<M>,
    L: Fn(&[u8]) -> Option<Loaded<P>>,
    D: Fn(&[u8]) -> Option<Datagram>,
    V: Fn(&[u8; 32], &[u8], &[u8; 64]) -> bool,
>(machine: &mut Machine<M>, shell: &Shell<U, F, L, D, V>, body: &Json) -> (r: Result<
    Answer,
    Fault,
>)
    requires
        old(machine).wf(),
        is_shell(*shell),
    ensures
        final(machine).wf(),
        handles(*old(machine), *final(machine), *shell, *body, r),
{
    let at_us: u64 = count_of(body, "at_us", 0);
    let ev = match body.get("event") {
        Some(ev) => ev,
        None => {
            return Err(Fault::NoEvent);
        },
    };
    let kind = match ev.get_text("event") {
        Some(t) => &t.text,
        None => {
            return Err(Fault::NoKind);
        },
    };
    match machine {
        Machine::Idle => Err(Fault::NotSetUp),
        Machine::Node(node) => match node_event(node, &shell.codec, at_us, kind, ev) {
            Ok(out) => Ok(Answer::Node(out)),
            Err(e) => Err(e),
        },
        Machine::Sources(stack) => match sources_event(stack, at_us, kind, ev) {
            Ok(answer) => Ok(Answer::Sources(answer)),
            Err(e) => Err(e),
        },
        Machine::Channel(ch) => match channel_event(ch, &shell.unit, at_us, kind, ev) {
            Ok(answer) => Ok(Answer::Channel(answer)),
            Err(e) => Err(e),
        },
        Machine::Gateway(binding) => match gateway_event(binding, at_us, kind, ev) {
            Ok(answer) => Ok(Answer::Gateway(answer)),
            Err(e) => Err(e),
        },
        Machine::Zone(zone, dev) => match zone_event(zone, dev, &shell.unit, kind) {
            Ok(answer) => Ok(Answer::Zone(answer)),
            Err(e) => Err(e),
        },
        Machine::Records(store, authority) => match records_event(
            store,
            authority,
            &shell.verifier,
            kind,
            ev,
        ) {
            Ok(answer) => Ok(Answer::Records(answer)),
            Err(e) => Err(e),
        },
        Machine::Render(st) => match render_event(
            st,
            &shell.unit,
            &shell.vm,
            &shell.load,
            at_us,
            kind,
            ev,
        ) {
            Ok(answer) => Ok(Answer::Render(answer)),
            Err(e) => Err(e),
        },
    }
}

/// What is under a key: the first entry that has it; nothing where none does, and nothing
/// in what is no object. A text, a number and a list are each read as what they are.
pub proof fn law_what_is_under_a_key(entries: Vec<Entry>, key: Seq<char>, i: int)
    ensures
        0 <= i < entries@.len() && entries@[i].key@ == key && (forall|k: int|
            0 <= k < i ==> (#[trigger] entries@[k]).key@ != key) ==> Json::Object(entries).at(key)
            == Some(entries@[i].value),
        (forall|k: int| 0 <= k < entries@.len() ==> (#[trigger] entries@[k]).key@ != key)
            ==> Json::Object(entries).at(key) is None,
        forall|j: Json|
            !(j is Object) ==> (#[trigger] j.at(key)) is None,
        forall|j: Json| #[trigger]
            j.text_at(key) == (match j.at(key) {
                Some(Json::Text(t)) => Some(t.text@),
                _ => None,
            }),
        forall|j: Json| #[trigger]
            j.number_at(key) == (match j.at(key) {
                Some(Json::Number(n)) => n.unsigned,
                _ => None,
            }),
        forall|j: Json| #[trigger]
            j.list_at(key) == (match j.at(key) {
                Some(Json::Array(list)) => Some(list@),
                _ => None,
            }),
{
    if 0 <= i < entries@.len() && entries@[i].key@ == key && (forall|k: int|
        0 <= k < i ==> (#[trigger] entries@[k]).key@ != key) {
        lemma_first_value(entries@, key, 0, i);
    }
    if forall|k: int| 0 <= k < entries@.len() ==> (#[trigger] entries@[k]).key@ != key {
        lemma_no_value(entries@, key, 0);
    }
}

proof fn lemma_first_value(entries: Seq<Entry>, key: Seq<char>, from: int, i: int)
    requires
        0 <= from <= i < entries.len(),
        entries[i].key@ == key,
        forall|k: int| 0 <= k < i ==> (#[trigger] entries[k]).key@ != key,
    ensures
        value_from(entries, key, from) == Some(entries[i].value),
    decreases i - from,
{
    if from < i {
        assert(entries[from].key@ != key);
        lemma_first_value(entries, key, from + 1, i);
    }
}

proof fn lemma_no_value(entries: Seq<Entry>, key: Seq<char>, from: int)
    requires
        0 <= from <= entries.len(),
        forall|k: int| 0 <= k < entries.len() ==> (#[trigger] entries[k]).key@ != key,
    ensures
        value_from(entries, key, from) is None,
    decreases entries.len() - from,
{
    if from < entries.len() {
        assert(entries[from].key@ != key);
        lemma_no_value(entries, key, from + 1);
    }
}

/// Whether a text under a key spells these bytes.
pub open spec fn spells(j: Json, key: Seq<char>, bytes: Seq<u8>) -> bool {
    j.at(key) matches Some(Json::Text(t)) && t.bytes matches Some(spelt) && spelt@ == bytes
}

/// Bytes are read as they are spelt, an identity from sixteen of them, a key from
/// thirty-two and a producer from four. What is not there, spells nothing or has another
/// length is told apart.
pub proof fn law_how_bytes_are_read(
    j: Json,
    key: Seq<char>,
    field: Field,
    bytes: Seq<u8>,
    id: Uuid,
    secret: [u8; 32],
    producer: ProducerId,
)
    ensures
        spells(j, key, bytes) ==> bytes_at(j, key, field) == Ok::<Seq<u8>, Fault>(bytes),
        !(j.at(key) matches Some(Json::Text(_))) ==> bytes_at(j, key, field) == Err::<
            Seq<u8>,
            Fault,
        >(Fault::Missing(field)) && uuid_at(j, key, field) == Err::<Uuid, Fault>(
            Fault::Missing(field),
        ),
        (j.at(key) matches Some(Json::Text(t)) && t.bytes is None) ==> bytes_at(j, key, field)
            == Err::<Seq<u8>, Fault>(Fault::Garbled(field)) && uuid_at(j, key, field) == Err::<
            Uuid,
            Fault,
        >(Fault::Garbled(field)),
        spells(j, key, id.0@) ==> uuid_at(j, key, field) == Ok::<Uuid, Fault>(id),
        spells(j, key, bytes) && bytes.len() != 16 ==> uuid_at(j, key, field) == Err::<Uuid, Fault>(
            Fault::WrongLength { field, got: bytes.len() as usize },
        ),
        spells(j, key, secret@) ==> key_at(j, key) == Ok::<[u8; 32], Fault>(secret),
        spells(j, key, bytes) && bytes.len() != 32 ==> key_at(j, key) == Err::<[u8; 32], Fault>(
            Fault::WrongLength { field: Field::Key, got: bytes.len() as usize },
        ),
        spells(j, "producer"@, producer@) ==> producer_at(j) == Ok::<ProducerId, Fault>(producer),
        spells(j, "producer"@, bytes) && bytes.len() != 4 ==> producer_at(j) == Err::<
            ProducerId,
            Fault,
        >(Fault::WrongLength { field: Field::Producer, got: bytes.len() as usize }),
{
    lemma_array_of::<16>(id.0);
    lemma_array_of::<32>(secret);
    lemma_array_of::<4>(producer);
}

/// The array that holds some bytes is the one that holds them.
proof fn lemma_array_of<const K: usize>(a: [u8; K])
    ensures
        array_of::<K>(a@) == a,
{
    let b = array_of::<K>(a@);
    assert(b@ == a@);
    assert(b@ =~= a@);
    assert(b == a);
}

/// Numbers are read as they are written, a missing one as what it is otherwise; a
/// fixed-point number is written in its own parts, three of them as a list.
pub proof fn law_how_numbers_are_read(j: Json, key: Seq<char>, otherwise: u64, n: u64, v: i32)
    ensures
        j.number_at(key) == Some(n) ==> count_at(j, key, otherwise) == n,
        j.number_at(key) is None ==> count_at(j, key, otherwise) == otherwise,
        (j.at(key) matches Some(Json::Number(number)) && number.signed == Some(v as i64))
            ==> q16_at(j, key) == Q16(v),
        j.at(key) is None ==> q16_at(j, key) == Q16(0),
        j.list_at(key) is None ==> triple_at(j, key) == [Q16(0), Q16(0), Q16(0)],
        j.list_at(key) matches Some(list) ==> forall|i: int|
            0 <= i < 3 ==> #[trigger] triple_at(j, key)[i] == if i < list.len() {
                q16_value(list[i])
            } else {
                Q16(0)
            },
{
}

/// A source is read field by field, each from the key of its own name, and was pushed
/// when it came.
pub proof fn law_how_a_source_is_read(
    ev: Json,
    at_us: u64,
    id: Uuid,
    zone: Uuid,
    scene: Uuid,
    priority: u8,
)
    requires
        spells(ev, "id"@, id.0@),
        spells(ev, "zone"@, zone.0@),
        spells(ev, "scene"@, scene.0@),
        ev.number_at("priority"@) == Some(priority as u64),
    ensures
        source_at(ev, at_us) matches Ok(source) && {
            &&& source.id == id
            &&& source.zone == zone
            &&& source.scene == scene
            &&& source.priority == priority
            &&& source.expires_at_us == ev.number_at("expires_at_us"@)
            &&& forall|ms: u16|
                #![trigger ms as u64]
                ev.number_at("fade_in_ms"@) == Some(ms as u64) ==> source.fade_in_ms == ms
            &&& ev.number_at("fade_in_ms"@) is None ==> source.fade_in_ms == 0
            &&& forall|ms: u16|
                #![trigger ms as u64]
                ev.number_at("fade_out_ms"@) == Some(ms as u64) ==> source.fade_out_ms == ms
            &&& ev.number_at("fade_out_ms"@) is None ==> source.fade_out_ms == 0
            &&& forall|cost: u32|
                #![trigger cost as u64]
                ev.number_at("cost"@) == Some(cost as u64) ==> source.cost == cost
            &&& ev.number_at("cost"@) is None ==> source.cost == 0
            &&& source.pushed_at_us == at_us
        },
{
    lemma_array_of::<16>(id.0);
    lemma_array_of::<16>(zone.0);
    lemma_array_of::<16>(scene.0);
}

/// What a stack is asked to do: to push what is described, now; to drop an id, now; or to
/// let time pass. What it then tells is the answer, with the refusal where it refused.
pub proof fn law_what_a_stack_is_asked(stack: StackModel, at_us: u64, ev: Json, source: Source, id: Uuid)
    ensures
        source_at(ev, at_us) == Ok::<Source, Fault>(source) ==> {
            let (after, said) = sources_step(stack, at_us, "push"@, ev);
            match stack.refusal(at_us, source) {
                None => after == stack.pushed(source) && said == Ok::<SourcesOutcome, Fault>(
                    SourcesOutcome { changes: stack.push_changes(source), refused: None },
                ),
                Some(e) => after == stack && said == Ok::<SourcesOutcome, Fault>(
                    SourcesOutcome { changes: Seq::empty(), refused: Some(Refused::Push(e)) },
                ),
            }
        },
        source_at(ev, at_us) matches Err(e) ==> sources_step(stack, at_us, "push"@, ev) == (
            stack,
            Err::<SourcesOutcome, Fault>(e),
        ),
        spells(ev, "id"@, id.0@) ==> {
            let (after, said) = sources_step(stack, at_us, "pop"@, ev);
            let there = exists|i: int|
                0 <= i < stack.active.len() && #[trigger] stack.active[i].id == id;
            &&& after == stack.popped(at_us, id)
            &&& said matches Ok(outcome) && outcome.changes == stack.pop_changes(at_us, id) && (
            outcome.refused is None <==> there) && (!there ==> outcome.refused == Some(
                Refused::NotFound,
            ))
        },
        sources_step(stack, at_us, "advance"@, ev) == (
            stack.advanced(at_us),
            Ok::<SourcesOutcome, Fault>(
                SourcesOutcome { changes: stack.advance_changes(at_us), refused: None },
            ),
        ),
{
    reveal_strlit("push");
    reveal_strlit("pop");
    reveal_strlit("advance");
    assert("pop"@.len() == 3 && "push"@.len() == 4 && "advance"@.len() == 7);
    lemma_array_of::<16>(id.0);
}

/// What a channel is asked to do: who claims it, for how long and how highly; who lets it
/// go; who says what; what time makes of it; and what it reads.
pub proof fn law_what_a_channel_is_asked<F: Fn(Op, Q16, Q16, Q16) -> Q16>(
    ch: Channel,
    unit: &F,
    at_us: u64,
    ev: Json,
    producer: ProducerId,
    priority: u8,
    lease_ms: u32,
    seq: u16,
)
    requires
        spells(ev, "producer"@, producer@),
    ensures
        count_at(ev, "priority"@, 0) == priority && count_at(ev, "lease_ms"@, 0) == lease_ms ==> {
            let (after, said) = ch.claimed(at_us, producer, priority, lease_ms);
            channel_step(ch, unit, at_us, "claim"@, ev) == (
                after,
                Ok::<ChannelAnswer, Fault>(ChannelAnswer::Claimed(said)),
            )
        },
        channel_step(ch, unit, at_us, "release"@, ev) == (
            ch.released(producer),
            Ok::<ChannelAnswer, Fault>(
                if ch.owner matches Some(held) && held.producer == producer {
                    ChannelAnswer::Released
                } else {
                    ChannelAnswer::ReleaseIgnored
                },
            ),
        ),
        count_at(ev, "seq"@, 0) == seq ==> channel_step(ch, unit, at_us, "publish"@, ev) == (
            ch.published(at_us, producer, seq, q16_at(ev, "value"@)),
            Ok::<ChannelAnswer, Fault>(
                if ch.takes(producer, seq) {
                    ChannelAnswer::Published
                } else {
                    ChannelAnswer::Dropped
                },
            ),
        ),
        channel_step(ch, unit, at_us, "advance"@, ev) == (
            ch.advanced(at_us),
            Ok::<ChannelAnswer, Fault>(
                if ch.lapsed(at_us) {
                    ChannelAnswer::LeaseLapsed(ch.owner->0.producer)
                } else {
                    ChannelAnswer::Quiet
                },
            ),
        ),
        channel_step(ch, unit, at_us, "read"@, ev) == (
            ch,
            Ok::<ChannelAnswer, Fault>(
                ChannelAnswer::Value {
                    value: ch.reading(unit, at_us),
                    stale: ch.stale(at_us),
                },
            ),
        ),
{
    reveal_strlit("claim");
    reveal_strlit("release");
    reveal_strlit("publish");
    reveal_strlit("advance");
    reveal_strlit("read");
    assert("release"@[0] == 'r' && "publish"@[0] == 'p' && "advance"@[0] == 'a');
    assert("claim"@.len() == 5 && "read"@.len() == 4 && "release"@.len() == 7);
    assert("publish"@.len() == 7 && "advance"@.len() == 7);
    lemma_array_of::<4>(producer);
}

/// The protocols by their names.
pub proof fn law_protocols_have_their_names()
    ensures
        protocol_named("artnet"@) == Ok::<Protocol, Fault>(Protocol::ArtNet),
        protocol_named("e131"@) == Ok::<Protocol, Fault>(Protocol::E131),
        protocol_named("ddp"@) == Ok::<Protocol, Fault>(Protocol::Ddp),
        protocol_named("mqtt"@) == Ok::<Protocol, Fault>(Protocol::Mqtt),
        protocol_named("http"@) == Ok::<Protocol, Fault>(Protocol::Http),
{
    reveal_strlit("artnet");
    reveal_strlit("e131");
    reveal_strlit("ddp");
    reveal_strlit("mqtt");
    reveal_strlit("http");
    assert("e131"@[0] == 'e' && "mqtt"@[0] == 'm' && "http"@[0] == 'h');
    assert("artnet"@.len() == 6 && "ddp"@.len() == 3 && "e131"@.len() == 4);
    assert("mqtt"@.len() == 4 && "http"@.len() == 4);
}

/// The axes, the comparisons and the qualities of a mapping by their names.
pub proof fn law_the_words_of_geometry()
    ensures
        axis_named(Some("x"@)) == Ok::<Axis, Fault>(Axis::X),
        axis_named(Some("y"@)) == Ok::<Axis, Fault>(Axis::Y),
        axis_named(Some("z"@)) == Ok::<Axis, Fault>(Axis::Z),
        comparison_named(Some("lt"@)) == Ok::<CmpOp, Fault>(CmpOp::Lt),
        comparison_named(Some("le"@)) == Ok::<CmpOp, Fault>(CmpOp::Le),
        comparison_named(Some("gt"@)) == Ok::<CmpOp, Fault>(CmpOp::Gt),
        comparison_named(Some("ge"@)) == Ok::<CmpOp, Fault>(CmpOp::Ge),
        quality_named(Some("synthetic"@)) == Ok::<MapQuality, Fault>(MapQuality::Synthetic),
        quality_named(Some("rough"@)) == Ok::<MapQuality, Fault>(MapQuality::Rough),
        quality_named(Some("mapped"@)) == Ok::<MapQuality, Fault>(MapQuality::Mapped),
{
    reveal_strlit("x");
    reveal_strlit("y");
    reveal_strlit("z");
    reveal_strlit("lt");
    reveal_strlit("le");
    reveal_strlit("gt");
    reveal_strlit("ge");
    reveal_strlit("synthetic");
    reveal_strlit("rough");
    reveal_strlit("mapped");
    assert("synthetic"@.len() == 9 && "rough"@.len() == 5 && "mapped"@.len() == 6);
    assert("x"@[0] == 'x' && "y"@[0] == 'y' && "z"@[0] == 'z');
    assert("lt"@[0] == 'l' && "le"@[0] == 'l' && "gt"@[0] == 'g' && "ge"@[0] == 'g');
    assert("lt"@[1] == 't' && "le"@[1] == 'e' && "gt"@[1] == 't' && "ge"@[1] == 'e');
}

/// A binding is read field by field, and so is what an integration sends.
pub proof fn law_how_a_binding_is_read(
    state: Json,
    protocol: Protocol,
    id: Uuid,
    zone: Uuid,
    from: u16,
    to: u16,
    ceiling: u8,
    ev: Json,
)
    requires
        state.text_at("protocol"@) is Some,
        protocol_named(state.text_at("protocol"@)->0) == Ok::<Protocol, Fault>(protocol),
        spells(state, "id"@, id.0@),
        spells(state, "zone"@, zone.0@),
        count_at(state, "pixel_from"@, 0) == from,
        count_at(state, "pixel_to"@, 0) == to,
        state.number_at("priority_ceiling"@) == Some(ceiling as u64),
    ensures
        binding_at(state) == Ok::<Binding, Fault>(
            Binding { id, protocol, zone, pixels: (from, to), priority_ceiling: ceiling },
        ),
        count_at(ev, "offset"@, 0) == from && count_at(ev, "count"@, 0) == to ==> {
            let asked = ingress_at(ev);
            &&& asked.offset == from
            &&& asked.count == to
            &&& ev.number_at("priority"@) is None ==> asked.priority is None
            &&& ev.number_at("priority"@) == Some(ceiling as u64) ==> asked.priority == Some(
                ceiling,
            )
        },
{
    lemma_array_of::<16>(id.0);
    lemma_array_of::<16>(zone.0);
}

/// What a gateway is asked: to take in what an integration sends, under the id that comes
/// with it and at the present time; whether it takes programs, which it does not; and how
/// high a ceiling may be.
pub proof fn law_what_a_gateway_is_asked(binding: Binding, at_us: u64, ev: Json, id: Uuid)
    ensures
        spells(ev, "source_id"@, id.0@) ==> gateway_step(binding, at_us, "ingress"@, ev) == Ok::<
            GatewayAnswer,
            Fault,
        >(
            match gateway_admission(binding, ingress_at(ev), id, at_us) {
                Ok(out) => GatewayAnswer::Admitted(out),
                Err(e) => GatewayAnswer::Refused(e),
            },
        ),
        gateway_step(binding, at_us, "program"@, ev) == Ok::<GatewayAnswer, Fault>(
            GatewayAnswer::Program(false),
        ),
        gateway_step(binding, at_us, "ceiling"@, ev) == Ok::<GatewayAnswer, Fault>(
            GatewayAnswer::Ceiling(191),
        ),
{
    reveal_strlit("ingress");
    reveal_strlit("program");
    reveal_strlit("ceiling");
    assert("ingress"@[0] == 'i' && "program"@[0] == 'p' && "ceiling"@[0] == 'c');
    lemma_array_of::<16>(id.0);
}

/// An LED is read from its own keys.
pub proof fn law_how_an_led_is_read(j: Json, index: u16)
    requires
        count_at(j, "index"@, 0) == index,
    ensures
        led_at(j).index == index,
        led_at(j).world == triple_at(j, "world"@),
        led_at(j).local == triple_at(j, "local"@),
{
}

/// A record is read from its own keys, and one of a type that there is not is no record.
pub proof fn law_how_a_record_is_read(
    j: Json,
    kind: RecordType,
    id: Uuid,
    author: Uuid,
    body: Seq<u8>,
    signature: [u8; 64],
)
    requires
        j.number_at("kind"@) == Some(kind.code() as u64),
        spells(j, "signature"@, signature@),
        spells(j, "id"@, id.0@),
        spells(j, "author"@, author.0@),
        spells(j, "body"@, body),
    ensures
        record_at(j) matches Ok(record) && {
            &&& record.kind == kind
            &&& record.id == id
            &&& record.author == author
            &&& record.body == body
            &&& record.signature == signature
            &&& record.hlc.0 == count_at(j, "hlc"@, 0)
        },
{
    lemma_array_of::<16>(id.0);
    lemma_array_of::<16>(author.0);
    lemma_array_of::<64>(signature);
}

/// What a store is asked: to accept a record, at the wall time that comes with it; for
/// its digest; and what it wants of another's.
pub proof fn law_what_a_store_is_asked<F: Fn(&[u8; 32], &[u8], &[u8; 64]) -> bool>(
    was: StoreModel,
    now: StoreModel,
    authority: AuthorityModel,
    verifier: F,
    ev: Json,
    rj: Json,
    record: RecordModel,
    r: Result<RecordsAnswer, Fault>,
)
    ensures
        records_answers(was, now, authority, verifier, "accept"@, ev, r) && ev.at("record"@) == Some(
            rj,
        ) && record_at(rj) == Ok::<RecordModel, Fault>(record) ==> {
            let wall_ms = count_at(ev, "wall_ms"@, 0) as int;
            match was.screened(authority, record) {
                Err(e) => now == was && r == Ok::<RecordsAnswer, Fault>(RecordsAnswer::Rejected(e)),
                Ok(key) => exists|verified: bool| #[trigger]
                    may_say(verifier, key, record.preimage(), record.signature, verified) && (
                    if verified {
                        now == was.with(record, wall_ms) && r == Ok::<RecordsAnswer, Fault>(
                            RecordsAnswer::Accepted,
                        )
                    } else {
                        now == was && r == Ok::<RecordsAnswer, Fault>(
                            RecordsAnswer::Rejected(RejectReason::BadSignature),
                        )
                    }),
            }
        },
        records_answers(was, now, authority, verifier, "digest"@, ev, r) ==> now == was && (
        r matches Ok(RecordsAnswer::Digest(entries)) && was.is_digest(entries@)),
        records_answers(was, now, authority, verifier, "wanted"@, ev, r) ==> now == was && (
        r matches Ok(RecordsAnswer::Wanted(ids)) && ids@ == theirs_at(ev).filter(
            |e: DigestEntry| was.lacks(e),
        ).map_values(|e: DigestEntry| e.id)),
{
    reveal_strlit("accept");
    reveal_strlit("digest");
    reveal_strlit("wanted");
    assert("accept"@[0] == 'a' && "digest"@[0] == 'd' && "wanted"@[0] == 'w');
}

/// The first word of what a node is told: time, a datagram as the codec reads it, or a
/// peer that came or went.
pub proof fn law_what_a_node_is_told<D: Fn(&[u8]) -> Option<Datagram>>(
    codec: D,
    ev: Json,
    told: Result<Event, Fault>,
    bytes: Seq<u8>,
    prefix: [u8; 4],
)
    ensures
        is_node_event(codec, "tick"@, ev, told) ==> told == Ok::<Event, Fault>(Event::Tick),
        is_node_event(codec, "datagram"@, ev, told) && spells(ev, "bytes"@, bytes) ==> (
        told matches Ok(Event::Datagram { datagram }) && may_read(codec, bytes, datagram)),
        is_node_event(codec, "peer_discovered"@, ev, told) && spells(ev, "prefix"@, prefix@)
            ==> told == Ok::<Event, Fault>(Event::PeerDiscovered { prefix }),
        is_node_event(codec, "peer_lost"@, ev, told) && spells(ev, "prefix"@, prefix@) ==> told
            == Ok::<Event, Fault>(Event::PeerLost { prefix }),
{
    reveal_strlit("tick");
    reveal_strlit("datagram");
    reveal_strlit("peer_discovered");
    reveal_strlit("peer_lost");
    assert("tick"@.len() == 4 && "datagram"@.len() == 8);
    assert("peer_discovered"@.len() == 15 && "peer_lost"@.len() == 9);
    lemma_array_of::<4>(prefix);
}

/// A node does what an event makes of it, at the time the event came.
pub proof fn law_a_node_answers_for_the_moment<D: Fn(&[u8]) -> Option<Datagram>>(
    was: NodeModel,
    now: NodeModel,
    codec: D,
    at_us: u64,
    ev: Json,
    r: Result<Vec<Action>, Fault>,
)
    requires
        node_answers(was, now, codec, at_us, "tick"@, ev, r),
    ensures
        r is Ok,
        now == was.event(at_us, Event::Tick).node,
        r->Ok_0@ == was.event(at_us, Event::Tick).out,
{
    reveal_strlit("tick");
    let told = choose|told: Result<Event, Fault>|
        {
            &&& #[trigger] is_node_event(codec, "tick"@, ev, told)
            &&& match told {
                Err(e) => now == was && r == Err::<Vec<Action>, Fault>(e),
                Ok(event) => r matches Ok(out) && (Turn { node: now, out: out@ }) == was.event(
                    at_us,
                    event,
                ),
            }
        };
    assert(is_node_event(codec, "tick"@, ev, told));
}

/// A frame is drawn of the whole device, from black, at the show time that comes with the
/// request and at the time it came; every bound source is drawn by its own program along
/// its own strip. Who faulted is told in the order of the faults.
pub proof fn law_a_frame_is_drawn_of_the_whole_device<
    M,
    P,
    U: Fn(Op, Q16, Q16, Q16) -> Q16,
    F: Fn(Option<M>, Step<P>) -> Ran<M>,
    L: Fn(&[u8]) -> Option<Loaded<P>>,
>(
    was: RenderState<M>,
    now: RenderState<M>,
    unit: &U,
    vm: F,
    load: L,
    at_us: u64,
    ev: Json,
    rgb: Vec<Rgb>,
    faulted: Vec<Uuid>,
) -> (programs: Seq<Loaded<P>>)
    requires
        was.leds.leds@.len() <= u16::MAX,
        render_answers(
            was,
            now,
            unit,
            vm,
            load,
            at_us,
            "frame"@,
            ev,
            Ok(RenderAnswer::Pixels { rgb, faulted }),
        ),
    ensures
        programs.len() == was.bound@.len(),
        forall|i: int|
            0 <= i < programs.len() ==> may_read(
                load,
                (#[trigger] was.bound@[i]).bytecode@,
                Some(programs[i]),
            ),
        ({
            let t = q16_at(ev, "t"@);
            let bound = Seq::new(
                was.bound@.len(),
                |i: int|
                    Bound {
                        source: was.bound@[i].source,
                        program: programs[i].program,
                        frame_cost: programs[i].frame_cost,
                        budget: programs[i].budget,
                        membership: &was.bound@[i].membership,
                        projection: Projection::Strip,
                    },
            );
            let scene = was.renderer@.frame(
                hosted(unit, vm),
                at_us,
                t,
                was.leds.leds@,
                was.stack@.admission().admitted,
                was.stack@.fading,
                bound,
                Seq::new(was.leds.leds@.len(), |i: int| Rgb { r: Q16(0), g: Q16(0), b: Q16(0) }),
                Shard { first: 0, len: was.leds.leds@.len() as u16 },
            );
            &&& rgb@ == scene.out
            &&& faulted@ == crate::render::culprits(scene.faults)
            &&& now.renderer@.last_t == Some(t)
            &&& now.renderer@.machines == scene.machines
            &&& now.renderer@.history == scene.history
            &&& now.stack == was.stack && now.leds == was.leds && now.bound == was.bound
        }),
{
    reveal_strlit("bind");
    reveal_strlit("frame");
    assert("bind"@.len() == 4 && "frame"@.len() == 5);
    let programs = choose|programs: Seq<Loaded<P>>|
        {
            &&& #[trigger] are_loaded(load, was.bound@, programs)
            &&& is_rendered(
                was,
                now,
                unit,
                vm,
                at_us,
                q16_at(ev, "t"@),
                programs,
                rgb@,
                faulted@,
            )
        };
    assert(are_loaded(load, was.bound@, programs));
    let bound = Seq::new(
        was.bound@.len(),
        |i: int|
            Bound {
                source: was.bound@[i].source,
                program: programs[i].program,
                frame_cost: programs[i].frame_cost,
                budget: programs[i].budget,
                membership: &was.bound@[i].membership,
                projection: Projection::Strip,
            },
    );
    assert(loaded_bounds(was.bound@, programs) =~= bound);
    assert(Seq::new(was.leds.leds@.len(), |i: int| Rgb::black()) =~= Seq::new(
        was.leds.leds@.len(),
        |i: int| Rgb { r: Q16(0), g: Q16(0), b: Q16(0) },
    ));
    let scene = was.renderer@.frame(
        hosted(unit, vm),
        at_us,
        q16_at(ev, "t"@),
        was.leds.leds@,
        was.stack@.admission().admitted,
        was.stack@.fading,
        bound,
        Seq::new(was.leds.leds@.len(), |i: int| Rgb { r: Q16(0), g: Q16(0), b: Q16(0) }),
        Shard { first: 0, len: was.leds.leds@.len() as u16 },
    );
    assert(faulted@ =~= crate::render::culprits(scene.faults));
    programs
}

/// Binding pushes the source, now, and binds it, whatever became of the push, to its
/// program and to the LEDs of its run, all of them where none is given.
pub proof fn law_binding_pushes_and_binds<
    M,
    P,
    U: Fn(Op, Q16, Q16, Q16) -> Q16,
    F: Fn(Option<M>, Step<P>) -> Ran<M>,
    L: Fn(&[u8]) -> Option<Loaded<P>>,
>(
    was: RenderState<M>,
    now: RenderState<M>,
    unit: &U,
    vm: F,
    load: L,
    at_us: u64,
    ev: Json,
    source: Source,
    bytecode: Seq<u8>,
    r: Result<RenderAnswer, Fault>,
    index: u16,
)
    requires
        render_answers(was, now, unit, vm, load, at_us, "bind"@, ev, r),
        spells(ev, "program"@, bytecode),
        source_at(ev, at_us) == Ok::<Source, Fault>(source),
    ensures
        r is Ok,
        stack_after_push(was.stack@, now.stack@, at_us, source),
        now.bound@.len() == was.bound@.len() + 1,
        now.bound@.drop_last() == was.bound@,
        now.bound@.last().source == source,
        now.bound@.last().bytecode@ == bytecode,
        ({
            let from = count_at(ev, "led_from"@, 0);
            let to = count_at(ev, "led_to"@, was.leds.leds@.len() as u64);
            from <= u16::MAX && to <= u16::MAX ==> (now.bound@.last().membership.leds@.contains(
                index,
            ) <==> from <= index < to && exists|i: int|
                0 <= i < was.leds.leds@.len() && (#[trigger] was.leds.leds@[i]).index == index)
        }),
{
    reveal_strlit("bind");
    let from = count_at(ev, "led_from"@, 0);
    let to = count_at(ev, "led_to"@, was.leds.leds@.len() as u64);
    let run = run_at(ev, was.leds.leds@.len());
    let members = run_of(was.leds.leds@, run);
    if from <= u16::MAX && to <= u16::MAX {
        lemma_run_names(was.leds.leds@, run, now.bound@.last().membership.leds@, index);
    }
}

/// Whether a stack is what a push made of it, or as it was where the push was refused.
pub open spec fn stack_after_push(
    was: StackModel,
    now: StackModel,
    at_us: u64,
    source: Source,
) -> bool {
    if was.refusal(at_us, source) is None {
        now == was.pushed(source)
    } else {
        now == was
    }
}

proof fn lemma_run_names(leds: Seq<Led>, run: (u16, u16), indices: Seq<u16>, index: u16)
    requires
        names_ascending(indices, run_of(leds, run)),
    ensures
        indices.contains(index) <==> run.0 <= index < run.1 && exists|i: int|
            0 <= i < leds.len() && (#[trigger] leds[i]).index == index,
{
    broadcast use vstd::seq_lib::group_to_multiset_ensures;

    let within = |led: Led| run.0 <= led.index < run.1;
    let members = leds.filter(within);
    let named = members.map_values(|led: Led| led.index);
    assert(indices.contains(index) <==> indices.to_multiset().count(index) > 0);
    assert(named.contains(index) <==> named.to_multiset().count(index) > 0);
    if named.contains(index) {
        let k = choose|k: int| 0 <= k < named.len() && named[k] == index;
        leds.lemma_filter_contains_rev(within, members[k]);
        leds.lemma_filter_pred(within, k);
        let i = leds.index_of(members[k]);
        assert(leds[i].index == index);
    }
    if run.0 <= index < run.1 && exists|i: int|
        0 <= i < leds.len() && (#[trigger] leds[i]).index == index {
        let i = choose|i: int| 0 <= i < leds.len() && (#[trigger] leds[i]).index == index;
        leds.lemma_filter_contains(within, i);
        let k = members.index_of(leds[i]);
        assert(named[k] == index);
    }
}

/// What a machine is set up as, by its name: each from its own keys.
pub proof fn law_what_is_set_up<M, X: Fn(&Uuid) -> ([u8; 4], [u8; 2])>(
    naming: X,
    body: Json,
    state: Json,
    r: Result<Machine<M>, Fault>,
)
    requires
        sets_up(naming, body, r),
        body.at("state"@) == Some(state),
    ensures
        body.text_at("machine"@) == Some("sources"@) ==> (r matches Ok(Machine::Sources(stack)) && {
            let limit = count_at(state, "max_concurrent"@, 0);
            &&& stack@.active.len() == 0
            &&& count_at(state, "budget"@, 0) <= u32::MAX ==> stack@.budget == count_at(
                state,
                "budget"@,
                0,
            )
            &&& 2 <= limit <= usize::MAX ==> stack@.limit == limit
        }),
        body.text_at("machine"@) == Some("channel"@) ==> (r matches Ok(Machine::Channel(c)) && {
            &&& count_at(state, "channel_id"@, 0) <= u16::MAX ==> c.id == count_at(
                state,
                "channel_id"@,
                0,
            )
            &&& count_at(state, "hold_ms"@, 0) <= u32::MAX ==> c.hold_ms == count_at(
                state,
                "hold_ms"@,
                0,
            )
            &&& c.default == q16_at(state, "default"@)
            &&& c.owner is None
        }),
        body.text_at("machine"@) == Some("gateway"@) ==> match binding_at(state) {
            Ok(binding) => r == Ok::<Machine<M>, Fault>(Machine::Gateway(binding)),
            Err(e) => r == Err::<Machine<M>, Fault>(e),
        },
        body.text_at("machine"@) == Some("records"@) ==> match authority_at(state) {
            Ok(known) => r matches Ok(Machine::Records(store, authority)) && authority@ == known
                && store@.records.dom().is_empty() && store@.clock.0 == 0,
            Err(e) => r == Err::<Machine<M>, Fault>(e),
        },
        body.text_at("machine"@) == Some("render"@) ==> (r matches Ok(Machine::Render(st)) && {
            let n = count_at(state, "led_count"@, 4);
            &&& st.bound@.len() == 0
            &&& st.stack@.active.len() == 0
            &&& st.renderer@.last_t is None
            &&& n <= 0x7fff ==> st.leds.leds@.len() == n && forall|i: int|
                0 <= i < n ==> {
                    &&& (#[trigger] st.leds.leds@[i]).index == i
                    &&& st.leds.leds@[i].world[0] == Q16((i * 65_536) as i32)
                    &&& st.leds.leds@[i].world[1] == Q16(0)
                }
        }),
{
    reveal_strlit("node");
    reveal_strlit("sources");
    reveal_strlit("channel");
    reveal_strlit("gateway");
    reveal_strlit("zone");
    reveal_strlit("records");
    reveal_strlit("render");
    assert("sources"@[0] == 's' && "channel"@[0] == 'c' && "gateway"@[0] == 'g');
    assert("records"@[0] == 'r' && "render"@.len() == 6 && "records"@.len() == 7);
    if body.text_at("machine"@) == Some("render"@) {
        let st = r->Ok_0->Render_0;
        assert forall|i: int| 0 <= i < st.leds.leds@.len() && i < 0x8000 implies {
            &&& (#[trigger] st.leds.leds@[i]).index == i
            &&& st.leds.leds@[i].world[0] == Q16((i * 65_536) as i32)
            &&& st.leds.leds@[i].world[1] == Q16(0)
        } by {
            assert(st.leds.leds@[i] == strip_led(i as u16));
            let n = i as u16;
            assert(n < 0x8000 ==> (n as i16) as i32 == n as i32) by (bit_vector);
        }
    }
}

/// An event is handed to the machine that is set up, under its own kind and at the time
/// that the request gives; without one there is nothing to hand it to.
pub proof fn law_an_event_reaches_its_machine<
    M,
    P,
    U: Fn(Op, Q16, Q16, Q16) -> Q16,
    F: Fn(Option<M>, Step<P>) -> Ran<M>,
    L: Fn(&[u8]) -> Option<Loaded<P>>,
    D: Fn(&[u8]) -> Option<Datagram>,
    V: Fn(&[u8; 32], &[u8], &[u8; 64]) -> bool,
>(
    was: Machine<M>,
    now: Machine<M>,
    shell: Shell<U, F, L, D, V>,
    body: Json,
    ev: Json,
    kind: Seq<char>,
    r: Result<Answer, Fault>,
)
    requires
        handles(was, now, shell, body, r),
        body.at("event"@) == Some(ev),
        ev.text_at("event"@) == Some(kind),
    ensures
        ({
            let at_us = if body.number_at("at_us"@) is Some {
                body.number_at("at_us"@)->0
            } else {
                0
            };
            &&& was is Idle ==> now is Idle && r == Err::<Answer, Fault>(Fault::NotSetUp)
            &&& was matches Machine::Sources(a) ==> (now matches Machine::Sources(b) && {
                let (after, said) = sources_step(a@, at_us, kind, ev);
                &&& b@ == after
                &&& said matches Ok(outcome) ==> (r matches Ok(Answer::Sources(answer)) && answer@
                    == outcome)
                &&& said matches Err(e) ==> r == Err::<Answer, Fault>(e)
            })
            &&& was matches Machine::Channel(a) ==> (now matches Machine::Channel(b) && {
                let (after, said) = channel_step(a, &shell.unit, at_us, kind, ev);
                &&& b == after
                &&& said matches Ok(answer) ==> r == Ok::<Answer, Fault>(Answer::Channel(answer))
                &&& said matches Err(e) ==> r == Err::<Answer, Fault>(e)
            })
            &&& was matches Machine::Gateway(a) ==> now == was && match gateway_step(
                a,
                at_us,
                kind,
                ev,
            ) {
                Ok(answer) => r == Ok::<Answer, Fault>(Answer::Gateway(answer)),
                Err(e) => r == Err::<Answer, Fault>(e),
            }
            &&& was matches Machine::Node(a) ==> (now matches Machine::Node(b) && (
            r matches Ok(Answer::Node(out)) ==> node_answers(
                a@,
                b@,
                shell.codec,
                at_us,
                kind,
                ev,
                Ok(out),
            )))
            &&& was matches Machine::Render(a) ==> (now matches Machine::Render(b) && (
            r matches Ok(Answer::Render(answer)) ==> render_answers(
                a,
                b,
                &shell.unit,
                shell.vm,
                shell.load,
                at_us,
                kind,
                ev,
                Ok(answer),
            )))
        }),
{
}

/// A geometric test is read by its name, from its own keys, and so are the tests in it.
pub proof fn law_how_a_test_is_read(j: Json, test: Predicate)
    requires
        describes(j, test),
    ensures
        j.text_at("predicate"@) == Some("compare"@) ==> (test matches Predicate::Compare {
            axis,
            op,
            value,
        } && axis_named(j.text_at("axis"@)) == Ok::<Axis, Fault>(axis) && comparison_named(
            j.text_at("op"@),
        ) == Ok::<CmpOp, Fault>(op) && value == q16_at(j, "value"@)),
        j.text_at("predicate"@) == Some("near"@) ==> (test matches Predicate::Near { point, radius }
            && point == triple_at(j, "point"@) && radius == q16_at(j, "radius"@)),
        j.text_at("predicate"@) == Some("not"@) ==> (test matches Predicate::Not(inner) && j.at(
            "of"@,
        ) is Some && describes(j.at("of"@)->0, *inner)),
        j.text_at("predicate"@) == Some("all"@) ==> (test matches Predicate::All(parts)
            && j.list_at("of"@) is Some && parts@.len() == j.list_at("of"@)->0.len()
            && forall|i: int|
            0 <= i < parts@.len() ==> describes(j.list_at("of"@)->0[i], #[trigger] parts@[i])),
        j.text_at("predicate"@) == Some("any"@) ==> (test matches Predicate::Any(parts)
            && j.list_at("of"@) is Some && parts@.len() == j.list_at("of"@)->0.len()
            && forall|i: int|
            0 <= i < parts@.len() ==> describes(j.list_at("of"@)->0[i], #[trigger] parts@[i])),
{
    reveal_strlit("compare");
    reveal_strlit("near");
    reveal_strlit("not");
    reveal_strlit("all");
    reveal_strlit("any");
    assert("compare"@.len() == 7 && "near"@.len() == 4 && "not"@.len() == 3);
    assert("all"@.len() == 3 && "any"@.len() == 3);
    assert("not"@[0] == 'n' && "all"@[0] == 'a' && "any"@[0] == 'a');
    assert("all"@[1] == 'l' && "any"@[1] == 'n');
}

/// A clause is read by its name: a device with its run of LEDs, or a test. A zone is read
/// with what it takes in and what it takes out, and its device with its own LEDs.
pub proof fn law_how_a_zone_is_read(
    j: Json,
    clause: Clause,
    device: Uuid,
    from: u16,
    to: u16,
    state: Json,
    zone: Zone,
    dev: DeviceLeds,
)
    ensures
        describes_clause(j, clause) && j.text_at("clause"@) == Some("device"@) && spells(
            j,
            "device"@,
            device.0@,
        ) ==> {
            &&& clause is Device
            &&& clause->device == device
            &&& j.list_at("leds"@) is None ==> clause->leds is None
            &&& j.list_at("leds"@) is Some && count_in(j.list_at("leds"@)->0, 0) == from
                && count_in(j.list_at("leds"@)->0, 1) == to ==> clause->leds == Some((from, to))
        },
        describes_clause(j, clause) && j.text_at("clause"@) == Some("where"@) ==> (
        clause matches Clause::Where(test) && describes(j, test)),
        describes_zone_state(state, zone, dev) ==> {
            let (zj, dj) = (state.at("zone"@)->0, state.at("device"@)->0);
            &&& uuid_at(zj, "id"@, Field::Id) == Ok::<Uuid, Fault>(zone.id)
            &&& describes_clauses(clauses_at(zj, "include"@), zone.included@)
            &&& describes_clauses(clauses_at(zj, "exclude"@), zone.excluded@)
            &&& quality_named(dj.text_at("quality"@)) == Ok::<MapQuality, Fault>(dev.quality)
            &&& uuid_at(dj, "device"@, Field::Device) == Ok::<Uuid, Fault>(dev.device)
            &&& dj.list_at("leds"@) is Some && dev.leds@ == dj.list_at("leds"@)->0.map_values(
                |l: Json| led_at(l),
            )
        },
{
    reveal_strlit("device");
    reveal_strlit("where");
    assert("device"@.len() == 6 && "where"@.len() == 5);
    lemma_array_of::<16>(device.0);
}

/// Who may sign is read from two lists, each identity with its key: who controls, and what
/// devices there are. A later entry replaces an earlier one of the same identity.
pub proof fn law_how_authority_is_read(
    state: Json,
    list: Seq<Json>,
    n: nat,
    known: Map<Uuid, [u8; 32]>,
    id: Uuid,
    key: [u8; 32],
    others: Map<Uuid, [u8; 32]>,
)
    ensures
        keys_in(list, 0) == Ok::<Map<Uuid, [u8; 32]>, Fault>(Map::empty()),
        n < list.len() && keys_in(list, n) == Ok::<Map<Uuid, [u8; 32]>, Fault>(known) && spells(
            list[n as int],
            "id"@,
            id.0@,
        ) && spells(list[n as int], "key"@, key@) ==> keys_in(list, n + 1) == Ok::<
            Map<Uuid, [u8; 32]>,
            Fault,
        >(known.insert(id, key)),
        state.list_at("controllers"@) is None && state.list_at("devices"@) is None
            ==> authority_at(state) == Ok::<AuthorityModel, Fault>(
            AuthorityModel { controllers: Map::empty(), devices: Map::empty() },
        ),
        state.list_at("controllers"@) is Some && state.list_at("devices"@) is Some ==> {
            let (who, what) = (state.list_at("controllers"@)->0, state.list_at("devices"@)->0);
            keys_in(who, who.len()) == Ok::<Map<Uuid, [u8; 32]>, Fault>(known) && keys_in(
                what,
                what.len(),
            ) == Ok::<Map<Uuid, [u8; 32]>, Fault>(others) ==> authority_at(state) == Ok::<
                AuthorityModel,
                Fault,
            >(AuthorityModel { controllers: known, devices: others })
        },
{
    lemma_array_of::<16>(id.0);
    lemma_array_of::<32>(key);
}

/// Another's digest is read entry by entry, in its order; what is no entry is passed over.
pub proof fn law_how_a_digest_is_read(list: Seq<Json>, n: nat, id: Uuid, hlc: u64, ev: Json)
    requires
        n < list.len(),
    ensures
        entries_in(list, 0).len() == 0,
        spells(list[n as int], "id"@, id.0@) && list[n as int].number_at("hlc"@) == Some(hlc)
            ==> entries_in(list, n + 1) == entries_in(list, n).push(
            DigestEntry { id, hlc: Hlc(hlc) },
        ),
        list[n as int].number_at("hlc"@) is None ==> entries_in(list, n + 1) == entries_in(list, n),
        ev.list_at("theirs"@) is Some ==> theirs_at(ev) == entries_in(
            ev.list_at("theirs"@)->0,
            ev.list_at("theirs"@)->0.len(),
        ),
{
    lemma_array_of::<16>(id.0);
}

/// A program and a body are the bytes that they are given as, and none where nothing is
/// given. A run of LEDs is all of them where nothing is said.
pub proof fn law_what_may_be_left_out(j: Json, bytes: Seq<u8>, len: u16)
    ensures
        spells(j, "program"@, bytes) ==> program_at(j) == Ok::<Seq<u8>, Fault>(bytes),
        j.at("program"@) is None ==> program_at(j) == Ok::<Seq<u8>, Fault>(Seq::empty()),
        spells(j, "body"@, bytes) ==> body_at(j) == Ok::<Seq<u8>, Fault>(bytes),
        j.at("body"@) is None ==> body_at(j) == Ok::<Seq<u8>, Fault>(Seq::empty()),
        j.number_at("led_from"@) is None && j.number_at("led_to"@) is None ==> run_at(
            j,
            len as nat,
        ) == (0u16, len),
{
}

/// A node is set up with its own identity and capacity, in its mesh, at its time; the
/// names that its headers carry are those the shell has for the two identities.
pub proof fn law_how_a_node_is_set_up<X: Fn(&Uuid) -> ([u8; 4], [u8; 2])>(
    naming: X,
    state: Json,
    node: NodeModel,
    uuid: Uuid,
    mesh: Uuid,
    capacity: u32,
)
    requires
        sets_up_node(naming, state, Ok(node)),
        spells(state, "uuid"@, uuid.0@),
        spells(state, "mesh_id"@, mesh.0@),
        state.number_at("capacity"@) == Some(capacity as u64),
    ensures
        node.me.uuid == uuid,
        node.me.capacity == capacity,
        exists|me: ([u8; 4], [u8; 2])|
            #[trigger] call_ensures(naming, (&uuid,), me) && node.me.prefix == me.0,
        exists|us: ([u8; 4], [u8; 2])|
            #[trigger] call_ensures(naming, (&mesh,), us) && node.mesh_prefix == us.1,
        node.election.since_us == count_at(state, "now_us"@, 0),
        node.election.role is Follower,
        count_at(state, "boot_counter"@, 1) <= u32::MAX ==> node.boot_counter == count_at(
            state,
            "boot_counter"@,
            1,
        ),
{
    lemma_array_of::<16>(uuid.0);
    lemma_array_of::<16>(mesh.0);
}

} // verus!
