//! The render loop.
//!
//! Where the source stack, zones and the machine that runs effects meet: for each
//! LED, find the source that renders it, run that source's program with the
//! inputs its zone's projection defines, and cross-fade anything on its way out.
//!
//! # Resolution is per pixel, every frame
//!
//! Zones overlap, so a pixel can be covered by several sources at once. The
//! highest-priority admitted source wins it, independently on every device.
//!
//! # A device is never dark because of software
//!
//! Every failure here has a defined visual outcome. A program that faults leaves
//! the pixel showing what was underneath rather than black; a pixel no source
//! covers keeps its ambient value; a source still fading contributes until it has
//! finished.
//!
//! # Splitting the work across cores
//!
//! The pixels of a frame are independent, so a device with more than one core can
//! render them on all of them. [`Shard`] is how: each core takes a [`Renderer`],
//! a shard, and the slice of the output its shard covers. Shards render exactly
//! what one whole render does: a two-core device that rendered differently from a
//! one-core device would break the mesh's agreement with itself.
//!
//! # The machine
//!
//! Programs are run by a machine the device supplies: one function that takes the
//! machine as it was left and one [`Step`] of work, and gives back the machine
//! and what the work came to.

use vstd::prelude::*;

use crate::lists::{
    holds, lemma_filter_all, lemma_filter_none, lemma_filter_pairs, lemma_filter_split,
};
use crate::num::past;
use crate::order::lemma_one_strict_order;
use crate::q16::{between, is_arithmetic, Op, Q16};
use crate::sources::{
    law_fades_run_one_way, law_order_is_total, law_the_front_is_admitted, Fading, Source, SourceStack, StackModel,
};
use crate::table::{Key, Table};
use crate::uuid::{lemma_key_injective, Uuid};
use crate::zones::{Bounds, DeviceLeds, Led, Membership, Projected, Projection};

verus! {

/// One rendered pixel, in linear RGB.
///
/// Linear throughout. Gamma is applied once by the output stage, never by an
/// effect and never here.
#[derive(Clone, Copy, PartialEq, Eq, Default, Debug, Structural)]
pub struct Rgb {
    pub r: Q16,
    pub g: Q16,
    pub b: Q16,
}

/// What a program emits for one pixel.
#[derive(Clone, Copy, PartialEq, Eq, Debug, Structural)]
pub enum PixelOutput {
    /// It emitted nothing.
    Nothing,
    Rgb { r: Q16, g: Q16, b: Q16 },
    Rgbw { r: Q16, g: Q16, b: Q16, w: Q16 },
    /// A colour temperature and a level.
    Cct { temperature: Q16, level: Q16 },
}

/// The colour of an output, where it has one.
///
/// The white channel is added by the output stage, which knows the fixture's
/// white point; the compositor works in RGB so that two sources on
/// differently-equipped devices still blend the same.
pub open spec fn colour(output: PixelOutput) -> Option<Rgb> {
    match output {
        PixelOutput::Rgb { r, g, b } => Some(Rgb { r, g, b }),
        PixelOutput::Rgbw { r, g, b, .. } => Some(Rgb { r, g, b }),
        PixelOutput::Cct { .. } => None,
        PixelOutput::Nothing => None,
    }
}

impl Rgb {
    #[verifier::allow_in_spec]
    pub fn black() -> Rgb
        returns
            (Rgb { r: Q16(0), g: Q16(0), b: Q16(0) }),
    {
        Rgb { r: Q16(0), g: Q16(0), b: Q16(0) }
    }

    pub fn new(r: Q16, g: Q16, b: Q16) -> (c: Rgb)
        ensures
            c == (Rgb { r, g, b }),
    {
        Rgb { r, g, b }
    }

    /// Cross-fade toward `other` by `t`, 0..1.
    pub fn mix<U: Fn(Op, Q16, Q16, Q16) -> Q16>(self, unit: &U, other: Rgb, t: Q16) -> (c: Rgb)
        requires
            is_arithmetic(*unit),
        ensures
            c == mixed(unit, self, other, t),
    {
        Rgb {
            r: between(unit, self.r, other.r, t),
            g: between(unit, self.g, other.g, t),
            b: between(unit, self.b, other.b, t),
        }
    }

    /// The colour of an output, where it has one.
    pub fn from_output(out: PixelOutput) -> (c: Option<Rgb>)
        ensures
            c == colour(out),
    {
        match out {
            PixelOutput::Rgb { r, g, b } => Some(Rgb { r, g, b }),
            PixelOutput::Rgbw { r, g, b, .. } => Some(Rgb { r, g, b }),
            PixelOutput::Cct { .. } => None,
            PixelOutput::Nothing => None,
        }
    }
}

/// Channel by channel, from one colour toward another.
pub open spec fn mixed<U: Fn(Op, Q16, Q16, Q16) -> Q16>(unit: &U, a: Rgb, b: Rgb, t: Q16) -> Rgb {
    Rgb {
        r: between(unit, a.r, b.r, t),
        g: between(unit, a.g, b.g, t),
        b: between(unit, a.b, b.b, t),
    }
}

/// Which fault a machine met, by the machine's own number for it.
#[derive(Clone, Copy, PartialEq, Eq, Debug, Structural)]
pub struct Fault(pub u8);

/// What a program is told about one pixel.
#[derive(Clone, Copy, PartialEq, Eq, Debug)]
pub struct PixelInputs {
    pub x: Q16,
    pub y: Q16,
    pub z: Q16,
    pub lx: Q16,
    pub ly: Q16,
    pub lz: Q16,
    pub index: Q16,
    pub count: Q16,
    pub u: Q16,
    pub uv_x: Q16,
    pub uv_y: Q16,
    /// What the program left for this pixel in the last frame.
    pub prev: [Q16; 3],
}

/// A piece of work for a machine.
#[derive(Clone, Copy, PartialEq, Eq, Debug)]
pub enum Work {
    /// The part of a program that runs once a frame.
    Frame { t: Q16, dt: Q16 },
    /// The part that runs for every pixel.
    Pixel(PixelInputs),
}

/// Work for a machine, the program that does it, and what it may spend.
#[derive(Clone, Copy, Debug)]
pub struct Step<P> {
    pub program: P,
    pub budget: u32,
    pub work: Work,
}

/// What a machine made of a step.
#[derive(Debug)]
pub struct Ran<M> {
    /// The machine as the step left it.
    pub machine: M,
    /// What the step spent, whether it succeeded or faulted.
    pub spent: u32,
    /// What to hand the program as `prev` in the next frame.
    pub prev: [Q16; 3],
    pub outcome: Result<PixelOutput, Fault>,
}

/// Whether `vm` is a machine: it takes every step from every state, a fresh one
/// included, and always the same way.
pub open spec fn is_machine<M, P, F: Fn(Option<M>, Step<P>) -> Ran<M>>(vm: F) -> bool {
    &&& forall|machine: Option<M>, step: Step<P>| #[trigger] call_requires(vm, (machine, step))
    &&& forall|machine: Option<M>, step: Step<P>, a: Ran<M>, b: Ran<M>|
        #[trigger] call_ensures(vm, (machine, step), a) && #[trigger] call_ensures(
            vm,
            (machine, step),
            b,
        ) ==> a == b
}

/// What a machine makes of a step.
pub open spec fn taken<M, P, F: Fn(Option<M>, Step<P>) -> Ran<M>>(
    vm: F,
    machine: Option<M>,
    step: Step<P>,
) -> Ran<M> {
    choose|r: Ran<M>| call_ensures(vm, (machine, step), r)
}

/// Take one step: what a machine makes of it is what it does when it is asked.
pub fn run<M, P, F: Fn(Option<M>, Step<P>) -> Ran<M>>(
    vm: &F,
    machine: Option<M>,
    step: Step<P>,
) -> (r: Ran<M>)
    requires
        is_machine(*vm),
    ensures
        r == taken(*vm, machine, step),
        call_ensures(*vm, (machine, step), r),
{
    let r = vm(machine, step);
    assert(call_ensures(*vm, (machine, step), r));
    r
}

/// What a source needs in order to render.
pub struct Bound<'a, P> {
    pub source: Source,
    pub program: P,
    /// What the once-a-frame part of the program costs.
    pub frame_cost: u32,
    /// What the program promised to cost per pixel.
    pub budget: u32,
    pub membership: &'a Membership,
    pub projection: Projection,
}

/// Why a source did not render this frame.
#[derive(Clone, Copy, PartialEq, Eq, Debug)]
pub enum RenderFault {
    /// Its program faulted. The pixel keeps whatever was underneath.
    Program { source: Uuid, fault: Fault },
}

/// The outcome of one frame.
#[derive(Clone, PartialEq, Eq, Debug)]
pub struct FrameReport {
    /// Sources that actually contributed a pixel.
    pub rendered: Vec<Uuid>,
    /// Sources that faulted, with why: a program that faults every frame is a bug
    /// someone needs to hear about.
    pub faults: Vec<RenderFault>,
    /// Budget units spent across every source.
    pub spent: u32,
}

/// A sum of budget units, which stops at the most there can be.
pub open spec fn tallied(a: int, b: int) -> int {
    if a + b > u32::MAX {
        u32::MAX as int
    } else {
        a + b
    }
}

/// The first list, and what only the second has.
pub open spec fn united(a: Seq<Uuid>, b: Seq<Uuid>) -> Seq<Uuid>
    decreases b.len(),
{
    if b.len() == 0 {
        a
    } else {
        let earlier = united(a, b.drop_last());
        if earlier.contains(b.last()) {
            earlier
        } else {
            earlier.push(b.last())
        }
    }
}

impl FrameReport {
    /// Note that a source contributed a pixel.
    fn name(&mut self, id: Uuid)
        ensures
            final(self).rendered@ == named(old(self).rendered@, id),
            final(self).faults == old(self).faults,
            final(self).spent == old(self).spent,
    {
        if !holds(&self.rendered, id) {
            self.rendered.push(id);
        }
    }

    /// Fold another core's report into this one.
    ///
    /// `spent` sums, and that total is genuinely higher than a single-core render
    /// of the same frame would report: each shard runs the once-a-frame part for
    /// itself.
    pub fn merge(&mut self, other: FrameReport)
        ensures
            final(self).rendered@ == united(old(self).rendered@, other.rendered@),
            final(self).faults@ == old(self).faults@ + other.faults@,
            final(self).spent == tallied(old(self).spent as int, other.spent as int),
    {
        let mut i: usize = 0;
        assert(other.rendered@.take(0) =~= Seq::<Uuid>::empty());
        while i < other.rendered.len()
            invariant
                i <= other.rendered@.len(),
                self.rendered@ == united(old(self).rendered@, other.rendered@.take(i as int)),
                self.faults@ == old(self).faults@,
                self.spent == old(self).spent,
            decreases other.rendered@.len() - i,
        {
            let id = other.rendered[i];
            assert(other.rendered@.take(i + 1).drop_last() =~= other.rendered@.take(i as int));
            if !holds(&self.rendered, id) {
                self.rendered.push(id);
            }
            i += 1;
        }
        assert(other.rendered@.take(i as int) =~= other.rendered@);
        let mut j: usize = 0;
        assert(self.faults@ =~= old(self).faults@ + other.faults@.take(0));
        while j < other.faults.len()
            invariant
                j <= other.faults@.len(),
                self.rendered@ == united(old(self).rendered@, other.rendered@),
                self.faults@ == old(self).faults@ + other.faults@.take(j as int),
                self.spent == old(self).spent,
            decreases other.faults@.len() - j,
        {
            self.faults.push(other.faults[j]);
            j += 1;
            assert(self.faults@ =~= old(self).faults@ + other.faults@.take(j as int));
        }
        assert(other.faults@.take(j as int) =~= other.faults@);
        self.spent = self.spent.saturating_add(other.spent);
    }
}

/// A merged report names every source of either exactly once.
pub proof fn law_merging_names_each_source_once(a: Seq<Uuid>, b: Seq<Uuid>)
    requires
        a.no_duplicates(),
    ensures
        united(a, b).no_duplicates(),
        forall|id: Uuid| #[trigger]
            united(a, b).contains(id) <==> a.contains(id) || b.contains(id),
    decreases b.len(),
{
    if b.len() > 0 {
        let rest = b.drop_last();
        let earlier = united(a, rest);
        let all = united(a, b);
        law_merging_names_each_source_once(a, rest);
        assert(b =~= rest.push(b.last()));
        assert forall|id: Uuid| #[trigger] all.contains(id) <==> a.contains(id) || b.contains(
            id,
        ) by {
            assert(earlier.contains(id) <==> a.contains(id) || rest.contains(id));
            if b.contains(id) {
                let k = b.index_of(id);
                if k < rest.len() {
                    assert(rest[k] == id);
                }
            }
            if rest.contains(id) {
                assert(b[rest.index_of(id)] == id);
            }
            assert(b[b.len() - 1] == b.last());
            if !earlier.contains(b.last()) {
                assert(all[earlier.len() as int] == b.last());
                if earlier.contains(id) {
                    assert(all[earlier.index_of(id)] == id);
                }
                if all.contains(id) {
                    let k = all.index_of(id);
                    if k < earlier.len() {
                        assert(earlier[k] == id);
                    }
                }
            }
        }
    }
}

/// The run of LEDs one core renders.
///
/// A device with `n` cores builds `n` of these over its LED count, gives each
/// core one along with its own [`Renderer`] and the matching slice of the output
/// buffer, and merges the reports afterwards.
///
/// A shard is a *run* of LED indices, so the output buffer splits in two and each
/// core writes its own memory.
#[derive(Clone, Copy, PartialEq, Eq, Debug, Structural)]
pub struct Shard {
    pub first: u16,
    pub len: u16,
}

/// The first LED of share `index` of `of`, over `len` LEDs: the remainder goes to
/// the earlier shares.
pub open spec fn share_start(index: int, of: int, len: int) -> int {
    index * (len / of) + if index < len % of {
        index
    } else {
        len % of
    }
}

proof fn lemma_share(index: int, of: int, len: int)
    requires
        0 <= index < of,
        0 <= len,
    ensures
        share_start(index + 1, of, len) == share_start(index, of, len) + len / of + if index < len
            % of {
            1int
        } else {
            0
        },
        0 <= share_start(index, of, len) <= share_start(index + 1, of, len) <= len,
        share_start(0, of, len) == 0,
        share_start(of, of, len) == len,
        0 <= index * (len / of) <= len,
{
    let (base, extra) = (len / of, len % of);
    assert(len == of * base + extra && 0 <= extra < of && 0 <= base) by (nonlinear_arith)
        requires
            0 < of,
            0 <= len,
            base == len / of,
            extra == len % of,
    ;
    assert((index + 1) * base == index * base + base) by (nonlinear_arith);
    assert(0 * base == 0) by (nonlinear_arith);
    assert(0 <= index * base && (index + 1) * base <= of * base) by (nonlinear_arith)
        requires
            0 <= index,
            index + 1 <= of,
            0 <= base,
    ;
}

impl Shard {
    /// The first LED.
    pub open spec fn start(self) -> int {
        self.first as int
    }

    /// How many LEDs.
    pub open spec fn size(self) -> int {
        self.len as int
    }

    /// Whether this shard has the LED with this index.
    pub open spec fn owns(self, index: int) -> bool {
        self.start() <= index < self.start() + self.size()
    }

    /// All of a device with `len` LEDs.
    pub open spec fn all_of(len: u16) -> Shard {
        Shard { first: 0, len }
    }

    /// One core doing all of it, over a device with `len` LEDs.
    pub fn whole(len: u16) -> (s: Shard)
        ensures
            s == Shard::all_of(len),
            s.start() == 0,
            s.size() == len,
    {
        Shard { first: 0, len }
    }

    /// Shard `index` of `of`, over a device with `len` LEDs.
    ///
    /// `None` if that is not a share of anything: zero shards, or an index outside
    /// them. Checked rather than clamped: clamping would give a strip where some
    /// LEDs render twice and others never.
    pub fn new(index: u16, of: u16, len: u16) -> (r: Option<Shard>)
        ensures
            r is Some == (index < of),
            r matches Some(s) ==> s.start() == share_start(index as int, of as int, len as int)
                && s.start() + s.size() == share_start(index + 1, of as int, len as int),
    {
        if of == 0 || index >= of {
            return None;
        }
        let base: u16 = len / of;
        let extra: u16 = len % of;
        proof {
            lemma_share(index as int, of as int, len as int);
        }
        let count: u16 = if index < extra {
            base + 1
        } else {
            base
        };
        let first: u16 = index * base + if index < extra {
            index
        } else {
            extra
        };
        Some(Shard { first, len: count })
    }

    /// The first LED index this shard owns.
    pub fn first(self) -> (r: u16)
        ensures
            r == self.start(),
    {
        self.first
    }

    /// How many LEDs it owns, and so how long its output slice must be.
    pub fn len(self) -> (r: u16)
        ensures
            r == self.size(),
    {
        self.len
    }

    pub fn is_empty(self) -> (r: bool)
        ensures
            r == (self.size() == 0),
    {
        self.len == 0
    }

    /// Where LED `index` lands in this shard's output slice, if it owns it.
    fn slot(self, index: u16) -> (r: Option<usize>)
        ensures
            r is Some == self.owns(index as int),
            r matches Some(at) ==> at == index - self.start(),
    {
        if index < self.first {
            return None;
        }
        let offset: u16 = index - self.first;
        if offset < self.len {
            Some(offset as usize)
        } else {
            None
        }
    }
}

/// Shares tile a strip with no gap and no overlap: they abut, from the first LED
/// to the last, so every LED is in exactly one of them.
pub proof fn law_shards_tile_the_strip(of: int, len: int, led: int) -> (index: int)
    requires
        0 < of,
        0 <= led < len,
    ensures
        share_start(0, of, len) == 0,
        share_start(of, of, len) == len,
        0 <= index < of,
        share_start(index, of, len) <= led < share_start(index + 1, of, len),
        forall|other: int|
            0 <= other < of && #[trigger] share_start(other, of, len) <= led < share_start(
                other + 1,
                of,
                len,
            ) ==> other == index,
{
    lemma_share(0, of, len);
    let index = lemma_find_share(of, len, led, of);
    assert forall|other: int|
        0 <= other < of && #[trigger] share_start(other, of, len) <= led < share_start(
            other + 1,
            of,
            len,
        ) implies other == index by {
        if other < index {
            lemma_shares_ascend(other + 1, index, of, len);
        } else if index < other {
            lemma_shares_ascend(index + 1, other, of, len);
        }
    }
    index
}

proof fn lemma_shares_ascend(a: int, b: int, of: int, len: int)
    requires
        0 <= a <= b <= of,
        0 < of,
        0 <= len,
    ensures
        share_start(a, of, len) <= share_start(b, of, len),
    decreases b - a,
{
    if a < b {
        lemma_share(b - 1, of, len);
        lemma_shares_ascend(a, b - 1, of, len);
    }
}

proof fn lemma_find_share(of: int, len: int, led: int, upto: int) -> (index: int)
    requires
        0 < of,
        0 < upto <= of,
        0 <= led < share_start(upto, of, len),
        0 <= len,
    ensures
        0 <= index < upto,
        share_start(index, of, len) <= led < share_start(index + 1, of, len),
    decreases upto,
{
    lemma_share(upto - 1, of, len);
    if led >= share_start(upto - 1, of, len) {
        upto - 1
    } else {
        lemma_find_share(of, len, led, upto - 1)
    }
}

/// The shares of a strip differ by one LED at most, and the longer ones come
/// first.
pub proof fn law_the_remainder_goes_to_the_earliest(index: int, of: int, len: int)
    requires
        0 <= index < of,
        0 <= len,
    ensures
        share_start(index + 1, of, len) - share_start(index, of, len) == len / of + if index < len
            % of {
            1int
        } else {
            0
        },
{
    lemma_share(index, of, len);
}

/// The LED with an index: the one in that place if it has that index, or else the
/// first that has it.
pub open spec fn led_numbered(leds: Seq<Led>, index: u16) -> Option<Led> {
    if index < leds.len() && leds[index as int].index == index {
        Some(leds[index as int])
    } else {
        first_numbered(leds, index)
    }
}

/// The first LED with an index.
pub open spec fn first_numbered(leds: Seq<Led>, index: u16) -> Option<Led>
    decreases leds.len(),
{
    if leds.len() == 0 {
        None
    } else if leds[0].index == index {
        Some(leds[0])
    } else {
        first_numbered(leds.skip(1), index)
    }
}

/// The LED with this index, without walking the whole strip to find it.
///
/// A strip is mostly `0..n` in order, and the index *is* the position — so try
/// that first and fall back to the search when a device is laid out some other
/// way.
pub fn find_led(leds: &DeviceLeds, index: u16) -> (r: Option<&Led>)
    ensures
        match r {
            Some(led) => led_numbered(leds.leds@, index) == Some(*led),
            None => led_numbered(leds.leds@, index) is None,
        },
{
    let at: usize = index as usize;
    if at < leds.leds.len() && leds.leds[at].index == index {
        return Some(&leds.leds[at]);
    }
    let mut i: usize = 0;
    assert(leds.leds@.skip(0) =~= leds.leds@);
    while i < leds.leds.len()
        invariant
            i <= leds.leds@.len(),
            first_numbered(leds.leds@.skip(i as int), index) == first_numbered(leds.leds@, index),
            led_numbered(leds.leds@, index) == first_numbered(leds.leds@, index),
        decreases leds.leds@.len() - i,
    {
        assert(leds.leds@.skip(i as int).skip(1) =~= leds.leds@.skip(i + 1));
        if leds.leds[i].index == index {
            return Some(&leds.leds[i]);
        }
        i += 1;
    }
    None
}

/// Every LED that a device has is found, and what is found has the index asked
/// for.
pub proof fn law_every_led_is_found(leds: Seq<Led>, index: u16)
    ensures
        led_numbered(leds, index) matches Some(led) ==> led.index == index && leds.contains(led),
        led_numbered(leds, index) is Some <==> exists|i: int|
            0 <= i < leds.len() && (#[trigger] leds[i]).index == index,
    decreases leds.len(),
{
    lemma_first_numbered(leds, index);
    if index < leds.len() && leds[index as int].index == index {
        assert(leds.contains(leds[index as int]));
    }
}

proof fn lemma_first_numbered(leds: Seq<Led>, index: u16)
    ensures
        first_numbered(leds, index) matches Some(led) ==> led.index == index && leds.contains(led),
        first_numbered(leds, index) is Some <==> exists|i: int|
            0 <= i < leds.len() && (#[trigger] leds[i]).index == index,
    decreases leds.len(),
{
    if leds.len() > 0 && leds[0].index != index {
        let rest = leds.skip(1);
        lemma_first_numbered(rest, index);
        if first_numbered(rest, index) is Some {
            let led = first_numbered(rest, index)->0;
            let k = rest.index_of(led);
            assert(leds[k + 1] == led);
            assert(leds.contains(led));
        }
        if exists|i: int| 0 <= i < leds.len() && (#[trigger] leds[i]).index == index {
            let i = choose|i: int| 0 <= i < leds.len() && (#[trigger] leds[i]).index == index;
            assert(rest[i - 1] == leds[i]);
        }
    } else if leds.len() > 0 {
        assert(leds.contains(leds[0]));
    }
}

/// One source's trail on one LED.
#[derive(Clone, Copy, PartialEq, Eq, Debug)]
pub struct Trail {
    pub source: Uuid,
    pub led: u16,
}

impl Key for Trail {
    open spec fn place(self) -> nat {
        self.source.key() * 65_536 + self.led as nat
    }

    proof fn one_key_per_place(a: Trail, b: Trail) {
        assert(a.led == b.led && a.source.key() == b.source.key());
        lemma_key_injective(a.source, b.source);
    }

    fn comes_before(&self, other: &Trail) -> (r: bool) {
        if self.source.precedes(&other.source) {
            true
        } else if other.source.precedes(&self.source) {
            false
        } else {
            self.led < other.led
        }
    }
}

/// What rendering takes from outside: where a projection puts an LED, how colours
/// mix, and what a machine makes of a step.
#[verifier::reject_recursive_types(M)]
#[verifier::reject_recursive_types(P)]
pub ghost struct Host<M, P> {
    pub place: spec_fn(Projection, Led, Bounds, u16) -> Projected,
    pub mix: spec_fn(Rgb, Rgb, Q16) -> Rgb,
    pub run: spec_fn(Option<M>, Step<P>) -> Ran<M>,
}

/// What an arithmetic and a machine come to.
pub open spec fn hosted<
    M,
    P,
    U: Fn(Op, Q16, Q16, Q16) -> Q16,
    F: Fn(Option<M>, Step<P>) -> Ran<M>,
>(unit: &U, vm: F) -> Host<M, P> {
    Host {
        place: |projection: Projection, led: Led, bounds: Bounds, ordinal: u16|
            projection.places(unit, led, bounds, ordinal),
        mix: |under: Rgb, over: Rgb, t: Q16| mixed(unit, under, over, t),
        run: |machine: Option<M>, step: Step<P>| taken(vm, machine, step),
    }
}

/// What the machine makes of a step.
pub open spec fn ran<M, P>(host: Host<M, P>, machine: Option<M>, step: Step<P>) -> Ran<M> {
    (host.run)(machine, step)
}

/// What every pixel of a frame shares.
pub ghost struct Pass {
    pub t: Q16,
    pub dt: Q16,
    pub leds: Seq<Led>,
    pub shard: Shard,
}

impl Pass {
    /// Whether this pass writes the pixel of LED `index` into an output of this
    /// length.
    pub open spec fn reaches(self, index: u16, len: nat) -> bool {
        &&& self.shard.owns(index as int)
        &&& led_numbered(self.leds, index) is Some
        &&& index - self.shard.start() < len
    }

    /// Whether any LED of a membership is in this pass's shard.
    pub open spec fn touches(self, members: Seq<u16>) -> bool {
        exists|i: int| 0 <= i < members.len() && self.shard.owns(#[trigger] members[i] as int)
    }
}

/// A budget of nothing still allows one unit.
pub open spec fn allowance(cost: u32) -> u32 {
    if cost == 0 {
        1
    } else {
        cost
    }
}

/// The once-a-frame work of a source.
pub open spec fn frame_step<P>(pass: Pass, b: Bound<P>) -> Step<P> {
    Step {
        program: b.program,
        budget: allowance(b.frame_cost),
        work: Work::Frame { t: pass.t, dt: pass.dt },
    }
}

/// What a program left for a pixel, or nothing.
pub open spec fn trail_of(history: Map<Trail, [Q16; 3]>, source: Uuid, led: u16) -> [Q16; 3] {
    let trail = Trail { source, led };
    if history.dom().contains(trail) {
        history[trail]
    } else {
        [Q16(0), Q16(0), Q16(0)]
    }
}

/// The work of one pixel: `ordinal` is its place among the members.
pub open spec fn pixel_step<M, P>(
    host: Host<M, P>,
    pass: Pass,
    b: Bound<P>,
    history: Map<Trail, [Q16; 3]>,
    ordinal: int,
) -> Step<P> {
    let index = b.membership.leds@[ordinal];
    let led = led_numbered(pass.leds, index)->0;
    let at = (host.place)(b.projection, led, b.membership.bounds, ordinal as u16);
    Step {
        program: b.program,
        budget: allowance(b.budget),
        work: Work::Pixel(
            PixelInputs {
                x: led.world[0],
                y: led.world[1],
                z: led.world[2],
                lx: led.local[0],
                ly: led.local[1],
                lz: led.local[2],
                index: Q16(((index as i16) * 65_536) as i32),
                count: Q16(((b.membership.bounds.count as i16) * 65_536) as i32),
                u: at.u,
                uv_x: match at.uv {
                    Some((u, _)) => u,
                    None => Q16(0),
                },
                uv_y: match at.uv {
                    Some((_, v)) => v,
                    None => Q16(0),
                },
                prev: trail_of(history, b.source.id, index),
            },
        ),
    }
}

/// A colour laid over another, weighted by `alpha`.
pub open spec fn laid_over<M, P>(host: Host<M, P>, under: Rgb, over: Rgb, alpha: Q16) -> Rgb {
    if alpha.0 >= 65_536 {
        over
    } else {
        (host.mix)(under, over, alpha)
    }
}

/// One source part way through its pixels.
pub ghost struct Canvas<M> {
    pub machine: M,
    pub history: Map<Trail, [Q16; 3]>,
    pub out: Seq<Rgb>,
    pub spent: int,
    pub contributed: bool,
    /// The first fault one of its pixels met, if any did.
    pub fault: Option<Fault>,
}

/// One more pixel. A fault costs that pixel alone, which keeps what was underneath.
pub open spec fn painted_one<M, P>(
    host: Host<M, P>,
    pass: Pass,
    b: Bound<P>,
    alpha: Q16,
    c: Canvas<M>,
    ordinal: int,
) -> Canvas<M> {
    let index = b.membership.leds@[ordinal];
    if !pass.reaches(index, c.out.len()) {
        c
    } else {
        let r = ran(host, Some(c.machine), pixel_step(host, pass, b, c.history, ordinal));
        let spent = tallied(c.spent, r.spent as int);
        let at = index - pass.shard.start();
        match r.outcome {
            Err(fault) => Canvas {
                machine: r.machine,
                spent,
                fault: if c.fault is None {
                    Some(fault)
                } else {
                    c.fault
                },
                ..c
            },
            Ok(output) => Canvas {
                machine: r.machine,
                history: c.history.insert(Trail { source: b.source.id, led: index }, r.prev),
                out: match colour(output) {
                    Some(over) => c.out.update(at, laid_over(host, c.out[at], over, alpha)),
                    None => c.out,
                },
                spent,
                contributed: c.contributed || colour(output) is Some,
                fault: c.fault,
            },
        }
    }
}

/// The first `n` pixels of a source.
pub open spec fn painted<M, P>(
    host: Host<M, P>,
    pass: Pass,
    b: Bound<P>,
    alpha: Q16,
    start: Canvas<M>,
    n: nat,
) -> Canvas<M>
    decreases n,
{
    if n == 0 {
        start
    } else {
        painted_one(
            host,
            pass,
            b,
            alpha,
            painted(host, pass, b, alpha, start, (n - 1) as nat),
            n - 1,
        )
    }
}

/// A frame part way through its sources.
pub ghost struct Scene<M> {
    pub machines: Map<Uuid, M>,
    pub history: Map<Trail, [Q16; 3]>,
    pub out: Seq<Rgb>,
    pub rendered: Seq<Uuid>,
    pub faults: Seq<RenderFault>,
    pub spent: int,
}

/// The machine of a source, if it has one.
pub open spec fn machine_of<M>(machines: Map<Uuid, M>, id: Uuid) -> Option<M> {
    if machines.dom().contains(id) {
        Some(machines[id])
    } else {
        None
    }
}

/// A list of sources with one more named in it, once.
pub open spec fn named(ids: Seq<Uuid>, id: Uuid) -> Seq<Uuid> {
    if ids.contains(id) {
        ids
    } else {
        ids.push(id)
    }
}

/// The sources that some faults are of.
pub open spec fn culprits(faults: Seq<RenderFault>) -> Seq<Uuid> {
    faults.map_values(|fault: RenderFault| fault->source)
}

/// One source over a scene. A source with no LED in the shard is not even started;
/// one whose once-a-frame part faults shows nothing.
pub open spec fn sourced<M, P>(
    host: Host<M, P>,
    pass: Pass,
    b: Bound<P>,
    alpha: Q16,
    s: Scene<M>,
) -> Scene<M> {
    let id = b.source.id;
    if !pass.touches(b.membership.leds@) {
        s
    } else {
        let f = started(host, pass, b, s);
        match f.outcome {
            Err(fault) => Scene {
                machines: s.machines.insert(id, f.machine),
                faults: s.faults.push(RenderFault::Program { source: id, fault }),
                ..s
            },
            Ok(_) => {
                let c = painted(
                    host,
                    pass,
                    b,
                    alpha,
                    primed(f.machine, s),
                    b.membership.leds@.len(),
                );
                Scene {
                    machines: s.machines.insert(id, c.machine),
                    history: c.history,
                    out: c.out,
                    rendered: if c.contributed {
                        named(s.rendered, id)
                    } else {
                        s.rendered
                    },
                    faults: match c.fault {
                        Some(fault) => s.faults.push(
                            RenderFault::Program { source: id, fault },
                        ),
                        None => s.faults,
                    },
                    spent: tallied(tallied(s.spent, f.spent as int), c.spent),
                }
            },
        }
    }
}

/// The once-a-frame part of a source, over a scene.
pub open spec fn started<M, P>(host: Host<M, P>, pass: Pass, b: Bound<P>, s: Scene<M>) -> Ran<M> {
    ran(host, machine_of(s.machines, b.source.id), frame_step(pass, b))
}

/// A source about to paint its first pixel over a scene.
pub open spec fn primed<M>(machine: M, s: Scene<M>) -> Canvas<M> {
    Canvas {
        machine,
        history: s.history,
        out: s.out,
        spent: 0,
        contributed: false,
        fault: None,
    }
}

/// The admitted sources of a list, bottom first: the order of the stack, from its
/// back to its front. Each new one goes on top of every one that is not ahead of it
/// and under every one that is.
pub open spec fn bottom_up<P>(bound: Seq<Bound<P>>, admitted: Seq<Uuid>) -> Seq<Bound<P>>
    decreases bound.len(),
{
    if bound.len() == 0 {
        Seq::empty()
    } else {
        let rest = bottom_up(bound.drop_last(), admitted);
        let new = bound.last();
        if admitted.contains(new.source.id) {
            rest.filter(|b: Bound<P>| !b.source.ahead_of(new.source)).push(new) + rest.filter(
                |b: Bound<P>| b.source.ahead_of(new.source),
            )
        } else {
            rest
        }
    }
}

/// The first `n` layers over a scene. A source that is not showing yet is skipped,
/// and costs nothing.
pub open spec fn sources_laid<M, P>(
    host: Host<M, P>,
    pass: Pass,
    layers: Seq<Bound<P>>,
    now_us: u64,
    s: Scene<M>,
    n: nat,
) -> Scene<M>
    decreases n,
{
    if n == 0 {
        s
    } else {
        let before = sources_laid(host, pass, layers, now_us, s, (n - 1) as nat);
        let b = layers[n - 1];
        let alpha = b.source.fade_in(now_us);
        if alpha <= 0 {
            before
        } else {
            sourced(host, pass, b, Q16(alpha as i32), before)
        }
    }
}

/// The first of the list with an id.
pub open spec fn first_bound<P>(bound: Seq<Bound<P>>, id: Uuid) -> Option<Bound<P>>
    decreases bound.len(),
{
    if bound.len() == 0 {
        None
    } else {
        match first_bound(bound.drop_last(), id) {
            Some(b) => Some(b),
            None => if bound.last().source.id == id {
                Some(bound.last())
            } else {
                None
            },
        }
    }
}

/// The first `n` fades, laid over a scene: each weighted by what it has left. A
/// source fading out is still on top of what replaced it until the fade finishes.
pub open spec fn fades_laid<M, P>(
    host: Host<M, P>,
    pass: Pass,
    bound: Seq<Bound<P>>,
    fading: Seq<Fading>,
    now_us: u64,
    s: Scene<M>,
    n: nat,
) -> Scene<M>
    decreases n,
{
    if n == 0 {
        s
    } else {
        let before = fades_laid(host, pass, bound, fading, now_us, s, (n - 1) as nat);
        let left = 65_536 - fading[n - 1].faded(now_us);
        match first_bound(bound, fading[n - 1].source.id) {
            Some(b) if left > 0 => sourced(host, pass, b, Q16(left as i32), before),
            _ => before,
        }
    }
}

/// A renderer as plain data.
pub ghost struct RendererModel<M> {
    pub machines: Map<Uuid, M>,
    pub last_t: Option<Q16>,
    pub history: Map<Trail, [Q16; 3]>,
}

/// Seconds since the last frame: zero on the first one, and zero across a wrap of
/// the show clock.
pub open spec fn elapsed(last: Option<Q16>, t: Q16) -> Q16 {
    match last {
        Some(last) if t.0 >= last.0 && t.0 - last.0 <= i32::MAX => Q16((t.0 - last.0) as i32),
        _ => Q16(0),
    }
}

impl<M> RendererModel<M> {
    pub open spec fn fresh() -> RendererModel<M> {
        RendererModel { machines: Map::empty(), last_t: None, history: Map::empty() }
    }

    /// The renderer without anything of one source.
    pub open spec fn forgotten(self, source: Uuid) -> RendererModel<M> {
        RendererModel {
            machines: self.machines.remove(source),
            last_t: self.last_t,
            history: self.history.restrict(Set::new(|k: Trail| k.source != source)),
        }
    }

    /// What every pixel of a frame at `t` shares.
    pub open spec fn pass(self, t: Q16, leds: Seq<Led>, shard: Shard) -> Pass {
        Pass { t, dt: elapsed(self.last_t, t), leds, shard }
    }

    /// A frame that nothing was laid over yet.
    pub open spec fn blank(self, out: Seq<Rgb>) -> Scene<M> {
        Scene {
            machines: self.machines,
            history: self.history,
            out,
            rendered: Seq::empty(),
            faults: Seq::empty(),
            spent: 0,
        }
    }

    /// A whole frame: every admitted source from the bottom up, then every fade.
    pub open spec fn frame<P>(
        self,
        host: Host<M, P>,
        now_us: u64,
        t: Q16,
        leds: Seq<Led>,
        admitted: Seq<Uuid>,
        fading: Seq<Fading>,
        bound: Seq<Bound<P>>,
        out: Seq<Rgb>,
        shard: Shard,
    ) -> Scene<M> {
        let pass = self.pass(t, leds, shard);
        let start = self.blank(out);
        let layers = bottom_up(bound, admitted);
        let laid = sources_laid(host, pass, layers, now_us, start, layers.len());
        fades_laid(host, pass, bound, fading, now_us, laid, fading.len())
    }
}

/// Renders one device's LEDs.
///
/// Holds a machine per source, because what a program works out once a frame
/// survives into every pixel of that frame, and sharing one machine between two
/// sources would destroy it.
pub struct Renderer<M> {
    machines: Table<Uuid, M>,
    /// `t` at the previous frame, so that `dt` is derived here: a caller that had
    /// to supply it could supply zero, and zero makes every trail permanent.
    last_t: Option<Q16>,
    /// Per-LED history, fed back as `prev` next frame.
    ///
    /// Keyed by source as well as LED: sharing one buffer would make an alert
    /// erase a show's history for as long as it was up.
    history: Table<Trail, [Q16; 3]>,
}

impl<M> View for Renderer<M> {
    type V = RendererModel<M>;

    closed spec fn view(&self) -> RendererModel<M> {
        RendererModel {
            machines: self.machines@,
            last_t: self.last_t,
            history: self.history@,
        }
    }
}

/// Whether each of a list is another source.
pub open spec fn apart<P>(bound: Seq<Bound<P>>) -> bool {
    forall|i: int, j: int|
        0 <= i < j < bound.len() ==> (#[trigger] bound[i]).source.id != (
        #[trigger] bound[j]).source.id
}

/// The order goes up: nothing in it is ahead of anything later, it holds exactly
/// the admitted sources of the list, and each once where the list has it once.
pub proof fn law_the_order_goes_up<P>(bound: Seq<Bound<P>>, admitted: Seq<Uuid>)
    ensures
        ({
            let layers = bottom_up(bound, admitted);
            &&& forall|i: int, j: int|
                0 <= i < j < layers.len() ==> !(#[trigger] layers[i]).source.ahead_of(
                    (#[trigger] layers[j]).source,
                )
            &&& forall|b: Bound<P>| #[trigger]
                layers.contains(b) <==> bound.contains(b) && admitted.contains(b.source.id)
            &&& apart(bound) ==> apart(layers)
        }),
    decreases bound.len(),
{
    if bound.len() > 0 {
        let below = bound.drop_last();
        let rest = bottom_up(below, admitted);
        let new = bound.last();
        law_the_order_goes_up(below, admitted);
        let layers = bottom_up(bound, admitted);
        assert forall|b: Bound<P>| #[trigger] bound.contains(b) <==> below.contains(b) || b
            == new by {
            if bound.contains(b) {
                let i = bound.index_of(b);
                if i < below.len() {
                    assert(below[i] == b);
                }
            }
            if below.contains(b) {
                assert(bound[below.index_of(b)] == b);
            }
            assert(bound[bound.len() - 1] == new);
        }
        if apart(bound) {
            assert forall|i: int, j: int| 0 <= i < j < below.len() implies (
            #[trigger] below[i]).source.id != (#[trigger] below[j]).source.id by {
                assert(bound[i].source.id != bound[j].source.id);
            }
            assert forall|b: Bound<P>| #[trigger] below.contains(b) implies b.source.id
                != new.source.id by {
                let i = below.index_of(b);
                assert(bound[i].source.id != bound[bound.len() - 1].source.id);
            }
        }
        if admitted.contains(new.source.id) {
            let p = |b: Bound<P>| !b.source.ahead_of(new.source);
            let q = |b: Bound<P>| b.source.ahead_of(new.source);
            let r = |a: Bound<P>, b: Bound<P>|
                !a.source.ahead_of(b.source) && (apart(rest) ==> a.source.id != b.source.id);
            lemma_filter_pairs(rest, p, r);
            lemma_filter_pairs(rest, q, r);
            let (low, high) = (rest.filter(p), rest.filter(q));
            let w = low.len() as int;
            assert(layers[w] == new);
            assert forall|i: int| 0 <= i < low.len() implies rest.contains(
                #[trigger] low[i],
            ) && p(low[i]) by {
                rest.lemma_filter_contains_rev(p, low[i]);
            }
            assert forall|i: int| 0 <= i < high.len() implies rest.contains(
                #[trigger] high[i],
            ) && q(high[i]) by {
                rest.lemma_filter_contains_rev(q, high[i]);
            }
            assert forall|i: int, j: int| 0 <= i < j < layers.len() implies !(
            #[trigger] layers[i]).source.ahead_of((#[trigger] layers[j]).source) && (apart(bound)
                ==> layers[i].source.id != layers[j].source.id) by {
                if j < w {
                    assert(layers[i] == low[i] && layers[j] == low[j]);
                    assert(r(low[i], low[j]));
                } else if i > w {
                    assert(layers[i] == high[i - w - 1] && layers[j] == high[j - w - 1]);
                    assert(r(high[i - w - 1], high[j - w - 1]));
                } else {
                    if i < w {
                        assert(layers[i] == low[i]);
                        assert(below.contains(low[i]));
                    }
                    if j > w {
                        assert(layers[j] == high[j - w - 1]);
                        assert(below.contains(high[j - w - 1]));
                    }
                    if i < w < j {
                        let (a, b) = (low[i], high[j - w - 1]);
                        assert(rest.contains(a) && rest.contains(b));
                        if apart(bound) && a.source.id == b.source.id {
                            let (x, y) = (rest.index_of(a), rest.index_of(b));
                            assert(x == y);
                        }
                    }
                }
            }
            assert forall|b: Bound<P>| #[trigger] layers.contains(b) <==> bound.contains(b)
                && admitted.contains(b.source.id) by {
                if layers.contains(b) {
                    let i = layers.index_of(b);
                    if i < w {
                        assert(b == low[i]);
                    } else if i > w {
                        assert(b == high[i - w - 1]);
                    }
                }
                if rest.contains(b) {
                    let i = rest.index_of(b);
                    if p(b) {
                        rest.lemma_filter_contains(p, i);
                        assert(layers[low.index_of(b)] == b);
                    } else {
                        rest.lemma_filter_contains(q, i);
                        assert(layers[w + 1 + high.index_of(b)] == b);
                    }
                }
            }
        }
    } else {
        assert(bottom_up(bound, admitted) =~= bound);
    }
}

/// The places of the admitted sources in the list, bottom first.
fn order_of<P>(bound: &[Bound<P>], stack: &SourceStack) -> (order: Vec<usize>)
    requires
        stack.wf(),
    ensures
        forall|i: int| 0 <= i < order@.len() ==> #[trigger] order@[i] < bound@.len(),
        order@.map_values(|i: usize| bound@[i as int]) == bottom_up(
            bound@,
            stack@.admission().admitted,
        ),
{
    let ghost admitted = stack@.admission().admitted;
    let ghost at_place = |i: usize| bound@[i as int];
    let mut order: Vec<usize> = Vec::new();
    let mut k: usize = 0;
    assert(order@.map_values(at_place) =~= bottom_up(bound@.take(0), admitted));
    while k < bound.len()
        invariant
            stack.wf(),
            admitted == stack@.admission().admitted,
            at_place == (|i: usize| bound@[i as int]),
            k <= bound@.len(),
            forall|i: int| 0 <= i < order@.len() ==> #[trigger] order@[i] < k,
            order@.map_values(at_place) == bottom_up(bound@.take(k as int), admitted),
        decreases bound@.len() - k,
    {
        let ghost rest = bottom_up(bound@.take(k as int), admitted);
        assert(bound@.take(k + 1).drop_last() =~= bound@.take(k as int));
        if stack.is_admitted(bound[k].source.id) {
            let ghost before = order@;
            let ghost new = bound@[k as int];
            let mut at: usize = 0;
            while at < order.len() && !bound[order[at]].source.is_ahead_of(&bound[k].source)
                invariant
                    order@ == before,
                    k < bound@.len(),
                    new == bound@[k as int],
                    forall|i: int| 0 <= i < order@.len() ==> #[trigger] order@[i] < k,
                    at <= order@.len(),
                    forall|i: int|
                        0 <= i < at ==> !bound@[#[trigger] order@[i] as int].source.ahead_of(
                            new.source,
                        ),
                decreases order@.len() - at,
            {
                at += 1;
            }
            proof {
                law_the_order_goes_up(bound@.take(k as int), admitted);
                let p = |b: Bound<P>| !b.source.ahead_of(new.source);
                let q = |b: Bound<P>| b.source.ahead_of(new.source);
                assert forall|i: int| 0 <= i < at implies p(#[trigger] rest[i]) && !q(rest[i]) by {
                    assert(rest[i] == at_place(before[i]));
                }
                assert forall|i: int| at <= i < rest.len() implies !p(#[trigger] rest[i]) && q(
                    rest[i],
                ) by {
                    assert(rest[at as int] == at_place(before[at as int]));
                    if i > at {
                        assert(!rest[at as int].source.ahead_of(rest[i].source));
                    }
                }
                lemma_filter_split(rest, at as int, p, q);
            }
            order.insert(at, k);
            proof {
                assert(bound@.take(k + 1).last() == new);
                assert(order@.map_values(at_place) =~= rest.take(at as int).push(new)
                    + rest.skip(at as int));
            }
        }
        k += 1;
    }
    assert(bound@.take(k as int) =~= bound@);
    order
}

/// The place of the first of the list with an id.
fn find_bound<P>(bound: &[Bound<P>], id: Uuid) -> (r: Option<usize>)
    ensures
        match r {
            Some(i) => i < bound@.len() && first_bound(bound@, id) == Some(bound@[i as int]),
            None => first_bound(bound@, id) is None,
        },
{
    let mut i: usize = 0;
    assert(bound@.take(0).len() == 0);
    while i < bound.len()
        invariant
            i <= bound@.len(),
            first_bound(bound@.take(i as int), id) is None,
        decreases bound@.len() - i,
    {
        assert(bound@.take(i + 1).drop_last() =~= bound@.take(i as int));
        if bound[i].source.id == id {
            proof {
                lemma_first_bound(bound@, id, i + 1);
            }
            return Some(i);
        }
        i += 1;
    }
    assert(bound@.take(i as int) =~= bound@);
    None
}

proof fn lemma_first_bound<P>(bound: Seq<Bound<P>>, id: Uuid, n: int)
    requires
        0 <= n <= bound.len(),
        first_bound(bound.take(n), id) is Some,
    ensures
        first_bound(bound, id) == first_bound(bound.take(n), id),
    decreases bound.len(),
{
    if n < bound.len() {
        assert(bound.drop_last().take(n) =~= bound.take(n));
        lemma_first_bound(bound.drop_last(), id, n);
    } else {
        assert(bound.take(n) =~= bound);
    }
}

impl<M> Renderer<M> {
    pub closed spec fn wf(&self) -> bool {
        self.machines.wf() && self.history.wf()
    }

    pub fn new() -> (r: Renderer<M>)
        ensures
            r.wf(),
            r@ == RendererModel::<M>::fresh(),
    {
        Renderer { machines: Table::new(), last_t: None, history: Table::new() }
    }

    /// Forget a source's state.
    ///
    /// Called when a source leaves the stack, or its history grows without bound
    /// on a device that has been running for a month.
    pub fn forget(&mut self, source: Uuid)
        requires
            old(self).wf(),
        ensures
            final(self).wf(),
            final(self)@ == old(self)@.forgotten(source),
    {
        let ghost was = self@;
        let _machine = self.machines.remove(source);
        let trails = self.history.key_list();
        proof {
            self.history.keys_list_the_domain();
        }
        let mut i: usize = 0;
        while i < trails.len()
            invariant
                self.history.wf(),
                self.machines.wf(),
                self.machines@ == was.machines.remove(source),
                self.last_t == was.last_t,
                i <= trails@.len(),
                forall|k: Trail|
                    #![trigger self.history@.dom().contains(k)]
                    #![trigger was.history.dom().contains(k)]
                    self.history@.dom().contains(k) <==> was.history.dom().contains(k) && !(k.source
                        == source && trails@.take(i as int).contains(k)),
                forall|k: Trail| #[trigger]
                    self.history@.dom().contains(k) ==> self.history@[k] == was.history[k],
            decreases trails@.len() - i,
        {
            let trail = trails[i];
            proof {
                assert forall|k: Trail| #[trigger]
                    trails@.take(i + 1).contains(k) <==> trails@.take(i as int).contains(k) || k
                        == trail by {
                    if trails@.take(i + 1).contains(k) {
                        let j = trails@.take(i + 1).index_of(k);
                        if j < i {
                            assert(trails@.take(i as int)[j] == k);
                        }
                    }
                    if trails@.take(i as int).contains(k) {
                        let j = trails@.take(i as int).index_of(k);
                        assert(trails@.take(i + 1)[j] == k);
                    }
                    assert(trails@.take(i + 1)[i as int] == trail);
                }
            }
            if trail.source == source {
                let _prev = self.history.remove(trail);
            }
            i += 1;
        }
        assert(trails@.take(i as int) =~= trails@);
        assert(self.history@ =~= was.forgotten(source).history);
    }

    /// How many sources have live state.
    pub fn tracked_sources(&self) -> (n: usize)
        requires
            self.wf(),
        ensures
            n == self@.machines.dom().len(),
            self@.machines.dom().finite(),
    {
        proof {
            self.machines.keys_list_the_domain();
            crate::table::lemma_listing_counts(self.machines.keys(), self.machines@.dom());
        }
        self.machines.len()
    }

    /// Render one frame into `out`.
    ///
    /// `out` is as long as the device has LEDs. Anything no source covers keeps
    /// the value already there, which is what makes an ambient floor an ambient
    /// floor rather than a special case.
    pub fn render<
        'a,
        P: Copy,
        U: Fn(Op, Q16, Q16, Q16) -> Q16,
        F: Fn(Option<M>, Step<P>) -> Ran<M>,
    >(
        &mut self,
        unit: &U,
        vm: &F,
        now_us: u64,
        t: Q16,
        leds: &DeviceLeds,
        stack: &SourceStack,
        bound: &[Bound<'a, P>],
        out: &mut [Rgb],
    ) -> (report: FrameReport)
        requires
            old(self).wf(),
            stack.wf(),
            is_arithmetic(*unit),
            is_machine(*vm),
        ensures
            final(self).wf(),
            is_frame(
                old(self)@,
                final(self)@,
                report,
                final(out)@,
                old(self)@.frame(
                    hosted(unit, *vm),
                    now_us,
                    t,
                    leds.leds@,
                    stack@.admission().admitted,
                    stack@.fading,
                    bound@,
                    old(out)@,
                    Shard::all_of(
                        if old(out)@.len() < u16::MAX {
                            old(out)@.len() as u16
                        } else {
                            u16::MAX
                        },
                    ),
                ),
                t,
            ),
    {
        let len: u16 = if out.len() < u16::MAX as usize {
            out.len() as u16
        } else {
            u16::MAX
        };
        let shard = Shard::whole(len);
        self.render_shard(unit, vm, now_us, t, leds, stack, bound, out, shard)
    }

    /// Render this core's run of LEDs into `out`.
    ///
    /// For a device rendering on more than one core. `out` is this shard's own
    /// slice, so two cores hold the two halves of one buffer and neither can
    /// reach the other's pixels.
    ///
    /// A slice shorter than the shard renders what fits: a mis-sized buffer should
    /// cost some pixels, not the device.
    pub fn render_shard<
        'a,
        P: Copy,
        U: Fn(Op, Q16, Q16, Q16) -> Q16,
        F: Fn(Option<M>, Step<P>) -> Ran<M>,
    >(
        &mut self,
        unit: &U,
        vm: &F,
        now_us: u64,
        t: Q16,
        leds: &DeviceLeds,
        stack: &SourceStack,
        bound: &[Bound<'a, P>],
        out: &mut [Rgb],
        shard: Shard,
    ) -> (report: FrameReport)
        requires
            old(self).wf(),
            stack.wf(),
            is_arithmetic(*unit),
            is_machine(*vm),
        ensures
            final(self).wf(),
            is_frame(
                old(self)@,
                final(self)@,
                report,
                final(out)@,
                old(self)@.frame(
                    hosted(unit, *vm),
                    now_us,
                    t,
                    leds.leds@,
                    stack@.admission().admitted,
                    stack@.fading,
                    bound@,
                    old(out)@,
                    shard,
                ),
                t,
            ),
    {
        let mut report = FrameReport { rendered: Vec::new(), faults: Vec::new(), spent: 0 };
        let dt = match self.last_t {
            Some(last) => if t.0 >= last.0 {
                match t.0.checked_sub(last.0) {
                    Some(gap) => Q16(gap),
                    None => Q16(0),
                }
            } else {
                Q16(0)
            },
            None => Q16(0),
        };
        let ghost pass = Pass { t, dt: elapsed(self@.last_t, t), leds: leds.leds@, shard };
        let ghost start = Scene {
            machines: self@.machines,
            history: self@.history,
            out: out@,
            rendered: Seq::empty(),
            faults: Seq::empty(),
            spent: 0,
        };
        self.last_t = Some(t);

        // Bottom to top, so a higher-priority source overwrites a lower one.
        let order = order_of(bound, stack);
        let ghost layers = bottom_up(bound@, stack@.admission().admitted);
        let mut i: usize = 0;
        while i < order.len()
            invariant
                self.wf(),
                is_arithmetic(*unit),
                is_machine(*vm),
                self@.last_t == Some(t),
                pass == (Pass { t, dt, leds: leds.leds@, shard }),
                forall|k: int| 0 <= k < order@.len() ==> #[trigger] order@[k] < bound@.len(),
                order@.map_values(|k: usize| bound@[k as int]) == layers,
                i <= order@.len(),
                is_scene(
                    self@,
                    report,
                    out@,
                    sources_laid(hosted(unit, *vm), pass, layers, now_us, start, i as nat),
                ),
            decreases order@.len() - i,
        {
            let b = &bound[order[i]];
            assert(layers[i as int] == *b);
            let alpha = b.source.fade_in_alpha(now_us);
            if alpha.0 > 0 {
                // Skipping a source of which nothing shows yet is not only
                // cheaper: rendering it would charge its budget for a contribution
                // nobody can see.
                let ghost before = sources_laid(
                    hosted(unit, *vm),
                    pass,
                    layers,
                    now_us,
                    start,
                    i as nat,
                );
                self.render_source(
                    unit,
                    vm,
                    t,
                    dt,
                    leds,
                    b,
                    out,
                    &mut report,
                    alpha,
                    shard,
                    Ghost(before),
                );
            }
            i += 1;
        }

        // Then anything still fading, blended over the result by how far it has
        // left to go.
        let ghost laid = sources_laid(
            hosted(unit, *vm),
            pass,
            layers,
            now_us,
            start,
            layers.len(),
        );
        let fading = stack.fading();
        let mut j: usize = 0;
        while j < fading.len()
            invariant
                self.wf(),
                is_arithmetic(*unit),
                is_machine(*vm),
                self@.last_t == Some(t),
                pass == (Pass { t, dt, leds: leds.leds@, shard }),
                fading@ == stack@.fading,
                j <= fading@.len(),
                is_scene(
                    self@,
                    report,
                    out@,
                    fades_laid(hosted(unit, *vm), pass, bound@, fading@, now_us, laid, j as nat),
                ),
            decreases fading@.len() - j,
        {
            let fade = fading[j];
            let progress: u32 = fade.progress(now_us);
            let left = Q16(65_536 - progress as i32);
            match find_bound(bound, fade.source.id) {
                Some(at) => {
                    if left.0 > 0 {
                        let ghost before = fades_laid(
                            hosted(unit, *vm),
                            pass,
                            bound@,
                            fading@,
                            now_us,
                            laid,
                            j as nat,
                        );
                        self.render_source(
                            unit,
                            vm,
                            t,
                            dt,
                            leds,
                            &bound[at],
                            out,
                            &mut report,
                            left,
                            shard,
                            Ghost(before),
                        );
                    }
                },
                None => {},
            }
            j += 1;
        }
        report
    }

    /// Render one source over `out`, weighted by `alpha`.
    fn render_source<
        'a,
        P: Copy,
        U: Fn(Op, Q16, Q16, Q16) -> Q16,
        F: Fn(Option<M>, Step<P>) -> Ran<M>,
    >(
        &mut self,
        unit: &U,
        vm: &F,
        t: Q16,
        dt: Q16,
        leds: &DeviceLeds,
        b: &Bound<'a, P>,
        out: &mut [Rgb],
        report: &mut FrameReport,
        alpha: Q16,
        shard: Shard,
        Ghost(scene): Ghost<Scene<M>>,
    )
        requires
            old(self).wf(),
            is_arithmetic(*unit),
            is_machine(*vm),
            is_scene(old(self)@, *old(report), old(out)@, scene),
        ensures
            final(self).wf(),
            final(self)@.last_t == old(self)@.last_t,
            ({
                let pass = Pass { t, dt, leds: leds.leds@, shard };
                let after = sourced(hosted(unit, *vm), pass, *b, alpha, scene);
                is_scene(final(self)@, *final(report), final(out)@, after)
            }),
    {
        let ghost pass = Pass { t, dt, leds: leds.leds@, shard };
        // Nothing of this source falls in this shard's run, so not even the
        // once-a-frame part is worth running.
        if !touches(b.membership, shard, Ghost(pass)) {
            return;
        }
        let id = b.source.id;
        let machine: Option<M> = self.machines.remove(id);
        assert(machine == machine_of(scene.machines, id));

        // The once-a-frame part gets its own allowance, not the per-pixel one:
        // spending the one on the other would fault exactly the effects that
        // hoist most, which is to say the well-written ones.
        let frame = run(
            vm,
            machine,
            Step {
                program: b.program,
                budget: if b.frame_cost == 0 {
                    1
                } else {
                    b.frame_cost
                },
                work: Work::Frame { t, dt },
            },
        );
        let frame_spent: u32 = frame.spent;
        match frame.outcome {
            Err(fault) => {
                // Every pixel would fail the same way. Bailing here keeps one bug
                // from producing three hundred identical reports.
                self.machines.insert(id, frame.machine);
                report.faults.push(RenderFault::Program { source: id, fault });
                assert(self@.machines =~= scene.machines.insert(id, frame.machine));
                return;
            },
            Ok(_) => {},
        }
        let mut machine = frame.machine;
        let mut contributed: bool = false;
        // What each pixel spent, summed: a step reports its own cost only.
        let mut pixel_spent: u32 = 0;
        let mut first_fault: Option<Fault> = None;
        let mut i: usize = 0;
        let ghost start = primed(machine, scene);
        let ghost (untouched, last) = (self.machines@, self.last_t);
        while i < b.membership.leds.len()
            invariant
                self.wf(),
                is_arithmetic(*unit),
                is_machine(*vm),
                self.machines@ == untouched,
                self.last_t == last,
                pass == (Pass { t, dt, leds: leds.leds@, shard }),
                i <= b.membership.leds@.len(),
                ({
                    let c = painted(hosted(unit, *vm), pass, *b, alpha, start, i as nat);
                    &&& c.machine == machine
                    &&& c.history == self.history@
                    &&& c.out == out@
                    &&& c.spent == pixel_spent
                    &&& c.contributed == contributed
                    &&& c.fault == first_fault
                }),
                id == b.source.id,
            decreases b.membership.leds@.len() - i,
        {
            let index: u16 = b.membership.leds[i];
            // `i` still counts every LED of the membership, shard or no shard: it
            // is what the projection maps along, so skipping one must not renumber
            // the rest.
            let offset: usize = match shard.slot(index) {
                Some(offset) => offset,
                None => {
                    i += 1;
                    continue ;
                },
            };
            let led = match find_led(leds, index) {
                Some(led) => led,
                None => {
                    i += 1;
                    continue ;
                },
            };
            if offset >= out.len() {
                i += 1;
                continue ;
            }
            let at = b.projection.project(
                unit,
                led,
                &b.membership.bounds,
                #[verifier::truncate]
                (i as u16),
            );
            let trail = Trail { source: id, led: index };
            let prev: [Q16; 3] = match self.history.get(trail) {
                Some(prev) => *prev,
                None => [Q16(0), Q16(0), Q16(0)],
            };
            let (uv_x, uv_y) = match at.uv {
                Some((u, v)) => (u, v),
                None => (Q16(0), Q16(0)),
            };
            let inputs = PixelInputs {
                x: led.world[0],
                y: led.world[1],
                z: led.world[2],
                lx: led.local[0],
                ly: led.local[1],
                lz: led.local[2],
                index: Q16::from_int(
                    #[verifier::truncate]
                    (index as i16),
                ),
                count: Q16::from_int(
                    #[verifier::truncate]
                    (b.membership.bounds.count as i16),
                ),
                u: at.u,
                uv_x,
                uv_y,
                prev,
            };
            let ghost before = painted(hosted(unit, *vm), pass, *b, alpha, start, i as nat);
            let step = Step {
                program: b.program,
                budget: if b.budget == 0 {
                    1
                } else {
                    b.budget
                },
                work: Work::Pixel(inputs),
            };
            assert(step == pixel_step(hosted(unit, *vm), pass, *b, before.history, i as int));
            let result = run(vm, Some(machine), step);
            machine = result.machine;
            // Charged whether it succeeded or faulted: a pixel that ran out of
            // budget spent the budget it ran out of.
            pixel_spent = pixel_spent.saturating_add(result.spent);
            match result.outcome {
                Ok(output) => {
                    self.history.insert(trail, result.prev);
                    if let Some(colour) = Rgb::from_output(output) {
                        let under = out[offset];
                        out[offset] =
                        if alpha.0 >= 65_536 {
                            colour
                        } else {
                            under.mix(unit, colour, alpha)
                        };
                        contributed = true;
                    }
                },
                Err(fault) => {
                    // The pixel keeps what was underneath. Black would be a
                    // decision nobody made. The rest of the source goes on: a
                    // pixel answers for itself alone, or two cores would show
                    // something else than one.
                    if first_fault.is_none() {
                        first_fault = Some(fault);
                    }
                },
            }
            i += 1;
        }
        if let Some(fault) = first_fault {
            report.faults.push(RenderFault::Program { source: id, fault });
        }
        if contributed {
            report.name(id);
        }
        self.machines.insert(id, machine);
        assert(self@.machines =~= scene.machines.insert(id, machine));
        report.spent = report.spent.saturating_add(frame_spent).saturating_add(pixel_spent);
    }
}

/// Whether any LED of a membership is in a shard.
fn touches(membership: &Membership, shard: Shard, Ghost(pass): Ghost<Pass>) -> (r: bool)
    requires
        pass.shard == shard,
    ensures
        r == pass.touches(membership.leds@),
{
    let mut i: usize = 0;
    while i < membership.leds.len()
        invariant
            pass.shard == shard,
            i <= membership.leds@.len(),
            forall|k: int| 0 <= k < i ==> !shard.owns(#[trigger] membership.leds@[k] as int),
        decreases membership.leds@.len() - i,
    {
        if shard.slot(membership.leds[i]).is_some() {
            assert(shard.owns(membership.leds@[i as int] as int));
            return true;
        }
        i += 1;
    }
    false
}

/// Whether what a renderer holds part way through a frame is this scene.
pub open spec fn is_scene<M>(
    renderer: RendererModel<M>,
    report: FrameReport,
    out: Seq<Rgb>,
    scene: Scene<M>,
) -> bool {
    &&& renderer.machines == scene.machines
    &&& renderer.history == scene.history
    &&& out == scene.out
    &&& report.rendered@ == scene.rendered
    &&& report.faults@ == scene.faults
    &&& report.spent == scene.spent
}

/// Whether a frame came to this scene.
pub open spec fn is_frame<M>(
    before: RendererModel<M>,
    after: RendererModel<M>,
    report: FrameReport,
    out: Seq<Rgb>,
    scene: Scene<M>,
    t: Q16,
) -> bool {
    after.last_t == Some(t) && is_scene(after, report, out, scene)
}

/// Whether what a machine carries from its once-a-frame part into the pixels is
/// `kept`: that part makes it out of its own step and nothing older, and pixels
/// read it and leave it as it is.
pub open spec fn hoists<M, P, R>(host: Host<M, P>, kept: spec_fn(M) -> R) -> bool {
    &&& forall|a: Option<M>, b: Option<M>, step: Step<P>|
        step.work is Frame ==> (#[trigger] ran(host, a, step)).outcome == (#[trigger] ran(
            host,
            b,
            step,
        )).outcome && kept(ran(host, a, step).machine) == kept(ran(host, b, step).machine)
    &&& forall|a: M, b: M, step: Step<P>|
        step.work is Pixel && kept(a) == kept(b) ==> {
            &&& (#[trigger] ran(host, Some(a), step)).outcome == (#[trigger] ran(
                host,
                Some(b),
                step,
            )).outcome
            &&& ran(host, Some(a), step).prev == ran(host, Some(b), step).prev
        }
    &&& forall|a: M, step: Step<P>|
        step.work is Pixel ==> kept((#[trigger] ran(host, Some(a), step)).machine) == kept(a)
}

/// Whether two histories say the same of every LED of a shard.
pub open spec fn agrees(
    a: Map<Trail, [Q16; 3]>,
    b: Map<Trail, [Q16; 3]>,
    shard: Shard,
) -> bool {
    forall|source: Uuid, led: u16|
        shard.owns(led as int) ==> #[trigger] trail_of(a, source, led) == trail_of(b, source, led)
}

/// The part of an output that a shard writes.
pub open spec fn part_of(out: Seq<Rgb>, shard: Shard) -> Seq<Rgb> {
    out.subrange(shard.start(), shard.start() + shard.size())
}

/// Whether a shard is part of a strip that another covers whole.
pub open spec fn within(shard: Shard, all: Shard, len: nat) -> bool {
    &&& all.start() == 0
    &&& all.size() == len
    &&& 0 <= shard.start()
    &&& 0 <= shard.size()
    &&& shard.start() + shard.size() <= len
}

proof fn lemma_painted_len<M, P>(
    host: Host<M, P>,
    pass: Pass,
    b: Bound<P>,
    alpha: Q16,
    start: Canvas<M>,
    n: nat,
)
    ensures
        painted(host, pass, b, alpha, start, n).out.len() == start.out.len(),
    decreases n,
{
    if n > 0 {
        lemma_painted_len(host, pass, b, alpha, start, (n - 1) as nat);
    }
}

/// Painting a source whole and painting a part of it agree on the part.
proof fn lemma_part_painted<M, P, R>(
    host: Host<M, P>,
    kept: spec_fn(M) -> R,
    whole: Pass,
    part: Pass,
    b: Bound<P>,
    alpha: Q16,
    w0: Canvas<M>,
    s0: Canvas<M>,
    n: nat,
)
    requires
        hoists(host, kept),
        within(part.shard, whole.shard, w0.out.len()),
        part == (Pass { shard: part.shard, ..whole }),
        n <= b.membership.leds@.len(),
        kept(w0.machine) == kept(s0.machine),
        agrees(w0.history, s0.history, part.shard),
        s0.out == part_of(w0.out, part.shard),
    ensures
        ({
            let w = painted(host, whole, b, alpha, w0, n);
            let s = painted(host, part, b, alpha, s0, n);
            &&& kept(w.machine) == kept(s.machine)
            &&& agrees(w.history, s.history, part.shard)
            &&& s.out == part_of(w.out, part.shard)
        }),
    decreases n,
{
    if n > 0 {
        let m = (n - 1) as nat;
        let (w, s) = (
            painted(host, whole, b, alpha, w0, m),
            painted(host, part, b, alpha, s0, m),
        );
        let (w1, s1) = (
            painted(host, whole, b, alpha, w0, n),
            painted(host, part, b, alpha, s0, n),
        );
        lemma_part_painted(host, kept, whole, part, b, alpha, w0, s0, m);
        lemma_painted_len(host, whole, b, alpha, w0, m);
        lemma_painted_len(host, part, b, alpha, s0, m);
        let index = b.membership.leds@[n - 1];
        let trail = Trail { source: b.source.id, led: index };
        if whole.reaches(index, w.out.len()) {
            let step = pixel_step(host, whole, b, w.history, n - 1);
            let r = ran(host, Some(w.machine), step);
            if part.shard.owns(index as int) {
                assert(part.reaches(index, s.out.len()));
                assert(trail_of(w.history, b.source.id, index) == trail_of(
                    s.history,
                    b.source.id,
                    index,
                ));
                assert(pixel_step(host, part, b, s.history, n - 1) == step);
                let q = ran(host, Some(s.machine), step);
                assert(r.outcome == q.outcome && r.prev == q.prev);
                assert(kept(r.machine) == kept(w.machine));
                assert(kept(q.machine) == kept(s.machine));
                let at = index - part.shard.start();
                assert(s.out[at] == w.out[index as int]);
                assert(s1.out =~= part_of(w1.out, part.shard));
            } else {
                assert(kept(r.machine) == kept(w.machine));
                assert(s1 == s);
                assert(part_of(w1.out, part.shard) =~= part_of(w.out, part.shard));
            }
            assert forall|source: Uuid, led: u16| part.shard.owns(led as int) implies
                #[trigger] trail_of(w1.history, source, led) == trail_of(
                s1.history,
                source,
                led,
            ) by {
                assert(trail_of(w.history, source, led) == trail_of(s.history, source, led));
                if (Trail { source, led }) == trail {
                    assert(led == index);
                }
            }
        } else {
            assert(!part.reaches(index, s.out.len()));
        }
    }
}

/// A shard with none of a source's LEDs is not painted by it.
proof fn lemma_untouched_painted<M, P>(
    host: Host<M, P>,
    pass: Pass,
    b: Bound<P>,
    alpha: Q16,
    start: Canvas<M>,
    n: nat,
)
    requires
        !pass.touches(b.membership.leds@),
        n <= b.membership.leds@.len(),
    ensures
        painted(host, pass, b, alpha, start, n) == start,
    decreases n,
{
    if n > 0 {
        lemma_untouched_painted(host, pass, b, alpha, start, (n - 1) as nat);
        assert(!pass.shard.owns(b.membership.leds@[n - 1] as int));
    }
}

/// One source over a whole scene and over a part of it agree on the part.
proof fn lemma_part_sourced<M, P, R>(
    host: Host<M, P>,
    kept: spec_fn(M) -> R,
    whole: Pass,
    part: Pass,
    b: Bound<P>,
    alpha: Q16,
    w: Scene<M>,
    s: Scene<M>,
)
    requires
        hoists(host, kept),
        within(part.shard, whole.shard, w.out.len()),
        part == (Pass { shard: part.shard, ..whole }),
        agrees(w.history, s.history, part.shard),
        s.out == part_of(w.out, part.shard),
    ensures
        ({
            let w1 = sourced(host, whole, b, alpha, w);
            let s1 = sourced(host, part, b, alpha, s);
            &&& agrees(w1.history, s1.history, part.shard)
            &&& s1.out == part_of(w1.out, part.shard)
            &&& w1.out.len() == w.out.len()
        }),
{
    let members = b.membership.leds@;
    let n = members.len();
    let step = frame_step(whole, b);
    assert(frame_step(part, b) == step);
    let f = ran(host, machine_of(w.machines, b.source.id), step);
    let g = ran(host, machine_of(s.machines, b.source.id), step);
    assert(f.outcome == g.outcome && kept(f.machine) == kept(g.machine));
    if part.touches(members) {
        let i = choose|i: int|
            0 <= i < members.len() && part.shard.owns(#[trigger] members[i] as int);
        assert(whole.shard.owns(members[i] as int));
    }
    let w0 = primed(f.machine, w);
    lemma_painted_len(host, whole, b, alpha, w0, n);
    if whole.touches(members) && f.outcome is Ok {
        if part.touches(members) {
            lemma_part_painted(host, kept, whole, part, b, alpha, w0, primed(g.machine, s), n);
        } else {
            let s0 = primed(f.machine, s);
            lemma_part_painted(host, kept, whole, part, b, alpha, w0, s0, n);
            lemma_untouched_painted(host, part, b, alpha, s0, n);
        }
    }
}

proof fn lemma_part_sources_laid<M, P, R>(
    host: Host<M, P>,
    kept: spec_fn(M) -> R,
    whole: Pass,
    part: Pass,
    layers: Seq<Bound<P>>,
    now_us: u64,
    w0: Scene<M>,
    s0: Scene<M>,
    n: nat,
)
    requires
        hoists(host, kept),
        within(part.shard, whole.shard, w0.out.len()),
        part == (Pass { shard: part.shard, ..whole }),
        agrees(w0.history, s0.history, part.shard),
        s0.out == part_of(w0.out, part.shard),
    ensures
        ({
            let w = sources_laid(host, whole, layers, now_us, w0, n);
            let s = sources_laid(host, part, layers, now_us, s0, n);
            &&& agrees(w.history, s.history, part.shard)
            &&& s.out == part_of(w.out, part.shard)
            &&& w.out.len() == w0.out.len()
        }),
    decreases n,
{
    if n > 0 {
        let m = (n - 1) as nat;
        let b = layers[n - 1];
        lemma_part_sources_laid(host, kept, whole, part, layers, now_us, w0, s0, m);
        if b.source.fade_in(now_us) > 0 {
            lemma_part_sourced(
                host,
                kept,
                whole,
                part,
                b,
                Q16(b.source.fade_in(now_us) as i32),
                sources_laid(host, whole, layers, now_us, w0, m),
                sources_laid(host, part, layers, now_us, s0, m),
            );
        }
    }
}

proof fn lemma_part_fades_laid<M, P, R>(
    host: Host<M, P>,
    kept: spec_fn(M) -> R,
    whole: Pass,
    part: Pass,
    bound: Seq<Bound<P>>,
    fading: Seq<Fading>,
    now_us: u64,
    w0: Scene<M>,
    s0: Scene<M>,
    n: nat,
)
    requires
        hoists(host, kept),
        within(part.shard, whole.shard, w0.out.len()),
        part == (Pass { shard: part.shard, ..whole }),
        agrees(w0.history, s0.history, part.shard),
        s0.out == part_of(w0.out, part.shard),
    ensures
        ({
            let w = fades_laid(host, whole, bound, fading, now_us, w0, n);
            let s = fades_laid(host, part, bound, fading, now_us, s0, n);
            &&& agrees(w.history, s.history, part.shard)
            &&& s.out == part_of(w.out, part.shard)
            &&& w.out.len() == w0.out.len()
        }),
    decreases n,
{
    if n > 0 {
        let m = (n - 1) as nat;
        let left = 65_536 - fading[n - 1].faded(now_us);
        lemma_part_fades_laid(host, kept, whole, part, bound, fading, now_us, w0, s0, m);
        match first_bound(bound, fading[n - 1].source.id) {
            Some(b) if left > 0 => {
                lemma_part_sourced(
                    host,
                    kept,
                    whole,
                    part,
                    b,
                    Q16(left as i32),
                    fades_laid(host, whole, bound, fading, now_us, w0, m),
                    fades_laid(host, part, bound, fading, now_us, s0, m),
                );
            },
            _ => {},
        }
    }
}

/// Shards render exactly what one whole render does, whatever faults: a core that
/// starts from the same history of its own LEDs writes, into its part of the output,
/// what a single core writes there, and ends with the same history of them, so that
/// the next frame agrees too.
pub proof fn law_shards_render_what_one_whole_does<M, P, R>(
    host: Host<M, P>,
    kept: spec_fn(M) -> R,
    whole: RendererModel<M>,
    part: RendererModel<M>,
    now_us: u64,
    t: Q16,
    leds: Seq<Led>,
    admitted: Seq<Uuid>,
    fading: Seq<Fading>,
    bound: Seq<Bound<P>>,
    out: Seq<Rgb>,
    all: Shard,
    shard: Shard,
)
    requires
        hoists(host, kept),
        within(shard, all, out.len()),
        whole.last_t == part.last_t,
        agrees(whole.history, part.history, shard),
    ensures
        ({
            let one = whole.frame(host, now_us, t, leds, admitted, fading, bound, out, all);
            let mine = part.frame(
                host,
                now_us,
                t,
                leds,
                admitted,
                fading,
                bound,
                part_of(out, shard),
                shard,
            );
            &&& mine.out == part_of(one.out, shard)
            &&& agrees(one.history, mine.history, shard)
            &&& one.out.len() == out.len()
        }),
{
    let (a, b) = (whole.pass(t, leds, all), part.pass(t, leds, shard));
    let (w0, s0) = (whole.blank(out), part.blank(part_of(out, shard)));
    let layers = bottom_up(bound, admitted);
    let w = sources_laid(host, a, layers, now_us, w0, layers.len());
    let s = sources_laid(host, b, layers, now_us, s0, layers.len());
    lemma_part_sources_laid(host, kept, a, b, layers, now_us, w0, s0, layers.len());
    lemma_part_fades_laid(host, kept, a, b, bound, fading, now_us, w, s, fading.len());
}

/// What is drawn at one moment: the time, the LEDs, and which sources show.
pub ghost struct Moment<'a, P> {
    pub now_us: u64,
    pub t: Q16,
    pub leds: Seq<Led>,
    pub admitted: Seq<Uuid>,
    pub fading: Seq<Fading>,
    pub bound: Seq<Bound<'a, P>>,
}

/// A renderer and its output after the first `n` of some moments, each drawn over what
/// the last one left.
pub open spec fn played<M, P>(
    host: Host<M, P>,
    moments: Seq<Moment<P>>,
    renderer: RendererModel<M>,
    out: Seq<Rgb>,
    shard: Shard,
    n: nat,
) -> (RendererModel<M>, Seq<Rgb>)
    decreases n,
{
    if n == 0 {
        (renderer, out)
    } else {
        let (r, o) = played(host, moments, renderer, out, shard, (n - 1) as nat);
        let m = moments[n - 1];
        let scene = r.frame(
            host,
            m.now_us,
            m.t,
            m.leds,
            m.admitted,
            m.fading,
            m.bound,
            o,
            shard,
        );
        (
            RendererModel {
                machines: scene.machines,
                last_t: Some(m.t),
                history: scene.history,
            },
            scene.out,
        )
    }
}

/// The first `n` slices of an output, put together again.
pub open spec fn joined(slices: Seq<Seq<Rgb>>, n: nat) -> Seq<Rgb>
    decreases n,
{
    if n == 0 {
        Seq::empty()
    } else {
        joined(slices, (n - 1) as nat) + slices[n - 1]
    }
}

/// Whether these are the shards that `len` LEDs fall into, one for each core.
pub open spec fn are_shares(shards: Seq<Shard>, len: int) -> bool {
    forall|k: int|
        0 <= k < shards.len() ==> {
            &&& (#[trigger] shards[k]).start() == share_start(k, shards.len() as int, len)
            &&& shards[k].start() + shards[k].size() == share_start(
                k + 1,
                shards.len() as int,
                len,
            )
        }
}

/// Frame after frame, any number of cores together show exactly what one core does:
/// each with a renderer of its own, its share of the strip and its slice of the output,
/// their slices put together are the output of a single core that drew the same frames.
pub proof fn law_cores_show_what_one_does_frame_after_frame<M, P, R>(
    host: Host<M, P>,
    kept: spec_fn(M) -> R,
    moments: Seq<Moment<P>>,
    out: Seq<Rgb>,
    len: u16,
    shards: Seq<Shard>,
    n: nat,
)
    requires
        hoists(host, kept),
        out.len() == len,
        shards.len() > 0,
        are_shares(shards, len as int),
        n <= moments.len(),
    ensures
        ({
            let fresh = RendererModel::<M>::fresh();
            let slices = Seq::new(
                shards.len(),
                |k: int|
                    played(host, moments, fresh, part_of(out, shards[k]), shards[k], n).1,
            );
            joined(slices, shards.len()) == played(
                host,
                moments,
                fresh,
                out,
                Shard::all_of(len),
                n,
            ).1
        }),
{
    let fresh = RendererModel::<M>::fresh();
    let of = shards.len() as int;
    let whole = played(host, moments, fresh, out, Shard::all_of(len), n).1;
    let slices = Seq::new(
        shards.len(),
        |k: int| played(host, moments, fresh, part_of(out, shards[k]), shards[k], n).1,
    );
    assert forall|k: int| 0 <= k < slices.len() implies #[trigger] slices[k] == whole.subrange(
        share_start(k, of, len as int),
        share_start(k + 1, of, len as int),
    ) && whole.len() == len by {
        lemma_share(k, of, len as int);
        assert(shards[k].start() == share_start(k, of, len as int));
        lemma_part_played(host, kept, moments, out, len, shards[k], n);
    }
    assert(slices[0].len() >= 0);
    lemma_joined(slices, whole, len as int, shards.len());
    lemma_share(of - 1, of, len as int);
    assert(whole.take(len as int) =~= whole);
}

/// The first slices of an output are as much of it as they cover.
proof fn lemma_joined(slices: Seq<Seq<Rgb>>, whole: Seq<Rgb>, len: int, n: nat)
    requires
        n <= slices.len(),
        whole.len() == len,
        forall|k: int|
            0 <= k < slices.len() ==> #[trigger] slices[k] == whole.subrange(
                share_start(k, slices.len() as int, len),
                share_start(k + 1, slices.len() as int, len),
            ),
    ensures
        slices.len() > 0 ==> 0 <= share_start(n as int, slices.len() as int, len) <= len,
        slices.len() > 0 ==> joined(slices, n) == whole.take(
            share_start(n as int, slices.len() as int, len),
        ),
    decreases n,
{
    let of = slices.len() as int;
    if n > 0 {
        lemma_share(n - 1, of, len);
        lemma_joined(slices, whole, len, (n - 1) as nat);
        assert(slices[n - 1] == whole.subrange(
            share_start(n - 1, of, len),
            share_start(n as int, of, len),
        ));
        assert(joined(slices, n) =~= whole.take(share_start(n as int, of, len)));
    } else if of > 0 {
        lemma_share(0, of, len);
        assert(joined(slices, n) =~= whole.take(0));
    }
}

/// After any number of frames a core's slice is its part of the whole, and it remembers
/// of its LEDs what the single core does.
proof fn lemma_part_played<M, P, R>(
    host: Host<M, P>,
    kept: spec_fn(M) -> R,
    moments: Seq<Moment<P>>,
    out: Seq<Rgb>,
    len: u16,
    shard: Shard,
    n: nat,
)
    requires
        hoists(host, kept),
        out.len() == len,
        shard.start() + shard.size() <= len,
    ensures
        ({
            let fresh = RendererModel::<M>::fresh();
            let one = played(host, moments, fresh, out, Shard::all_of(len), n);
            let mine = played(host, moments, fresh, part_of(out, shard), shard, n);
            &&& one.1.len() == len
            &&& mine.1 == part_of(one.1, shard)
            &&& mine.0.last_t == one.0.last_t
            &&& agrees(one.0.history, mine.0.history, shard)
        }),
    decreases n,
{
    if n > 0 {
        let fresh = RendererModel::<M>::fresh();
        let m = moments[n - 1];
        lemma_part_played(host, kept, moments, out, len, shard, (n - 1) as nat);
        let one = played(host, moments, fresh, out, Shard::all_of(len), (n - 1) as nat);
        let mine = played(host, moments, fresh, part_of(out, shard), shard, (n - 1) as nat);
        law_shards_render_what_one_whole_does(
            host,
            kept,
            one.0,
            mine.0,
            m.now_us,
            m.t,
            m.leds,
            m.admitted,
            m.fading,
            m.bound,
            one.1,
            Shard::all_of(len),
            shard,
        );
    }
}

/// Whether some cores together report what one scene does: the sources that it
/// rendered are those that any of them did, and so are the faulty ones.
pub open spec fn together<M>(one: Scene<M>, parts: Seq<Scene<M>>) -> bool {
    &&& forall|id: Uuid| #[trigger]
        one.rendered.contains(id) <==> exists|k: int|
            0 <= k < parts.len() && (#[trigger] parts[k]).rendered.contains(id)
    &&& forall|id: Uuid| #[trigger]
        culprits(one.faults).contains(id) <==> exists|k: int|
            0 <= k < parts.len() && culprits((#[trigger] parts[k]).faults).contains(id)
}

/// Whether every part is one of a whole, and all that the whole owns some part does.
spec fn parted<M>(whole: Pass, w: Scene<M>, parts: Seq<Pass>, s: Seq<Scene<M>>) -> bool {
    &&& parts.len() == s.len()
    &&& forall|k: int|
        0 <= k < parts.len() ==> {
            &&& (#[trigger] parts[k]) == (Pass { shard: parts[k].shard, ..whole })
            &&& within(parts[k].shard, whole.shard, w.out.len())
            &&& agrees(w.history, s[k].history, parts[k].shard)
            &&& s[k].out == part_of(w.out, parts[k].shard)
        }
    &&& forall|led: int| #[trigger]
        whole.shard.owns(led) ==> exists|k: int|
            0 <= k < parts.len() && (#[trigger] parts[k]).shard.owns(led)
}

/// Painting a source whole and in parts: it contributes, and faults, in the whole
/// exactly where it does in some part.
proof fn lemma_parts_painted<M, P, R>(
    host: Host<M, P>,
    kept: spec_fn(M) -> R,
    whole: Pass,
    parts: Seq<Pass>,
    b: Bound<P>,
    alpha: Q16,
    w: Scene<M>,
    s: Seq<Scene<M>>,
    machine: M,
    machines: Seq<M>,
    n: nat,
)
    requires
        hoists(host, kept),
        parted(whole, w, parts, s),
        n <= b.membership.leds@.len(),
        machines.len() == parts.len(),
        forall|k: int| 0 <= k < machines.len() ==> kept(#[trigger] machines[k]) == kept(machine),
    ensures
        ({
            let c = painted(host, whole, b, alpha, primed(machine, w), n);
            let d = |k: int| painted(host, parts[k], b, alpha, primed(machines[k], s[k]), n);
            &&& c.contributed <==> exists|k: int| 0 <= k < parts.len() && (#[trigger] d(k)).contributed
            &&& c.fault is Some <==> exists|k: int|
                0 <= k < parts.len() && (#[trigger] d(k)).fault is Some
        }),
    decreases n,
{
    let c0 = primed(machine, w);
    let d1 = |k: int| painted(host, parts[k], b, alpha, primed(machines[k], s[k]), n);
    let c1 = painted(host, whole, b, alpha, c0, n);
    if n > 0 {
        let m = (n - 1) as nat;
        let c = painted(host, whole, b, alpha, c0, m);
        let d = |k: int| painted(host, parts[k], b, alpha, primed(machines[k], s[k]), m);
        lemma_parts_painted(host, kept, whole, parts, b, alpha, w, s, machine, machines, m);
        lemma_painted_len(host, whole, b, alpha, c0, m);
        let index = b.membership.leds@[n - 1];
        let step = pixel_step(host, whole, b, c.history, n - 1);
        let r = ran(host, Some(c.machine), step);
        // A part that owns the pixel makes of it what the whole does; the others
        // leave it alone.
        assert forall|k: int| 0 <= k < parts.len() implies {
            let owned = #[trigger] parts[k].shard.owns(index as int) && whole.reaches(
                index,
                c.out.len(),
            );
            let lit = owned && (r.outcome matches Ok(output) && colour(output) is Some);
            &&& d1(k).contributed == (d(k).contributed || lit)
            &&& d1(k).fault is Some == (d(k).fault is Some || owned && r.outcome is Err)
        } by {
            let e0 = primed(machines[k], s[k]);
            lemma_part_painted(host, kept, whole, parts[k], b, alpha, c0, e0, m);
            lemma_painted_len(host, parts[k], b, alpha, e0, m);
            let e = d(k);
            if parts[k].shard.owns(index as int) && whole.reaches(index, c.out.len()) {
                assert(parts[k].reaches(index, e.out.len()));
                assert(trail_of(c.history, b.source.id, index) == trail_of(
                    e.history,
                    b.source.id,
                    index,
                ));
                assert(pixel_step(host, parts[k], b, e.history, n - 1) == step);
                assert(ran(host, Some(e.machine), step).outcome == r.outcome);
            } else {
                assert(!parts[k].reaches(index, e.out.len()));
            }
        }
        if whole.reaches(index, c.out.len()) {
            let k = choose|k: int|
                0 <= k < parts.len() && (#[trigger] parts[k]).shard.owns(index as int);
            assert(parts[k].shard.owns(index as int));
            assert(c1.contributed && !c.contributed ==> d1(k).contributed);
            assert(c1.fault is Some && c.fault is None ==> d1(k).fault is Some);
        }
        if c.contributed {
            let k = choose|k: int| 0 <= k < parts.len() && (#[trigger] d(k)).contributed;
            assert(parts[k].shard.owns(index as int) || !parts[k].shard.owns(index as int));
            assert(d1(k).contributed);
        }
        if c.fault is Some {
            let k = choose|k: int| 0 <= k < parts.len() && (#[trigger] d(k)).fault is Some;
            assert(parts[k].shard.owns(index as int) || !parts[k].shard.owns(index as int));
            assert(d1(k).fault is Some);
        }
        assert forall|k: int| 0 <= k < parts.len() && (#[trigger] d1(k)).contributed implies
            c1.contributed by {
            assert(parts[k].shard.owns(index as int) || !parts[k].shard.owns(index as int));
            if d(k).contributed {
                assert(c.contributed);
            }
        }
        assert forall|k: int| 0 <= k < parts.len() && (#[trigger] d1(k)).fault is Some implies
            c1.fault is Some by {
            assert(parts[k].shard.owns(index as int) || !parts[k].shard.owns(index as int));
            if d(k).fault is Some {
                assert(c.fault is Some);
            }
        }
    } else {
        assert forall|k: int| 0 <= k < parts.len() implies !(#[trigger] d1(k)).contributed && d1(
            k,
        ).fault is None by {}
    }
}

/// What one source adds to the reports.
proof fn lemma_sourced_reports<M, P>(
    host: Host<M, P>,
    pass: Pass,
    b: Bound<P>,
    alpha: Q16,
    s: Scene<M>,
    id: Uuid,
)
    ensures
        ({
            let after = sourced(host, pass, b, alpha, s);
            let f = started(host, pass, b, s);
            let c = painted(
                host,
                pass,
                b,
                alpha,
                primed(f.machine, s),
                b.membership.leds@.len(),
            );
            let ran = pass.touches(b.membership.leds@);
            &&& after.rendered.contains(id) <==> s.rendered.contains(id) || ran && f.outcome is Ok
                && c.contributed && id == b.source.id
            &&& culprits(after.faults).contains(id) <==> culprits(s.faults).contains(id) || ran && (
            f.outcome is Err || c.fault is Some) && id == b.source.id
        }),
{
    lemma_named(s.rendered, b.source.id, id);
    let (before, after) = (culprits(s.faults), culprits(sourced(host, pass, b, alpha, s).faults));
    if after.len() > before.len() {
        assert(after =~= before.push(b.source.id));
        assert(after[before.len() as int] == b.source.id);
        if before.contains(id) {
            assert(after[before.index_of(id)] == id);
        }
        if after.contains(id) && id != b.source.id {
            assert(before[after.index_of(id)] == id);
        }
    }
}

/// One source over a whole scene and over its parts: reports that were together
/// stay so.
proof fn lemma_parts_sourced<M, P, R>(
    host: Host<M, P>,
    kept: spec_fn(M) -> R,
    whole: Pass,
    parts: Seq<Pass>,
    b: Bound<P>,
    alpha: Q16,
    w: Scene<M>,
    s: Seq<Scene<M>>,
)
    requires
        hoists(host, kept),
        parted(whole, w, parts, s),
        together(w, s),
    ensures
        ({
            let after = Seq::new(s.len(), |k: int| sourced(host, parts[k], b, alpha, s[k]));
            &&& parted(whole, sourced(host, whole, b, alpha, w), parts, after)
            &&& together(sourced(host, whole, b, alpha, w), after)
        }),
{
    let members = b.membership.leds@;
    let n = members.len();
    let w1 = sourced(host, whole, b, alpha, w);
    let after = Seq::new(s.len(), |k: int| sourced(host, parts[k], b, alpha, s[k]));
    let step = frame_step(whole, b);
    let f = started(host, whole, b, w);
    let machines = Seq::new(s.len(), |k: int| started(host, parts[k], b, s[k]).machine);
    assert forall|k: int| 0 <= k < parts.len() implies (#[trigger] parts[k]) == (Pass {
        shard: parts[k].shard,
        ..whole
    }) && within(parts[k].shard, whole.shard, w1.out.len()) && agrees(
        w1.history,
        after[k].history,
        parts[k].shard,
    ) && after[k].out == part_of(w1.out, parts[k].shard) by {
        lemma_part_sourced(host, kept, whole, parts[k], b, alpha, w, s[k]);
    }
    // Every part starts as the whole does.
    assert forall|k: int| 0 <= k < parts.len() implies started(
        host,
        #[trigger] parts[k],
        b,
        s[k],
    ).outcome == f.outcome && kept(machines[k]) == kept(f.machine) by {
        assert(frame_step(parts[k], b) == step);
        assert(started(host, parts[k], b, s[k]) == ran(
            host,
            machine_of(s[k].machines, b.source.id),
            step,
        ));
    }
    assert forall|k: int| 0 <= k < machines.len() implies kept(#[trigger] machines[k]) == kept(
        f.machine,
    ) by {
        assert(parts[k].shard == parts[k].shard);
    }
    lemma_parts_painted(host, kept, whole, parts, b, alpha, w, s, f.machine, machines, n);
    let c = painted(host, whole, b, alpha, primed(f.machine, w), n);
    let d = |k: int| painted(host, parts[k], b, alpha, primed(machines[k], s[k]), n);
    // A part without any of the source's LEDs neither contributes nor faults; where
    // the whole has one, so has some part.
    assert forall|k: int| 0 <= k < parts.len() && !(#[trigger] parts[k]).touches(members) implies
        !d(k).contributed && d(k).fault is None by {
        lemma_untouched_painted(host, parts[k], b, alpha, primed(machines[k], s[k]), n);
    }
    assert forall|k: int| 0 <= k < parts.len() && (#[trigger] parts[k]).touches(members) implies
        whole.touches(members) by {
        let i = choose|i: int|
            0 <= i < members.len() && parts[k].shard.owns(#[trigger] members[i] as int);
        assert(whole.shard.owns(members[i] as int));
    }
    if whole.touches(members) {
        let i = choose|i: int|
            0 <= i < members.len() && whole.shard.owns(#[trigger] members[i] as int);
        let k = choose|k: int|
            0 <= k < parts.len() && (#[trigger] parts[k]).shard.owns(members[i] as int);
        assert(parts[k].touches(members));
    }
    assert forall|id: Uuid| #[trigger] w1.rendered.contains(id) <==> exists|k: int|
        0 <= k < after.len() && (#[trigger] after[k]).rendered.contains(id) by {
        lemma_sourced_reports(host, whole, b, alpha, w, id);
        assert forall|k: int| 0 <= k < after.len() implies ((#[trigger] after[k]).rendered.contains(
            id,
        ) <==> s[k].rendered.contains(id) || parts[k].touches(members) && f.outcome is Ok && d(
            k,
        ).contributed && id == b.source.id) by {
            lemma_sourced_reports(host, parts[k], b, alpha, s[k], id);
        }
        if w.rendered.contains(id) {
            let k = choose|k: int| 0 <= k < s.len() && (#[trigger] s[k]).rendered.contains(id);
            assert(after[k].rendered.contains(id));
        } else if w1.rendered.contains(id) {
            let k = choose|k: int| 0 <= k < parts.len() && (#[trigger] d(k)).contributed;
            assert(parts[k].touches(members));
            assert(after[k].rendered.contains(id));
        }
        if exists|k: int| 0 <= k < after.len() && (#[trigger] after[k]).rendered.contains(id) {
            let k = choose|k: int|
                0 <= k < after.len() && (#[trigger] after[k]).rendered.contains(id);
            if !s[k].rendered.contains(id) {
                assert(parts[k].touches(members) && d(k).contributed);
            }
        }
    }
    assert forall|id: Uuid| #[trigger] culprits(w1.faults).contains(id) <==> exists|k: int|
        0 <= k < after.len() && culprits((#[trigger] after[k]).faults).contains(id) by {
        lemma_sourced_reports(host, whole, b, alpha, w, id);
        assert forall|k: int| 0 <= k < after.len() implies (culprits(
            (#[trigger] after[k]).faults,
        ).contains(id) <==> culprits(s[k].faults).contains(id) || parts[k].touches(members) && (
        f.outcome is Err || d(k).fault is Some) && id == b.source.id) by {
            lemma_sourced_reports(host, parts[k], b, alpha, s[k], id);
        }
        if culprits(w.faults).contains(id) {
            let k = choose|k: int|
                0 <= k < s.len() && culprits((#[trigger] s[k]).faults).contains(id);
            assert(culprits(after[k].faults).contains(id));
        } else if culprits(w1.faults).contains(id) {
            if f.outcome is Err {
                let k = choose|k: int|
                    0 <= k < parts.len() && (#[trigger] parts[k]).touches(members);
                assert(culprits(after[k].faults).contains(id));
            } else {
                let k = choose|k: int| 0 <= k < parts.len() && (#[trigger] d(k)).fault is Some;
                assert(parts[k].touches(members));
                assert(culprits(after[k].faults).contains(id));
            }
        }
        if exists|k: int| 0 <= k < after.len() && culprits((#[trigger] after[k]).faults).contains(
            id,
        ) {
            let k = choose|k: int|
                0 <= k < after.len() && culprits((#[trigger] after[k]).faults).contains(id);
            if !culprits(s[k].faults).contains(id) {
                assert(parts[k].touches(members));
                assert(f.outcome is Err || d(k).fault is Some);
            }
        }
    }
}

proof fn lemma_parts_sources_laid<M, P, R>(
    host: Host<M, P>,
    kept: spec_fn(M) -> R,
    whole: Pass,
    parts: Seq<Pass>,
    layers: Seq<Bound<P>>,
    now_us: u64,
    w: Scene<M>,
    s: Seq<Scene<M>>,
    n: nat,
)
    requires
        hoists(host, kept),
        parted(whole, w, parts, s),
        together(w, s),
    ensures
        ({
            let one = sources_laid(host, whole, layers, now_us, w, n);
            let each = Seq::new(
                s.len(),
                |k: int| sources_laid(host, parts[k], layers, now_us, s[k], n),
            );
            parted(whole, one, parts, each) && together(one, each)
        }),
    decreases n,
{
    let each = Seq::new(s.len(), |k: int| sources_laid(host, parts[k], layers, now_us, s[k], n));
    if n > 0 {
        let m = (n - 1) as nat;
        let b = layers[n - 1];
        let alpha = b.source.fade_in(now_us);
        let one = sources_laid(host, whole, layers, now_us, w, m);
        let before = Seq::new(
            s.len(),
            |k: int| sources_laid(host, parts[k], layers, now_us, s[k], m),
        );
        lemma_parts_sources_laid(host, kept, whole, parts, layers, now_us, w, s, m);
        if alpha <= 0 {
            assert(each =~= before);
        } else {
            let a = Q16(alpha as i32);
            lemma_parts_sourced(host, kept, whole, parts, b, a, one, before);
            assert(each =~= Seq::new(
                before.len(),
                |k: int| sourced(host, parts[k], b, a, before[k]),
            ));
        }
    } else {
        assert(each =~= s);
    }
}

proof fn lemma_parts_fades_laid<M, P, R>(
    host: Host<M, P>,
    kept: spec_fn(M) -> R,
    whole: Pass,
    parts: Seq<Pass>,
    bound: Seq<Bound<P>>,
    fading: Seq<Fading>,
    now_us: u64,
    w: Scene<M>,
    s: Seq<Scene<M>>,
    n: nat,
)
    requires
        hoists(host, kept),
        parted(whole, w, parts, s),
        together(w, s),
    ensures
        ({
            let one = fades_laid(host, whole, bound, fading, now_us, w, n);
            let each = Seq::new(
                s.len(),
                |k: int| fades_laid(host, parts[k], bound, fading, now_us, s[k], n),
            );
            parted(whole, one, parts, each) && together(one, each)
        }),
    decreases n,
{
    let each = Seq::new(
        s.len(),
        |k: int| fades_laid(host, parts[k], bound, fading, now_us, s[k], n),
    );
    if n > 0 {
        let m = (n - 1) as nat;
        let left = 65_536 - fading[n - 1].faded(now_us);
        let one = fades_laid(host, whole, bound, fading, now_us, w, m);
        let before = Seq::new(
            s.len(),
            |k: int| fades_laid(host, parts[k], bound, fading, now_us, s[k], m),
        );
        lemma_parts_fades_laid(host, kept, whole, parts, bound, fading, now_us, w, s, m);
        match first_bound(bound, fading[n - 1].source.id) {
            Some(b) if left > 0 => {
                let a = Q16(left as i32);
                lemma_parts_sourced(host, kept, whole, parts, b, a, one, before);
                assert(each =~= Seq::new(
                    before.len(),
                    |k: int| sourced(host, parts[k], b, a, before[k]),
                ));
            },
            _ => {
                assert(each =~= before);
            },
        }
    } else {
        assert(each =~= s);
    }
}

/// Cores that share a strip report together what one core would: a source is named
/// as rendered by some core exactly where one core would name it, and as faulty
/// likewise.
pub proof fn law_cores_report_what_one_does<M, P, R>(
    host: Host<M, P>,
    kept: spec_fn(M) -> R,
    whole: RendererModel<M>,
    cores: Seq<RendererModel<M>>,
    now_us: u64,
    t: Q16,
    leds: Seq<Led>,
    admitted: Seq<Uuid>,
    fading: Seq<Fading>,
    bound: Seq<Bound<P>>,
    out: Seq<Rgb>,
    all: Shard,
    shards: Seq<Shard>,
)
    requires
        hoists(host, kept),
        cores.len() == shards.len(),
        forall|k: int|
            0 <= k < cores.len() ==> {
                &&& within(#[trigger] shards[k], all, out.len())
                &&& whole.last_t == cores[k].last_t
                &&& agrees(whole.history, cores[k].history, shards[k])
            },
        forall|led: int| #[trigger]
            all.owns(led) ==> exists|k: int|
                0 <= k < shards.len() && (#[trigger] shards[k]).owns(led),
    ensures
        together(
            whole.frame(host, now_us, t, leds, admitted, fading, bound, out, all),
            Seq::new(
                cores.len(),
                |k: int|
                    cores[k].frame(
                        host,
                        now_us,
                        t,
                        leds,
                        admitted,
                        fading,
                        bound,
                        part_of(out, shards[k]),
                        shards[k],
                    ),
            ),
        ),
{
    let pass = whole.pass(t, leds, all);
    let parts = Seq::new(cores.len(), |k: int| cores[k].pass(t, leds, shards[k]));
    let layers = bottom_up(bound, admitted);
    let n = layers.len();
    let w = whole.blank(out);
    let s = Seq::new(cores.len(), |k: int| cores[k].blank(part_of(out, shards[k])));
    assert forall|led: int| #[trigger] pass.shard.owns(led) implies exists|k: int|
        0 <= k < parts.len() && (#[trigger] parts[k]).shard.owns(led) by {
        let k = choose|k: int| 0 <= k < shards.len() && (#[trigger] shards[k]).owns(led);
        assert(parts[k].shard.owns(led));
    }
    assert forall|k: int| 0 <= k < parts.len() implies (#[trigger] parts[k]) == (Pass {
        shard: parts[k].shard,
        ..pass
    }) && within(parts[k].shard, pass.shard, w.out.len()) && agrees(
        w.history,
        s[k].history,
        parts[k].shard,
    ) && s[k].out == part_of(w.out, parts[k].shard) by {
        assert(within(shards[k], all, out.len()));
    }
    assert(parted(pass, w, parts, s));
    assert(together(w, s)) by {
        assert forall|k: int| 0 <= k < s.len() implies (#[trigger] s[k]).rendered.len() == 0
            && culprits(s[k].faults).len() == 0 by {}
        assert(w.rendered.len() == 0 && culprits(w.faults).len() == 0);
    }
    lemma_parts_sources_laid(host, kept, pass, parts, layers, now_us, w, s, n);
    let one = sources_laid(host, pass, layers, now_us, w, n);
    let each = Seq::new(s.len(), |k: int| sources_laid(host, parts[k], layers, now_us, s[k], n));
    let m = fading.len();
    lemma_parts_fades_laid(host, kept, pass, parts, bound, fading, now_us, one, each, m);
    let laid = Seq::new(
        each.len(),
        |k: int| fades_laid(host, parts[k], bound, fading, now_us, each[k], m),
    );
    assert(laid =~= Seq::new(
        cores.len(),
        |k: int|
            cores[k].frame(
                host,
                now_us,
                t,
                leds,
                admitted,
                fading,
                bound,
                part_of(out, shards[k]),
                shards[k],
            ),
    ));
}

/// Whether a scene shows at one place of the output what another does, and has
/// the same length.
pub open spec fn same_at<M>(a: Scene<M>, b: Scene<M>, at: int) -> bool {
    a.out.len() == b.out.len() && a.out[at] == b.out[at]
}

/// Whether a source covers no LED of this number.
pub open spec fn misses<P>(b: Bound<P>, led: int) -> bool {
    forall|i: int|
        0 <= i < b.membership.leds@.len() ==> #[trigger] b.membership.leds@[i] != led
}

proof fn lemma_uncovered_sourced<M, P>(
    host: Host<M, P>,
    pass: Pass,
    b: Bound<P>,
    alpha: Q16,
    s: Scene<M>,
    at: int,
)
    requires
        0 <= at < s.out.len(),
        misses(b, pass.shard.start() + at),
    ensures
        same_at(sourced(host, pass, b, alpha, s), s, at),
{
    let start = primed(started(host, pass, b, s).machine, s);
    lemma_uncovered_painted(host, pass, b, alpha, start, 0, b.membership.leds@.len(), at);
}

/// The pixels of a source after its first `from` leave an LED alone that none of
/// them is.
proof fn lemma_uncovered_painted<M, P>(
    host: Host<M, P>,
    pass: Pass,
    b: Bound<P>,
    alpha: Q16,
    start: Canvas<M>,
    from: nat,
    n: nat,
    at: int,
)
    requires
        from <= n <= b.membership.leds@.len(),
        0 <= at < start.out.len(),
        forall|k: int|
            from <= k < n ==> #[trigger] b.membership.leds@[k] != pass.shard.start() + at,
    ensures
        painted(host, pass, b, alpha, start, n).out.len() == start.out.len(),
        painted(host, pass, b, alpha, start, n).out[at] == painted(
            host,
            pass,
            b,
            alpha,
            start,
            from,
        ).out[at],
    decreases n,
{
    lemma_painted_len(host, pass, b, alpha, start, n);
    if n > from {
        lemma_uncovered_painted(host, pass, b, alpha, start, from, (n - 1) as nat, at);
        lemma_painted_len(host, pass, b, alpha, start, (n - 1) as nat);
        assert(b.membership.leds@[n - 1] != pass.shard.start() + at);
    }
}

/// Whether no fade covers an LED.
pub open spec fn fades_miss<P>(bound: Seq<Bound<P>>, fading: Seq<Fading>, led: int) -> bool {
    forall|k: int|
        0 <= k < fading.len() ==> (first_bound(
            bound,
            (#[trigger] fading[k]).source.id,
        ) matches Some(b) ==> misses(b, led))
}

/// The pixel has the last word of the highest source that covers it: what the
/// layers up to that one left there is what the frame shows, unless a fade covers it
/// too. What is ahead of a source comes after it in the layers.
pub proof fn law_the_highest_source_wins_the_pixel<M, P>(
    renderer: RendererModel<M>,
    host: Host<M, P>,
    now_us: u64,
    t: Q16,
    leds: Seq<Led>,
    admitted: Seq<Uuid>,
    fading: Seq<Fading>,
    bound: Seq<Bound<P>>,
    out: Seq<Rgb>,
    shard: Shard,
    at: int,
    highest: nat,
)
    requires
        0 <= at < out.len(),
        highest <= bottom_up(bound, admitted).len(),
        forall|k: int|
            highest <= k < bottom_up(bound, admitted).len() ==> misses(
                #[trigger] bottom_up(bound, admitted)[k],
                shard.start() + at,
            ),
        fades_miss(bound, fading, shard.start() + at),
    ensures
        ({
            let layers = bottom_up(bound, admitted);
            let start = renderer.blank(out);
            let pass = renderer.pass(t, leds, shard);
            renderer.frame(host, now_us, t, leds, admitted, fading, bound, out, shard).out[at]
                == sources_laid(host, pass, layers, now_us, start, highest).out[at]
        }),
{
    let layers = bottom_up(bound, admitted);
    let start = renderer.blank(out);
    let pass = renderer.pass(t, leds, shard);
    lemma_sources_len(host, pass, layers, now_us, start, highest);
    lemma_uncovered_sources(host, pass, layers, now_us, start, highest, layers.len(), at);
    let laid = sources_laid(host, pass, layers, now_us, start, layers.len());
    lemma_uncovered_fades(host, pass, bound, fading, now_us, laid, fading.len(), at);
}

/// What a source's program makes of one of its pixels over a scene, where it makes
/// a colour of it.
pub open spec fn made<M, P>(
    host: Host<M, P>,
    pass: Pass,
    b: Bound<P>,
    alpha: Q16,
    s: Scene<M>,
    ordinal: nat,
) -> Option<Rgb> {
    let f = started(host, pass, b, s);
    let c = painted(host, pass, b, alpha, primed(f.machine, s), ordinal);
    let step = pixel_step(host, pass, b, c.history, ordinal as int);
    match (f.outcome, ran(host, Some(c.machine), step).outcome) {
        (Ok(_), Ok(output)) => colour(output),
        _ => None,
    }
}

/// Whether a source of the list covers an LED at one place among its members, for
/// the last time.
pub open spec fn covers_at<P>(b: Bound<P>, ordinal: nat, led: int) -> bool {
    &&& ordinal < b.membership.leds@.len()
    &&& b.membership.leds@[ordinal as int] == led
    &&& forall|k: int|
        ordinal < k < b.membership.leds@.len() ==> #[trigger] b.membership.leds@[k] != led
}

/// A source at full weight shows its own colour: over whatever was there, the pixel
/// is what its program made of it.
pub proof fn law_full_weight_covers<M, P>(
    host: Host<M, P>,
    pass: Pass,
    b: Bound<P>,
    s: Scene<M>,
    ordinal: nat,
    at: int,
)
    requires
        0 <= at < s.out.len(),
        covers_at(b, ordinal, pass.shard.start() + at),
        pass.reaches(b.membership.leds@[ordinal as int], s.out.len()),
        made(host, pass, b, Q16::one(), s, ordinal) is Some,
    ensures
        sourced(host, pass, b, Q16::one(), s).out[at] == made(
            host,
            pass,
            b,
            Q16::one(),
            s,
            ordinal,
        )->0,
{
    let n = b.membership.leds@.len();
    let start = primed(started(host, pass, b, s).machine, s);
    assert(pass.touches(b.membership.leds@));
    lemma_painted_len(host, pass, b, Q16::one(), start, ordinal);
    lemma_painted_len(host, pass, b, Q16::one(), start, ordinal + 1);
    lemma_uncovered_painted(host, pass, b, Q16::one(), start, ordinal + 1, n, at);
}

/// A pixel whose program faults keeps what was underneath, and so does its trail.
/// The source is remembered as faulty, by the first fault it met.
pub proof fn law_a_fault_costs_its_own_pixel<M, P>(
    host: Host<M, P>,
    pass: Pass,
    b: Bound<P>,
    alpha: Q16,
    c: Canvas<M>,
    ordinal: int,
)
    requires
        pass.reaches(b.membership.leds@[ordinal], c.out.len()),
        ran(
            host,
            Some(c.machine),
            pixel_step(host, pass, b, c.history, ordinal),
        ).outcome is Err,
    ensures
        ({
            let after = painted_one(host, pass, b, alpha, c, ordinal);
            &&& after.out == c.out
            &&& after.history == c.history
            &&& after.fault is Some
            &&& c.fault is Some ==> after.fault == c.fault
        }),
{
}

/// A pixel that the front of the stack covers at full weight shows it: where every
/// bound source is one of the stack's, the source that `top` names is the uppermost
/// layer, and what its program makes of the pixel is what the frame shows there,
/// unless a fade covers it too.
pub proof fn law_the_front_of_the_stack_shows<M, P>(
    renderer: RendererModel<M>,
    host: Host<M, P>,
    now_us: u64,
    t: Q16,
    leds: Seq<Led>,
    stack: StackModel,
    bound: Seq<Bound<P>>,
    out: Seq<Rgb>,
    shard: Shard,
    top: Bound<P>,
    ordinal: nat,
    at: int,
)
    requires
        stack.valid(),
        stack.active.len() > 0,
        apart(bound),
        forall|b: Bound<P>| #[trigger]
            bound.contains(b) && stack.admission().admitted.contains(b.source.id)
                ==> stack.active.contains(b.source),
        bound.contains(top),
        top.source == stack.active[0],
        top.source.fade_in(now_us) == 65_536,
        0 <= at < out.len(),
        covers_at(top, ordinal, shard.start() + at),
        renderer.pass(t, leds, shard).reaches(top.membership.leds@[ordinal as int], out.len()),
        fades_miss(bound, stack.fading, shard.start() + at),
    ensures
        ({
            let admitted = stack.admission().admitted;
            let layers = bottom_up(bound, admitted);
            let pass = renderer.pass(t, leds, shard);
            let under = sources_laid(
                host,
                pass,
                layers,
                now_us,
                renderer.blank(out),
                (layers.len() - 1) as nat,
            );
            let frame = renderer.frame(
                host,
                now_us,
                t,
                leds,
                admitted,
                stack.fading,
                bound,
                out,
                shard,
            );
            &&& layers.len() > 0
            &&& layers.last() == top
            &&& made(host, pass, top, Q16::one(), under, ordinal) matches Some(over)
                ==> frame.out[at] == over
        }),
{
    let admitted = stack.admission().admitted;
    let layers = bottom_up(bound, admitted);
    let n = layers.len();
    law_the_front_is_admitted(stack);
    law_the_order_goes_up(bound, admitted);
    assert(admitted.contains(admitted[0]));
    assert(layers.contains(top));
    let place = layers.index_of(top);
    let last = layers[n - 1];
    if place < n - 1 {
        assert(!layers[place].source.ahead_of(last.source));
        assert(layers[place].source.id != last.source.id);
        assert(layers.contains(last));
        let i = stack.active.index_of(last.source);
        assert(stack.active[0].ahead_of(stack.active[i]));
    }
    let pass = renderer.pass(t, leds, shard);
    let start = renderer.blank(out);
    let m = (n - 1) as nat;
    let under = sources_laid(host, pass, layers, now_us, start, m);
    lemma_sources_len(host, pass, layers, now_us, start, m);
    if made(host, pass, top, Q16::one(), under, ordinal) is Some {
        law_full_weight_covers(host, pass, top, under, ordinal, at);
        law_the_highest_source_wins_the_pixel(
            renderer,
            host,
            now_us,
            t,
            leds,
            admitted,
            stack.fading,
            bound,
            out,
            shard,
            at,
            n,
        );
    }
}

/// A frame does not depend on the order in which the sources are listed: two lists
/// of the same sources, each there once, come to the same picture, report and state.
pub proof fn law_the_order_of_the_list_does_not_matter<M, P>(
    renderer: RendererModel<M>,
    host: Host<M, P>,
    now_us: u64,
    t: Q16,
    leds: Seq<Led>,
    admitted: Seq<Uuid>,
    fading: Seq<Fading>,
    bound: Seq<Bound<P>>,
    shuffled: Seq<Bound<P>>,
    out: Seq<Rgb>,
    shard: Shard,
)
    requires
        apart(bound),
        apart(shuffled),
        forall|b: Bound<P>| #[trigger] bound.contains(b) <==> shuffled.contains(b),
    ensures
        renderer.frame(host, now_us, t, leds, admitted, fading, bound, out, shard)
            == renderer.frame(host, now_us, t, leds, admitted, fading, shuffled, out, shard),
{
    let (x, y) = (bottom_up(bound, admitted), bottom_up(shuffled, admitted));
    let above = |a: Bound<P>, b: Bound<P>| b.source.ahead_of(a.source);
    law_the_order_goes_up(bound, admitted);
    law_the_order_goes_up(shuffled, admitted);
    assert forall|i: int, j: int| 0 <= i < j < x.len() implies above(
        #[trigger] x[i],
        #[trigger] x[j],
    ) by {
        assert(x[i].source.id != x[j].source.id);
        law_order_is_total(x[i].source, x[j].source, x[j].source);
    }
    assert forall|i: int, j: int| 0 <= i < j < y.len() implies above(
        #[trigger] y[i],
        #[trigger] y[j],
    ) by {
        assert(y[i].source.id != y[j].source.id);
        law_order_is_total(y[i].source, y[j].source, y[j].source);
    }
    assert forall|b: Bound<P>| #[trigger] x.contains(b) <==> y.contains(b) by {
        assert(bound.contains(b) <==> shuffled.contains(b));
    }
    lemma_one_strict_order(x, y, above);
    let pass = renderer.pass(t, leds, shard);
    let laid = sources_laid(host, pass, x, now_us, renderer.blank(out), x.len());
    lemma_shuffled_fades(host, pass, bound, shuffled, fading, now_us, laid, fading.len());
}

proof fn lemma_shuffled_fades<M, P>(
    host: Host<M, P>,
    pass: Pass,
    bound: Seq<Bound<P>>,
    shuffled: Seq<Bound<P>>,
    fading: Seq<Fading>,
    now_us: u64,
    s: Scene<M>,
    n: nat,
)
    requires
        apart(bound),
        apart(shuffled),
        forall|b: Bound<P>| #[trigger] bound.contains(b) <==> shuffled.contains(b),
    ensures
        fades_laid(host, pass, bound, fading, now_us, s, n) == fades_laid(
            host,
            pass,
            shuffled,
            fading,
            now_us,
            s,
            n,
        ),
    decreases n,
{
    if n > 0 {
        lemma_shuffled_fades(host, pass, bound, shuffled, fading, now_us, s, (n - 1) as nat);
        let id = fading[n - 1].source.id;
        lemma_found_bound(bound, id);
        lemma_found_bound(shuffled, id);
        if let Some(a) = first_bound(bound, id) {
            assert(shuffled.contains(a));
            if let Some(b) = first_bound(shuffled, id) {
                let (i, j) = (shuffled.index_of(a), shuffled.index_of(b));
                assert(i == j);
            }
        } else if let Some(b) = first_bound(shuffled, id) {
            assert(bound.contains(b));
        }
    }
}

/// A pixel that no source covers keeps what was there, and so does every pixel
/// when nothing is admitted or fading.
pub proof fn law_uncovered_pixels_keep_what_was_there<M, P>(
    renderer: RendererModel<M>,
    host: Host<M, P>,
    now_us: u64,
    t: Q16,
    leds: Seq<Led>,
    admitted: Seq<Uuid>,
    fading: Seq<Fading>,
    bound: Seq<Bound<P>>,
    out: Seq<Rgb>,
    shard: Shard,
    at: int,
)
    requires
        0 <= at < out.len(),
        forall|k: int|
            0 <= k < bound.len() && admitted.contains(bound[k].source.id) ==> misses(
                #[trigger] bound[k],
                shard.start() + at,
            ),
        fades_miss(bound, fading, shard.start() + at),
    ensures
        renderer.frame(host, now_us, t, leds, admitted, fading, bound, out, shard).out[at]
            == out[at],
{
    let layers = bottom_up(bound, admitted);
    law_the_order_goes_up(bound, admitted);
    assert forall|k: int| 0 <= k < layers.len() implies misses(
        #[trigger] layers[k],
        shard.start() + at,
    ) by {
        assert(layers.contains(layers[k]));
    }
    law_the_highest_source_wins_the_pixel(
        renderer,
        host,
        now_us,
        t,
        leds,
        admitted,
        fading,
        bound,
        out,
        shard,
        at,
        0,
    );
}

/// Only what is admitted or fading out is rendered. What fades was admitted until it
/// left, so a source that was turned away is not shown at all, never at reduced
/// quality.
pub proof fn law_only_the_admitted_and_the_fading_are_rendered<M, P>(
    renderer: RendererModel<M>,
    host: Host<M, P>,
    now_us: u64,
    t: Q16,
    leds: Seq<Led>,
    admitted: Seq<Uuid>,
    fading: Seq<Fading>,
    bound: Seq<Bound<P>>,
    out: Seq<Rgb>,
    shard: Shard,
    id: Uuid,
)
    requires
        renderer.frame(
            host,
            now_us,
            t,
            leds,
            admitted,
            fading,
            bound,
            out,
            shard,
        ).rendered.contains(id),
    ensures
        admitted.contains(id) || exists|k: int|
            0 <= k < fading.len() && (#[trigger] fading[k]).source.id == id,
{
    let layers = bottom_up(bound, admitted);
    let start = renderer.blank(out);
    let pass = renderer.pass(t, leds, shard);
    law_the_order_goes_up(bound, admitted);
    assert forall|i: int| 0 <= i < layers.len() implies admitted.contains(
        (#[trigger] layers[i]).source.id,
    ) by {
        assert(layers.contains(layers[i]));
    }
    lemma_rendered_sources(host, pass, layers, admitted, now_us, start, layers.len(), id);
    let laid = sources_laid(host, pass, layers, now_us, start, layers.len());
    lemma_rendered_fades(host, pass, bound, fading, now_us, laid, fading.len(), id);
}

proof fn lemma_named(ids: Seq<Uuid>, new: Uuid, id: Uuid)
    ensures
        named(ids, new).contains(id) <==> ids.contains(id) || new == id,
        ids.no_duplicates() ==> named(ids, new).no_duplicates(),
{
    let all = named(ids, new);
    if all.contains(id) && !ids.contains(id) {
        let i = all.index_of(id);
        if i < ids.len() {
            assert(ids[i] == id);
        }
    }
    if ids.contains(id) {
        assert(all[ids.index_of(id)] == id);
    }
    if !ids.contains(new) {
        assert(all[ids.len() as int] == new);
    }
}

proof fn lemma_rendered_sources<M, P>(
    host: Host<M, P>,
    pass: Pass,
    layers: Seq<Bound<P>>,
    admitted: Seq<Uuid>,
    now_us: u64,
    s: Scene<M>,
    n: nat,
    id: Uuid,
)
    requires
        n <= layers.len(),
        forall|i: int| 0 <= i < layers.len() ==> admitted.contains((#[trigger] layers[i]).source.id),
        s.rendered.len() == 0,
    ensures
        sources_laid(host, pass, layers, now_us, s, n).rendered.contains(id) ==> admitted.contains(
            id,
        ),
    decreases n,
{
    if n > 0 {
        let m = (n - 1) as nat;
        lemma_rendered_sources(host, pass, layers, admitted, now_us, s, m, id);
        lemma_named(
            sources_laid(host, pass, layers, now_us, s, m).rendered,
            layers[n - 1].source.id,
            id,
        );
    }
}

/// A bound source found by an id has it, and is in the list.
proof fn lemma_found_bound<P>(bound: Seq<Bound<P>>, id: Uuid)
    ensures
        match first_bound(bound, id) {
            Some(b) => b.source.id == id && bound.contains(b),
            None => forall|b: Bound<P>| #[trigger] bound.contains(b) ==> b.source.id != id,
        },
    decreases bound.len(),
{
    if bound.len() > 0 {
        let below = bound.drop_last();
        lemma_found_bound(below, id);
        if let Some(b) = first_bound(below, id) {
            assert(bound[below.index_of(b)] == b);
        } else {
            assert(bound.contains(bound.last()));
            assert forall|b: Bound<P>| #[trigger] bound.contains(b) implies below.contains(b) || b
                == bound.last() by {
                let i = bound.index_of(b);
                if i < below.len() {
                    assert(below[i] == b);
                }
            }
        }
    }
}

proof fn lemma_rendered_fades<M, P>(
    host: Host<M, P>,
    pass: Pass,
    bound: Seq<Bound<P>>,
    fading: Seq<Fading>,
    now_us: u64,
    s: Scene<M>,
    n: nat,
    id: Uuid,
)
    requires
        n <= fading.len(),
        fades_laid(host, pass, bound, fading, now_us, s, n).rendered.contains(id),
    ensures
        s.rendered.contains(id) || exists|k: int|
            0 <= k < fading.len() && (#[trigger] fading[k]).source.id == id,
    decreases n,
{
    if n > 0 {
        let m = (n - 1) as nat;
        let before = fades_laid(host, pass, bound, fading, now_us, s, m);
        let new = fading[n - 1].source.id;
        lemma_named(before.rendered, new, id);
        lemma_found_bound(bound, new);
        if before.rendered.contains(id) {
            lemma_rendered_fades(host, pass, bound, fading, now_us, s, m, id);
        }
    }
}

/// A frame names each source at most once as rendered, however many pixels it painted
/// and however often it ran.
pub proof fn law_a_frame_names_each_source_once<M, P>(
    renderer: RendererModel<M>,
    host: Host<M, P>,
    now_us: u64,
    t: Q16,
    leds: Seq<Led>,
    admitted: Seq<Uuid>,
    fading: Seq<Fading>,
    bound: Seq<Bound<P>>,
    out: Seq<Rgb>,
    shard: Shard,
)
    ensures
        renderer.frame(
            host,
            now_us,
            t,
            leds,
            admitted,
            fading,
            bound,
            out,
            shard,
        ).rendered.no_duplicates(),
{
    let layers = bottom_up(bound, admitted);
    let start = renderer.blank(out);
    let pass = renderer.pass(t, leds, shard);
    let laid = sources_laid(host, pass, layers, now_us, start, layers.len());
    lemma_sources_name_once(host, pass, layers, now_us, start, layers.len());
    lemma_fades_name_once(host, pass, bound, fading, now_us, laid, fading.len());
}

proof fn lemma_sources_name_once<M, P>(
    host: Host<M, P>,
    pass: Pass,
    layers: Seq<Bound<P>>,
    now_us: u64,
    s: Scene<M>,
    n: nat,
)
    requires
        s.rendered.no_duplicates(),
    ensures
        sources_laid(host, pass, layers, now_us, s, n).rendered.no_duplicates(),
    decreases n,
{
    if n > 0 {
        let m = (n - 1) as nat;
        let id = layers[n - 1].source.id;
        lemma_sources_name_once(host, pass, layers, now_us, s, m);
        lemma_named(sources_laid(host, pass, layers, now_us, s, m).rendered, id, id);
    }
}

proof fn lemma_fades_name_once<M, P>(
    host: Host<M, P>,
    pass: Pass,
    bound: Seq<Bound<P>>,
    fading: Seq<Fading>,
    now_us: u64,
    s: Scene<M>,
    n: nat,
)
    requires
        s.rendered.no_duplicates(),
    ensures
        fades_laid(host, pass, bound, fading, now_us, s, n).rendered.no_duplicates(),
    decreases n,
{
    if n > 0 {
        let m = (n - 1) as nat;
        lemma_fades_name_once(host, pass, bound, fading, now_us, s, m);
        if let Some(b) = first_bound(bound, fading[n - 1].source.id) {
            let id = b.source.id;
            lemma_named(fades_laid(host, pass, bound, fading, now_us, s, m).rendered, id, id);
        }
    }
}

/// Whether a program faults at one of a source's pixels, `c` being what it had painted
/// before.
pub open spec fn faults_at<M, P>(
    host: Host<M, P>,
    pass: Pass,
    b: Bound<P>,
    c: Canvas<M>,
    ordinal: int,
) -> bool {
    pass.reaches(b.membership.leds@[ordinal], c.out.len()) && ran(
        host,
        Some(c.machine),
        pixel_step(host, pass, b, c.history, ordinal),
    ).outcome is Err
}

/// A faulting source is reported, and once each time it is rendered: one rendering
/// adds one entry of its own to the faults, however many of its pixels fault, where its
/// once-a-frame part or some pixel of it does, and none where none does. What the frame
/// reported before stays, other faults of the same source too.
pub proof fn law_each_rendering_reports_its_fault_once<M, P>(
    host: Host<M, P>,
    pass: Pass,
    b: Bound<P>,
    alpha: Q16,
    s: Scene<M>,
)
    ensures
        ({
            let members = b.membership.leds@;
            let after = sourced(host, pass, b, alpha, s);
            let f = started(host, pass, b, s);
            let start = primed(f.machine, s);
            let faulty = pass.touches(members) && (f.outcome is Err || exists|i: int|
                0 <= i < members.len() && #[trigger] faults_at(
                    host,
                    pass,
                    b,
                    painted(host, pass, b, alpha, start, i as nat),
                    i,
                ));
            if faulty {
                &&& after.faults.len() == s.faults.len() + 1
                &&& after.faults.drop_last() == s.faults
                &&& after.faults.last()->source == b.source.id
            } else {
                after.faults == s.faults
            }
        }),
{
    let members = b.membership.leds@;
    let start = primed(started(host, pass, b, s).machine, s);
    lemma_first_fault(host, pass, b, alpha, start, members.len());
    let after = sourced(host, pass, b, alpha, s);
    if after.faults.len() > s.faults.len() {
        assert(after.faults.drop_last() =~= s.faults);
    }
}

/// A canvas has a fault exactly where one of its pixels faulted.
proof fn lemma_first_fault<M, P>(
    host: Host<M, P>,
    pass: Pass,
    b: Bound<P>,
    alpha: Q16,
    start: Canvas<M>,
    n: nat,
)
    requires
        start.fault is None,
    ensures
        painted(host, pass, b, alpha, start, n).fault is Some <==> exists|i: int|
            0 <= i < n && #[trigger] faults_at(
                host,
                pass,
                b,
                painted(host, pass, b, alpha, start, i as nat),
                i,
            ),
    decreases n,
{
    if n > 0 {
        let m = n - 1;
        lemma_first_fault(host, pass, b, alpha, start, m as nat);
        let c = painted(host, pass, b, alpha, start, m as nat);
        if faults_at(host, pass, b, c, m) {
            assert(painted(host, pass, b, alpha, start, n).fault is Some);
        }
    }
}

proof fn lemma_sourced_len<M, P>(host: Host<M, P>, pass: Pass, b: Bound<P>, alpha: Q16, s: Scene<M>)
    ensures
        sourced(host, pass, b, alpha, s).out.len() == s.out.len(),
{
    let f = started(host, pass, b, s);
    lemma_painted_len(
        host,
        pass,
        b,
        alpha,
        primed(f.machine, s),
        b.membership.leds@.len(),
    );
}

proof fn lemma_sources_len<M, P>(
    host: Host<M, P>,
    pass: Pass,
    layers: Seq<Bound<P>>,
    now_us: u64,
    s: Scene<M>,
    n: nat,
)
    ensures
        sources_laid(host, pass, layers, now_us, s, n).out.len() == s.out.len(),
    decreases n,
{
    if n > 0 {
        let m = (n - 1) as nat;
        let b = layers[n - 1];
        lemma_sources_len(host, pass, layers, now_us, s, m);
        lemma_sourced_len(
            host,
            pass,
            b,
            Q16(b.source.fade_in(now_us) as i32),
            sources_laid(host, pass, layers, now_us, s, m),
        );
    }
}

proof fn lemma_uncovered_sources<M, P>(
    host: Host<M, P>,
    pass: Pass,
    layers: Seq<Bound<P>>,
    now_us: u64,
    s: Scene<M>,
    from: nat,
    n: nat,
    at: int,
)
    requires
        from <= n <= layers.len(),
        0 <= at < s.out.len(),
        forall|k: int| from <= k < n ==> misses(#[trigger] layers[k], pass.shard.start() + at),
    ensures
        same_at(
            sources_laid(host, pass, layers, now_us, s, n),
            sources_laid(host, pass, layers, now_us, s, from),
            at,
        ),
    decreases n,
{
    if n > from {
        let m = (n - 1) as nat;
        let b = layers[n - 1];
        lemma_uncovered_sources(host, pass, layers, now_us, s, from, m, at);
        lemma_sources_len(host, pass, layers, now_us, s, m);
        lemma_uncovered_sourced(
            host,
            pass,
            b,
            Q16(b.source.fade_in(now_us) as i32),
            sources_laid(host, pass, layers, now_us, s, m),
            at,
        );
    }
}

proof fn lemma_uncovered_fades<M, P>(
    host: Host<M, P>,
    pass: Pass,
    bound: Seq<Bound<P>>,
    fading: Seq<Fading>,
    now_us: u64,
    s: Scene<M>,
    n: nat,
    at: int,
)
    requires
        n <= fading.len(),
        0 <= at < s.out.len(),
        fades_miss(bound, fading, pass.shard.start() + at),
    ensures
        same_at(fades_laid(host, pass, bound, fading, now_us, s, n), s, at),
    decreases n,
{
    if n > 0 {
        let m = (n - 1) as nat;
        lemma_uncovered_fades(host, pass, bound, fading, now_us, s, m, at);
        let left = 65_536 - fading[n - 1].faded(now_us);
        let before = fades_laid(host, pass, bound, fading, now_us, s, m);
        if let Some(b) = first_bound(bound, fading[n - 1].source.id) {
            lemma_uncovered_sourced(host, pass, b, Q16(left as i32), before, at);
        }
    }
}

/// A source whose pixels all fault leaves every pixel showing what was
/// underneath.
pub proof fn law_a_faulting_source_darkens_nothing<M, P>(
    host: Host<M, P>,
    pass: Pass,
    b: Bound<P>,
    alpha: Q16,
    s: Scene<M>,
)
    requires
        forall|m: M, step: Step<P>|
            step.work is Pixel && step.program == b.program ==> (#[trigger] ran(
            host,
                Some(m),
                step,
            )).outcome is Err,
    ensures
        sourced(host, pass, b, alpha, s).out == s.out,
        sourced(host, pass, b, alpha, s).history == s.history,
        sourced(host, pass, b, alpha, s).rendered == s.rendered,
        sourced(host, pass, b, alpha, s).faults.len() <= s.faults.len() + 1,
{
    let f = started(host, pass, b, s);
    lemma_faulty_painted(
        host,
        pass,
        b,
        alpha,
        primed(f.machine, s),
        b.membership.leds@.len(),
    );
}

proof fn lemma_faulty_painted<M, P>(
    host: Host<M, P>,
    pass: Pass,
    b: Bound<P>,
    alpha: Q16,
    start: Canvas<M>,
    n: nat,
)
    requires
        forall|m: M, step: Step<P>|
            step.work is Pixel && step.program == b.program ==> (#[trigger] ran(
            host,
                Some(m),
                step,
            )).outcome is Err,
        !start.contributed,
    ensures
        ({
            let c = painted(host, pass, b, alpha, start, n);
            c.out == start.out && c.history == start.history && !c.contributed
        }),
    decreases n,
{
    if n > 0 {
        lemma_faulty_painted(host, pass, b, alpha, start, (n - 1) as nat);
    }
}

/// Each source keeps its own trails: rendering one changes those of no other, nor
/// any other's machine.
pub proof fn law_sources_keep_their_own_state<M, P>(
    host: Host<M, P>,
    pass: Pass,
    b: Bound<P>,
    alpha: Q16,
    s: Scene<M>,
    other: Uuid,
    led: u16,
)
    requires
        other != b.source.id,
    ensures
        trail_of(sourced(host, pass, b, alpha, s).history, other, led) == trail_of(
            s.history,
            other,
            led,
        ),
        machine_of(sourced(host, pass, b, alpha, s).machines, other) == machine_of(
            s.machines,
            other,
        ),
{
    let f = started(host, pass, b, s);
    lemma_own_trails_painted(
        host,
        pass,
        b,
        alpha,
        primed(f.machine, s),
        b.membership.leds@.len(),
        other,
        led,
    );
}

proof fn lemma_own_trails_painted<M, P>(
    host: Host<M, P>,
    pass: Pass,
    b: Bound<P>,
    alpha: Q16,
    start: Canvas<M>,
    n: nat,
    other: Uuid,
    led: u16,
)
    requires
        other != b.source.id,
    ensures
        trail_of(painted(host, pass, b, alpha, start, n).history, other, led) == trail_of(
            start.history,
            other,
            led,
        ),
    decreases n,
{
    if n > 0 {
        lemma_own_trails_painted(host, pass, b, alpha, start, (n - 1) as nat, other, led);
    }
}

/// `dt` is the gap between frames, never the clock and never negative.
pub proof fn law_dt_is_the_gap_between_frames(last: Option<Q16>, t: Q16)
    ensures
        elapsed(last, t).0 >= 0,
        last is None ==> elapsed(last, t) == Q16::zero(),
        last matches Some(l) && t.0 < l.0 ==> elapsed(last, t) == Q16::zero(),
        last matches Some(l) ==> (0 <= l.0 <= t.0 ==> elapsed(last, t).0 == t.0 - l.0),
{
}

/// What a program is told of one LED: where it is in the world and on its device, its
/// number, how many the zone has, where the projection puts it, and what the program left
/// there last.
pub open spec fn told_of<M, P>(
    host: Host<M, P>,
    b: Bound<P>,
    led: Led,
    ordinal: u16,
    prev: [Q16; 3],
) -> PixelInputs {
    let at = (host.place)(b.projection, led, b.membership.bounds, ordinal);
    let whole = |n: u16|
        Q16(
            (65_536 * if n < 32_768 {
                n as int
            } else {
                n - 65_536
            }) as i32,
        );
    PixelInputs {
        x: led.world[0],
        y: led.world[1],
        z: led.world[2],
        lx: led.local[0],
        ly: led.local[1],
        lz: led.local[2],
        index: whole(led.index),
        count: whole(b.membership.bounds.count),
        u: at.u,
        uv_x: if at.uv is Some {
            let (u, _v) = at.uv->0;
            u
        } else {
            Q16(0)
        },
        uv_y: if at.uv is Some {
            let (_u, v) = at.uv->0;
            v
        } else {
            Q16(0)
        },
        prev,
    }
}

/// Whether a source's program, started at show time `t` and `dt` after the last frame,
/// is then ready for its pixels and stays so, each part within its own allowance.
pub open spec fn gets_ready<M, P>(
    host: Host<M, P>,
    b: Bound<P>,
    t: Q16,
    dt: Q16,
    ready: spec_fn(M) -> bool,
) -> bool {
    &&& forall|m: Option<M>, step: Step<P>|
        step.program == b.program && step.budget == granted(b.frame_cost) && step.work
            == (Work::Frame { t, dt }) ==> (#[trigger] (host.run)(m, step)).outcome is Ok && ready(
            (host.run)(m, step).machine,
        )
    &&& forall|m: M, step: Step<P>|
        step.program == b.program && step.budget == granted(b.budget) && step.work is Pixel
            && ready(m) ==> ready((#[trigger] (host.run)(Some(m), step)).machine)
}

/// What a program may spend: what it said it costs, and something where it said nothing.
pub open spec fn granted(cost: u32) -> int {
    if cost > 0 {
        cost as int
    } else {
        1
    }
}

/// Whether a program that is ready answers what it is told of a pixel with this colour,
/// and leaves this for the next frame.
pub open spec fn answers_with<M, P>(
    host: Host<M, P>,
    b: Bound<P>,
    told: PixelInputs,
    ready: spec_fn(M) -> bool,
    over: Rgb,
    left: [Q16; 3],
) -> bool {
    forall|m: M, step: Step<P>|
        step.program == b.program && step.budget == granted(b.budget) && step.work == Work::Pixel(
            told,
        ) && ready(m) ==> {
            &&& (#[trigger] (host.run)(Some(m), step)).outcome == Ok::<PixelOutput, Fault>(
                PixelOutput::Rgb { r: over.r, g: over.g, b: over.b },
            )
            &&& (host.run)(Some(m), step).prev == left
        }
}

/// Whether a source covers one LED of a shard, once.
pub open spec fn covers_once<P>(b: Bound<P>, leds: Seq<Led>, led: Led, ordinal: u16) -> bool {
    let members = b.membership.leds@;
    &&& ordinal < members.len()
    &&& members[ordinal as int] == led.index
    &&& forall|k: int|
        0 <= k < members.len() && k != ordinal ==> #[trigger] members[k] != led.index
    &&& led_numbered(leds, led.index) == Some(led)
}

/// A colour at a weight over another: itself at full weight, else the mix of the two.
pub open spec fn weighed<M, P>(host: Host<M, P>, under: Rgb, over: Rgb, weight: int) -> Rgb {
    if weight >= 65_536 {
        over
    } else {
        (host.mix)(under, over, Q16(weight as i32))
    }
}

/// What one source makes of a scene at an LED it covers.
proof fn lemma_shows<M, P>(
    host: Host<M, P>,
    pass: Pass,
    b: Bound<P>,
    alpha: Q16,
    s: Scene<M>,
    led: Led,
    ordinal: u16,
    at: int,
    ready: spec_fn(M) -> bool,
    over: Rgb,
    left: [Q16; 3],
)
    requires
        covers_once(b, pass.leds, led, ordinal),
        0 <= at < s.out.len(),
        at < pass.shard.size(),
        pass.shard.start() + at == led.index,
        gets_ready(host, b, pass.t, pass.dt, ready),
        answers_with(
            host,
            b,
            told_of(host, b, led, ordinal, trail_of(s.history, b.source.id, led.index)),
            ready,
            over,
            left,
        ),
    ensures
        ({
            let after = sourced(host, pass, b, alpha, s);
            &&& after.out.len() == s.out.len()
            &&& after.out[at] == weighed(host, s.out[at], over, alpha.0 as int)
            &&& trail_of(after.history, b.source.id, led.index) == left
            &&& after.rendered.contains(b.source.id)
        }),
{
    let members = b.membership.leds@;
    let n = members.len();
    let f = started(host, pass, b, s);
    let start = primed(f.machine, s);
    assert(members[ordinal as int] == led.index);
    assert(pass.shard.owns(members[ordinal as int] as int));
    assert(f.outcome is Ok && ready(f.machine));
    lemma_ready(host, pass, b, alpha, start, ordinal as nat, ready);
    lemma_ready(host, pass, b, alpha, start, (ordinal + 1) as nat, ready);
    lemma_untold(host, pass, b, alpha, start, 0, ordinal as nat, led.index, at);
    lemma_untold(host, pass, b, alpha, start, (ordinal + 1) as nat, n, led.index, at);
    let c = painted(host, pass, b, alpha, start, ordinal as nat);
    lemma_painted_len(host, pass, b, alpha, start, ordinal as nat);
    assert(pass.reaches(led.index, c.out.len()));
    let step = pixel_step(host, pass, b, c.history, ordinal as int);
    lemma_signed(led.index);
    lemma_signed(b.membership.bounds.count);
    assert(step.work == Work::Pixel(
        told_of(host, b, led, ordinal, trail_of(s.history, b.source.id, led.index)),
    ));
    let r = (host.run)(Some(c.machine), step);
    assert(r.outcome is Ok && r.prev == left);
    let d = painted(host, pass, b, alpha, start, (ordinal + 1) as nat);
    assert(d.contributed);
    lemma_contributed_stays(host, pass, b, alpha, start, (ordinal + 1) as nat, n);
    lemma_named(s.rendered, b.source.id, b.source.id);
}

/// A number of sixteen bits, read with a sign.
proof fn lemma_signed(n: u16)
    ensures
        (n as i16) as int == if n < 32_768 {
            n as int
        } else {
            n - 65_536
        },
{
    assert(n < 32_768 ==> (n as i16) as i32 == n as i32) by (bit_vector);
    assert(n >= 32_768 ==> (n as i16) as i32 + 65_536i32 == n as i32) by (bit_vector);
}

/// A program that is ready stays so over its pixels.
proof fn lemma_ready<M, P>(
    host: Host<M, P>,
    pass: Pass,
    b: Bound<P>,
    alpha: Q16,
    start: Canvas<M>,
    n: nat,
    ready: spec_fn(M) -> bool,
)
    requires
        gets_ready(host, b, pass.t, pass.dt, ready),
        ready(start.machine),
    ensures
        ready(painted(host, pass, b, alpha, start, n).machine),
    decreases n,
{
    if n > 0 {
        let m = (n - 1) as nat;
        lemma_ready(host, pass, b, alpha, start, m, ready);
        let c = painted(host, pass, b, alpha, start, m);
        let step = pixel_step(host, pass, b, c.history, n - 1);
        assert(step.work is Pixel);
        assert(ready((host.run)(Some(c.machine), step).machine));
    }
}

/// Pixels of other LEDs change neither this one nor its trail.
proof fn lemma_untold<M, P>(
    host: Host<M, P>,
    pass: Pass,
    b: Bound<P>,
    alpha: Q16,
    start: Canvas<M>,
    from: nat,
    n: nat,
    index: u16,
    at: int,
)
    requires
        from <= n <= b.membership.leds@.len(),
        0 <= at < start.out.len(),
        pass.shard.start() + at == index,
        forall|k: int| from <= k < n ==> #[trigger] b.membership.leds@[k] != index,
    ensures
        ({
            let (c, d) = (
                painted(host, pass, b, alpha, start, from),
                painted(host, pass, b, alpha, start, n),
            );
            &&& d.out.len() == start.out.len()
            &&& d.out[at] == c.out[at]
            &&& trail_of(d.history, b.source.id, index) == trail_of(
                c.history,
                b.source.id,
                index,
            )
        }),
    decreases n,
{
    lemma_painted_len(host, pass, b, alpha, start, n);
    if n > from {
        lemma_untold(host, pass, b, alpha, start, from, (n - 1) as nat, index, at);
        lemma_painted_len(host, pass, b, alpha, start, (n - 1) as nat);
        assert(b.membership.leds@[n - 1] != index);
    }
}

/// What was contributed stays so.
proof fn lemma_contributed_stays<M, P>(
    host: Host<M, P>,
    pass: Pass,
    b: Bound<P>,
    alpha: Q16,
    start: Canvas<M>,
    from: nat,
    n: nat,
)
    requires
        from <= n,
        painted(host, pass, b, alpha, start, from).contributed,
    ensures
        painted(host, pass, b, alpha, start, n).contributed,
    decreases n,
{
    if n > from {
        lemma_contributed_stays(host, pass, b, alpha, start, from, (n - 1) as nat);
    }
}

/// Other sources leave a source's trails alone.
proof fn lemma_trail_survives_sources<M, P>(
    host: Host<M, P>,
    pass: Pass,
    layers: Seq<Bound<P>>,
    now_us: u64,
    s: Scene<M>,
    n: nat,
    id: Uuid,
    index: u16,
)
    requires
        n <= layers.len(),
        forall|k: int| 0 <= k < n ==> (#[trigger] layers[k]).source.id != id,
    ensures
        trail_of(sources_laid(host, pass, layers, now_us, s, n).history, id, index) == trail_of(
            s.history,
            id,
            index,
        ),
        machine_of(sources_laid(host, pass, layers, now_us, s, n).machines, id) == machine_of(
            s.machines,
            id,
        ),
    decreases n,
{
    if n > 0 {
        let m = (n - 1) as nat;
        lemma_trail_survives_sources(host, pass, layers, now_us, s, m, id, index);
        let b = layers[n - 1];
        law_sources_keep_their_own_state(
            host,
            pass,
            b,
            Q16(b.source.fade_in(now_us) as i32),
            sources_laid(host, pass, layers, now_us, s, m),
            id,
            index,
        );
    }
}

proof fn lemma_trail_survives_fades<M, P>(
    host: Host<M, P>,
    pass: Pass,
    bound: Seq<Bound<P>>,
    fading: Seq<Fading>,
    now_us: u64,
    s: Scene<M>,
    n: nat,
    id: Uuid,
    index: u16,
)
    requires
        n <= fading.len(),
        forall|k: int| 0 <= k < n ==> (#[trigger] fading[k]).source.id != id,
    ensures
        trail_of(fades_laid(host, pass, bound, fading, now_us, s, n).history, id, index)
            == trail_of(s.history, id, index),
    decreases n,
{
    if n > 0 {
        let m = (n - 1) as nat;
        lemma_trail_survives_fades(host, pass, bound, fading, now_us, s, m, id, index);
        assert(fading[n - 1].source.id != id);
        lemma_found_bound(bound, fading[n - 1].source.id);
        if let Some(b) = first_bound(bound, fading[n - 1].source.id) {
            let left = 65_536 - fading[n - 1].faded(now_us);
            law_sources_keep_their_own_state(
                host,
                pass,
                b,
                Q16(left as i32),
                fades_laid(host, pass, bound, fading, now_us, s, m),
                id,
                index,
            );
        }
    }
}

/// The gap between two frames: nothing at first, nor across a wrap of the show clock.
pub open spec fn gap(last: Option<Q16>, t: Q16) -> Q16 {
    match last {
        None => Q16(0),
        Some(before) => if t.0 < before.0 || t.0 - before.0 > 0x7fff_ffff {
            Q16(0)
        } else {
            Q16((t.0 - before.0) as i32)
        },
    }
}

/// What is drawn, where every LED is looked at by its number.
///
/// A pixel shows what the highest source that covers it makes of it. That source's
/// program is started with the frame's own show time and the time since the last frame,
/// is told of the LED what [`told_of`] says, and what it answers is laid, at the weight
/// that the source has faded in to, over what the frame would show without it. What it
/// left is there for it in the next frame, and the report names it.
pub proof fn law_a_pixel_shows_what_the_highest_source_makes_of_it<M, P>(
    renderer: RendererModel<M>,
    host: Host<M, P>,
    now_us: u64,
    t: Q16,
    leds: Seq<Led>,
    admitted: Seq<Uuid>,
    fading: Seq<Fading>,
    bound: Seq<Bound<P>>,
    out: Seq<Rgb>,
    shard: Shard,
    b: Bound<P>,
    others: Seq<Bound<P>>,
    led: Led,
    ordinal: u16,
    at: int,
    weight: int,
    ready: spec_fn(M) -> bool,
    over: Rgb,
    left: [Q16; 3],
)
    requires
        bound == others.push(b),
        apart(bound),
        admitted.contains(b.source.id),
        forall|k: int|
            0 <= k < others.len() && admitted.contains((#[trigger] others[k]).source.id)
                ==> b.source.ahead_of(others[k].source),
        fades_miss(bound, fading, led.index as int),
        // How much of it has faded in.
        ({
            let span = b.source.fade_in_ms * 1_000;
            let since = if now_us > b.source.pushed_at_us {
                now_us - b.source.pushed_at_us
            } else {
                0
            };
            &&& 0 < weight <= 65_536
            &&& since >= span ==> weight == 65_536
            &&& since < span ==> weight == since * 65_536 / span
        }),
        covers_once(b, leds, led, ordinal),
        0 <= at < out.len(),
        at < shard.size(),
        shard.start() + at == led.index,
        gets_ready(host, b, t, gap(renderer.last_t, t), ready),
        answers_with(
            host,
            b,
            told_of(host, b, led, ordinal, trail_of(renderer.history, b.source.id, led.index)),
            ready,
            over,
            left,
        ),
    ensures
        ({
            let with = renderer.frame(
                host,
                now_us,
                t,
                leds,
                admitted,
                fading,
                bound,
                out,
                shard,
            );
            let without = renderer.frame(
                host,
                now_us,
                t,
                leds,
                admitted,
                Seq::empty(),
                others,
                out,
                shard,
            );
            &&& with.out.len() == out.len()
            &&& with.out[at] == weighed(host, without.out[at], over, weight)
            &&& with.rendered.contains(b.source.id)
            &&& forall|k: int| 0 <= k < fading.len() ==> (#[trigger] fading[k]).source.id
                != b.source.id
            &&& trail_of(with.history, b.source.id, led.index) == left
        }),
{
    let layers = bottom_up(bound, admitted);
    let under = bottom_up(others, admitted);
    let id = b.source.id;
    assert(bound.drop_last() =~= others);
    assert(bound.last() == b);
    law_the_order_goes_up(others, admitted);
    law_the_order_goes_up(bound, admitted);
    assert forall|i: int| 0 <= i < under.len() implies !(#[trigger] under[i]).source.ahead_of(
        b.source,
    ) && under[i].source.id != id by {
        assert(under.contains(under[i]));
        let k = others.index_of(under[i]);
        assert(others[k] == under[i]);
        assert(bound[k].source.id != bound[others.len() as int].source.id);
        law_order_is_total(b.source, under[i].source, b.source);
    }
    assert(layers =~= under.push(b)) by {
        lemma_filter_all(under, |x: Bound<P>| !x.source.ahead_of(b.source));
        lemma_filter_none(under, |x: Bound<P>| x.source.ahead_of(b.source));
    }
    let pass = renderer.pass(t, leds, shard);
    assert(pass.dt == gap(renderer.last_t, t));
    let start = renderer.blank(out);
    let n = under.len();
    lemma_sources_prefix(host, pass, layers, under, now_us, start, n);
    let below = sources_laid(host, pass, under, now_us, start, n);
    lemma_sources_len(host, pass, under, now_us, start, n);
    lemma_trail_survives_sources(host, pass, under, now_us, start, n, id, led.index);
    let alpha = b.source.fade_in(now_us);
    assert(alpha == weight);
    lemma_shows(
        host,
        pass,
        b,
        Q16(weight as i32),
        below,
        led,
        ordinal,
        at,
        ready,
        over,
        left,
    );
    let laid = sources_laid(host, pass, layers, now_us, start, (n + 1) as nat);
    assert(laid == sourced(host, pass, b, Q16(weight as i32), below));
    // No fade is of this source: it would cover the LED.
    assert forall|k: int| 0 <= k < fading.len() implies (#[trigger] fading[k]).source.id != id by {
        if fading[k].source.id == id {
            lemma_found_bound(bound, id);
            let found = first_bound(bound, id);
            assert(bound.contains(b)) by {
                assert(bound[others.len() as int] == b);
            }
            let x = found->0;
            let i = bound.index_of(x);
            assert(bound[i].source.id == bound[others.len() as int].source.id);
            assert(i == others.len());
            assert(b.membership.leds@[ordinal as int] == led.index);
            assert(misses(x, led.index as int));
        }
    }
    lemma_uncovered_fades(host, pass, bound, fading, now_us, laid, fading.len(), at);
    lemma_trail_survives_fades(
        host,
        pass,
        bound,
        fading,
        now_us,
        laid,
        fading.len(),
        id,
        led.index,
    );
    lemma_fades_keep_names(host, pass, bound, fading, now_us, laid, fading.len(), id);
}

/// The same layers below, the same scene.
proof fn lemma_sources_prefix<M, P>(
    host: Host<M, P>,
    pass: Pass,
    layers: Seq<Bound<P>>,
    under: Seq<Bound<P>>,
    now_us: u64,
    s: Scene<M>,
    n: nat,
)
    requires
        n <= under.len() <= layers.len(),
        forall|k: int| 0 <= k < n ==> layers[k] == #[trigger] under[k],
    ensures
        sources_laid(host, pass, layers, now_us, s, n) == sources_laid(
            host,
            pass,
            under,
            now_us,
            s,
            n,
        ),
    decreases n,
{
    if n > 0 {
        lemma_sources_prefix(host, pass, layers, under, now_us, s, (n - 1) as nat);
        assert(layers[n - 1] == under[n - 1]);
    }
}

/// Who was named stays named.
proof fn lemma_fades_keep_names<M, P>(
    host: Host<M, P>,
    pass: Pass,
    bound: Seq<Bound<P>>,
    fading: Seq<Fading>,
    now_us: u64,
    s: Scene<M>,
    n: nat,
    id: Uuid,
)
    requires
        s.rendered.contains(id),
    ensures
        fades_laid(host, pass, bound, fading, now_us, s, n).rendered.contains(id),
    decreases n,
{
    if n > 0 {
        lemma_fades_keep_names(host, pass, bound, fading, now_us, s, (n - 1) as nat, id);
        let before = fades_laid(host, pass, bound, fading, now_us, s, (n - 1) as nat);
        if let Some(b) = first_bound(bound, fading[n - 1].source.id) {
            lemma_named(before.rendered, b.source.id, id);
        }
    }
}

/// A source on its way out is laid over everything else by what is left of it: over what
/// the frame would show without that fade, it shows less as its time out passes. Its
/// program runs as when it was in, with the frame's own show time.
pub proof fn law_a_fade_is_laid_over_by_what_is_left<M, P>(
    renderer: RendererModel<M>,
    host: Host<M, P>,
    now_us: u64,
    t: Q16,
    leds: Seq<Led>,
    admitted: Seq<Uuid>,
    fading: Seq<Fading>,
    bound: Seq<Bound<P>>,
    out: Seq<Rgb>,
    shard: Shard,
    b: Bound<P>,
    led: Led,
    ordinal: u16,
    at: int,
    weight: int,
    ready: spec_fn(M) -> bool,
    over: Rgb,
    left: [Q16; 3],
)
    requires
        fading.len() > 0,
        fading.last().source.id == b.source.id,
        forall|k: int|
            0 <= k < fading.len() - 1 ==> (#[trigger] fading[k]).source.id != b.source.id,
        bound.contains(b),
        apart(bound),
        !admitted.contains(b.source.id),
        // What is left of it.
        ({
            let gone = fading.last();
            let span = gone.source.fade_out_ms * 1_000;
            let since = if now_us > gone.started_at_us {
                now_us - gone.started_at_us
            } else {
                0
            };
            since < span && weight == 65_536 - since * 65_536 / span
        }),
        covers_once(b, leds, led, ordinal),
        0 <= at < out.len(),
        at < shard.size(),
        shard.start() + at == led.index,
        gets_ready(host, b, t, gap(renderer.last_t, t), ready),
        answers_with(
            host,
            b,
            told_of(host, b, led, ordinal, trail_of(renderer.history, b.source.id, led.index)),
            ready,
            over,
            left,
        ),
    ensures
        ({
            let with = renderer.frame(
                host,
                now_us,
                t,
                leds,
                admitted,
                fading,
                bound,
                out,
                shard,
            );
            let without = renderer.frame(
                host,
                now_us,
                t,
                leds,
                admitted,
                fading.drop_last(),
                bound,
                out,
                shard,
            );
            &&& 0 < weight <= 65_536
            &&& with.out.len() == out.len()
            &&& with.out[at] == weighed(host, without.out[at], over, weight)
            &&& with.rendered.contains(b.source.id)
            &&& trail_of(with.history, b.source.id, led.index) == left
        }),
{
    let layers = bottom_up(bound, admitted);
    let id = b.source.id;
    law_the_order_goes_up(bound, admitted);
    let pass = renderer.pass(t, leds, shard);
    assert(pass.dt == gap(renderer.last_t, t));
    let start = renderer.blank(out);
    assert forall|k: int| 0 <= k < layers.len() implies (#[trigger] layers[k]).source.id != id by {
        assert(layers.contains(layers[k]));
    }
    lemma_trail_survives_sources(host, pass, layers, now_us, start, layers.len(), id, led.index);
    lemma_sources_len(host, pass, layers, now_us, start, layers.len());
    let laid = sources_laid(host, pass, layers, now_us, start, layers.len());
    let fewer = fading.drop_last();
    let m = fewer.len();
    lemma_trail_survives_fades(host, pass, bound, fading, now_us, laid, m, id, led.index);
    lemma_fades_prefix(host, pass, bound, fading, fewer, now_us, laid, m);
    lemma_fades_len(host, pass, bound, fading, now_us, laid, m);
    let below = fades_laid(host, pass, bound, fading, now_us, laid, m);
    lemma_found_bound(bound, id);
    let x = first_bound(bound, id)->0;
    let (i, j) = (bound.index_of(x), bound.index_of(b));
    assert(i == j);
    let gone = fading.last();
    law_fades_run_one_way(
        past(now_us as int, gone.started_at_us as int),
        past(now_us as int, gone.started_at_us as int),
        gone.source.fade_out_ms * 1_000,
    );
    assert(weight == 65_536 - gone.faded(now_us));
    lemma_shows(
        host,
        pass,
        b,
        Q16(weight as i32),
        below,
        led,
        ordinal,
        at,
        ready,
        over,
        left,
    );
}

proof fn lemma_fades_prefix<M, P>(
    host: Host<M, P>,
    pass: Pass,
    bound: Seq<Bound<P>>,
    fading: Seq<Fading>,
    fewer: Seq<Fading>,
    now_us: u64,
    s: Scene<M>,
    n: nat,
)
    requires
        n <= fewer.len() <= fading.len(),
        forall|k: int| 0 <= k < n ==> fading[k] == #[trigger] fewer[k],
    ensures
        fades_laid(host, pass, bound, fading, now_us, s, n) == fades_laid(
            host,
            pass,
            bound,
            fewer,
            now_us,
            s,
            n,
        ),
    decreases n,
{
    if n > 0 {
        lemma_fades_prefix(host, pass, bound, fading, fewer, now_us, s, (n - 1) as nat);
        assert(fading[n - 1] == fewer[n - 1]);
    }
}

proof fn lemma_fades_len<M, P>(
    host: Host<M, P>,
    pass: Pass,
    bound: Seq<Bound<P>>,
    fading: Seq<Fading>,
    now_us: u64,
    s: Scene<M>,
    n: nat,
)
    ensures
        fades_laid(host, pass, bound, fading, now_us, s, n).out.len() == s.out.len(),
    decreases n,
{
    if n > 0 {
        let m = (n - 1) as nat;
        let before = fades_laid(host, pass, bound, fading, now_us, s, m);
        lemma_fades_len(host, pass, bound, fading, now_us, s, m);
        if let Some(b) = first_bound(bound, fading[n - 1].source.id) {
            let left = 65_536 - fading[n - 1].faded(now_us);
            lemma_sourced_len(host, pass, b, Q16(left as i32), before);
        }
    }
}

/// A source of which nothing shows yet, or whose fade is over, is as if it was not there.
pub proof fn law_what_does_not_show_does_not_run<M, P>(
    renderer: RendererModel<M>,
    host: Host<M, P>,
    now_us: u64,
    t: Q16,
    leds: Seq<Led>,
    admitted: Seq<Uuid>,
    fading: Seq<Fading>,
    bound: Seq<Bound<P>>,
    out: Seq<Rgb>,
    shard: Shard,
    b: Bound<P>,
    others: Seq<Bound<P>>,
)
    requires
        bound == others.push(b),
        apart(bound),
    ensures
        !admitted.contains(b.source.id) || now_us <= b.source.pushed_at_us && b.source.fade_in_ms
            > 0 && (forall|k: int|
            0 <= k < others.len() && admitted.contains((#[trigger] others[k]).source.id)
                ==> b.source.ahead_of(others[k].source)) ==> renderer.frame(
            host,
            now_us,
            t,
            leds,
            admitted,
            Seq::empty(),
            bound,
            out,
            shard,
        ) == renderer.frame(
            host,
            now_us,
            t,
            leds,
            admitted,
            Seq::empty(),
            others,
            out,
            shard,
        ),
        fading.len() > 0 && now_us >= fading.last().started_at_us + fading.last().source.fade_out_ms
            * 1_000 ==> renderer.frame(
            host,
            now_us,
            t,
            leds,
            admitted,
            fading,
            bound,
            out,
            shard,
        ) == renderer.frame(
            host,
            now_us,
            t,
            leds,
            admitted,
            fading.drop_last(),
            bound,
            out,
            shard,
        ),
{
    let layers = bottom_up(bound, admitted);
    let under = bottom_up(others, admitted);
    assert(bound.drop_last() =~= others);
    let pass = renderer.pass(t, leds, shard);
    let start = renderer.blank(out);
    let n = under.len();
    if !admitted.contains(b.source.id) {
        assert(layers == under);
    } else if now_us <= b.source.pushed_at_us && b.source.fade_in_ms > 0 && (forall|k: int|
        0 <= k < others.len() && admitted.contains((#[trigger] others[k]).source.id)
            ==> b.source.ahead_of(others[k].source)) {
        law_the_order_goes_up(others, admitted);
        assert forall|i: int| 0 <= i < under.len() implies !(#[trigger] under[i]).source.ahead_of(
            b.source,
        ) by {
            assert(under.contains(under[i]));
            let k = others.index_of(under[i]);
            assert(others[k] == under[i]);
            law_order_is_total(b.source, under[i].source, b.source);
        }
        lemma_filter_all(under, |x: Bound<P>| !x.source.ahead_of(b.source));
        lemma_filter_none(under, |x: Bound<P>| x.source.ahead_of(b.source));
        assert(layers =~= under.push(b));
        lemma_sources_prefix(host, pass, layers, under, now_us, start, n);
        assert(b.source.fade_in(now_us) == 0) by {
            let span = b.source.fade_in_ms * 1_000;
            assert(0int * 65_536 / span == 0) by (nonlinear_arith)
                requires
                    span > 0,
            ;
        }
    }
    if fading.len() > 0 {
        let all = sources_laid(host, pass, layers, now_us, start, layers.len());
        let fewer = fading.drop_last();
        lemma_fades_prefix(host, pass, bound, fading, fewer, now_us, all, fewer.len());
    }
}

/// A source's machine is its own and goes on from frame to frame: what it was at the end
/// of the last one is what the once-a-frame part starts from, and where pixels leave it
/// alone what that part made of it is what is kept.
pub proof fn law_a_machine_goes_on_from_frame_to_frame<M, P>(
    renderer: RendererModel<M>,
    host: Host<M, P>,
    now_us: u64,
    t: Q16,
    leds: Seq<Led>,
    admitted: Seq<Uuid>,
    b: Bound<P>,
    out: Seq<Rgb>,
    shard: Shard,
    next: M,
)
    requires
        admitted.contains(b.source.id),
        now_us >= b.source.pushed_at_us + b.source.fade_in_ms * 1_000,
        exists|i: int|
            0 <= i < b.membership.leds@.len() && shard.owns(
                #[trigger] b.membership.leds@[i] as int,
            ),
        ({
            let r = (host.run)(
                if renderer.machines.dom().contains(b.source.id) {
                    Some(renderer.machines[b.source.id])
                } else {
                    None
                },
                Step {
                    program: b.program,
                    budget: if b.frame_cost == 0 {
                        1
                    } else {
                        b.frame_cost
                    },
                    work: Work::Frame { t, dt: gap(renderer.last_t, t) },
                },
            );
            r.machine == next
        }),
        forall|m: M, step: Step<P>|
            step.work is Pixel ==> (#[trigger] (host.run)(Some(m), step)).machine == m,
    ensures
        ({
            let frame = renderer.frame(
                host,
                now_us,
                t,
                leds,
                admitted,
                Seq::empty(),
                seq![b],
                out,
                shard,
            );
            frame.machines.dom().contains(b.source.id) && frame.machines[b.source.id] == next
        }),
{
    let bound = seq![b];
    let layers = bottom_up(bound, admitted);
    assert(bound.drop_last() =~= Seq::<Bound<P>>::empty());
    assert(bound.last() == b);
    reveal(Seq::filter);
    assert(bottom_up(bound.drop_last(), admitted) =~= Seq::<Bound<P>>::empty());
    assert(layers =~= bound);
    let pass = renderer.pass(t, leds, shard);
    let start = renderer.blank(out);
    assert(pass.dt == gap(renderer.last_t, t));
    assert(pass.touches(b.membership.leds@));
    lemma_machine_stays(
        host,
        pass,
        b,
        Q16(65_536),
        primed(next, start),
        b.membership.leds@.len(),
    );
    reveal_with_fuel(sources_laid, 2);
}

proof fn lemma_machine_stays<M, P>(
    host: Host<M, P>,
    pass: Pass,
    b: Bound<P>,
    alpha: Q16,
    start: Canvas<M>,
    n: nat,
)
    requires
        forall|m: M, step: Step<P>|
            step.work is Pixel ==> (#[trigger] (host.run)(Some(m), step)).machine == m,
    ensures
        painted(host, pass, b, alpha, start, n).machine == start.machine,
    decreases n,
{
    if n > 0 {
        lemma_machine_stays(host, pass, b, alpha, start, (n - 1) as nat);
    }
}

/// What a rendering costs: its once-a-frame part and each pixel it ran, added up, whether
/// the pixel faulted or not.
pub proof fn law_what_a_rendering_costs<M, P>(
    host: Host<M, P>,
    pass: Pass,
    b: Bound<P>,
    alpha: Q16,
    s: Scene<M>,
    once: u32,
    each: u32,
)
    requires
        b.membership.leds@.len() > 0,
        forall|i: int|
            0 <= i < b.membership.leds@.len() ==> pass.reaches(
                #[trigger] b.membership.leds@[i],
                s.out.len(),
            ),
        forall|m: Option<M>, step: Step<P>|
            {
                let r = #[trigger] (host.run)(m, step);
                &&& step.work is Frame ==> r.outcome is Ok && r.spent == once
                &&& step.work is Pixel ==> r.spent == each
            },
        0 <= s.spent,
        s.spent + once + each * b.membership.leds@.len() <= u32::MAX,
    ensures
        sourced(host, pass, b, alpha, s).spent == s.spent + once + each
            * b.membership.leds@.len(),
{
    let n = b.membership.leds@.len();
    assert(pass.reaches(b.membership.leds@[0], s.out.len()));
    let f = started(host, pass, b, s);
    lemma_each_costs(host, pass, b, alpha, primed(f.machine, s), once, each, n);
    assert(0 <= each * n) by (nonlinear_arith);
}

proof fn lemma_each_costs<M, P>(
    host: Host<M, P>,
    pass: Pass,
    b: Bound<P>,
    alpha: Q16,
    start: Canvas<M>,
    once: u32,
    each: u32,
    n: nat,
)
    requires
        n <= b.membership.leds@.len(),
        forall|i: int|
            0 <= i < b.membership.leds@.len() ==> pass.reaches(
                #[trigger] b.membership.leds@[i],
                start.out.len(),
            ),
        forall|m: Option<M>, step: Step<P>|
            {
                let r = #[trigger] (host.run)(m, step);
                &&& step.work is Frame ==> r.outcome is Ok && r.spent == once
                &&& step.work is Pixel ==> r.spent == each
            },
        start.spent == 0,
        each * n <= u32::MAX,
    ensures
        painted(host, pass, b, alpha, start, n).spent == each * n,
    decreases n,
{
    if n > 0 {
        let m = (n - 1) as nat;
        assert(each * n == each * m + each && 0 <= each * m) by (nonlinear_arith)
            requires
                n == m + 1,
        ;
        lemma_each_costs(host, pass, b, alpha, start, once, each, m);
        lemma_painted_len(host, pass, b, alpha, start, m);
        assert(pass.reaches(b.membership.leds@[n - 1], start.out.len()));
    } else {
        assert(each * 0 == 0);
    }
}

/// A colour is taken as it is, without its white; what is no colour shows nothing. A mix
/// goes from one colour to the other channel by channel.
pub proof fn law_what_a_colour_is<U: Fn(Op, Q16, Q16, Q16) -> Q16>(
    unit: &U,
    r: Q16,
    g: Q16,
    b: Q16,
    w: Q16,
    from: Rgb,
    to: Rgb,
    t: Q16,
)
    ensures
        colour(PixelOutput::Rgb { r, g, b }) == Some(Rgb { r, g, b }),
        colour(PixelOutput::Rgbw { r, g, b, w }) == Some(Rgb { r, g, b }),
        colour(PixelOutput::Nothing) is None,
        mixed(unit, from, to, t).r == between(unit, from.r, to.r, t),
        mixed(unit, from, to, t).g == between(unit, from.g, to.g, t),
        mixed(unit, from, to, t).b == between(unit, from.b, to.b, t),
{
}

/// What is outside is asked as it stands: the arithmetic places LEDs and mixes colours,
/// and the machine runs steps.
pub proof fn law_the_host_is_what_was_handed_in<
    M,
    P,
    U: Fn(Op, Q16, Q16, Q16) -> Q16,
    F: Fn(Option<M>, Step<P>) -> Ran<M>,
>(
    unit: &U,
    vm: F,
    projection: Projection,
    led: Led,
    bounds: Bounds,
    ordinal: u16,
    under: Rgb,
    over: Rgb,
    t: Q16,
    machine: Option<M>,
    step: Step<P>,
)
    ensures
        ({
            let host = hosted(unit, vm);
            &&& (host.place)(projection, led, bounds, ordinal) == projection.places(
                unit,
                led,
                bounds,
                ordinal,
            )
            &&& (host.mix)(under, over, t) == mixed(unit, under, over, t)
            &&& (host.run)(machine, step) == taken(vm, machine, step)
        }),
{
}

/// What a renderer is after a frame, and what it reports, is what the frame came to; it
/// remembers when the frame was.
pub proof fn law_a_frame_is_what_it_came_to<M>(
    before: RendererModel<M>,
    after: RendererModel<M>,
    report: FrameReport,
    out: Seq<Rgb>,
    scene: Scene<M>,
    t: Q16,
)
    requires
        is_frame(before, after, report, out, scene, t),
    ensures
        after.last_t == Some(t),
        after.machines == scene.machines,
        after.history == scene.history,
        out == scene.out,
        report.rendered@ == scene.rendered,
        report.faults@ == scene.faults,
        report.spent == scene.spent,
{
}

/// A forgotten source has no machine and no trails; nobody else loses anything.
pub proof fn law_a_forgotten_source_leaves_nothing<M>(
    renderer: RendererModel<M>,
    source: Uuid,
    other: Uuid,
    led: u16,
)
    ensures
        ({
            let after = renderer.forgotten(source);
            &&& !after.machines.dom().contains(source)
            &&& trail_of(after.history, source, led) == [Q16(0), Q16(0), Q16(0)]
            &&& other != source ==> {
                &&& machine_of(after.machines, other) == machine_of(renderer.machines, other)
                &&& trail_of(after.history, other, led) == trail_of(renderer.history, other, led)
            }
            &&& after.last_t == renderer.last_t
        }),
{
}

/// What a trail is: what was left there, or nothing. What a sum of costs is: the sum, as
/// far as it goes.
pub proof fn law_trails_and_tallies(
    history: Map<Trail, [Q16; 3]>,
    source: Uuid,
    led: u16,
    left: [Q16; 3],
    a: u32,
    b: u32,
)
    ensures
        trail_of(history.insert(Trail { source, led }, left), source, led) == left,
        trail_of(history.remove(Trail { source, led }), source, led) == [Q16(0), Q16(0), Q16(0)],
        a + b <= u32::MAX ==> tallied(a as int, b as int) == a + b,
        a + b > u32::MAX ==> tallied(a as int, b as int) == u32::MAX,
{
}

/// A source with no LED in the shard is not even started. One whose once-a-frame part
/// faults paints nothing, costs nothing and is reported by that fault; its machine is
/// kept all the same.
pub proof fn law_what_a_source_that_does_not_start_does<M, P>(
    host: Host<M, P>,
    pass: Pass,
    b: Bound<P>,
    alpha: Q16,
    s: Scene<M>,
    fault: Fault,
)
    ensures
        (forall|i: int|
            0 <= i < b.membership.leds@.len() ==> !pass.shard.owns(
                #[trigger] b.membership.leds@[i] as int,
            )) ==> sourced(host, pass, b, alpha, s) == s,
        ({
            let id = b.source.id;
            let step = Step {
                program: b.program,
                budget: granted(b.frame_cost) as u32,
                work: Work::Frame { t: pass.t, dt: pass.dt },
            };
            let r = (host.run)(
                if s.machines.dom().contains(id) {
                    Some(s.machines[id])
                } else {
                    None
                },
                step,
            );
            let after = sourced(host, pass, b, alpha, s);
            pass.touches(b.membership.leds@) && r.outcome == Err::<PixelOutput, Fault>(fault) ==> {
                &&& after.out == s.out
                &&& after.history == s.history
                &&& after.rendered == s.rendered
                &&& after.spent == s.spent
                &&& after.faults == s.faults.push(RenderFault::Program { source: id, fault })
                &&& after.machines == s.machines.insert(id, r.machine)
            }
        }),
{
}

/// The pixels of a source run one after another on one machine: each starts from what the
/// last one left of it, whatever it comes to. A pixel of which the program makes nothing
/// keeps its colour, and what was left for it is kept; one that faults keeps both as they
/// were, and the first that does is what the source is reported for.
pub proof fn law_pixels_run_one_after_another<M, P>(
    host: Host<M, P>,
    pass: Pass,
    b: Bound<P>,
    alpha: Q16,
    start: Canvas<M>,
    n: nat,
)
    requires
        n < b.membership.leds@.len(),
        start.fault is None,
    ensures
        ({
            let index = b.membership.leds@[n as int];
            let c = painted(host, pass, b, alpha, start, n);
            let d = painted(host, pass, b, alpha, start, n + 1);
            let r = (host.run)(Some(c.machine), pixel_step(host, pass, b, c.history, n as int));
            let trail = Trail { source: b.source.id, led: index };
            &&& !pass.reaches(index, c.out.len()) ==> d == c
            &&& pass.reaches(index, c.out.len()) ==> {
                &&& d.machine == r.machine
                &&& r.outcome == Ok::<PixelOutput, Fault>(PixelOutput::Nothing) ==> {
                    &&& d.out == c.out
                    &&& d.contributed == c.contributed
                    &&& d.fault == c.fault
                    &&& d.history == c.history.insert(trail, r.prev)
                }
                &&& r.outcome matches Err(fault) ==> {
                    &&& d.out == c.out
                    &&& d.contributed == c.contributed
                    &&& d.history == c.history
                    &&& d.fault == Some(
                        if c.fault is Some {
                            c.fault->0
                        } else {
                            fault
                        },
                    )
                }
            }
        }),
        painted(host, pass, b, alpha, start, 0) == start,
{
}

/// What a source that did start leaves in a scene is what its last pixel left: the
/// machine, the trails, the picture, and the fault if there was one.
pub proof fn law_a_scene_is_what_the_last_pixel_left<M, P>(
    host: Host<M, P>,
    pass: Pass,
    b: Bound<P>,
    alpha: Q16,
    s: Scene<M>,
)
    requires
        pass.touches(b.membership.leds@),
        started(host, pass, b, s).outcome is Ok,
    ensures
        ({
            let after = sourced(host, pass, b, alpha, s);
            let id = b.source.id;
            let c = painted(
                host,
                pass,
                b,
                alpha,
                Canvas {
                    machine: started(host, pass, b, s).machine,
                    history: s.history,
                    out: s.out,
                    spent: 0,
                    contributed: false,
                    fault: None,
                },
                b.membership.leds@.len(),
            );
            &&& after.machines == s.machines.insert(id, c.machine)
            &&& after.history == c.history
            &&& after.out == c.out
            &&& c.fault is None ==> after.faults == s.faults
            &&& c.fault matches Some(fault) ==> after.faults == s.faults.push(
                RenderFault::Program { source: id, fault },
            )
            &&& !c.contributed ==> after.rendered == s.rendered
        }),
{
}

/// Of bindings that nothing puts in order the one that is listed last goes on top; a fade
/// is drawn by the first that has its id.
pub proof fn law_the_list_settles_what_is_left_open<P>(
    bound: Seq<Bound<P>>,
    admitted: Seq<Uuid>,
    b: Bound<P>,
    i: int,
)
    ensures
        admitted.contains(b.source.id) && (forall|k: int|
            0 <= k < bound.len() && admitted.contains((#[trigger] bound[k]).source.id)
                ==> !bound[k].source.ahead_of(b.source)) ==> bottom_up(bound.push(b), admitted)
            == bottom_up(bound, admitted).push(b),
        !admitted.contains(b.source.id) ==> bottom_up(bound.push(b), admitted) == bottom_up(
            bound,
            admitted,
        ),
        0 <= i < bound.len() && (forall|k: int|
            0 <= k < i ==> (#[trigger] bound[k]).source.id != bound[i].source.id) ==> first_bound(
            bound,
            bound[i].source.id,
        ) == Some(bound[i]),
{
    assert(bound.push(b).drop_last() =~= bound);
    let under = bottom_up(bound, admitted);
    if admitted.contains(b.source.id) && (forall|k: int|
        0 <= k < bound.len() && admitted.contains((#[trigger] bound[k]).source.id)
            ==> !bound[k].source.ahead_of(b.source)) {
        law_the_order_goes_up(bound, admitted);
        assert forall|k: int| 0 <= k < under.len() implies !(#[trigger] under[k]).source.ahead_of(
            b.source,
        ) by {
            assert(under.contains(under[k]));
            let j = bound.index_of(under[k]);
            assert(bound[j] == under[k]);
        }
        lemma_filter_all(under, |x: Bound<P>| !x.source.ahead_of(b.source));
        lemma_filter_none(under, |x: Bound<P>| x.source.ahead_of(b.source));
        assert(bottom_up(bound.push(b), admitted) =~= under.push(b));
    }
    if 0 <= i < bound.len() && (forall|k: int|
        0 <= k < i ==> (#[trigger] bound[k]).source.id != bound[i].source.id) {
        let id = bound[i].source.id;
        let head = bound.take(i + 1);
        lemma_found_bound(bound.take(i), id);
        assert(head.drop_last() =~= bound.take(i));
        assert(head.last() == bound[i]);
        if let Some(x) = first_bound(bound.take(i), id) {
            let k = bound.take(i).index_of(x);
            assert(bound[k] == x);
        }
        lemma_first_bound(bound, id, i + 1);
    }
}

} // verus!
