//! Turning samples into the numbers an effect actually reads.
//!
//! The output shape: log-spaced band magnitudes, an overall level and a smoothed
//! one, and an onset flag with a beat phase, a tempo and a confidence.
//!
//! Publishing beat *phase* rather than beat *events* is what makes this survive a
//! lossy network: a receiver that misses a packet can still extrapolate where in
//! the bar it is.
//!
//! Everything here is timed in frames, and the frame rate follows from the sample
//! rate and the hop size. Nothing reads a clock, so a recorded stream of samples
//! analyses identically on replay.

use vstd::prelude::*;

use super::fft::{
    is_length, is_root, joined, law_a_length_is_the_root_of_the_squares, law_one_length,
    law_silence_transforms_to_nothing, length_of,
    magnitudes, scaled, transformed, turn_of, two_to, Complex, Fft, HALF_N, LOG2_N, N,
};
use crate::num::{floor_div, halved};
use crate::q16::{cosine, exp2, is_arithmetic, log2, ratio, Op, Q16};

verus! {

/// How many bands a spectrum is reported in.
pub const BANDS: usize = 32;

/// How many edges those bands have.
pub const EDGES: usize = 33;

/// Samples between analysis windows. Half the window, so successive frames overlap
/// and a transient cannot fall between two of them.
pub const HOP: usize = 512;

/// How many frames of onset strength the tempo estimator looks back over: two
/// full bars at 90 BPM.
pub const HISTORY: usize = 256;

/// The slowest tempo searched, in beats a minute.
pub const MIN_BPM: u32 = 60;

/// The fastest tempo searched. Outside the range a "beat" is either a bar line or
/// a note.
pub const MAX_BPM: u32 = 200;

/// What one window of audio came to.
#[derive(Clone, Copy, PartialEq, Eq, Debug)]
pub struct AudioFrame {
    /// Each band, relative to its own recent peak.
    pub bands: [u8; BANDS],
    pub level: u8,
    pub smoothed_level: u8,
    /// Whether energy has just risen.
    pub onset: bool,
    /// Where in the beat this is, as a fraction of one.
    pub beat_phase: u16,
    /// Quarter beats a minute.
    pub bpm_x4: u16,
    pub confidence: u8,
}

/// `a / b` without its fraction.
pub open spec fn quotient(a: int, b: int) -> int {
    if a >= 0 {
        a / b
    } else {
        -((-a) / b)
    }
}

fn quotient_of(a: i128, b: i128) -> (r: i128)
    requires
        0 < b,
        a > i128::MIN,
    ensures
        r == quotient(a as int, b as int),
{
    if a >= 0 {
        (a as u128 / b as u128) as i128
    } else {
        -(((-a) as u128 / b as u128) as i128)
    }
}

/// `v`, held between two others.
pub open spec fn between_ends(v: int, lo: int, hi: int) -> int {
    if v < lo {
        lo
    } else if v > hi {
        hi
    } else {
        v
    }
}

/// The bin of the lowest frequency reported, about 40 Hz: at least one, so that
/// the constant part is left out, and no higher than the highest bin.
pub open spec fn lowest_bin(sample_rate: u32) -> int {
    between_ends(
        40 * N as int / if sample_rate == 0 {
            1
        } else {
            sample_rate as int
        },
        1,
        HALF_N as int,
    )
}

/// Where edge `b` would fall by geometry alone: from the lowest bin to the
/// highest, each edge the same ratio above the last.
pub open spec fn geometric_edge<F: Fn(Op, Q16, Q16, Q16) -> Q16>(
    unit: &F,
    sample_rate: u32,
    b: int,
) -> int {
    let lo = lowest_bin(sample_rate);
    let along = ratio(unit, b as i32, BANDS as i32);
    let reach = log2(unit, ratio(unit, HALF_N as i32, lo as i32));
    let exponent = Q16(((along.0 * reach.0) / 65_536) as i32);
    let bin = (lo * exp2(unit, exponent).0) / 65_536;
    if bin < 0 || b == BANDS {
        HALF_N as int
    } else {
        between_ends(bin, lo, HALF_N as int)
    }
}

/// Where the edges would fall by geometry alone.
pub open spec fn geometry<F: Fn(Op, Q16, Q16, Q16) -> Q16>(
    unit: &F,
    sample_rate: u32,
) -> spec_fn(int) -> int {
    |b: int| geometric_edge(unit, sample_rate, b)
}

/// Edges spread so that every band has at least one bin, which the low end would
/// otherwise lose to rounding.
pub open spec fn spread(edges: spec_fn(int) -> int, b: nat) -> int
    decreases b,
{
    let here = edges(b as int);
    if b == 0 {
        here
    } else {
        let last = spread(edges, (b - 1) as nat);
        if here <= last {
            if last < HALF_N {
                last + 1
            } else {
                HALF_N as int
            }
        } else {
            here
        }
    }
}

/// Edge `b` of the bands.
pub open spec fn band_edge<F: Fn(Op, Q16, Q16, Q16) -> Q16>(
    unit: &F,
    sample_rate: u32,
    b: nat,
) -> int {
    spread(geometry(unit, sample_rate), b)
}

/// Edges ascend, one bin at a time at least until they reach the highest, start
/// above the constant part and end at the top.
pub proof fn law_band_edges_cover_the_spectrum<F: Fn(Op, Q16, Q16, Q16) -> Q16>(
    unit: &F,
    sample_rate: u32,
    b: nat,
)
    ensures
        1 <= band_edge(unit, sample_rate, b) <= HALF_N,
        b > 0 ==> band_edge(unit, sample_rate, (b - 1) as nat) < band_edge(unit, sample_rate, b)
            || band_edge(unit, sample_rate, b) == HALF_N,
        b == BANDS ==> band_edge(unit, sample_rate, b) == HALF_N,
    decreases b,
{
    if b > 0 {
        law_band_edges_cover_the_spectrum(unit, sample_rate, (b - 1) as nat);
    }
}

/// Log-spaced bin edges from about 40 Hz to Nyquist.
///
/// Log spacing because hearing is logarithmic: linear bands would give almost all
/// of them to frequencies where nothing musically interesting happens.
pub fn band_edges<F: Fn(Op, Q16, Q16, Q16) -> Q16>(unit: &F, sample_rate: u32) -> (edges: [usize;
    EDGES])
    requires
        is_arithmetic(*unit),
    ensures
        forall|b: int|
            0 <= b < EDGES ==> #[trigger] edges@[b] == band_edge(unit, sample_rate, b as nat),
{
    let rate: u32 = if sample_rate == 0 {
        1
    } else {
        sample_rate
    };
    let floor: u32 = 40_960 / rate;
    let lo: u32 = if floor < 1 {
        1
    } else if floor > 512 {
        512
    } else {
        floor
    };
    let mut edges: [usize; EDGES] = [0;EDGES];
    let mut b: usize = 0;
    while b < EDGES
        invariant
            is_arithmetic(*unit),
            b <= EDGES,
            lo == lowest_bin(sample_rate),
            1 <= lo <= 512,
            forall|i: int|
                0 <= i < b ==> #[trigger] edges@[i] == band_edge(unit, sample_rate, i as nat),
        decreases EDGES - b,
    {
        let along = ratio(unit, b as i32, BANDS as i32);
        let reach = log2(unit, ratio(unit, HALF_N as i32, lo as i32));
        proof {
            let (x, y) = (along.0 as int, reach.0 as int);
            assert(-0x4000_0000_0000_0000 <= x * y <= 0x4000_0000_0000_0000) by (nonlinear_arith)
                requires
                    -0x8000_0000 <= x <= 0x7fff_ffff,
                    -0x8000_0000 <= y <= 0x7fff_ffff,
            ;
        }
        let exponent = Q16(
            #[verifier::truncate]
            (floor_div(along.0 as i64 * reach.0 as i64, 65_536) as i32),
        );
        let scale = exp2(unit, exponent);
        proof {
            let (x, y) = (lo as int, scale.0 as int);
            assert(-0x200_0000_0000 <= x * y <= 0x200_0000_0000) by (nonlinear_arith)
                requires
                    1 <= x <= 512,
                    -0x8000_0000 <= y <= 0x7fff_ffff,
            ;
        }
        let bin: i64 = floor_div(lo as i64 * scale.0 as i64, 65_536);
        let mut edge: usize = if bin < 0 || bin > 512 || b == BANDS {
            512
        } else if (bin as u32) < lo {
            lo as usize
        } else {
            bin as usize
        };
        proof {
            law_band_edges_cover_the_spectrum(unit, sample_rate, b as nat);
            if b > 0 {
                law_band_edges_cover_the_spectrum(unit, sample_rate, (b - 1) as nat);
            }
        }
        if b > 0 && edge <= edges[b - 1] {
            edge = if edges[b - 1] < 512 {
                edges[b - 1] + 1
            } else {
                512
            };
        }
        edges[b] = edge;
        b += 1;
    }
    edges
}

/// A frame as plain data.
#[verifier::ext_equal]
pub ghost struct FrameModel {
    pub bands: Seq<u8>,
    pub level: u8,
    pub smoothed_level: u8,
    pub onset: bool,
    pub beat_phase: u16,
    pub bpm_x4: u16,
    pub confidence: u8,
}

impl View for AudioFrame {
    type V = FrameModel;

    open spec fn view(&self) -> FrameModel {
        FrameModel {
            bands: self.bands@,
            level: self.level,
            smoothed_level: self.smoothed_level,
            onset: self.onset,
            beat_phase: self.beat_phase,
            bpm_x4: self.bpm_x4,
            confidence: self.confidence,
        }
    }
}

/// The sum of some numbers.
pub open spec fn total(v: Seq<Q16>) -> int
    decreases v.len(),
{
    if v.len() == 0 {
        0
    } else {
        total(v.drop_last()) + v.last().0
    }
}

/// The sum of some bytes.
pub open spec fn byte_total(v: Seq<u8>) -> int
    decreases v.len(),
{
    if v.len() == 0 {
        0
    } else {
        byte_total(v.drop_last()) + v.last()
    }
}

proof fn lemma_total_bound(v: Seq<Q16>)
    requires
        forall|i: int| 0 <= i < v.len() ==> 0 <= (#[trigger] v[i]).0,
    ensures
        0 <= total(v) <= v.len() * i32::MAX,
    decreases v.len(),
{
    if v.len() > 0 {
        let rest = v.drop_last();
        assert forall|i: int| 0 <= i < rest.len() implies 0 <= (#[trigger] rest[i]).0 by {
            assert(rest[i] == v[i]);
        }
        lemma_total_bound(rest);
        assert(v[v.len() - 1].0 >= 0);
    }
}

/// How much energy *rose* between two sets of bands, summed over the first `n`.
/// Only rises count: a note ending is not an onset.
pub open spec fn risen(now: Seq<Q16>, before: Seq<Q16>, n: nat) -> int
    decreases n,
{
    if n == 0 {
        0
    } else {
        let d = now[n - 1].0 - before[n - 1].0;
        risen(now, before, (n - 1) as nat) + if d > 0 {
            d
        } else {
            0
        }
    }
}

/// How alike a history is to itself `lag` frames later, about its mean, over the
/// places before `n`.
pub open spec fn likeness(history: Seq<Q16>, mean: int, lag: int, n: int) -> int
    decreases n - lag,
{
    if n <= lag {
        0
    } else {
        likeness(history, mean, lag, n - 1) + (history[n - 1].0 - mean) * (history[n - 1 - lag].0
            - mean)
    }
}

/// Per place compared, so that longer lags, which compare fewer, are not slighted.
pub open spec fn score(history: Seq<Q16>, mean: int, lag: int) -> int {
    quotient(likeness(history, mean, lag, history.len() as int), history.len() - lag)
}

/// The search for a repeat: the lag that scored best, its score, and the sum of
/// all.
pub ghost struct Search {
    pub lag: int,
    pub best: int,
    pub sum: int,
}

/// The search over the lags from `from` up to and without `to`.
pub open spec fn searched(history: Seq<Q16>, mean: int, from: int, to: int) -> Search
    decreases to - from,
{
    if to <= from {
        Search { lag: 0, best: 0, sum: 0 }
    } else {
        let before = searched(history, mean, from, to - 1);
        let here = score(history, mean, to - 1);
        if here > before.best {
            Search { lag: to - 1, best: here, sum: before.sum + here }
        } else {
            Search { sum: before.sum + here, ..before }
        }
    }
}

/// An analyser as plain data.
#[verifier::ext_equal]
pub ghost struct AnalyzerModel {
    pub sample_rate: u32,
    pub turns: Seq<Complex>,
    pub window: Seq<Q16>,
    pub edges: Seq<usize>,
    /// The most recent samples, oldest first.
    pub recent: Seq<Q16>,
    /// How many samples have arrived since the last frame was due.
    pub since: int,
    /// How many have ever arrived, up to a full window.
    pub seen: int,
    /// Each band's running peak.
    pub peak: Seq<Q16>,
    /// The last frame's bands.
    pub prev: Seq<Q16>,
    pub smoothed: int,
    /// Onset strength per frame, oldest first.
    pub history: Seq<Q16>,
    pub phase: int,
    pub period: int,
    pub confidence: u8,
}

/// The Hann window: without it a tone between two bins smears across the whole
/// spectrum.
pub open spec fn window_at<F: Fn(Op, Q16, Q16, Q16) -> Q16>(unit: &F, n: int) -> Q16 {
    let w = 32_768 - halved(cosine(unit, ratio(unit, n as i32, N as i32)).0 as int);
    if w < 0 {
        Q16(0)
    } else {
        Q16(w as i32)
    }
}

/// How far into the beat one frame is, by the period in frames.
pub open spec fn beats<F: Fn(Op, Q16, Q16, Q16) -> Q16>(unit: &F) -> spec_fn(int) -> int {
    |period: int| ratio(unit, 1, period as i32).0 as int
}

impl AnalyzerModel {
    pub open spec fn fresh<F: Fn(Op, Q16, Q16, Q16) -> Q16>(
        unit: &F,
        sample_rate: u32,
    ) -> AnalyzerModel {
        AnalyzerModel {
            sample_rate,
            turns: Seq::new(HALF_N as nat, |k: int| turn_of(unit, k)),
            window: Seq::new(N as nat, |n: int| window_at(unit, n)),
            edges: Seq::new(
                EDGES as nat,
                |b: int| band_edge(unit, sample_rate, b as nat) as usize,
            ),
            recent: Seq::new(N as nat, |i: int| Q16(0)),
            since: 0,
            seen: 0,
            peak: Seq::new(BANDS as nat, |b: int| Q16(0)),
            prev: Seq::new(BANDS as nat, |b: int| Q16(0)),
            smoothed: 0,
            history: Seq::empty(),
            phase: 0,
            period: 0,
            confidence: 0,
        }
    }

    /// What holds of every analyser.
    pub open spec fn valid(self) -> bool {
        &&& self.turns.len() == HALF_N
        &&& self.window.len() == N
        &&& self.edges.len() == EDGES
        &&& self.recent.len() == N
        &&& self.peak.len() == BANDS
        &&& self.prev.len() == BANDS
        &&& self.history.len() <= HISTORY
        &&& 0 <= self.since < HOP
        &&& 0 <= self.seen <= N
        &&& 0 <= self.smoothed <= 65_280
        &&& 0 <= self.phase <= 65_535
        &&& 0 <= self.period <= HISTORY
        &&& forall|i: int| 0 <= i < N ==> 0 <= (#[trigger] self.window[i]).0 <= 0x4001_0000
        &&& forall|b: int| 0 <= b < EDGES ==> #[trigger] self.edges[b] <= HALF_N
        &&& forall|i: int| 0 <= i < N ==> -65_536 <= (#[trigger] self.recent[i]).0 <= 65_536
        &&& forall|b: int| 0 <= b < BANDS ==> 0 <= (#[trigger] self.peak[b]).0
        &&& forall|b: int| 0 <= b < BANDS ==> 0 <= (#[trigger] self.prev[b]).0
        &&& forall|i: int| 0 <= i < self.history.len() ==> 0 <= (#[trigger] self.history[i]).0
        &&& self.period == 0 ==> self.phase == 0
    }

    /// Frames produced per second.
    pub open spec fn rate(self) -> int {
        self.sample_rate as int / HOP as int
    }

    /// The window of samples, weighted.
    pub open spec fn weighted(self) -> Seq<Complex> {
        Seq::new(
            N as nat,
            |i: int|
                Complex {
                    re: scaled(self.recent[i].0 as int, self.window[i].0 as int),
                    im: 0,
                },
        )
    }

    /// The magnitude of each bin below Nyquist.
    pub open spec fn bins(self) -> Seq<Q16> {
        let spectrum = transformed(self.turns, self.weighted(), LOG2_N as nat);
        Seq::new(HALF_N as nat, |k: int| length_of(spectrum[k]))
    }

    /// The bins of a band: its first, and the first past it.
    pub open spec fn reach(self, b: int) -> (int, int) {
        let lo = self.edges[b] as int;
        let hi = self.edges[b + 1] as int;
        (
            lo,
            if hi <= lo {
                if lo + 1 < HALF_N {
                    lo + 1
                } else {
                    HALF_N as int
                }
            } else {
                hi
            },
        )
    }

    /// The mean magnitude of each band, so that a wide high band is not louder
    /// than a narrow low one purely by covering more of the spectrum.
    pub open spec fn raw(self) -> Seq<Q16> {
        Seq::new(
            BANDS as nat,
            |b: int|
                {
                    let (lo, hi) = self.reach(b);
                    let width = if hi > lo {
                        hi - lo
                    } else {
                        1
                    };
                    Q16((total(self.bins().subrange(lo, hi)) / width) as i32)
                },
        )
    }

    /// Each band's peak after this frame: it decays slowly, so that one loud
    /// transient does not flatten the next second.
    pub open spec fn peaks(self, raw: Seq<Q16>) -> Seq<Q16> {
        Seq::new(
            BANDS as nat,
            |b: int|
                {
                    let decayed = self.peak[b].0 - self.peak[b].0 as int / 128;
                    Q16(
                        if decayed > raw[b].0 {
                            decayed as i32
                        } else {
                            raw[b].0
                        },
                    )
                },
        )
    }

    /// The history with this frame's onset strength.
    pub open spec fn recorded(self, flux: Q16) -> Seq<Q16> {
        if self.history.len() >= HISTORY {
            self.history.drop_first().push(flux)
        } else {
            self.history.push(flux)
        }
    }

    /// The shortest and the longest beat searched for, in frames.
    pub open spec fn lags(self) -> (int, int) {
        let fr = if self.rate() < 1 {
            1
        } else {
            self.rate()
        };
        let shortest = fr * 60 / MAX_BPM as int;
        let longest = fr * 60 / MIN_BPM as int;
        (
            if shortest < 2 {
                2
            } else {
                shortest
            },
            if longest > HISTORY as int / 2 {
                HISTORY as int / 2
            } else {
                longest
            },
        )
    }

    /// Estimate the beat from the history of onset strength: the period and the
    /// confidence. A flat likeness means every tempo fits equally, which means
    /// none does.
    pub open spec fn tempo(self, history: Seq<Q16>) -> (int, u8) {
        let (lo, hi) = self.lags();
        if history.len() < hi * 2 || hi <= lo {
            (self.period, self.confidence)
        } else {
            let found = searched(history, total(history) / history.len() as int, lo, hi + 1);
            let mean = quotient(found.sum, hi - lo + 1);
            if found.lag == 0 {
                (self.period, 0)
            } else {
                (
                    found.lag,
                    if mean <= 0 {
                        0
                    } else {
                        between_ends(
                            quotient((found.best - mean) * 255, found.best),
                            0,
                            255,
                        ) as u8
                    },
                )
            }
        }
    }

    /// Move the phase on by one frame, and pull it toward a confident onset: a
    /// nudge, because a jump would make the extrapolation between packets
    /// discontinuous.
    pub open spec fn phased(
        self,
        beat: spec_fn(int) -> int,
        period: int,
        confidence: u8,
        onset: bool,
    ) -> int {
        if period == 0 {
            0
        } else {
            let moved = (self.phase + beat(period)) % 65_536;
            if onset && confidence > 64 {
                let error = if moved > 32_768 {
                    moved - 65_536
                } else {
                    moved
                };
                (moved - error / 4) % 65_536
            } else {
                moved
            }
        }
    }

    /// The tempo, in quarter beats a minute.
    pub open spec fn tempo_x4(self, period: int) -> u16 {
        if period == 0 {
            0
        } else {
            between_ends(self.rate() * 240 / period, 0, u16::MAX as int) as u16
        }
    }

    /// One window analysed.
    pub open spec fn analyzed(self, beat: spec_fn(int) -> int) -> (AnalyzerModel, FrameModel) {
        let raw = self.raw();
        let peaks = self.peaks(raw);
        let bands = banded(raw, peaks);
        let flux = Q16((risen(raw, self.prev, BANDS as nat) / BANDS as int) as i32);
        let history = self.recorded(flux);
        let onset = is_onset(history, flux);
        let level = byte_total(bands) / BANDS as int;
        let smoothed = self.smoothed + (level * 256 - self.smoothed) / 8;
        let (period, confidence) = self.tempo(history);
        let phase = self.phased(beat, period, confidence, onset);
        (
            AnalyzerModel {
                peak: peaks,
                prev: raw,
                smoothed,
                history,
                phase,
                period,
                confidence,
                ..self
            },
            FrameModel {
                bands,
                level: level as u8,
                smoothed_level: (smoothed / 256) as u8,
                onset,
                beat_phase: phase as u16,
                bpm_x4: self.tempo_x4(period),
                confidence,
            },
        )
    }

    /// One more sample.
    pub open spec fn heard(self, sample: i16) -> AnalyzerModel {
        AnalyzerModel {
            recent: self.recent.drop_first().push(Q16((sample * 2) as i32)),
            seen: if self.seen < N {
                self.seen + 1
            } else {
                self.seen
            },
            since: if self.since + 1 >= HOP {
                0
            } else {
                self.since + 1
            },
            ..self
        }
    }

    /// Whether the next sample completes a window: not before the window holds
    /// real audio.
    pub open spec fn completes(self) -> bool {
        self.since + 1 >= HOP && self.seen + 1 >= N
    }

    /// Some samples, and the frames they complete.
    pub open spec fn fed(self, beat: spec_fn(int) -> int, samples: Seq<i16>) -> (
        AnalyzerModel,
        Seq<FrameModel>,
    )
        decreases samples.len(),
    {
        if samples.len() == 0 {
            (self, Seq::empty())
        } else {
            let (before, frames) = self.fed(beat, samples.drop_last());
            let heard = before.heard(samples.last());
            if before.completes() {
                let (after, frame) = heard.analyzed(beat);
                (after, frames.push(frame))
            } else {
                (heard, frames)
            }
        }
    }
}

/// Each band relative to its own peak, with a floor so that silence is reported as
/// silence rather than amplified into whatever noise the microphone has.
pub open spec fn banded(raw: Seq<Q16>, peaks: Seq<Q16>) -> Seq<u8> {
    Seq::new(
        BANDS as nat,
        |b: int|
            if peaks[b].0 <= 16 {
                0u8
            } else {
                (raw[b].0 * 255 / peaks[b].0 as int) as u8
            },
    )
}

/// Whether a frame is an onset: half again above the recent mean, and not trivial
/// in absolute terms, so that a silent room does not beat.
pub open spec fn is_onset(history: Seq<Q16>, flux: Q16) -> bool {
    &&& history.len() >= 8
    &&& flux.0 > total(history) / history.len() as int * 3 / 2
    &&& flux.0 > 8
}

/// Streaming analyser. Feed it samples; it hands back a frame every [`HOP`].
pub struct Analyzer {
    fft: Fft,
    sample_rate: u32,
    window: [Q16; N],
    edges: [usize; EDGES],
    /// The most recent samples, as a ring. `write` is where the next one goes, and
    /// therefore also the oldest sample in the buffer.
    buf: [Q16; N],
    write: usize,
    since_frame: usize,
    seen: usize,
    peak: [Q16; BANDS],
    prev: [Q16; BANDS],
    smoothed: i32,
    /// Onset strength per frame, oldest first.
    flux: Vec<Q16>,
    /// Beat phase, advanced every frame by one over the estimated period.
    phase: i32,
    period_frames: u32,
    confidence: u8,
}

/// A ring, read from its oldest place.
pub open spec fn unrolled(ring: Seq<Q16>, oldest: int) -> Seq<Q16> {
    Seq::new(ring.len(), |i: int| ring[(oldest + i) % ring.len() as int])
}

impl View for Analyzer {
    type V = AnalyzerModel;

    closed spec fn view(&self) -> AnalyzerModel {
        AnalyzerModel {
            sample_rate: self.sample_rate,
            turns: self.fft@,
            window: self.window@,
            edges: self.edges@,
            recent: unrolled(self.buf@, self.write as int),
            since: self.since_frame as int,
            seen: self.seen as int,
            peak: self.peak@,
            prev: self.prev@,
            smoothed: self.smoothed as int,
            history: self.flux@,
            phase: self.phase as int,
            period: self.period_frames as int,
            confidence: self.confidence,
        }
    }
}

impl Analyzer {
    pub closed spec fn wf(&self) -> bool {
        &&& self.fft.wf()
        &&& self.write < N
        &&& self@.valid()
    }

    /// `sample_rate` in Hz. Anything is accepted, and only the band edges and the
    /// tempo scale depend on it.
    pub fn new<F: Fn(Op, Q16, Q16, Q16) -> Q16>(unit: &F, sample_rate: u32) -> (a: Analyzer)
        requires
            is_arithmetic(*unit),
        ensures
            a.wf(),
            a@ == AnalyzerModel::fresh(unit, sample_rate),
    {
        let mut window: [Q16; N] = [Q16(0);N];
        let mut n: usize = 0;
        while n < N
            invariant
                is_arithmetic(*unit),
                n <= N,
                forall|i: int| 0 <= i < n ==> #[trigger] window@[i] == window_at(unit, i),
                forall|i: int| 0 <= i < N ==> 0 <= (#[trigger] window@[i]).0 <= 0x4001_0000,
            decreases N - n,
        {
            let c: i32 = cosine(unit, ratio(unit, n as i32, N as i32)).0;
            let w: i64 = 32_768 - half_of(c) as i64;
            window[n] =
            if w < 0 {
                Q16(0)
            } else {
                Q16(w as i32)
            };
            n += 1;
        }
        let edges = band_edges(unit, sample_rate);
        let a = Analyzer {
            fft: Fft::new(unit),
            sample_rate,
            window,
            edges,
            buf: [Q16(0);N],
            write: 0,
            since_frame: 0,
            seen: 0,
            peak: [Q16(0);BANDS],
            prev: [Q16(0);BANDS],
            smoothed: 0,
            flux: Vec::new(),
            phase: 0,
            period_frames: 0,
            confidence: 0,
        };
        proof {
            let m = AnalyzerModel::fresh(unit, sample_rate);
            assert forall|b: int| 0 <= b < EDGES implies #[trigger] edges@[b] <= HALF_N
                && edges@[b] == m.edges[b] by {
                law_band_edges_cover_the_spectrum(unit, sample_rate, b as nat);
            }
            assert(a@ =~= m);
        }
        a
    }

    /// Frames produced per second, which is what the tempo estimator counts in.
    pub fn frame_rate(&self) -> (r: u32)
        ensures
            r == self@.rate(),
    {
        self.sample_rate / 512
    }

    /// Feed samples, and take back a frame for each analysis window they complete.
    ///
    /// One call can complete any number of windows: the shell hands over whatever
    /// the capture buffer held, which has nothing to do with [`HOP`].
    pub fn push<F: Fn(Op, Q16, Q16, Q16) -> Q16>(&mut self, unit: &F, samples: &[i16]) -> (frames:
        Vec<AudioFrame>)
        requires
            old(self).wf(),
            is_arithmetic(*unit),
        ensures
            final(self).wf(),
            (final(self)@, frames@.map_values(|f: AudioFrame| f@)) == old(self)@.fed(
                beats(unit),
                samples@,
            ),
    {
        let mut frames: Vec<AudioFrame> = Vec::new();
        let mut i: usize = 0;
        let ghost start = self@;
        let ghost plain = |f: AudioFrame| f@;
        proof {
            assert(samples@.take(0) =~= Seq::<i16>::empty());
            assert(frames@.map_values(plain) =~= Seq::<FrameModel>::empty());
        }
        while i < samples.len()
            invariant
                self.wf(),
                is_arithmetic(*unit),
                start == old(self)@,
                plain == (|f: AudioFrame| f@),
                i <= samples@.len(),
                (self@, frames@.map_values(plain)) == start.fed(beats(unit), samples@.take(i as int)),
            decreases samples@.len() - i,
        {
            let ghost before = self@;
            let ghost had = frames@;
            assert(samples@.take(i + 1).drop_last() =~= samples@.take(i as int));
            assert(samples@.take(i + 1).last() == samples@[i as int]);
            let due: bool = self.hear(samples[i]);
            if due {
                let frame = self.analyze(unit);
                frames.push(frame);
                assert(frames@.map_values(plain) =~= had.map_values(plain).push(frame@));
            }
            i += 1;
        }
        assert(samples@.take(i as int) =~= samples@);
        frames
    }

    /// Take one sample, and say whether it completes a window.
    fn hear(&mut self, sample: i16) -> (due: bool)
        requires
            old(self).wf(),
        ensures
            final(self).wf(),
            final(self)@ == old(self)@.heard(sample),
            due == old(self)@.completes(),
    {
        let ghost was = self@;
        let ghost (ring, at) = (self.buf@, self.write as int);
        // A ring: the write position is also the oldest sample, so nothing moves.
        // Shifting the window along instead would be the whole chip.
        self.buf[self.write] = Q16(sample as i32 * 2);
        self.write = if self.write + 1 < N {
            self.write + 1
        } else {
            0
        };
        if self.seen < N {
            self.seen += 1;
        }
        let hop: bool = self.since_frame + 1 >= HOP;
        self.since_frame = if hop {
            0
        } else {
            self.since_frame + 1
        };
        proof {
            let now = was.heard(sample);
            assert forall|i: int| 0 <= i < N implies #[trigger] unrolled(
                self.buf@,
                self.write as int,
            )[i] == now.recent[i] by {
                if i < N - 1 {
                    assert(now.recent[i] == was.recent[i + 1]);
                    assert((self.write + i) % 1024 == (at + i + 1) % 1024);
                    assert((at + i + 1) % 1024 != at);
                } else {
                    assert((self.write + i) % 1024 == at);
                }
            }
            assert(self@.recent =~= now.recent);
            assert(self@ =~= now);
            assert forall|i: int| 0 <= i < N implies -65_536 <= (#[trigger] self@.recent[i]).0
                <= 65_536 by {
                if i < N - 1 {
                    assert(now.recent[i] == was.recent[i + 1]);
                }
            }
        }
        hop && self.seen >= N
    }

    fn analyze<F: Fn(Op, Q16, Q16, Q16) -> Q16>(&mut self, unit: &F) -> (frame: AudioFrame)
        requires
            old(self).wf(),
            is_arithmetic(*unit),
        ensures
            final(self).wf(),
            (final(self)@, frame@) == old(self)@.analyzed(beats(unit)),
    {
        let ghost was = self@;
        let raw = self.spectrum();
        let bands = self.normalise(&raw);
        let flux = self.spectral_flux(&raw);
        self.prev = raw;
        let level: u8 = self.overall_level(&bands);
        let onset: bool = self.record_flux(flux);
        self.track_tempo();
        self.advance_phase(unit, onset);
        proof {
            assert(self@ =~= was.analyzed(beats(unit)).0);
        }
        let frame = AudioFrame {
            bands,
            level,
            smoothed_level: (self.smoothed as u32 / 256) as u8,
            onset,
            beat_phase: self.phase as u16,
            bpm_x4: self.bpm_x4(),
            confidence: self.confidence,
        };
        assert(frame@ =~= was.analyzed(beats(unit)).1);
        frame
    }

    /// The mean magnitude of each band.
    fn spectrum(&self) -> (raw: [Q16; BANDS])
        requires
            self.wf(),
        ensures
            raw@ == self@.raw(),
            forall|b: int| 0 <= b < BANDS ==> 0 <= (#[trigger] raw@[b]).0,
    {
        let mut re: [Q16; N] = [Q16(0);N];
        let mut im: [Q16; N] = [Q16(0);N];
        let mut i: usize = 0;
        while i < N
            invariant
                self.wf(),
                i <= N,
                forall|k: int| 0 <= k < N ==> (#[trigger] im@[k]).0 == 0,
                forall|k: int|
                    0 <= k < i ==> (#[trigger] re@[k]).0 == scaled(
                        self@.recent[k].0 as int,
                        self@.window[k].0 as int,
                    ),
            decreases N - i,
        {
            // Oldest first: the ring's write position is the oldest sample.
            let at: usize = (self.write + i) % 1024;
            let s: i32 = self.buf[at].0;
            let w: i32 = self.window[i].0;
            proof {
                assert(self@.recent[i as int].0 == s);
                let (x, y) = (s as int, w as int);
                assert(-0x4001_0000_0000 <= x * y <= 0x4001_0000_0000) by (nonlinear_arith)
                    requires
                        -65_536 <= x <= 65_536,
                        0 <= y <= 0x4001_0000,
                ;
            }
            re[i] = Q16(floor_div(s as i64 * w as i64, 65_536) as i32);
            i += 1;
        }
        assert(joined(re@, im@) =~= self@.weighted());
        self.fft.transform(&mut re, &mut im);
        let mut mag: [Q16; HALF_N] = [Q16(0);HALF_N];
        magnitudes(&re, &im, &mut mag);
        assert(mag@ =~= self@.bins());
        let mut raw: [Q16; BANDS] = [Q16(0);BANDS];
        let mut b: usize = 0;
        while b < BANDS
            invariant
                self.wf(),
                b <= BANDS,
                mag@ == self@.bins(),
                forall|k: int| 0 <= k < HALF_N ==> 0 <= (#[trigger] mag@[k]).0,
                forall|k: int| 0 <= k < b ==> #[trigger] raw@[k] == self@.raw()[k],
                forall|k: int| 0 <= k < BANDS ==> 0 <= (#[trigger] raw@[k]).0,
            decreases BANDS - b,
        {
            assert(self@.edges[b as int] <= HALF_N && self@.edges[b + 1] <= HALF_N);
            let lo: usize = self.edges[b];
            let next: usize = self.edges[b + 1];
            let hi: usize = if next <= lo {
                if lo + 1 < HALF_N {
                    lo + 1
                } else {
                    HALF_N
                }
            } else {
                next
            };
            let sum: i64 = sum_between(&mag, lo, hi);
            let width: usize = if hi > lo {
                hi - lo
            } else {
                1
            };
            proof {
                let bins = mag@.subrange(lo as int, hi as int);
                assert forall|k: int| 0 <= k < bins.len() implies 0 <= (#[trigger] bins[k]).0 by {
                    assert(bins[k] == mag@[lo + k]);
                }
                lemma_total_bound(bins);
                let (t, w) = (sum as int, width as int);
                assert(0 <= t / w <= i32::MAX) by (nonlinear_arith)
                    requires
                        0 <= t <= w * i32::MAX,
                        w >= 1,
                ;
            }
            raw[b] = Q16((sum as u64 / width as u64) as i32);
            b += 1;
        }
        assert(raw@ =~= self@.raw());
        raw
    }

    /// Per-band automatic gain control: a band is reported relative to its own
    /// recent peak, so quiet music fills the range.
    fn normalise(&mut self, raw: &[Q16; BANDS]) -> (out: [u8; BANDS])
        requires
            old(self).wf(),
            forall|b: int| 0 <= b < BANDS ==> 0 <= (#[trigger] raw@[b]).0,
        ensures
            final(self).wf(),
            final(self)@ == (AnalyzerModel { peak: old(self)@.peaks(raw@), ..old(self)@ }),
            out@ == banded(raw@, old(self)@.peaks(raw@)),
    {
        let ghost was = self@;
        let ghost peaks = was.peaks(raw@);
        let mut out: [u8; BANDS] = [0;BANDS];
        let mut b: usize = 0;
        while b < BANDS
            invariant
                self.fft.wf(),
                self.write < N,
                was.valid(),
                peaks == was.peaks(raw@),
                self@ == (AnalyzerModel { peak: self.peak@, ..was }),
                b <= BANDS,
                forall|k: int| 0 <= k < BANDS ==> 0 <= (#[trigger] raw@[k]).0,
                forall|k: int| 0 <= k < b ==> #[trigger] self.peak@[k] == peaks[k],
                forall|k: int| b <= k < BANDS ==> #[trigger] self.peak@[k] == was.peak[k],
                forall|k: int| 0 <= k < b ==> #[trigger] out@[k] == banded(raw@, peaks)[k],
            decreases BANDS - b,
        {
            let peak: i32 = self.peak[b].0;
            let r: i32 = raw[b].0;
            assert(peak == was.peak[b as int].0 && peak >= 0 && r >= 0);
            let decayed: i32 = peak - (peak as u32 / 128) as i32;
            let top: i32 = if decayed > r {
                decayed
            } else {
                r
            };
            self.peak[b] = Q16(top);
            assert(Q16(top) == peaks[b as int]);
            out[b] =
            if top <= 16 {
                0
            } else {
                proof {
                    let (x, y) = (r as int, top as int);
                    assert(0 <= x * 255 / y <= 255) by (nonlinear_arith)
                        requires
                            0 <= x <= y,
                            y > 0,
                    ;
                }
                (r as u64 * 255 / top as u64) as u8
            };
            b += 1;
        }
        assert(self.peak@ =~= peaks);
        assert(out@ =~= banded(raw@, peaks));
        assert forall|k: int| 0 <= k < BANDS implies 0 <= (#[trigger] self@.peak[k]).0 by {
            assert(self.peak@[k] == peaks[k]);
        }
        out
    }

    fn overall_level(&mut self, bands: &[u8; BANDS]) -> (level: u8)
        requires
            old(self).wf(),
        ensures
            final(self).wf(),
            level == byte_total(bands@) / BANDS as int,
            final(self)@ == (AnalyzerModel {
                smoothed: old(self)@.smoothed + (level * 256 - old(self)@.smoothed) / 8,
                ..old(self)@
            }),
    {
        let mut sum: u32 = 0;
        let mut b: usize = 0;
        assert(bands@.take(0) =~= Seq::<u8>::empty());
        while b < BANDS
            invariant
                b <= BANDS,
                sum == byte_total(bands@.take(b as int)),
                sum <= 255 * b,
            decreases BANDS - b,
        {
            assert(bands@.take(b + 1).drop_last() =~= bands@.take(b as int));
            sum = sum + bands[b] as u32;
            b += 1;
        }
        assert(bands@.take(b as int) =~= bands@);
        let level: u8 = (sum / 32) as u8;
        // An exponential moving average, one eighth of the way to the new value
        // each frame.
        let target: i64 = level as i64 * 256;
        let step: i64 = floor_div(target - self.smoothed as i64, 8);
        self.smoothed = (self.smoothed as i64 + step) as i32;
        level
    }

    /// Spectral flux: how much energy *rose* since the last frame.
    fn spectral_flux(&self, raw: &[Q16; BANDS]) -> (r: Q16)
        requires
            self.wf(),
            forall|b: int| 0 <= b < BANDS ==> 0 <= (#[trigger] raw@[b]).0,
        ensures
            r.0 == risen(raw@, self@.prev, BANDS as nat) / BANDS as int,
            r.0 >= 0,
    {
        let mut sum: i64 = 0;
        let mut b: usize = 0;
        while b < BANDS
            invariant
                self.wf(),
                b <= BANDS,
                forall|k: int| 0 <= k < BANDS ==> 0 <= (#[trigger] raw@[k]).0,
                sum == risen(raw@, self@.prev, b as nat),
                0 <= sum <= b * i32::MAX,
            decreases BANDS - b,
        {
            assert(self@.prev[b as int] == self.prev@[b as int]);
            assert(raw@[b as int].0 >= 0 && self@.prev[b as int].0 >= 0);
            let d: i64 = raw[b].0 as i64 - self.prev[b].0 as i64;
            if d > 0 {
                sum = sum + d;
            }
            b += 1;
        }
        Q16((sum as u64 / 32) as i32)
    }

    /// Store the flux and decide whether this frame is an onset.
    ///
    /// The threshold is relative to the recent mean: music gets louder and
    /// quieter.
    fn record_flux(&mut self, flux: Q16) -> (onset: bool)
        requires
            old(self).wf(),
            flux.0 >= 0,
        ensures
            final(self).wf(),
            final(self)@ == (AnalyzerModel {
                history: old(self)@.recorded(flux),
                ..old(self)@
            }),
            onset == is_onset(old(self)@.recorded(flux), flux),
    {
        let ghost was = self@;
        if self.flux.len() >= HISTORY {
            let _oldest = self.flux.remove(0);
            assert(self.flux@ =~= was.history.drop_first());
        }
        self.flux.push(flux);
        proof {
            let now = was.recorded(flux);
            assert(self.flux@ =~= now);
            assert forall|i: int| 0 <= i < now.len() implies 0 <= (#[trigger] now[i]).0 by {
                if i < now.len() - 1 {
                    if was.history.len() >= HISTORY {
                        assert(now[i] == was.history[i + 1]);
                    } else {
                        assert(now[i] == was.history[i]);
                    }
                }
            }
            assert(self@ =~= (AnalyzerModel { history: now, ..was }));
        }
        if self.flux.len() < 8 {
            return false;
        }
        let mean: i64 = self.mean_flux();
        flux.0 as i64 > (mean as u64 * 3 / 2) as i64 && flux.0 > 8
    }

    /// The mean onset strength of the history.
    fn mean_flux(&self) -> (mean: i64)
        requires
            self.wf(),
            self@.history.len() > 0,
        ensures
            mean == total(self@.history) / self@.history.len() as int,
            0 <= mean <= i32::MAX,
    {
        let mut sum: i64 = 0;
        let mut i: usize = 0;
        assert(self.flux@.take(0) =~= Seq::<Q16>::empty());
        while i < self.flux.len()
            invariant
                self.wf(),
                i <= self.flux@.len(),
                self.flux@.len() <= HISTORY,
                sum == total(self.flux@.take(i as int)),
                0 <= sum <= i * i32::MAX,
            decreases self.flux@.len() - i,
        {
            assert(self.flux@.take(i + 1).drop_last() =~= self.flux@.take(i as int));
            assert(0 <= self@.history[i as int].0);
            sum = sum + self.flux[i].0 as i64;
            i += 1;
        }
        assert(self.flux@.take(i as int) =~= self.flux@);
        proof {
            let (t, n) = (sum as int, i as int);
            assert(0 <= t / n <= i32::MAX) by (nonlinear_arith)
                requires
                    0 <= t <= n * i32::MAX,
                    n >= 1,
            ;
        }
        (sum as u64 / self.flux.len() as u64) as i64
    }

    /// Estimate the beat period by comparing the onset history with itself.
    ///
    /// A tempo is a repeat in *when* energy rises, not in the audio itself.
    fn track_tempo(&mut self)
        requires
            old(self).wf(),
        ensures
            final(self).wf(),
            ({
                let (period, confidence) = old(self)@.tempo(old(self)@.history);
                final(self)@ == (AnalyzerModel { period, confidence, ..old(self)@ })
            }),
    {
        let ghost was = self@;
        let rate: u32 = self.frame_rate();
        let fr: u32 = if rate < 1 {
            1
        } else {
            rate
        };
        let shortest: u32 = fr * 60 / MAX_BPM;
        let longest: u32 = fr * 60 / MIN_BPM;
        let lo: usize = if shortest < 2 {
            2
        } else {
            shortest as usize
        };
        let hi: usize = if longest > 128 {
            128
        } else {
            longest as usize
        };
        assert((lo as int, hi as int) == was.lags());
        let n: usize = self.flux.len();
        if n < hi * 2 || hi <= lo {
            return;
        }
        // About its mean, not its raw value: onset strength is never negative, so
        // a raw comparison is dominated by the constant part.
        let mean: i64 = self.mean_flux();
        let ghost history = was.history;
        let mut best_lag: usize = 0;
        let mut best: i128 = 0;
        let mut sum: i128 = 0;
        let mut lag: usize = lo;
        while lag <= hi
            invariant
                self.wf(),
                self@ == was,
                history == was.history,
                n == self.flux@.len(),
                n <= HISTORY,
                2 <= lo < hi <= 128,
                n >= hi * 2,
                mean == total(history) / history.len() as int,
                0 <= mean <= i32::MAX,
                lo <= lag <= hi + 1,
                best_lag <= hi,
                0 <= best <= 0x1_0000_0000_0000_0000_0000,
                -(lag - lo) * 0x1_0000_0000_0000_0000_0000 <= sum <= (lag - lo)
                    * 0x1_0000_0000_0000_0000_0000,
                best_lag == 0 <==> best == 0,
                (Search { lag: best_lag as int, best: best as int, sum: sum as int }) == searched(
                    history,
                    mean as int,
                    lo as int,
                    lag as int,
                ),
            decreases hi + 1 - lag,
        {
            let here: i128 = self.score_of(mean, lag);
            sum = sum + here;
            if here > best {
                best = here;
                best_lag = lag;
            }
            lag += 1;
        }
        if best_lag == 0 {
            self.confidence = 0;
            assert(self@ =~= (AnalyzerModel { confidence: 0, ..was }));
            return;
        }
        // Confidence is how far the winner stands above the average candidate.
        let count: i128 = (hi - lo + 1) as i128;
        proof {
            let (t, c) = (sum as int, count as int);
            lemma_quotient_bound(t, c, 0x1_0000_0000_0000_0000_0000int * 128);
        }
        let average: i128 = quotient_of(sum, count);
        self.confidence =
        if average <= 0 {
            0
        } else {
            let edge: i128 = quotient_of((best - average) * 255, best);
            if edge < 0 {
                0
            } else if edge > 255 {
                255
            } else {
                edge as u8
            }
        };
        self.period_frames = best_lag as u32;
    }

    /// How alike the history is to itself `lag` frames later.
    fn score_of(&self, mean: i64, lag: usize) -> (r: i128)
        requires
            self.wf(),
            0 <= mean <= i32::MAX,
            1 <= lag < self@.history.len(),
        ensures
            r == score(self@.history, mean as int, lag as int),
            -0x1_0000_0000_0000_0000_0000 <= r <= 0x1_0000_0000_0000_0000_0000,
    {
        let n: usize = self.flux.len();
        let ghost history = self@.history;
        let mut sum: i128 = 0;
        let mut i: usize = lag;
        while i < n
            invariant
                self.wf(),
                history == self@.history,
                n == history.len(),
                n <= HISTORY,
                0 <= mean <= i32::MAX,
                1 <= lag <= i <= n,
                sum == likeness(history, mean as int, lag as int, i as int),
                -(i - lag) * 0x4000_0000_0000_0000 <= sum <= (i - lag) * 0x4000_0000_0000_0000,
            decreases n - i,
        {
            assert(0 <= history[i as int].0 && 0 <= history[i - lag].0);
            let a: i128 = self.flux[i].0 as i128 - mean as i128;
            let b: i128 = self.flux[i - lag].0 as i128 - mean as i128;
            proof {
                let (x, y) = (a as int, b as int);
                assert(-0x4000_0000_0000_0000 <= x * y <= 0x4000_0000_0000_0000)
                    by (nonlinear_arith)
                    requires
                        -0x7fff_ffff <= x <= 0x7fff_ffff,
                        -0x7fff_ffff <= y <= 0x7fff_ffff,
                ;
            }
            sum = sum + a * b;
            i += 1;
        }
        proof {
            lemma_quotient_bound(sum as int, n - lag, 0x1_0000_0000_0000_0000_0000);
        }
        quotient_of(sum, (n - lag) as i128)
    }

    /// Move the phase on by one frame, and pull it toward a confident onset.
    fn advance_phase<F: Fn(Op, Q16, Q16, Q16) -> Q16>(&mut self, unit: &F, onset: bool)
        requires
            is_arithmetic(*unit),
            old(self).wf(),
        ensures
            final(self).wf(),
            final(self)@ == (AnalyzerModel {
                phase: old(self)@.phased(
                    beats(unit),
                    old(self)@.period,
                    old(self)@.confidence,
                    onset,
                ),
                ..old(self)@
            }),
    {
        if self.period_frames == 0 {
            self.phase = 0;
            return;
        }
        let step: i32 = ratio(unit, 1, self.period_frames as i32).0;
        let moved: i64 = wrapped(self.phase as i64 + step as i64);
        self.phase = moved as i32;
        // An onset is evidence that the beat is *now*.
        if onset && self.confidence > 64 {
            let error: i64 = if moved > 32_768 {
                moved - 65_536
            } else {
                moved
            };
            self.phase = wrapped(moved - floor_div(error, 4)) as i32;
        }
    }

    fn bpm_x4(&self) -> (r: u16)
        requires
            self.wf(),
        ensures
            r == self@.tempo_x4(self@.period),
    {
        if self.period_frames == 0 {
            return 0;
        }
        let tempo: u64 = self.frame_rate() as u64 * 240 / self.period_frames as u64;
        if tempo > 65_535 {
            65_535
        } else {
            tempo as u16
        }
    }
}

/// What is left of a number without its whole turns.
fn wrapped(v: i64) -> (r: i64)
    requires
        -0x1_0000_0000 <= v <= 0x1_0000_0000,
    ensures
        r == v as int % 65_536,
        0 <= r < 65_536,
{
    v - floor_div(v, 65_536) * 65_536
}

proof fn lemma_quotient_bound(a: int, b: int, limit: int)
    requires
        b >= 1,
        -limit <= a <= limit,
    ensures
        -limit <= quotient(a, b) <= limit,
{
    if a >= 0 {
        assert(0 <= a / b <= a) by (nonlinear_arith)
            requires
                a >= 0,
                b >= 1,
        ;
    } else {
        let c = -a;
        assert(0 <= c / b <= c) by (nonlinear_arith)
            requires
                c >= 0,
                b >= 1,
        ;
    }
}

/// The sum of the magnitudes from `lo` up to and without `hi`.
fn sum_between(mag: &[Q16; HALF_N], lo: usize, hi: usize) -> (sum: i64)
    requires
        lo <= hi <= HALF_N,
        forall|k: int| 0 <= k < HALF_N ==> 0 <= (#[trigger] mag@[k]).0,
    ensures
        sum == total(mag@.subrange(lo as int, hi as int)),
        0 <= sum <= (hi - lo) * i32::MAX,
{
    let mut sum: i64 = 0;
    let mut i: usize = lo;
    assert(mag@.subrange(lo as int, lo as int) =~= Seq::<Q16>::empty());
    while i < hi
        invariant
            lo <= i <= hi <= HALF_N,
            forall|k: int| 0 <= k < HALF_N ==> 0 <= (#[trigger] mag@[k]).0,
            sum == total(mag@.subrange(lo as int, i as int)),
            0 <= sum <= (i - lo) * i32::MAX,
        decreases hi - i,
    {
        assert(mag@.subrange(lo as int, i + 1).drop_last() =~= mag@.subrange(
            lo as int,
            i as int,
        ));
        assert(mag@[i as int].0 >= 0);
        sum = sum + mag[i].0 as i64;
        i += 1;
    }
    sum
}

/// `v / 2` without its fraction.
fn half_of(v: i32) -> (r: i32)
    ensures
        r == halved(v as int),
        -0x4000_0000 <= r <= 0x3fff_ffff,
{
    if v >= 0 {
        ((v as u32) / 2) as i32
    } else {
        let m: u32 = (-(v as i64)) as u32;
        -((m / 2) as i32)
    }
}

/// The analyser holds no clock: the same samples come to the same frames, however
/// they are handed over.
pub proof fn law_chunks_do_not_matter(
    m: AnalyzerModel,
    beat: spec_fn(int) -> int,
    a: Seq<i16>,
    b: Seq<i16>,
)
    ensures
        m.fed(beat, a + b).0 == m.fed(beat, a).0.fed(beat, b).0,
        m.fed(beat, a + b).1 == m.fed(beat, a).1 + m.fed(beat, a).0.fed(beat, b).1,
    decreases b.len(),
{
    if b.len() == 0 {
        assert(a + b =~= a);
        assert(m.fed(beat, a).1 + Seq::<FrameModel>::empty() =~= m.fed(beat, a).1);
    } else {
        law_chunks_do_not_matter(m, beat, a, b.drop_last());
        assert((a + b).drop_last() =~= a + b.drop_last());
        assert((a + b).last() == b.last());
        let (x, y) = (m.fed(beat, a).1, m.fed(beat, a).0);
        let part = y.fed(beat, b.drop_last());
        let heard = part.0.heard(b.last());
        let frame = heard.analyzed(beat).1;
        assert((x + part.1).push(frame) =~= x + part.1.push(frame));
    }
}

/// Frames come one a hop, and none before the first window is full.
pub proof fn law_one_frame_a_hop<F: Fn(Op, Q16, Q16, Q16) -> Q16>(
    unit: &F,
    sample_rate: u32,
    samples: Seq<i16>,
)
    ensures
        ({
            let (m, frames) = AnalyzerModel::fresh(unit, sample_rate).fed(
                beats(unit),
                samples,
            );
            &&& m.since == samples.len() as int % HOP as int
            &&& m.seen == if samples.len() < N {
                samples.len() as int
            } else {
                N as int
            }
            &&& frames.len() == if samples.len() < N {
                0
            } else {
                samples.len() as int / HOP as int - 1
            }
        }),
    decreases samples.len(),
{
    if samples.len() > 0 {
        law_one_frame_a_hop(unit, sample_rate, samples.drop_last());
    }
}

/// Whether an analyser has heard nothing but silence.
pub open spec fn hushed(m: AnalyzerModel) -> bool {
    &&& m.valid()
    &&& forall|i: int| 0 <= i < N ==> #[trigger] m.recent[i] == Q16(0)
    &&& forall|b: int| 0 <= b < BANDS ==> #[trigger] m.peak[b] == Q16(0)
    &&& forall|b: int| 0 <= b < BANDS ==> #[trigger] m.prev[b] == Q16(0)
    &&& forall|i: int| 0 <= i < m.history.len() ==> #[trigger] m.history[i] == Q16(0)
    &&& m.smoothed == 0
    &&& m.phase == 0
    &&& m.period == 0
    &&& m.confidence == 0
}

/// The frame of silence: nothing.
pub open spec fn blank(frame: FrameModel) -> bool {
    &&& forall|b: int| 0 <= b < BANDS ==> #[trigger] frame.bands[b] == 0
    &&& frame.level == 0
    &&& frame.smoothed_level == 0
    &&& !frame.onset
    &&& frame.beat_phase == 0
    &&& frame.bpm_x4 == 0
    &&& frame.confidence == 0
}

proof fn lemma_zero_total(v: Seq<Q16>)
    requires
        forall|i: int| 0 <= i < v.len() ==> #[trigger] v[i] == Q16(0),
    ensures
        total(v) == 0,
    decreases v.len(),
{
    if v.len() > 0 {
        let rest = v.drop_last();
        assert forall|i: int| 0 <= i < rest.len() implies #[trigger] rest[i] == Q16(0) by {
            assert(rest[i] == v[i]);
        }
        lemma_zero_total(rest);
        assert(v[v.len() - 1] == Q16(0));
    }
}

proof fn lemma_zero_bytes(v: Seq<u8>)
    requires
        forall|i: int| 0 <= i < v.len() ==> #[trigger] v[i] == 0,
    ensures
        byte_total(v) == 0,
    decreases v.len(),
{
    if v.len() > 0 {
        let rest = v.drop_last();
        assert forall|i: int| 0 <= i < rest.len() implies #[trigger] rest[i] == 0 by {
            assert(rest[i] == v[i]);
        }
        lemma_zero_bytes(rest);
        assert(v[v.len() - 1] == 0);
    }
}

proof fn lemma_nothing_risen(now: Seq<Q16>, before: Seq<Q16>, n: nat)
    requires
        n <= now.len(),
        n <= before.len(),
        forall|b: int| 0 <= b < now.len() ==> #[trigger] now[b] == Q16(0),
        forall|b: int| 0 <= b < before.len() ==> #[trigger] before[b] == Q16(0),
    ensures
        risen(now, before, n) == 0,
    decreases n,
{
    if n > 0 {
        lemma_nothing_risen(now, before, (n - 1) as nat);
        assert(now[n - 1] == Q16(0) && before[n - 1] == Q16(0));
    }
}

proof fn lemma_no_likeness(history: Seq<Q16>, lag: int, n: int)
    requires
        0 <= lag,
        n <= history.len(),
        forall|i: int| 0 <= i < history.len() ==> #[trigger] history[i] == Q16(0),
    ensures
        likeness(history, 0, lag, n) == 0,
    decreases n - lag,
{
    if n > lag {
        lemma_no_likeness(history, lag, n - 1);
        assert(history[n - 1] == Q16(0));
        assert(history[n - 1 - lag] == Q16(0));
        let (a, b) = (history[n - 1].0 - 0, history[n - 1 - lag].0 - 0);
        assert(a * b == 0) by (nonlinear_arith)
            requires
                a == 0,
        ;
    }
}

proof fn lemma_no_repeat(history: Seq<Q16>, from: int, to: int)
    requires
        0 <= from,
        to <= history.len(),
        forall|i: int| 0 <= i < history.len() ==> #[trigger] history[i] == Q16(0),
    ensures
        searched(history, 0, from, to) == (Search { lag: 0, best: 0, sum: 0 }),
    decreases to - from,
{
    if to > from {
        lemma_no_repeat(history, from, to - 1);
        lemma_no_likeness(history, to - 1, history.len() as int);
        let places = history.len() - (to - 1);
        assert(0int / places == 0) by (nonlinear_arith)
            requires
                places > 0,
        ;
    }
}

proof fn lemma_hushed_bins(m: AnalyzerModel)
    requires
        hushed(m),
    ensures
        forall|k: int| 0 <= k < HALF_N ==> #[trigger] m.bins()[k] == Q16(0),
{
    let w = m.weighted();
    let zero = Complex { re: 0, im: 0 };
    assert forall|i: int| 0 <= i < w.len() implies #[trigger] w[i] == zero by {
        assert(m.recent[i] == Q16(0));
        assert(0 * (m.window[i].0 as int) == 0);
    }
    assert(two_to(10) == 1024) by {
        reveal_with_fuel(two_to, 11);
    }
    law_silence_transforms_to_nothing(m.turns, w, 10);
    assert forall|k: int| 0 <= k < HALF_N implies #[trigger] m.bins()[k] == Q16(0) by {
        assert(w[k] == zero);
        assert(zero.re * zero.re + zero.im * zero.im == 0) by (nonlinear_arith)
            requires
                zero.re == 0,
                zero.im == 0,
        ;
        assert(is_root(0, zero.re * zero.re + zero.im * zero.im));
        assert(is_length(Q16(0), zero));
        law_one_length(Q16(0), length_of(zero), zero);
    }
}

/// Analysing silence comes to nothing, and leaves the analyser as silent.
proof fn lemma_hushed_frame(m: AnalyzerModel, beat: spec_fn(int) -> int)
    requires
        hushed(m),
    ensures
        hushed(m.analyzed(beat).0),
        blank(m.analyzed(beat).1),
{
    let (after, frame) = m.analyzed(beat);
    lemma_hushed_bins(m);
    let raw = m.raw();
    assert forall|b: int| 0 <= b < BANDS implies #[trigger] raw[b] == Q16(0) by {
        let (lo, hi) = m.reach(b);
        assert(m.edges[b] <= HALF_N && m.edges[b + 1] <= HALF_N);
        let part = m.bins().subrange(lo, hi);
        assert forall|k: int| 0 <= k < part.len() implies #[trigger] part[k] == Q16(0) by {
            assert(part[k] == m.bins()[lo + k]);
        }
        lemma_zero_total(part);
        let width = if hi > lo {
            hi - lo
        } else {
            1
        };
        assert(0int / width == 0) by (nonlinear_arith)
            requires
                width > 0,
        ;
    }
    let peaks = m.peaks(raw);
    assert forall|b: int| 0 <= b < BANDS implies #[trigger] peaks[b] == Q16(0) by {
        assert(m.peak[b] == Q16(0) && raw[b] == Q16(0));
    }
    let bands = banded(raw, peaks);
    assert forall|b: int| 0 <= b < BANDS implies #[trigger] bands[b] == 0 by {
        assert(peaks[b] == Q16(0));
    }
    lemma_zero_bytes(bands);
    lemma_nothing_risen(raw, m.prev, BANDS as nat);
    let history = m.recorded(Q16(0));
    assert forall|i: int| 0 <= i < history.len() implies #[trigger] history[i] == Q16(0) by {
        if i < history.len() - 1 {
            if m.history.len() >= HISTORY {
                assert(history[i] == m.history[i + 1]);
            } else {
                assert(history[i] == m.history[i]);
            }
        }
    }
    assert(after.history == history);
    lemma_zero_total(history);
    let (lo, hi) = m.lags();
    let count = history.len() as int;
    assert(0int / count == 0) by (nonlinear_arith)
        requires
            count > 0,
    ;
    if history.len() >= hi * 2 && hi > lo {
        lemma_no_repeat(history, lo, hi + 1);
    }
}

/// Silence has no level, no bands, no onsets, no tempo and no phase, however long
/// it lasts.
pub proof fn law_silence_is_silent(
    m: AnalyzerModel,
    beat: spec_fn(int) -> int,
    samples: Seq<i16>,
)
    requires
        hushed(m),
        forall|i: int| 0 <= i < samples.len() ==> #[trigger] samples[i] == 0,
    ensures
        hushed(m.fed(beat, samples).0),
        forall|i: int|
            0 <= i < m.fed(beat, samples).1.len() ==> blank(#[trigger] m.fed(beat, samples).1[i]),
    decreases samples.len(),
{
    if samples.len() > 0 {
        let rest = samples.drop_last();
        assert forall|i: int| 0 <= i < rest.len() implies #[trigger] rest[i] == 0 by {
            assert(rest[i] == samples[i]);
        }
        law_silence_is_silent(m, beat, rest);
        let (before, frames) = m.fed(beat, rest);
        assert(samples[samples.len() - 1] == 0);
        let heard = before.heard(0);
        assert forall|i: int| 0 <= i < N implies #[trigger] heard.recent[i] == Q16(0) by {
            if i < N - 1 {
                assert(heard.recent[i] == before.recent[i + 1]);
            }
        }
        assert(hushed(heard));
        lemma_hushed_frame(heard, beat);
        let all = m.fed(beat, samples).1;
        assert forall|i: int| 0 <= i < all.len() implies blank(#[trigger] all[i]) by {
            if i < frames.len() {
                assert(all[i] == frames[i]);
            }
        }
    }
}

/// A fresh analyser has heard nothing.
pub proof fn law_a_fresh_analyser_is_silent<F: Fn(Op, Q16, Q16, Q16) -> Q16>(
    unit: &F,
    sample_rate: u32,
)
    ensures
        hushed(AnalyzerModel::fresh(unit, sample_rate)),
{
    let m = AnalyzerModel::fresh(unit, sample_rate);
    assert forall|b: int| 0 <= b < EDGES implies #[trigger] m.edges[b] <= HALF_N by {
        law_band_edges_cover_the_spectrum(unit, sample_rate, b as nat);
    }
}

/// A band at its own peak fills the range, whether the music is quiet or loud, so
/// long as it is above the floor.
pub proof fn law_a_band_at_its_peak_fills_the_range(raw: Seq<Q16>, peaks: Seq<Q16>, b: int)
    requires
        0 <= b < BANDS,
        raw.len() == BANDS,
        peaks.len() == BANDS,
        raw[b] == peaks[b],
        peaks[b].0 > 16,
    ensures
        banded(raw, peaks)[b] == 255,
{
    let p = peaks[b].0 as int;
    assert(p * 255 / p == 255) by (nonlinear_arith)
        requires
            p > 0,
    ;
}

/// The gain decays rather than latching: a peak that nothing renews falls.
pub proof fn law_peaks_decay(m: AnalyzerModel, raw: Seq<Q16>, b: int)
    requires
        m.valid(),
        raw.len() == BANDS,
        0 <= b < BANDS,
        raw[b].0 < m.peak[b].0,
        m.peak[b].0 >= 128,
    ensures
        m.peaks(raw)[b].0 < m.peak[b].0,
        m.peaks(raw)[b].0 >= raw[b].0,
{
    assert(m.peak[b].0 >= 0);
}

proof fn lemma_byte_total_bound(v: Seq<u8>)
    ensures
        0 <= byte_total(v) <= 255 * v.len(),
    decreases v.len(),
{
    if v.len() > 0 {
        lemma_byte_total_bound(v.drop_last());
    }
}

/// The level is the mean of the bands, dropping the fraction.
pub proof fn law_the_level_is_the_mean_of_the_bands(m: AnalyzerModel, beat: spec_fn(int) -> int)
    ensures
        ({
            let f = m.analyzed(beat).1;
            &&& f.bands.len() == 32
            &&& 32 * f.level <= byte_total(f.bands) < 32 * f.level + 32
        }),
{
    lemma_byte_total_bound(m.analyzed(beat).1.bands);
}

/// The smoothed level follows the level, an eighth of the way each frame, in 256ths: it
/// is not the level itself. After silence the first loud frame shows an eighth of its
/// level, and no frame moves it by more than an eighth of what it is away.
pub proof fn law_the_smoothed_level_follows_slowly(m: AnalyzerModel, beat: spec_fn(int) -> int)
    requires
        m.valid(),
    ensures
        ({
            let (after, f) = m.analyzed(beat);
            let away = 256 * f.level - m.smoothed;
            let moved = after.smoothed - m.smoothed;
            &&& 8 * moved <= away < 8 * moved + 8
            &&& 256 * f.smoothed_level <= after.smoothed < 256 * f.smoothed_level + 256
            &&& m.smoothed == 0 ==> f.smoothed_level == f.level as int / 8
            &&& away >= 0 ==> m.smoothed <= after.smoothed <= 256 * f.level
            &&& away <= 0 ==> 256 * f.level <= after.smoothed <= m.smoothed
        }),
{
    lemma_byte_total_bound(m.analyzed(beat).1.bands);
}

/// A band is what it holds now, in 255ths of the loudest it has lately held. The loudest
/// is renewed by what is louder and otherwise falls by a hundred and twenty-eighth a
/// frame; below the floor there is nothing to show.
pub proof fn law_bands_are_measured_against_their_peaks(
    m: AnalyzerModel,
    beat: spec_fn(int) -> int,
    b: int,
)
    requires
        m.valid(),
        0 <= b < 32,
    ensures
        ({
            let (after, f) = m.analyzed(beat);
            let now = after.prev[b].0 as int;
            let peak = after.peak[b].0 as int;
            let faded = m.peak[b].0 - m.peak[b].0 as int / 128;
            &&& now >= 0
            &&& peak >= now && peak >= faded
            &&& peak == now || peak == faded
            &&& peak <= 16 ==> f.bands[b] == 0
            &&& peak > 16 ==> f.bands[b] * peak <= now * 255 < f.bands[b] * peak + peak
        }),
{
    lemma_raw_is_no_less_than_nothing(m, b);
    let (after, f) = m.analyzed(beat);
    let now = after.prev[b].0 as int;
    let peak = after.peak[b].0 as int;
    assert(m.peak[b].0 >= 0);
    if peak > 16 {
        let q = now * 255 / peak;
        assert(0 <= q <= 255 && q * peak <= now * 255 < q * peak + peak) by (nonlinear_arith)
            requires
                0 <= now <= peak,
                16 < peak,
                q == now * 255 / peak,
        ;
    }
}

proof fn lemma_raw_is_no_less_than_nothing(m: AnalyzerModel, b: int)
    requires
        m.valid(),
        0 <= b < 32,
    ensures
        ({
            let (lo, hi) = m.reach(b);
            let width = if hi > lo {
                hi - lo
            } else {
                1
            };
            let all = total(m.bins().subrange(lo, hi));
            &&& 0 <= lo <= hi <= 512
            &&& 0 <= all / width <= i32::MAX
            &&& m.raw()[b].0 == all / width
            &&& m.raw()[b].0 >= 0
        }),
{
    let (lo, hi) = m.reach(b);
    assert(m.edges[b] <= HALF_N && m.edges[b + 1] <= HALF_N);
    let part = m.bins().subrange(lo, hi);
    assert forall|i: int| 0 <= i < part.len() implies 0 <= (#[trigger] part[i]).0 by {
        let spectrum = transformed(m.turns, m.weighted(), LOG2_N as nat);
        law_a_length_is_the_root_of_the_squares(spectrum[lo + i]);
    }
    lemma_total_bound(part);
    let (all, n) = (total(part), hi - lo);
    if n > 0 {
        assert(0 <= all / n <= i32::MAX) by (nonlinear_arith)
            requires
                0 <= all <= n * i32::MAX,
                n > 0,
        ;
    }
}

/// What a band holds is the mean of the bins from its edge to the next, so that a wide
/// band is not louder for being wide.
pub proof fn law_a_band_is_the_mean_of_its_bins(
    m: AnalyzerModel,
    beat: spec_fn(int) -> int,
    b: int,
)
    requires
        m.valid(),
        0 <= b < 32,
        m.edges[b] < m.edges[b + 1],
    ensures
        ({
            let held = m.analyzed(beat).0.prev[b].0 as int;
            let (lo, hi) = (m.edges[b] as int, m.edges[b + 1] as int);
            let all = total(m.bins().subrange(lo, hi));
            held * (hi - lo) <= all < held * (hi - lo) + (hi - lo)
        }),
{
    lemma_raw_is_no_less_than_nothing(m, b);
    let (lo, hi) = m.reach(b);
    let (all, n) = (total(m.bins().subrange(lo, hi)), hi - lo);
    assert((all / n) * n <= all < (all / n) * n + n) by (nonlinear_arith)
        requires
            n > 0,
    ;
}

/// A bin is how strong its frequency is in the last samples, each weighted by its place
/// in the window.
pub proof fn law_a_bin_is_a_strength_of_the_weighted_samples(m: AnalyzerModel, k: int, i: int)
    requires
        0 <= k < 512,
        0 <= i < 1_024,
    ensures
        ({
            let weighted = m.weighted();
            &&& weighted.len() == 1_024
            &&& weighted[i].im == 0
            &&& 65_536 * weighted[i].re <= m.recent[i].0 * m.window[i].0 < 65_536 * weighted[i].re
                + 65_536
            &&& m.bins().len() == 512
            &&& m.bins()[k] == length_of(transformed(m.turns, weighted, 10)[k])
        }),
{
}

/// What rose between two spectra, and nothing of what fell.
pub proof fn law_only_rises_count(now: Seq<Q16>, before: Seq<Q16>, n: nat)
    ensures
        risen(now, before, 0) == 0,
        now[n as int].0 >= before[n as int].0 ==> risen(now, before, n + 1) == risen(
            now,
            before,
            n,
        ) + now[n as int].0 - before[n as int].0,
        now[n as int].0 <= before[n as int].0 ==> risen(now, before, n + 1) == risen(
            now,
            before,
            n,
        ),
{
}

/// Sums add up.
pub proof fn law_sums_add_up(v: Seq<Q16>, q: Q16, w: Seq<u8>, x: u8)
    ensures
        total(Seq::empty()) == 0,
        total(v.push(q)) == total(v) + q.0,
        byte_total(Seq::empty()) == 0,
        byte_total(w.push(x)) == byte_total(w) + x,
{
    assert(v.push(q).drop_last() =~= v);
    assert(w.push(x).drop_last() =~= w);
}

/// Every frame records how much energy rose in it, over the bands, and forgets what is
/// more than two hundred and fifty-six frames old. It is an onset where that is half as
/// much again as the mean of what is on record, is more than a trifle, and eight frames
/// are on record.
pub proof fn law_an_onset_stands_out(m: AnalyzerModel, beat: spec_fn(int) -> int)
    requires
        m.valid(),
    ensures
        ({
            let (after, f) = m.analyzed(beat);
            let rose = risen(after.prev, m.prev, 32);
            let strength = after.history.last().0 as int;
            let mean = total(after.history) / after.history.len() as int;
            &&& after.prev == m.raw()
            &&& 0 < after.history.len() <= 256
            &&& 32 * strength <= rose < 32 * strength + 32
            &&& m.history.len() < 256 ==> after.history.drop_last() == m.history
            &&& m.history.len() == 256 ==> after.history.drop_last() == m.history.drop_first()
            &&& f.onset <==> after.history.len() >= 8 && strength > mean * 3 / 2 && strength > 8
        }),
{
    let (after, f) = m.analyzed(beat);
    lemma_risen_bound(after.prev, m.prev, 32, m);
    if m.history.len() < 256 {
        assert(after.history.drop_last() =~= m.history);
    } else {
        assert(after.history.drop_last() =~= m.history.drop_first());
    }
}

proof fn lemma_risen_bound(now: Seq<Q16>, before: Seq<Q16>, n: nat, m: AnalyzerModel)
    requires
        m.valid(),
        n <= 32,
        now == m.raw(),
        before == m.prev,
    ensures
        0 <= risen(now, before, n) <= n * i32::MAX,
    decreases n,
{
    if n > 0 {
        lemma_risen_bound(now, before, (n - 1) as nat, m);
        lemma_raw_is_no_less_than_nothing(m, n - 1);
        assert(m.prev[n - 1].0 >= 0);
    }
}

/// How alike a history is to itself some frames ago: each pair of frames that far apart
/// counts by how much the two stand above or below the mean together.
pub proof fn law_likeness_adds_up(history: Seq<Q16>, mean: int, lag: int, n: int)
    requires
        0 <= lag <= n,
    ensures
        likeness(history, mean, lag, lag) == 0,
        likeness(history, mean, lag, n + 1) == likeness(history, mean, lag, n) + (history[n].0
            - mean) * (history[n - lag].0 - mean),
{
}

/// A score is the mean likeness of the pairs, so that a long lag does not lose for having
/// fewer of them.
pub proof fn law_a_score_is_a_mean(history: Seq<Q16>, mean: int, lag: int)
    requires
        0 <= lag < history.len(),
    ensures
        ({
            let pairs = history.len() - lag;
            let all = likeness(history, mean, lag, history.len() as int);
            let each = score(history, mean, lag);
            &&& all >= 0 ==> each * pairs <= all < each * pairs + pairs
            &&& all < 0 ==> each * pairs - pairs < all <= each * pairs
        }),
{
    let pairs = history.len() - lag;
    let all = likeness(history, mean, lag, history.len() as int);
    let size = if all >= 0 {
        all
    } else {
        -all
    };
    let q = size / pairs;
    assert(q * pairs <= size < q * pairs + pairs && (-q) * pairs == -(q * pairs))
        by (nonlinear_arith)
        requires
            q == size / pairs,
            pairs > 0,
            size >= 0,
    ;
}

/// The scores of some lags, added up.
pub open spec fn scores(history: Seq<Q16>, mean: int, from: int, to: int) -> int
    decreases to - from,
{
    if to <= from {
        0
    } else {
        scores(history, mean, from, to - 1) + score(history, mean, to - 1)
    }
}

proof fn lemma_searched(history: Seq<Q16>, mean: int, from: int, to: int)
    requires
        0 < from <= to,
    ensures
        ({
            let found = searched(history, mean, from, to);
            &&& found.sum == scores(history, mean, from, to)
            &&& found.best >= 0
            &&& found.lag == 0 <==> found.best == 0
            &&& forall|lag: int| from <= lag < to ==> #[trigger] score(history, mean, lag)
                <= found.best
            &&& found.lag != 0 ==> {
                &&& from <= found.lag < to
                &&& score(history, mean, found.lag) == found.best
                &&& forall|lag: int| from <= lag < found.lag ==> #[trigger] score(
                    history,
                    mean,
                    lag,
                ) < found.best
            }
            &&& found.sum <= (to - from) * found.best
        }),
    decreases to - from,
{
    if to > from {
        lemma_searched(history, mean, from, to - 1);
        let before = searched(history, mean, from, to - 1);
        let after = searched(history, mean, from, to);
        assert((to - 1 - from) * before.best <= (to - 1 - from) * after.best && (to - from)
            * after.best == (to - 1 - from) * after.best + after.best) by (nonlinear_arith)
            requires
                to - 1 - from >= 0,
                before.best <= after.best,
        ;
    }
}

/// The tempo is the repeat that fits best. Once there is history enough, of all the lags
/// from two hundred beats a minute to sixty the period is the shortest with the highest
/// score, and confidence is how far that stands above the mean score; where no lag has a
/// score the period stays, without confidence. Until there is history enough both stay.
pub proof fn law_the_tempo_is_the_best_repeat(m: AnalyzerModel, beat: spec_fn(int) -> int)
    requires
        m.valid(),
    ensures
        ({
            let (after, f) = m.analyzed(beat);
            let history = after.history;
            let fr = if m.sample_rate < 512 {
                1
            } else {
                m.sample_rate as int / 512
            };
            let lo = if fr * 60 / 200 < 2 {
                2
            } else {
                fr * 60 / 200
            };
            let hi = if fr > 128 {
                128
            } else {
                fr
            };
            let mean = total(history) / history.len() as int;
            let best = score(history, mean, after.period);
            let average = scores(history, mean, lo, hi + 1);
            &&& f.confidence == after.confidence
            &&& history.len() < 2 * hi || hi <= lo ==> after.period == m.period && after.confidence
                == m.confidence
            &&& history.len() >= 2 * hi && hi > lo ==> {
                if exists|lag: int| lo <= lag <= hi && #[trigger] score(history, mean, lag) > 0 {
                    &&& lo <= after.period <= hi
                    &&& best > 0
                    &&& forall|lag: int| lo <= lag <= hi ==> #[trigger] score(history, mean, lag)
                        <= best
                    &&& forall|lag: int| lo <= lag < after.period ==> #[trigger] score(
                        history,
                        mean,
                        lag,
                    ) < best
                    &&& average < hi - lo + 1 ==> after.confidence == 0
                    &&& average >= hi - lo + 1 ==> {
                        let typical = average / (hi - lo + 1);
                        after.confidence * best <= (best - typical) * 255 < after.confidence * best
                            + best
                    }
                } else {
                    after.period == m.period && after.confidence == 0
                }
            }
        }),
{
    let (after, f) = m.analyzed(beat);
    let history = after.history;
    let (lo, hi) = m.lags();
    let mean = total(history) / history.len() as int;
    assert(m.rate() == m.sample_rate as int / 512);
    if history.len() >= 2 * hi && hi > lo {
        lemma_searched(history, mean, lo, hi + 1);
        let found = searched(history, mean, lo, hi + 1);
        let n = hi - lo + 1;
        if found.lag != 0 {
            let sum = found.sum;
            assert(score(history, mean, found.lag) > 0);
            let typical = quotient(sum, n);
            if sum >= 0 {
                assert(0 <= sum / n <= found.best) by (nonlinear_arith)
                    requires
                        0 <= sum <= n * found.best,
                        n > 0,
                ;
                assert(sum < n ==> sum / n == 0) by (nonlinear_arith)
                    requires
                        0 <= sum,
                        n > 0,
                ;
                assert(sum >= n ==> sum / n >= 1) by (nonlinear_arith)
                    requires
                        n > 0,
                ;
                let (gap, best) = (found.best - typical, found.best);
                let q = gap * 255 / best;
                assert(0 <= q <= 255 && q * best <= gap * 255 < q * best + best)
                    by (nonlinear_arith)
                    requires
                        0 <= gap <= best,
                        best > 0,
                        q == gap * 255 / best,
                ;
            } else {
                assert((-sum) / n >= 0) by (nonlinear_arith)
                    requires
                        sum < 0,
                        n > 0,
                ;
            }
        }
    }
}

/// How far a place in the bar is from the nearest beat.
pub open spec fn off_beat(phase: int) -> int {
    if phase <= 32_768 {
        phase
    } else {
        65_536 - phase
    }
}

/// The phase moves on by one beat's share each frame and wraps; an onset that can be
/// trusted draws it a quarter of the way toward the nearest beat, never past it. Without
/// a tempo there is no phase. The tempo told is four times the beats in a minute.
pub proof fn law_the_phase_moves_with_the_beat(m: AnalyzerModel, beat: spec_fn(int) -> int)
    requires
        m.valid(),
    ensures
        ({
            let (after, f) = m.analyzed(beat);
            let moved = (m.phase + beat(after.period)) % 65_536;
            let drawn = f.onset && f.confidence > 64;
            let told = m.sample_rate as int / 512 * 240;
            &&& f.beat_phase == after.phase
            &&& after.period == 0 ==> f.beat_phase == 0 && f.bpm_x4 == 0
            &&& after.period != 0 && !drawn ==> after.phase == moved
            &&& after.period != 0 && drawn ==> {
                &&& -3 <= 4 * off_beat(after.phase) - 3 * off_beat(moved) <= 3
                &&& moved <= 32_768 ==> after.phase <= moved
                &&& moved > 32_768 ==> after.phase >= moved || after.phase == 0
            }
            &&& after.period > 0 && told < 65_536 * after.period ==> f.bpm_x4 * after.period <= told
                < f.bpm_x4 * after.period + after.period
        }),
{
    let (after, f) = m.analyzed(beat);
    let told = m.rate() * 240;
    let p = after.period;
    if p > 0 && told < 65_536 * p {
        let q = told / p;
        assert(0 <= q < 65_536 && q * p <= told < q * p + p) by (nonlinear_arith)
            requires
                0 <= told < 65_536 * p,
                p > 0,
                q == told / p,
        ;
    }
}

/// A sample is heard at twice its size and as the newest; the oldest is forgotten. A
/// window is done every five hundred and twelve samples, once a thousand and twenty-four
/// were heard.
pub proof fn law_what_hearing_does(m: AnalyzerModel, sample: i16, i: int)
    requires
        m.valid(),
        0 <= i < 1_023,
    ensures
        ({
            let after = m.heard(sample);
            &&& after.recent.len() == 1_024
            &&& after.recent[1_023].0 == 2 * sample
            &&& after.recent[i] == m.recent[i + 1]
            &&& after.since == (m.since + 1) % 512
            &&& m.completes() <==> m.since == 511 && m.seen >= 1_023
            &&& after == (AnalyzerModel {
                recent: after.recent,
                since: after.since,
                seen: after.seen,
                ..m
            })
        }),
{
}

/// What an analysis leaves alone: the samples, the window, the table and the edges.
pub proof fn law_an_analysis_only_measures(m: AnalyzerModel, beat: spec_fn(int) -> int)
    ensures
        ({
            let after = m.analyzed(beat).0;
            &&& after.recent == m.recent && after.since == m.since && after.seen == m.seen
            &&& after.window == m.window && after.turns == m.turns && after.edges == m.edges
            &&& after.sample_rate == m.sample_rate
        }),
{
}

/// A new analyser is set up for its rate: the window rises from the ends to the middle
/// with the cosine of its place, the table turns once round, and the bands run from the
/// edges that the rate gives. It has heard nothing.
pub proof fn law_a_new_analyser_is_set_up<F: Fn(Op, Q16, Q16, Q16) -> Q16>(
    unit: &F,
    sample_rate: u32,
    n: int,
    k: int,
    b: int,
)
    requires
        0 <= n < 1_024,
        0 <= k < 512,
        0 <= b < 33,
        -65_536 <= cosine(unit, ratio(unit, n as i32, 1_024)).0 <= 65_536,
    ensures
        ({
            let m = AnalyzerModel::fresh(unit, sample_rate);
            let wave = cosine(unit, ratio(unit, n as i32, 1_024)).0 as int;
            &&& m.sample_rate == sample_rate
            &&& -1 <= 65_536 - wave - 2 * m.window[n].0 <= 1
            &&& m.turns[k] == turn_of(unit, k)
            &&& m.edges[b] == band_edge(unit, sample_rate, b as nat)
            &&& m.recent[n] == Q16(0)
            &&& m.smoothed == 0 && m.phase == 0 && m.period == 0 && m.confidence == 0
            &&& m.history.len() == 0 && m.since == 0 && m.seen == 0
        }),
{
    law_band_edges_cover_the_spectrum(unit, sample_rate, b as nat);
}

/// The first band starts at forty hertz, or the first bin above nothing.
pub proof fn law_the_lowest_bin_is_forty_hertz(sample_rate: u32)
    requires
        80 <= sample_rate,
    ensures
        ({
            let bin = lowest_bin(sample_rate);
            &&& sample_rate <= 40_960 ==> bin * sample_rate <= 40_960 < bin * sample_rate
                + sample_rate
            &&& sample_rate > 40_960 ==> bin == 1
        }),
{
    let (rate, q) = (sample_rate as int, 40_960int / sample_rate as int);
    assert(q * rate <= 40_960 < q * rate + rate && 0 <= q <= 512) by (nonlinear_arith)
        requires
            rate >= 80,
            q == 40_960int / rate,
    ;
    assert(rate <= 40_960 ==> q >= 1) by (nonlinear_arith)
        requires
            rate >= 80,
            q == 40_960int / rate,
    ;
    assert(rate > 40_960 ==> q == 0) by (nonlinear_arith)
        requires
            rate >= 80,
            q == 40_960int / rate,
    ;
}

/// Between its ends the spectrum is cut where the ear would: edge `b` is the lowest bin
/// times two to the power of `b` thirty-seconds of the octaves there are, unless that is
/// no more than the edge before it, which it then follows.
pub proof fn law_edges_are_spaced_by_octaves<F: Fn(Op, Q16, Q16, Q16) -> Q16>(
    unit: &F,
    sample_rate: u32,
    b: nat,
)
    requires
        0 < b < 32,
    ensures
        ({
            let lo = lowest_bin(sample_rate);
            let octaves = log2(unit, ratio(unit, 512, lo as i32)).0 as int;
            let power = Q16(((ratio(unit, b as i32, 32).0 * octaves) / 65_536) as i32);
            let bin = (lo * exp2(unit, power).0) / 65_536;
            let last = band_edge(unit, sample_rate, (b - 1) as nat);
            &&& last < bin <= 512 && bin >= lo ==> band_edge(unit, sample_rate, b) == bin
            &&& 0 <= bin <= last && last < 512 && last >= lo ==> band_edge(unit, sample_rate, b)
                == last + 1
        }),
{
}

/// Samples are heard one after another, and a window that one of them completes is
/// analysed with it in; the frames come in that order. A beat's share of the phase is one
/// over its period.
pub proof fn law_what_feeding_does<F: Fn(Op, Q16, Q16, Q16) -> Q16>(
    unit: &F,
    m: AnalyzerModel,
    beat: spec_fn(int) -> int,
    samples: Seq<i16>,
    sample: i16,
    period: i32,
)
    ensures
        m.fed(beat, Seq::empty()) == (m, Seq::<FrameModel>::empty()),
        ({
            let (before, frames) = m.fed(beat, samples);
            let (after, all) = m.fed(beat, samples.push(sample));
            let heard = before.heard(sample);
            &&& before.since < 511 || before.seen < 1_023 ==> after == heard && all == frames
            &&& before.since == 511 && before.seen >= 1_023 ==> after == heard.analyzed(beat).0
                && all == frames.push(heard.analyzed(beat).1)
        }),
        beats(unit)(period as int) == ratio(unit, 1, period).0,
{
    assert(samples.push(sample).drop_last() =~= samples);
}

} // verus!
