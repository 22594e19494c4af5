//! A fixed-point radix-2 FFT.
//!
//! Fixed point, so that a recorded run replays identically.
//!
//! # Scaling
//!
//! Each stage halves its butterfly output, so the result is the true transform
//! divided by [`N`]. That costs one bit of precision per stage, which is
//! invisible here: the bands are normalised to a byte immediately afterwards, so
//! only the *shape* of the spectrum survives to the wire. Sums are taken in wider
//! integers, so no intermediate can overflow regardless of the input.

use vstd::prelude::*;

use crate::num::{floor_div, held, hold};
use crate::q16::{cosine, is_arithmetic, ratio, sine, Op, Q16};

verus! {

/// log2 of the transform size.
pub const LOG2_N: usize = 10;

/// Transform size. At 48 kHz this is a 21 ms window and a 47 Hz bin.
pub const N: usize = 1024;

/// Half the transform size.
pub const HALF_N: usize = 512;

/// `2` multiplied by itself `n` times.
pub open spec fn two_to(n: nat) -> nat
    decreases n,
{
    if n == 0 {
        1
    } else {
        2 * two_to((n - 1) as nat)
    }
}

/// `i`, an index of `bits` bits, with its bits in the opposite order.
pub open spec fn reversed(bits: nat, i: nat) -> nat
    decreases bits,
{
    if bits == 0 {
        0
    } else {
        reversed((bits - 1) as nat, i / 2) + (i % 2) * two_to((bits - 1) as nat)
    }
}

proof fn lemma_two_to(n: nat)
    ensures
        two_to(n) >= 1,
    decreases n,
{
    if n > 0 {
        lemma_two_to((n - 1) as nat);
    }
}

/// Reversing stays within the bits there are.
pub proof fn lemma_reversed_bound(bits: nat, i: nat)
    ensures
        reversed(bits, i) < two_to(bits),
    decreases bits,
{
    if bits > 0 {
        let m = (bits - 1) as nat;
        lemma_reversed_bound(m, i / 2);
        lemma_two_to(m);
        let w = two_to(m);
        assert((i % 2) * w <= w) by (nonlinear_arith)
            requires
                i % 2 <= 1,
                w >= 1,
        ;
    }
}

/// Reversing an index whose highest bit is `top`: that bit becomes the lowest.
proof fn lemma_reversed_top(bits: nat, low: nat, top: nat)
    requires
        bits > 0,
        low < two_to((bits - 1) as nat),
        top <= 1,
    ensures
        reversed(bits, low + top * two_to((bits - 1) as nat)) == 2 * reversed(
            (bits - 1) as nat,
            low,
        ) + top,
    decreases bits,
{
    let m = (bits - 1) as nat;
    let w = two_to(m);
    let i = low + top * w;
    if m == 0 {
        assert(low == 0 && w == 1);
        assert(i == top) by (nonlinear_arith)
            requires
                i == low + top * w,
                low == 0,
                w == 1,
        ;
        assert(reversed(0, i / 2) == 0);
        assert(reversed(1, i) == (i % 2) * 1);
    } else {
        let k = (m - 1) as nat;
        let v = two_to(k);
        assert(w == 2 * v);
        // The lowest bit of `i` is the lowest bit of `low`; the rest shifts down.
        assert(i % 2 == low % 2 && i / 2 == low / 2 + top * v) by (nonlinear_arith)
            requires
                i == low + top * w,
                w == 2 * v,
                top <= 1,
        ;
        lemma_reversed_top(m, low / 2, top);
        let b = low % 2;
        assert(reversed(bits, i) == reversed(m, i / 2) + b * w);
        assert(reversed(m, low) == reversed(k, low / 2) + b * v);
        assert(b * w == 2 * (b * v)) by (nonlinear_arith)
            requires
                w == 2 * v,
        ;
    }
}

/// Bit reversal is its own inverse.
pub proof fn law_bit_reversal_is_its_own_inverse(bits: nat, i: nat)
    requires
        i < two_to(bits),
    ensures
        reversed(bits, reversed(bits, i)) == i,
    decreases bits,
{
    if bits > 0 {
        let m = (bits - 1) as nat;
        law_bit_reversal_is_its_own_inverse(m, i / 2);
        lemma_reversed_bound(m, i / 2);
        lemma_reversed_top(bits, reversed(m, i / 2), i % 2);
    }
}

/// A complex number, in 65 536ths.
pub ghost struct Complex {
    pub re: int,
    pub im: int,
}

/// `a * b`, both in 65 536ths, rounded down.
pub open spec fn scaled(a: int, b: int) -> int {
    (a * b) / 65_536
}

/// A complex product.
pub open spec fn rotated(w: Complex, v: Complex) -> Complex {
    Complex {
        re: scaled(w.re, v.re) - scaled(w.im, v.im),
        im: scaled(w.re, v.im) + scaled(w.im, v.re),
    }
}

/// The mean of two complex numbers, rounded down and held to what can be stored.
pub open spec fn mean(u: Complex, v: Complex) -> Complex {
    Complex { re: held((u.re + v.re) / 2), im: held((u.im + v.im) / 2) }
}

/// Half the difference of two complex numbers, likewise.
pub open spec fn half_difference(u: Complex, v: Complex) -> Complex {
    Complex { re: held((u.re - v.re) / 2), im: held((u.im - v.im) / 2) }
}

/// Every `step`-th of a list, from `first`, `n` of them.
pub open spec fn strided(x: Seq<Complex>, first: int, step: int, n: nat) -> Seq<Complex> {
    Seq::new(n, |t: int| x[first + t * step])
}

/// The transform of a list of `2^m` numbers, divided by that many: the transforms
/// of its even and its odd places, the second turned by `turns` and the two
/// averaged.
pub open spec fn transformed(turns: Seq<Complex>, x: Seq<Complex>, m: nat) -> Seq<Complex>
    decreases m,
{
    if m == 0 {
        x
    } else {
        let h = two_to((m - 1) as nat);
        let even = transformed(turns, strided(x, 0, 2, h), (m - 1) as nat);
        let odd = transformed(turns, strided(x, 1, 2, h), (m - 1) as nat);
        let stride = HALF_N as int / h as int;
        Seq::new(
            2 * h,
            |k: int|
                if k < h {
                    mean(even[k], rotated(turns[k * stride], odd[k]))
                } else {
                    half_difference(even[k - h], rotated(turns[(k - h) * stride], odd[k - h]))
                },
        )
    }
}

/// Two lists of parts as one list of complex numbers.
pub open spec fn joined(re: Seq<Q16>, im: Seq<Q16>) -> Seq<Complex> {
    Seq::new(re.len(), |i: int| Complex { re: re[i].0 as int, im: im[i].0 as int })
}

/// One stage over a whole list, in blocks of twice `h`.
pub open spec fn staged(turns: Seq<Complex>, a: Seq<Complex>, h: int) -> Seq<Complex> {
    let stride = HALF_N as int / h;
    Seq::new(
        a.len(),
        |p: int|
            {
                let off = p % (2 * h);
                if off < h {
                    mean(a[p], rotated(turns[off * stride], a[p + h]))
                } else {
                    half_difference(a[p - h], rotated(turns[(off - h) * stride], a[p]))
                }
            },
    )
}

/// Whether a list holds, block by block, the transforms of the strided parts of
/// `x` that bit reversal puts there.
pub open spec fn in_blocks(
    turns: Seq<Complex>,
    a: Seq<Complex>,
    x: Seq<Complex>,
    s: nat,
    blocks: nat,
    left: nat,
) -> bool {
    forall|b: int, k: int|
        0 <= b < blocks && 0 <= k < two_to(s) ==> #[trigger] a[b * two_to(s) + k] == transformed(
            turns,
            strided(x, reversed(left, b as nat) as int, blocks as int, two_to(s)),
            s,
        )[k]
}

/// One stage joins the blocks in pairs.
proof fn lemma_stage(
    turns: Seq<Complex>,
    a: Seq<Complex>,
    x: Seq<Complex>,
    s: nat,
    left: nat,
)
    requires
        left > 0,
        s + left == LOG2_N,
        a.len() == N,
        x.len() == N,
        two_to(left) * two_to(s) == N,
        two_to((left - 1) as nat) * (2 * two_to(s)) == N,
        in_blocks(turns, a, x, s, two_to(left), left),
    ensures
        in_blocks(
            turns,
            staged(turns, a, two_to(s) as int),
            x,
            s + 1,
            two_to((left - 1) as nat),
            (left - 1) as nat,
        ),
{
    let m = (left - 1) as nat;
    let (h, blocks, pairs) = (two_to(s), two_to(left), two_to(m));
    let out = staged(turns, a, h as int);
    lemma_two_to(s);
    lemma_two_to(m);
    assert(two_to(s + 1) == 2 * h);
    assert(blocks == 2 * pairs);
    assert forall|b: int, k: int| 0 <= b < pairs && 0 <= k < two_to(s + 1) implies
        #[trigger] out[b * two_to(s + 1) + k] == transformed(
        turns,
        strided(x, reversed(m, b as nat) as int, pairs as int, two_to(s + 1)),
        s + 1,
    )[k] by {
        let r = reversed(m, b as nat) as int;
        let p = b * (2 * h) + k;
        let part = strided(x, r, pairs as int, 2 * h);
        lemma_reversed_bound(m, b as nat);
        // Where the pair of blocks stands in the list.
        assert(0 <= p < N && p % (2 * h as int) == k) by (nonlinear_arith)
            requires
                p == b * (2 * h) + k,
                0 <= b < pairs,
                0 <= k < 2 * h,
                pairs * (2 * h) == N,
        ;
        // The two blocks hold the even and the odd places of the part.
        let (be, bo) = (2 * b, 2 * b + 1);
        assert(reversed(left, be as nat) == r) by {
            assert((be as nat) / 2 == b as nat && (be as nat) % 2 == 0);
            assert(0 * two_to(m) == 0);
        }
        assert(reversed(left, bo as nat) == r + pairs) by {
            assert((bo as nat) / 2 == b as nat && (bo as nat) % 2 == 1);
            assert(1 * two_to(m) == two_to(m));
        }
        let even = strided(part, 0, 2, h);
        let odd = strided(part, 1, 2, h);
        assert(even =~= strided(x, r, blocks as int, h)) by {
            assert forall|t: int| 0 <= t < h implies #[trigger] even[t] == x[r + t * blocks] by {
                assert(even[t] == part[0 + t * 2]);
                assert(r + (t * 2) * pairs == r + t * blocks) by (nonlinear_arith)
                    requires
                        blocks == 2 * pairs,
                ;
            }
        }
        assert(odd =~= strided(x, r + pairs, blocks as int, h)) by {
            assert forall|t: int| 0 <= t < h implies #[trigger] odd[t] == x[r + pairs + t
                * blocks] by {
                assert(odd[t] == part[1 + t * 2]);
                assert(r + (1 + t * 2) * pairs == r + pairs + t * blocks) by (nonlinear_arith)
                    requires
                        blocks == 2 * pairs,
                ;
            }
        }
        let off = if k < h {
            k
        } else {
            k - h
        };
        assert(be * h + off == b * (2 * h) + off) by (nonlinear_arith)
            requires
                be == 2 * b,
        ;
        assert(bo * h + off == b * (2 * h) + h + off) by (nonlinear_arith)
            requires
                bo == 2 * b + 1,
        ;
        assert(a[be * h + off] == transformed(turns, even, s)[off]);
        assert(a[bo * h + off] == transformed(turns, odd, s)[off]);
        assert(out[p] == transformed(turns, part, s + 1)[k]);
    }
}

/// A sine or a cosine, held to what one can be.
pub open spec fn within_one(v: Q16) -> Q16 {
    if v.0 > 65_536 {
        Q16(65_536)
    } else if v.0 < -65_536 {
        Q16(-65_536i32)
    } else {
        v
    }
}

fn hold_within_one(v: Q16) -> (r: Q16)
    ensures
        r == within_one(v),
{
    if v.0 > 65_536 {
        Q16(65_536)
    } else if v.0 < -65_536 {
        Q16(-65_536)
    } else {
        v
    }
}

/// The angle that place `k` of the table turns by, in turns.
pub open spec fn turn_of<F: Fn(Op, Q16, Q16, Q16) -> Q16>(unit: &F, k: int) -> Complex {
    let at = ratio(unit, (-k) as i32, N as i32);
    Complex {
        re: within_one(cosine(unit, at)).0 as int,
        im: within_one(sine(unit, at)).0 as int,
    }
}

/// Precomputed twiddle factors.
///
/// Built once and reused: computing them per transform would be thousands of
/// trigonometric lookups a frame.
pub struct Fft {
    cos: [Q16; HALF_N],
    sin: [Q16; HALF_N],
}

impl View for Fft {
    type V = Seq<Complex>;

    closed spec fn view(&self) -> Seq<Complex> {
        joined(self.cos@, self.sin@)
    }
}

impl Fft {
    /// No factor is longer than a sine or a cosine can be.
    pub closed spec fn wf(&self) -> bool {
        forall|k: int|
            0 <= k < HALF_N ==> -65_536 <= (#[trigger] self.cos@[k]).0 <= 65_536 && -65_536
                <= self.sin@[k].0 <= 65_536
    }

    pub fn new<F: Fn(Op, Q16, Q16, Q16) -> Q16>(unit: &F) -> (fft: Fft)
        requires
            is_arithmetic(*unit),
        ensures
            fft.wf(),
            fft@ == Seq::new(HALF_N as nat, |k: int| turn_of(unit, k)),
    {
        let mut cos: [Q16; HALF_N] = [Q16(0);HALF_N];
        let mut sin: [Q16; HALF_N] = [Q16(0);HALF_N];
        let mut k: usize = 0;
        while k < HALF_N
            invariant
                is_arithmetic(*unit),
                k <= HALF_N,
                forall|i: int|
                    0 <= i < k ==> (Complex {
                        re: (#[trigger] cos@[i]).0 as int,
                        im: sin@[i].0 as int,
                    }) == turn_of(unit, i),
                forall|i: int|
                    0 <= i < HALF_N ==> -65_536 <= (#[trigger] cos@[i]).0 <= 65_536 && -65_536
                        <= sin@[i].0 <= 65_536,
            decreases HALF_N - k,
        {
            // Turns rather than radians: exact at the cardinal points, which is
            // what keeps a pure tone from leaking.
            let at = ratio(unit, -(k as i32), N as i32);
            cos[k] = hold_within_one(cosine(unit, at));
            sin[k] = hold_within_one(sine(unit, at));
            k += 1;
        }
        let fft = Fft { cos, sin };
        assert(fft@ =~= Seq::new(HALF_N as nat, |k: int| turn_of(unit, k)));
        fft
    }

    /// In-place complex FFT. On return `re` and `im` hold the transform divided by
    /// [`N`], in natural bin order.
    pub fn transform(&self, re: &mut [Q16; N], im: &mut [Q16; N])
        requires
            self.wf(),
        ensures
            joined(final(re)@, final(im)@) == transformed(
                self@,
                joined(old(re)@, old(im)@),
                LOG2_N as nat,
            ),
    {
        let ghost x = joined(re@, im@);
        bit_reverse(re);
        bit_reverse(im);
        let mut half: usize = 1;
        let ghost mut s: nat = 0;
        proof {
            assert(two_to(10) == 1024) by {
                reveal_with_fuel(two_to, 11);
            }
            let a = joined(re@, im@);
            assert forall|i: int| 0 <= i < N implies #[trigger] a[i] == x[reversed(
                10,
                i as nat,
            ) as int] by {
                lemma_reversed_bound(10, i as nat);
            }
            lemma_started(self@, a, x);
        }
        while half < N
            invariant
                self.wf(),
                x.len() == N,
                s <= LOG2_N,
                half == two_to(s),
                two_to((LOG2_N - s) as nat) * two_to(s) == N,
                1 <= half <= N,
                in_blocks(
                    self@,
                    joined(re@, im@),
                    x,
                    s,
                    two_to((LOG2_N - s) as nat),
                    (LOG2_N - s) as nat,
                ),
            decreases N - half,
        {
            let ghost was = joined(re@, im@);
            let ghost left = (LOG2_N - s) as nat;
            proof {
                if left == 0 {
                    assert(1 * two_to(s) == two_to(s));
                }
                lemma_two_to((left - 1) as nat);
                let (p, h) = (two_to((left - 1) as nat), two_to(s));
                assert(two_to(left) == 2 * p);
                assert(p * (2 * h) == (2 * p) * h) by (nonlinear_arith);
                assert(2 * h <= 1024) by (nonlinear_arith)
                    requires
                        p * (2 * h) == 1024,
                        p >= 1,
                ;
                lemma_stage(self@, was, x, s, left);
            }
            self.stage(re, im, half, Ghost(two_to((left - 1) as nat)));
            half = half * 2;
            proof {
                s = s + 1;
            }
        }
        proof {
            lemma_finished(self@, joined(re@, im@), x, s);
        }
    }

    /// One stage: every block of twice `half` becomes the butterflies of its two
    /// halves.
    fn stage(
        &self,
        re: &mut [Q16; N],
        im: &mut [Q16; N],
        half: usize,
        Ghost(blocks): Ghost<nat>,
    )
        requires
            self.wf(),
            1 <= half <= HALF_N,
            blocks * (2 * half) == N,
        ensures
            joined(final(re)@, final(im)@) == staged(
                self@,
                joined(old(re)@, old(im)@),
                half as int,
            ),
    {
        let ghost was = joined(re@, im@);
        let ghost out = staged(self@, was, half as int);
        let span: usize = half * 2;
        // Twiddle stride: this stage uses every `stride`-th factor.
        let stride: usize = HALF_N / half;
        proof {
            assert(stride as int * half as int <= HALF_N) by (nonlinear_arith)
                requires
                    stride as int == HALF_N as int / half as int,
                    half > 0,
            ;
        }
        let mut start: usize = 0;
        let ghost mut block: nat = 0;
        assert(0 * span == 0);
        while start < N
            invariant
                self.wf(),
                1 <= half <= HALF_N,
                span == 2 * half,
                blocks * span == N,
                block <= blocks,
                start == block * span,
                stride == HALF_N as int / half as int,
                stride * half <= HALF_N,
                was.len() == N,
                out == staged(self@, was, half as int),
                forall|p: int|
                    0 <= p < N ==> #[trigger] joined(re@, im@)[p] == if p < start {
                        out[p]
                    } else {
                        was[p]
                    },
            decreases N - start,
        {
            proof {
                assert(block < blocks && start + span <= N) by (nonlinear_arith)
                    requires
                        start == block * span,
                        start < N,
                        blocks * span == N,
                        block <= blocks,
                        span > 0,
                ;
            }
            let mut k: usize = 0;
            while k < half
                invariant
                    self.wf(),
                    1 <= half <= HALF_N,
                    span == 2 * half,
                    k <= half,
                    start == block * span,
                    start + span <= N,
                    stride == HALF_N as int / half as int,
                    stride * half <= HALF_N,
                    was.len() == N,
                    out == staged(self@, was, half as int),
                    forall|p: int|
                        0 <= p < N ==> #[trigger] joined(re@, im@)[p] == if p < start || (start
                            <= p < start + k) || (start + half <= p < start + half + k) {
                            out[p]
                        } else {
                            was[p]
                        },
                decreases half - k,
            {
                proof {
                    assert(k * stride < HALF_N) by (nonlinear_arith)
                        requires
                            k < half,
                            stride * half <= HALF_N,
                            0 <= k,
                            0 <= stride,
                            half >= 1,
                    ;
                    lemma_offset(block as int, span as int, k as int);
                    lemma_offset(block as int, span as int, k + half);
                }
                let w: usize = k * stride;
                let (wr, wi) = (self.cos[w].0 as i64, self.sin[w].0 as i64);
                let i: usize = start + k;
                let j: usize = i + half;
                let ghost now = joined(re@, im@);
                assert(now[i as int] == was[i as int] && now[j as int] == was[j as int]);
                let (ur, ui) = (re[i].0 as i64, im[i].0 as i64);
                let (vr, vi) = (re[j].0 as i64, im[j].0 as i64);
                let (tr, ti) = turned(wr, wi, vr, vi);
                // Halve both outputs so the stage cannot grow the signal.
                re[i] = Q16(hold(floor_div(ur + tr, 2)));
                im[i] = Q16(hold(floor_div(ui + ti, 2)));
                re[j] = Q16(hold(floor_div(ur - tr, 2)));
                im[j] = Q16(hold(floor_div(ui - ti, 2)));
                proof {
                    let after = joined(re@, im@);
                    assert(self@[w as int] == (Complex { re: wr as int, im: wi as int }));
                    assert(after[i as int] == out[i as int]);
                    assert(after[j as int] == out[j as int]);
                    assert forall|p: int| 0 <= p < N implies #[trigger] after[p] == if p < start
                        || (start <= p < start + k + 1) || (start + half <= p < start + half + k
                        + 1) {
                        out[p]
                    } else {
                        was[p]
                    } by {
                        if p != i && p != j {
                            assert(after[p] == now[p]);
                        }
                    }
                }
                k += 1;
            }
            start = start + span;
            proof {
                assert((block + 1) * span == block * span + span) by (nonlinear_arith);
                block = block + 1;
            }
        }
        assert(joined(re@, im@) =~= out);
    }
}

/// `(wr + i·wi) * (vr + i·vi)`.
fn turned(wr: i64, wi: i64, vr: i64, vi: i64) -> (r: (i64, i64))
    requires
        -65_536 <= wr <= 65_536,
        -65_536 <= wi <= 65_536,
        i32::MIN <= vr <= i32::MAX,
        i32::MIN <= vi <= i32::MAX,
    ensures
        (Complex { re: r.0 as int, im: r.1 as int }) == rotated(
            Complex { re: wr as int, im: wi as int },
            Complex { re: vr as int, im: vi as int },
        ),
        -0x2_0000_0000 <= r.0 <= 0x2_0000_0000,
        -0x2_0000_0000 <= r.1 <= 0x2_0000_0000,
{
    let a: i64 = times(wr, vr);
    let b: i64 = times(wi, vi);
    let c: i64 = times(wr, vi);
    let d: i64 = times(wi, vr);
    (a - b, c + d)
}

/// Multiply, widened so the product cannot overflow before it is scaled down.
fn times(a: i64, b: i64) -> (r: i64)
    requires
        -65_536 <= a <= 65_536,
        i32::MIN <= b <= i32::MAX,
    ensures
        r == scaled(a as int, b as int),
        -0x8000_0000 <= r <= 0x8000_0000,
{
    assert(-0x8000_0000_0000 <= a * b <= 0x8000_0000_0000) by (nonlinear_arith)
        requires
            -65_536 <= a <= 65_536,
            -0x8000_0000 <= b <= 0x7fff_ffff,
    ;
    floor_div(a * b, 65_536)
}

proof fn lemma_offset(block: int, span: int, off: int)
    requires
        0 <= block,
        0 <= off < span,
    ensures
        (block * span + off) % span == off,
{
    assert((block * span + off) % span == off) by (nonlinear_arith)
        requires
            0 <= block,
            0 <= off < span,
    ;
}

/// Before the first stage every block is a single number.
proof fn lemma_started(turns: Seq<Complex>, a: Seq<Complex>, x: Seq<Complex>)
    requires
        x.len() == N,
        a.len() == N,
        two_to(10) == N,
        forall|i: int| 0 <= i < N ==> #[trigger] a[i] == x[reversed(10, i as nat) as int],
    ensures
        in_blocks(turns, a, x, 0, two_to(10), 10),
{
    assert forall|b: int, k: int| 0 <= b < two_to(10) && 0 <= k < two_to(0) implies
        #[trigger] a[b * two_to(0) + k] == transformed(
        turns,
        strided(x, reversed(10, b as nat) as int, two_to(10) as int, two_to(0)),
        0,
    )[k] by {
        assert(two_to(0) == 1);
        assert(b * 1 + k == b);
        assert(a[b] == x[reversed(10, b as nat) as int]);
        let part = strided(x, reversed(10, b as nat) as int, two_to(10) as int, two_to(0));
        assert(part[0] == x[reversed(10, b as nat) + 0 * (two_to(10) as int)]);
        assert(0 * (two_to(10) as int) == 0);
    }
}

/// After the last stage there is one block, the whole.
proof fn lemma_finished(turns: Seq<Complex>, a: Seq<Complex>, x: Seq<Complex>, s: nat)
    requires
        x.len() == N,
        a.len() == N,
        s <= LOG2_N,
        two_to(s) == N,
        two_to((LOG2_N - s) as nat) * two_to(s) == N,
        in_blocks(turns, a, x, s, two_to((LOG2_N - s) as nat), (LOG2_N - s) as nat),
    ensures
        a == transformed(turns, x, LOG2_N as nat),
{
    let left = (LOG2_N - s) as nat;
    let blocks = two_to(left);
    lemma_two_to(left);
    assert(blocks == 1) by (nonlinear_arith)
        requires
            blocks * two_to(s) == 1024,
            two_to(s) == 1024,
    ;
    if left > 0 {
        lemma_two_to((left - 1) as nat);
    }
    assert(left == 0);
    let whole = strided(x, 0, 1, N as nat);
    assert(whole =~= x);
    assert(reversed(0, 0) == 0);
    lemma_transformed_len(turns, x, s);
    assert forall|k: int| 0 <= k < N implies #[trigger] a[k] == transformed(turns, x, s)[k] by {
        assert(a[0 * two_to(s) + k] == transformed(turns, whole, s)[k]);
    }
    assert(a =~= transformed(turns, x, s));
}

proof fn lemma_transformed_len(turns: Seq<Complex>, x: Seq<Complex>, m: nat)
    requires
        x.len() == two_to(m),
    ensures
        transformed(turns, x, m).len() == two_to(m),
{
}

/// Reorder into bit-reversed index order, which is what lets the butterflies run
/// in place.
pub fn bit_reverse(v: &mut [Q16; N])
    ensures
        forall|i: int|
            0 <= i < N ==> #[trigger] final(v)@[i] == old(v)@[reversed(10, i as nat) as int],
{
    let was: [Q16; N] = *v;
    let mut i: usize = 0;
    while i < N
        invariant
            i <= N,
            was@ == old(v)@,
            forall|k: int|
                0 <= k < i ==> #[trigger] v@[k] == was@[reversed(10, k as nat) as int],
        decreases N - i,
    {
        let j: usize = reverse(i);
        v[i] = was[j];
        i += 1;
    }
}

/// An index with its bits in the opposite order.
fn reverse(i: usize) -> (r: usize)
    requires
        i < N,
    ensures
        r == reversed(10, i as nat),
        r < N,
{
    let mut r: usize = 0;
    let mut left: usize = i;
    let mut bit: usize = 0;
    proof {
        assert(two_to(10) == 1024) by {
            reveal_with_fuel(two_to, 11);
        }
        assert(0 * two_to(10) == 0);
        lemma_reversed_bound(10, i as nat);
    }
    while bit < 10
        invariant
            bit <= 10,
            reversed(10, i as nat) == r * two_to((10 - bit) as nat) + reversed(
                (10 - bit) as nat,
                left as nat,
            ),
            r < two_to(bit as nat),
            two_to(10) == 1024,
            reversed(10, i as nat) < 1024,
        decreases 10 - bit,
    {
        proof {
            let m = (9 - bit) as nat;
            let w = two_to(m);
            let c = (left % 2) as nat;
            assert(two_to((10 - bit) as nat) == 2 * w);
            assert(r * (2 * w) + c * w == (2 * r + c) * w) by (nonlinear_arith);
            lemma_two_to_grows((bit + 1) as nat, 10);
        }
        r = r * 2 + left % 2;
        left = left / 2;
        bit += 1;
    }
    assert(two_to(0) == 1);
    assert(r * 1 == r);
    r
}

proof fn lemma_two_to_grows(a: nat, b: nat)
    requires
        a <= b,
    ensures
        two_to(a) <= two_to(b),
    decreases b,
{
    if a < b {
        lemma_two_to_grows(a, (b - 1) as nat);
        lemma_two_to((b - 1) as nat);
    }
}

/// The whole part of a square root.
pub open spec fn is_root(r: int, n: int) -> bool {
    0 <= r && r * r <= n < (r + 1) * (r + 1)
}

/// Integer square root by Newton's method: the whole part, and zero of anything
/// that has none.
pub fn isqrt(n: i64) -> (r: i64)
    ensures
        n <= 0 ==> r == 0,
        n > 0 ==> is_root(r as int, n as int),
        r <= 0xffff_ffff,
{
    if n <= 0 {
        return 0;
    }
    let m: u64 = n as u64;
    // A power-of-two start above the root keeps the iteration decreasing, so it
    // terminates without a convergence check.
    let mut x: u64 = 1;
    while x <= m / x
        invariant
            1 <= x <= 0x2_0000_0000,
            1 <= m <= 0x7fff_ffff_ffff_ffff,
        decreases 0x2_0000_0000 - x,
    {
        proof {
            let (a, b) = (x as int, m as int);
            assert(a * a <= b) by (nonlinear_arith)
                requires
                    a <= b / a,
                    a >= 1,
            ;
            assert(a < 0x1_0000_0000) by (nonlinear_arith)
                requires
                    a * a <= b,
                    b <= 0x7fff_ffff_ffff_ffff,
                    a >= 1,
            ;
        }
        x = x * 2;
    }
    proof {
        let (a, b) = (x as int, m as int);
        assert(b < (a + 1) * (a + 1)) by (nonlinear_arith)
            requires
                a > b / a,
                a >= 1,
                b >= 1,
        ;
    }
    loop
        invariant
            1 <= x <= 0x2_0000_0000,
            1 <= m <= 0x7fff_ffff_ffff_ffff,
            m == n,
            m < (x + 1) * (x + 1),
        decreases x,
    {
        let q: u64 = m / x;
        proof {
            let (a, b) = (x as int, m as int);
            assert(q as int <= b) by (nonlinear_arith)
                requires
                    q as int == b / a,
                    a >= 1,
                    b >= 0,
            ;
        }
        let next: u64 = (x + q) / 2;
        if next >= x {
            proof {
                let (a, b) = (x as int, m as int);
                assert(a * a <= b) by (nonlinear_arith)
                    requires
                        a <= b / a,
                        a >= 1,
                ;
                assert(a < 0x1_0000_0000) by (nonlinear_arith)
                    requires
                        a * a <= b,
                        b <= 0x7fff_ffff_ffff_ffff,
                        a >= 1,
                ;
            }
            return x as i64;
        }
        proof {
            let (a, b, c, y) = (x as int, m as int, q as int, next as int);
            assert(b < a * (c + 1)) by (nonlinear_arith)
                requires
                    c == b / a,
                    a >= 1,
            ;
            assert(4 * (a * (c + 1)) <= (a + c + 1) * (a + c + 1)) by (nonlinear_arith);
            assert((a + c + 1) * (a + c + 1) <= (2 * (y + 1)) * (2 * (y + 1))) by (nonlinear_arith)
                requires
                    0 <= a + c + 1 <= 2 * (y + 1),
            ;
            assert((2 * (y + 1)) * (2 * (y + 1)) == 4 * ((y + 1) * (y + 1))) by (nonlinear_arith);
            assert(y >= 1) by (nonlinear_arith)
                requires
                    y == (a + c) / 2,
                    a >= 1,
                    b >= 1,
                    c == b / a,
            ;
        }
        x = next;
    }
    0
}

/// Whether `r` is how long a complex number is, in whole parts, held to what can
/// be stored.
pub open spec fn is_length(r: Q16, c: Complex) -> bool {
    exists|root: int|
        #![trigger is_root(root, c.re * c.re + c.im * c.im)]
        is_root(root, c.re * c.re + c.im * c.im) && r.0 == if root > i32::MAX {
            i32::MAX as int
        } else {
            root
        }
}

/// How long a complex number is.
pub open spec fn length_of(c: Complex) -> Q16 {
    choose|r: Q16| is_length(r, c)
}

/// The length of `(re, im)`, computed without ever leaving the exact range.
///
/// Squaring in the fixed-point type would round anything below about 1/256 to
/// zero, which after the transform's scaling is most of the spectrum. Squaring
/// wider keeps the product exact, and the integer square root comes back in the
/// fixed-point type directly.
pub fn magnitude(re: Q16, im: Q16) -> (r: Q16)
    ensures
        r == length_of(Complex { re: re.0 as int, im: im.0 as int }),
        is_length(r, Complex { re: re.0 as int, im: im.0 as int }),
        r.0 >= 0,
{
    let r: i64 = re.0 as i64;
    let i: i64 = im.0 as i64;
    let ghost c = Complex { re: r as int, im: i as int };
    proof {
        let (a, b) = (r as int, i as int);
        assert(0 <= a * a <= 0x4000_0000_0000_0000 && 0 <= b * b <= 0x4000_0000_0000_0000)
            by (nonlinear_arith)
            requires
                -0x8000_0000 <= a <= 0x7fff_ffff,
                -0x8000_0000 <= b <= 0x7fff_ffff,
        ;
    }
    let (rr, ii) = (r * r, i * i);
    let square: u64 = rr as u64 + ii as u64;
    let length = if square > 0x7fff_ffff_ffff_ffff {
        proof {
            assert(is_root(3_037_000_499, c.re * c.re + c.im * c.im));
        }
        Q16(i32::MAX)
    } else {
        let root: i64 = isqrt(square as i64);
        proof {
            if square == 0 {
                assert(is_root(0, 0));
            }
            assert(is_root(root as int, c.re * c.re + c.im * c.im));
        }
        if root > i32::MAX as i64 {
            Q16(i32::MAX)
        } else {
            Q16(root as i32)
        }
    };
    proof {
        assert(is_length(length, c));
        law_one_length(length, length_of(c), c);
    }
    length
}

/// Magnitude of each bin below Nyquist.
///
/// Only the first half is meaningful: the input is real, so the upper half is the
/// mirror image and carries no information.
pub fn magnitudes(re: &[Q16; N], im: &[Q16; N], out: &mut [Q16; HALF_N])
    ensures
        forall|k: int|
            0 <= k < HALF_N ==> #[trigger] final(out)@[k] == length_of(joined(re@, im@)[k])
                && final(out)@[k].0 >= 0,
{
    let mut k: usize = 0;
    while k < HALF_N
        invariant
            k <= HALF_N,
            forall|j: int|
                0 <= j < k ==> #[trigger] out@[j] == length_of(joined(re@, im@)[j]) && out@[j].0
                    >= 0,
        decreases HALF_N - k,
    {
        out[k] = magnitude(re[k], im[k]);
        k += 1;
    }
}

/// A square root has one whole part, so a complex number has one length.
pub proof fn law_one_length(a: Q16, b: Q16, c: Complex)
    requires
        is_length(a, c),
        is_length(b, c),
    ensures
        a == b,
        a.0 >= 0,
{
    let n = c.re * c.re + c.im * c.im;
    let x = choose|root: int|
        #![trigger is_root(root, n)]
        is_root(root, n) && a.0 == if root > i32::MAX {
            i32::MAX as int
        } else {
            root
        };
    let y = choose|root: int|
        #![trigger is_root(root, n)]
        is_root(root, n) && b.0 == if root > i32::MAX {
            i32::MAX as int
        } else {
            root
        };
    lemma_one_root(x, y, n);
    lemma_one_root(y, x, n);
}

proof fn lemma_one_root(a: int, b: int, n: int)
    requires
        is_root(a, n),
        is_root(b, n),
    ensures
        a <= b,
{
    if a > b {
        assert((b + 1) * (b + 1) <= a * a) by (nonlinear_arith)
            requires
                0 <= b,
                b + 1 <= a,
        ;
    }
}

/// Nothing in, nothing out.
pub proof fn law_silence_transforms_to_nothing(turns: Seq<Complex>, x: Seq<Complex>, m: nat)
    requires
        x.len() == two_to(m),
        forall|i: int| 0 <= i < x.len() ==> #[trigger] x[i] == (Complex { re: 0, im: 0 }),
    ensures
        transformed(turns, x, m) == x,
    decreases m,
{
    if m > 0 {
        let k = (m - 1) as nat;
        let h = two_to(k);
        let (even, odd) = (strided(x, 0, 2, h), strided(x, 1, 2, h));
        law_silence_transforms_to_nothing(turns, even, k);
        law_silence_transforms_to_nothing(turns, odd, k);
        let zero = Complex { re: 0, im: 0 };
        assert forall|w: Complex| #[trigger] rotated(w, zero) == zero by {
            assert(w.re * 0 == 0 && w.im * 0 == 0) by (nonlinear_arith);
        }
        assert(transformed(turns, x, m) =~= x);
    }
}

/// Every number has a whole square root.
proof fn lemma_root_exists(n: nat) -> (root: int)
    ensures
        is_root(root, n as int),
    decreases n,
{
    if n == 0 {
        assert(0int * 0int == 0 && 1int * 1int == 1);
        assert(is_root(0, 0));
        0
    } else {
        let r = lemma_root_exists((n - 1) as nat);
        if (r + 1) * (r + 1) <= n {
            assert(n < (r + 2) * (r + 2)) by (nonlinear_arith)
                requires
                    n - 1 < (r + 1) * (r + 1),
                    0 <= r,
            ;
            assert(is_root(r + 1, n as int));
            r + 1
        } else {
            r
        }
    }
}

/// A length is what it is meant to be: the largest whole number whose square is no more
/// than the two parts' squares together, as far as a number goes.
pub proof fn law_a_length_is_the_root_of_the_squares(c: Complex)
    ensures
        ({
            let r = length_of(c).0 as int;
            let squares = c.re * c.re + c.im * c.im;
            &&& 0 <= r
            &&& r * r <= squares
            &&& r < i32::MAX ==> squares < (r + 1) * (r + 1)
        }),
{
    let n = c.re * c.re + c.im * c.im;
    assert(n >= 0) by (nonlinear_arith)
        requires
            n == c.re * c.re + c.im * c.im,
    ;
    let root = lemma_root_exists(n as nat);
    let r = Q16(
        if root > i32::MAX {
            i32::MAX
        } else {
            root as i32
        },
    );
    assert(is_root(root, c.re * c.re + c.im * c.im));
    assert(is_length(r, c));
    let s = length_of(c);
    assert(is_length(s, c));
    law_one_length(r, s, c);
    if root > i32::MAX {
        let most = i32::MAX as int;
        assert(most * most <= root * root) by (nonlinear_arith)
            requires
                0 <= most <= root,
        ;
    }
}

/// A steady signal is all in the first bin, at its own strength, and nowhere else: where
/// the first turn of the table turns nothing.
pub proof fn law_a_steady_signal_is_in_the_first_bin(
    turns: Seq<Complex>,
    x: Seq<Complex>,
    m: nat,
    c: i32,
)
    requires
        m <= LOG2_N,
        x.len() == two_to(m),
        turns.len() == HALF_N,
        turns[0] == (Complex { re: 65_536, im: 0 }),
        forall|i: int| 0 <= i < x.len() ==> #[trigger] x[i] == (Complex { re: c as int, im: 0 }),
    ensures
        ({
            let y = transformed(turns, x, m);
            &&& y.len() == two_to(m)
            &&& y[0] == (Complex { re: c as int, im: 0 })
            &&& forall|k: int| 0 < k < y.len() ==> #[trigger] y[k] == (Complex { re: 0, im: 0 })
        }),
    decreases m,
{
    lemma_two_to(m);
    if m > 0 {
        let k = (m - 1) as nat;
        let h = two_to(k);
        lemma_two_to(k);
        let (even, odd) = (strided(x, 0, 2, h), strided(x, 1, 2, h));
        law_a_steady_signal_is_in_the_first_bin(turns, even, k, c);
        law_a_steady_signal_is_in_the_first_bin(turns, odd, k, c);
        lemma_turned_nothing(turns[0], c as int);
        lemma_nothing_turned();
        let y = transformed(turns, x, m);
        let stride = HALF_N as int / h as int;
        assert(0 * stride == 0);
        assert forall|i: int| 0 < i < y.len() implies #[trigger] y[i] == (Complex {
            re: 0,
            im: 0,
        }) by {
            if i == h {
                assert((i - h) * stride == 0);
            }
        }
    }
}

/// A signal that changes sign with every sample is all in the middle bin, the highest
/// frequency there is.
pub proof fn law_the_fastest_signal_is_in_the_middle_bin(
    turns: Seq<Complex>,
    x: Seq<Complex>,
    m: nat,
    c: i32,
)
    requires
        0 < m <= LOG2_N,
        x.len() == two_to(m),
        turns.len() == HALF_N,
        turns[0] == (Complex { re: 65_536, im: 0 }),
        c > i32::MIN,
        forall|i: int|
            0 <= i < x.len() ==> #[trigger] x[i] == (Complex {
                re: if i % 2 == 0 {
                    c as int
                } else {
                    -c
                },
                im: 0,
            }),
    ensures
        ({
            let y = transformed(turns, x, m);
            let middle = two_to((m - 1) as nat);
            &&& y.len() == 2 * middle
            &&& y[middle as int] == (Complex { re: c as int, im: 0 })
            &&& forall|k: int|
                0 <= k < y.len() && k != middle ==> #[trigger] y[k] == (Complex { re: 0, im: 0 })
        }),
{
    let k = (m - 1) as nat;
    let h = two_to(k);
    lemma_two_to(k);
    let (even, odd) = (strided(x, 0, 2, h), strided(x, 1, 2, h));
    let neg = (-c) as i32;
    law_a_steady_signal_is_in_the_first_bin(turns, even, k, c);
    law_a_steady_signal_is_in_the_first_bin(turns, odd, k, neg);
    lemma_turned_nothing(turns[0], neg as int);
    lemma_nothing_turned();
    let y = transformed(turns, x, m);
    let stride = HALF_N as int / h as int;
    assert(0 * stride == 0);
    assert forall|i: int| 0 <= i < y.len() && i != h implies #[trigger] y[i] == (Complex {
        re: 0,
        im: 0,
    }) by {}
    assert((h - h) * stride == 0);
}

/// One loud sample at the start is in every bin alike, each with its share.
pub proof fn law_a_click_is_in_every_bin(turns: Seq<Complex>, x: Seq<Complex>, m: nat, share: int)
    requires
        m <= LOG2_N,
        x.len() == two_to(m),
        turns.len() == HALF_N,
        i32::MIN <= share * two_to(m) <= i32::MAX,
        x[0] == (Complex { re: share * two_to(m), im: 0 }),
        forall|i: int| 0 < i < x.len() ==> #[trigger] x[i] == (Complex { re: 0, im: 0 }),
    ensures
        transformed(turns, x, m).len() == two_to(m),
        forall|k: int|
            0 <= k < two_to(m) ==> #[trigger] transformed(turns, x, m)[k] == (Complex {
                re: share,
                im: 0,
            }),
    decreases m,
{
    lemma_two_to(m);
    if m == 0 {
        assert(share * 1 == share);
    } else {
        let k = (m - 1) as nat;
        let h = two_to(k);
        lemma_two_to(k);
        let (even, odd) = (strided(x, 0, 2, h), strided(x, 1, 2, h));
        assert(share * two_to(m) == (2 * share) * h) by (nonlinear_arith)
            requires
                two_to(m) == 2 * h,
        ;
        law_a_click_is_in_every_bin(turns, even, k, 2 * share);
        law_silence_transforms_to_nothing(turns, odd, k);
        lemma_nothing_turned();
        let y = transformed(turns, x, m);
        assert(i32::MIN <= share <= i32::MAX) by (nonlinear_arith)
            requires
                i32::MIN <= (2 * share) * h <= i32::MAX,
                h >= 1,
        ;
        assert forall|i: int| 0 <= i < y.len() implies #[trigger] y[i] == (Complex {
            re: share,
            im: 0,
        }) by {}
    }
}

/// One loud sample a place later is in every bin, each turned by its own turn of the
/// table: bin `k` once round for every `k` of the whole, and the upper half opposite.
pub proof fn law_a_late_click_turns_with_the_bins(
    turns: Seq<Complex>,
    x: Seq<Complex>,
    share: int,
    k: int,
)
    requires
        x.len() == N,
        turns.len() == HALF_N,
        0 <= share * 32_768 * N <= i32::MAX,
        x[1] == (Complex { re: share * 65_536 * HALF_N, im: 0 }),
        forall|i: int| 0 <= i < x.len() && i != 1 ==> #[trigger] x[i] == (Complex { re: 0, im: 0 }),
        0 <= k < HALF_N,
        -65_536 <= turns[k].re <= 65_536,
        -65_536 <= turns[k].im <= 65_536,
    ensures
        transformed(turns, x, LOG2_N as nat)[k] == (Complex {
            re: turns[k].re * share / 2,
            im: turns[k].im * share / 2,
        }),
        transformed(turns, x, LOG2_N as nat)[k + HALF_N] == (Complex {
            re: -(turns[k].re * share) / 2,
            im: -(turns[k].im * share) / 2,
        }),
{
    reveal_with_fuel(two_to, 11);
    let h = two_to(9);
    assert(h == 512);
    let (even, odd) = (strided(x, 0, 2, h), strided(x, 1, 2, h));
    let each = share * 65_536;
    assert(odd[0] == x[1]);
    assert(share * 32_768 * 1_024 == each * 512) by (nonlinear_arith)
        requires
            each == share * 65_536,
    ;
    law_a_click_is_in_every_bin(turns, odd, 9, each);
    law_silence_transforms_to_nothing(turns, even, 9);
    let v = Complex { re: each, im: 0 };
    let w = turns[k];
    assert(transformed(turns, odd, 9)[k] == v);
    assert((w.re * each) / 65_536 == w.re * share && (w.im * each) / 65_536 == w.im * share)
        by (nonlinear_arith)
        requires
            each == share * 65_536,
    ;
    assert(w.re * 0 == 0 && w.im * 0 == 0) by (nonlinear_arith);
    assert(0 <= share <= 64);
    assert(-0x40_0000 <= w.re * share <= 0x40_0000 && -0x40_0000 <= w.im * share <= 0x40_0000)
        by (nonlinear_arith)
        requires
            0 <= share <= 64,
            -65_536 <= w.re <= 65_536,
            -65_536 <= w.im <= 65_536,
    ;
    let stride = HALF_N as int / h as int;
    assert(stride == 1);
    assert(k * stride == k);
    assert((k + 512 - h) * stride == k);
    assert(rotated(w, v) == (Complex { re: w.re * share, im: w.im * share }));
    let y = transformed(turns, x, 10);
    assert(transformed(turns, even, 9)[k] == (Complex { re: 0, im: 0 }));
    assert(y[k] == mean(transformed(turns, even, 9)[k], rotated(w, v)));
    assert(y[k + 512] == half_difference(transformed(turns, even, 9)[k], rotated(w, v)));
}

proof fn lemma_nothing_turned()
    ensures
        forall|w: Complex| #[trigger] rotated(w, Complex { re: 0, im: 0 }) == (Complex {
            re: 0,
            im: 0,
        }),
{
    let zero = Complex { re: 0, im: 0 };
    assert forall|w: Complex| #[trigger] rotated(w, zero) == zero by {
        assert(w.re * 0 == 0 && w.im * 0 == 0) by (nonlinear_arith);
    }
}

proof fn lemma_turned_nothing(w: Complex, c: int)
    requires
        w == (Complex { re: 65_536, im: 0 }),
    ensures
        rotated(w, Complex { re: c, im: 0 }) == (Complex { re: c, im: 0 }),
{
}

/// The table turns against the clock: place `k` by `k` parts of the whole, each a cosine
/// and a sine.
pub proof fn law_the_table_goes_once_round<F: Fn(Op, Q16, Q16, Q16) -> Q16>(unit: &F, k: int)
    requires
        0 <= k < HALF_N,
        ({
            let at = ratio(unit, (-k) as i32, 1_024);
            &&& -65_536 <= cosine(unit, at).0 <= 65_536
            &&& -65_536 <= sine(unit, at).0 <= 65_536
        }),
    ensures
        turn_of(unit, k).re == cosine(unit, ratio(unit, (-k) as i32, 1_024)).0,
        turn_of(unit, k).im == sine(unit, ratio(unit, (-k) as i32, 1_024)).0,
{
}

/// A transform is made of two of half its size, of the even and of the odd places: bin `k`
/// is half the sum of the two bins `k`, the second turned by its turn of the table, and the
/// bin half way on is half their difference. Products and halves are rounded down.
pub proof fn law_a_transform_is_made_of_two(turns: Seq<Complex>, x: Seq<Complex>, m: nat, k: int)
    requires
        0 < m <= LOG2_N,
        x.len() == two_to(m),
        turns.len() == HALF_N,
        0 <= k < two_to((m - 1) as nat),
    ensures
        ({
            let h = two_to((m - 1) as nat) as int;
            let y = transformed(turns, x, m);
            let half = |first: int| Seq::new(h as nat, |t: int| x[first + 2 * t]);
            let e = transformed(turns, half(0), (m - 1) as nat)[k];
            let o = transformed(turns, half(1), (m - 1) as nat)[k];
            let w = turns[k * (512int / h)];
            let re = (w.re * o.re) / 65_536 - (w.im * o.im) / 65_536;
            let im = (w.re * o.im) / 65_536 + (w.im * o.re) / 65_536;
            let fits = |v: int| -0x1_0000_0000 <= v < 0x1_0000_0000;
            &&& fits(e.re + re) ==> 2 * y[k].re <= e.re + re < 2 * y[k].re + 2
            &&& fits(e.im + im) ==> 2 * y[k].im <= e.im + im < 2 * y[k].im + 2
            &&& fits(e.re - re) ==> 2 * y[k + h].re <= e.re - re < 2 * y[k + h].re + 2
            &&& fits(e.im - im) ==> 2 * y[k + h].im <= e.im - im < 2 * y[k + h].im + 2
        }),
{
    let n = (m - 1) as nat;
    let h = two_to(n);
    lemma_two_to(n);
    let half = |first: int| Seq::new(h, |t: int| x[first + 2 * t]);
    assert(strided(x, 0, 2, h) =~= half(0));
    assert(strided(x, 1, 2, h) =~= half(1));
}

} // verus!
