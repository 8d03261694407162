//! The separable 1D convolution engine: dispatchable row and column
//! passes over a border-padded arena.
//!
//! Weights are fixed-point integers scaled by `2^precision`; accumulation
//! is exact 64-bit integer arithmetic, and the final store rounds half
//! away from zero and saturates to the storage range.  A symmetric kernel
//! takes the folded fast path — each mirrored sample pair is added before
//! the single multiply — which is proved to compute exactly the general
//! sum, so every dispatch tier yields the same image.

use vstd::prelude::*;

use crate::arena::{arena_image, lemma_arena_image_sample, make_arena, border_sample};
use crate::pixel::{as_ints, lemma_pix_decompose, pix_offset, sample};
use crate::scan::{
    fold_tap_sum, is_symmetric_kernel, lemma_fold_tap_sum_bounds, lemma_symmetric_fold_equals_general,
    lemma_tap_sum_bounds, lemma_tap_sum_peel_hi, tap_sum, weights_of,
};
use crate::{Architecture, BlurError, EdgeMode, FastBlurChannels, ImageSize, ThreadingPolicy};
use vstd::arithmetic::power2::pow2;

verus! {

/// Rounds a fixed-point accumulator to a storage sample: add half the
/// scale, shift the scale out (flooring), and saturate to `[0, maxv]`.
pub open spec fn quantize(acc: int, p: nat, maxv: int) -> int {
    let s = acc + pow2(p) as int / 2;
    if s < 0 {
        0
    } else if s / pow2(p) as int > maxv {
        maxv
    } else {
        s / pow2(p) as int
    }
}

/// The fixed-point scale as an execution value.
#[verifier::loop_isolation(false)]
pub fn pow2_i64(p: u32) -> (d: i64)
    requires
        p <= 32,
    ensures
        d == pow2(p as nat),
        1 <= d,
{
    let mut d: i64 = 1;
    let mut i: u32 = 0;
    proof {
        vstd::arithmetic::power2::lemma2_to64();
    }
    while i < p
        invariant
            i <= p,
            d == pow2(i as nat),
            1 <= d <= 0x1_0000_0000,
        decreases p - i,
    {
        proof {
            vstd::arithmetic::power2::lemma_pow2_unfold((i + 1) as nat);
            vstd::arithmetic::power2::lemma2_to64();
            if i + 1 < 32 {
                vstd::arithmetic::power2::lemma_pow2_strictly_increases((i + 1) as nat, 32);
            }
        }
        d = d * 2;
        i = i + 1;
    }
    d
}

/// The row sampler of an arena: the sample at column `t` of a fixed row.
pub open spec fn arena_row_fn(a: Seq<int>, stride: int, cn: int, y: int, ch: int)
    -> spec_fn(int) -> int {
    |t: int| sample(a, stride, cn, t, y, ch)
}

/// The column sampler of an arena: the sample at row `t` of a fixed
/// column.
pub open spec fn arena_col_fn(a: Seq<int>, stride: int, cn: int, x: int, ch: int)
    -> spec_fn(int) -> int {
    |t: int| sample(a, stride, cn, x, t, ch)
}

/// Quantizes a finished accumulator.
fn quantize_exec(acc: i64, d: i64, Ghost(p): Ghost<nat>) -> (v: u8)
    requires
        d == pow2(p),
        1 <= d <= 0x1_0000_0000,
        -0x7fff_ffff_0000_0000 <= acc <= 0x7fff_ffff_0000_0000,
    ensures
        v as int == quantize(acc as int, p, 255),
{
    let half: i64 = d / 2;
    let s: i64 = acc + half;
    if s < 0 {
        0
    } else {
        let q: u64 = (s as u64) / (d as u64);
        if q > 255 {
            255
        } else {
            q as u8
        }
    }
}

/// One output sample of the general (unfolded) row kernel.
#[verifier::loop_isolation(false)]
fn conv_row_point(
    abuf: &Vec<u8>, aw: usize, ah: usize, cn: usize, kernel: &Vec<i32>, d: i64,
    Ghost(p): Ghost<nat>, x: usize, y: usize, ch: usize,
) -> (v: u8)
    requires
        1 <= cn,
        1 <= kernel@.len() <= 0x100_0000,
        x + kernel@.len() <= aw,
        y < ah,
        ch < cn,
        abuf@.len() == (aw * cn) * ah,
        aw <= 0x3_0000_0000,
        d == pow2(p),
        1 <= d <= 0x1_0000_0000,
    ensures
        v as int == quantize(
            tap_sum(
                arena_row_fn(as_ints(abuf@), (aw * cn) as int, cn as int, y as int, ch as int),
                weights_of(kernel@), x as int, 0, kernel@.len() as int,
            ),
            p, 255,
        ),
{
    let ghost f = arena_row_fn(as_ints(abuf@), (aw * cn) as int, cn as int, y as int, ch as int);
    let ghost wt = weights_of(kernel@);
    let total: usize = abuf.len();
    proof {
        assert(0 <= aw * cn && aw * cn <= (aw * cn) * ah) by (nonlinear_arith)
            requires 1 <= ah, 0 <= aw, 0 <= cn,
        ;
    }
    let ln: usize = kernel.len();
    proof {
        assert forall|i: int| 0 <= i < ln implies -0x8000_0000 <= #[trigger] wt[i] <= 0x8000_0000 by {
            assert(wt[i] == kernel@[i] as int);
        }
        assert forall|i: int| 0 <= i < ln implies 0 <= #[trigger] f(x as int + i) <= 255 by {
            lemma_pix_decompose((aw * cn) as int, cn as int, aw as int, ah as int,
                x as int + i, y as int, ch as int);
        }
    }
    let mut acc: i64 = 0;
    let mut i: usize = 0;
    while i < ln
        invariant
            i <= ln,
            acc == tap_sum(f, wt, x as int, 0, i as int),
        decreases ln - i,
    {
        proof {
            lemma_tap_sum_bounds(f, wt, x as int, 0, i as int, 0x8000_0000, 255);
            lemma_tap_sum_peel_hi(f, wt, x as int, 0, i + 1);
            assert((i as int) * 0x8000_0000 * 255 <= 0x100_0000 * 0x8000_0000 * 255)
                by (nonlinear_arith)
                requires i <= 0x100_0000,
            ;
        }
        let w0: i64 = kernel[i] as i64;
        let v0 = crate::pixel::sample_at(abuf, aw * cn, cn, x + i, y, ch,
            Ghost(aw as int), Ghost(ah as int));
        proof {
            assert(-0x8000_0000 * 255 <= (w0 as int) * (v0 as int) <= 0x8000_0000 * 255)
                by (nonlinear_arith)
                requires -0x8000_0000 <= w0 <= 0x8000_0000, 0 <= v0 <= 255,
            ;
        }
        acc = acc + w0 * (v0 as i64);
        i = i + 1;
    }
    proof {
        lemma_tap_sum_bounds(f, wt, x as int, 0, ln as int, 0x8000_0000, 255);
        assert((ln as int) * 0x8000_0000 * 255 <= 0x100_0000 * 0x8000_0000 * 255)
            by (nonlinear_arith)
            requires ln <= 0x100_0000,
        ;
    }
    quantize_exec(acc, d, Ghost(p))
}

/// One output sample of the folded symmetric row kernel: each mirrored
/// sample pair is added once and multiplied by the shared weight.
#[verifier::loop_isolation(false)]
fn conv_row_point_symm(
    abuf: &Vec<u8>, aw: usize, ah: usize, cn: usize, kernel: &Vec<i32>, d: i64,
    Ghost(p): Ghost<nat>, x: usize, y: usize, ch: usize,
) -> (v: u8)
    requires
        1 <= cn,
        1 <= kernel@.len() <= 0x100_0000,
        kernel@.len() % 2 == 1,
        is_symmetric_kernel(weights_of(kernel@)),
        x + kernel@.len() <= aw,
        y < ah,
        ch < cn,
        abuf@.len() == (aw * cn) * ah,
        aw <= 0x3_0000_0000,
        d == pow2(p),
        1 <= d <= 0x1_0000_0000,
    ensures
        v as int == quantize(
            tap_sum(
                arena_row_fn(as_ints(abuf@), (aw * cn) as int, cn as int, y as int, ch as int),
                weights_of(kernel@), x as int, 0, kernel@.len() as int,
            ),
            p, 255,
        ),
{
    let ghost f = arena_row_fn(as_ints(abuf@), (aw * cn) as int, cn as int, y as int, ch as int);
    let ghost wt = weights_of(kernel@);
    let total: usize = abuf.len();
    proof {
        assert(0 <= aw * cn && aw * cn <= (aw * cn) * ah) by (nonlinear_arith)
            requires 1 <= ah, 0 <= aw, 0 <= cn,
        ;
    }
    let ln: usize = kernel.len();
    let half: usize = ln / 2;
    proof {
        assert forall|i: int| 0 <= i < ln implies -0x8000_0000 <= #[trigger] wt[i] <= 0x8000_0000 by {
            assert(wt[i] == kernel@[i] as int);
        }
        assert forall|i: int| 0 <= i < ln implies 0 <= #[trigger] f(x as int + i) <= 255 by {
            lemma_pix_decompose((aw * cn) as int, cn as int, aw as int, ah as int,
                x as int + i, y as int, ch as int);
        }
    }
    let wc: i64 = kernel[half] as i64;
    let vc = crate::pixel::sample_at(abuf, aw * cn, cn, x + half, y, ch,
        Ghost(aw as int), Ghost(ah as int));
    proof {
        assert(-0x8000_0000 * 255 <= (wc as int) * (vc as int) <= 0x8000_0000 * 255)
            by (nonlinear_arith)
            requires -0x8000_0000 <= wc <= 0x8000_0000, 0 <= vc <= 255,
        ;
    }
    let mut acc: i64 = wc * (vc as i64);
    let ghost centre = wt[half as int] * f(x as int + half);
    let mut i: usize = 0;
    while i < half
        invariant
            i <= half,
            acc == fold_tap_sum(f, wt, x as int, i as int) + centre,
            -0x8000_0000 * 255 <= centre <= 0x8000_0000 * 255,
        decreases half - i,
    {
        proof {
            lemma_fold_tap_sum_bounds(f, wt, x as int, i as int, 0x8000_0000, 255);
            assert((i as int) * 0x8000_0000 * 510 <= 0x80_0000 * 0x8000_0000 * 510)
                by (nonlinear_arith)
                requires i <= 0x80_0000,
            ;
        }
        let wi: i64 = kernel[i] as i64;
        let v0 = crate::pixel::sample_at(abuf, aw * cn, cn, x + i, y, ch,
            Ghost(aw as int), Ghost(ah as int));
        let v1 = crate::pixel::sample_at(abuf, aw * cn, cn, x + (ln - 1 - i), y, ch,
            Ghost(aw as int), Ghost(ah as int));
        proof {
            assert(-0x8000_0000 * 510 <= (wi as int) * ((v0 as int) + (v1 as int)) <= 0x8000_0000 * 510)
                by (nonlinear_arith)
                requires -0x8000_0000 <= wi <= 0x8000_0000, 0 <= v0 <= 255, 0 <= v1 <= 255,
            ;
        }
        acc = acc + wi * ((v0 as i64) + (v1 as i64));
        i = i + 1;
    }
    proof {
        lemma_symmetric_fold_equals_general(f, wt, x as int);
        lemma_fold_tap_sum_bounds(f, wt, x as int, half as int, 0x8000_0000, 255);
        assert((half as int) * 0x8000_0000 * 510 <= 0x80_0000 * 0x8000_0000 * 510)
            by (nonlinear_arith)
            requires half <= 0x80_0000,
        ;
    }
    quantize_exec(acc, d, Ghost(p))
}

/// One output sample of the general (unfolded) column kernel.
#[verifier::loop_isolation(false)]
fn conv_col_point(
    abuf: &Vec<u8>, aw: usize, ah: usize, cn: usize, kernel: &Vec<i32>, d: i64,
    Ghost(p): Ghost<nat>, x: usize, y: usize, ch: usize,
) -> (v: u8)
    requires
        1 <= cn,
        1 <= kernel@.len() <= 0x100_0000,
        y + kernel@.len() <= ah,
        x < aw,
        ch < cn,
        abuf@.len() == (aw * cn) * ah,
        aw <= 0x3_0000_0000,
        d == pow2(p),
        1 <= d <= 0x1_0000_0000,
    ensures
        v as int == quantize(
            tap_sum(
                arena_col_fn(as_ints(abuf@), (aw * cn) as int, cn as int, x as int, ch as int),
                weights_of(kernel@), y as int, 0, kernel@.len() as int,
            ),
            p, 255,
        ),
{
    let ghost f = arena_col_fn(as_ints(abuf@), (aw * cn) as int, cn as int, x as int, ch as int);
    let ghost wt = weights_of(kernel@);
    let total: usize = abuf.len();
    proof {
        assert(0 <= aw * cn && aw * cn <= (aw * cn) * ah) by (nonlinear_arith)
            requires 1 <= ah, 0 <= aw, 0 <= cn,
        ;
    }
    let ln: usize = kernel.len();
    proof {
        assert forall|i: int| 0 <= i < ln implies -0x8000_0000 <= #[trigger] wt[i] <= 0x8000_0000 by {
            assert(wt[i] == kernel@[i] as int);
        }
        assert forall|i: int| 0 <= i < ln implies 0 <= #[trigger] f(y as int + i) <= 255 by {
            lemma_pix_decompose((aw * cn) as int, cn as int, aw as int, ah as int,
                x as int, y as int + i, ch as int);
        }
    }
    let mut acc: i64 = 0;
    let mut i: usize = 0;
    while i < ln
        invariant
            i <= ln,
            acc == tap_sum(f, wt, y as int, 0, i as int),
        decreases ln - i,
    {
        proof {
            lemma_tap_sum_bounds(f, wt, y as int, 0, i as int, 0x8000_0000, 255);
            lemma_tap_sum_peel_hi(f, wt, y as int, 0, i + 1);
            assert((i as int) * 0x8000_0000 * 255 <= 0x100_0000 * 0x8000_0000 * 255)
                by (nonlinear_arith)
                requires i <= 0x100_0000,
            ;
        }
        let w0: i64 = kernel[i] as i64;
        let v0 = crate::pixel::sample_at(abuf, aw * cn, cn, x, y + i, ch,
            Ghost(aw as int), Ghost(ah as int));
        proof {
            assert(-0x8000_0000 * 255 <= (w0 as int) * (v0 as int) <= 0x8000_0000 * 255)
                by (nonlinear_arith)
                requires -0x8000_0000 <= w0 <= 0x8000_0000, 0 <= v0 <= 255,
            ;
        }
        acc = acc + w0 * (v0 as i64);
        i = i + 1;
    }
    proof {
        lemma_tap_sum_bounds(f, wt, y as int, 0, ln as int, 0x8000_0000, 255);
        assert((ln as int) * 0x8000_0000 * 255 <= 0x100_0000 * 0x8000_0000 * 255)
            by (nonlinear_arith)
            requires ln <= 0x100_0000,
        ;
    }
    quantize_exec(acc, d, Ghost(p))
}

/// One output sample of the folded symmetric column kernel: each mirrored
/// sample pair is added once and multiplied by the shared weight.
#[verifier::loop_isolation(false)]
fn conv_col_point_symm(
    abuf: &Vec<u8>, aw: usize, ah: usize, cn: usize, kernel: &Vec<i32>, d: i64,
    Ghost(p): Ghost<nat>, x: usize, y: usize, ch: usize,
) -> (v: u8)
    requires
        1 <= cn,
        1 <= kernel@.len() <= 0x100_0000,
        kernel@.len() % 2 == 1,
        is_symmetric_kernel(weights_of(kernel@)),
        y + kernel@.len() <= ah,
        x < aw,
        ch < cn,
        abuf@.len() == (aw * cn) * ah,
        aw <= 0x3_0000_0000,
        d == pow2(p),
        1 <= d <= 0x1_0000_0000,
    ensures
        v as int == quantize(
            tap_sum(
                arena_col_fn(as_ints(abuf@), (aw * cn) as int, cn as int, x as int, ch as int),
                weights_of(kernel@), y as int, 0, kernel@.len() as int,
            ),
            p, 255,
        ),
{
    let ghost f = arena_col_fn(as_ints(abuf@), (aw * cn) as int, cn as int, x as int, ch as int);
    let ghost wt = weights_of(kernel@);
    let total: usize = abuf.len();
    proof {
        assert(0 <= aw * cn && aw * cn <= (aw * cn) * ah) by (nonlinear_arith)
            requires 1 <= ah, 0 <= aw, 0 <= cn,
        ;
    }
    let ln: usize = kernel.len();
    let half: usize = ln / 2;
    proof {
        assert forall|i: int| 0 <= i < ln implies -0x8000_0000 <= #[trigger] wt[i] <= 0x8000_0000 by {
            assert(wt[i] == kernel@[i] as int);
        }
        assert forall|i: int| 0 <= i < ln implies 0 <= #[trigger] f(y as int + i) <= 255 by {
            lemma_pix_decompose((aw * cn) as int, cn as int, aw as int, ah as int,
                x as int, y as int + i, ch as int);
        }
    }
    let wc: i64 = kernel[half] as i64;
    let vc = crate::pixel::sample_at(abuf, aw * cn, cn, x, y + half, ch,
        Ghost(aw as int), Ghost(ah as int));
    proof {
        assert(-0x8000_0000 * 255 <= (wc as int) * (vc as int) <= 0x8000_0000 * 255)
            by (nonlinear_arith)
            requires -0x8000_0000 <= wc <= 0x8000_0000, 0 <= vc <= 255,
        ;
    }
    let mut acc: i64 = wc * (vc as i64);
    let ghost centre = wt[half as int] * f(y as int + half);
    let mut i: usize = 0;
    while i < half
        invariant
            i <= half,
            acc == fold_tap_sum(f, wt, y as int, i as int) + centre,
            -0x8000_0000 * 255 <= centre <= 0x8000_0000 * 255,
        decreases half - i,
    {
        proof {
            lemma_fold_tap_sum_bounds(f, wt, y as int, i as int, 0x8000_0000, 255);
            assert((i as int) * 0x8000_0000 * 510 <= 0x80_0000 * 0x8000_0000 * 510)
                by (nonlinear_arith)
                requires i <= 0x80_0000,
            ;
        }
        let wi: i64 = kernel[i] as i64;
        let v0 = crate::pixel::sample_at(abuf, aw * cn, cn, x, y + i, ch,
            Ghost(aw as int), Ghost(ah as int));
        let v1 = crate::pixel::sample_at(abuf, aw * cn, cn, x, y + (ln - 1 - i), ch,
            Ghost(aw as int), Ghost(ah as int));
        proof {
            assert(-0x8000_0000 * 510 <= (wi as int) * ((v0 as int) + (v1 as int)) <= 0x8000_0000 * 510)
                by (nonlinear_arith)
                requires -0x8000_0000 <= wi <= 0x8000_0000, 0 <= v0 <= 255, 0 <= v1 <= 255,
            ;
        }
        acc = acc + wi * ((v0 as i64) + (v1 as i64));
        i = i + 1;
    }
    proof {
        lemma_symmetric_fold_equals_general(f, wt, y as int);
        lemma_fold_tap_sum_bounds(f, wt, y as int, half as int, 0x8000_0000, 255);
        assert((half as int) * 0x8000_0000 * 510 <= 0x80_0000 * 0x8000_0000 * 510)
            by (nonlinear_arith)
            requires half <= 0x80_0000,
        ;
    }
    quantize_exec(acc, d, Ghost(p))
}

/// One of the ordered candidate implementations of a pass, selected once
/// per call.
#[derive(Clone, Copy, PartialEq, Eq, Structural, Debug)]
pub enum KernelTier {
    /// Portable reference loop.
    Scalar,
    /// Two pixels per step, as a narrow SIMD lane would hold.
    Narrow,
    /// Four pixels per step, as a wide SIMD lane would hold.
    Wide,
}

/// The tier an architecture supports, most specialized first.
pub open spec fn tier_of(arch: Architecture) -> KernelTier {
    match arch {
        Architecture::Scalar => KernelTier::Scalar,
        Architecture::Sse => KernelTier::Narrow,
        Architecture::Neon => KernelTier::Narrow,
        Architecture::Avx2 => KernelTier::Wide,
    }
}

/// Resolves the dispatch tier for an architecture capability.
pub fn select_tier(arch: Architecture) -> (t: KernelTier)
    ensures
        t == tier_of(arch),
{
    match arch {
        Architecture::Scalar => KernelTier::Scalar,
        Architecture::Sse => KernelTier::Narrow,
        Architecture::Neon => KernelTier::Narrow,
        Architecture::Avx2 => KernelTier::Wide,
    }
}

/// The row pass of a padded arena as a sequence: every output sample is
/// the quantized tap sum of the kernel window starting at its own column.
pub open spec fn conv_row_image(
    a: Seq<u8>, aw: int, h: int, w: int, cn: int, wt: Seq<int>, p: nat,
) -> Seq<u8> {
    Seq::new(
        (w * cn * h) as nat,
        |k: int| quantize(
            tap_sum(
                arena_row_fn(as_ints(a), aw * cn, cn, k / (w * cn), (k % (w * cn)) % cn),
                wt, (k % (w * cn)) / cn, 0, wt.len() as int,
            ),
            p, 255,
        ) as u8,
    )
}

/// The column pass of a padded arena as a sequence.
pub open spec fn conv_col_image(
    a: Seq<u8>, aw: int, h: int, w: int, cn: int, wt: Seq<int>, p: nat,
) -> Seq<u8> {
    Seq::new(
        (w * cn * h) as nat,
        |k: int| quantize(
            tap_sum(
                arena_col_fn(as_ints(a), aw * cn, cn, (k % (w * cn)) / cn, (k % (w * cn)) % cn),
                wt, k / (w * cn), 0, wt.len() as int,
            ),
            p, 255,
        ) as u8,
    )
}

/// Emits the channels of one row-pass output pixel.
#[verifier::loop_isolation(false)]
fn conv_row_emit(
    abuf: &Vec<u8>, aw: usize, h: usize, w: usize, cn: usize, kernel: &Vec<i32>, d: i64,
    Ghost(p): Ghost<nat>, symmetric: bool, x: usize, y: usize, out: &mut Vec<u8>,
)
    requires
        1 <= cn,
        1 <= kernel@.len() <= 0x100_0000,
        symmetric ==> kernel@.len() % 2 == 1 && is_symmetric_kernel(weights_of(kernel@)),
        aw == w + (kernel@.len() - 1),
        x < w,
        y < h,
        1 <= w <= 0xffff_ffff,
        abuf@.len() == (aw * cn) * h,
        aw <= 0x3_0000_0000,
        d == pow2(p),
        1 <= d <= 0x1_0000_0000,
        old(out)@.len() == y * (w * cn) + x * cn,
        w * cn * h <= usize::MAX,
    ensures
        final(out)@.len() == old(out)@.len() + cn,
        forall|k: int| 0 <= k < old(out)@.len() ==> final(out)@[k] == old(out)@[k],
        forall|k: int| old(out)@.len() <= k < final(out)@.len() ==> final(out)@[k]
            == conv_row_image(abuf@, aw as int, h as int, w as int, cn as int,
                weights_of(kernel@), p)[k],
{
    let ghost gim = conv_row_image(abuf@, aw as int, h as int, w as int, cn as int,
        weights_of(kernel@), p);
    let mut c: usize = 0;
    while c < cn
        invariant
            c <= cn,
            out@.len() == y * (w * cn) + x * cn + c,
            forall|k: int| 0 <= k < old(out)@.len() ==> out@[k] == old(out)@[k],
            forall|k: int| old(out)@.len() <= k < out@.len() ==> out@[k] == gim[k],
        decreases cn - c,
    {
        let v: u8 = if symmetric {
            conv_row_point_symm(abuf, aw, h, cn, kernel, d, Ghost(p), x, y, c)
        } else {
            conv_row_point(abuf, aw, h, cn, kernel, d, Ghost(p), x, y, c)
        };
        proof {
            lemma_pix_decompose((w * cn) as int, cn as int, w as int, h as int,
                x as int, y as int, c as int);
            assert(out@.len() == pix_offset((w * cn) as int, cn as int, x as int, y as int, c as int));
            assert((w * cn) * h == w * cn * h);
            assert(gim[out@.len() as int] == v);
        }
        out.push(v);
        c = c + 1;
    }
    proof {
        assert(x * cn + cn == (x + 1) * cn) by (nonlinear_arith);
    }
}

/// Emits the channels of one column-pass output pixel.
#[verifier::loop_isolation(false)]
fn conv_col_emit(
    abuf: &Vec<u8>, ah: usize, h: usize, w: usize, cn: usize, kernel: &Vec<i32>, d: i64,
    Ghost(p): Ghost<nat>, symmetric: bool, x: usize, y: usize, out: &mut Vec<u8>,
)
    requires
        1 <= cn,
        1 <= kernel@.len() <= 0x100_0000,
        symmetric ==> kernel@.len() % 2 == 1 && is_symmetric_kernel(weights_of(kernel@)),
        ah == h + (kernel@.len() - 1),
        x < w,
        y < h,
        1 <= w <= 0xffff_ffff,
        abuf@.len() == (w * cn) * ah,
        w <= 0x3_0000_0000,
        d == pow2(p),
        1 <= d <= 0x1_0000_0000,
        old(out)@.len() == y * (w * cn) + x * cn,
        w * cn * h <= usize::MAX,
    ensures
        final(out)@.len() == old(out)@.len() + cn,
        forall|k: int| 0 <= k < old(out)@.len() ==> final(out)@[k] == old(out)@[k],
        forall|k: int| old(out)@.len() <= k < final(out)@.len() ==> final(out)@[k]
            == conv_col_image(abuf@, w as int, h as int, w as int, cn as int,
                weights_of(kernel@), p)[k],
{
    let ghost gim = conv_col_image(abuf@, w as int, h as int, w as int, cn as int,
        weights_of(kernel@), p);
    let mut c: usize = 0;
    while c < cn
        invariant
            c <= cn,
            out@.len() == y * (w * cn) + x * cn + c,
            forall|k: int| 0 <= k < old(out)@.len() ==> out@[k] == old(out)@[k],
            forall|k: int| old(out)@.len() <= k < out@.len() ==> out@[k] == gim[k],
        decreases cn - c,
    {
        let v: u8 = if symmetric {
            conv_col_point_symm(abuf, w, ah, cn, kernel, d, Ghost(p), x, y, c)
        } else {
            conv_col_point(abuf, w, ah, cn, kernel, d, Ghost(p), x, y, c)
        };
        proof {
            lemma_pix_decompose((w * cn) as int, cn as int, w as int, h as int,
                x as int, y as int, c as int);
            assert(out@.len() == pix_offset((w * cn) as int, cn as int, x as int, y as int, c as int));
            assert((w * cn) * h == w * cn * h);
            assert(gim[out@.len() as int] == v);
        }
        out.push(v);
        c = c + 1;
    }
    proof {
        assert(x * cn + cn == (x + 1) * cn) by (nonlinear_arith);
    }
}

/// The row pass over the whole plane: worker row regions in order, and
/// within each row the loop shape of the selected tier.  Every tier
/// produces the same image.
#[verifier::loop_isolation(false)]
#[verifier::rlimit(100)]
#[verifier::spinoff_prover]
fn conv_row_pass(
    abuf: &Vec<u8>, aw: usize, h: usize, w: usize, cn: usize, kernel: &Vec<i32>, d: i64,
    Ghost(p): Ghost<nat>, symmetric: bool, tier: KernelTier, workers: usize,
) -> (out: Vec<u8>)
    requires
        1 <= cn,
        1 <= kernel@.len() <= 0x100_0000,
        symmetric ==> kernel@.len() % 2 == 1 && is_symmetric_kernel(weights_of(kernel@)),
        aw == w + (kernel@.len() - 1),
        1 <= w <= 0xffff_ffff,
        1 <= h <= 0xffff_ffff,
        abuf@.len() == (aw * cn) * h,
        aw <= 0x3_0000_0000,
        d == pow2(p),
        1 <= d <= 0x1_0000_0000,
        w * cn * h <= usize::MAX,
        1 <= workers,
    ensures
        out@ == conv_row_image(abuf@, aw as int, h as int, w as int, cn as int,
            weights_of(kernel@), p),
{
    let ghost gim = conv_row_image(abuf@, aw as int, h as int, w as int, cn as int,
        weights_of(kernel@), p);
    proof {
        assert(w * cn <= w * cn * h) by (nonlinear_arith)
            requires 1 <= h, 0 <= w, 0 <= cn,
        ;
    }
    let wcn: usize = w * cn;
    let regions = crate::region::make_regions(h, workers);
    let mut out: Vec<u8> = Vec::new();
    let mut i: usize = 0;
    let mut row: usize = 0;
    while i < workers
        invariant
            i <= workers,
            row <= h,
            i < workers ==> row == crate::region::region_start(h as int, workers as int, i as int),
            i == workers ==> row == h,
            out@.len() == row * wcn,
            forall|k: int| 0 <= k < out@.len() ==> out@[k] == gim[k],
        decreases workers - i,
    {
        proof {
            crate::region::lemma_regions_ordered(h as int, workers as int, i as int);
        }
        let end: usize = regions[i].end;
        while row < end
            invariant
                i < workers,
                row <= end,
                end == crate::region::region_end(h as int, workers as int, i as int),
                end <= h,
                out@.len() == row * wcn,
                forall|k: int| 0 <= k < out@.len() ==> out@[k] == gim[k],
            decreases end - row,
        {
            proof {
                assert((row + 1) * wcn == row * wcn + wcn) by (nonlinear_arith);
                assert((row + 1) * wcn <= h * wcn) by (nonlinear_arith)
                    requires row + 1 <= h, 0 <= wcn,
                ;
                assert(h * wcn == w * cn * h) by (nonlinear_arith)
                    requires wcn == w * cn,
                ;
            }
            let mut x: usize = 0;
            match tier {
                KernelTier::Scalar => {
                    while x < w
                        invariant
                            x <= w,
                            i < workers,
                            row < end <= h,
                            out@.len() == row * wcn + x * cn,
                            forall|k: int| 0 <= k < out@.len() ==> out@[k] == gim[k],
                        decreases w - x,
                    {
                        conv_row_emit(abuf, aw, h, w, cn, kernel, d, Ghost(p), symmetric, x, row, &mut out);
                        x = x + 1;
                        proof {
                            assert(x * cn == (x - 1) * cn + cn) by (nonlinear_arith);
                        }
                    }
                },
                KernelTier::Narrow => {
                    while w - x >= 2
                        invariant
                            x <= w,
                            i < workers,
                            row < end <= h,
                            out@.len() == row * wcn + x * cn,
                            forall|k: int| 0 <= k < out@.len() ==> out@[k] == gim[k],
                        decreases w - x,
                    {
                        conv_row_emit(abuf, aw, h, w, cn, kernel, d, Ghost(p), symmetric, x, row, &mut out);
                        proof {
                            assert((x + 1) * cn == x * cn + cn) by (nonlinear_arith);
                        }
                        conv_row_emit(abuf, aw, h, w, cn, kernel, d, Ghost(p), symmetric, x + 1, row, &mut out);
                        x = x + 2;
                        proof {
                            assert(x * cn == (x - 2) * cn + cn + cn) by (nonlinear_arith);
                        }
                    }
                    while x < w
                        invariant
                            x <= w,
                            i < workers,
                            row < end <= h,
                            out@.len() == row * wcn + x * cn,
                            forall|k: int| 0 <= k < out@.len() ==> out@[k] == gim[k],
                        decreases w - x,
                    {
                        conv_row_emit(abuf, aw, h, w, cn, kernel, d, Ghost(p), symmetric, x, row, &mut out);
                        x = x + 1;
                        proof {
                            assert(x * cn == (x - 1) * cn + cn) by (nonlinear_arith);
                        }
                    }
                },
                KernelTier::Wide => {
                    while w - x >= 4
                        invariant
                            x <= w,
                            i < workers,
                            row < end <= h,
                            out@.len() == row * wcn + x * cn,
                            forall|k: int| 0 <= k < out@.len() ==> out@[k] == gim[k],
                        decreases w - x,
                    {
                        conv_row_emit(abuf, aw, h, w, cn, kernel, d, Ghost(p), symmetric, x, row, &mut out);
                        proof {
                            assert((x + 1) * cn == x * cn + cn && (x + 2) * cn == x * cn + cn + cn
                                && (x + 3) * cn == x * cn + cn + cn + cn) by (nonlinear_arith);
                        }
                        conv_row_emit(abuf, aw, h, w, cn, kernel, d, Ghost(p), symmetric, x + 1, row, &mut out);
                        conv_row_emit(abuf, aw, h, w, cn, kernel, d, Ghost(p), symmetric, x + 2, row, &mut out);
                        conv_row_emit(abuf, aw, h, w, cn, kernel, d, Ghost(p), symmetric, x + 3, row, &mut out);
                        x = x + 4;
                        proof {
                            assert(x * cn == (x - 4) * cn + cn + cn + cn + cn) by (nonlinear_arith);
                        }
                    }
                    while x < w
                        invariant
                            x <= w,
                            i < workers,
                            row < end <= h,
                            out@.len() == row * wcn + x * cn,
                            forall|k: int| 0 <= k < out@.len() ==> out@[k] == gim[k],
                        decreases w - x,
                    {
                        conv_row_emit(abuf, aw, h, w, cn, kernel, d, Ghost(p), symmetric, x, row, &mut out);
                        x = x + 1;
                        proof {
                            assert(x * cn == (x - 1) * cn + cn) by (nonlinear_arith);
                        }
                    }
                },
            }
            row = row + 1;
        }
        proof {
            if i + 1 < workers {
                crate::region::lemma_regions_ordered(h as int, workers as int, i as int);
            }
        }
        i = i + 1;
    }
    proof {
        assert(out@.len() == w * cn * h) by (nonlinear_arith)
            requires out@.len() == h * wcn, wcn == w * cn,
        ;
        assert(out@ =~= gim);
    }
    out
}

/// The column pass over the whole plane, rows emitted top to bottom.
#[verifier::loop_isolation(false)]
#[verifier::rlimit(100)]
#[verifier::spinoff_prover]
fn conv_col_pass(
    abuf: &Vec<u8>, ah: usize, h: usize, w: usize, cn: usize, kernel: &Vec<i32>, d: i64,
    Ghost(p): Ghost<nat>, symmetric: bool, tier: KernelTier,
) -> (out: Vec<u8>)
    requires
        1 <= cn,
        1 <= kernel@.len() <= 0x100_0000,
        symmetric ==> kernel@.len() % 2 == 1 && is_symmetric_kernel(weights_of(kernel@)),
        ah == h + (kernel@.len() - 1),
        1 <= w <= 0xffff_ffff,
        1 <= h <= 0xffff_ffff,
        abuf@.len() == (w * cn) * ah,
        w <= 0x3_0000_0000,
        d == pow2(p),
        1 <= d <= 0x1_0000_0000,
        w * cn * h <= usize::MAX,
    ensures
        out@ == conv_col_image(abuf@, w as int, h as int, w as int, cn as int,
            weights_of(kernel@), p),
{
    let ghost gim = conv_col_image(abuf@, w as int, h as int, w as int, cn as int,
        weights_of(kernel@), p);
    proof {
        assert(w * cn <= w * cn * h) by (nonlinear_arith)
            requires 1 <= h, 0 <= w, 0 <= cn,
        ;
    }
    let wcn: usize = w * cn;
    let mut out: Vec<u8> = Vec::new();
    let mut y: usize = 0;
    while y < h
        invariant
            y <= h,
            out@.len() == y * wcn,
            forall|k: int| 0 <= k < out@.len() ==> out@[k] == gim[k],
        decreases h - y,
    {
        proof {
            assert((y + 1) * wcn == y * wcn + wcn) by (nonlinear_arith);
            assert((y + 1) * wcn <= h * wcn) by (nonlinear_arith)
                requires y + 1 <= h, 0 <= wcn,
            ;
            assert(h * wcn == w * cn * h) by (nonlinear_arith)
                requires wcn == w * cn,
            ;
        }
        let mut x: usize = 0;
        match tier {
            KernelTier::Scalar => {
                while x < w
                    invariant
                        x <= w,
                        y < h,
                        out@.len() == y * wcn + x * cn,
                        forall|k: int| 0 <= k < out@.len() ==> out@[k] == gim[k],
                    decreases w - x,
                {
                    conv_col_emit(abuf, ah, h, w, cn, kernel, d, Ghost(p), symmetric, x, y, &mut out);
                    x = x + 1;
                    proof {
                        assert(x * cn == (x - 1) * cn + cn) by (nonlinear_arith);
                    }
                }
            },
            KernelTier::Narrow => {
                while w - x >= 2
                    invariant
                        x <= w,
                        y < h,
                        out@.len() == y * wcn + x * cn,
                        forall|k: int| 0 <= k < out@.len() ==> out@[k] == gim[k],
                    decreases w - x,
                {
                    conv_col_emit(abuf, ah, h, w, cn, kernel, d, Ghost(p), symmetric, x, y, &mut out);
                    proof {
                        assert((x + 1) * cn == x * cn + cn) by (nonlinear_arith);
                    }
                    conv_col_emit(abuf, ah, h, w, cn, kernel, d, Ghost(p), symmetric, x + 1, y, &mut out);
                    x = x + 2;
                    proof {
                        assert(x * cn == (x - 2) * cn + cn + cn) by (nonlinear_arith);
                    }
                }
                while x < w
                    invariant
                        x <= w,
                        y < h,
                        out@.len() == y * wcn + x * cn,
                        forall|k: int| 0 <= k < out@.len() ==> out@[k] == gim[k],
                    decreases w - x,
                {
                    conv_col_emit(abuf, ah, h, w, cn, kernel, d, Ghost(p), symmetric, x, y, &mut out);
                    x = x + 1;
                    proof {
                        assert(x * cn == (x - 1) * cn + cn) by (nonlinear_arith);
                    }
                }
            },
            KernelTier::Wide => {
                while w - x >= 4
                    invariant
                        x <= w,
                        y < h,
                        out@.len() == y * wcn + x * cn,
                        forall|k: int| 0 <= k < out@.len() ==> out@[k] == gim[k],
                    decreases w - x,
                {
                    conv_col_emit(abuf, ah, h, w, cn, kernel, d, Ghost(p), symmetric, x, y, &mut out);
                    proof {
                        assert((x + 1) * cn == x * cn + cn && (x + 2) * cn == x * cn + cn + cn
                            && (x + 3) * cn == x * cn + cn + cn + cn) by (nonlinear_arith);
                    }
                    conv_col_emit(abuf, ah, h, w, cn, kernel, d, Ghost(p), symmetric, x + 1, y, &mut out);
                    conv_col_emit(abuf, ah, h, w, cn, kernel, d, Ghost(p), symmetric, x + 2, y, &mut out);
                    conv_col_emit(abuf, ah, h, w, cn, kernel, d, Ghost(p), symmetric, x + 3, y, &mut out);
                    x = x + 4;
                    proof {
                        assert(x * cn == (x - 4) * cn + cn + cn + cn + cn) by (nonlinear_arith);
                    }
                }
                while x < w
                    invariant
                        x <= w,
                        y < h,
                        out@.len() == y * wcn + x * cn,
                        forall|k: int| 0 <= k < out@.len() ==> out@[k] == gim[k],
                    decreases w - x,
                {
                    conv_col_emit(abuf, ah, h, w, cn, kernel, d, Ghost(p), symmetric, x, y, &mut out);
                    x = x + 1;
                    proof {
                        assert(x * cn == (x - 1) * cn + cn) by (nonlinear_arith);
                    }
                }
            },
        }
        y = y + 1;
    }
    proof {
        assert(out@.len() == w * cn * h) by (nonlinear_arith)
            requires out@.len() == h * wcn, wcn == w * cn,
        ;
        assert(out@ =~= gim);
    }
    out
}

/// One pixel sample of the horizontal pass stated over the source plane:
/// the quantized kernel sum of border-resolved row neighbours.
pub open spec fn conv_h_src_pixel(
    src: Seq<int>, w: int, h: int, cn: int, mode: EdgeMode, konst: int, wt: Seq<int>, p: nat,
    x: int, y: int, ch: int,
) -> int {
    quantize(
        tap_sum(
            |t: int| border_sample(src, w, h, cn, ch, t, y, mode, konst),
            wt, x - (wt.len() / 2) as int, 0, wt.len() as int,
        ),
        p, 255,
    )
}

/// One pixel sample of the vertical pass stated over its source plane.
pub open spec fn conv_v_src_pixel(
    src: Seq<int>, w: int, h: int, cn: int, mode: EdgeMode, konst: int, wt: Seq<int>, p: nat,
    x: int, y: int, ch: int,
) -> int {
    quantize(
        tap_sum(
            |t: int| border_sample(src, w, h, cn, ch, x, t, mode, konst),
            wt, y - (wt.len() / 2) as int, 0, wt.len() as int,
        ),
        p, 255,
    )
}

/// The horizontal pass of a packed plane, stated over the source.
pub open spec fn conv_h_src_image(
    src: Seq<u8>, w: int, h: int, cn: int, mode: EdgeMode, konst: u8, wt: Seq<int>, p: nat,
) -> Seq<u8> {
    Seq::new(
        (w * cn * h) as nat,
        |k: int| conv_h_src_pixel(
            as_ints(src), w, h, cn, mode, konst as int, wt, p,
            (k % (w * cn)) / cn, k / (w * cn), (k % (w * cn)) % cn,
        ) as u8,
    )
}

/// The vertical pass of a packed plane, stated over the source.
pub open spec fn conv_v_src_image(
    src: Seq<u8>, w: int, h: int, cn: int, mode: EdgeMode, konst: u8, wt: Seq<int>, p: nat,
) -> Seq<u8> {
    Seq::new(
        (w * cn * h) as nat,
        |k: int| conv_v_src_pixel(
            as_ints(src), w, h, cn, mode, konst as int, wt, p,
            (k % (w * cn)) / cn, k / (w * cn), (k % (w * cn)) % cn,
        ) as u8,
    )
}

/// The separable filter: the vertical pass applied to the horizontal
/// pass's result.
pub open spec fn filter_1d_image(
    src: Seq<u8>, w: int, h: int, cn: int, mode: EdgeMode, konst: u8,
    wtx: Seq<int>, wty: Seq<int>, p: nat,
) -> Seq<u8> {
    conv_v_src_image(
        conv_h_src_image(src, w, h, cn, mode, konst, wtx, p),
        w, h, cn, mode, konst, wty, p,
    )
}

/// Decomposition of a packed-plane offset into pixel coordinates.
proof fn lemma_packed_decompose(w: int, cn: int, h: int, k: int)
    requires
        1 <= cn,
        1 <= w,
        1 <= h,
        0 <= k < w * cn * h,
    ensures
        0 <= k / (w * cn) < h,
        0 <= (k % (w * cn)) / cn < w,
        0 <= (k % (w * cn)) % cn < cn,
{
    assert(0 < w * cn) by (nonlinear_arith)
        requires 1 <= w, 1 <= cn,
    ;
    vstd::arithmetic::div_mod::lemma_mod_bound(k, w * cn);
    assert(k < (w * cn) * h) by (nonlinear_arith)
        requires k < w * cn * h,
    ;
    vstd::arithmetic::div_mod::lemma_multiply_divide_lt(k, w * cn, h);
    vstd::arithmetic::div_mod::lemma_div_pos_is_pos(k, w * cn);
    let j = k % (w * cn);
    assert(j < cn * w) by (nonlinear_arith)
        requires j < w * cn,
    ;
    vstd::arithmetic::div_mod::lemma_multiply_divide_lt(j, cn, w);
    vstd::arithmetic::div_mod::lemma_div_pos_is_pos(j, cn);
    vstd::arithmetic::div_mod::lemma_mod_bound(j, cn);
}

/// The arena-based row pass computes the source-stated horizontal pass.
proof fn lemma_row_pass_bridge(
    src: Seq<u8>, w: int, h: int, cn: int, mode: EdgeMode, konst: u8, wt: Seq<int>, p: nat,
)
    requires
        1 <= cn,
        1 <= w,
        1 <= h,
        1 <= wt.len(),
        wt.len() % 2 == 1,
        src.len() == w * cn * h,
    ensures
        conv_row_image(
            arena_image(src, w, h, cn, (wt.len() / 2) as int, 0, mode, konst),
            w + (wt.len() - 1), h, w, cn, wt, p,
        ) == conv_h_src_image(src, w, h, cn, mode, konst, wt, p),
{
    let r = (wt.len() / 2) as int;
    let aw = w + (wt.len() - 1);
    let ab = arena_image(src, w, h, cn, r, 0, mode, konst);
    let lhs = conv_row_image(ab, aw, h, w, cn, wt, p);
    let rhs = conv_h_src_image(src, w, h, cn, mode, konst, wt, p);
    assert(aw == w + 2 * r);
    assert forall|k: int| 0 <= k < w * cn * h implies lhs[k] == rhs[k] by {
        lemma_packed_decompose(w, cn, h, k);
        let y = k / (w * cn);
        let x = (k % (w * cn)) / cn;
        let ch = (k % (w * cn)) % cn;
        let f = arena_row_fn(as_ints(ab), aw * cn, cn, y, ch);
        let g = |t: int| border_sample(as_ints(src), w, h, cn, ch, t, y, mode, konst as int);
        assert forall|i: int| 0 <= i < wt.len() implies #[trigger] f(x + i) == g(x - r + i) by {
            lemma_arena_image_sample(src, w, h, cn, r, 0, mode, konst, x + i, y, ch);
        }
        crate::scan::lemma_tap_sum_shift(f, g, wt, x, x - r, 0, wt.len() as int);
    }
    assert(lhs =~= rhs);
}

/// The arena-based column pass computes the source-stated vertical pass.
proof fn lemma_col_pass_bridge(
    src: Seq<u8>, w: int, h: int, cn: int, mode: EdgeMode, konst: u8, wt: Seq<int>, p: nat,
)
    requires
        1 <= cn,
        1 <= w,
        1 <= h,
        1 <= wt.len(),
        wt.len() % 2 == 1,
        src.len() == w * cn * h,
    ensures
        conv_col_image(
            arena_image(src, w, h, cn, 0, (wt.len() / 2) as int, mode, konst),
            w, h, w, cn, wt, p,
        ) == conv_v_src_image(src, w, h, cn, mode, konst, wt, p),
{
    let r = (wt.len() / 2) as int;
    let ah = h + (wt.len() - 1);
    let ab = arena_image(src, w, h, cn, 0, r, mode, konst);
    let lhs = conv_col_image(ab, w, h, w, cn, wt, p);
    let rhs = conv_v_src_image(src, w, h, cn, mode, konst, wt, p);
    assert(ah == h + 2 * r);
    assert forall|k: int| 0 <= k < w * cn * h implies lhs[k] == rhs[k] by {
        lemma_packed_decompose(w, cn, h, k);
        let y = k / (w * cn);
        let x = (k % (w * cn)) / cn;
        let ch = (k % (w * cn)) % cn;
        let f = arena_col_fn(as_ints(ab), w * cn, cn, x, ch);
        let g = |t: int| border_sample(as_ints(src), w, h, cn, ch, x, t, mode, konst as int);
        assert forall|i: int| 0 <= i < wt.len() implies #[trigger] f(y + i) == g(y - r + i) by {
            lemma_arena_image_sample(src, w, h, cn, 0, r, mode, konst, x, y + i, ch);
        }
        crate::scan::lemma_tap_sum_shift(f, g, wt, y, y - r, 0, wt.len() as int);
    }
    assert(lhs =~= rhs);
}

/// Whether a separable filter invocation's configuration is valid.
pub open spec fn filter_1d_config_ok(
    src: Seq<u8>, dst: Seq<u8>, w: int, h: int, cn: int, klx: int, kly: int,
) -> bool {
    &&& 1 <= w
    &&& 1 <= h
    &&& klx % 2 == 1
    &&& kly % 2 == 1
    &&& src.len() == w * cn * h
    &&& dst.len() == w * cn * h
}

/// Applies a separable 1D integer-kernel filter: border-padded arena, row
/// pass, second arena, column pass.  Weights are scaled by
/// `2^precision`; the result is identical for every architecture and
/// threading policy.  Errors are reported before any buffer is touched:
/// `InvalidShape` for an empty extent, `EvenKernel` for a kernel without
/// a centre tap, `SizeMismatch` for buffers that do not match the extent.
pub fn filter_1d_approx(
    src: &Vec<u8>, dst: &mut Vec<u8>, image_size: ImageSize, kernel_x: &Vec<i32>,
    kernel_y: &Vec<i32>, precision: u32, edge_mode: EdgeMode, border_constant: u8,
    channels: FastBlurChannels, arch: Architecture, threading_policy: ThreadingPolicy,
) -> (res: Result<(), BlurError>)
    requires
        precision <= 24,
        1 <= kernel_x@.len() <= 0x100_0000,
        1 <= kernel_y@.len() <= 0x100_0000,
        image_size.width <= 0xffff_ffff,
        image_size.height <= 0xffff_ffff,
        (image_size.width + kernel_x@.len()) * channels.channel_count()
            * (image_size.height + kernel_y@.len()) <= usize::MAX,
    ensures
        res is Ok <==> filter_1d_config_ok(
            src@, old(dst)@, image_size.width as int, image_size.height as int,
            channels.channel_count(), kernel_x@.len() as int, kernel_y@.len() as int,
        ),
        res is Ok ==> final(dst)@ == filter_1d_image(
            src@, image_size.width as int, image_size.height as int, channels.channel_count(),
            edge_mode, border_constant, weights_of(kernel_x@), weights_of(kernel_y@),
            precision as nat,
        ),
        res matches Err(e) ==> final(dst)@ == old(dst)@ && e == (
            if image_size.width == 0 || image_size.height == 0 {
                BlurError::InvalidShape
            } else if kernel_x@.len() % 2 == 0 || kernel_y@.len() % 2 == 0 {
                BlurError::EvenKernel
            } else {
                BlurError::SizeMismatch
            }
        ),
{
    let w: usize = image_size.width;
    let h: usize = image_size.height;
    let cn: usize = channels.get_channels();
    if w == 0 || h == 0 {
        return Err(BlurError::InvalidShape);
    }
    if kernel_x.len() % 2 == 0 || kernel_y.len() % 2 == 0 {
        return Err(BlurError::EvenKernel);
    }
    proof {
        assert(w * cn * h <= (w + kernel_x@.len()) * cn * (h + kernel_y@.len()))
            by (nonlinear_arith)
            requires 1 <= w, 1 <= h, 0 <= cn, 1 <= kernel_x@.len(), 1 <= kernel_y@.len(),
        ;
        assert(w * cn <= w * cn * h) by (nonlinear_arith)
            requires 1 <= h, 0 <= w, 0 <= cn,
        ;
    }
    let wcn: usize = w * cn;
    let expected: usize = wcn * h;
    proof {
        assert(wcn * h == w * cn * h);
    }
    if src.len() != expected || dst.len() != expected {
        return Err(BlurError::SizeMismatch);
    }
    let rx: usize = kernel_x.len() / 2;
    let ry: usize = kernel_y.len() / 2;
    let d = pow2_i64(precision);
    proof {
        vstd::arithmetic::power2::lemma2_to64();
        if precision < 32 {
            vstd::arithmetic::power2::lemma_pow2_strictly_increases(precision as nat, 32);
        }
    }
    let (sym_x, _points_x) = crate::scan::scan(kernel_x);
    let (sym_y, _points_y) = crate::scan::scan(kernel_y);
    let tier = select_tier(arch);
    let workers = threading_policy.get_threads_count(w as u32, h as u32);
    proof {
        assert((w + 2 * rx) * cn * (h + 2 * 0) <= (w + kernel_x@.len()) * cn * (h + kernel_y@.len()))
            by (nonlinear_arith)
            requires
                2 * rx < kernel_x@.len(), 0 <= cn, 1 <= h, 1 <= kernel_y@.len(), 1 <= w,
        ;
    }
    let hbuf = match make_arena(src, w, h, cn, rx, 0, edge_mode, border_constant) {
        Ok(p) => p.0,
        Err(e) => {
            return Err(e);
        },
    };
    proof {
        assert((w + 2 * rx) * cn * (h + 2 * 0) == ((w + (kernel_x@.len() - 1)) * cn) * h);
        assert(w + kernel_x@.len() <= (w + kernel_x@.len()) * cn * (h + kernel_y@.len()))
            by (nonlinear_arith)
            requires 1 <= cn, 1 <= h, 1 <= kernel_y@.len(), 1 <= w, 1 <= kernel_x@.len(),
        ;
    }
    let rows = conv_row_pass(
        &hbuf, w + (kernel_x.len() - 1), h, w, cn, kernel_x, d, Ghost(precision as nat),
        sym_x, tier, workers,
    );
    proof {
        lemma_row_pass_bridge(src@, w as int, h as int, cn as int, edge_mode, border_constant,
            weights_of(kernel_x@), precision as nat);
        assert(rows@.len() == w * cn * h);
        assert((w + 2 * 0) * cn * (h + 2 * ry) <= (w + kernel_x@.len()) * cn * (h + kernel_y@.len()))
            by (nonlinear_arith)
            requires
                2 * ry < kernel_y@.len(), 0 <= cn, 1 <= h, 1 <= kernel_x@.len(), 1 <= w,
        ;
    }
    let vbuf = match make_arena(&rows, w, h, cn, 0, ry, edge_mode, border_constant) {
        Ok(p) => p.0,
        Err(e) => {
            return Err(e);
        },
    };
    proof {
        assert((w + 2 * 0) * cn * (h + 2 * ry) == (w * cn) * (h + (kernel_y@.len() - 1)));
        assert(h + kernel_y@.len() <= (w + kernel_x@.len()) * cn * (h + kernel_y@.len()))
            by (nonlinear_arith)
            requires 1 <= cn, 1 <= h, 1 <= kernel_y@.len(), 1 <= w, 1 <= kernel_x@.len(),
        ;
    }
    let out = conv_col_pass(
        &vbuf, h + (kernel_y.len() - 1), h, w, cn, kernel_y, d, Ghost(precision as nat),
        sym_y, tier,
    );
    proof {
        lemma_col_pass_bridge(rows@, w as int, h as int, cn as int, edge_mode, border_constant,
            weights_of(kernel_y@), precision as nat);
    }
    *dst = out;
    Ok(())
}

/// Selection of the row handler for a storage type: the dispatch tier the
/// architecture supports, and whether the symmetric folded loop runs.
pub trait Filter1DRowHandler {
    /// Returns the tier and folding choice for a row pass.
    fn get_row_handler(arch: Architecture, is_symmetric_kernel: bool) -> (r: (KernelTier, bool))
        ensures
            r.0 == tier_of(arch),
            r.1 == is_symmetric_kernel,
    ;
}

impl Filter1DRowHandler for u8 {
    fn get_row_handler(arch: Architecture, is_symmetric_kernel: bool) -> (r: (KernelTier, bool)) {
        (select_tier(arch), is_symmetric_kernel)
    }
}

/// Selection of the interleaved three-channel row handler for the
/// integer-approximation path.
pub trait Filter1DRgbRowHandlerApprox {
    /// Returns the tier and folding choice for an RGB row pass.
    fn get_rgb_row_handler_apr(arch: Architecture, is_symmetric_kernel: bool)
        -> (r: (KernelTier, bool))
        ensures
            r.0 == tier_of(arch),
            r.1 == is_symmetric_kernel,
    ;
}

impl Filter1DRgbRowHandlerApprox for u8 {
    fn get_rgb_row_handler_apr(arch: Architecture, is_symmetric_kernel: bool)
        -> (r: (KernelTier, bool)) {
        (select_tier(arch), is_symmetric_kernel)
    }
}

/// Whether a kernel is degenerate: every tap zero except a centre tap
/// holding exactly the fixed-point unit.
pub open spec fn is_unit_kernel(wt: Seq<int>, p: nat) -> bool {
    &&& wt.len() % 2 == 1
    &&& wt[(wt.len() / 2) as int] == pow2(p)
    &&& forall|i: int| 0 <= i < wt.len() && i != (wt.len() / 2) as int ==> #[trigger] wt[i] == 0
}

/// A quantized unit multiple is the sample itself.
proof fn lemma_quantize_unit(s: int, p: nat)
    requires
        0 <= s <= 255,
    ensures
        quantize(pow2(p) as int * s, p, 255) == s,
{
    vstd::arithmetic::power2::lemma_pow2_pos(p);
    let d = pow2(p) as int;
    assert(d * s + d / 2 == s * d + d / 2) by (nonlinear_arith);
    vstd::arithmetic::div_mod::lemma_fundamental_div_mod_converse_div(d * s + d / 2, d, s, d / 2);
    assert(d * s + d / 2 >= 0) by (nonlinear_arith)
        requires 0 <= s, 1 <= d,
    ;
}

/// One source-stated pass with a degenerate kernel leaves every sample
/// unchanged.
proof fn lemma_unit_pass_identity(
    src: Seq<u8>, w: int, h: int, cn: int, mode: EdgeMode, konst: u8, wt: Seq<int>, p: nat,
    horizontal: bool,
)
    requires
        1 <= cn,
        1 <= w,
        1 <= h,
        src.len() == w * cn * h,
        is_unit_kernel(wt, p),
    ensures
        horizontal ==> conv_h_src_image(src, w, h, cn, mode, konst, wt, p) == src,
        !horizontal ==> conv_v_src_image(src, w, h, cn, mode, konst, wt, p) == src,
{
    let r = (wt.len() / 2) as int;
    let him = conv_h_src_image(src, w, h, cn, mode, konst, wt, p);
    let vim = conv_v_src_image(src, w, h, cn, mode, konst, wt, p);
    assert forall|k: int| 0 <= k < w * cn * h implies him[k] == src[k] && vim[k] == src[k] by {
        lemma_packed_decompose(w, cn, h, k);
        let y = k / (w * cn);
        let x = (k % (w * cn)) / cn;
        let ch = (k % (w * cn)) % cn;
        let fh = |t: int| border_sample(as_ints(src), w, h, cn, ch, t, y, mode, konst as int);
        let fv = |t: int| border_sample(as_ints(src), w, h, cn, ch, x, t, mode, konst as int);
        crate::scan::lemma_unit_kernel_sum(fh, wt, x - r, pow2(p) as int);
        crate::scan::lemma_unit_kernel_sum(fv, wt, y - r, pow2(p) as int);
        assert(fh(x - r + r) == sample(as_ints(src), w * cn, cn, x, y, ch));
        assert(fv(y - r + r) == sample(as_ints(src), w * cn, cn, x, y, ch));
        lemma_pix_decompose(w * cn, cn, w, h, x, y, ch);
        assert(pix_offset(w * cn, cn, x, y, ch) == k) by {
            vstd::arithmetic::div_mod::lemma_fundamental_div_mod(k, w * cn);
            vstd::arithmetic::div_mod::lemma_fundamental_div_mod(k % (w * cn), cn);
            assert((w * cn) * y == y * (w * cn)) by (nonlinear_arith);
            assert(cn * x == x * cn) by (nonlinear_arith);
        }
        lemma_quantize_unit(src[k] as int, p);
    }
    assert(him =~= src);
    assert(vim =~= src);
}

/// Applying a degenerate kernel — all taps zero except a centre tap of
/// exactly the fixed-point unit — is the identity on any plane, whatever
/// the edge mode, for every dispatch tier.
pub proof fn lemma_unit_kernel_identity(
    src: Seq<u8>, w: int, h: int, cn: int, mode: EdgeMode, konst: u8,
    wtx: Seq<int>, wty: Seq<int>, p: nat,
)
    requires
        1 <= cn,
        1 <= w,
        1 <= h,
        src.len() == w * cn * h,
        is_unit_kernel(wtx, p),
        is_unit_kernel(wty, p),
    ensures
        filter_1d_image(src, w, h, cn, mode, konst, wtx, wty, p) == src,
{
    lemma_unit_pass_identity(src, w, h, cn, mode, konst, wtx, p, true);
    lemma_unit_pass_identity(src, w, h, cn, mode, konst, wty, p, false);
}

} // verus!
