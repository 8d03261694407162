//! Stack blur: a triangular-weighted blur with clamped edges.
//!
//! Every output sample is the rounded mean of the samples within
//! `radius` of it, weighted triangularly — the centre counts
//! `radius + 1` times, each step away one less — and divided by
//! `(radius + 1)^2`, the exact total of the weights.  Coordinates beyond
//! the edge are clamped.  A horizontal sweep over rows is followed by a
//! vertical sweep over columns of its result; each sweep is divided
//! among workers by contiguous row blocks.

use vstd::prelude::*;

use crate::border::clamp_index;
use crate::pixel::{
    as_ints, is_pixel_pos, lemma_pix_decompose, lemma_rounded_mean_bounds, pix_offset,
    rounded_mean, sample,
};
use crate::scan::tap_sum;
use crate::{FastBlurChannels, ThreadingPolicy};

verus! {

/// The triangular weight vector of a radius: `1, 2, .., r + 1, .., 2, 1`.
pub open spec fn tri_weights(r: int) -> Seq<int> {
    Seq::new((2 * r + 1) as nat, |i: int| if i <= r { i + 1 } else { 2 * r + 1 - i })
}

/// Total weight of the leading `b` triangular taps, doubled to stay in
/// integers.
pub open spec fn tri_total2(r: int, b: int) -> int
    decreases b,
{
    if b <= 0 {
        0
    } else {
        tri_total2(r, b - 1) + 2 * tri_weights(r)[b - 1]
    }
}

/// The triangular weights sum to `(r + 1)^2`.
pub proof fn lemma_tri_total(r: int, b: int)
    requires
        0 <= r,
        0 <= b <= 2 * r + 1,
    ensures
        tri_total2(r, b) == if b <= r + 1 {
            b * (b + 1)
        } else {
            2 * (r + 1) * (r + 1) - (2 * r + 1 - b) * (2 * r + 2 - b)
        },
    decreases b,
{
    if b > 0 {
        lemma_tri_total(r, b - 1);
        if b <= r + 1 {
            assert(b * (b + 1) == (b - 1) * b + 2 * b) by (nonlinear_arith);
        } else {
            assert(2 * (r + 1) * (r + 1) - (2 * r + 1 - b) * (2 * r + 2 - b)
                == 2 * (r + 1) * (r + 1) - (2 * r + 1 - (b - 1)) * (2 * r + 2 - (b - 1))
                    + 2 * (2 * r + 1 - (b - 1))) by (nonlinear_arith);
            if b - 1 == r + 1 {
                assert((b - 1) * b == 2 * (r + 1) * (r + 1) - (2 * r + 1 - (b - 1)) * (2 * r + 2 - (b - 1)))
                    by (nonlinear_arith)
                    requires b - 1 == r + 1,
                ;
            }
        }
    }
}

/// The full triangular total is `2 * (r + 1)^2`.
pub proof fn lemma_tri_total_full(r: int)
    requires
        0 <= r,
    ensures
        tri_total2(r, 2 * r + 1) == 2 * (r + 1) * (r + 1),
{
    lemma_tri_total(r, 2 * r + 1);
    if r == 0 {
    } else {
        assert(2 * (r + 1) * (r + 1) - 0 * 1 == 2 * (r + 1) * (r + 1)) by (nonlinear_arith);
    }
}

/// A triangular tap sum of samples within `[0, m]` lies within
/// `[0, (r + 1)^2 * m]`.
pub proof fn lemma_tri_tap_sum_bounds(
    f: spec_fn(int) -> int, r: int, x0: int, b: int, m: int,
)
    requires
        0 <= r,
        0 <= b <= 2 * r + 1,
        0 <= m,
        forall|i: int| 0 <= i < 2 * r + 1 ==> 0 <= #[trigger] f(x0 + i) <= m,
    ensures
        0 <= 2 * tap_sum(f, tri_weights(r), x0, 0, b) <= tri_total2(r, b) * m,
    decreases b,
{
    if b > 0 {
        lemma_tri_tap_sum_bounds(f, r, x0, b - 1, m);
        crate::scan::lemma_tap_sum_peel_hi(f, tri_weights(r), x0, 0, b);
        let wb = tri_weights(r)[b - 1];
        let a1 = b - 1;
        assert(0 <= f(x0 + a1) <= m);
        assert(f(x0 + a1) == f(x0 + b - 1));
        assert(1 <= wb <= r + 1);
        assert(0 <= wb * f(x0 + b - 1) <= wb * m) by (nonlinear_arith)
            requires 0 <= wb, 0 <= f(x0 + b - 1) <= m,
        ;
        assert((tri_total2(r, b - 1) + 2 * wb) * m == tri_total2(r, b - 1) * m + 2 * (wb * m))
            by (nonlinear_arith);
    }
}

/// One horizontal stack-blur sample: the triangular rounded mean of the
/// clamped row window.
pub open spec fn stack_h_pixel(
    src: Seq<int>, stride: int, cn: int, w: int, r: int, x: int, y: int, ch: int,
) -> int {
    rounded_mean(
        tap_sum(
            |t: int| sample(src, stride, cn, clamp_index(t, w), y, ch),
            tri_weights(r), x - r, 0, 2 * r + 1,
        ),
        (r + 1) * (r + 1),
    )
}

/// One vertical stack-blur sample: the triangular rounded mean of the
/// clamped column window.
pub open spec fn stack_v_pixel(
    src: Seq<int>, stride: int, cn: int, h: int, r: int, x: int, y: int, ch: int,
) -> int {
    rounded_mean(
        tap_sum(
            |t: int| sample(src, stride, cn, x, clamp_index(t, h), ch),
            tri_weights(r), y - r, 0, 2 * r + 1,
        ),
        (r + 1) * (r + 1),
    )
}

/// The horizontal sweep over the whole plane; stride padding is carried
/// over unchanged, as an in-place sweep leaves it.
pub open spec fn stack_h_image(src: Seq<u8>, stride: int, w: int, h: int, cn: int, r: int) -> Seq<u8> {
    Seq::new(
        (stride * h) as nat,
        |k: int| if is_pixel_pos(k, stride, cn, w, h) {
            stack_h_pixel(as_ints(src), stride, cn, w, r, (k % stride) / cn, k / stride, (k % stride) % cn) as u8
        } else {
            src[k]
        },
    )
}

/// The vertical sweep over the whole plane.
pub open spec fn stack_v_image(src: Seq<u8>, stride: int, w: int, h: int, cn: int, r: int) -> Seq<u8> {
    Seq::new(
        (stride * h) as nat,
        |k: int| if is_pixel_pos(k, stride, cn, w, h) {
            stack_v_pixel(as_ints(src), stride, cn, h, r, (k % stride) / cn, k / stride, (k % stride) % cn) as u8
        } else {
            src[k]
        },
    )
}

/// A triangular tap sum over a constant source is the constant times
/// the weight total.
proof fn lemma_tri_tap_sum_constant(f: spec_fn(int) -> int, r: int, x0: int, b: int, v: int)
    requires
        0 <= r,
        0 <= b <= 2 * r + 1,
        forall|i: int| 0 <= i < 2 * r + 1 ==> #[trigger] f(x0 + i) == v,
    ensures
        2 * tap_sum(f, tri_weights(r), x0, 0, b) == tri_total2(r, b) * v,
    decreases b,
{
    if b > 0 {
        lemma_tri_tap_sum_constant(f, r, x0, b - 1, v);
        crate::scan::lemma_tap_sum_peel_hi(f, tri_weights(r), x0, 0, b);
        let a1 = b - 1;
        assert(f(x0 + a1) == v);
        assert(f(x0 + a1) == f(x0 + b - 1));
        assert((tri_total2(r, b - 1) + 2 * tri_weights(r)[b - 1]) * v
            == tri_total2(r, b - 1) * v + 2 * (tri_weights(r)[b - 1] * v)) by (nonlinear_arith);
    }
}

/// One pass of the stack blur maps a constant plane to the same
/// constant: the triangular weights total exactly the divisor.
proof fn lemma_stack_pass_constant(
    src: Seq<u8>, stride: int, w: int, h: int, cn: int, r: int, v: u8, horizontal: bool,
)
    requires
        1 <= cn,
        1 <= w,
        1 <= h,
        0 <= r,
        w * cn <= stride,
        src.len() == stride * h,
        forall|x: int, y: int, ch: int| 0 <= x < w && 0 <= y < h && 0 <= ch < cn ==>
            #[trigger] sample(as_ints(src), stride, cn, x, y, ch) == v as int,
    ensures
        horizontal ==> forall|x: int, y: int, ch: int|
            0 <= x < w && 0 <= y < h && 0 <= ch < cn ==> #[trigger] sample(
                as_ints(stack_h_image(src, stride, w, h, cn, r)), stride, cn, x, y, ch,
            ) == v as int,
        !horizontal ==> forall|x: int, y: int, ch: int|
            0 <= x < w && 0 <= y < h && 0 <= ch < cn ==> #[trigger] sample(
                as_ints(stack_v_image(src, stride, w, h, cn, r)), stride, cn, x, y, ch,
            ) == v as int,
{
    let him = stack_h_image(src, stride, w, h, cn, r);
    let vim = stack_v_image(src, stride, w, h, cn, r);
    assert forall|x: int, y: int, ch: int| 0 <= x < w && 0 <= y < h && 0 <= ch < cn implies
        sample(as_ints(him), stride, cn, x, y, ch) == v as int
        && sample(as_ints(vim), stride, cn, x, y, ch) == v as int
    by {
        lemma_pix_decompose(stride, cn, w, h, x, y, ch);
        let fh = |t: int| sample(as_ints(src), stride, cn, clamp_index(t, w), y, ch);
        let fv = |t: int| sample(as_ints(src), stride, cn, x, clamp_index(t, h), ch);
        assert forall|i: int| 0 <= i < 2 * r + 1 implies #[trigger] fh(x - r + i) == v as int
            && #[trigger] fv(y - r + i) == v as int
        by {
            assert(0 <= clamp_index(x - r + i, w) < w);
            assert(0 <= clamp_index(y - r + i, h) < h);
        }
        lemma_tri_tap_sum_constant(fh, r, x - r, 2 * r + 1, v as int);
        lemma_tri_tap_sum_constant(fv, r, y - r, 2 * r + 1, v as int);
        lemma_tri_total_full(r);
        assert(2 * ((r + 1) * (r + 1) * (v as int)) == 2 * (r + 1) * (r + 1) * (v as int))
            by (nonlinear_arith);
        assert(1 <= (r + 1) * (r + 1)) by (nonlinear_arith)
            requires 0 <= r,
        ;
        crate::pixel::lemma_rounded_mean_exact(v as int, (r + 1) * (r + 1));
        assert(him[pix_offset(stride, cn, x, y, ch)] == v);
        assert(vim[pix_offset(stride, cn, x, y, ch)] == v);
    }
}

/// A stack blur is mean-preserving on flat input: on a plane whose pixel
/// samples all hold one value, every output pixel sample holds that
/// value, whatever the radius.
pub proof fn lemma_stack_constant_preserving(
    src: Seq<u8>, stride: int, w: int, h: int, cn: int, r: int, v: u8,
)
    requires
        1 <= cn,
        1 <= w,
        1 <= h,
        0 <= r,
        w * cn <= stride,
        src.len() == stride * h,
        forall|x: int, y: int, ch: int| 0 <= x < w && 0 <= y < h && 0 <= ch < cn ==>
            #[trigger] sample(as_ints(src), stride, cn, x, y, ch) == v as int,
    ensures
        forall|x: int, y: int, ch: int| 0 <= x < w && 0 <= y < h && 0 <= ch < cn ==>
            #[trigger] sample(
                as_ints(stack_v_image(stack_h_image(src, stride, w, h, cn, r),
                    stride, w, h, cn, r)),
                stride, cn, x, y, ch,
            ) == v as int,
{
    lemma_stack_pass_constant(src, stride, w, h, cn, r, v, true);
    lemma_stack_pass_constant(stack_h_image(src, stride, w, h, cn, r), stride, w, h, cn, r, v,
        false);
}

/// One horizontal stack-blur sample.
#[verifier::loop_isolation(false)]
#[verifier::rlimit(80)]
fn stack_h_point(
    src: &Vec<u8>, stride: usize, cn: usize, w: usize, h: usize, r: usize, x: usize, y: usize,
    ch: usize,
) -> (v: u8)
    requires
        1 <= cn,
        w * cn <= stride,
        1 <= w <= 0xffff_ffff,
        x < w,
        y < h,
        ch < cn,
        src@.len() == stride * h,
        r <= 0x7ff_ffff,
    ensures
        v as int == stack_h_pixel(as_ints(src@), stride as int, cn as int, w as int, r as int,
            x as int, y as int, ch as int),
{
    let ghost f = |t: int| sample(as_ints(src@), stride as int, cn as int,
        clamp_index(t, w as int), y as int, ch as int);
    let ghost x0 = x as int - r as int;
    proof {
        assert forall|i: int| 0 <= i < 2 * r + 1 implies 0 <= #[trigger] f(x0 + i) <= 255 by {
            lemma_pix_decompose(stride as int, cn as int, w as int, h as int,
                clamp_index(x0 + i, w as int), y as int, ch as int);
        }
    }
    let mut acc: u64 = 0;
    let mut i: usize = 0;
    let taps: usize = 2 * r + 1;
    while i < taps
        invariant
            i <= taps,
            acc as int == tap_sum(f, tri_weights(r as int), x0, 0, i as int),
        decreases taps - i,
    {
        proof {
            lemma_tri_tap_sum_bounds(f, r as int, x0, i as int, 255);
            crate::scan::lemma_tap_sum_peel_hi(f, tri_weights(r as int), x0, 0, i + 1);
            lemma_tri_total_bound(r as int, i as int);
            assert(acc as int <= (r as int + 1) * (r as int + 1) * 255
                && (r as int + 1) * (r as int + 1) * 255 <= 0x3fc0_0000_0000_0000)
                by (nonlinear_arith)
                requires
                    2 * (acc as int) <= tri_total2(r as int, i as int) * 255,
                    tri_total2(r as int, i as int) <= 2 * (r as int + 1) * (r as int + 1),
                    1 <= r + 1 <= 0x800_0000,
            ;
        }
        let wi: u64 = if i <= r { (i + 1) as u64 } else { (taps - i) as u64 };
        let pos: u64 = x as u64 + i as u64;
        let xi: usize = if pos <= r as u64 {
            0
        } else {
            let c = pos - r as u64;
            if c > (w - 1) as u64 {
                w - 1
            } else {
                c as usize
            }
        };
        proof {
            assert(xi as int == clamp_index(x0 + i, w as int));
            assert(tri_weights(r as int)[i as int] == wi);
        }
        let v0 = crate::pixel::sample_at(src, stride, cn, xi, y, ch, Ghost(w as int), Ghost(h as int));
        proof {
            assert(wi * (v0 as u64) <= 0x800_0000 * 255) by (nonlinear_arith)
                requires wi <= 0x800_0000, v0 <= 255,
            ;
            assert((wi as int) * (v0 as int) == wi * (v0 as u64));
        }
        acc = acc + wi * (v0 as u64);
        i = i + 1;
    }
    proof {
        lemma_tri_tap_sum_bounds(f, r as int, x0, taps as int, 255);
        lemma_tri_total_full(r as int);
        assert(1 <= (r as int + 1) * (r as int + 1) <= 0x40_0000_0000_0000
            && acc as int <= (r as int + 1) * (r as int + 1) * 255
            && (r as int + 1) * (r as int + 1) * 255 <= 0x3fc0_0000_0000_0000)
            by (nonlinear_arith)
            requires
                2 * (acc as int) <= tri_total2(r as int, (2 * r + 1) as int) * 255,
                tri_total2(r as int, (2 * r + 1) as int) == 2 * (r as int + 1) * (r as int + 1),
                1 <= r + 1 <= 0x800_0000,
        ;
        lemma_rounded_mean_bounds(acc as int, (r as int + 1) * (r as int + 1), 255);
    }
    let dd: u64 = (r as u64 + 1) * (r as u64 + 1);
    proof {
        assert(dd == (r as int + 1) * (r as int + 1));
    }
    let q: u64 = (2 * acc + dd) / (2 * dd);
    q as u8
}

/// One vertical stack-blur sample.
#[verifier::loop_isolation(false)]
#[verifier::rlimit(80)]
fn stack_v_point(
    src: &Vec<u8>, stride: usize, cn: usize, w: usize, h: usize, r: usize, x: usize, y: usize,
    ch: usize,
) -> (v: u8)
    requires
        1 <= cn,
        w * cn <= stride,
        1 <= h <= 0xffff_ffff,
        x < w,
        y < h,
        ch < cn,
        src@.len() == stride * h,
        r <= 0x7ff_ffff,
    ensures
        v as int == stack_v_pixel(as_ints(src@), stride as int, cn as int, h as int, r as int,
            x as int, y as int, ch as int),
{
    let ghost f = |t: int| sample(as_ints(src@), stride as int, cn as int,
        x as int, clamp_index(t, h as int), ch as int);
    let ghost x0 = y as int - r as int;
    proof {
        assert forall|i: int| 0 <= i < 2 * r + 1 implies 0 <= #[trigger] f(x0 + i) <= 255 by {
            lemma_pix_decompose(stride as int, cn as int, w as int, h as int,
                x as int, clamp_index(x0 + i, h as int), ch as int);
        }
    }
    let mut acc: u64 = 0;
    let mut i: usize = 0;
    let taps: usize = 2 * r + 1;
    while i < taps
        invariant
            i <= taps,
            acc as int == tap_sum(f, tri_weights(r as int), x0, 0, i as int),
        decreases taps - i,
    {
        proof {
            lemma_tri_tap_sum_bounds(f, r as int, x0, i as int, 255);
            crate::scan::lemma_tap_sum_peel_hi(f, tri_weights(r as int), x0, 0, i + 1);
            lemma_tri_total_bound(r as int, i as int);
            assert(acc as int <= (r as int + 1) * (r as int + 1) * 255
                && (r as int + 1) * (r as int + 1) * 255 <= 0x3fc0_0000_0000_0000)
                by (nonlinear_arith)
                requires
                    2 * (acc as int) <= tri_total2(r as int, i as int) * 255,
                    tri_total2(r as int, i as int) <= 2 * (r as int + 1) * (r as int + 1),
                    1 <= r + 1 <= 0x800_0000,
            ;
        }
        let wi: u64 = if i <= r { (i + 1) as u64 } else { (taps - i) as u64 };
        let pos: u64 = y as u64 + i as u64;
        let yi: usize = if pos <= r as u64 {
            0
        } else {
            let c = pos - r as u64;
            if c > (h - 1) as u64 {
                h - 1
            } else {
                c as usize
            }
        };
        proof {
            assert(yi as int == clamp_index(x0 + i, h as int));
            assert(tri_weights(r as int)[i as int] == wi);
        }
        let v0 = crate::pixel::sample_at(src, stride, cn, x, yi, ch, Ghost(w as int), Ghost(h as int));
        proof {
            assert(wi * (v0 as u64) <= 0x800_0000 * 255) by (nonlinear_arith)
                requires wi <= 0x800_0000, v0 <= 255,
            ;
            assert((wi as int) * (v0 as int) == wi * (v0 as u64));
        }
        acc = acc + wi * (v0 as u64);
        i = i + 1;
    }
    proof {
        lemma_tri_tap_sum_bounds(f, r as int, x0, taps as int, 255);
        lemma_tri_total_full(r as int);
        assert(1 <= (r as int + 1) * (r as int + 1) <= 0x40_0000_0000_0000
            && acc as int <= (r as int + 1) * (r as int + 1) * 255
            && (r as int + 1) * (r as int + 1) * 255 <= 0x3fc0_0000_0000_0000)
            by (nonlinear_arith)
            requires
                2 * (acc as int) <= tri_total2(r as int, (2 * r + 1) as int) * 255,
                tri_total2(r as int, (2 * r + 1) as int) == 2 * (r as int + 1) * (r as int + 1),
                1 <= r + 1 <= 0x800_0000,
        ;
        lemma_rounded_mean_bounds(acc as int, (r as int + 1) * (r as int + 1), 255);
    }
    let dd: u64 = (r as u64 + 1) * (r as u64 + 1);
    proof {
        assert(dd == (r as int + 1) * (r as int + 1));
    }
    let q: u64 = (2 * acc + dd) / (2 * dd);
    q as u8
}

/// The closed forms bound every triangular prefix total by the full one.
proof fn lemma_tri_total_bound(r: int, b: int)
    requires
        0 <= r,
        0 <= b <= 2 * r + 1,
    ensures
        tri_total2(r, b) <= 2 * (r + 1) * (r + 1),
        0 <= tri_total2(r, b),
{
    lemma_tri_total(r, b);
    if b <= r + 1 {
        assert(b * (b + 1) <= 2 * (r + 1) * (r + 1)) by (nonlinear_arith)
            requires 0 <= b <= r + 1,
        ;
        assert(0 <= b * (b + 1)) by (nonlinear_arith)
            requires 0 <= b,
        ;
    } else {
        assert(0 <= (2 * r + 1 - b) * (2 * r + 2 - b) <= 2 * (r + 1) * (r + 1)
            - (2 * r + 2 - b)) by (nonlinear_arith)
            requires r + 1 < b <= 2 * r + 1, 0 <= r,
        ;
    }
}

/// Appends one horizontally swept row: blurred pixels, then the row's
/// stride padding copied through.
#[verifier::loop_isolation(false)]
#[verifier::rlimit(80)]
fn stack_h_row(
    src: &Vec<u8>, out: &mut Vec<u8>, stride: usize, w: usize, h: usize, cn: usize, r: usize,
    y: usize,
)
    requires
        1 <= cn,
        w * cn <= stride,
        1 <= w <= 0xffff_ffff,
        1 <= h <= 0xffff_ffff,
        y < h,
        src@.len() == stride * h,
        r <= 0x7ff_ffff,
        old(out)@.len() == stride * y,
    ensures
        final(out)@.len() == stride * (y + 1),
        forall|k: int| 0 <= k < stride * y ==> final(out)@[k] == old(out)@[k],
        forall|k: int| stride * y <= k < stride * (y + 1) ==> final(out)@[k]
            == stack_h_image(src@, stride as int, w as int, h as int, cn as int, r as int)[k],
{
    let ghost gim = stack_h_image(src@, stride as int, w as int, h as int, cn as int, r as int);
    let total: usize = src.len();
    proof {
        assert(stride * y == (y as int) * (stride as int)) by (nonlinear_arith);
        assert(stride * (y + 1) == stride * y + stride) by (nonlinear_arith);
        assert(stride * (y + 1) <= stride * h) by (nonlinear_arith)
            requires y + 1 <= h, 0 <= stride,
        ;
        assert(stride * y >= 0) by (nonlinear_arith)
            requires 0 <= stride, 0 <= y,
        ;
    }
    let mut x: usize = 0;
    while x < w
        invariant
            x <= w,
            out@.len() == stride * y + x * cn,
            forall|k: int| 0 <= k < stride * y ==> out@[k] == old(out)@[k],
            forall|k: int| stride * y <= k < out@.len() ==> out@[k] == gim[k],
        decreases w - x,
    {
        proof {
            assert(x * cn + cn == (x + 1) * cn) by (nonlinear_arith);
            assert((x + 1) * cn <= w * cn) by (nonlinear_arith)
                requires x + 1 <= w, 0 <= cn,
            ;
            assert(0 <= x * cn) by (nonlinear_arith)
                requires 0 <= x, 0 <= cn,
            ;
        }
        let mut c: usize = 0;
        while c < cn
            invariant
                c <= cn,
                x < w,
                out@.len() == stride * y + x * cn + c,
                forall|k: int| 0 <= k < stride * y ==> out@[k] == old(out)@[k],
                forall|k: int| stride * y <= k < out@.len() ==> out@[k] == gim[k],
            decreases cn - c,
        {
            let v = stack_h_point(src, stride, cn, w, h, r, x, y, c);
            proof {
                lemma_pix_decompose(stride as int, cn as int, w as int, h as int,
                    x as int, y as int, c as int);
                assert(out@.len() == pix_offset(stride as int, cn as int, x as int, y as int, c as int));
                assert(gim[out@.len() as int] == v);
            }
            out.push(v);
            c = c + 1;
        }
        x = x + 1;
    }
    let mut j: usize = w * cn;
    while j < stride
        invariant
            w * cn <= j <= stride,
            out@.len() == stride * y + j,
            forall|k: int| 0 <= k < stride * y ==> out@[k] == old(out)@[k],
            forall|k: int| stride * y <= k < out@.len() ==> out@[k] == gim[k],
        decreases stride - j,
    {
        proof {
            crate::pixel::lemma_row_block_decompose(stride as int, cn as int, w as int, h as int,
                y as int, stride * y + j);
        }
        let idx: usize = y * stride + j;
        let v = src[idx];
        proof {
            assert(gim[out@.len() as int] == v);
        }
        out.push(v);
        j = j + 1;
    }
}

/// The horizontal stack-blur sweep of one worker: appends its block of
/// rows, `thread * height / total_threads` up to the next worker's start,
/// each row blurred along its own axis only.
#[verifier::loop_isolation(false)]
#[verifier::rlimit(80)]
pub fn stack_blur_worker_horizontal(
    src: &Vec<u8>, out: &mut Vec<u8>, stride: u32, width: u32, height: u32, radius: u32,
    channels: FastBlurChannels, thread: usize, total_threads: usize,
)
    requires
        1 <= width,
        1 <= height,
        width * channels.channel_count() <= stride,
        src@.len() == stride * height,
        radius <= 0x7ff_ffff,
        thread < total_threads,
        total_threads <= 0xffff,
        old(out)@.len() == stride * ((thread * height) as int / total_threads as int),
    ensures
        final(out)@.len() == stride * (((thread + 1) * height) as int / total_threads as int),
        forall|k: int| 0 <= k < old(out)@.len() ==> final(out)@[k] == old(out)@[k],
        forall|k: int| old(out)@.len() <= k < final(out)@.len() ==> final(out)@[k]
            == stack_h_image(src@, stride as int, width as int, height as int,
                channels.channel_count(), radius as int)[k],
{
    let ghost gim = stack_h_image(src@, stride as int, width as int, height as int,
        channels.channel_count(), radius as int);
    let cn = channels.get_channels();
    proof {
        lemma_block_bounds(thread as int, total_threads as int, height as int);
        assert((thread as u64) * (height as u64) <= 0xffff_0000_0000) by (nonlinear_arith)
            requires thread <= 0xffff, height <= 0xffff_ffff,
        ;
        assert((thread as u64 + 1) * (height as u64) <= 0x1_0000_0000_0000) by (nonlinear_arith)
            requires thread + 1 <= 0x1_0000, height <= 0xffff_ffff,
        ;
    }
    let min_y: usize = ((thread as u64 * height as u64) / total_threads as u64) as usize;
    let max_y: usize = (((thread as u64 + 1) * height as u64) / total_threads as u64) as usize;
    let mut y: usize = min_y;
    while y < max_y
        invariant
            min_y <= y <= max_y,
            max_y <= height,
            out@.len() == stride * y,
            forall|k: int| 0 <= k < stride * min_y ==> out@[k] == old(out)@[k],
            forall|k: int| stride * min_y <= k < out@.len() ==> out@[k] == gim[k],
        decreases max_y - y,
    {
        proof {
            assert(stride * min_y <= stride * y) by (nonlinear_arith)
                requires min_y <= y, 0 <= stride,
            ;
        }
        stack_h_row(src, out, stride as usize, width as usize, height as usize, cn,
            radius as usize, y);
        y = y + 1;
    }
}

/// Appends one vertically swept row: blurred pixels, then the row's
/// stride padding copied through.
#[verifier::loop_isolation(false)]
#[verifier::rlimit(80)]
fn stack_v_row(
    src: &Vec<u8>, out: &mut Vec<u8>, stride: usize, w: usize, h: usize, cn: usize, r: usize,
    y: usize,
)
    requires
        1 <= cn,
        w * cn <= stride,
        1 <= w <= 0xffff_ffff,
        1 <= h <= 0xffff_ffff,
        y < h,
        src@.len() == stride * h,
        r <= 0x7ff_ffff,
        old(out)@.len() == stride * y,
    ensures
        final(out)@.len() == stride * (y + 1),
        forall|k: int| 0 <= k < stride * y ==> final(out)@[k] == old(out)@[k],
        forall|k: int| stride * y <= k < stride * (y + 1) ==> final(out)@[k]
            == stack_v_image(src@, stride as int, w as int, h as int, cn as int, r as int)[k],
{
    let ghost gim = stack_v_image(src@, stride as int, w as int, h as int, cn as int, r as int);
    let total: usize = src.len();
    proof {
        assert(stride * y == (y as int) * (stride as int)) by (nonlinear_arith);
        assert(stride * (y + 1) == stride * y + stride) by (nonlinear_arith);
        assert(stride * (y + 1) <= stride * h) by (nonlinear_arith)
            requires y + 1 <= h, 0 <= stride,
        ;
        assert(stride * y >= 0) by (nonlinear_arith)
            requires 0 <= stride, 0 <= y,
        ;
    }
    let mut x: usize = 0;
    while x < w
        invariant
            x <= w,
            out@.len() == stride * y + x * cn,
            forall|k: int| 0 <= k < stride * y ==> out@[k] == old(out)@[k],
            forall|k: int| stride * y <= k < out@.len() ==> out@[k] == gim[k],
        decreases w - x,
    {
        proof {
            assert(x * cn + cn == (x + 1) * cn) by (nonlinear_arith);
            assert((x + 1) * cn <= w * cn) by (nonlinear_arith)
                requires x + 1 <= w, 0 <= cn,
            ;
            assert(0 <= x * cn) by (nonlinear_arith)
                requires 0 <= x, 0 <= cn,
            ;
        }
        let mut c: usize = 0;
        while c < cn
            invariant
                c <= cn,
                x < w,
                out@.len() == stride * y + x * cn + c,
                forall|k: int| 0 <= k < stride * y ==> out@[k] == old(out)@[k],
                forall|k: int| stride * y <= k < out@.len() ==> out@[k] == gim[k],
            decreases cn - c,
        {
            let v = stack_v_point(src, stride, cn, w, h, r, x, y, c);
            proof {
                lemma_pix_decompose(stride as int, cn as int, w as int, h as int,
                    x as int, y as int, c as int);
                assert(out@.len() == pix_offset(stride as int, cn as int, x as int, y as int, c as int));
                assert(gim[out@.len() as int] == v);
            }
            out.push(v);
            c = c + 1;
        }
        x = x + 1;
    }
    let mut j: usize = w * cn;
    while j < stride
        invariant
            w * cn <= j <= stride,
            out@.len() == stride * y + j,
            forall|k: int| 0 <= k < stride * y ==> out@[k] == old(out)@[k],
            forall|k: int| stride * y <= k < out@.len() ==> out@[k] == gim[k],
        decreases stride - j,
    {
        proof {
            crate::pixel::lemma_row_block_decompose(stride as int, cn as int, w as int, h as int,
                y as int, stride * y + j);
        }
        let idx: usize = y * stride + j;
        let v = src[idx];
        proof {
            assert(gim[out@.len() as int] == v);
        }
        out.push(v);
        j = j + 1;
    }
}

/// The vertical stack-blur sweep of one worker: appends its block of
/// rows, `thread * height / total_threads` up to the next worker's start,
/// each output row drawn from the clamped column windows around it.
/// Workers of this sweep own row blocks of the vertical image rather
/// than column blocks: every row of the column-blurred plane can be
/// emitted independently, which lets both sweeps share the same
/// append-only partition.
#[verifier::loop_isolation(false)]
#[verifier::rlimit(80)]
pub fn stack_blur_worker_vertical(
    src: &Vec<u8>, out: &mut Vec<u8>, stride: u32, width: u32, height: u32, radius: u32,
    channels: FastBlurChannels, thread: usize, total_threads: usize,
)
    requires
        1 <= width,
        1 <= height,
        width * channels.channel_count() <= stride,
        src@.len() == stride * height,
        radius <= 0x7ff_ffff,
        thread < total_threads,
        total_threads <= 0xffff,
        old(out)@.len() == stride * ((thread * height) as int / total_threads as int),
    ensures
        final(out)@.len() == stride * (((thread + 1) * height) as int / total_threads as int),
        forall|k: int| 0 <= k < old(out)@.len() ==> final(out)@[k] == old(out)@[k],
        forall|k: int| old(out)@.len() <= k < final(out)@.len() ==> final(out)@[k]
            == stack_v_image(src@, stride as int, width as int, height as int,
                channels.channel_count(), radius as int)[k],
{
    let ghost gim = stack_v_image(src@, stride as int, width as int, height as int,
        channels.channel_count(), radius as int);
    let cn = channels.get_channels();
    proof {
        lemma_block_bounds(thread as int, total_threads as int, height as int);
        assert((thread as u64) * (height as u64) <= 0xffff_0000_0000) by (nonlinear_arith)
            requires thread <= 0xffff, height <= 0xffff_ffff,
        ;
        assert((thread as u64 + 1) * (height as u64) <= 0x1_0000_0000_0000) by (nonlinear_arith)
            requires thread + 1 <= 0x1_0000, height <= 0xffff_ffff,
        ;
    }
    let min_y: usize = ((thread as u64 * height as u64) / total_threads as u64) as usize;
    let max_y: usize = (((thread as u64 + 1) * height as u64) / total_threads as u64) as usize;
    let mut y: usize = min_y;
    while y < max_y
        invariant
            min_y <= y <= max_y,
            max_y <= height,
            out@.len() == stride * y,
            forall|k: int| 0 <= k < stride * min_y ==> out@[k] == old(out)@[k],
            forall|k: int| stride * min_y <= k < out@.len() ==> out@[k] == gim[k],
        decreases max_y - y,
    {
        proof {
            assert(stride * min_y <= stride * y) by (nonlinear_arith)
                requires min_y <= y, 0 <= stride,
            ;
        }
        stack_v_row(src, out, stride as usize, width as usize, height as usize, cn,
            radius as usize, y);
        y = y + 1;
    }
}

/// A worker's row block is ordered and inside the image.
proof fn lemma_block_bounds(t: int, tc: int, h: int)
    requires
        0 <= t < tc,
        1 <= tc,
        0 <= h,
    ensures
        0 <= (t * h) / tc,
        (t * h) / tc <= ((t + 1) * h) / tc,
        ((t + 1) * h) / tc <= h,
{
    assert(0 <= t * h) by (nonlinear_arith)
        requires 0 <= t, 0 <= h,
    ;
    vstd::arithmetic::div_mod::lemma_div_pos_is_pos(t * h, tc);
    assert(t * h <= (t + 1) * h) by (nonlinear_arith)
        requires 0 <= h,
    ;
    vstd::arithmetic::div_mod::lemma_div_is_ordered(t * h, (t + 1) * h, tc);
    assert((t + 1) * h <= tc * h) by (nonlinear_arith)
        requires t + 1 <= tc, 0 <= h,
    ;
    vstd::arithmetic::div_mod::lemma_div_is_ordered((t + 1) * h, tc * h, tc);
    vstd::arithmetic::div_mod::lemma_div_multiples_vanish(h, tc);
}


/// Performs a stack blur in place: a horizontal triangular sweep, then a
/// vertical one over its result, divided among the workers of the
/// threading policy.  The result does not depend on the policy.  A radius
/// below one is raised to one.
#[verifier::loop_isolation(false)]
pub fn stack_blur(
    in_place: &mut Vec<u8>, stride: u32, width: u32, height: u32, radius: u32,
    channels: FastBlurChannels, threading_policy: ThreadingPolicy,
)
    requires
        1 <= width,
        1 <= height,
        width * channels.channel_count() <= stride,
        old(in_place)@.len() == stride * height,
        radius <= 0x7ff_ffff,
    ensures
        final(in_place)@ == stack_v_image(
            stack_h_image(old(in_place)@, stride as int, width as int, height as int,
                channels.channel_count(), if radius < 1 { 1int } else { radius as int }),
            stride as int, width as int, height as int, channels.channel_count(),
            if radius < 1 { 1int } else { radius as int },
        ),
{
    let r: u32 = if radius < 1 { 1 } else { radius };
    let tc0 = threading_policy.get_threads_count(width, height);
    let tc: usize = if tc0 > 0xffff { 0xffff } else { tc0 };
    let ghost him = stack_h_image(in_place@, stride as int, width as int, height as int,
        channels.channel_count(), r as int);
    let mut tmp: Vec<u8> = Vec::new();
    let mut i: usize = 0;
    proof {
        vstd::arithmetic::div_mod::lemma_div_of0(tc as int);
        assert((0 * (height as int)) / (tc as int) == 0) by (nonlinear_arith)
            requires 1 <= tc,
        ;
        assert(stride * 0 == 0) by (nonlinear_arith);
    }
    while i < tc
        invariant
            i <= tc,
            tmp@.len() == stride * ((i * height) as int / tc as int),
            forall|k: int| 0 <= k < tmp@.len() ==> tmp@[k] == him[k],
        decreases tc - i,
    {
        stack_blur_worker_horizontal(in_place, &mut tmp, stride, width, height, r, channels, i, tc);
        i = i + 1;
    }
    proof {
        vstd::arithmetic::div_mod::lemma_div_multiples_vanish(height as int, tc as int);
        assert(tmp@ =~= him);
    }
    let ghost vim = stack_v_image(tmp@, stride as int, width as int, height as int,
        channels.channel_count(), r as int);
    let mut out: Vec<u8> = Vec::new();
    let mut j: usize = 0;
    proof {
        vstd::arithmetic::div_mod::lemma_div_of0(tc as int);
        assert((0 * (height as int)) / (tc as int) == 0) by (nonlinear_arith)
            requires 1 <= tc,
        ;
        assert(stride * 0 == 0) by (nonlinear_arith);
    }
    while j < tc
        invariant
            j <= tc,
            tmp@ == him,
            out@.len() == stride * ((j * height) as int / tc as int),
            forall|k: int| 0 <= k < out@.len() ==> out@[k] == vim[k],
        decreases tc - j,
    {
        stack_blur_worker_vertical(&tmp, &mut out, stride, width, height, r, channels, j, tc);
        j = j + 1;
    }
    proof {
        vstd::arithmetic::div_mod::lemma_div_multiples_vanish(height as int, tc as int);
        assert(out@ =~= vim);
    }
    *in_place = out;
}

} // verus!
