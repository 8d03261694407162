//! Sliding-window box blur and its iterates (tent, gaussian-approximate).
//!
//! A box blur of radius `r` replaces every sample by the rounded mean of
//! the window of source samples whose coordinates lie within `r` of it,
//! truncated at the image edge; the divisor is the number of samples the
//! truncated window actually holds.  The two-dimensional filter is
//! separable: a horizontal pass over rows followed by a vertical pass over
//! columns of the horizontal result.

use vstd::prelude::*;

use crate::{FastBlurChannels, ThreadingPolicy};

use crate::pixel::{
    as_ints, as_ints16, col_win_sum, is_pixel_pos, lemma_col_win_sum_bounds,
    lemma_col_win_sum_extend, lemma_pix_decompose, lemma_rounded_mean_bounds,
    lemma_row_win_sum_bounds, lemma_row_win_sum_extend, pix_offset, rounded_mean, row_win_sum,
    sample,
};

verus! {

/// First coordinate of the radius-`r` window around `x`, truncated at 0.
pub open spec fn win_lo(x: int, r: int) -> int {
    if x - r < 0 {
        0
    } else {
        x - r
    }
}

/// Last coordinate of the radius-`r` window around `x`, truncated at `n - 1`.
pub open spec fn win_hi(x: int, r: int, n: int) -> int {
    if x + r > n - 1 {
        n - 1
    } else {
        x + r
    }
}

/// Number of samples in the truncated window.
pub open spec fn win_count(x: int, r: int, n: int) -> int {
    win_hi(x, r, n) + 1 - win_lo(x, r)
}

/// One output sample of the horizontal box pass: the rounded mean of the
/// row window around `(x, y)`.
pub open spec fn box_h_pixel(
    src: Seq<int>, ss: int, cn: int, w: int, r: int, x: int, y: int, ch: int,
) -> int {
    rounded_mean(
        row_win_sum(src, ss, cn, y, ch, win_lo(x, r), win_hi(x, r, w)),
        win_count(x, r, w),
    )
}

/// One output sample of the vertical box pass: the rounded mean of the
/// column window around `(x, y)`.
pub open spec fn box_v_pixel(
    img: Seq<int>, stride: int, cn: int, h: int, r: int, x: int, y: int, ch: int,
) -> int {
    rounded_mean(
        col_win_sum(img, stride, cn, x, ch, win_lo(y, r), win_hi(y, r, h)),
        win_count(y, r, h),
    )
}

/// The full horizontal box pass of an 8-bit plane: every pixel sample is
/// the rounded row-window mean.  Its stride padding is zero — this is the
/// zero-initialised intermediate between the passes, never a caller's
/// destination.
pub open spec fn box_h_image(
    src: Seq<u8>, ss: int, ds: int, w: int, h: int, cn: int, r: int,
) -> Seq<u8> {
    Seq::new(
        (ds * h) as nat,
        |k: int| if is_pixel_pos(k, ds, cn, w, h) {
            box_h_pixel(as_ints(src), ss, cn, w, r, (k % ds) / cn, k / ds, (k % ds) % cn) as u8
        } else {
            0u8
        },
    )
}

/// The full vertical box pass of an 8-bit plane, written into a
/// destination whose stride padding stays as it was: pixel samples are
/// the column-window means, every other offset keeps `dst0`'s byte.
pub open spec fn box_v_image(
    img: Seq<u8>, dst0: Seq<u8>, stride: int, w: int, h: int, cn: int, r: int,
) -> Seq<u8> {
    Seq::new(
        (stride * h) as nat,
        |k: int| if is_pixel_pos(k, stride, cn, w, h) {
            box_v_pixel(as_ints(img), stride, cn, h, r, (k % stride) / cn, k / stride, (k % stride) % cn) as u8
        } else {
            dst0[k]
        },
    )
}

/// An all-zero buffer: the initial content of the intermediate plane
/// between the two passes.
pub open spec fn zeroes(n: int) -> Seq<u8> {
    Seq::new(n as nat, |k: int| 0u8)
}

/// The two-pass box blur of an 8-bit plane: a vertical pass over the
/// horizontal pass.  Pixel samples are blurred; stride padding keeps the
/// destination's previous bytes `dst0`.
pub open spec fn box_image(
    src: Seq<u8>, dst0: Seq<u8>, ss: int, ds: int, w: int, h: int, cn: int, r: int,
) -> Seq<u8> {
    box_v_image(box_h_image(src, ss, ds, w, h, cn, r), dst0, ds, w, h, cn, r)
}

/// Appends one horizontally blurred row (pixels, then zeroed stride
/// padding) to the output being built.
#[verifier::loop_isolation(false)]
#[verifier::rlimit(80)]
fn box_h_row(
    src: &Vec<u8>, out: &mut Vec<u8>, ss: usize, ds: usize, w: usize, h: usize, cn: usize,
    r: usize, y: usize,
)
    requires
        1 <= cn,
        w * cn <= ss,
        w * cn <= ds,
        1 <= w <= 0xffff_ffff,
        r <= 0xffff_ffff,
        src@.len() == ss * h,
        y < h,
        old(out)@.len() == ds * y,
        ds * h <= usize::MAX,
    ensures
        final(out)@.len() == ds * (y + 1),
        forall|k: int| 0 <= k < ds * y ==> final(out)@[k] == old(out)@[k],
        forall|x: int, ch: int| 0 <= x < w && 0 <= ch < cn ==> final(out)@[
            #[trigger] pix_offset(ds as int, cn as int, x, y as int, ch)
        ] as int == box_h_pixel(as_ints(src@), ss as int, cn as int, w as int, r as int, x, y as int, ch),
        forall|k: int| ds * y + w * cn <= k < ds * (y + 1) ==> final(out)@[k] == 0u8,
{
    let ghost si = as_ints(src@);
    proof {
        assert(ds * (y + 1) <= ds * h) by (nonlinear_arith)
            requires y + 1 <= h, 0 <= ds,
        ;
        assert(ds * y + ds == ds * (y + 1)) by (nonlinear_arith);
        assert(ds * y >= 0) by (nonlinear_arith)
            requires 0 <= ds, 0 <= y,
        ;
        assert(ds * y == (y as int) * (ds as int)) by (nonlinear_arith);
        assert(ds * (y + 1) == ((y + 1) as int) * (ds as int)) by (nonlinear_arith);
    }
    let hi0: usize = if r >= w { w - 1 } else { r };
    // Window sums of the first window, one accumulator per channel.
    let mut accs: Vec<u64> = Vec::new();
    let mut ch: usize = 0;
    while ch < cn
        invariant
            ch <= cn,
            accs@.len() == ch,
            forall|c: int| 0 <= c < ch ==> #[trigger] accs@[c] as int
                == row_win_sum(si, ss as int, cn as int, y as int, c, 0, hi0 as int),
        decreases cn - ch,
    {
        let mut s: u64 = 0;
        let mut t: usize = 0;
        while t <= hi0
            invariant
                t <= hi0 + 1,
                s as int == row_win_sum(si, ss as int, cn as int, y as int, ch as int, 0, t - 1),
                ch < cn,
            decreases hi0 + 1 - t,
        {
            proof {
                assert forall|u: int| 0 <= u <= t implies
                    0 <= #[trigger] sample(si, ss as int, cn as int, u, y as int, ch as int) <= 255
                by {
                    lemma_pix_decompose(ss as int, cn as int, w as int, h as int, u, y as int, ch as int);
                }
                lemma_row_win_sum_bounds(si, ss as int, cn as int, y as int, ch as int, 0, t - 1, 255);
                lemma_row_win_sum_extend(si, ss as int, cn as int, y as int, ch as int, 0, t as int);
                assert((t as int) * 255 <= 0xffff_ffff * 255) by (nonlinear_arith)
                    requires t <= 0xffff_ffff,
                ;
            }
            let v = crate::pixel::sample_at(src, ss, cn, t, y, ch, Ghost(w as int), Ghost(h as int));
            s = s + v as u64;
            t = t + 1;
        }
        accs.push(s);
        ch = ch + 1;
    }
    // Slide the window across the row, emitting one pixel per step.
    let mut x: usize = 0;
    while x < w
        invariant
            x <= w,
            accs@.len() == cn,
            out@.len() == ds * y + x * cn,
            x < w ==> forall|c: int| 0 <= c < cn ==> #[trigger] accs@[c] as int
                == row_win_sum(si, ss as int, cn as int, y as int, c,
                    win_lo(x as int, r as int), win_hi(x as int, r as int, w as int)),
            forall|k: int| 0 <= k < ds * y ==> out@[k] == old(out)@[k],
            forall|x2: int, c: int| 0 <= x2 < x && 0 <= c < cn ==> out@[
                #[trigger] pix_offset(ds as int, cn as int, x2, y as int, c)
            ] as int == box_h_pixel(si, ss as int, cn as int, w as int, r as int, x2, y as int, c),
        decreases w - x,
    {
        proof {
            assert(x * cn + cn == (x + 1) * cn) by (nonlinear_arith);
            assert((x + 1) * cn <= w * cn) by (nonlinear_arith)
                requires x + 1 <= w, 0 <= cn,
            ;
            assert(0 <= x * cn) by (nonlinear_arith)
                requires 0 <= x, 0 <= cn,
            ;
        }
        let lo: usize = if x > r { x - r } else { 0 };
        let hi: usize = if r >= w - x { w - 1 } else { x + r };
        let n: usize = hi + 1 - lo;
        let mut c: usize = 0;
        while c < cn
            invariant
                c <= cn,
                x < w,
                lo == win_lo(x as int, r as int),
                hi == win_hi(x as int, r as int, w as int),
                n == win_count(x as int, r as int, w as int),
                accs@.len() == cn,
                out@.len() == ds * y + x * cn + c,
                forall|c2: int| 0 <= c2 < cn ==> #[trigger] accs@[c2] as int
                    == row_win_sum(si, ss as int, cn as int, y as int, c2,
                        win_lo(x as int, r as int), win_hi(x as int, r as int, w as int)),
                forall|k: int| 0 <= k < ds * y ==> out@[k] == old(out)@[k],
                forall|x2: int, c2: int| 0 <= x2 < x && 0 <= c2 < cn ==> out@[
                    #[trigger] pix_offset(ds as int, cn as int, x2, y as int, c2)
                ] as int == box_h_pixel(si, ss as int, cn as int, w as int, r as int, x2, y as int, c2),
                forall|c2: int| 0 <= c2 < c ==> out@[
                    #[trigger] pix_offset(ds as int, cn as int, x as int, y as int, c2)
                ] as int == box_h_pixel(si, ss as int, cn as int, w as int, r as int, x as int, y as int, c2),
            decreases cn - c,
        {
            let s: u64 = accs[c];
            proof {
                assert forall|u: int| lo <= u <= hi implies
                    0 <= #[trigger] sample(si, ss as int, cn as int, u, y as int, c as int) <= 255
                by {
                    lemma_pix_decompose(ss as int, cn as int, w as int, h as int, u, y as int, c as int);
                }
                lemma_row_win_sum_bounds(si, ss as int, cn as int, y as int, c as int, lo as int, hi as int, 255);
                lemma_rounded_mean_bounds(s as int, n as int, 255);
                assert((n as int) * 255 <= 0xffff_ffff * 255) by (nonlinear_arith)
                    requires n <= 0xffff_ffff,
                ;
            }
            let q: u64 = (2 * s + n as u64) / (2 * n as u64);
            proof {
                assert forall|x2: int, c2: int| 0 <= x2 < x && 0 <= c2 < cn implies
                    ds * y <= #[trigger] pix_offset(ds as int, cn as int, x2, y as int, c2)
                        < ds * y + x * cn
                by {
                    crate::pixel::lemma_pix_in_row_prefix(ds as int, cn as int, y as int, x2, c2, x as int);
                }
                assert forall|c2: int| 0 <= c2 < c implies
                    #[trigger] pix_offset(ds as int, cn as int, x as int, y as int, c2) < out@.len()
                by {
                }
            }
            out.push(q as u8);
            proof {
                assert(out@.len() - 1 == pix_offset(ds as int, cn as int, x as int, y as int, c as int));
            }
            c = c + 1;
        }
        // Slide every channel's window one pixel to the right.
        if x + 1 < w {
            let mut c2: usize = 0;
            while c2 < cn
                invariant
                    c2 <= cn,
                    x + 1 < w,
                    accs@.len() == cn,
                    forall|c3: int| c2 <= c3 < cn ==> #[trigger] accs@[c3] as int
                        == row_win_sum(si, ss as int, cn as int, y as int, c3,
                            win_lo(x as int, r as int), win_hi(x as int, r as int, w as int)),
                    forall|c3: int| 0 <= c3 < c2 ==> #[trigger] accs@[c3] as int
                        == row_win_sum(si, ss as int, cn as int, y as int, c3,
                            win_lo(x + 1, r as int), win_hi(x + 1, r as int, w as int)),
                decreases cn - c2,
            {
                let mut a: u64 = accs[c2];
                let ghost lo_old = win_lo(x as int, r as int);
                let ghost hi_old = win_hi(x as int, r as int, w as int);
                proof {
                    assert forall|u: int| lo_old <= u <= hi_old implies
                        0 <= #[trigger] sample(si, ss as int, cn as int, u, y as int, c2 as int) <= 255
                    by {
                        lemma_pix_decompose(ss as int, cn as int, w as int, h as int, u, y as int, c2 as int);
                    }
                    lemma_row_win_sum_bounds(si, ss as int, cn as int, y as int, c2 as int, lo_old, hi_old, 255);
                    assert(((hi_old + 1 - lo_old) as int) * 255 <= 0xffff_ffff * 255) by (nonlinear_arith)
                        requires hi_old + 1 - lo_old <= 0xffff_ffff,
                    ;
                }
                if r < w - (x + 1) {
                    // The window's right end grows onto sample x + 1 + r.
                    proof {
                        lemma_pix_decompose(ss as int, cn as int, w as int, h as int, hi_old + 1, y as int, c2 as int);
                        lemma_row_win_sum_extend(si, ss as int, cn as int, y as int, c2 as int, lo_old, hi_old + 1);
                    }
                    let v = crate::pixel::sample_at(src, ss, cn, x + 1 + r, y, c2, Ghost(w as int), Ghost(h as int));
                    a = a + v as u64;
                }
                if x >= r {
                    // The window's left end leaves sample x - r behind.
                    let ghost hi_new = win_hi(x + 1, r as int, w as int);
                    proof {
                        assert(row_win_sum(si, ss as int, cn as int, y as int, c2 as int, lo_old, hi_new)
                            == sample(si, ss as int, cn as int, lo_old, y as int, c2 as int)
                                + row_win_sum(si, ss as int, cn as int, y as int, c2 as int, lo_old + 1, hi_new));
                        assert forall|u: int| lo_old + 1 <= u <= hi_new implies
                            0 <= #[trigger] sample(si, ss as int, cn as int, u, y as int, c2 as int) <= 255
                        by {
                            lemma_pix_decompose(ss as int, cn as int, w as int, h as int, u, y as int, c2 as int);
                        }
                        lemma_row_win_sum_bounds(si, ss as int, cn as int, y as int, c2 as int, lo_old + 1, hi_new, 255);
                    }
                    let v = crate::pixel::sample_at(src, ss, cn, x - r, y, c2, Ghost(w as int), Ghost(h as int));
                    a = a - v as u64;
                }
                accs.set(c2, a);
                c2 = c2 + 1;
            }
        }
        x = x + 1;
    }
    // Zero the stride padding after the pixels of this row.
    let mut j: usize = w * cn;
    while j < ds
        invariant
            w * cn <= j <= ds,
            out@.len() == ds * y + j,
            forall|k: int| 0 <= k < ds * y ==> out@[k] == old(out)@[k],
            forall|x2: int, c2: int| 0 <= x2 < w && 0 <= c2 < cn ==> out@[
                #[trigger] pix_offset(ds as int, cn as int, x2, y as int, c2)
            ] as int == box_h_pixel(si, ss as int, cn as int, w as int, r as int, x2, y as int, c2),
            forall|k: int| ds * y + w * cn <= k < ds * y + j ==> out@[k] == 0u8,
        decreases ds - j,
    {
        proof {
            assert forall|x2: int, c2: int| 0 <= x2 < w && 0 <= c2 < cn implies
                ds * y <= #[trigger] pix_offset(ds as int, cn as int, x2, y as int, c2)
                    < ds * y + w * cn
            by {
                crate::pixel::lemma_pix_in_row_prefix(ds as int, cn as int, y as int, x2, c2, w as int);
            }
        }
        out.push(0u8);
        j = j + 1;
    }
}

/// The horizontal box pass over the whole plane, row regions processed in
/// worker order.
#[verifier::loop_isolation(false)]
fn box_blur_horizontal_pass(
    src: &Vec<u8>, ss: usize, ds: usize, w: usize, h: usize, cn: usize, r: usize, workers: usize,
) -> (out: Vec<u8>)
    requires
        1 <= cn,
        w * cn <= ss,
        w * cn <= ds,
        1 <= w <= 0xffff_ffff,
        1 <= h,
        r <= 0xffff_ffff,
        src@.len() == ss * h,
        ds * h <= usize::MAX,
        1 <= workers,
    ensures
        out@ == box_h_image(src@, ss as int, ds as int, w as int, h as int, cn as int, r as int),
{
    let ghost gim = box_h_image(src@, ss as int, ds as int, w as int, h as int, cn as int, r as int);
    let regions = crate::region::make_regions(h, workers);
    let mut out: Vec<u8> = Vec::new();
    let mut i: usize = 0;
    let mut row: usize = 0;
    while i < workers
        invariant
            i <= workers,
            row <= h,
            i < workers ==> row == crate::region::region_start(h as int, workers as int, i as int),
            i == workers ==> row == h,
            out@.len() == ds * row,
            forall|k: int| 0 <= k < out@.len() ==> out@[k] == gim[k],
        decreases workers - i,
    {
        proof {
            crate::region::lemma_regions_ordered(h as int, workers as int, i as int);
        }
        let end: usize = regions[i].end;
        while row < end
            invariant
                i < workers,
                row <= end,
                end == crate::region::region_end(h as int, workers as int, i as int),
                end <= h,
                out@.len() == ds * row,
                forall|k: int| 0 <= k < out@.len() ==> out@[k] == gim[k],
            decreases end - row,
        {
            box_h_row(src, &mut out, ss, ds, w, h, cn, r, row);
            proof {
                assert forall|k: int| ds * row <= k < ds * (row + 1) implies out@[k] == gim[k] by {
                    crate::pixel::lemma_row_block_decompose(
                        ds as int, cn as int, w as int, h as int, row as int, k,
                    );
                    assert(ds * row <= ds * h) by (nonlinear_arith)
                        requires row <= h, 0 <= ds,
                    ;
                    assert(ds * (row + 1) <= ds * h) by (nonlinear_arith)
                        requires row + 1 <= h, 0 <= ds,
                    ;
                }
                assert(ds * (row + 1) == ds * row + ds) by (nonlinear_arith);
            }
            row = row + 1;
        }
        proof {
            if i + 1 < workers {
                crate::region::lemma_regions_ordered(h as int, workers as int, i as int);
            }
        }
        i = i + 1;
    }
    proof {
        assert(out@ =~= gim);
    }
    out
}

/// The vertical box pass over the whole plane.  One accumulator per
/// column and channel slides down the image while rows are emitted in
/// order.
#[verifier::loop_isolation(false)]
#[verifier::rlimit(80)]
fn box_blur_vertical_pass(
    src: &Vec<u8>, pad_src: &Vec<u8>, ds: usize, w: usize, h: usize, cn: usize, r: usize,
) -> (out: Vec<u8>)
    requires
        1 <= cn,
        w * cn <= ds,
        1 <= w <= 0xffff_ffff,
        1 <= h <= 0xffff_ffff,
        r <= 0xffff_ffff,
        src@.len() == ds * h,
        pad_src@.len() == ds * h,
        ds * h <= usize::MAX,
    ensures
        out@ == box_v_image(src@, pad_src@, ds as int, w as int, h as int, cn as int, r as int),
{
    let ghost si = as_ints(src@);
    let ghost gim = box_v_image(src@, pad_src@, ds as int, w as int, h as int, cn as int, r as int);
    let wc: usize = w * cn;
    let hi0: usize = if r >= h { h - 1 } else { r };
    // Initial window sums, one accumulator per column and channel.
    let mut accs: Vec<u64> = Vec::new();
    let mut j: usize = 0;
    while j < wc
        invariant
            j <= wc,
            accs@.len() == j,
            forall|j2: int| 0 <= j2 < j ==> #[trigger] accs@[j2] as int
                == col_win_sum(si, ds as int, cn as int, j2 / (cn as int), j2 % (cn as int),
                    0, hi0 as int),
        decreases wc - j,
    {
        let x: usize = j / cn;
        let c: usize = j % cn;
        proof {
            vstd::arithmetic::div_mod::lemma_fundamental_div_mod(j as int, cn as int);
            assert((cn as int) * ((j as int) / (cn as int)) == ((j as int) / (cn as int)) * (cn as int))
                by (nonlinear_arith);
            assert((j as int) < (cn as int) * (w as int)) by (nonlinear_arith)
                requires j < w * cn,
            ;
            vstd::arithmetic::div_mod::lemma_multiply_divide_lt(j as int, cn as int, w as int);
        }
        let mut s: u64 = 0;
        let mut t: usize = 0;
        while t <= hi0
            invariant
                t <= hi0 + 1,
                x == j / cn < w,
                c == j % cn < cn,
                s as int == col_win_sum(si, ds as int, cn as int, x as int, c as int, 0, t - 1),
            decreases hi0 + 1 - t,
        {
            proof {
                assert forall|u: int| 0 <= u <= t implies
                    0 <= #[trigger] sample(si, ds as int, cn as int, x as int, u, c as int) <= 255
                by {
                    lemma_pix_decompose(ds as int, cn as int, w as int, h as int, x as int, u, c as int);
                }
                lemma_col_win_sum_bounds(si, ds as int, cn as int, x as int, c as int, 0, t - 1, 255);
                lemma_col_win_sum_extend(si, ds as int, cn as int, x as int, c as int, 0, t as int);
                assert((t as int) * 255 <= 0xffff_ffff * 255) by (nonlinear_arith)
                    requires t <= 0xffff_ffff,
                ;
            }
            let v = crate::pixel::sample_at(src, ds, cn, x, t, c, Ghost(w as int), Ghost(h as int));
            s = s + v as u64;
            t = t + 1;
        }
        accs.push(s);
        j = j + 1;
    }
    // Emit rows top to bottom, sliding every column's window.
    let mut out: Vec<u8> = Vec::new();
    let mut y: usize = 0;
    while y < h
        invariant
            y <= h,
            accs@.len() == wc,
            out@.len() == ds * y,
            y < h ==> forall|j2: int| 0 <= j2 < wc ==> #[trigger] accs@[j2] as int
                == col_win_sum(si, ds as int, cn as int, j2 / (cn as int), j2 % (cn as int),
                    win_lo(y as int, r as int), win_hi(y as int, r as int, h as int)),
            forall|k: int| 0 <= k < out@.len() ==> out@[k] == gim[k],
        decreases h - y,
    {
        proof {
            assert(ds * y == (y as int) * (ds as int)) by (nonlinear_arith);
            assert(ds * (y + 1) == ds * y + ds) by (nonlinear_arith);
            assert(ds * (y + 1) <= ds * h) by (nonlinear_arith)
                requires y + 1 <= h, 0 <= ds,
            ;
        }
        let lo: usize = if y > r { y - r } else { 0 };
        let hi: usize = if r >= h - y { h - 1 } else { y + r };
        let n: usize = hi + 1 - lo;
        let mut x: usize = 0;
        while x < w
            invariant
                x <= w,
                y < h,
                lo == win_lo(y as int, r as int),
                hi == win_hi(y as int, r as int, h as int),
                n == win_count(y as int, r as int, h as int),
                accs@.len() == wc,
                out@.len() == ds * y + x * cn,
                forall|j2: int| 0 <= j2 < wc ==> #[trigger] accs@[j2] as int
                    == col_win_sum(si, ds as int, cn as int, j2 / (cn as int), j2 % (cn as int),
                        win_lo(y as int, r as int), win_hi(y as int, r as int, h as int)),
                forall|k: int| 0 <= k < out@.len() ==> out@[k] == gim[k],
            decreases w - x,
        {
            proof {
                assert(x * cn + cn == (x + 1) * cn) by (nonlinear_arith);
                assert((x + 1) * cn <= w * cn) by (nonlinear_arith)
                    requires x + 1 <= w, 0 <= cn,
                ;
                assert(0 <= x * cn) by (nonlinear_arith)
                    requires 0 <= x, 0 <= cn,
                ;
            }
            let mut c: usize = 0;
            while c < cn
                invariant
                    c <= cn,
                    x < w,
                    y < h,
                    lo == win_lo(y as int, r as int),
                    hi == win_hi(y as int, r as int, h as int),
                    n == win_count(y as int, r as int, h as int),
                    accs@.len() == wc,
                    out@.len() == ds * y + x * cn + c,
                    forall|j2: int| 0 <= j2 < wc ==> #[trigger] accs@[j2] as int
                        == col_win_sum(si, ds as int, cn as int, j2 / (cn as int), j2 % (cn as int),
                            win_lo(y as int, r as int), win_hi(y as int, r as int, h as int)),
                    forall|k: int| 0 <= k < out@.len() ==> out@[k] == gim[k],
                decreases cn - c,
            {
                let jj: usize = x * cn + c;
                let s: u64 = accs[jj];
                proof {
                    lemma_pix_decompose(ds as int, cn as int, w as int, h as int, x as int, y as int, c as int);
                    assert(s as int == col_win_sum(si, ds as int, cn as int, x as int, c as int,
                        lo as int, hi as int));
                    assert forall|u: int| lo <= u <= hi implies
                        0 <= #[trigger] sample(si, ds as int, cn as int, x as int, u, c as int) <= 255
                    by {
                        lemma_pix_decompose(ds as int, cn as int, w as int, h as int, x as int, u, c as int);
                    }
                    lemma_col_win_sum_bounds(si, ds as int, cn as int, x as int, c as int, lo as int, hi as int, 255);
                    lemma_rounded_mean_bounds(s as int, n as int, 255);
                    assert((n as int) * 255 <= 0xffff_ffff * 255) by (nonlinear_arith)
                        requires n <= 0xffff_ffff,
                    ;
                }
                let q: u64 = (2 * s + n as u64) / (2 * n as u64);
                proof {
                    assert(out@.len() == pix_offset(ds as int, cn as int, x as int, y as int, c as int));
                    assert(gim[pix_offset(ds as int, cn as int, x as int, y as int, c as int)]
                        == box_v_pixel(si, ds as int, cn as int, h as int, r as int, x as int, y as int, c as int) as u8);
                }
                out.push(q as u8);
                c = c + 1;
            }
            x = x + 1;
        }
        // Carry the destination's stride padding through unchanged.
        let mut p: usize = wc;
        while p < ds
            invariant
                wc <= p <= ds,
                y < h,
                out@.len() == ds * y + p,
                forall|k: int| 0 <= k < out@.len() ==> out@[k] == gim[k],
                accs@.len() == wc,
                forall|j2: int| 0 <= j2 < wc ==> #[trigger] accs@[j2] as int
                    == col_win_sum(si, ds as int, cn as int, j2 / (cn as int), j2 % (cn as int),
                        win_lo(y as int, r as int), win_hi(y as int, r as int, h as int)),
            decreases ds - p,
        {
            proof {
                crate::pixel::lemma_row_block_decompose(
                    ds as int, cn as int, w as int, h as int, y as int, ds * y + p,
                );
                assert(y * ds == ds * y) by (nonlinear_arith);
            }
            let idx: usize = y * ds + p;
            let v = pad_src[idx];
            proof {
                assert(gim[out@.len() as int] == v);
            }
            out.push(v);
            p = p + 1;
        }
        // Slide every column's window one row down.
        if y + 1 < h {
            let mut j2: usize = 0;
            while j2 < wc
                invariant
                    j2 <= wc,
                    y + 1 < h,
                    accs@.len() == wc,
                    forall|j3: int| j2 <= j3 < wc ==> #[trigger] accs@[j3] as int
                        == col_win_sum(si, ds as int, cn as int, j3 / (cn as int), j3 % (cn as int),
                            win_lo(y as int, r as int), win_hi(y as int, r as int, h as int)),
                    forall|j3: int| 0 <= j3 < j2 ==> #[trigger] accs@[j3] as int
                        == col_win_sum(si, ds as int, cn as int, j3 / (cn as int), j3 % (cn as int),
                            win_lo(y + 1, r as int), win_hi(y + 1, r as int, h as int)),
                decreases wc - j2,
            {
                let x2: usize = j2 / cn;
                let c2: usize = j2 % cn;
                proof {
                    vstd::arithmetic::div_mod::lemma_fundamental_div_mod(j2 as int, cn as int);
                    assert((cn as int) * ((j2 as int) / (cn as int))
                        == ((j2 as int) / (cn as int)) * (cn as int)) by (nonlinear_arith);
                    assert((j2 as int) < (cn as int) * (w as int)) by (nonlinear_arith)
                        requires j2 < w * cn,
                    ;
                    vstd::arithmetic::div_mod::lemma_multiply_divide_lt(j2 as int, cn as int, w as int);
                }
                let mut a: u64 = accs[j2];
                let ghost lo_old = win_lo(y as int, r as int);
                let ghost hi_old = win_hi(y as int, r as int, h as int);
                proof {
                    assert forall|u: int| lo_old <= u <= hi_old implies
                        0 <= #[trigger] sample(si, ds as int, cn as int, x2 as int, u, c2 as int) <= 255
                    by {
                        lemma_pix_decompose(ds as int, cn as int, w as int, h as int, x2 as int, u, c2 as int);
                    }
                    lemma_col_win_sum_bounds(si, ds as int, cn as int, x2 as int, c2 as int, lo_old, hi_old, 255);
                    assert(((hi_old + 1 - lo_old) as int) * 255 <= 0xffff_ffff * 255) by (nonlinear_arith)
                        requires hi_old + 1 - lo_old <= 0xffff_ffff,
                    ;
                }
                if r < h - (y + 1) {
                    // The window's lower end grows onto row y + 1 + r.
                    proof {
                        lemma_pix_decompose(ds as int, cn as int, w as int, h as int, x2 as int, hi_old + 1, c2 as int);
                        lemma_col_win_sum_extend(si, ds as int, cn as int, x2 as int, c2 as int, lo_old, hi_old + 1);
                    }
                    let v = crate::pixel::sample_at(src, ds, cn, x2, y + 1 + r, c2, Ghost(w as int), Ghost(h as int));
                    a = a + v as u64;
                }
                if y >= r {
                    // The window's upper end leaves row y - r behind.
                    let ghost hi_new = win_hi(y + 1, r as int, h as int);
                    proof {
                        assert(col_win_sum(si, ds as int, cn as int, x2 as int, c2 as int, lo_old, hi_new)
                            == sample(si, ds as int, cn as int, x2 as int, lo_old, c2 as int)
                                + col_win_sum(si, ds as int, cn as int, x2 as int, c2 as int, lo_old + 1, hi_new));
                        assert forall|u: int| lo_old + 1 <= u <= hi_new implies
                            0 <= #[trigger] sample(si, ds as int, cn as int, x2 as int, u, c2 as int) <= 255
                        by {
                            lemma_pix_decompose(ds as int, cn as int, w as int, h as int, x2 as int, u, c2 as int);
                        }
                        lemma_col_win_sum_bounds(si, ds as int, cn as int, x2 as int, c2 as int, lo_old + 1, hi_new, 255);
                    }
                    let v = crate::pixel::sample_at(src, ds, cn, x2, y - r, c2, Ghost(w as int), Ghost(h as int));
                    a = a - v as u64;
                }
                accs.set(j2, a);
                j2 = j2 + 1;
            }
        }
        y = y + 1;
    }
    proof {
        assert(out@ =~= gim);
    }
    out
}

/// One complete box blur: horizontal pass, then vertical pass over its
/// result.
fn box_blur_impl(
    src: &Vec<u8>, pad_src: &Vec<u8>, ss: usize, ds: usize, w: usize, h: usize, cn: usize,
    r: usize, workers: usize,
) -> (out: Vec<u8>)
    requires
        1 <= cn,
        w * cn <= ss,
        w * cn <= ds,
        1 <= w <= 0xffff_ffff,
        1 <= h <= 0xffff_ffff,
        r <= 0xffff_ffff,
        src@.len() == ss * h,
        pad_src@.len() == ds * h,
        ds * h <= usize::MAX,
        1 <= workers,
    ensures
        out@ == box_image(src@, pad_src@, ss as int, ds as int, w as int, h as int, cn as int, r as int),
        out@.len() == ds * h,
{
    let transient = box_blur_horizontal_pass(src, ss, ds, w, h, cn, r, workers);
    box_blur_vertical_pass(&transient, pad_src, ds, w, h, cn, r)
}

/// Performs a box blur of an 8-bit image.
///
/// Every output pixel sample is the rounded mean of the radius-`radius`
/// window around it, truncated at the image edges, applied along rows and
/// then along columns.  The result does not depend on the threading
/// policy; stride padding bytes of the destination keep their old value.
pub fn box_blur(
    src: &Vec<u8>, src_stride: u32, dst: &mut Vec<u8>, dst_stride: u32, width: u32, height: u32,
    radius: u32, channels: FastBlurChannels, threading_policy: ThreadingPolicy,
)
    requires
        1 <= width,
        1 <= height,
        width * channels.channel_count() <= src_stride,
        width * channels.channel_count() <= dst_stride,
        src@.len() == src_stride * height,
        old(dst)@.len() == dst_stride * height,
    ensures
        final(dst)@ == box_image(
            src@, old(dst)@, src_stride as int, dst_stride as int, width as int, height as int,
            channels.channel_count(), radius as int,
        ),
{
    let cn = channels.get_channels();
    let workers = threading_policy.get_threads_count(width, height);
    let dst_len: usize = dst.len();
    proof {
        assert(dst_stride * height <= usize::MAX);
    }
    let out = box_blur_impl(
        src, dst, src_stride as usize, dst_stride as usize, width as usize, height as usize, cn,
        radius as usize, workers,
    );
    *dst = out;
}

/// Performs a tent blur of an 8-bit image: two box blurs in sequence,
/// which weights samples triangularly.
pub fn tent_blur(
    src: &Vec<u8>, src_stride: u32, dst: &mut Vec<u8>, dst_stride: u32, width: u32, height: u32,
    radius: u32, channels: FastBlurChannels, threading_policy: ThreadingPolicy,
)
    requires
        1 <= width,
        1 <= height,
        width * channels.channel_count() <= src_stride,
        width * channels.channel_count() <= dst_stride,
        src@.len() == src_stride * height,
        old(dst)@.len() == dst_stride * height,
    ensures
        final(dst)@ == box_image(
            box_image(
                src@, zeroes(dst_stride * height), src_stride as int, dst_stride as int,
                width as int, height as int, channels.channel_count(), radius as int,
            ),
            old(dst)@,
            dst_stride as int, dst_stride as int, width as int, height as int,
            channels.channel_count(), radius as int,
        ),
{
    let cn = channels.get_channels();
    let workers = threading_policy.get_threads_count(width, height);
    let dst_len: usize = dst.len();
    proof {
        assert(dst_stride * height <= usize::MAX);
    }
    let blank: Vec<u8> = vec![0u8; dst_len];
    proof {
        assert(blank@ =~= zeroes(dst_stride as int * height as int));
    }
    let first = box_blur_impl(
        src, &blank, src_stride as usize, dst_stride as usize, width as usize, height as usize,
        cn, radius as usize, workers,
    );
    let second = box_blur_impl(
        &first, dst, dst_stride as usize, dst_stride as usize, width as usize, height as usize,
        cn, radius as usize, workers,
    );
    *dst = second;
}

/// Performs a gaussian-approximating box blur of an 8-bit image: three box
/// blurs in sequence, the central-limit approximation of a gaussian.
pub fn gaussian_box_blur(
    src: &Vec<u8>, src_stride: u32, dst: &mut Vec<u8>, dst_stride: u32, width: u32, height: u32,
    radius: u32, channels: FastBlurChannels, threading_policy: ThreadingPolicy,
)
    requires
        1 <= width,
        1 <= height,
        width * channels.channel_count() <= src_stride,
        width * channels.channel_count() <= dst_stride,
        src@.len() == src_stride * height,
        old(dst)@.len() == dst_stride * height,
    ensures
        final(dst)@ == box_image(
            box_image(
                box_image(
                    src@, zeroes(dst_stride * height), src_stride as int, dst_stride as int,
                    width as int, height as int, channels.channel_count(), radius as int,
                ),
                zeroes(dst_stride * height),
                dst_stride as int, dst_stride as int, width as int, height as int,
                channels.channel_count(), radius as int,
            ),
            old(dst)@,
            dst_stride as int, dst_stride as int, width as int, height as int,
            channels.channel_count(), radius as int,
        ),
{
    let cn = channels.get_channels();
    let workers = threading_policy.get_threads_count(width, height);
    let dst_len: usize = dst.len();
    proof {
        assert(dst_stride * height <= usize::MAX);
    }
    let blank: Vec<u8> = vec![0u8; dst_len];
    proof {
        assert(blank@ =~= zeroes(dst_stride as int * height as int));
    }
    let first = box_blur_impl(
        src, &blank, src_stride as usize, dst_stride as usize, width as usize, height as usize,
        cn, radius as usize, workers,
    );
    let second = box_blur_impl(
        &first, &blank, dst_stride as usize, dst_stride as usize, width as usize,
        height as usize, cn, radius as usize, workers,
    );
    let third = box_blur_impl(
        &second, dst, dst_stride as usize, dst_stride as usize, width as usize, height as usize,
        cn, radius as usize, workers,
    );
    *dst = third;
}

/// The full horizontal box pass of a 16-bit plane: every pixel sample is
/// the rounded row-window mean.  Its stride padding is zero — this is the
/// zero-initialised intermediate between the passes, never a caller's
/// destination.
pub open spec fn box_h_image16(
    src: Seq<u16>, ss: int, ds: int, w: int, h: int, cn: int, r: int,
) -> Seq<u16> {
    Seq::new(
        (ds * h) as nat,
        |k: int| if is_pixel_pos(k, ds, cn, w, h) {
            box_h_pixel(as_ints16(src), ss, cn, w, r, (k % ds) / cn, k / ds, (k % ds) % cn) as u16
        } else {
            0u16
        },
    )
}

/// The full vertical box pass of a 16-bit plane, written into a
/// destination whose stride padding stays as it was.
pub open spec fn box_v_image16(
    img: Seq<u16>, dst0: Seq<u16>, stride: int, w: int, h: int, cn: int, r: int,
) -> Seq<u16> {
    Seq::new(
        (stride * h) as nat,
        |k: int| if is_pixel_pos(k, stride, cn, w, h) {
            box_v_pixel(as_ints16(img), stride, cn, h, r, (k % stride) / cn, k / stride, (k % stride) % cn) as u16
        } else {
            dst0[k]
        },
    )
}

/// An all-zero 16-bit buffer: the initial content of the intermediate
/// plane between the two passes.
pub open spec fn zeroes16(n: int) -> Seq<u16> {
    Seq::new(n as nat, |k: int| 0u16)
}

/// The two-pass box blur of a 16-bit plane: a vertical pass over the
/// horizontal pass.  Pixel samples are blurred; stride padding keeps the
/// destination's previous samples `dst0`.
pub open spec fn box_image16(
    src: Seq<u16>, dst0: Seq<u16>, ss: int, ds: int, w: int, h: int, cn: int, r: int,
) -> Seq<u16> {
    box_v_image16(box_h_image16(src, ss, ds, w, h, cn, r), dst0, ds, w, h, cn, r)
}

/// Appends one horizontally blurred row (pixels, then zeroed stride
/// padding) to the output being built.
#[verifier::loop_isolation(false)]
#[verifier::rlimit(80)]
fn box_h_row16(
    src: &Vec<u16>, out: &mut Vec<u16>, ss: usize, ds: usize, w: usize, h: usize, cn: usize,
    r: usize, y: usize,
)
    requires
        1 <= cn,
        w * cn <= ss,
        w * cn <= ds,
        1 <= w <= 0xffff_ffff,
        r <= 0xffff_ffff,
        src@.len() == ss * h,
        y < h,
        old(out)@.len() == ds * y,
        ds * h <= usize::MAX,
    ensures
        final(out)@.len() == ds * (y + 1),
        forall|k: int| 0 <= k < ds * y ==> final(out)@[k] == old(out)@[k],
        forall|x: int, ch: int| 0 <= x < w && 0 <= ch < cn ==> final(out)@[
            #[trigger] pix_offset(ds as int, cn as int, x, y as int, ch)
        ] as int == box_h_pixel(as_ints16(src@), ss as int, cn as int, w as int, r as int, x, y as int, ch),
        forall|k: int| ds * y + w * cn <= k < ds * (y + 1) ==> final(out)@[k] == 0u16,
{
    let ghost si = as_ints16(src@);
    proof {
        assert(ds * (y + 1) <= ds * h) by (nonlinear_arith)
            requires y + 1 <= h, 0 <= ds,
        ;
        assert(ds * y + ds == ds * (y + 1)) by (nonlinear_arith);
        assert(ds * y >= 0) by (nonlinear_arith)
            requires 0 <= ds, 0 <= y,
        ;
        assert(ds * y == (y as int) * (ds as int)) by (nonlinear_arith);
        assert(ds * (y + 1) == ((y + 1) as int) * (ds as int)) by (nonlinear_arith);
    }
    let hi0: usize = if r >= w { w - 1 } else { r };
    // Window sums of the first window, one accumulator per channel.
    let mut accs: Vec<u64> = Vec::new();
    let mut ch: usize = 0;
    while ch < cn
        invariant
            ch <= cn,
            accs@.len() == ch,
            forall|c: int| 0 <= c < ch ==> #[trigger] accs@[c] as int
                == row_win_sum(si, ss as int, cn as int, y as int, c, 0, hi0 as int),
        decreases cn - ch,
    {
        let mut s: u64 = 0;
        let mut t: usize = 0;
        while t <= hi0
            invariant
                t <= hi0 + 1,
                s as int == row_win_sum(si, ss as int, cn as int, y as int, ch as int, 0, t - 1),
                ch < cn,
            decreases hi0 + 1 - t,
        {
            proof {
                assert forall|u: int| 0 <= u <= t implies
                    0 <= #[trigger] sample(si, ss as int, cn as int, u, y as int, ch as int) <= 65535
                by {
                    lemma_pix_decompose(ss as int, cn as int, w as int, h as int, u, y as int, ch as int);
                }
                lemma_row_win_sum_bounds(si, ss as int, cn as int, y as int, ch as int, 0, t - 1, 65535);
                lemma_row_win_sum_extend(si, ss as int, cn as int, y as int, ch as int, 0, t as int);
                assert((t as int) * 65535 <= 0xffff_ffff * 65535) by (nonlinear_arith)
                    requires t <= 0xffff_ffff,
                ;
            }
            let v = crate::pixel::sample_at16(src, ss, cn, t, y, ch, Ghost(w as int), Ghost(h as int));
            s = s + v as u64;
            t = t + 1;
        }
        accs.push(s);
        ch = ch + 1;
    }
    // Slide the window across the row, emitting one pixel per step.
    let mut x: usize = 0;
    while x < w
        invariant
            x <= w,
            accs@.len() == cn,
            out@.len() == ds * y + x * cn,
            x < w ==> forall|c: int| 0 <= c < cn ==> #[trigger] accs@[c] as int
                == row_win_sum(si, ss as int, cn as int, y as int, c,
                    win_lo(x as int, r as int), win_hi(x as int, r as int, w as int)),
            forall|k: int| 0 <= k < ds * y ==> out@[k] == old(out)@[k],
            forall|x2: int, c: int| 0 <= x2 < x && 0 <= c < cn ==> out@[
                #[trigger] pix_offset(ds as int, cn as int, x2, y as int, c)
            ] as int == box_h_pixel(si, ss as int, cn as int, w as int, r as int, x2, y as int, c),
        decreases w - x,
    {
        proof {
            assert(x * cn + cn == (x + 1) * cn) by (nonlinear_arith);
            assert((x + 1) * cn <= w * cn) by (nonlinear_arith)
                requires x + 1 <= w, 0 <= cn,
            ;
            assert(0 <= x * cn) by (nonlinear_arith)
                requires 0 <= x, 0 <= cn,
            ;
        }
        let lo: usize = if x > r { x - r } else { 0 };
        let hi: usize = if r >= w - x { w - 1 } else { x + r };
        let n: usize = hi + 1 - lo;
        let mut c: usize = 0;
        while c < cn
            invariant
                c <= cn,
                x < w,
                lo == win_lo(x as int, r as int),
                hi == win_hi(x as int, r as int, w as int),
                n == win_count(x as int, r as int, w as int),
                accs@.len() == cn,
                out@.len() == ds * y + x * cn + c,
                forall|c2: int| 0 <= c2 < cn ==> #[trigger] accs@[c2] as int
                    == row_win_sum(si, ss as int, cn as int, y as int, c2,
                        win_lo(x as int, r as int), win_hi(x as int, r as int, w as int)),
                forall|k: int| 0 <= k < ds * y ==> out@[k] == old(out)@[k],
                forall|x2: int, c2: int| 0 <= x2 < x && 0 <= c2 < cn ==> out@[
                    #[trigger] pix_offset(ds as int, cn as int, x2, y as int, c2)
                ] as int == box_h_pixel(si, ss as int, cn as int, w as int, r as int, x2, y as int, c2),
                forall|c2: int| 0 <= c2 < c ==> out@[
                    #[trigger] pix_offset(ds as int, cn as int, x as int, y as int, c2)
                ] as int == box_h_pixel(si, ss as int, cn as int, w as int, r as int, x as int, y as int, c2),
            decreases cn - c,
        {
            let s: u64 = accs[c];
            proof {
                assert forall|u: int| lo <= u <= hi implies
                    0 <= #[trigger] sample(si, ss as int, cn as int, u, y as int, c as int) <= 65535
                by {
                    lemma_pix_decompose(ss as int, cn as int, w as int, h as int, u, y as int, c as int);
                }
                lemma_row_win_sum_bounds(si, ss as int, cn as int, y as int, c as int, lo as int, hi as int, 65535);
                lemma_rounded_mean_bounds(s as int, n as int, 65535);
                assert((n as int) * 65535 <= 0xffff_ffff * 65535) by (nonlinear_arith)
                    requires n <= 0xffff_ffff,
                ;
            }
            let q: u64 = (2 * s + n as u64) / (2 * n as u64);
            proof {
                assert forall|x2: int, c2: int| 0 <= x2 < x && 0 <= c2 < cn implies
                    ds * y <= #[trigger] pix_offset(ds as int, cn as int, x2, y as int, c2)
                        < ds * y + x * cn
                by {
                    crate::pixel::lemma_pix_in_row_prefix(ds as int, cn as int, y as int, x2, c2, x as int);
                }
                assert forall|c2: int| 0 <= c2 < c implies
                    #[trigger] pix_offset(ds as int, cn as int, x as int, y as int, c2) < out@.len()
                by {
                }
            }
            out.push(q as u16);
            proof {
                assert(out@.len() - 1 == pix_offset(ds as int, cn as int, x as int, y as int, c as int));
            }
            c = c + 1;
        }
        // Slide every channel's window one pixel to the right.
        if x + 1 < w {
            let mut c2: usize = 0;
            while c2 < cn
                invariant
                    c2 <= cn,
                    x + 1 < w,
                    accs@.len() == cn,
                    forall|c3: int| c2 <= c3 < cn ==> #[trigger] accs@[c3] as int
                        == row_win_sum(si, ss as int, cn as int, y as int, c3,
                            win_lo(x as int, r as int), win_hi(x as int, r as int, w as int)),
                    forall|c3: int| 0 <= c3 < c2 ==> #[trigger] accs@[c3] as int
                        == row_win_sum(si, ss as int, cn as int, y as int, c3,
                            win_lo(x + 1, r as int), win_hi(x + 1, r as int, w as int)),
                decreases cn - c2,
            {
                let mut a: u64 = accs[c2];
                let ghost lo_old = win_lo(x as int, r as int);
                let ghost hi_old = win_hi(x as int, r as int, w as int);
                proof {
                    assert forall|u: int| lo_old <= u <= hi_old implies
                        0 <= #[trigger] sample(si, ss as int, cn as int, u, y as int, c2 as int) <= 65535
                    by {
                        lemma_pix_decompose(ss as int, cn as int, w as int, h as int, u, y as int, c2 as int);
                    }
                    lemma_row_win_sum_bounds(si, ss as int, cn as int, y as int, c2 as int, lo_old, hi_old, 65535);
                    assert(((hi_old + 1 - lo_old) as int) * 65535 <= 0xffff_ffff * 65535) by (nonlinear_arith)
                        requires hi_old + 1 - lo_old <= 0xffff_ffff,
                    ;
                }
                if r < w - (x + 1) {
                    // The window's right end grows onto sample x + 1 + r.
                    proof {
                        lemma_pix_decompose(ss as int, cn as int, w as int, h as int, hi_old + 1, y as int, c2 as int);
                        lemma_row_win_sum_extend(si, ss as int, cn as int, y as int, c2 as int, lo_old, hi_old + 1);
                    }
                    let v = crate::pixel::sample_at16(src, ss, cn, x + 1 + r, y, c2, Ghost(w as int), Ghost(h as int));
                    a = a + v as u64;
                }
                if x >= r {
                    // The window's left end leaves sample x - r behind.
                    let ghost hi_new = win_hi(x + 1, r as int, w as int);
                    proof {
                        assert(row_win_sum(si, ss as int, cn as int, y as int, c2 as int, lo_old, hi_new)
                            == sample(si, ss as int, cn as int, lo_old, y as int, c2 as int)
                                + row_win_sum(si, ss as int, cn as int, y as int, c2 as int, lo_old + 1, hi_new));
                        assert forall|u: int| lo_old + 1 <= u <= hi_new implies
                            0 <= #[trigger] sample(si, ss as int, cn as int, u, y as int, c2 as int) <= 65535
                        by {
                            lemma_pix_decompose(ss as int, cn as int, w as int, h as int, u, y as int, c2 as int);
                        }
                        lemma_row_win_sum_bounds(si, ss as int, cn as int, y as int, c2 as int, lo_old + 1, hi_new, 65535);
                    }
                    let v = crate::pixel::sample_at16(src, ss, cn, x - r, y, c2, Ghost(w as int), Ghost(h as int));
                    a = a - v as u64;
                }
                accs.set(c2, a);
                c2 = c2 + 1;
            }
        }
        x = x + 1;
    }
    // Zero the stride padding after the pixels of this row.
    let mut j: usize = w * cn;
    while j < ds
        invariant
            w * cn <= j <= ds,
            out@.len() == ds * y + j,
            forall|k: int| 0 <= k < ds * y ==> out@[k] == old(out)@[k],
            forall|x2: int, c2: int| 0 <= x2 < w && 0 <= c2 < cn ==> out@[
                #[trigger] pix_offset(ds as int, cn as int, x2, y as int, c2)
            ] as int == box_h_pixel(si, ss as int, cn as int, w as int, r as int, x2, y as int, c2),
            forall|k: int| ds * y + w * cn <= k < ds * y + j ==> out@[k] == 0u16,
        decreases ds - j,
    {
        proof {
            assert forall|x2: int, c2: int| 0 <= x2 < w && 0 <= c2 < cn implies
                ds * y <= #[trigger] pix_offset(ds as int, cn as int, x2, y as int, c2)
                    < ds * y + w * cn
            by {
                crate::pixel::lemma_pix_in_row_prefix(ds as int, cn as int, y as int, x2, c2, w as int);
            }
        }
        out.push(0u16);
        j = j + 1;
    }
}

/// The horizontal box pass over the whole plane, row regions processed in
/// worker order.
#[verifier::loop_isolation(false)]
fn box_blur_horizontal_pass16(
    src: &Vec<u16>, ss: usize, ds: usize, w: usize, h: usize, cn: usize, r: usize, workers: usize,
) -> (out: Vec<u16>)
    requires
        1 <= cn,
        w * cn <= ss,
        w * cn <= ds,
        1 <= w <= 0xffff_ffff,
        1 <= h,
        r <= 0xffff_ffff,
        src@.len() == ss * h,
        ds * h <= usize::MAX,
        1 <= workers,
    ensures
        out@ == box_h_image16(src@, ss as int, ds as int, w as int, h as int, cn as int, r as int),
{
    let ghost gim = box_h_image16(src@, ss as int, ds as int, w as int, h as int, cn as int, r as int);
    let regions = crate::region::make_regions(h, workers);
    let mut out: Vec<u16> = Vec::new();
    let mut i: usize = 0;
    let mut row: usize = 0;
    while i < workers
        invariant
            i <= workers,
            row <= h,
            i < workers ==> row == crate::region::region_start(h as int, workers as int, i as int),
            i == workers ==> row == h,
            out@.len() == ds * row,
            forall|k: int| 0 <= k < out@.len() ==> out@[k] == gim[k],
        decreases workers - i,
    {
        proof {
            crate::region::lemma_regions_ordered(h as int, workers as int, i as int);
        }
        let end: usize = regions[i].end;
        while row < end
            invariant
                i < workers,
                row <= end,
                end == crate::region::region_end(h as int, workers as int, i as int),
                end <= h,
                out@.len() == ds * row,
                forall|k: int| 0 <= k < out@.len() ==> out@[k] == gim[k],
            decreases end - row,
        {
            box_h_row16(src, &mut out, ss, ds, w, h, cn, r, row);
            proof {
                assert forall|k: int| ds * row <= k < ds * (row + 1) implies out@[k] == gim[k] by {
                    crate::pixel::lemma_row_block_decompose(
                        ds as int, cn as int, w as int, h as int, row as int, k,
                    );
                    assert(ds * row <= ds * h) by (nonlinear_arith)
                        requires row <= h, 0 <= ds,
                    ;
                    assert(ds * (row + 1) <= ds * h) by (nonlinear_arith)
                        requires row + 1 <= h, 0 <= ds,
                    ;
                }
                assert(ds * (row + 1) == ds * row + ds) by (nonlinear_arith);
            }
            row = row + 1;
        }
        proof {
            if i + 1 < workers {
                crate::region::lemma_regions_ordered(h as int, workers as int, i as int);
            }
        }
        i = i + 1;
    }
    proof {
        assert(out@ =~= gim);
    }
    out
}

/// The vertical box pass over the whole plane.  One accumulator per
/// column and channel slides down the image while rows are emitted in
/// order.
#[verifier::loop_isolation(false)]
#[verifier::rlimit(80)]
fn box_blur_vertical_pass16(
    src: &Vec<u16>, pad_src: &Vec<u16>, ds: usize, w: usize, h: usize, cn: usize, r: usize,
) -> (out: Vec<u16>)
    requires
        1 <= cn,
        w * cn <= ds,
        1 <= w <= 0xffff_ffff,
        1 <= h <= 0xffff_ffff,
        r <= 0xffff_ffff,
        src@.len() == ds * h,
        pad_src@.len() == ds * h,
        ds * h <= usize::MAX,
    ensures
        out@ == box_v_image16(src@, pad_src@, ds as int, w as int, h as int, cn as int, r as int),
{
    let ghost si = as_ints16(src@);
    let ghost gim = box_v_image16(src@, pad_src@, ds as int, w as int, h as int, cn as int, r as int);
    let wc: usize = w * cn;
    let hi0: usize = if r >= h { h - 1 } else { r };
    // Initial window sums, one accumulator per column and channel.
    let mut accs: Vec<u64> = Vec::new();
    let mut j: usize = 0;
    while j < wc
        invariant
            j <= wc,
            accs@.len() == j,
            forall|j2: int| 0 <= j2 < j ==> #[trigger] accs@[j2] as int
                == col_win_sum(si, ds as int, cn as int, j2 / (cn as int), j2 % (cn as int),
                    0, hi0 as int),
        decreases wc - j,
    {
        let x: usize = j / cn;
        let c: usize = j % cn;
        proof {
            vstd::arithmetic::div_mod::lemma_fundamental_div_mod(j as int, cn as int);
            assert((cn as int) * ((j as int) / (cn as int)) == ((j as int) / (cn as int)) * (cn as int))
                by (nonlinear_arith);
            assert((j as int) < (cn as int) * (w as int)) by (nonlinear_arith)
                requires j < w * cn,
            ;
            vstd::arithmetic::div_mod::lemma_multiply_divide_lt(j as int, cn as int, w as int);
        }
        let mut s: u64 = 0;
        let mut t: usize = 0;
        while t <= hi0
            invariant
                t <= hi0 + 1,
                x == j / cn < w,
                c == j % cn < cn,
                s as int == col_win_sum(si, ds as int, cn as int, x as int, c as int, 0, t - 1),
            decreases hi0 + 1 - t,
        {
            proof {
                assert forall|u: int| 0 <= u <= t implies
                    0 <= #[trigger] sample(si, ds as int, cn as int, x as int, u, c as int) <= 65535
                by {
                    lemma_pix_decompose(ds as int, cn as int, w as int, h as int, x as int, u, c as int);
                }
                lemma_col_win_sum_bounds(si, ds as int, cn as int, x as int, c as int, 0, t - 1, 65535);
                lemma_col_win_sum_extend(si, ds as int, cn as int, x as int, c as int, 0, t as int);
                assert((t as int) * 65535 <= 0xffff_ffff * 65535) by (nonlinear_arith)
                    requires t <= 0xffff_ffff,
                ;
            }
            let v = crate::pixel::sample_at16(src, ds, cn, x, t, c, Ghost(w as int), Ghost(h as int));
            s = s + v as u64;
            t = t + 1;
        }
        accs.push(s);
        j = j + 1;
    }
    // Emit rows top to bottom, sliding every column's window.
    let mut out: Vec<u16> = Vec::new();
    let mut y: usize = 0;
    while y < h
        invariant
            y <= h,
            accs@.len() == wc,
            out@.len() == ds * y,
            y < h ==> forall|j2: int| 0 <= j2 < wc ==> #[trigger] accs@[j2] as int
                == col_win_sum(si, ds as int, cn as int, j2 / (cn as int), j2 % (cn as int),
                    win_lo(y as int, r as int), win_hi(y as int, r as int, h as int)),
            forall|k: int| 0 <= k < out@.len() ==> out@[k] == gim[k],
        decreases h - y,
    {
        proof {
            assert(ds * y == (y as int) * (ds as int)) by (nonlinear_arith);
            assert(ds * (y + 1) == ds * y + ds) by (nonlinear_arith);
            assert(ds * (y + 1) <= ds * h) by (nonlinear_arith)
                requires y + 1 <= h, 0 <= ds,
            ;
        }
        let lo: usize = if y > r { y - r } else { 0 };
        let hi: usize = if r >= h - y { h - 1 } else { y + r };
        let n: usize = hi + 1 - lo;
        let mut x: usize = 0;
        while x < w
            invariant
                x <= w,
                y < h,
                lo == win_lo(y as int, r as int),
                hi == win_hi(y as int, r as int, h as int),
                n == win_count(y as int, r as int, h as int),
                accs@.len() == wc,
                out@.len() == ds * y + x * cn,
                forall|j2: int| 0 <= j2 < wc ==> #[trigger] accs@[j2] as int
                    == col_win_sum(si, ds as int, cn as int, j2 / (cn as int), j2 % (cn as int),
                        win_lo(y as int, r as int), win_hi(y as int, r as int, h as int)),
                forall|k: int| 0 <= k < out@.len() ==> out@[k] == gim[k],
            decreases w - x,
        {
            proof {
                assert(x * cn + cn == (x + 1) * cn) by (nonlinear_arith);
                assert((x + 1) * cn <= w * cn) by (nonlinear_arith)
                    requires x + 1 <= w, 0 <= cn,
                ;
                assert(0 <= x * cn) by (nonlinear_arith)
                    requires 0 <= x, 0 <= cn,
                ;
            }
            let mut c: usize = 0;
            while c < cn
                invariant
                    c <= cn,
                    x < w,
                    y < h,
                    lo == win_lo(y as int, r as int),
                    hi == win_hi(y as int, r as int, h as int),
                    n == win_count(y as int, r as int, h as int),
                    accs@.len() == wc,
                    out@.len() == ds * y + x * cn + c,
                    forall|j2: int| 0 <= j2 < wc ==> #[trigger] accs@[j2] as int
                        == col_win_sum(si, ds as int, cn as int, j2 / (cn as int), j2 % (cn as int),
                            win_lo(y as int, r as int), win_hi(y as int, r as int, h as int)),
                    forall|k: int| 0 <= k < out@.len() ==> out@[k] == gim[k],
                decreases cn - c,
            {
                let jj: usize = x * cn + c;
                let s: u64 = accs[jj];
                proof {
                    lemma_pix_decompose(ds as int, cn as int, w as int, h as int, x as int, y as int, c as int);
                    assert(s as int == col_win_sum(si, ds as int, cn as int, x as int, c as int,
                        lo as int, hi as int));
                    assert forall|u: int| lo <= u <= hi implies
                        0 <= #[trigger] sample(si, ds as int, cn as int, x as int, u, c as int) <= 65535
                    by {
                        lemma_pix_decompose(ds as int, cn as int, w as int, h as int, x as int, u, c as int);
                    }
                    lemma_col_win_sum_bounds(si, ds as int, cn as int, x as int, c as int, lo as int, hi as int, 65535);
                    lemma_rounded_mean_bounds(s as int, n as int, 65535);
                    assert((n as int) * 65535 <= 0xffff_ffff * 65535) by (nonlinear_arith)
                        requires n <= 0xffff_ffff,
                    ;
                }
                let q: u64 = (2 * s + n as u64) / (2 * n as u64);
                proof {
                    assert(out@.len() == pix_offset(ds as int, cn as int, x as int, y as int, c as int));
                    assert(gim[pix_offset(ds as int, cn as int, x as int, y as int, c as int)]
                        == box_v_pixel(si, ds as int, cn as int, h as int, r as int, x as int, y as int, c as int) as u16);
                }
                out.push(q as u16);
                c = c + 1;
            }
            x = x + 1;
        }
        // Carry the destination's stride padding through unchanged.
        let mut p: usize = wc;
        while p < ds
            invariant
                wc <= p <= ds,
                y < h,
                out@.len() == ds * y + p,
                forall|k: int| 0 <= k < out@.len() ==> out@[k] == gim[k],
                accs@.len() == wc,
                forall|j2: int| 0 <= j2 < wc ==> #[trigger] accs@[j2] as int
                    == col_win_sum(si, ds as int, cn as int, j2 / (cn as int), j2 % (cn as int),
                        win_lo(y as int, r as int), win_hi(y as int, r as int, h as int)),
            decreases ds - p,
        {
            proof {
                crate::pixel::lemma_row_block_decompose(
                    ds as int, cn as int, w as int, h as int, y as int, ds * y + p,
                );
                assert(y * ds == ds * y) by (nonlinear_arith);
            }
            let idx: usize = y * ds + p;
            let v = pad_src[idx];
            proof {
                assert(gim[out@.len() as int] == v);
            }
            out.push(v);
            p = p + 1;
        }
        // Slide every column's window one row down.
        if y + 1 < h {
            let mut j2: usize = 0;
            while j2 < wc
                invariant
                    j2 <= wc,
                    y + 1 < h,
                    accs@.len() == wc,
                    forall|j3: int| j2 <= j3 < wc ==> #[trigger] accs@[j3] as int
                        == col_win_sum(si, ds as int, cn as int, j3 / (cn as int), j3 % (cn as int),
                            win_lo(y as int, r as int), win_hi(y as int, r as int, h as int)),
                    forall|j3: int| 0 <= j3 < j2 ==> #[trigger] accs@[j3] as int
                        == col_win_sum(si, ds as int, cn as int, j3 / (cn as int), j3 % (cn as int),
                            win_lo(y + 1, r as int), win_hi(y + 1, r as int, h as int)),
                decreases wc - j2,
            {
                let x2: usize = j2 / cn;
                let c2: usize = j2 % cn;
                proof {
                    vstd::arithmetic::div_mod::lemma_fundamental_div_mod(j2 as int, cn as int);
                    assert((cn as int) * ((j2 as int) / (cn as int))
                        == ((j2 as int) / (cn as int)) * (cn as int)) by (nonlinear_arith);
                    assert((j2 as int) < (cn as int) * (w as int)) by (nonlinear_arith)
                        requires j2 < w * cn,
                    ;
                    vstd::arithmetic::div_mod::lemma_multiply_divide_lt(j2 as int, cn as int, w as int);
                }
                let mut a: u64 = accs[j2];
                let ghost lo_old = win_lo(y as int, r as int);
                let ghost hi_old = win_hi(y as int, r as int, h as int);
                proof {
                    assert forall|u: int| lo_old <= u <= hi_old implies
                        0 <= #[trigger] sample(si, ds as int, cn as int, x2 as int, u, c2 as int) <= 65535
                    by {
                        lemma_pix_decompose(ds as int, cn as int, w as int, h as int, x2 as int, u, c2 as int);
                    }
                    lemma_col_win_sum_bounds(si, ds as int, cn as int, x2 as int, c2 as int, lo_old, hi_old, 65535);
                    assert(((hi_old + 1 - lo_old) as int) * 65535 <= 0xffff_ffff * 65535) by (nonlinear_arith)
                        requires hi_old + 1 - lo_old <= 0xffff_ffff,
                    ;
                }
                if r < h - (y + 1) {
                    // The window's lower end grows onto row y + 1 + r.
                    proof {
                        lemma_pix_decompose(ds as int, cn as int, w as int, h as int, x2 as int, hi_old + 1, c2 as int);
                        lemma_col_win_sum_extend(si, ds as int, cn as int, x2 as int, c2 as int, lo_old, hi_old + 1);
                    }
                    let v = crate::pixel::sample_at16(src, ds, cn, x2, y + 1 + r, c2, Ghost(w as int), Ghost(h as int));
                    a = a + v as u64;
                }
                if y >= r {
                    // The window's upper end leaves row y - r behind.
                    let ghost hi_new = win_hi(y + 1, r as int, h as int);
                    proof {
                        assert(col_win_sum(si, ds as int, cn as int, x2 as int, c2 as int, lo_old, hi_new)
                            == sample(si, ds as int, cn as int, x2 as int, lo_old, c2 as int)
                                + col_win_sum(si, ds as int, cn as int, x2 as int, c2 as int, lo_old + 1, hi_new));
                        assert forall|u: int| lo_old + 1 <= u <= hi_new implies
                            0 <= #[trigger] sample(si, ds as int, cn as int, x2 as int, u, c2 as int) <= 65535
                        by {
                            lemma_pix_decompose(ds as int, cn as int, w as int, h as int, x2 as int, u, c2 as int);
                        }
                        lemma_col_win_sum_bounds(si, ds as int, cn as int, x2 as int, c2 as int, lo_old + 1, hi_new, 65535);
                    }
                    let v = crate::pixel::sample_at16(src, ds, cn, x2, y - r, c2, Ghost(w as int), Ghost(h as int));
                    a = a - v as u64;
                }
                accs.set(j2, a);
                j2 = j2 + 1;
            }
        }
        y = y + 1;
    }
    proof {
        assert(out@ =~= gim);
    }
    out
}

/// One complete box blur: horizontal pass, then vertical pass over its
/// result.
fn box_blur_impl16(
    src: &Vec<u16>, pad_src: &Vec<u16>, ss: usize, ds: usize, w: usize, h: usize, cn: usize,
    r: usize, workers: usize,
) -> (out: Vec<u16>)
    requires
        1 <= cn,
        w * cn <= ss,
        w * cn <= ds,
        1 <= w <= 0xffff_ffff,
        1 <= h <= 0xffff_ffff,
        r <= 0xffff_ffff,
        src@.len() == ss * h,
        pad_src@.len() == ds * h,
        ds * h <= usize::MAX,
        1 <= workers,
    ensures
        out@ == box_image16(src@, pad_src@, ss as int, ds as int, w as int, h as int, cn as int, r as int),
        out@.len() == ds * h,
{
    let transient = box_blur_horizontal_pass16(src, ss, ds, w, h, cn, r, workers);
    box_blur_vertical_pass16(&transient, pad_src, ds, w, h, cn, r)
}


/// Performs a box blur of a 16-bit image; the stride is the packed row
/// width.
pub fn box_blur_u16(
    src: &Vec<u16>, dst: &mut Vec<u16>, width: u32, height: u32, radius: u32,
    channels: FastBlurChannels, threading_policy: ThreadingPolicy,
)
    requires
        1 <= width,
        1 <= height,
        src@.len() == width * channels.channel_count() * height,
        old(dst)@.len() == width * channels.channel_count() * height,
    ensures
        final(dst)@ == box_image16(
            src@, old(dst)@,
            width * channels.channel_count(),
            width * channels.channel_count(),
            width as int, height as int, channels.channel_count(), radius as int,
        ),
{
    let cn = channels.get_channels();
    let workers = threading_policy.get_threads_count(width, height);
    let dst_len: usize = dst.len();
    proof {
        assert(width * channels.channel_count() * height <= usize::MAX);
        assert(width * channels.channel_count() <= width * channels.channel_count() * height)
            by (nonlinear_arith)
            requires 1 <= height, 0 <= width * channels.channel_count(),
        ;
    }
    let stride: usize = (width as usize) * cn;
    proof {
        assert(stride * height == width * channels.channel_count() * height) by (nonlinear_arith)
            requires stride == width * channels.channel_count(),
        ;
    }
    let out = box_blur_impl16(
        src, dst, stride, stride, width as usize, height as usize, cn, radius as usize, workers,
    );
    *dst = out;
}

/// Performs a tent blur of a 16-bit image: two box blurs in sequence.
pub fn tent_blur_u16(
    src: &Vec<u16>, dst: &mut Vec<u16>, width: u32, height: u32, radius: u32,
    channels: FastBlurChannels, threading_policy: ThreadingPolicy,
)
    requires
        1 <= width,
        1 <= height,
        src@.len() == width * channels.channel_count() * height,
        old(dst)@.len() == width * channels.channel_count() * height,
    ensures
        final(dst)@ == box_image16(
            box_image16(
                src@, old(dst)@,
                width * channels.channel_count(),
                width * channels.channel_count(),
                width as int, height as int, channels.channel_count(), radius as int,
            ),
            old(dst)@,
            width * channels.channel_count(),
            width * channels.channel_count(),
            width as int, height as int, channels.channel_count(), radius as int,
        ),
{
    let cn = channels.get_channels();
    let workers = threading_policy.get_threads_count(width, height);
    let dst_len: usize = dst.len();
    proof {
        assert(width * channels.channel_count() * height <= usize::MAX);
        assert(width * channels.channel_count() <= width * channels.channel_count() * height)
            by (nonlinear_arith)
            requires 1 <= height, 0 <= width * channels.channel_count(),
        ;
    }
    let stride: usize = (width as usize) * cn;
    proof {
        assert(stride * height == width * channels.channel_count() * height) by (nonlinear_arith)
            requires stride == width * channels.channel_count(),
        ;
    }
    let first = box_blur_impl16(
        src, dst, stride, stride, width as usize, height as usize, cn, radius as usize, workers,
    );
    let second = box_blur_impl16(
        &first, dst, stride, stride, width as usize, height as usize, cn, radius as usize,
        workers,
    );
    *dst = second;
}

/// Performs a gaussian-approximating box blur of a 16-bit image: three box
/// blurs in sequence.
pub fn gaussian_box_blur_u16(
    src: &Vec<u16>, dst: &mut Vec<u16>, width: u32, height: u32, radius: u32,
    channels: FastBlurChannels, threading_policy: ThreadingPolicy,
)
    requires
        1 <= width,
        1 <= height,
        src@.len() == width * channels.channel_count() * height,
        old(dst)@.len() == width * channels.channel_count() * height,
    ensures
        final(dst)@ == box_image16(
            box_image16(
                box_image16(
                    src@, old(dst)@,
                    width * channels.channel_count(),
                    width * channels.channel_count(),
                    width as int, height as int, channels.channel_count(), radius as int,
                ),
                old(dst)@,
                width * channels.channel_count(),
                width * channels.channel_count(),
                width as int, height as int, channels.channel_count(), radius as int,
            ),
            old(dst)@,
            width * channels.channel_count(),
            width * channels.channel_count(),
            width as int, height as int, channels.channel_count(), radius as int,
        ),
{
    let cn = channels.get_channels();
    let workers = threading_policy.get_threads_count(width, height);
    let dst_len: usize = dst.len();
    proof {
        assert(width * channels.channel_count() * height <= usize::MAX);
        assert(width * channels.channel_count() <= width * channels.channel_count() * height)
            by (nonlinear_arith)
            requires 1 <= height, 0 <= width * channels.channel_count(),
        ;
    }
    let stride: usize = (width as usize) * cn;
    proof {
        assert(stride * height == width * channels.channel_count() * height) by (nonlinear_arith)
            requires stride == width * channels.channel_count(),
        ;
    }
    let first = box_blur_impl16(
        src, dst, stride, stride, width as usize, height as usize, cn, radius as usize, workers,
    );
    let second = box_blur_impl16(
        &first, dst, stride, stride, width as usize, height as usize, cn, radius as usize,
        workers,
    );
    let third = box_blur_impl16(
        &second, dst, stride, stride, width as usize, height as usize, cn, radius as usize,
        workers,
    );
    *dst = third;
}

/// A truncated window around an in-bounds coordinate is never empty and
/// stays inside `[0, n)`.
proof fn lemma_win_in_range(x: int, r: int, n: int)
    requires
        0 <= x < n,
        0 <= r,
    ensures
        0 <= win_lo(x, r) <= x <= win_hi(x, r, n) <= n - 1,
        1 <= win_count(x, r, n),
{
}

/// The horizontal box pass maps a constant image to the same constant.
proof fn lemma_box_h_constant(src: Seq<u8>, ss: int, ds: int, w: int, h: int, cn: int, r: int, v: u8)
    requires
        1 <= cn,
        1 <= w,
        1 <= h,
        0 <= r,
        w * cn <= ss,
        w * cn <= ds,
        src.len() == ss * h,
        forall|x: int, y: int, ch: int| 0 <= x < w && 0 <= y < h && 0 <= ch < cn ==>
            #[trigger] sample(as_ints(src), ss, cn, x, y, ch) == v as int,
    ensures
        forall|x: int, y: int, ch: int| 0 <= x < w && 0 <= y < h && 0 <= ch < cn ==>
            #[trigger] sample(as_ints(box_h_image(src, ss, ds, w, h, cn, r)), ds, cn, x, y, ch)
                == v as int,
{
    let him = box_h_image(src, ss, ds, w, h, cn, r);
    assert forall|x: int, y: int, ch: int| 0 <= x < w && 0 <= y < h && 0 <= ch < cn implies
        #[trigger] sample(as_ints(him), ds, cn, x, y, ch) == v as int
    by {
        lemma_win_in_range(x, r, w);
        let lo = win_lo(x, r);
        let hi = win_hi(x, r, w);
        crate::pixel::lemma_row_win_sum_constant(as_ints(src), ss, cn, y, ch, lo, hi, v as int);
        crate::pixel::lemma_rounded_mean_exact(v as int, win_count(x, r, w));
        lemma_pix_decompose(ds, cn, w, h, x, y, ch);
        assert(box_h_pixel(as_ints(src), ss, cn, w, r, x, y, ch) == v as int);
        assert(him[pix_offset(ds, cn, x, y, ch)] == v);
    }
}

/// The vertical box pass maps a constant image to the same constant.
proof fn lemma_box_v_constant(img: Seq<u8>, dst0: Seq<u8>, ds: int, w: int, h: int, cn: int, r: int, v: u8)
    requires
        1 <= cn,
        1 <= w,
        1 <= h,
        0 <= r,
        w * cn <= ds,
        img.len() == ds * h,
        forall|x: int, y: int, ch: int| 0 <= x < w && 0 <= y < h && 0 <= ch < cn ==>
            #[trigger] sample(as_ints(img), ds, cn, x, y, ch) == v as int,
    ensures
        forall|x: int, y: int, ch: int| 0 <= x < w && 0 <= y < h && 0 <= ch < cn ==>
            #[trigger] sample(as_ints(box_v_image(img, dst0, ds, w, h, cn, r)), ds, cn, x, y, ch)
                == v as int,
{
    let vim = box_v_image(img, dst0, ds, w, h, cn, r);
    assert forall|x: int, y: int, ch: int| 0 <= x < w && 0 <= y < h && 0 <= ch < cn implies
        #[trigger] sample(as_ints(vim), ds, cn, x, y, ch) == v as int
    by {
        lemma_win_in_range(y, r, h);
        let lo = win_lo(y, r);
        let hi = win_hi(y, r, h);
        crate::pixel::lemma_col_win_sum_constant(as_ints(img), ds, cn, x, ch, lo, hi, v as int);
        crate::pixel::lemma_rounded_mean_exact(v as int, win_count(y, r, h));
        lemma_pix_decompose(ds, cn, w, h, x, y, ch);
        assert(box_v_pixel(as_ints(img), ds, cn, h, r, x, y, ch) == v as int);
        assert(vim[pix_offset(ds, cn, x, y, ch)] == v);
    }
}

/// A box blur is mean-preserving on flat input: on an image whose pixel
/// samples all hold one value, every output pixel sample holds that value,
/// whatever the radius.
pub proof fn lemma_box_constant_preserving(
    src: Seq<u8>, dst0: Seq<u8>, ss: int, ds: int, w: int, h: int, cn: int, r: int, v: u8,
)
    requires
        1 <= cn,
        1 <= w,
        1 <= h,
        0 <= r,
        w * cn <= ss,
        w * cn <= ds,
        src.len() == ss * h,
        forall|x: int, y: int, ch: int| 0 <= x < w && 0 <= y < h && 0 <= ch < cn ==>
            #[trigger] sample(as_ints(src), ss, cn, x, y, ch) == v as int,
    ensures
        forall|x: int, y: int, ch: int| 0 <= x < w && 0 <= y < h && 0 <= ch < cn ==>
            #[trigger] sample(as_ints(box_image(src, dst0, ss, ds, w, h, cn, r)), ds, cn, x, y, ch)
                == v as int,
{
    lemma_box_h_constant(src, ss, ds, w, h, cn, r, v);
    lemma_box_v_constant(box_h_image(src, ss, ds, w, h, cn, r), dst0, ds, w, h, cn, r, v);
}

} // verus!
