//! The mathematical view of interleaved pixel buffers.
//!
//! A plane of `width * height` pixels with `cn` interleaved channels and a
//! row stride of `stride` samples stores the channel `ch` of pixel `(x, y)`
//! at offset `y * stride + x * cn + ch`.  This module fixes that layout as
//! spec functions, proves that the offset decomposes uniquely back into
//! `(x, y, ch)`, and defines the windowed sums that every blur in this
//! crate is specified with.

use vstd::prelude::*;

use vstd::arithmetic::div_mod::{
    lemma_fundamental_div_mod, lemma_fundamental_div_mod_converse_div,
    lemma_fundamental_div_mod_converse_mod, lemma_multiply_divide_lt,
};
use vstd::arithmetic::mul::lemma_mul_inequality;

verus! {

/// An 8-bit buffer as a sequence of mathematical integers.
pub open spec fn as_ints(s: Seq<u8>) -> Seq<int> {
    s.map_values(|v: u8| v as int)
}

/// A 16-bit buffer as a sequence of mathematical integers.
pub open spec fn as_ints16(s: Seq<u16>) -> Seq<int> {
    s.map_values(|v: u16| v as int)
}

/// Offset of channel `ch` of pixel `(x, y)`.
pub open spec fn pix_offset(stride: int, cn: int, x: int, y: int, ch: int) -> int {
    y * stride + x * cn + ch
}

/// The sample of channel `ch` of pixel `(x, y)`.
pub open spec fn sample(img: Seq<int>, stride: int, cn: int, x: int, y: int, ch: int) -> int {
    img[pix_offset(stride, cn, x, y, ch)]
}

/// Whether offset `k` addresses a pixel sample (rather than padding that a
/// stride wider than `w * cn` leaves at the end of each row).
pub open spec fn is_pixel_pos(k: int, stride: int, cn: int, w: int, h: int) -> bool {
    0 <= k && k / stride < h && k % stride < w * cn
}

/// The offset of a pixel sample decomposes uniquely back into its row,
/// column and channel.
pub proof fn lemma_pix_decompose(stride: int, cn: int, w: int, h: int, x: int, y: int, ch: int)
    requires
        1 <= cn,
        w * cn <= stride,
        0 <= x < w,
        0 <= ch < cn,
        0 <= y < h,
    ensures
        0 <= pix_offset(stride, cn, x, y, ch) < stride * h,
        pix_offset(stride, cn, x, y, ch) / stride == y,
        pix_offset(stride, cn, x, y, ch) % stride == x * cn + ch,
        (x * cn + ch) / cn == x,
        (x * cn + ch) % cn == ch,
        is_pixel_pos(pix_offset(stride, cn, x, y, ch), stride, cn, w, h),
{
    let r1 = x * cn + ch;
    lemma_mul_inequality(x + 1, w, cn);
    assert((x + 1) * cn == x * cn + cn) by (nonlinear_arith);
    assert(0 <= x * cn) by (nonlinear_arith)
        requires 0 <= x, 1 <= cn,
    ;
    let k = pix_offset(stride, cn, x, y, ch);
    lemma_fundamental_div_mod_converse_div(k, stride, y, r1);
    lemma_fundamental_div_mod_converse_mod(k, stride, y, r1);
    lemma_fundamental_div_mod_converse_div(r1, cn, x, ch);
    lemma_fundamental_div_mod_converse_mod(r1, cn, x, ch);
    lemma_mul_inequality(y + 1, h, stride);
    assert((y + 1) * stride == y * stride + stride) by (nonlinear_arith);
    assert(h * stride == stride * h) by (nonlinear_arith);
    assert(0 <= y * stride) by (nonlinear_arith)
        requires 0 <= y, 0 <= stride,
    ;
}

/// Sum of the samples of channel `ch` in columns `lo ..= hi` of row `y`.
pub open spec fn row_win_sum(
    img: Seq<int>, stride: int, cn: int, y: int, ch: int, lo: int, hi: int,
) -> int
    decreases hi + 1 - lo,
{
    if lo > hi {
        0
    } else {
        sample(img, stride, cn, lo, y, ch) + row_win_sum(img, stride, cn, y, ch, lo + 1, hi)
    }
}

/// Sum of the samples of channel `ch` in rows `lo ..= hi` of column `x`.
pub open spec fn col_win_sum(
    img: Seq<int>, stride: int, cn: int, x: int, ch: int, lo: int, hi: int,
) -> int
    decreases hi + 1 - lo,
{
    if lo > hi {
        0
    } else {
        sample(img, stride, cn, x, lo, ch) + col_win_sum(img, stride, cn, x, ch, lo + 1, hi)
    }
}

/// Peeling the last column off a row window.
pub proof fn lemma_row_win_sum_extend(
    img: Seq<int>, stride: int, cn: int, y: int, ch: int, lo: int, hi: int,
)
    requires
        lo <= hi,
    ensures
        row_win_sum(img, stride, cn, y, ch, lo, hi)
            == row_win_sum(img, stride, cn, y, ch, lo, hi - 1)
                + sample(img, stride, cn, hi, y, ch),
    decreases hi - lo,
{
    if lo == hi {
        assert(row_win_sum(img, stride, cn, y, ch, lo + 1, hi) == 0);
        assert(row_win_sum(img, stride, cn, y, ch, lo, hi - 1) == 0);
    } else {
        lemma_row_win_sum_extend(img, stride, cn, y, ch, lo + 1, hi);
    }
}

/// Peeling the last row off a column window.
pub proof fn lemma_col_win_sum_extend(
    img: Seq<int>, stride: int, cn: int, x: int, ch: int, lo: int, hi: int,
)
    requires
        lo <= hi,
    ensures
        col_win_sum(img, stride, cn, x, ch, lo, hi)
            == col_win_sum(img, stride, cn, x, ch, lo, hi - 1)
                + sample(img, stride, cn, x, hi, ch),
    decreases hi - lo,
{
    if lo == hi {
        assert(col_win_sum(img, stride, cn, x, ch, lo + 1, hi) == 0);
        assert(col_win_sum(img, stride, cn, x, ch, lo, hi - 1) == 0);
    } else {
        lemma_col_win_sum_extend(img, stride, cn, x, ch, lo + 1, hi);
    }
}

/// A row window of samples in `[0, maxv]` sums to `[0, count * maxv]`.
pub proof fn lemma_row_win_sum_bounds(
    img: Seq<int>, stride: int, cn: int, y: int, ch: int, lo: int, hi: int, maxv: int,
)
    requires
        lo <= hi + 1,
        0 <= maxv,
        forall|t: int| lo <= t <= hi ==> 0 <= #[trigger] sample(img, stride, cn, t, y, ch) <= maxv,
    ensures
        0 <= row_win_sum(img, stride, cn, y, ch, lo, hi),
        row_win_sum(img, stride, cn, y, ch, lo, hi) <= (hi + 1 - lo) * maxv,
    decreases hi + 1 - lo,
{
    if lo > hi {
    } else {
        lemma_row_win_sum_bounds(img, stride, cn, y, ch, lo + 1, hi, maxv);
        assert((hi + 1 - lo) * maxv == maxv + (hi - lo) * maxv) by (nonlinear_arith);
    }
}

/// A column window of samples in `[0, maxv]` sums to `[0, count * maxv]`.
pub proof fn lemma_col_win_sum_bounds(
    img: Seq<int>, stride: int, cn: int, x: int, ch: int, lo: int, hi: int, maxv: int,
)
    requires
        lo <= hi + 1,
        0 <= maxv,
        forall|t: int| lo <= t <= hi ==> 0 <= #[trigger] sample(img, stride, cn, x, t, ch) <= maxv,
    ensures
        0 <= col_win_sum(img, stride, cn, x, ch, lo, hi),
        col_win_sum(img, stride, cn, x, ch, lo, hi) <= (hi + 1 - lo) * maxv,
    decreases hi + 1 - lo,
{
    if lo > hi {
    } else {
        lemma_col_win_sum_bounds(img, stride, cn, x, ch, lo + 1, hi, maxv);
        assert((hi + 1 - lo) * maxv == maxv + (hi - lo) * maxv) by (nonlinear_arith);
    }
}

/// A window of constant samples sums to the constant times the count.
pub proof fn lemma_row_win_sum_constant(
    img: Seq<int>, stride: int, cn: int, y: int, ch: int, lo: int, hi: int, v: int,
)
    requires
        forall|t: int| lo <= t <= hi ==> #[trigger] sample(img, stride, cn, t, y, ch) == v,
    ensures
        row_win_sum(img, stride, cn, y, ch, lo, hi) == if lo > hi { 0int } else { (hi + 1 - lo) * v },
    decreases hi + 1 - lo,
{
    if lo > hi {
        assert(row_win_sum(img, stride, cn, y, ch, lo, hi) == 0);
    } else {
        lemma_row_win_sum_constant(img, stride, cn, y, ch, lo + 1, hi, v);
        assert(sample(img, stride, cn, lo, y, ch) == v);
        if lo + 1 > hi {
            assert(row_win_sum(img, stride, cn, y, ch, lo + 1, hi) == 0);
        }
        assert((hi + 1 - lo) * v == v + (hi - lo) * v) by (nonlinear_arith);
    }
}

/// A window of constant samples sums to the constant times the count.
pub proof fn lemma_col_win_sum_constant(
    img: Seq<int>, stride: int, cn: int, x: int, ch: int, lo: int, hi: int, v: int,
)
    requires
        forall|t: int| lo <= t <= hi ==> #[trigger] sample(img, stride, cn, x, t, ch) == v,
    ensures
        col_win_sum(img, stride, cn, x, ch, lo, hi) == if lo > hi { 0int } else { (hi + 1 - lo) * v },
    decreases hi + 1 - lo,
{
    if lo > hi {
        assert(col_win_sum(img, stride, cn, x, ch, lo, hi) == 0);
    } else {
        lemma_col_win_sum_constant(img, stride, cn, x, ch, lo + 1, hi, v);
        assert(sample(img, stride, cn, x, lo, ch) == v);
        if lo + 1 > hi {
            assert(col_win_sum(img, stride, cn, x, ch, lo + 1, hi) == 0);
        }
        assert((hi + 1 - lo) * v == v + (hi - lo) * v) by (nonlinear_arith);
    }
}

/// Reads the sample of channel `ch` of pixel `(x, y)` from an 8-bit buffer.
pub fn sample_at(
    img: &Vec<u8>, stride: usize, cn: usize, x: usize, y: usize, ch: usize,
    Ghost(w): Ghost<int>, Ghost(h): Ghost<int>,
) -> (v: u8)
    requires
        1 <= cn,
        w * cn <= stride,
        x < w,
        ch < cn,
        y < h,
        img@.len() == stride * h,
    ensures
        v as int == sample(as_ints(img@), stride as int, cn as int, x as int, y as int, ch as int),
{
    proof {
        lemma_pix_decompose(stride as int, cn as int, w, h, x as int, y as int, ch as int);
        assert(0 <= (x as int) * (cn as int) < stride) by (nonlinear_arith)
            requires 0 <= x, 1 <= cn, (x as int) * (cn as int) + ch < stride, 0 <= ch,
        ;
        assert((y as int) * (stride as int) <= pix_offset(stride as int, cn as int, x as int, y as int, ch as int));
    }
    // Binding the length keeps the buffer's size, and with it the offset
    // arithmetic, inside the machine range.
    let total: usize = img.len();
    proof {
        assert(pix_offset(stride as int, cn as int, x as int, y as int, ch as int) < total);
    }
    let idx: usize = y * stride + x * cn + ch;
    img[idx]
}

/// Reads the sample of channel `ch` of pixel `(x, y)` from a 16-bit buffer.
pub fn sample_at16(
    img: &Vec<u16>, stride: usize, cn: usize, x: usize, y: usize, ch: usize,
    Ghost(w): Ghost<int>, Ghost(h): Ghost<int>,
) -> (v: u16)
    requires
        1 <= cn,
        w * cn <= stride,
        x < w,
        ch < cn,
        y < h,
        img@.len() == stride * h,
    ensures
        v as int == sample(as_ints16(img@), stride as int, cn as int, x as int, y as int, ch as int),
{
    proof {
        lemma_pix_decompose(stride as int, cn as int, w, h, x as int, y as int, ch as int);
        assert(0 <= (x as int) * (cn as int) < stride) by (nonlinear_arith)
            requires 0 <= x, 1 <= cn, (x as int) * (cn as int) + ch < stride, 0 <= ch,
        ;
        assert((y as int) * (stride as int) <= pix_offset(stride as int, cn as int, x as int, y as int, ch as int));
    }
    // Binding the length keeps the buffer's size, and with it the offset
    // arithmetic, inside the machine range.
    let total: usize = img.len();
    proof {
        assert(pix_offset(stride as int, cn as int, x as int, y as int, ch as int) < total);
    }
    let idx: usize = y * stride + x * cn + ch;
    img[idx]
}

/// The mean of a window sum, rounded half away from zero; the divisor is
/// the window's sample count.
pub open spec fn rounded_mean(sum: int, n: int) -> int {
    (2 * sum + n) / (2 * n)
}

/// A rounded mean of samples bounded by `maxv` is itself in `[0, maxv]`.
pub proof fn lemma_rounded_mean_bounds(sum: int, n: int, maxv: int)
    requires
        1 <= n,
        0 <= maxv,
        0 <= sum <= n * maxv,
    ensures
        0 <= rounded_mean(sum, n) <= maxv,
{
    vstd::arithmetic::div_mod::lemma_div_pos_is_pos(2 * sum + n, 2 * n);
    assert(2 * sum + n <= n * (2 * maxv + 1)) by (nonlinear_arith)
        requires sum <= n * maxv,
    ;
    vstd::arithmetic::div_mod::lemma_div_is_ordered(2 * sum + n, n * (2 * maxv + 1), 2 * n);
    assert(n * (2 * maxv + 1) == maxv * (2 * n) + n) by (nonlinear_arith);
    lemma_fundamental_div_mod_converse_div(n * (2 * maxv + 1), 2 * n, maxv, n);
}

/// A pixel offset in the row-`y` prefix of `xb` pixels lies between the
/// start of row `y` and the prefix end.
pub proof fn lemma_pix_in_row_prefix(ds: int, cn: int, y: int, x2: int, c2: int, xb: int)
    requires
        1 <= cn,
        0 <= y,
        0 <= ds,
        0 <= x2 < xb,
        0 <= c2 < cn,
    ensures
        ds * y <= pix_offset(ds, cn, x2, y, c2) < ds * y + xb * cn,
{
    lemma_mul_inequality(x2 + 1, xb, cn);
    assert((x2 + 1) * cn == x2 * cn + cn) by (nonlinear_arith);
    assert(0 <= x2 * cn) by (nonlinear_arith)
        requires 0 <= x2, 1 <= cn,
    ;
    assert(y * ds == ds * y) by (nonlinear_arith);
}

/// Any offset inside the block of row `y` is either a pixel sample, whose
/// coordinates it determines, or stride padding.
pub proof fn lemma_row_block_decompose(ds: int, cn: int, w: int, h: int, y: int, k: int)
    requires
        1 <= cn,
        1 <= w,
        w * cn <= ds,
        0 <= y < h,
        ds * y <= k < ds * (y + 1),
    ensures
        k / ds == y,
        k % ds == k - ds * y,
        k - ds * y < w * cn ==> is_pixel_pos(k, ds, cn, w, h)
            && 0 <= (k - ds * y) / cn < w
            && 0 <= (k - ds * y) % cn < cn
            && k == pix_offset(ds, cn, (k - ds * y) / cn, y, (k - ds * y) % cn),
        k - ds * y >= w * cn ==> !is_pixel_pos(k, ds, cn, w, h),
{
    assert(ds * y == y * ds) by (nonlinear_arith);
    assert(ds * (y + 1) == y * ds + ds) by (nonlinear_arith);
    let j = k - ds * y;
    lemma_fundamental_div_mod_converse_div(k, ds, y, j);
    lemma_fundamental_div_mod_converse_mod(k, ds, y, j);
    if j < w * cn {
        lemma_fundamental_div_mod(j, cn);
        let x = j / cn;
        let ch = j % cn;
        assert(cn * x == x * cn) by (nonlinear_arith);
        assert(j < cn * w) by (nonlinear_arith)
            requires j < w * cn,
        ;
        lemma_multiply_divide_lt(j, cn, w);
        assert(0 <= x) by {
            vstd::arithmetic::div_mod::lemma_div_pos_is_pos(j, cn);
        }
    }
}

/// The rounded mean of a constant window is the constant.
pub proof fn lemma_rounded_mean_exact(v: int, n: int)
    requires
        1 <= n,
        0 <= v,
    ensures
        rounded_mean(n * v, n) == v,
{
    assert(2 * (n * v) + n == v * (2 * n) + n) by (nonlinear_arith);
    lemma_fundamental_div_mod_converse_div(2 * (n * v) + n, 2 * n, v, n);
}

} // verus!
