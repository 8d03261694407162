//! Fast gaussian approximation by triple running integration.
//!
//! Each axis is swept once with a recurrence that keeps three running
//! accumulators: a difference of clamped look-ahead samples, its running
//! sum, and the running sum of that.  The emitted sample is the third
//! accumulator divided by `radius^3`, the total weight of the implied
//! piecewise-cubic window.  The vertical sweep runs first, the
//! horizontal sweep over its result; columns (and rows) are independent,
//! so the result does not depend on how workers divide the plane.

use vstd::prelude::*;

use crate::border::clamp_index;
use crate::pixel::{as_ints, as_ints16, is_pixel_pos, lemma_pix_decompose, pix_offset, sample};
use crate::{FastBlurChannels, ThreadingPolicy};

verus! {

/// The clamped look-ahead read of a sweep: the sample one and a half
/// radii ahead of the accumulator front, clamped to the extent.
pub open spec fn fgn_read(f: spec_fn(int) -> int, r: int, n: int, t: int) -> int {
    f(clamp_index(t + (3 * r) / 2, n))
}

/// The correction applied to the difference accumulator at step `y`,
/// built from reads the sweep made up to three radii earlier.
pub open spec fn fgn_delta(f: spec_fn(int) -> int, r: int, n: int, y: int) -> int {
    if y >= 0 {
        3 * (fgn_read(f, r, n, y - 2 * r) - fgn_read(f, r, n, y - r)) - fgn_read(f, r, n, y - 3 * r)
    } else if y + r >= 0 {
        3 * (fgn_read(f, r, n, y - 2 * r) - fgn_read(f, r, n, y - r))
    } else if y + 2 * r >= 0 {
        -3 * fgn_read(f, r, n, y - r)
    } else {
        0
    }
}

/// The three accumulators after completing step `y`; the sweep starts
/// three radii before the extent with all of them zero.
pub open spec fn fgn_state(f: spec_fn(int) -> int, r: int, n: int, y: int) -> (int, int, int)
    decreases y + 3 * r + 1,
{
    if y < -3 * r || r < 1 {
        (0, 0, 0)
    } else {
        let prev = fgn_state(f, r, n, y - 1);
        let dif = prev.0 + fgn_delta(f, r, n, y) + fgn_read(f, r, n, y);
        let der = prev.1 + dif;
        let sum = prev.2 + der;
        (dif, der, sum)
    }
}

/// The sample stored at step `y`: the third accumulator before the
/// step's own update, divided by `radius^3` and reduced to storage —
/// negative quotients and quotients beyond the storage maximum both
/// become zero.
pub open spec fn fgn_store(sum: int, r3: int, maxv: int) -> int {
    let q = if sum <= 0 {
        0
    } else {
        sum / r3
    };
    if q > maxv {
        0
    } else {
        q
    }
}

/// The output sample of a sweep at position `y`.
pub open spec fn fgn_out(f: spec_fn(int) -> int, r: int, n: int, maxv: int, y: int) -> int {
    fgn_store(fgn_state(f, r, n, y - 1).2, r * r * r, maxv)
}

/// The vertical sweep over a plane: every column is swept independently;
/// stride padding is unchanged.
pub open spec fn fgn_v_image(src: Seq<u8>, stride: int, w: int, h: int, cn: int, r: int) -> Seq<u8> {
    Seq::new(
        (stride * h) as nat,
        |k: int| if is_pixel_pos(k, stride, cn, w, h) {
            fgn_out(
                |t: int| sample(as_ints(src), stride, cn, (k % stride) / cn, t, (k % stride) % cn),
                r, h, 255, k / stride,
            ) as u8
        } else {
            src[k]
        },
    )
}

/// The horizontal sweep over a plane: every row is swept independently.
pub open spec fn fgn_h_image(src: Seq<u8>, stride: int, w: int, h: int, cn: int, r: int) -> Seq<u8> {
    Seq::new(
        (stride * h) as nat,
        |k: int| if is_pixel_pos(k, stride, cn, w, h) {
            fgn_out(
                |t: int| sample(as_ints(src), stride, cn, t, k / stride, (k % stride) % cn),
                r, w, 255, (k % stride) / cn,
            ) as u8
        } else {
            src[k]
        },
    )
}

/// A look-ahead read as the recurrence consumes it: zero before the
/// sweep's first step, the clamped sample afterwards.
pub open spec fn fgn_bz(f: spec_fn(int) -> int, r: int, n: int, t: int) -> int {
    if t < -3 * r {
        0
    } else {
        fgn_read(f, r, n, t)
    }
}

/// Running total of the reads consumed up to step `u`.
pub open spec fn fgn_p1(f: spec_fn(int) -> int, r: int, n: int, u: int) -> int
    decreases u + 3 * r + 1,
{
    if u < -3 * r {
        0
    } else {
        fgn_p1(f, r, n, u - 1) + fgn_bz(f, r, n, u)
    }
}

/// Sum of the last `r` consumed reads.
pub open spec fn fgn_w1(f: spec_fn(int) -> int, r: int, n: int, u: int) -> int {
    fgn_p1(f, r, n, u) - fgn_p1(f, r, n, u - r)
}

/// Running total of the first-level window sums.
pub open spec fn fgn_v1(f: spec_fn(int) -> int, r: int, n: int, u: int) -> int
    decreases u + 3 * r + 1,
{
    if u < -3 * r {
        0
    } else {
        fgn_v1(f, r, n, u - 1) + fgn_w1(f, r, n, u)
    }
}

/// Window of `r` first-level window sums.
pub open spec fn fgn_w2(f: spec_fn(int) -> int, r: int, n: int, u: int) -> int {
    fgn_v1(f, r, n, u) - fgn_v1(f, r, n, u - r)
}

/// Running total of the second-level window sums.
pub open spec fn fgn_v2(f: spec_fn(int) -> int, r: int, n: int, u: int) -> int
    decreases u + 3 * r + 1,
{
    if u < -3 * r {
        0
    } else {
        fgn_v2(f, r, n, u - 1) + fgn_w2(f, r, n, u)
    }
}

/// Window of `r` second-level window sums: the triple box window that
/// the third accumulator holds.
pub open spec fn fgn_w3(f: spec_fn(int) -> int, r: int, n: int, u: int) -> int {
    fgn_v2(f, r, n, u) - fgn_v2(f, r, n, u - r)
}

/// The running-total recursions hold at every step, also before the
/// sweep starts.
proof fn lemma_fgn_p1_unfold(f: spec_fn(int) -> int, r: int, n: int, u: int)
    requires
        1 <= r,
    ensures
        fgn_p1(f, r, n, u) == fgn_p1(f, r, n, u - 1) + fgn_bz(f, r, n, u),
{
    if u < -3 * r {
        assert(fgn_p1(f, r, n, u) == 0);
        assert(fgn_p1(f, r, n, u - 1) == 0);
    }
}

proof fn lemma_fgn_v1_unfold(f: spec_fn(int) -> int, r: int, n: int, u: int)
    requires
        1 <= r,
    ensures
        fgn_v1(f, r, n, u) == fgn_v1(f, r, n, u - 1) + fgn_w1(f, r, n, u),
{
    if u < -3 * r {
        assert(fgn_v1(f, r, n, u) == 0);
        assert(fgn_v1(f, r, n, u - 1) == 0);
        assert(fgn_p1(f, r, n, u) == 0);
        assert(fgn_p1(f, r, n, u - r) == 0);
    }
}

proof fn lemma_fgn_v2_unfold(f: spec_fn(int) -> int, r: int, n: int, u: int)
    requires
        1 <= r,
    ensures
        fgn_v2(f, r, n, u) == fgn_v2(f, r, n, u - 1) + fgn_w2(f, r, n, u),
{
    if u < -3 * r {
        assert(fgn_v2(f, r, n, u) == 0);
        assert(fgn_v2(f, r, n, u - 1) == 0);
        assert(fgn_v1(f, r, n, u) == 0);
        assert(fgn_v1(f, r, n, u - r) == 0);
    }
}

/// The accumulators are window combinations: the first is a second
/// difference of first-level windows, the second a first difference of
/// second-level windows, and the third is exactly the triple box window.
proof fn lemma_fgn_state_windows(f: spec_fn(int) -> int, r: int, n: int, y: int)
    requires
        1 <= r,
    ensures
        fgn_state(f, r, n, y).0 == fgn_w1(f, r, n, y) - 2 * fgn_w1(f, r, n, y - r)
            + fgn_w1(f, r, n, y - 2 * r),
        fgn_state(f, r, n, y).1 == fgn_w2(f, r, n, y) - fgn_w2(f, r, n, y - r),
        fgn_state(f, r, n, y).2 == fgn_w3(f, r, n, y),
    decreases y + 3 * r + 1,
{
    if y < -3 * r {
        assert(fgn_p1(f, r, n, y) == 0);
        assert(fgn_p1(f, r, n, y - r) == 0);
        assert(fgn_p1(f, r, n, y - 2 * r) == 0);
        assert(fgn_p1(f, r, n, y - 3 * r) == 0);
        assert(fgn_v1(f, r, n, y) == 0);
        assert(fgn_v1(f, r, n, y - r) == 0);
        assert(fgn_v1(f, r, n, y - 2 * r) == 0);
        assert(fgn_v2(f, r, n, y) == 0);
        assert(fgn_v2(f, r, n, y - r) == 0);
    } else {
        lemma_fgn_state_windows(f, r, n, y - 1);
        lemma_fgn_p1_unfold(f, r, n, y);
        lemma_fgn_p1_unfold(f, r, n, y - r);
        lemma_fgn_p1_unfold(f, r, n, y - 2 * r);
        lemma_fgn_p1_unfold(f, r, n, y - 3 * r);
        lemma_fgn_v1_unfold(f, r, n, y);
        lemma_fgn_v1_unfold(f, r, n, y - r);
        lemma_fgn_v2_unfold(f, r, n, y);
        // The step of each window combination is a guarded-read
        // combination, and the recurrence's warm-up branches drop exactly
        // the reads whose guard is zero.
        assert(fgn_read(f, r, n, y) == fgn_bz(f, r, n, y));
        if y >= 0 {
        } else if y + r >= 0 {
            assert(fgn_bz(f, r, n, y - 3 * r) == 0);
        } else if y + 2 * r >= 0 {
            assert(fgn_bz(f, r, n, y - 3 * r) == 0);
            assert(fgn_bz(f, r, n, y - 2 * r) == 0);
        } else {
            assert(fgn_bz(f, r, n, y - 3 * r) == 0);
            assert(fgn_bz(f, r, n, y - 2 * r) == 0);
            assert(fgn_bz(f, r, n, y - r) == 0);
        }
    }
}

/// A window of consumed reads over samples in `[0, m]` sums within
/// `[0, len * m]`.
proof fn lemma_fgn_p1_window(f: spec_fn(int) -> int, r: int, n: int, u: int, len: int, m: int)
    requires
        1 <= r,
        1 <= n,
        0 <= len,
        0 <= m,
        forall|t: int| 0 <= t < n ==> 0 <= #[trigger] f(t) <= m,
    ensures
        0 <= fgn_p1(f, r, n, u) - fgn_p1(f, r, n, u - len) <= len * m,
    decreases len,
{
    if len > 0 {
        lemma_fgn_p1_window(f, r, n, u, len - 1, m);
        lemma_fgn_p1_unfold(f, r, n, u - len + 1);
        let t0 = u - len + 1;
        assert(0 <= fgn_bz(f, r, n, t0) <= m) by {
            if t0 >= -3 * r {
                let c = clamp_index(t0 + (3 * r) / 2, n);
                assert(0 <= c < n);
                assert(0 <= f(c) <= m);
            }
        }
        assert(len * m == (len - 1) * m + m) by (nonlinear_arith);
    }
}

/// A window of first-level window sums stays within `[0, len * r * m]`.
proof fn lemma_fgn_v1_window(f: spec_fn(int) -> int, r: int, n: int, u: int, len: int, m: int)
    requires
        1 <= r,
        1 <= n,
        0 <= len,
        0 <= m,
        forall|t: int| 0 <= t < n ==> 0 <= #[trigger] f(t) <= m,
    ensures
        0 <= fgn_v1(f, r, n, u) - fgn_v1(f, r, n, u - len) <= len * (r * m),
    decreases len,
{
    if len > 0 {
        lemma_fgn_v1_window(f, r, n, u, len - 1, m);
        lemma_fgn_v1_unfold(f, r, n, u - len + 1);
        lemma_fgn_p1_window(f, r, n, u - len + 1, r, m);
        assert(len * (r * m) == (len - 1) * (r * m) + r * m) by (nonlinear_arith);
    }
}

/// A window of second-level window sums stays within
/// `[0, len * r * r * m]`.
proof fn lemma_fgn_v2_window(f: spec_fn(int) -> int, r: int, n: int, u: int, len: int, m: int)
    requires
        1 <= r,
        1 <= n,
        0 <= len,
        0 <= m,
        forall|t: int| 0 <= t < n ==> 0 <= #[trigger] f(t) <= m,
    ensures
        0 <= fgn_v2(f, r, n, u) - fgn_v2(f, r, n, u - len) <= len * (r * (r * m)),
    decreases len,
{
    if len > 0 {
        lemma_fgn_v2_window(f, r, n, u, len - 1, m);
        lemma_fgn_v2_unfold(f, r, n, u - len + 1);
        lemma_fgn_v1_window(f, r, n, u - len + 1, r, m);
        assert(len * (r * (r * m)) == (len - 1) * (r * (r * m)) + r * (r * m))
            by (nonlinear_arith);
    }
}

/// The accumulators are bounded by the radius alone, whatever the
/// extent: the first within `2·r·m`, the second within `r²·m`, and the
/// third — the triple box window itself — within `[0, r³·m]`.
pub proof fn lemma_fgn_state_bounds(f: spec_fn(int) -> int, r: int, n: int, y: int, m: int)
    requires
        1 <= r,
        1 <= n,
        0 <= m,
        forall|t: int| 0 <= t < n ==> 0 <= #[trigger] f(t) <= m,
    ensures
        ({
            let s = fgn_state(f, r, n, y);
            &&& -(2 * r * m) <= s.0 <= 2 * r * m
            &&& -(r * r * m) <= s.1 <= r * r * m
            &&& 0 <= s.2 <= r * r * r * m
        }),
{
    lemma_fgn_state_windows(f, r, n, y);
    lemma_fgn_p1_window(f, r, n, y, r, m);
    lemma_fgn_p1_window(f, r, n, y - r, r, m);
    lemma_fgn_p1_window(f, r, n, y - 2 * r, r, m);
    lemma_fgn_v1_window(f, r, n, y, r, m);
    lemma_fgn_v1_window(f, r, n, y - r, r, m);
    lemma_fgn_v2_window(f, r, n, y, r, m);
    assert(r * (r * m) == r * r * m) by (nonlinear_arith);
    assert(r * (r * (r * m)) == r * r * r * m) by (nonlinear_arith);
    assert(2 * r * m == r * m + r * m) by (nonlinear_arith);
}

/// The column sampler of a plane.
pub open spec fn col_of(src: Seq<int>, stride: int, cn: int, j: int) -> spec_fn(int) -> int {
    |t: int| sample(src, stride, cn, j / cn, t, j % cn)
}

/// Whether slot `j`'s accumulators hold the sweep state after step `y`.
pub open spec fn col_state_ok(
    difs: Seq<i64>, ders: Seq<i64>, sums: Seq<i64>, si: Seq<int>, stride: int, cn: int,
    r: int, h: int, y: int, j: int,
) -> bool {
    &&& difs[j] == fgn_state(col_of(si, stride, cn, j), r, h, y).0
    &&& ders[j] == fgn_state(col_of(si, stride, cn, j), r, h, y).1
    &&& sums[j] == fgn_state(col_of(si, stride, cn, j), r, h, y).2
}

/// The row sampler of a plane for row `y` and channel `c`.
pub open spec fn row_of(src: Seq<int>, stride: int, cn: int, y: int, c: int) -> spec_fn(int) -> int {
    |t: int| sample(src, stride, cn, t, y, c)
}

/// Whether channel `c`'s accumulators hold the row sweep state after
/// step `x`.
pub open spec fn row_state_ok(
    difs: Seq<i64>, ders: Seq<i64>, sums: Seq<i64>, si: Seq<int>, stride: int, cn: int,
    r: int, w: int, y: int, x: int, c: int,
) -> bool {
    &&& difs[c] == fgn_state(row_of(si, stride, cn, y, c), r, w, x).0
    &&& ders[c] == fgn_state(row_of(si, stride, cn, y, c), r, w, x).1
    &&& sums[c] == fgn_state(row_of(si, stride, cn, y, c), r, w, x).2
}

/// Reduces a finished accumulator to a storage sample.
fn fgn_store_exec(sum: i64, r3: i64) -> (v: u8)
    requires
        1 <= r3,
    ensures
        v as int == fgn_store(sum as int, r3 as int, 255),
{
    if sum <= 0 {
        0
    } else {
        let q: u64 = (sum as u64) / (r3 as u64);
        if q > 255 {
            0
        } else {
            q as u8
        }
    }
}

/// The clamped look-ahead read along a column.
fn fgn_read_col(
    src: &Vec<u8>, stride: usize, cn: usize, w: usize, h: usize, x: usize, ch: usize, r: usize,
    t: i64,
) -> (v: u8)
    requires
        1 <= cn,
        w * cn <= stride,
        x < w,
        ch < cn,
        1 <= h <= 0xffff_ffff,
        src@.len() == stride * h,
        r <= 0xffff,
        -0x1_0000_0000 <= t <= 0x1_0000_0000,
    ensures
        v as int == fgn_read(
            col_of(as_ints(src@), stride as int, cn as int, (x * cn + ch) as int),
            r as int, h as int, t as int,
        ),
{
    proof {
        lemma_pix_decompose(stride as int, cn as int, w as int, h as int, x as int, 0, ch as int);
    }
    let shift: usize = 3 * r / 2;
    let pos: i64 = t + shift as i64;
    let yi: usize = if pos < 0 {
        0
    } else if pos >= h as i64 {
        h - 1
    } else {
        pos as usize
    };
    proof {
        assert(yi as int == clamp_index(t as int + (3 * (r as int)) / 2, h as int));
    }
    crate::pixel::sample_at(src, stride, cn, x, yi, ch, Ghost(w as int), Ghost(h as int))
}

/// The vertical sweep: all columns advance together, rows are emitted in
/// order once the warm-up steps before the plane are done.
#[verifier::loop_isolation(false)]
#[verifier::rlimit(100)]
#[verifier::spinoff_prover]
fn fgn_vertical_pass(
    src: &Vec<u8>, stride: usize, w: usize, h: usize, cn: usize, r: usize,
) -> (out: Vec<u8>)
    requires
        1 <= cn,
        w * cn <= stride,
        1 <= w <= 0xffff_ffff,
        1 <= h <= 0xffff_ffff,
        1 <= r <= 212,
        src@.len() == stride * h,
    ensures
        out@ == fgn_v_image(src@, stride as int, w as int, h as int, cn as int, r as int),
{
    let ghost si = as_ints(src@);
    let ghost gim = fgn_v_image(src@, stride as int, w as int, h as int, cn as int, r as int);
    let total: usize = src.len();
    proof {
        assert(w * cn <= w * cn * h && w * cn * h <= stride * h) by (nonlinear_arith)
            requires 1 <= h, 0 <= w * cn, w * cn <= stride,
        ;
    }
    let wcn: usize = w * cn;
    proof {
        assert(1 <= (r as int) * (r as int) && (r as int) * (r as int) <= 44944
            && 1 <= (r as int) * (r as int) * (r as int)
            && (r as int) * (r as int) * (r as int) <= 9528128) by (nonlinear_arith)
            requires 1 <= r <= 212,
        ;
    }
    let r3: i64 = ((r * r) * r) as i64;
    let mut difs: Vec<i64> = Vec::new();
    let mut ders: Vec<i64> = Vec::new();
    let mut sums: Vec<i64> = Vec::new();
    let mut j0: usize = 0;
    while j0 < wcn
        invariant
            j0 <= wcn,
            difs@.len() == j0 && ders@.len() == j0 && sums@.len() == j0,
            forall|j: int| 0 <= j < j0 ==> (#[trigger] difs@[j]) == 0 && ders@[j] == 0
                && sums@[j] == 0,
        decreases wcn - j0,
    {
        difs.push(0);
        ders.push(0);
        sums.push(0);
        j0 = j0 + 1;
    }
    let mut out: Vec<u8> = Vec::new();
    let mut yy: i64 = -3 * (r as i64);
    while yy < h as i64
        invariant
            -3 * (r as i64) <= yy <= h as i64,
            difs@.len() == wcn && ders@.len() == wcn && sums@.len() == wcn,
            out@.len() == stride * (if yy < 0 { 0int } else { yy as int }),
            forall|j: int| 0 <= j < wcn ==> #[trigger] col_state_ok(difs@, ders@, sums@, si, stride as int, cn as int, r as int, h as int, yy - 1, j),
            forall|k: int| 0 <= k < out@.len() ==> out@[k] == gim[k],
        decreases h as i64 - yy,
    {
        if yy >= 0 {
            proof {
                assert forall|j: int| 0 <= j < wcn implies #[trigger] sums@[j]
                    == fgn_state(col_of(si, stride as int, cn as int, j), r as int, h as int,
                        (yy as usize) - 1).2
                by {
                    assert(col_state_ok(difs@, ders@, sums@, si, stride as int, cn as int,
                        r as int, h as int, yy - 1, j));
                }
            }
            fgn_emit_row(src, &mut out, &sums, stride, w, h, cn, r, r3, yy as usize,
                Ghost(si), Ghost(gim));
        }
        // Advance every column's accumulators through step yy.
        let mut j: usize = 0;
        while j < wcn
            invariant
                j <= wcn,
                -3 * (r as i64) <= yy < h as i64,
                difs@.len() == wcn && ders@.len() == wcn && sums@.len() == wcn,
                forall|j2: int| j <= j2 < wcn ==> #[trigger] col_state_ok(difs@, ders@, sums@, si, stride as int, cn as int, r as int, h as int, yy - 1, j2),
                forall|j2: int| 0 <= j2 < j ==> #[trigger] col_state_ok(difs@, ders@, sums@, si, stride as int, cn as int, r as int, h as int, yy as int, j2),
            decreases wcn - j,
        {
            let ghost difs0 = difs@;
            let ghost ders0 = ders@;
            let ghost sums0 = sums@;
            let x: usize = j / cn;
            let c: usize = j % cn;
            proof {
                vstd::arithmetic::div_mod::lemma_fundamental_div_mod(j as int, cn as int);
                assert((cn as int) * ((j as int) / (cn as int))
                    == ((j as int) / (cn as int)) * (cn as int)) by (nonlinear_arith);
                assert((j as int) < (cn as int) * (w as int)) by (nonlinear_arith)
                    requires j < w * cn,
                ;
                vstd::arithmetic::div_mod::lemma_multiply_divide_lt(j as int, cn as int, w as int);
            }
            let ghost f = col_of(si, stride as int, cn as int, j as int);
            proof {
                assert forall|t: int| 0 <= t < h implies 0 <= #[trigger] f(t) <= 255 by {
                    lemma_pix_decompose(stride as int, cn as int, w as int, h as int,
                        x as int, t, c as int);
                }
                lemma_fgn_state_bounds(f, r as int, h as int, yy - 1, 255);
                lemma_fgn_state_bounds(f, r as int, h as int, yy as int, 255);
                assert(2 * (r as int) * 255 <= 0x1000_0000
                    && (r as int) * (r as int) * 255 <= 0x10_0000_0000
                    && (r as int) * (r as int) * (r as int) * 255 <= 0x10_0000_0000_0000)
                    by (nonlinear_arith)
                    requires 1 <= r <= 212,
                ;
                assert(col_state_ok(difs@, ders@, sums@, si, stride as int, cn as int,
                    r as int, h as int, yy - 1, j as int));
            }
            let b_fresh = fgn_read_col(src, stride, cn, w, h, x, c, r, yy);
            let mut delta: i64 = 0;
            if yy >= 0 {
                let b1 = fgn_read_col(src, stride, cn, w, h, x, c, r, yy - 2 * (r as i64));
                let b2 = fgn_read_col(src, stride, cn, w, h, x, c, r, yy - (r as i64));
                let b3 = fgn_read_col(src, stride, cn, w, h, x, c, r, yy - 3 * (r as i64));
                delta = 3 * (b1 as i64 - b2 as i64) - b3 as i64;
            } else if yy + (r as i64) >= 0 {
                let b1 = fgn_read_col(src, stride, cn, w, h, x, c, r, yy - 2 * (r as i64));
                let b2 = fgn_read_col(src, stride, cn, w, h, x, c, r, yy - (r as i64));
                delta = 3 * (b1 as i64 - b2 as i64);
            } else if yy + 2 * (r as i64) >= 0 {
                let b2 = fgn_read_col(src, stride, cn, w, h, x, c, r, yy - (r as i64));
                delta = -3 * (b2 as i64);
            }
            proof {
                assert(delta == fgn_delta(f, r as int, h as int, yy as int));
                assert(col_of(si, stride as int, cn as int, (x * cn + c) as int)
                    == col_of(si, stride as int, cn as int, j as int));
            }
            let dif = difs[j] + delta + b_fresh as i64;
            let der = ders[j] + dif;
            let sum = sums[j] + der;
            proof {
                let s_prev = fgn_state(f, r as int, h as int, yy - 1);
                let s_new = fgn_state(f, r as int, h as int, yy as int);
                assert(col_state_ok(difs@, ders@, sums@, si, stride as int, cn as int,
                    r as int, h as int, yy - 1, j as int));
                assert(difs@[j as int] == s_prev.0 && ders@[j as int] == s_prev.1
                    && sums@[j as int] == s_prev.2);
                assert(b_fresh as int == fgn_read(f, r as int, h as int, yy as int));
                assert(s_new.0 == s_prev.0 + fgn_delta(f, r as int, h as int, yy as int)
                    + fgn_read(f, r as int, h as int, yy as int));
                assert(dif == s_new.0 && der == s_new.1 && sum == s_new.2);
            }
            difs.set(j, dif);
            ders.set(j, der);
            sums.set(j, sum);
            proof {
                assert forall|j2: int| j + 1 <= j2 < wcn implies #[trigger] col_state_ok(difs@,
                    ders@, sums@, si, stride as int, cn as int, r as int, h as int, yy - 1, j2,
                ) by {
                    assert(col_state_ok(difs0, ders0, sums0, si, stride as int, cn as int,
                        r as int, h as int, yy - 1, j2));
                    assert(difs@[j2] == difs0[j2] && ders@[j2] == ders0[j2]
                        && sums@[j2] == sums0[j2]);
                }
                assert forall|j2: int| 0 <= j2 < j + 1 implies #[trigger] col_state_ok(difs@,
                    ders@, sums@, si, stride as int, cn as int, r as int, h as int, yy as int, j2,
                ) by {
                    if j2 == j as int {
                        assert(col_of(si, stride as int, cn as int, j2) == f);
                        assert(difs@[j2] == dif && ders@[j2] == der && sums@[j2] == sum);
                    } else {
                        assert(col_state_ok(difs0, ders0, sums0, si, stride as int, cn as int,
                            r as int, h as int, yy as int, j2));
                        assert(difs@[j2] == difs0[j2] && ders@[j2] == ders0[j2]
                            && sums@[j2] == sums0[j2]);
                    }
                }
            }
            j = j + 1;
        }
        yy = yy + 1;
    }
    proof {
        assert(out@.len() == stride * h);
        assert(out@ =~= gim);
    }
    out
}


/// Emits one output row of the vertical sweep from the current
/// accumulators.
#[verifier::loop_isolation(false)]
#[verifier::rlimit(100)]
#[verifier::spinoff_prover]
fn fgn_emit_row(
    src: &Vec<u8>, out: &mut Vec<u8>, sums: &Vec<i64>, stride: usize, w: usize, h: usize,
    cn: usize, r: usize, r3: i64, y: usize, Ghost(si): Ghost<Seq<int>>,
    Ghost(gim): Ghost<Seq<u8>>,
)
    requires
        1 <= cn,
        w * cn <= stride,
        1 <= w <= 0xffff_ffff,
        1 <= h <= 0xffff_ffff,
        1 <= r <= 212,
        src@.len() == stride * h,
        y < h,
        si == as_ints(src@),
        gim == fgn_v_image(src@, stride as int, w as int, h as int, cn as int, r as int),
        r3 == (r as int) * (r as int) * (r as int),
        1 <= r3,
        sums@.len() == w * cn,
        forall|j: int| 0 <= j < w * cn ==> #[trigger] sums@[j]
            == fgn_state(col_of(si, stride as int, cn as int, j), r as int, h as int,
                y - 1).2,
        old(out)@.len() == stride * y,
    ensures
        final(out)@.len() == stride * (y + 1),
        forall|k: int| 0 <= k < stride * y ==> final(out)@[k] == old(out)@[k],
        forall|k: int| stride * y <= k < stride * (y + 1) ==> final(out)@[k] == gim[k],
{
    let total: usize = src.len();
    proof {
        assert(stride * (y + 1) == stride * y + stride) by (nonlinear_arith);
        assert(stride * (y + 1) <= stride * h) by (nonlinear_arith)
            requires y + 1 <= h, 0 <= stride,
        ;
        assert(stride * y == (y as int) * (stride as int)) by (nonlinear_arith);
        assert(stride * y >= 0) by (nonlinear_arith)
            requires 0 <= stride, 0 <= y,
        ;
    }
    let mut x: usize = 0;
    while x < w
        invariant
            x <= w,
            out@.len() == stride * y + x * cn,
            forall|k: int| 0 <= k < stride * y ==> out@[k] == old(out)@[k],
            forall|k: int| stride * y <= k < out@.len() ==> out@[k] == gim[k],
        decreases w - x,
    {
        proof {
            assert(x * cn + cn == (x + 1) * cn) by (nonlinear_arith);
            assert((x + 1) * cn <= w * cn) by (nonlinear_arith)
                requires x + 1 <= w, 0 <= cn,
            ;
            assert(0 <= x * cn) by (nonlinear_arith)
                requires 0 <= x, 0 <= cn,
            ;
        }
        let mut c: usize = 0;
        while c < cn
            invariant
                c <= cn,
                x < w,
                out@.len() == stride * y + x * cn + c,
                forall|k: int| 0 <= k < stride * y ==> out@[k] == old(out)@[k],
                forall|k: int| stride * y <= k < out@.len() ==> out@[k] == gim[k],
            decreases cn - c,
        {
            let jj: usize = x * cn + c;
            let v = fgn_store_exec(sums[jj], r3);
            proof {
                lemma_pix_decompose(stride as int, cn as int, w as int, h as int,
                    x as int, y as int, c as int);
                let k = pix_offset(stride as int, cn as int, x as int, y as int, c as int);
                assert(out@.len() == k);
                assert((jj as int) / (cn as int) == x as int
                    && (jj as int) % (cn as int) == c as int);
                assert(col_of(si, stride as int, cn as int, jj as int)
                    =~= (|t: int| sample(si, stride as int, cn as int,
                        (k % (stride as int)) / (cn as int), t,
                        (k % (stride as int)) % (cn as int))));
                assert(gim[k] == v);
            }
            out.push(v);
            c = c + 1;
        }
        x = x + 1;
    }
    let mut pj: usize = w * cn;
    while pj < stride
        invariant
            w * cn <= pj <= stride,
            out@.len() == stride * y + pj,
            forall|k: int| 0 <= k < stride * y ==> out@[k] == old(out)@[k],
            forall|k: int| stride * y <= k < out@.len() ==> out@[k] == gim[k],
        decreases stride - pj,
    {
        proof {
            crate::pixel::lemma_row_block_decompose(stride as int, cn as int, w as int,
                h as int, y as int, stride * y + pj);
            assert(y * stride == stride * y) by (nonlinear_arith);
        }
        let idx: usize = y * stride + pj;
        let v = src[idx];
        proof {
            assert(gim[out@.len() as int] == v);
        }
        out.push(v);
        pj = pj + 1;
    }
}

/// The clamped look-ahead read along a row.
fn fgn_read_row(
    src: &Vec<u8>, stride: usize, cn: usize, w: usize, h: usize, y: usize, ch: usize, r: usize,
    t: i64,
) -> (v: u8)
    requires
        1 <= cn,
        w * cn <= stride,
        y < h,
        ch < cn,
        1 <= w <= 0xffff_ffff,
        src@.len() == stride * h,
        r <= 0xffff,
        -0x1_0000_0000 <= t <= 0x1_0000_0000,
    ensures
        v as int == fgn_read(
            row_of(as_ints(src@), stride as int, cn as int, y as int, ch as int),
            r as int, w as int, t as int,
        ),
{
    proof {
        lemma_pix_decompose(stride as int, cn as int, w as int, h as int, 0, y as int, ch as int);
    }
    let shift: usize = 3 * r / 2;
    let pos: i64 = t + shift as i64;
    let xi: usize = if pos < 0 {
        0
    } else if pos >= w as i64 {
        w - 1
    } else {
        pos as usize
    };
    proof {
        assert(xi as int == clamp_index(t as int + (3 * (r as int)) / 2, w as int));
    }
    crate::pixel::sample_at(src, stride, cn, xi, y, ch, Ghost(w as int), Ghost(h as int))
}

/// The horizontal sweep: each row is swept left to right with one set of
/// accumulators per channel.
#[verifier::loop_isolation(false)]
#[verifier::rlimit(100)]
#[verifier::spinoff_prover]
fn fgn_horizontal_pass(
    src: &Vec<u8>, stride: usize, w: usize, h: usize, cn: usize, r: usize,
) -> (out: Vec<u8>)
    requires
        1 <= cn,
        cn <= 4,
        w * cn <= stride,
        1 <= w <= 0xffff_ffff,
        1 <= h <= 0xffff_ffff,
        1 <= r <= 212,
        src@.len() == stride * h,
    ensures
        out@ == fgn_h_image(src@, stride as int, w as int, h as int, cn as int, r as int),
{
    let ghost si = as_ints(src@);
    let ghost gim = fgn_h_image(src@, stride as int, w as int, h as int, cn as int, r as int);
    let total: usize = src.len();
    proof {
        assert(w * cn <= w * cn * h && w * cn * h <= stride * h) by (nonlinear_arith)
            requires 1 <= h, 0 <= w * cn, w * cn <= stride,
        ;
        assert(1 <= (r as int) * (r as int) && (r as int) * (r as int) <= 44944
            && 1 <= (r as int) * (r as int) * (r as int)
            && (r as int) * (r as int) * (r as int) <= 9528128) by (nonlinear_arith)
            requires 1 <= r <= 212,
        ;
    }
    let r3: i64 = ((r * r) * r) as i64;
    let mut out: Vec<u8> = Vec::new();
    let mut y: usize = 0;
    while y < h
        invariant
            y <= h,
            out@.len() == stride * y,
            forall|k: int| 0 <= k < out@.len() ==> out@[k] == gim[k],
        decreases h - y,
    {
        proof {
            assert(stride * (y + 1) == stride * y + stride) by (nonlinear_arith);
            assert(stride * (y + 1) <= stride * h) by (nonlinear_arith)
                requires y + 1 <= h, 0 <= stride,
            ;
            assert(stride * y == (y as int) * (stride as int)) by (nonlinear_arith);
        }
        let mut difs: Vec<i64> = Vec::new();
        let mut ders: Vec<i64> = Vec::new();
        let mut sums: Vec<i64> = Vec::new();
        let mut c0: usize = 0;
        while c0 < cn
            invariant
                c0 <= cn,
                difs@.len() == c0 && ders@.len() == c0 && sums@.len() == c0,
                forall|c: int| 0 <= c < c0 ==> (#[trigger] difs@[c]) == 0 && ders@[c] == 0
                    && sums@[c] == 0,
            decreases cn - c0,
        {
            difs.push(0);
            ders.push(0);
            sums.push(0);
            c0 = c0 + 1;
        }
        let mut xx: i64 = -3 * (r as i64);
        while xx < w as i64
            invariant
                -3 * (r as i64) <= xx <= w as i64,
                y < h,
                difs@.len() == cn && ders@.len() == cn && sums@.len() == cn,
                out@.len() == stride * y + (if xx < 0 { 0int } else { xx as int }) * cn,
                forall|c: int| 0 <= c < cn ==> #[trigger] row_state_ok(difs@, ders@, sums@, si,
                    stride as int, cn as int, r as int, w as int, y as int, xx - 1, c),
                forall|k: int| 0 <= k < out@.len() ==> out@[k] == gim[k],
            decreases w as i64 - xx,
        {
            if xx >= 0 {
                let x: usize = xx as usize;
                proof {
                    assert(x * cn + cn == (x + 1) * cn) by (nonlinear_arith);
                    assert((x + 1) * cn <= w * cn) by (nonlinear_arith)
                        requires x + 1 <= w, 0 <= cn,
                    ;
                    assert(0 <= x * cn) by (nonlinear_arith)
                        requires 0 <= x, 0 <= cn,
                    ;
                }
                let mut c: usize = 0;
                while c < cn
                    invariant
                        c <= cn,
                        x == xx,
                        0 <= xx < w,
                        y < h,
                        difs@.len() == cn && ders@.len() == cn && sums@.len() == cn,
                        out@.len() == stride * y + x * cn + c,
                        forall|c2: int| 0 <= c2 < cn ==> #[trigger] row_state_ok(difs@, ders@,
                            sums@, si, stride as int, cn as int, r as int, w as int, y as int,
                            xx - 1, c2),
                        forall|k: int| 0 <= k < out@.len() ==> out@[k] == gim[k],
                    decreases cn - c,
                {
                    proof {
                        assert(row_state_ok(difs@, ders@, sums@, si, stride as int, cn as int,
                            r as int, w as int, y as int, xx - 1, c as int));
                    }
                    let v = fgn_store_exec(sums[c], r3);
                    proof {
                        lemma_pix_decompose(stride as int, cn as int, w as int, h as int,
                            x as int, y as int, c as int);
                        let k = pix_offset(stride as int, cn as int, x as int, y as int, c as int);
                        assert(out@.len() == k);
                        assert(row_of(si, stride as int, cn as int, y as int, c as int)
                            =~= (|t: int| sample(si, stride as int, cn as int, t,
                                k / (stride as int), (k % (stride as int)) % (cn as int))));
                        assert(gim[k] == v);
                    }
                    out.push(v);
                    c = c + 1;
                }
            }
            // Advance each channel's accumulators through step xx.
            let mut c: usize = 0;
            while c < cn
                invariant
                    c <= cn,
                    -3 * (r as i64) <= xx < w as i64,
                    y < h,
                    difs@.len() == cn && ders@.len() == cn && sums@.len() == cn,
                    forall|c2: int| c <= c2 < cn ==> #[trigger] row_state_ok(difs@, ders@, sums@,
                        si, stride as int, cn as int, r as int, w as int, y as int, xx - 1, c2),
                    forall|c2: int| 0 <= c2 < c ==> #[trigger] row_state_ok(difs@, ders@, sums@,
                        si, stride as int, cn as int, r as int, w as int, y as int, xx as int, c2),
                    forall|k: int| 0 <= k < out@.len() ==> out@[k] == gim[k],
                decreases cn - c,
            {
                let ghost difs0 = difs@;
                let ghost ders0 = ders@;
                let ghost sums0 = sums@;
                let ghost f = row_of(si, stride as int, cn as int, y as int, c as int);
                proof {
                    assert forall|t: int| 0 <= t < w implies 0 <= #[trigger] f(t) <= 255 by {
                        lemma_pix_decompose(stride as int, cn as int, w as int, h as int,
                            t, y as int, c as int);
                    }
                    lemma_fgn_state_bounds(f, r as int, w as int, xx - 1, 255);
                    lemma_fgn_state_bounds(f, r as int, w as int, xx as int, 255);
                    assert(2 * (r as int) * 255 <= 0x1000_0000
                        && (r as int) * (r as int) * 255 <= 0x10_0000_0000
                        && (r as int) * (r as int) * (r as int) * 255 <= 0x10_0000_0000_0000)
                        by (nonlinear_arith)
                        requires 1 <= r <= 212,
                    ;
                    assert(row_state_ok(difs@, ders@, sums@, si, stride as int, cn as int,
                        r as int, w as int, y as int, xx - 1, c as int));
                }
                let b_fresh = fgn_read_row(src, stride, cn, w, h, y, c, r, xx);
                let mut delta: i64 = 0;
                if xx >= 0 {
                    let b1 = fgn_read_row(src, stride, cn, w, h, y, c, r, xx - 2 * (r as i64));
                    let b2 = fgn_read_row(src, stride, cn, w, h, y, c, r, xx - (r as i64));
                    let b3 = fgn_read_row(src, stride, cn, w, h, y, c, r, xx - 3 * (r as i64));
                    delta = 3 * (b1 as i64 - b2 as i64) - b3 as i64;
                } else if xx + (r as i64) >= 0 {
                    let b1 = fgn_read_row(src, stride, cn, w, h, y, c, r, xx - 2 * (r as i64));
                    let b2 = fgn_read_row(src, stride, cn, w, h, y, c, r, xx - (r as i64));
                    delta = 3 * (b1 as i64 - b2 as i64);
                } else if xx + 2 * (r as i64) >= 0 {
                    let b2 = fgn_read_row(src, stride, cn, w, h, y, c, r, xx - (r as i64));
                    delta = -3 * (b2 as i64);
                }
                proof {
                    assert(delta == fgn_delta(f, r as int, w as int, xx as int));
                }
                let dif = difs[c] + delta + b_fresh as i64;
                let der = ders[c] + dif;
                let sum = sums[c] + der;
                proof {
                    let s_prev = fgn_state(f, r as int, w as int, xx - 1);
                    let s_new = fgn_state(f, r as int, w as int, xx as int);
                    assert(b_fresh as int == fgn_read(f, r as int, w as int, xx as int));
                    assert(s_new.0 == s_prev.0 + fgn_delta(f, r as int, w as int, xx as int)
                        + fgn_read(f, r as int, w as int, xx as int));
                    assert(dif == s_new.0 && der == s_new.1 && sum == s_new.2);
                }
                difs.set(c, dif);
                ders.set(c, der);
                sums.set(c, sum);
                proof {
                    assert forall|c2: int| c + 1 <= c2 < cn implies #[trigger] row_state_ok(difs@,
                        ders@, sums@, si, stride as int, cn as int, r as int, w as int, y as int,
                        xx - 1, c2,
                    ) by {
                        assert(row_state_ok(difs0, ders0, sums0, si, stride as int, cn as int,
                            r as int, w as int, y as int, xx - 1, c2));
                        assert(difs@[c2] == difs0[c2] && ders@[c2] == ders0[c2]
                            && sums@[c2] == sums0[c2]);
                    }
                    assert forall|c2: int| 0 <= c2 < c + 1 implies #[trigger] row_state_ok(difs@,
                        ders@, sums@, si, stride as int, cn as int, r as int, w as int, y as int,
                        xx as int, c2,
                    ) by {
                        if c2 == c as int {
                            assert(row_of(si, stride as int, cn as int, y as int, c2) == f);
                            assert(difs@[c2] == dif && ders@[c2] == der && sums@[c2] == sum);
                        } else {
                            assert(row_state_ok(difs0, ders0, sums0, si, stride as int,
                                cn as int, r as int, w as int, y as int, xx as int, c2));
                            assert(difs@[c2] == difs0[c2] && ders@[c2] == ders0[c2]
                                && sums@[c2] == sums0[c2]);
                        }
                    }
                }
                c = c + 1;
            }
            xx = xx + 1;
        }
        // Carry the row's stride padding through unchanged.
        let mut pj: usize = w * cn;
        while pj < stride
            invariant
                w * cn <= pj <= stride,
                y < h,
                out@.len() == stride * y + pj,
                forall|k: int| 0 <= k < out@.len() ==> out@[k] == gim[k],
            decreases stride - pj,
        {
            proof {
                crate::pixel::lemma_row_block_decompose(stride as int, cn as int, w as int,
                    h as int, y as int, stride * y + pj);
                assert(y * stride == stride * y) by (nonlinear_arith);
            }
            let idx: usize = y * stride + pj;
            let v = src[idx];
            proof {
                assert(gim[out@.len() as int] == v);
            }
            out.push(v);
            pj = pj + 1;
        }
        y = y + 1;
    }
    proof {
        assert(out@ =~= gim);
    }
    out
}

/// Performs the fast gaussian approximation on an 8-bit image in place:
/// a vertical sweep, then a horizontal sweep of its result.  The radius
/// is capped at 212; the result does not depend on the threading policy.
pub fn fast_gaussian_next(
    bytes: &mut Vec<u8>, stride: u32, width: u32, height: u32, radius: u32,
    channels: FastBlurChannels, threading_policy: ThreadingPolicy,
)
    requires
        1 <= width,
        1 <= height,
        1 <= radius,
        width * channels.channel_count() <= stride,
        old(bytes)@.len() == stride * height,
    ensures
        final(bytes)@ == fgn_h_image(
            fgn_v_image(old(bytes)@, stride as int, width as int, height as int,
                channels.channel_count(), if radius > 212 { 212int } else { radius as int }),
            stride as int, width as int, height as int, channels.channel_count(),
            if radius > 212 { 212int } else { radius as int },
        ),
{
    let cn = channels.get_channels();
    let acq: u32 = if radius > 212 { 212 } else { radius };
    let vertical = fgn_vertical_pass(bytes, stride as usize, width as usize, height as usize,
        cn, acq as usize);
    let out = fgn_horizontal_pass(&vertical, stride as usize, width as usize, height as usize,
        cn, acq as usize);
    *bytes = out;
}

/// The vertical sweep over a plane: every column is swept independently;
/// stride padding is unchanged.
pub open spec fn fgn_v_image16(src: Seq<u16>, stride: int, w: int, h: int, cn: int, r: int) -> Seq<u16> {
    Seq::new(
        (stride * h) as nat,
        |k: int| if is_pixel_pos(k, stride, cn, w, h) {
            fgn_out(
                |t: int| sample(as_ints16(src), stride, cn, (k % stride) / cn, t, (k % stride) % cn),
                r, h, 65535, k / stride,
            ) as u16
        } else {
            src[k]
        },
    )
}

/// The horizontal sweep over a plane: every row is swept independently.
pub open spec fn fgn_h_image16(src: Seq<u16>, stride: int, w: int, h: int, cn: int, r: int) -> Seq<u16> {
    Seq::new(
        (stride * h) as nat,
        |k: int| if is_pixel_pos(k, stride, cn, w, h) {
            fgn_out(
                |t: int| sample(as_ints16(src), stride, cn, t, k / stride, (k % stride) % cn),
                r, w, 65535, (k % stride) / cn,
            ) as u16
        } else {
            src[k]
        },
    )
}

/// Reduces a finished accumulator to a storage sample.
fn fgn_store_exec16(sum: i64, r3: i64) -> (v: u16)
    requires
        1 <= r3,
    ensures
        v as int == fgn_store(sum as int, r3 as int, 65535),
{
    if sum <= 0 {
        0
    } else {
        let q: u64 = (sum as u64) / (r3 as u64);
        if q > 65535 {
            0
        } else {
            q as u16
        }
    }
}

/// The clamped look-ahead read along a column.
fn fgn_read_col16(
    src: &Vec<u16>, stride: usize, cn: usize, w: usize, h: usize, x: usize, ch: usize, r: usize,
    t: i64,
) -> (v: u16)
    requires
        1 <= cn,
        w * cn <= stride,
        x < w,
        ch < cn,
        1 <= h <= 0xffff_ffff,
        src@.len() == stride * h,
        r <= 0xffff,
        -0x1_0000_0000 <= t <= 0x1_0000_0000,
    ensures
        v as int == fgn_read(
            col_of(as_ints16(src@), stride as int, cn as int, (x * cn + ch) as int),
            r as int, h as int, t as int,
        ),
{
    proof {
        lemma_pix_decompose(stride as int, cn as int, w as int, h as int, x as int, 0, ch as int);
    }
    let shift: usize = 3 * r / 2;
    let pos: i64 = t + shift as i64;
    let yi: usize = if pos < 0 {
        0
    } else if pos >= h as i64 {
        h - 1
    } else {
        pos as usize
    };
    proof {
        assert(yi as int == clamp_index(t as int + (3 * (r as int)) / 2, h as int));
    }
    crate::pixel::sample_at16(src, stride, cn, x, yi, ch, Ghost(w as int), Ghost(h as int))
}

/// The vertical sweep: all columns advance together, rows are emitted in
/// order once the warm-up steps before the plane are done.
#[verifier::loop_isolation(false)]
#[verifier::rlimit(100)]
#[verifier::spinoff_prover]
fn fgn_vertical_pass16(
    src: &Vec<u16>, stride: usize, w: usize, h: usize, cn: usize, r: usize,
) -> (out: Vec<u16>)
    requires
        1 <= cn,
        w * cn <= stride,
        1 <= w <= 0xffff_ffff,
        1 <= h <= 0xffff_ffff,
        1 <= r <= 212,
        src@.len() == stride * h,
    ensures
        out@ == fgn_v_image16(src@, stride as int, w as int, h as int, cn as int, r as int),
{
    let ghost si = as_ints16(src@);
    let ghost gim = fgn_v_image16(src@, stride as int, w as int, h as int, cn as int, r as int);
    let total: usize = src.len();
    proof {
        assert(w * cn <= w * cn * h && w * cn * h <= stride * h) by (nonlinear_arith)
            requires 1 <= h, 0 <= w * cn, w * cn <= stride,
        ;
    }
    let wcn: usize = w * cn;
    proof {
        assert(1 <= (r as int) * (r as int) && (r as int) * (r as int) <= 44944
            && 1 <= (r as int) * (r as int) * (r as int)
            && (r as int) * (r as int) * (r as int) <= 9528128) by (nonlinear_arith)
            requires 1 <= r <= 212,
        ;
    }
    let r3: i64 = ((r * r) * r) as i64;
    let mut difs: Vec<i64> = Vec::new();
    let mut ders: Vec<i64> = Vec::new();
    let mut sums: Vec<i64> = Vec::new();
    let mut j0: usize = 0;
    while j0 < wcn
        invariant
            j0 <= wcn,
            difs@.len() == j0 && ders@.len() == j0 && sums@.len() == j0,
            forall|j: int| 0 <= j < j0 ==> (#[trigger] difs@[j]) == 0 && ders@[j] == 0
                && sums@[j] == 0,
        decreases wcn - j0,
    {
        difs.push(0);
        ders.push(0);
        sums.push(0);
        j0 = j0 + 1;
    }
    let mut out: Vec<u16> = Vec::new();
    let mut yy: i64 = -3 * (r as i64);
    while yy < h as i64
        invariant
            -3 * (r as i64) <= yy <= h as i64,
            difs@.len() == wcn && ders@.len() == wcn && sums@.len() == wcn,
            out@.len() == stride * (if yy < 0 { 0int } else { yy as int }),
            forall|j: int| 0 <= j < wcn ==> #[trigger] col_state_ok(difs@, ders@, sums@, si, stride as int, cn as int, r as int, h as int, yy - 1, j),
            forall|k: int| 0 <= k < out@.len() ==> out@[k] == gim[k],
        decreases h as i64 - yy,
    {
        if yy >= 0 {
            proof {
                assert forall|j: int| 0 <= j < wcn implies #[trigger] sums@[j]
                    == fgn_state(col_of(si, stride as int, cn as int, j), r as int, h as int,
                        (yy as usize) - 1).2
                by {
                    assert(col_state_ok(difs@, ders@, sums@, si, stride as int, cn as int,
                        r as int, h as int, yy - 1, j));
                }
            }
            fgn_emit_row16(src, &mut out, &sums, stride, w, h, cn, r, r3, yy as usize,
                Ghost(si), Ghost(gim));
        }
        // Advance every column's accumulators through step yy.
        let mut j: usize = 0;
        while j < wcn
            invariant
                j <= wcn,
                -3 * (r as i64) <= yy < h as i64,
                difs@.len() == wcn && ders@.len() == wcn && sums@.len() == wcn,
                forall|j2: int| j <= j2 < wcn ==> #[trigger] col_state_ok(difs@, ders@, sums@, si, stride as int, cn as int, r as int, h as int, yy - 1, j2),
                forall|j2: int| 0 <= j2 < j ==> #[trigger] col_state_ok(difs@, ders@, sums@, si, stride as int, cn as int, r as int, h as int, yy as int, j2),
            decreases wcn - j,
        {
            let ghost difs0 = difs@;
            let ghost ders0 = ders@;
            let ghost sums0 = sums@;
            let x: usize = j / cn;
            let c: usize = j % cn;
            proof {
                vstd::arithmetic::div_mod::lemma_fundamental_div_mod(j as int, cn as int);
                assert((cn as int) * ((j as int) / (cn as int))
                    == ((j as int) / (cn as int)) * (cn as int)) by (nonlinear_arith);
                assert((j as int) < (cn as int) * (w as int)) by (nonlinear_arith)
                    requires j < w * cn,
                ;
                vstd::arithmetic::div_mod::lemma_multiply_divide_lt(j as int, cn as int, w as int);
            }
            let ghost f = col_of(si, stride as int, cn as int, j as int);
            proof {
                assert forall|t: int| 0 <= t < h implies 0 <= #[trigger] f(t) <= 65535 by {
                    lemma_pix_decompose(stride as int, cn as int, w as int, h as int,
                        x as int, t, c as int);
                }
                lemma_fgn_state_bounds(f, r as int, h as int, yy - 1, 65535);
                lemma_fgn_state_bounds(f, r as int, h as int, yy as int, 65535);
                assert(2 * (r as int) * 65535 <= 0x1000_0000
                    && (r as int) * (r as int) * 65535 <= 0x10_0000_0000
                    && (r as int) * (r as int) * (r as int) * 65535 <= 0x10_0000_0000_0000)
                    by (nonlinear_arith)
                    requires 1 <= r <= 212,
                ;
                assert(col_state_ok(difs@, ders@, sums@, si, stride as int, cn as int,
                    r as int, h as int, yy - 1, j as int));
            }
            let b_fresh = fgn_read_col16(src, stride, cn, w, h, x, c, r, yy);
            let mut delta: i64 = 0;
            if yy >= 0 {
                let b1 = fgn_read_col16(src, stride, cn, w, h, x, c, r, yy - 2 * (r as i64));
                let b2 = fgn_read_col16(src, stride, cn, w, h, x, c, r, yy - (r as i64));
                let b3 = fgn_read_col16(src, stride, cn, w, h, x, c, r, yy - 3 * (r as i64));
                delta = 3 * (b1 as i64 - b2 as i64) - b3 as i64;
            } else if yy + (r as i64) >= 0 {
                let b1 = fgn_read_col16(src, stride, cn, w, h, x, c, r, yy - 2 * (r as i64));
                let b2 = fgn_read_col16(src, stride, cn, w, h, x, c, r, yy - (r as i64));
                delta = 3 * (b1 as i64 - b2 as i64);
            } else if yy + 2 * (r as i64) >= 0 {
                let b2 = fgn_read_col16(src, stride, cn, w, h, x, c, r, yy - (r as i64));
                delta = -3 * (b2 as i64);
            }
            proof {
                assert(delta == fgn_delta(f, r as int, h as int, yy as int));
                assert(col_of(si, stride as int, cn as int, (x * cn + c) as int)
                    == col_of(si, stride as int, cn as int, j as int));
            }
            let dif = difs[j] + delta + b_fresh as i64;
            let der = ders[j] + dif;
            let sum = sums[j] + der;
            proof {
                let s_prev = fgn_state(f, r as int, h as int, yy - 1);
                let s_new = fgn_state(f, r as int, h as int, yy as int);
                assert(col_state_ok(difs@, ders@, sums@, si, stride as int, cn as int,
                    r as int, h as int, yy - 1, j as int));
                assert(difs@[j as int] == s_prev.0 && ders@[j as int] == s_prev.1
                    && sums@[j as int] == s_prev.2);
                assert(b_fresh as int == fgn_read(f, r as int, h as int, yy as int));
                assert(s_new.0 == s_prev.0 + fgn_delta(f, r as int, h as int, yy as int)
                    + fgn_read(f, r as int, h as int, yy as int));
                assert(dif == s_new.0 && der == s_new.1 && sum == s_new.2);
            }
            difs.set(j, dif);
            ders.set(j, der);
            sums.set(j, sum);
            proof {
                assert forall|j2: int| j + 1 <= j2 < wcn implies #[trigger] col_state_ok(difs@,
                    ders@, sums@, si, stride as int, cn as int, r as int, h as int, yy - 1, j2,
                ) by {
                    assert(col_state_ok(difs0, ders0, sums0, si, stride as int, cn as int,
                        r as int, h as int, yy - 1, j2));
                    assert(difs@[j2] == difs0[j2] && ders@[j2] == ders0[j2]
                        && sums@[j2] == sums0[j2]);
                }
                assert forall|j2: int| 0 <= j2 < j + 1 implies #[trigger] col_state_ok(difs@,
                    ders@, sums@, si, stride as int, cn as int, r as int, h as int, yy as int, j2,
                ) by {
                    if j2 == j as int {
                        assert(col_of(si, stride as int, cn as int, j2) == f);
                        assert(difs@[j2] == dif && ders@[j2] == der && sums@[j2] == sum);
                    } else {
                        assert(col_state_ok(difs0, ders0, sums0, si, stride as int, cn as int,
                            r as int, h as int, yy as int, j2));
                        assert(difs@[j2] == difs0[j2] && ders@[j2] == ders0[j2]
                            && sums@[j2] == sums0[j2]);
                    }
                }
            }
            j = j + 1;
        }
        yy = yy + 1;
    }
    proof {
        assert(out@.len() == stride * h);
        assert(out@ =~= gim);
    }
    out
}


/// Emits one output row of the vertical sweep from the current
/// accumulators.
#[verifier::loop_isolation(false)]
#[verifier::rlimit(100)]
#[verifier::spinoff_prover]
fn fgn_emit_row16(
    src: &Vec<u16>, out: &mut Vec<u16>, sums: &Vec<i64>, stride: usize, w: usize, h: usize,
    cn: usize, r: usize, r3: i64, y: usize, Ghost(si): Ghost<Seq<int>>,
    Ghost(gim): Ghost<Seq<u16>>,
)
    requires
        1 <= cn,
        w * cn <= stride,
        1 <= w <= 0xffff_ffff,
        1 <= h <= 0xffff_ffff,
        1 <= r <= 212,
        src@.len() == stride * h,
        y < h,
        si == as_ints16(src@),
        gim == fgn_v_image16(src@, stride as int, w as int, h as int, cn as int, r as int),
        r3 == (r as int) * (r as int) * (r as int),
        1 <= r3,
        sums@.len() == w * cn,
        forall|j: int| 0 <= j < w * cn ==> #[trigger] sums@[j]
            == fgn_state(col_of(si, stride as int, cn as int, j), r as int, h as int,
                y - 1).2,
        old(out)@.len() == stride * y,
    ensures
        final(out)@.len() == stride * (y + 1),
        forall|k: int| 0 <= k < stride * y ==> final(out)@[k] == old(out)@[k],
        forall|k: int| stride * y <= k < stride * (y + 1) ==> final(out)@[k] == gim[k],
{
    let total: usize = src.len();
    proof {
        assert(stride * (y + 1) == stride * y + stride) by (nonlinear_arith);
        assert(stride * (y + 1) <= stride * h) by (nonlinear_arith)
            requires y + 1 <= h, 0 <= stride,
        ;
        assert(stride * y == (y as int) * (stride as int)) by (nonlinear_arith);
        assert(stride * y >= 0) by (nonlinear_arith)
            requires 0 <= stride, 0 <= y,
        ;
    }
    let mut x: usize = 0;
    while x < w
        invariant
            x <= w,
            out@.len() == stride * y + x * cn,
            forall|k: int| 0 <= k < stride * y ==> out@[k] == old(out)@[k],
            forall|k: int| stride * y <= k < out@.len() ==> out@[k] == gim[k],
        decreases w - x,
    {
        proof {
            assert(x * cn + cn == (x + 1) * cn) by (nonlinear_arith);
            assert((x + 1) * cn <= w * cn) by (nonlinear_arith)
                requires x + 1 <= w, 0 <= cn,
            ;
            assert(0 <= x * cn) by (nonlinear_arith)
                requires 0 <= x, 0 <= cn,
            ;
        }
        let mut c: usize = 0;
        while c < cn
            invariant
                c <= cn,
                x < w,
                out@.len() == stride * y + x * cn + c,
                forall|k: int| 0 <= k < stride * y ==> out@[k] == old(out)@[k],
                forall|k: int| stride * y <= k < out@.len() ==> out@[k] == gim[k],
            decreases cn - c,
        {
            let jj: usize = x * cn + c;
            let v = fgn_store_exec16(sums[jj], r3);
            proof {
                lemma_pix_decompose(stride as int, cn as int, w as int, h as int,
                    x as int, y as int, c as int);
                let k = pix_offset(stride as int, cn as int, x as int, y as int, c as int);
                assert(out@.len() == k);
                assert((jj as int) / (cn as int) == x as int
                    && (jj as int) % (cn as int) == c as int);
                assert(col_of(si, stride as int, cn as int, jj as int)
                    =~= (|t: int| sample(si, stride as int, cn as int,
                        (k % (stride as int)) / (cn as int), t,
                        (k % (stride as int)) % (cn as int))));
                assert(gim[k] == v);
            }
            out.push(v);
            c = c + 1;
        }
        x = x + 1;
    }
    let mut pj: usize = w * cn;
    while pj < stride
        invariant
            w * cn <= pj <= stride,
            out@.len() == stride * y + pj,
            forall|k: int| 0 <= k < stride * y ==> out@[k] == old(out)@[k],
            forall|k: int| stride * y <= k < out@.len() ==> out@[k] == gim[k],
        decreases stride - pj,
    {
        proof {
            crate::pixel::lemma_row_block_decompose(stride as int, cn as int, w as int,
                h as int, y as int, stride * y + pj);
            assert(y * stride == stride * y) by (nonlinear_arith);
        }
        let idx: usize = y * stride + pj;
        let v = src[idx];
        proof {
            assert(gim[out@.len() as int] == v);
        }
        out.push(v);
        pj = pj + 1;
    }
}

/// The clamped look-ahead read along a row.
fn fgn_read_row16(
    src: &Vec<u16>, stride: usize, cn: usize, w: usize, h: usize, y: usize, ch: usize, r: usize,
    t: i64,
) -> (v: u16)
    requires
        1 <= cn,
        w * cn <= stride,
        y < h,
        ch < cn,
        1 <= w <= 0xffff_ffff,
        src@.len() == stride * h,
        r <= 0xffff,
        -0x1_0000_0000 <= t <= 0x1_0000_0000,
    ensures
        v as int == fgn_read(
            row_of(as_ints16(src@), stride as int, cn as int, y as int, ch as int),
            r as int, w as int, t as int,
        ),
{
    proof {
        lemma_pix_decompose(stride as int, cn as int, w as int, h as int, 0, y as int, ch as int);
    }
    let shift: usize = 3 * r / 2;
    let pos: i64 = t + shift as i64;
    let xi: usize = if pos < 0 {
        0
    } else if pos >= w as i64 {
        w - 1
    } else {
        pos as usize
    };
    proof {
        assert(xi as int == clamp_index(t as int + (3 * (r as int)) / 2, w as int));
    }
    crate::pixel::sample_at16(src, stride, cn, xi, y, ch, Ghost(w as int), Ghost(h as int))
}

/// The horizontal sweep: each row is swept left to right with one set of
/// accumulators per channel.
#[verifier::loop_isolation(false)]
#[verifier::rlimit(100)]
#[verifier::spinoff_prover]
fn fgn_horizontal_pass16(
    src: &Vec<u16>, stride: usize, w: usize, h: usize, cn: usize, r: usize,
) -> (out: Vec<u16>)
    requires
        1 <= cn,
        cn <= 4,
        w * cn <= stride,
        1 <= w <= 0xffff_ffff,
        1 <= h <= 0xffff_ffff,
        1 <= r <= 212,
        src@.len() == stride * h,
    ensures
        out@ == fgn_h_image16(src@, stride as int, w as int, h as int, cn as int, r as int),
{
    let ghost si = as_ints16(src@);
    let ghost gim = fgn_h_image16(src@, stride as int, w as int, h as int, cn as int, r as int);
    let total: usize = src.len();
    proof {
        assert(w * cn <= w * cn * h && w * cn * h <= stride * h) by (nonlinear_arith)
            requires 1 <= h, 0 <= w * cn, w * cn <= stride,
        ;
        assert(1 <= (r as int) * (r as int) && (r as int) * (r as int) <= 44944
            && 1 <= (r as int) * (r as int) * (r as int)
            && (r as int) * (r as int) * (r as int) <= 9528128) by (nonlinear_arith)
            requires 1 <= r <= 212,
        ;
    }
    let r3: i64 = ((r * r) * r) as i64;
    let mut out: Vec<u16> = Vec::new();
    let mut y: usize = 0;
    while y < h
        invariant
            y <= h,
            out@.len() == stride * y,
            forall|k: int| 0 <= k < out@.len() ==> out@[k] == gim[k],
        decreases h - y,
    {
        proof {
            assert(stride * (y + 1) == stride * y + stride) by (nonlinear_arith);
            assert(stride * (y + 1) <= stride * h) by (nonlinear_arith)
                requires y + 1 <= h, 0 <= stride,
            ;
            assert(stride * y == (y as int) * (stride as int)) by (nonlinear_arith);
        }
        let mut difs: Vec<i64> = Vec::new();
        let mut ders: Vec<i64> = Vec::new();
        let mut sums: Vec<i64> = Vec::new();
        let mut c0: usize = 0;
        while c0 < cn
            invariant
                c0 <= cn,
                difs@.len() == c0 && ders@.len() == c0 && sums@.len() == c0,
                forall|c: int| 0 <= c < c0 ==> (#[trigger] difs@[c]) == 0 && ders@[c] == 0
                    && sums@[c] == 0,
            decreases cn - c0,
        {
            difs.push(0);
            ders.push(0);
            sums.push(0);
            c0 = c0 + 1;
        }
        let mut xx: i64 = -3 * (r as i64);
        while xx < w as i64
            invariant
                -3 * (r as i64) <= xx <= w as i64,
                y < h,
                difs@.len() == cn && ders@.len() == cn && sums@.len() == cn,
                out@.len() == stride * y + (if xx < 0 { 0int } else { xx as int }) * cn,
                forall|c: int| 0 <= c < cn ==> #[trigger] row_state_ok(difs@, ders@, sums@, si,
                    stride as int, cn as int, r as int, w as int, y as int, xx - 1, c),
                forall|k: int| 0 <= k < out@.len() ==> out@[k] == gim[k],
            decreases w as i64 - xx,
        {
            if xx >= 0 {
                let x: usize = xx as usize;
                proof {
                    assert(x * cn + cn == (x + 1) * cn) by (nonlinear_arith);
                    assert((x + 1) * cn <= w * cn) by (nonlinear_arith)
                        requires x + 1 <= w, 0 <= cn,
                    ;
                    assert(0 <= x * cn) by (nonlinear_arith)
                        requires 0 <= x, 0 <= cn,
                    ;
                }
                let mut c: usize = 0;
                while c < cn
                    invariant
                        c <= cn,
                        x == xx,
                        0 <= xx < w,
                        y < h,
                        difs@.len() == cn && ders@.len() == cn && sums@.len() == cn,
                        out@.len() == stride * y + x * cn + c,
                        forall|c2: int| 0 <= c2 < cn ==> #[trigger] row_state_ok(difs@, ders@,
                            sums@, si, stride as int, cn as int, r as int, w as int, y as int,
                            xx - 1, c2),
                        forall|k: int| 0 <= k < out@.len() ==> out@[k] == gim[k],
                    decreases cn - c,
                {
                    proof {
                        assert(row_state_ok(difs@, ders@, sums@, si, stride as int, cn as int,
                            r as int, w as int, y as int, xx - 1, c as int));
                    }
                    let v = fgn_store_exec16(sums[c], r3);
                    proof {
                        lemma_pix_decompose(stride as int, cn as int, w as int, h as int,
                            x as int, y as int, c as int);
                        let k = pix_offset(stride as int, cn as int, x as int, y as int, c as int);
                        assert(out@.len() == k);
                        assert(row_of(si, stride as int, cn as int, y as int, c as int)
                            =~= (|t: int| sample(si, stride as int, cn as int, t,
                                k / (stride as int), (k % (stride as int)) % (cn as int))));
                        assert(gim[k] == v);
                    }
                    out.push(v);
                    c = c + 1;
                }
            }
            // Advance each channel's accumulators through step xx.
            let mut c: usize = 0;
            while c < cn
                invariant
                    c <= cn,
                    -3 * (r as i64) <= xx < w as i64,
                    y < h,
                    difs@.len() == cn && ders@.len() == cn && sums@.len() == cn,
                    forall|c2: int| c <= c2 < cn ==> #[trigger] row_state_ok(difs@, ders@, sums@,
                        si, stride as int, cn as int, r as int, w as int, y as int, xx - 1, c2),
                    forall|c2: int| 0 <= c2 < c ==> #[trigger] row_state_ok(difs@, ders@, sums@,
                        si, stride as int, cn as int, r as int, w as int, y as int, xx as int, c2),
                    forall|k: int| 0 <= k < out@.len() ==> out@[k] == gim[k],
                decreases cn - c,
            {
                let ghost difs0 = difs@;
                let ghost ders0 = ders@;
                let ghost sums0 = sums@;
                let ghost f = row_of(si, stride as int, cn as int, y as int, c as int);
                proof {
                    assert forall|t: int| 0 <= t < w implies 0 <= #[trigger] f(t) <= 65535 by {
                        lemma_pix_decompose(stride as int, cn as int, w as int, h as int,
                            t, y as int, c as int);
                    }
                    lemma_fgn_state_bounds(f, r as int, w as int, xx - 1, 65535);
                    lemma_fgn_state_bounds(f, r as int, w as int, xx as int, 65535);
                    assert(2 * (r as int) * 65535 <= 0x1000_0000
                        && (r as int) * (r as int) * 65535 <= 0x10_0000_0000
                        && (r as int) * (r as int) * (r as int) * 65535 <= 0x10_0000_0000_0000)
                        by (nonlinear_arith)
                        requires 1 <= r <= 212,
                    ;
                    assert(row_state_ok(difs@, ders@, sums@, si, stride as int, cn as int,
                        r as int, w as int, y as int, xx - 1, c as int));
                }
                let b_fresh = fgn_read_row16(src, stride, cn, w, h, y, c, r, xx);
                let mut delta: i64 = 0;
                if xx >= 0 {
                    let b1 = fgn_read_row16(src, stride, cn, w, h, y, c, r, xx - 2 * (r as i64));
                    let b2 = fgn_read_row16(src, stride, cn, w, h, y, c, r, xx - (r as i64));
                    let b3 = fgn_read_row16(src, stride, cn, w, h, y, c, r, xx - 3 * (r as i64));
                    delta = 3 * (b1 as i64 - b2 as i64) - b3 as i64;
                } else if xx + (r as i64) >= 0 {
                    let b1 = fgn_read_row16(src, stride, cn, w, h, y, c, r, xx - 2 * (r as i64));
                    let b2 = fgn_read_row16(src, stride, cn, w, h, y, c, r, xx - (r as i64));
                    delta = 3 * (b1 as i64 - b2 as i64);
                } else if xx + 2 * (r as i64) >= 0 {
                    let b2 = fgn_read_row16(src, stride, cn, w, h, y, c, r, xx - (r as i64));
                    delta = -3 * (b2 as i64);
                }
                proof {
                    assert(delta == fgn_delta(f, r as int, w as int, xx as int));
                }
                let dif = difs[c] + delta + b_fresh as i64;
                let der = ders[c] + dif;
                let sum = sums[c] + der;
                proof {
                    let s_prev = fgn_state(f, r as int, w as int, xx - 1);
                    let s_new = fgn_state(f, r as int, w as int, xx as int);
                    assert(b_fresh as int == fgn_read(f, r as int, w as int, xx as int));
                    assert(s_new.0 == s_prev.0 + fgn_delta(f, r as int, w as int, xx as int)
                        + fgn_read(f, r as int, w as int, xx as int));
                    assert(dif == s_new.0 && der == s_new.1 && sum == s_new.2);
                }
                difs.set(c, dif);
                ders.set(c, der);
                sums.set(c, sum);
                proof {
                    assert forall|c2: int| c + 1 <= c2 < cn implies #[trigger] row_state_ok(difs@,
                        ders@, sums@, si, stride as int, cn as int, r as int, w as int, y as int,
                        xx - 1, c2,
                    ) by {
                        assert(row_state_ok(difs0, ders0, sums0, si, stride as int, cn as int,
                            r as int, w as int, y as int, xx - 1, c2));
                        assert(difs@[c2] == difs0[c2] && ders@[c2] == ders0[c2]
                            && sums@[c2] == sums0[c2]);
                    }
                    assert forall|c2: int| 0 <= c2 < c + 1 implies #[trigger] row_state_ok(difs@,
                        ders@, sums@, si, stride as int, cn as int, r as int, w as int, y as int,
                        xx as int, c2,
                    ) by {
                        if c2 == c as int {
                            assert(row_of(si, stride as int, cn as int, y as int, c2) == f);
                            assert(difs@[c2] == dif && ders@[c2] == der && sums@[c2] == sum);
                        } else {
                            assert(row_state_ok(difs0, ders0, sums0, si, stride as int,
                                cn as int, r as int, w as int, y as int, xx as int, c2));
                            assert(difs@[c2] == difs0[c2] && ders@[c2] == ders0[c2]
                                && sums@[c2] == sums0[c2]);
                        }
                    }
                }
                c = c + 1;
            }
            xx = xx + 1;
        }
        // Carry the row's stride padding through unchanged.
        let mut pj: usize = w * cn;
        while pj < stride
            invariant
                w * cn <= pj <= stride,
                y < h,
                out@.len() == stride * y + pj,
                forall|k: int| 0 <= k < out@.len() ==> out@[k] == gim[k],
            decreases stride - pj,
        {
            proof {
                crate::pixel::lemma_row_block_decompose(stride as int, cn as int, w as int,
                    h as int, y as int, stride * y + pj);
                assert(y * stride == stride * y) by (nonlinear_arith);
            }
            let idx: usize = y * stride + pj;
            let v = src[idx];
            proof {
                assert(gim[out@.len() as int] == v);
            }
            out.push(v);
            pj = pj + 1;
        }
        y = y + 1;
    }
    proof {
        assert(out@ =~= gim);
    }
    out
}

/// Performs the fast gaussian approximation on a 16-bit image in place:
/// a vertical sweep, then a horizontal sweep of its result.  The radius
/// is capped at 152; the result does not depend on the threading policy.
pub fn fast_gaussian_next_u16(
    bytes: &mut Vec<u16>, stride: u32, width: u32, height: u32, radius: u32,
    channels: FastBlurChannels, threading_policy: ThreadingPolicy,
)
    requires
        1 <= width,
        1 <= height,
        1 <= radius,
        width * channels.channel_count() <= stride,
        old(bytes)@.len() == stride * height,
    ensures
        final(bytes)@ == fgn_h_image16(
            fgn_v_image16(old(bytes)@, stride as int, width as int, height as int,
                channels.channel_count(), if radius > 152 { 152int } else { radius as int }),
            stride as int, width as int, height as int, channels.channel_count(),
            if radius > 152 { 152int } else { radius as int },
        ),
{
    let cn = channels.get_channels();
    let acq: u32 = if radius > 152 { 152 } else { radius };
    let vertical = fgn_vertical_pass16(bytes, stride as usize, width as usize, height as usize,
        cn, acq as usize);
    let out = fgn_horizontal_pass16(&vertical, stride as usize, width as usize, height as usize,
        cn, acq as usize);
    *bytes = out;
}

} // verus!
