//! Kernel scanning: symmetry classification and tap sums.
//!
//! A 1D kernel is a vector of fixed-point weights with an odd length; its
//! radius is half the length.  The scanner classifies a kernel as
//! symmetric (each weight equals its mirror) and emits the compact scan
//! representation of (offset, weight) taps.  The tap-sum spec functions
//! here give every convolution pass in the crate its meaning, and the
//! folding law proves that the symmetric fast path — add the two mirrored
//! samples, multiply once — computes exactly the general sum.

use vstd::prelude::*;

verus! {

/// One retained kernel tap: its offset from the window start and its
/// fixed-point weight.
#[derive(Clone, Copy, PartialEq, Eq, Structural, Debug)]
pub struct ScanPoint1d {
    /// Offset of the tap relative to the kernel centre.
    pub offset: i64,
    /// Fixed-point weight of the tap.
    pub weight: i32,
}

/// A weight vector as a sequence of mathematical integers.
pub open spec fn weights_of(k: Seq<i32>) -> Seq<int> {
    k.map_values(|w: i32| w as int)
}

/// Whether every weight equals its mirror around the centre.
pub open spec fn is_symmetric_kernel(wt: Seq<int>) -> bool {
    forall|i: int| 0 <= i < wt.len() ==> #[trigger] wt[i] == wt[wt.len() - 1 - i]
}

/// The weighted sum of taps `a ..< b`: weight `i` times the sample the
/// source function yields at `x0 + i`.
pub open spec fn tap_sum(f: spec_fn(int) -> int, wt: Seq<int>, x0: int, a: int, b: int) -> int
    decreases b - a,
{
    if a >= b {
        0
    } else {
        wt[a] * f(x0 + a) + tap_sum(f, wt, x0, a + 1, b)
    }
}

/// The folded sum of the first `j` tap pairs: weight `i` times the sum of
/// the sample at `i` and the sample at its mirror.
pub open spec fn fold_tap_sum(f: spec_fn(int) -> int, wt: Seq<int>, x0: int, j: int) -> int
    decreases j,
{
    if j <= 0 {
        0
    } else {
        fold_tap_sum(f, wt, x0, j - 1)
            + wt[j - 1] * (f(x0 + j - 1) + f(x0 + wt.len() - j))
    }
}

/// Peeling the last tap off a tap sum.
pub proof fn lemma_tap_sum_peel_hi(f: spec_fn(int) -> int, wt: Seq<int>, x0: int, a: int, b: int)
    requires
        a < b,
    ensures
        tap_sum(f, wt, x0, a, b) == tap_sum(f, wt, x0, a, b - 1) + wt[b - 1] * f(x0 + b - 1),
    decreases b - a,
{
    if a == b - 1 {
        assert(tap_sum(f, wt, x0, a + 1, b) == 0);
        assert(tap_sum(f, wt, x0, a, b - 1) == 0);
    } else {
        lemma_tap_sum_peel_hi(f, wt, x0, a + 1, b);
    }
}

/// A tap sum over weights within `[-wb, wb]` and samples within `[0, m]`
/// is within `count * wb * m` of zero.
pub proof fn lemma_tap_sum_bounds(
    f: spec_fn(int) -> int, wt: Seq<int>, x0: int, a: int, b: int, wb: int, m: int,
)
    requires
        a <= b,
        0 <= wb,
        0 <= m,
        forall|i: int| a <= i < b ==> -wb <= #[trigger] wt[i] <= wb,
        forall|i: int| a <= i < b ==> 0 <= #[trigger] f(x0 + i) <= m,
    ensures
        -((b - a) * wb * m) <= tap_sum(f, wt, x0, a, b) <= (b - a) * wb * m,
    decreases b - a,
{
    if a < b {
        lemma_tap_sum_bounds(f, wt, x0, a + 1, b, wb, m);
        assert(-(wb * m) <= wt[a] * f(x0 + a) <= wb * m) by (nonlinear_arith)
            requires -wb <= wt[a] <= wb, 0 <= f(x0 + a) <= m, 0 <= wb, 0 <= m,
        ;
        assert((b - a) * wb * m == wb * m + (b - a - 1) * wb * m) by (nonlinear_arith);
    }
}

/// A folded tap sum over weights within `[-wb, wb]` and samples within
/// `[0, m]` is within `count * wb * (2 * m)` of zero.
pub proof fn lemma_fold_tap_sum_bounds(
    f: spec_fn(int) -> int, wt: Seq<int>, x0: int, j: int, wb: int, m: int,
)
    requires
        0 <= j <= wt.len(),
        0 <= wb,
        0 <= m,
        forall|i: int| 0 <= i < wt.len() ==> -wb <= #[trigger] wt[i] <= wb,
        forall|i: int| 0 <= i < wt.len() ==> 0 <= #[trigger] f(x0 + i) <= m,
    ensures
        -(j * wb * (2 * m)) <= fold_tap_sum(f, wt, x0, j) <= j * wb * (2 * m),
    decreases j,
{
    if j > 0 {
        lemma_fold_tap_sum_bounds(f, wt, x0, j - 1, wb, m);
        let a1 = j - 1;
        let a2 = wt.len() - j;
        assert(0 <= f(x0 + a1) <= m);
        assert(0 <= f(x0 + a2) <= m);
        assert(f(x0 + a1) == f(x0 + j - 1));
        assert(f(x0 + a2) == f(x0 + wt.len() - j));
        assert(-(wb * (2 * m)) <= wt[j - 1] * (f(x0 + j - 1) + f(x0 + wt.len() - j)) <= wb * (2 * m))
            by (nonlinear_arith)
            requires
                -wb <= wt[j - 1] <= wb,
                0 <= f(x0 + j - 1) <= m,
                0 <= f(x0 + wt.len() - j) <= m,
                0 <= wb,
                0 <= m,
        ;
        assert(j * wb * (2 * m) == wb * (2 * m) + (j - 1) * wb * (2 * m)) by (nonlinear_arith);
    }
}

/// Two sources that agree on shifted windows give the same tap sum.
pub proof fn lemma_tap_sum_shift(
    f: spec_fn(int) -> int, g: spec_fn(int) -> int, wt: Seq<int>, x0: int, x1: int, a: int, b: int,
)
    requires
        forall|i: int| a <= i < b ==> #[trigger] f(x0 + i) == g(x1 + i),
    ensures
        tap_sum(f, wt, x0, a, b) == tap_sum(g, wt, x1, a, b),
    decreases b - a,
{
    if a < b {
        lemma_tap_sum_shift(f, g, wt, x0, x1, a + 1, b);
        assert(f(x0 + a) == g(x1 + a));
    }
}

/// The folding law: for a symmetric kernel of odd length, the folded sum
/// of the first `j` pairs plus the remaining middle taps equals the whole
/// general sum.
proof fn lemma_fold_partial(f: spec_fn(int) -> int, wt: Seq<int>, x0: int, j: int)
    requires
        wt.len() % 2 == 1,
        is_symmetric_kernel(wt),
        0 <= j <= (wt.len() / 2) as int,
    ensures
        tap_sum(f, wt, x0, 0, wt.len() as int)
            == fold_tap_sum(f, wt, x0, j) + tap_sum(f, wt, x0, j, wt.len() - j),
    decreases j,
{
    let ln = wt.len() as int;
    if j == 0 {
    } else {
        lemma_fold_partial(f, wt, x0, j - 1);
        // Peel the first and the last tap off the middle segment.
        assert(tap_sum(f, wt, x0, j - 1, ln - (j - 1))
            == wt[j - 1] * f(x0 + j - 1) + tap_sum(f, wt, x0, j, ln - j + 1));
        lemma_tap_sum_peel_hi(f, wt, x0, j, ln - j + 1);
        assert(wt[j - 1] == wt[ln - 1 - (j - 1)]);
        assert(wt[j - 1] * (f(x0 + j - 1) + f(x0 + ln - j))
            == wt[j - 1] * f(x0 + j - 1) + wt[j - 1] * f(x0 + ln - j)) by (nonlinear_arith);
    }
}

/// The symmetric-kernel fast path computes the general sum: folding the
/// mirrored taps of a symmetric odd-length kernel and adding the centre
/// tap once yields exactly the unfolded weighted sum.
pub proof fn lemma_symmetric_fold_equals_general(f: spec_fn(int) -> int, wt: Seq<int>, x0: int)
    requires
        wt.len() % 2 == 1,
        is_symmetric_kernel(wt),
    ensures
        tap_sum(f, wt, x0, 0, wt.len() as int)
            == fold_tap_sum(f, wt, x0, (wt.len() / 2) as int)
                + wt[(wt.len() / 2) as int] * f(x0 + (wt.len() / 2) as int),
{
    let ln = wt.len() as int;
    let half = ln / 2;
    lemma_fold_partial(f, wt, x0, half);
    assert(ln - half == half + 1);
    assert(tap_sum(f, wt, x0, half, half + 1)
        == wt[half] * f(x0 + half) + tap_sum(f, wt, x0, half + 1, half + 1));
}

/// A kernel whose taps are all zero except a centre tap of weight `u`
/// sums to `u` times the centre sample.
pub proof fn lemma_unit_kernel_sum(f: spec_fn(int) -> int, wt: Seq<int>, x0: int, u: int)
    requires
        wt.len() % 2 == 1,
        forall|i: int| 0 <= i < wt.len() && i != (wt.len() / 2) as int ==> #[trigger] wt[i] == 0,
        wt[(wt.len() / 2) as int] == u,
    ensures
        tap_sum(f, wt, x0, 0, wt.len() as int) == u * f(x0 + (wt.len() / 2) as int),
{
    lemma_unit_kernel_sum_range(f, wt, x0, u, wt.len() as int);
}

/// Helper: the partial sums of a degenerate kernel hold only the centre
/// contribution once the range passes the centre.
proof fn lemma_unit_kernel_sum_range(
    f: spec_fn(int) -> int, wt: Seq<int>, x0: int, u: int, b: int,
)
    requires
        wt.len() % 2 == 1,
        forall|i: int| 0 <= i < wt.len() && i != (wt.len() / 2) as int ==> #[trigger] wt[i] == 0,
        wt[(wt.len() / 2) as int] == u,
        0 <= b <= wt.len(),
    ensures
        tap_sum(f, wt, x0, 0, b)
            == if b > (wt.len() / 2) as int { u * f(x0 + (wt.len() / 2) as int) } else { 0 },
    decreases b,
{
    if b > 0 {
        lemma_unit_kernel_sum_range(f, wt, x0, u, b - 1);
        lemma_tap_sum_peel_hi(f, wt, x0, 0, b);
        if b - 1 != (wt.len() / 2) as int {
            assert(wt[b - 1] == 0);
            assert(wt[b - 1] * f(x0 + b - 1) == 0) by (nonlinear_arith)
                requires wt[b - 1] == 0,
            ;
        }
    }
}

/// Classifies a kernel: true exactly when every weight equals its mirror.
pub fn kernel_is_symmetric(kernel: &Vec<i32>) -> (b: bool)
    ensures
        b == is_symmetric_kernel(weights_of(kernel@)),
{
    let ln = kernel.len();
    let mut i: usize = 0;
    while i < ln / 2
        invariant
            i <= ln / 2,
            ln == kernel@.len(),
            forall|j: int| 0 <= j < i ==> #[trigger] weights_of(kernel@)[j]
                == weights_of(kernel@)[ln - 1 - j],
        decreases ln / 2 - i,
    {
        if kernel[i] != kernel[ln - 1 - i] {
            proof {
                let wt = weights_of(kernel@);
                assert(wt[i as int] == kernel@[i as int] as int);
                assert(wt[ln - 1 - i] == kernel@[ln - 1 - i] as int);
                assert(!is_symmetric_kernel(wt));
            }
            return false;
        }
        i = i + 1;
    }
    proof {
        let wt = weights_of(kernel@);
        assert forall|j: int| 0 <= j < ln implies #[trigger] wt[j] == wt[ln - 1 - j] by {
            if j >= ln - 1 - j {
                let j2 = ln - 1 - j;
                assert(j2 < ln / 2 || j2 == j);
                assert(wt[j2] == wt[ln - 1 - j2] || j2 == j);
            }
        }
    }
    true
}

/// Emits the scan representation of a kernel: for a symmetric kernel only
/// the taps up to and including the centre are retained, each standing for
/// itself and its mirror; otherwise every tap is retained.  Offsets are
/// relative to the kernel centre.
pub fn scan(kernel: &Vec<i32>) -> (r: (bool, Vec<ScanPoint1d>))
    requires
        kernel@.len() % 2 == 1,
        kernel@.len() <= 0x100_0000,
    ensures
        r.0 == is_symmetric_kernel(weights_of(kernel@)),
        r.1@.len() == if r.0 { (kernel@.len() / 2) as int + 1 } else { kernel@.len() as int },
        forall|i: int| 0 <= i < r.1@.len() ==> {
            &&& (#[trigger] r.1@[i]).offset == i - (kernel@.len() / 2) as int
            &&& r.1@[i].weight == kernel@[i]
        },
{
    let symmetric = kernel_is_symmetric(kernel);
    let radius: usize = kernel.len() / 2;
    let keep: usize = if symmetric { radius + 1 } else { kernel.len() };
    let mut points: Vec<ScanPoint1d> = Vec::new();
    let mut i: usize = 0;
    while i < keep
        invariant
            i <= keep,
            keep <= kernel@.len(),
            radius == (kernel@.len() / 2) as int,
            kernel@.len() <= 0x100_0000,
            points@.len() == i,
            forall|j: int| 0 <= j < i ==> {
                &&& (#[trigger] points@[j]).offset == j - radius
                &&& points@[j].weight == kernel@[j]
            },
        decreases keep - i,
    {
        points.push(ScanPoint1d { offset: i as i64 - radius as i64, weight: kernel[i] });
        i = i + 1;
    }
    (symmetric, points)
}

} // verus!
