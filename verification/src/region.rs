//! Partitioning of an image extent into contiguous worker regions.
//!
//! A filter invocation splits the extent perpendicular to the pass
//! direction into `workers` half-open ranges, one per worker; the last
//! range absorbs the remainder of the integer division.  Because every
//! worker writes only inside its own range, the ranges being pairwise
//! disjoint and jointly covering the extent is the invariant that makes
//! the shared output buffer safe, and it also makes the result
//! independent of the number of workers.

use vstd::prelude::*;

use vstd::arithmetic::div_mod::lemma_fundamental_div_mod;
use vstd::arithmetic::mul::lemma_mul_inequality;

verus! {

/// The half-open slice of the perpendicular extent owned by one worker.
#[derive(Clone, Copy, PartialEq, Eq, Structural, Debug)]
pub struct FilterRegion {
    /// First owned index.
    pub start: usize,
    /// One past the last owned index.
    pub end: usize,
}

/// Start of worker `i`'s region when `extent` is split into `workers` parts.
pub open spec fn region_start(extent: int, workers: int, i: int) -> int {
    i * (extent / workers)
}

/// End of worker `i`'s region; the last worker absorbs the remainder.
pub open spec fn region_end(extent: int, workers: int, i: int) -> int {
    if i == workers - 1 {
        extent
    } else {
        (i + 1) * (extent / workers)
    }
}

/// Builds the worker regions for an extent.
pub fn make_regions(extent: usize, workers: usize) -> (regions: Vec<FilterRegion>)
    requires
        1 <= workers,
    ensures
        regions.len() == workers,
        forall|i: int| 0 <= i < workers ==> {
            &&& (#[trigger] regions[i]).start == region_start(extent as int, workers as int, i)
            &&& regions[i].end == region_end(extent as int, workers as int, i)
        },
{
    let seg: usize = extent / workers;
    let mut regions: Vec<FilterRegion> = Vec::new();
    let mut i: usize = 0;
    while i < workers
        invariant
            i <= workers,
            1 <= workers,
            seg == extent as int / workers as int,
            regions.len() == i,
            forall|j: int| 0 <= j < i ==> {
                &&& (#[trigger] regions[j]).start == region_start(extent as int, workers as int, j)
                &&& regions[j].end == region_end(extent as int, workers as int, j)
            },
        decreases workers - i,
    {
        proof {
            lemma_regions_ordered(extent as int, workers as int, i as int);
        }
        let start = i * seg;
        let end = if i == workers - 1 {
            extent
        } else {
            (i + 1) * seg
        };
        regions.push(FilterRegion { start, end });
        i = i + 1;
    }
    regions
}

/// The regions are in order: each starts where it should, stays inside the
/// extent, and ends where the next one starts.
pub proof fn lemma_regions_ordered(extent: int, workers: int, i: int)
    requires
        0 <= extent,
        1 <= workers,
        0 <= i < workers,
    ensures
        0 <= region_start(extent, workers, i),
        region_start(extent, workers, i) <= region_end(extent, workers, i),
        region_end(extent, workers, i) <= extent,
        region_start(extent, workers, 0) == 0,
        region_end(extent, workers, workers - 1) == extent,
        i < workers - 1 ==> region_end(extent, workers, i) == region_start(extent, workers, i + 1),
{
    let seg = extent / workers;
    lemma_fundamental_div_mod(extent, workers);
    assert(0 <= seg) by (nonlinear_arith)
        requires extent == workers * seg + extent % workers, 0 <= extent % workers < workers, 0 <= extent, 1 <= workers,
    ;
    assert(0 <= i * seg <= (i + 1) * seg) by (nonlinear_arith)
        requires 0 <= i, 0 <= seg,
    ;
    if i < workers - 1 {
        lemma_mul_inequality(i + 1, workers, seg);
        assert(workers * seg <= extent) by (nonlinear_arith)
            requires extent == workers * seg + extent % workers, 0 <= extent % workers,
        ;
        assert((i + 1) * seg == seg * (i + 1)) by (nonlinear_arith);
        assert(workers * seg == seg * workers) by (nonlinear_arith);
    }
}

/// Pairwise disjointness: the region of an earlier worker ends no later
/// than the region of a later worker begins.
pub proof fn lemma_regions_disjoint(extent: int, workers: int, i: int, j: int)
    requires
        0 <= extent,
        1 <= workers,
        0 <= i < j < workers,
    ensures
        region_end(extent, workers, i) <= region_start(extent, workers, j),
    decreases j - i,
{
    lemma_regions_ordered(extent, workers, i);
    lemma_regions_ordered(extent, workers, j);
    if j == i + 1 {
    } else {
        lemma_regions_disjoint(extent, workers, i, j - 1);
        lemma_regions_ordered(extent, workers, j - 1);
    }
}

/// Full coverage: every index of the extent lies in some worker's region.
pub proof fn lemma_regions_cover(extent: int, workers: int, t: int)
    requires
        0 <= extent,
        1 <= workers,
        0 <= t < extent,
    ensures
        exists|i: int| 0 <= i < workers
            && #[trigger] region_start(extent, workers, i) <= t < region_end(extent, workers, i),
    decreases workers,
{
    if workers == 1 {
        assert(region_start(extent, workers, 0) <= t < region_end(extent, workers, 0));
    } else {
        lemma_regions_ordered(extent, workers, workers - 1);
        if t >= region_start(extent, workers, workers - 1) {
            assert(region_start(extent, workers, workers - 1) <= t
                < region_end(extent, workers, workers - 1));
        } else {
            lemma_regions_cover_inner(extent, workers, t, workers - 1);
        }
    }
}

/// Helper: a coordinate below the start of region `hi` lies in an earlier
/// region.
proof fn lemma_regions_cover_inner(extent: int, workers: int, t: int, hi: int)
    requires
        0 <= extent,
        1 <= workers,
        0 < hi < workers,
        0 <= t < region_start(extent, workers, hi),
    ensures
        exists|i: int| 0 <= i < hi
            && #[trigger] region_start(extent, workers, i) <= t < region_end(extent, workers, i),
    decreases hi,
{
    lemma_regions_ordered(extent, workers, hi - 1);
    if t >= region_start(extent, workers, hi - 1) {
        assert(region_end(extent, workers, hi - 1) == region_start(extent, workers, hi));
        assert(region_start(extent, workers, hi - 1) <= t < region_end(extent, workers, hi - 1));
    } else {
        lemma_regions_cover_inner(extent, workers, t, hi - 1);
        let w = choose|i: int| 0 <= i < hi - 1
            && #[trigger] region_start(extent, workers, i) <= t < region_end(extent, workers, i);
        assert(region_start(extent, workers, w) <= t < region_end(extent, workers, w));
    }
}

} // verus!
