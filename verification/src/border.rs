//! Resolution of out-of-bounds coordinates to in-bounds source indices.
//!
//! Every filter pass reads neighbourhoods that spill over the image edge;
//! this module decides, per [`EdgeMode`], which in-bounds sample stands in
//! for a coordinate outside `[0, n)`.  All resolvers are total over `i64`
//! coordinates and never panic.

use vstd::prelude::*;

use crate::EdgeMode;
use vstd::arithmetic::div_mod::{
    lemma_fundamental_div_mod, lemma_fundamental_div_mod_converse_mod,
};

verus! {

/// Saturation to `[0, n - 1]`.
pub open spec fn clamp_index(i: int, n: int) -> int {
    if i < 0 {
        0
    } else if i >= n {
        n - 1
    } else {
        i
    }
}

/// Mirroring with the edge sample repeated: period `2n`, so that
/// coordinate `-k` maps to `k - 1` and `n - 1 + k` maps to `n - k`.
pub open spec fn reflect_index(i: int, n: int) -> int {
    let m = i % (2 * n);
    if m < n {
        m
    } else {
        2 * n - 1 - m
    }
}

/// Mirroring around the edge sample itself: period `2n - 2`, so that
/// coordinate `-k` maps to `k` and `n - 1 + k` maps to `n - 1 - k`.
pub open spec fn reflect101_index(i: int, n: int) -> int {
    if n <= 1 {
        0
    } else {
        let m = i % (2 * n - 2);
        if m < n {
            m
        } else {
            2 * n - 2 - m
        }
    }
}

/// Euclidean wrap-around to `[0, n)`.
pub open spec fn wrap_index(i: int, n: int) -> int {
    i % n
}

/// The in-bounds index that stands in for coordinate `i` on an axis of
/// extent `n`.  For [`EdgeMode::Constant`] the index is only meaningful for
/// in-bounds `i`; out-of-bounds samples are replaced by the caller's
/// constant instead of being read, so clamping keeps the function total.
pub open spec fn resolve_index_spec(mode: EdgeMode, i: int, n: int) -> int {
    match mode {
        EdgeMode::Clamp => clamp_index(i, n),
        EdgeMode::Reflect => reflect_index(i, n),
        EdgeMode::Reflect101 => reflect101_index(i, n),
        EdgeMode::Wrap => wrap_index(i, n),
        EdgeMode::Constant => clamp_index(i, n),
    }
}

/// Euclidean remainder of a possibly negative coordinate.
fn euclid_rem(i: i64, p: i64) -> (r: i64)
    requires
        1 <= p <= 0x2_0000_0000,
        -0x4000_0000_0000_0000 < i <= 0x4000_0000_0000_0000,
    ensures
        r == (i as int) % (p as int),
        0 <= r < p,
{
    if i >= 0 {
        let r = ((i as u64) % (p as u64)) as i64;
        proof {
            assert((i as u64) % (p as u64) == (i as int) % (p as int));
        }
        r
    } else {
        let k: u64 = (-i) as u64;
        let m: u64 = k % (p as u64);
        proof {
            let pi = p as int;
            let ki = k as int;
            lemma_fundamental_div_mod(ki, pi);
            let q = ki / pi;
            let mi = ki % pi;
            if m == 0 {
                assert(i as int == (-q) * pi + 0) by (nonlinear_arith)
                    requires
                        ki == pi * q + mi,
                        mi == 0,
                        i as int == -ki,
                ;
                lemma_fundamental_div_mod_converse_mod(i as int, pi, -q, 0);
            } else {
                assert(i as int == (-q - 1) * pi + (pi - mi)) by (nonlinear_arith)
                    requires
                        ki == pi * q + mi,
                        i as int == -ki,
                ;
                lemma_fundamental_div_mod_converse_mod(i as int, pi, -q - 1, pi - mi);
            }
        }
        if m == 0 {
            0
        } else {
            (p as u64 - m) as i64
        }
    }
}

/// Resolves coordinate `i` on an axis of extent `n` to an in-bounds index
/// according to `mode`.  Total: any coordinate in the accepted range yields
/// an index below `n` without panicking.
pub fn resolve_edge(mode: EdgeMode, i: i64, n: usize) -> (r: usize)
    requires
        1 <= n <= 0x1_0000_0000,
        -0x1_0000_0000_0000 <= i <= 0x1_0000_0000_0000,
    ensures
        r == resolve_index_spec(mode, i as int, n as int),
        r < n,
{
    match mode {
        EdgeMode::Clamp | EdgeMode::Constant => {
            if i < 0 {
                0
            } else if i >= n as i64 {
                n - 1
            } else {
                i as usize
            }
        },
        EdgeMode::Reflect => {
            let m = euclid_rem(i, 2 * (n as i64));
            if m < n as i64 {
                m as usize
            } else {
                (2 * (n as i64) - 1 - m) as usize
            }
        },
        EdgeMode::Reflect101 => {
            if n == 1 {
                0
            } else {
                let m = euclid_rem(i, 2 * (n as i64) - 2);
                if m < n as i64 {
                    m as usize
                } else {
                    (2 * (n as i64) - 2 - m) as usize
                }
            }
        },
        EdgeMode::Wrap => {
            let m = euclid_rem(i, n as i64);
            m as usize
        },
    }
}

/// Every resolver yields an in-bounds index.
pub proof fn lemma_resolve_in_range(mode: EdgeMode, i: int, n: int)
    requires
        1 <= n,
    ensures
        0 <= resolve_index_spec(mode, i, n) < n,
{
    vstd::arithmetic::div_mod::lemma_mod_bound(i, 2 * n);
    vstd::arithmetic::div_mod::lemma_mod_bound(i, n);
    if n > 1 {
        vstd::arithmetic::div_mod::lemma_mod_bound(i, 2 * n - 2);
    }
}

/// Every resolver maps an in-bounds coordinate to itself.
pub proof fn lemma_resolve_in_bounds_identity(mode: EdgeMode, i: int, n: int)
    requires
        0 <= i < n,
    ensures
        resolve_index_spec(mode, i, n) == i,
{
    vstd::arithmetic::div_mod::lemma_small_mod(i as nat, (2 * n) as nat);
    vstd::arithmetic::div_mod::lemma_small_mod(i as nat, n as nat);
    if n > 1 {
        if i < 2 * n - 2 {
            vstd::arithmetic::div_mod::lemma_small_mod(i as nat, (2 * n - 2) as nat);
        } else {
            // i == n - 1 and n == 2, so i == 1 and the period is 2.
            lemma_fundamental_div_mod_converse_mod(i, 2 * n - 2, 0, i);
        }
    }
}

/// Mirrored edge resolution one step past the left edge: under `Reflect`
/// the resolved sample is the edge pixel itself, under `Reflect101` it is
/// the pixel next to the edge.
pub proof fn lemma_reflect_left_edge(n: int)
    requires
        n >= 2,
    ensures
        reflect_index(-1, n) == 0,
        reflect101_index(-1, n) == 1,
{
    lemma_fundamental_div_mod_converse_mod(-1, 2 * n, -1, 2 * n - 1);
    lemma_fundamental_div_mod_converse_mod(-1, 2 * n - 2, -1, 2 * n - 3);
}

} // verus!
