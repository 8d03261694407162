//! The border-padded arena: a copy of the source plane with every
//! out-of-bounds neighbour pre-resolved, so that convolution passes read
//! contiguous samples without per-pixel edge tests.

use vstd::prelude::*;

use crate::border::{lemma_resolve_in_range, resolve_edge, resolve_index_spec};
use crate::pixel::{as_ints, is_pixel_pos, lemma_pix_decompose, pix_offset, sample};
use crate::{BlurError, EdgeMode};

verus! {

/// Extent and padding of an arena buffer.
#[derive(Clone, Copy, PartialEq, Eq, Structural, Debug)]
pub struct Arena {
    /// Padding columns on the left edge.
    pub pad_left: usize,
    /// Padding columns on the right edge.
    pub pad_right: usize,
    /// Padding rows on the top edge.
    pub pad_top: usize,
    /// Padding rows on the bottom edge.
    pub pad_bottom: usize,
    /// Padded width in pixels.
    pub width: usize,
    /// Padded height in pixels.
    pub height: usize,
    /// Interleaved channels per pixel.
    pub components: usize,
}

/// The sample a filter reads at coordinate `(x, y)` of a `w` by `h` plane:
/// the plane's own sample when in bounds, otherwise the caller's constant
/// or the sample at the resolved in-bounds coordinate.
pub open spec fn border_sample(
    src: Seq<int>, w: int, h: int, cn: int, ch: int, x: int, y: int, mode: EdgeMode, konst: int,
) -> int {
    if 0 <= x < w && 0 <= y < h {
        sample(src, w * cn, cn, x, y, ch)
    } else if mode == EdgeMode::Constant {
        konst
    } else {
        sample(src, w * cn, cn, resolve_index_spec(mode, x, w), resolve_index_spec(mode, y, h), ch)
    }
}

/// A border sample of an 8-bit plane is a byte value.
pub proof fn lemma_border_sample_bounds(
    src: Seq<u8>, w: int, h: int, cn: int, ch: int, x: int, y: int, mode: EdgeMode, konst: u8,
)
    requires
        1 <= cn,
        1 <= w,
        1 <= h,
        0 <= ch < cn,
        src.len() == w * cn * h,
    ensures
        0 <= border_sample(as_ints(src), w, h, cn, ch, x, y, mode, konst as int) <= 255,
{
    if 0 <= x < w && 0 <= y < h {
        lemma_pix_decompose(w * cn, cn, w, h, x, y, ch);
    } else if mode != EdgeMode::Constant {
        lemma_resolve_in_range(mode, x, w);
        lemma_resolve_in_range(mode, y, h);
        lemma_pix_decompose(
            w * cn, cn, w, h, resolve_index_spec(mode, x, w), resolve_index_spec(mode, y, h), ch,
        );
    }
}

/// The padded plane as a sequence: pixel `(ax, ay)` of the arena holds the
/// border sample at `(ax - pad_x, ay - pad_y)` of the source.
pub open spec fn arena_image(
    src: Seq<u8>, w: int, h: int, cn: int, pad_x: int, pad_y: int, mode: EdgeMode, konst: u8,
) -> Seq<u8> {
    let aw = w + 2 * pad_x;
    let ah = h + 2 * pad_y;
    Seq::new(
        (aw * cn * ah) as nat,
        |k: int| border_sample(
            as_ints(src), w, h, cn, (k % (aw * cn)) % cn,
            (k % (aw * cn)) / cn - pad_x, k / (aw * cn) - pad_y, mode, konst as int,
        ) as u8,
    )
}

/// Reading a pixel of the arena yields the border sample it was built
/// from.
pub proof fn lemma_arena_image_sample(
    src: Seq<u8>, w: int, h: int, cn: int, pad_x: int, pad_y: int, mode: EdgeMode, konst: u8,
    ax: int, ay: int, ch: int,
)
    requires
        1 <= cn,
        1 <= w,
        1 <= h,
        0 <= ax < w + 2 * pad_x,
        0 <= ay < h + 2 * pad_y,
        0 <= ch < cn,
        0 <= pad_x,
        0 <= pad_y,
        src.len() == w * cn * h,
    ensures
        sample(
            as_ints(arena_image(src, w, h, cn, pad_x, pad_y, mode, konst)),
            (w + 2 * pad_x) * cn, cn, ax, ay, ch,
        ) == border_sample(as_ints(src), w, h, cn, ch, ax - pad_x, ay - pad_y, mode, konst as int),
{
    let aw = w + 2 * pad_x;
    let ah = h + 2 * pad_y;
    assert(aw * cn == aw * cn);
    lemma_pix_decompose(aw * cn, cn, aw, ah, ax, ay, ch);
    lemma_border_sample_bounds(src, w, h, cn, ch, ax - pad_x, ay - pad_y, mode, konst);
    assert(aw * cn * ah == (aw * cn) * ah);
}

/// Builds the padded arena for a plane: every cell outside the source
/// bounds is pre-resolved through the edge mode.  Fails with
/// `InvalidShape` on an empty extent and with `SizeMismatch` when the
/// source length does not match the extent, and only then.
#[verifier::loop_isolation(false)]
#[verifier::rlimit(80)]
pub fn make_arena(
    src: &Vec<u8>, w: usize, h: usize, cn: usize, pad_x: usize, pad_y: usize, mode: EdgeMode,
    konst: u8,
) -> (res: Result<(Vec<u8>, Arena), BlurError>)
    requires
        1 <= cn <= 4,
        w <= 0xffff_ffff,
        h <= 0xffff_ffff,
        pad_x <= 0xffff_ffff,
        pad_y <= 0xffff_ffff,
        (w + 2 * pad_x) * cn * (h + 2 * pad_y) <= usize::MAX,
    ensures
        res is Ok <==> (1 <= w && 1 <= h && src@.len() == w * cn * h),
        res matches Err(e) ==> if w == 0 || h == 0 {
            e == BlurError::InvalidShape
        } else {
            e == BlurError::SizeMismatch
        },
        res matches Ok(ok) ==> {
            &&& ok.0@ == arena_image(src@, w as int, h as int, cn as int, pad_x as int, pad_y as int, mode, konst)
            &&& ok.0@.len() == (w + 2 * pad_x) * cn * (h + 2 * pad_y)
            &&& ok.1 == (Arena {
                pad_left: pad_x, pad_right: pad_x, pad_top: pad_y, pad_bottom: pad_y,
                width: (w + 2 * pad_x) as usize, height: (h + 2 * pad_y) as usize, components: cn,
            })
        },
{
    if w == 0 || h == 0 {
        return Err(BlurError::InvalidShape);
    }
    proof {
        assert(w * cn * h <= (w + 2 * pad_x) * cn * (h + 2 * pad_y)) by (nonlinear_arith)
            requires 0 <= w, 0 <= cn, 1 <= h, 0 <= pad_x, 0 <= pad_y,
        ;
        assert(w * cn <= w * cn * h) by (nonlinear_arith)
            requires 0 <= w, 0 <= cn, 1 <= h,
        ;
    }
    let wcn: usize = w * cn;
    let expected: usize = wcn * h;
    if src.len() != expected {
        return Err(BlurError::SizeMismatch);
    }
    proof {
        assert(w + 2 * pad_x <= (w + 2 * pad_x) * cn * (h + 2 * pad_y)
            && h + 2 * pad_y <= (w + 2 * pad_x) * cn * (h + 2 * pad_y)) by (nonlinear_arith)
            requires 1 <= cn, 1 <= h, 1 <= w, 0 <= pad_x, 0 <= pad_y,
        ;
    }
    let aw: usize = w + 2 * pad_x;
    let ah: usize = h + 2 * pad_y;
    proof {
        assert(aw * cn <= aw * cn * ah) by (nonlinear_arith)
            requires 1 <= ah, 0 <= aw * cn,
        ;
        assert(0 <= aw * cn) by (nonlinear_arith)
            requires 0 <= aw, 0 <= cn,
        ;
    }
    let awcn: usize = aw * cn;
    let ghost gim = arena_image(src@, w as int, h as int, cn as int, pad_x as int, pad_y as int, mode, konst);
    proof {
        assert(aw * cn * ah == awcn * ah);
    }
    let mut buf: Vec<u8> = Vec::new();
    let mut ay: usize = 0;
    while ay < ah
        invariant
            ay <= ah,
            buf@.len() == awcn * ay,
            forall|k: int| 0 <= k < buf@.len() ==> buf@[k] == gim[k],
        decreases ah - ay,
    {
        proof {
            assert(awcn * ay == (ay as int) * (awcn as int)) by (nonlinear_arith);
            assert(awcn * (ay + 1) == awcn * ay + awcn) by (nonlinear_arith);
            assert(awcn * (ay + 1) <= awcn * ah) by (nonlinear_arith)
                requires ay + 1 <= ah, 0 <= awcn,
            ;
        }
        let mut ax: usize = 0;
        while ax < aw
            invariant
                ax <= aw,
                ay < ah,
                buf@.len() == awcn * ay + ax * cn,
                forall|k: int| 0 <= k < buf@.len() ==> buf@[k] == gim[k],
            decreases aw - ax,
        {
            proof {
                assert(x_mul_bounds(ax as int, cn as int, aw as int)) by (nonlinear_arith)
                    requires ax + 1 <= aw, 0 <= cn, 0 <= ax,
                ;
            }
            let mut c: usize = 0;
            while c < cn
                invariant
                    c <= cn,
                    ax < aw,
                    ay < ah,
                    buf@.len() == awcn * ay + ax * cn + c,
                    forall|k: int| 0 <= k < buf@.len() ==> buf@[k] == gim[k],
                decreases cn - c,
            {
                let sx: i64 = ax as i64 - pad_x as i64;
                let sy: i64 = ay as i64 - pad_y as i64;
                let ghost sxi = sx as int;
                let ghost syi = sy as int;
                let v: u8 = if 0 <= sx && sx < w as i64 && 0 <= sy && sy < h as i64 {
                    crate::pixel::sample_at(src, wcn, cn, sx as usize, sy as usize, c,
                        Ghost(w as int), Ghost(h as int))
                } else if matches!(mode, EdgeMode::Constant) {
                    konst
                } else {
                    let rx = resolve_edge(mode, sx, w);
                    let ry = resolve_edge(mode, sy, h);
                    crate::pixel::sample_at(src, wcn, cn, rx, ry, c, Ghost(w as int), Ghost(h as int))
                };
                proof {
                    lemma_pix_decompose(awcn as int, cn as int, aw as int, ah as int,
                        ax as int, ay as int, c as int);
                    lemma_border_sample_bounds(src@, w as int, h as int, cn as int, c as int,
                        sxi, syi, mode, konst);
                    assert(buf@.len() == pix_offset(awcn as int, cn as int, ax as int, ay as int, c as int));
                    assert(v as int == border_sample(as_ints(src@), w as int, h as int, cn as int,
                        c as int, sxi, syi, mode, konst as int));
                    assert(gim[buf@.len() as int] == v);
                }
                buf.push(v);
                c = c + 1;
            }
            ax = ax + 1;
        }
        ay = ay + 1;
    }
    proof {
        assert(buf@ =~= gim);
    }
    Ok((buf, Arena {
        pad_left: pad_x, pad_right: pad_x, pad_top: pad_y, pad_bottom: pad_y,
        width: aw, height: ah, components: cn,
    }))
}

/// Helper bound on one pixel's channel block inside a row.
spec fn x_mul_bounds(x: int, cn: int, aw: int) -> bool {
    x * cn + cn == (x + 1) * cn && (x + 1) * cn <= aw * cn && 0 <= x * cn
}

} // verus!
