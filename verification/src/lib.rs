//! Verified image-blur kernels: a border-padded arena, a 1D kernel scanner
//! with symmetry folding, dispatchable row/column convolution passes, and
//! sliding-window blur filters built on them.

use vstd::prelude::*;

pub mod arena;
pub mod border;
pub mod box_blur;
pub mod fast_gaussian_next;
pub mod filter1d;
pub mod pixel;
pub mod region;
pub mod scan;
pub mod stackblur;

verus! {

/// Channel layout of an interleaved pixel buffer.
#[derive(Clone, Copy, PartialEq, Eq, Structural, Debug)]
pub enum FastBlurChannels {
    /// A single-channel plane.
    Plane,
    /// Three interleaved channels.
    Channels3,
    /// Four interleaved channels.
    Channels4,
}

impl FastBlurChannels {
    /// Number of interleaved samples per pixel.
    pub fn get_channels(&self) -> (r: usize)
        ensures
            r == self.channel_count(),
    {
        match self {
            FastBlurChannels::Plane => 1,
            FastBlurChannels::Channels3 => 3,
            FastBlurChannels::Channels4 => 4,
        }
    }

    /// Mathematical channel count of this layout.
    pub open spec fn channel_count(self) -> int {
        match self {
            FastBlurChannels::Plane => 1,
            FastBlurChannels::Channels3 => 3,
            FastBlurChannels::Channels4 => 4,
        }
    }
}

/// How many worker regions a filter invocation is split into.
#[derive(Clone, Copy, PartialEq, Eq, Structural, Debug)]
pub enum ThreadingPolicy {
    /// One region: fully sequential.
    Single,
    /// Exactly the given number of regions (at least one).
    Fixed(usize),
    /// A region count derived from the image area.
    Adaptive,
}

impl ThreadingPolicy {
    /// Mathematical region count of this policy for a given image extent.
    pub open spec fn thread_count(self, width: int, height: int) -> int {
        match self {
            ThreadingPolicy::Single => 1,
            ThreadingPolicy::Fixed(n) => if n < 1 { 1 } else { n as int },
            ThreadingPolicy::Adaptive => {
                let per_thread = 65536int;
                let wanted = (width * height + per_thread - 1) / per_thread;
                if wanted < 1 { 1 } else if wanted > 16 { 16 } else { wanted }
            },
        }
    }

    /// Number of worker regions used for an image of the given extent.
    pub fn get_threads_count(&self, width: u32, height: u32) -> (r: usize)
        ensures
            r == self.thread_count(width as int, height as int),
            1 <= r <= usize::MAX,
    {
        match self {
            ThreadingPolicy::Single => 1,
            ThreadingPolicy::Fixed(n) => if *n < 1 { 1 } else { *n },
            ThreadingPolicy::Adaptive => {
                proof {
                    assert((width as u64) * (height as u64) <= 0xffff_fffe_0000_0001u64)
                        by (nonlinear_arith)
                        requires
                            width <= 0xffff_ffffu64,
                            height <= 0xffff_ffffu64,
                    ;
                }
                let area: u64 = (width as u64) * (height as u64);
                let wanted: u64 = (area + 65535) / 65536;
                if wanted < 1 { 1 } else if wanted > 16 { 16 } else { wanted as usize }
            },
        }
    }
}

/// How a coordinate outside the image is resolved to a sample.
#[derive(Clone, Copy, PartialEq, Eq, Structural, Debug)]
pub enum EdgeMode {
    /// Saturate to the nearest edge pixel.
    Clamp,
    /// Mirror around the edge, repeating the edge sample.
    Reflect,
    /// Mirror around the edge pixel itself, not repeating it.
    Reflect101,
    /// Take the coordinate modulo the extent.
    Wrap,
    /// Out-of-bounds samples read a caller-supplied constant.
    Constant,
}

/// Logical extent of an image plane in pixels.
#[derive(Clone, Copy, PartialEq, Eq, Structural, Debug)]
pub struct ImageSize {
    /// Width in pixels.
    pub width: usize,
    /// Height in pixels.
    pub height: usize,
}

impl ImageSize {
    /// Builds an image size.
    pub fn new(width: usize, height: usize) -> (r: ImageSize)
        ensures
            r.width == width,
            r.height == height,
    {
        ImageSize { width, height }
    }
}

/// The instruction-set family a filter invocation may exploit, resolved
/// once per call by the caller's capability probe.
#[derive(Clone, Copy, PartialEq, Eq, Structural, Debug)]
pub enum Architecture {
    /// No SIMD capability: the portable reference path.
    Scalar,
    /// 128-bit SIMD on x86.
    Sse,
    /// 128-bit SIMD on AArch64.
    Neon,
    /// 256-bit SIMD on x86.
    Avx2,
}

/// A recoverable configuration error reported before any buffer is touched.
#[derive(Clone, Copy, PartialEq, Eq, Structural, Debug)]
pub enum BlurError {
    /// A zero image dimension.
    InvalidShape,
    /// A buffer length that does not match the described extent.
    SizeMismatch,
    /// A kernel whose length is even or zero.
    EvenKernel,
}

} // verus!
