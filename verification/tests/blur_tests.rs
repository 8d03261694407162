use libblur::box_blur::{box_blur, box_blur_u16, gaussian_box_blur, gaussian_box_blur_u16, tent_blur, tent_blur_u16};
use libblur::fast_gaussian_next::{fast_gaussian_next, fast_gaussian_next_u16};
use libblur::filter1d::filter_1d_approx;
use libblur::stackblur::stack_blur;
use libblur::{Architecture, BlurError, EdgeMode, FastBlurChannels, ImageSize, ThreadingPolicy};

fn run_box(src: &Vec<u8>, w: u32, h: u32, r: u32, cn: FastBlurChannels, tp: ThreadingPolicy) -> Vec<u8> {
    let stride = w * cn.get_channels() as u32;
    let mut dst = vec![0u8; (stride * h) as usize];
    box_blur(src, stride, &mut dst, stride, w, h, r, cn, tp);
    dst
}

#[test]
fn box_blur_constant_plane_stays_constant() {
    let src = vec![100u8; 25];
    let dst = run_box(&src, 5, 5, 1, FastBlurChannels::Plane, ThreadingPolicy::Single);
    assert_eq!(dst, vec![100u8; 25]);
}

#[test]
fn box_blur_constant_rgba_stays_constant_any_radius() {
    for r in [0u32, 1, 2, 7, 100] {
        let src = vec![37u8; 4 * 4 * 4];
        let dst = run_box(&src, 4, 4, r, FastBlurChannels::Channels4, ThreadingPolicy::Single);
        assert_eq!(dst, vec![37u8; 64]);
    }
}

#[test]
fn box_blur_single_row_impulse() {
    let src = vec![0u8, 0, 0, 255, 0];
    let dst = run_box(&src, 5, 1, 1, FastBlurChannels::Plane, ThreadingPolicy::Single);
    assert_eq!(dst, vec![0u8, 0, 85, 85, 128]);
}

#[test]
fn box_blur_u16_single_row_impulse() {
    let src = vec![0u16, 0, 0, 65535, 0];
    let mut dst = vec![0u16; 5];
    box_blur_u16(&src, &mut dst, 5, 1, 1, FastBlurChannels::Plane, ThreadingPolicy::Single);
    assert_eq!(dst, vec![0u16, 0, 21845, 21845, 32768]);
}

#[test]
fn box_blur_deterministic_across_thread_counts() {
    let src: Vec<u8> = (0..60u32).map(|i| (i * 7 % 251) as u8).collect();
    let single = run_box(&src, 5, 4, 2, FastBlurChannels::Channels3, ThreadingPolicy::Single);
    let fixed4 = run_box(&src, 5, 4, 2, FastBlurChannels::Channels3, ThreadingPolicy::Fixed(4));
    let fixed9 = run_box(&src, 5, 4, 2, FastBlurChannels::Channels3, ThreadingPolicy::Fixed(9));
    let adaptive = run_box(&src, 5, 4, 2, FastBlurChannels::Channels3, ThreadingPolicy::Adaptive);
    assert_eq!(single, fixed4);
    assert_eq!(single, fixed9);
    assert_eq!(single, adaptive);
}

#[test]
fn tent_blur_is_two_box_passes() {
    let src: Vec<u8> = (0..25u32).map(|i| (i * 11 % 256) as u8).collect();
    let once = run_box(&src, 5, 5, 1, FastBlurChannels::Plane, ThreadingPolicy::Single);
    let twice = run_box(&once, 5, 5, 1, FastBlurChannels::Plane, ThreadingPolicy::Single);
    let mut dst = vec![0u8; 25];
    tent_blur(&src, 5, &mut dst, 5, 5, 5, 1, FastBlurChannels::Plane, ThreadingPolicy::Single);
    assert_eq!(dst, twice);
}

#[test]
fn gaussian_box_blur_is_three_box_passes() {
    let src: Vec<u8> = (0..25u32).map(|i| (i * 13 % 256) as u8).collect();
    let b1 = run_box(&src, 5, 5, 1, FastBlurChannels::Plane, ThreadingPolicy::Single);
    let b2 = run_box(&b1, 5, 5, 1, FastBlurChannels::Plane, ThreadingPolicy::Single);
    let b3 = run_box(&b2, 5, 5, 1, FastBlurChannels::Plane, ThreadingPolicy::Single);
    let mut dst = vec![0u8; 25];
    gaussian_box_blur(&src, 5, &mut dst, 5, 5, 5, 1, FastBlurChannels::Plane, ThreadingPolicy::Single);
    assert_eq!(dst, b3);
}

#[test]
fn tent_blur_u16_constant_stays_constant() {
    let src = vec![512u16; 3 * 3 * 3];
    let mut dst = vec![0u16; 27];
    tent_blur_u16(&src, &mut dst, 3, 3, 1, FastBlurChannels::Channels3, ThreadingPolicy::Single);
    assert_eq!(dst, vec![512u16; 27]);
}

#[test]
fn gaussian_box_blur_u16_constant_stays_constant() {
    let src = vec![40000u16; 4 * 2 * 4];
    let mut dst = vec![0u16; 32];
    gaussian_box_blur_u16(&src, &mut dst, 4, 2, 2, FastBlurChannels::Channels4, ThreadingPolicy::Fixed(3));
    assert_eq!(dst, vec![40000u16; 32]);
}

fn run_filter(
    src: &Vec<u8>, w: usize, h: usize, kx: &Vec<i32>, ky: &Vec<i32>, p: u32, mode: EdgeMode,
    konst: u8, cn: FastBlurChannels, arch: Architecture,
) -> Result<Vec<u8>, BlurError> {
    let mut dst = vec![0u8; src.len()];
    filter_1d_approx(
        src, &mut dst, ImageSize::new(w, h), kx, ky, p, mode, konst, cn, arch,
        ThreadingPolicy::Single,
    )?;
    Ok(dst)
}

#[test]
fn filter_symmetric_kernel_matches_unfolded_sum() {
    // A symmetric kernel takes the folded fast path; the expected values
    // here are computed from the plain unfolded weighted sum.
    let src = vec![10u8, 20, 30];
    let kx = vec![1i32, 2, 1];
    let ky = vec![1i32];
    let out = run_filter(&src, 3, 1, &kx, &ky, 0, EdgeMode::Clamp, 0,
        FastBlurChannels::Plane, Architecture::Scalar).unwrap();
    assert_eq!(out, vec![50u8, 80, 110]);
}

#[test]
fn filter_tiers_agree_on_every_architecture() {
    let src: Vec<u8> = (0..36u32).map(|i| (i * 31 % 256) as u8).collect();
    let kx = vec![1i32, 3, 5, 3, 1];
    let ky = vec![2i32, 4, 2];
    let scalar = run_filter(&src, 6, 6, &kx, &ky, 4, EdgeMode::Reflect, 0,
        FastBlurChannels::Plane, Architecture::Scalar).unwrap();
    let sse = run_filter(&src, 6, 6, &kx, &ky, 4, EdgeMode::Reflect, 0,
        FastBlurChannels::Plane, Architecture::Sse).unwrap();
    let neon = run_filter(&src, 6, 6, &kx, &ky, 4, EdgeMode::Reflect, 0,
        FastBlurChannels::Plane, Architecture::Neon).unwrap();
    let avx = run_filter(&src, 6, 6, &kx, &ky, 4, EdgeMode::Reflect, 0,
        FastBlurChannels::Plane, Architecture::Avx2).unwrap();
    assert_eq!(scalar, sse);
    assert_eq!(scalar, neon);
    assert_eq!(scalar, avx);
}

#[test]
fn filter_degenerate_centre_kernel_is_identity() {
    let src: Vec<u8> = (0..24u32).map(|i| (i * 97 % 256) as u8).collect();
    let unit = vec![0i32, 1, 0];
    for arch in [Architecture::Scalar, Architecture::Sse, Architecture::Avx2] {
        let out = run_filter(&src, 4, 2, &unit, &unit, 0, EdgeMode::Wrap, 0,
            FastBlurChannels::Channels3, arch).unwrap();
        assert_eq!(out, src);
    }
}

#[test]
fn filter_degenerate_kernel_identity_scaled_precision() {
    let src: Vec<u8> = (0..16u32).map(|i| (255 - i * 3 % 256) as u8).collect();
    // With precision 4 the fixed-point unit is 16.
    let unit = vec![0i32, 16, 0];
    let out = run_filter(&src, 4, 4, &unit, &unit, 4, EdgeMode::Clamp, 0,
        FastBlurChannels::Plane, Architecture::Neon).unwrap();
    assert_eq!(out, src);
}

#[test]
fn filter_reflect_edge_reads_edge_pixel() {
    // A kernel with a single tap one pixel to the left samples position
    // x - 1; under Reflect the coordinate -1 resolves to the edge pixel
    // itself, under Reflect101 to the pixel next to it.
    let src = vec![11u8, 22, 33];
    let left = vec![1i32, 0, 0];
    let unit = vec![1i32];
    let reflect = run_filter(&src, 3, 1, &left, &unit, 0, EdgeMode::Reflect, 0,
        FastBlurChannels::Plane, Architecture::Scalar).unwrap();
    assert_eq!(reflect[0], 11);
    let reflect101 = run_filter(&src, 3, 1, &left, &unit, 0, EdgeMode::Reflect101, 0,
        FastBlurChannels::Plane, Architecture::Scalar).unwrap();
    assert_eq!(reflect101[0], 22);
}

#[test]
fn filter_constant_edge_reads_constant() {
    let src = vec![50u8, 60, 70];
    let left = vec![1i32, 0, 0];
    let unit = vec![1i32];
    let out = run_filter(&src, 3, 1, &left, &unit, 0, EdgeMode::Constant, 99,
        FastBlurChannels::Plane, Architecture::Scalar).unwrap();
    assert_eq!(out, vec![99u8, 50, 60]);
}

#[test]
fn filter_wrap_edge_wraps_around() {
    let src = vec![5u8, 6, 7];
    let left = vec![1i32, 0, 0];
    let unit = vec![1i32];
    let out = run_filter(&src, 3, 1, &left, &unit, 0, EdgeMode::Wrap, 0,
        FastBlurChannels::Plane, Architecture::Scalar).unwrap();
    assert_eq!(out, vec![7u8, 5, 6]);
}

#[test]
fn filter_rejects_empty_extent() {
    let src: Vec<u8> = Vec::new();
    let k = vec![1i32];
    let mut dst: Vec<u8> = Vec::new();
    let res = filter_1d_approx(&src, &mut dst, ImageSize::new(0, 3), &k, &k, 0,
        EdgeMode::Clamp, 0, FastBlurChannels::Plane, Architecture::Scalar,
        ThreadingPolicy::Single);
    assert_eq!(res, Err(BlurError::InvalidShape));
}

#[test]
fn filter_rejects_even_kernel() {
    let src = vec![1u8, 2, 3, 4];
    let even = vec![1i32, 1];
    let odd = vec![1i32];
    let mut dst = vec![0u8; 4];
    let res = filter_1d_approx(&src, &mut dst, ImageSize::new(4, 1), &even, &odd, 0,
        EdgeMode::Clamp, 0, FastBlurChannels::Plane, Architecture::Scalar,
        ThreadingPolicy::Single);
    assert_eq!(res, Err(BlurError::EvenKernel));
}

#[test]
fn filter_rejects_mismatched_lengths() {
    let src = vec![1u8, 2, 3];
    let k = vec![1i32];
    let mut dst = vec![0u8; 3];
    let res = filter_1d_approx(&src, &mut dst, ImageSize::new(4, 1), &k, &k, 0,
        EdgeMode::Clamp, 0, FastBlurChannels::Plane, Architecture::Scalar,
        ThreadingPolicy::Single);
    assert_eq!(res, Err(BlurError::SizeMismatch));
}

#[test]
fn stack_blur_single_row_impulse() {
    let mut img = vec![0u8, 0, 0, 255, 0];
    stack_blur(&mut img, 5, 5, 1, 1, FastBlurChannels::Plane, ThreadingPolicy::Single);
    assert_eq!(img, vec![0u8, 0, 64, 128, 64]);
}

#[test]
fn stack_blur_constant_stays_constant() {
    let mut img = vec![200u8; 4 * 3 * 3];
    stack_blur(&mut img, 12, 4, 3, 2, FastBlurChannels::Channels3, ThreadingPolicy::Single);
    assert_eq!(img, vec![200u8; 36]);
}

#[test]
fn stack_blur_deterministic_across_thread_counts() {
    let base: Vec<u8> = (0..48u32).map(|i| (i * 53 % 256) as u8).collect();
    let mut single = base.clone();
    stack_blur(&mut single, 12, 3, 4, 2, FastBlurChannels::Channels4, ThreadingPolicy::Single);
    let mut fixed = base.clone();
    stack_blur(&mut fixed, 12, 3, 4, 2, FastBlurChannels::Channels4, ThreadingPolicy::Fixed(4));
    assert_eq!(single, fixed);
}

#[test]
fn stack_blur_raises_zero_radius_to_one() {
    let base = vec![0u8, 0, 0, 255, 0];
    let mut zero = base.clone();
    stack_blur(&mut zero, 5, 5, 1, 0, FastBlurChannels::Plane, ThreadingPolicy::Single);
    let mut one = base.clone();
    stack_blur(&mut one, 5, 5, 1, 1, FastBlurChannels::Plane, ThreadingPolicy::Single);
    assert_eq!(zero, one);
}

#[test]
fn fast_gaussian_next_single_pixel_is_identity() {
    let mut img = vec![100u8];
    fast_gaussian_next(&mut img, 1, 1, 1, 1, FastBlurChannels::Plane, ThreadingPolicy::Single);
    assert_eq!(img, vec![100u8]);
}

#[test]
fn fast_gaussian_next_deterministic_across_thread_counts() {
    let base: Vec<u8> = (0..75u32).map(|i| (i * 29 % 256) as u8).collect();
    let mut single = base.clone();
    fast_gaussian_next(&mut single, 15, 5, 5, 2, FastBlurChannels::Channels3, ThreadingPolicy::Single);
    let mut fixed = base.clone();
    fast_gaussian_next(&mut fixed, 15, 5, 5, 2, FastBlurChannels::Channels3, ThreadingPolicy::Fixed(4));
    assert_eq!(single, fixed);
}

#[test]
fn fast_gaussian_next_u16_single_pixel_is_identity() {
    let mut img = vec![30000u16];
    fast_gaussian_next_u16(&mut img, 1, 1, 1, 1, FastBlurChannels::Plane, ThreadingPolicy::Single);
    assert_eq!(img, vec![30000u16]);
}

#[test]
fn fast_gaussian_next_radius_capped() {
    // A radius beyond the cap behaves exactly like the cap.
    let base: Vec<u8> = (0..32u32).map(|i| (i * 41 % 256) as u8).collect();
    let mut big = base.clone();
    fast_gaussian_next(&mut big, 8, 8, 4, 4000, FastBlurChannels::Plane, ThreadingPolicy::Single);
    let mut capped = base.clone();
    fast_gaussian_next(&mut capped, 8, 8, 4, 212, FastBlurChannels::Plane, ThreadingPolicy::Single);
    assert_eq!(big, capped);
}

#[test]
fn filter_tiers_agree_on_widths_with_tails() {
    // Widths that are not multiples of the unrolled step exercise the
    // tail loops of the narrow and wide tiers.
    for w in [1usize, 2, 3, 5, 7, 9] {
        let src: Vec<u8> = (0..w as u32 * 3).map(|i| (i * 19 % 256) as u8).collect();
        let kx = vec![2i32, 5, 2];
        let ky = vec![1i32, 1, 1];
        let scalar = run_filter(&src, w, 3, &kx, &ky, 3, EdgeMode::Clamp, 0,
            FastBlurChannels::Plane, Architecture::Scalar).unwrap();
        let narrow = run_filter(&src, w, 3, &kx, &ky, 3, EdgeMode::Clamp, 0,
            FastBlurChannels::Plane, Architecture::Sse).unwrap();
        let wide = run_filter(&src, w, 3, &kx, &ky, 3, EdgeMode::Clamp, 0,
            FastBlurChannels::Plane, Architecture::Avx2).unwrap();
        assert_eq!(scalar, narrow);
        assert_eq!(scalar, wide);
    }
}

#[test]
fn filter_asymmetric_kernel_shifts_left_neighbour() {
    // An asymmetric kernel takes the general (unfolded) path; expected
    // values computed by hand from the weighted sum.
    let src = vec![8u8, 16, 32];
    let kx = vec![1i32, 0, 0];
    let ky = vec![1i32];
    let out = run_filter(&src, 3, 1, &kx, &ky, 0, EdgeMode::Clamp, 0,
        FastBlurChannels::Plane, Architecture::Scalar).unwrap();
    assert_eq!(out, vec![8u8, 8, 16]);
}

#[test]
fn filter_three_channel_rows_stay_interleaved() {
    // One pixel per channel with a centre-unit kernel: channels must not
    // leak into one another.
    let src = vec![10u8, 20, 30, 40, 50, 60];
    let unit = vec![0i32, 1, 0];
    let out = run_filter(&src, 2, 1, &unit, &unit, 0, EdgeMode::Clamp, 0,
        FastBlurChannels::Channels3, Architecture::Scalar).unwrap();
    assert_eq!(out, src);
}

#[test]
fn box_blur_strided_padding_is_preserved() {
    // With a stride wider than the pixels, the destination's padding
    // bytes keep their old values and only the pixels are blurred.
    let src = vec![100u8, 100, 7, 100, 100, 9];
    let mut dst = vec![0u8, 0, 1, 0, 0, 250];
    box_blur(&src, 3, &mut dst, 3, 2, 2, 1, FastBlurChannels::Plane, ThreadingPolicy::Single);
    assert_eq!(dst, vec![100u8, 100, 1, 100, 100, 250]);
}

#[test]
fn tent_blur_strided_padding_is_preserved() {
    let src = vec![10u8, 10, 33, 10, 10, 44];
    let mut dst = vec![0u8, 0, 7, 0, 0, 8];
    tent_blur(&src, 3, &mut dst, 3, 2, 2, 1, FastBlurChannels::Plane, ThreadingPolicy::Single);
    assert_eq!(dst, vec![10u8, 10, 7, 10, 10, 8]);
}
