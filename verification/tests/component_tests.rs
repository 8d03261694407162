use libblur::arena::make_arena;
use libblur::border::resolve_edge;
use libblur::region::make_regions;
use libblur::scan::scan;
use libblur::{BlurError, EdgeMode, FastBlurChannels, ThreadingPolicy};

#[test]
fn resolve_clamp_saturates() {
    assert_eq!(resolve_edge(EdgeMode::Clamp, -3, 5), 0);
    assert_eq!(resolve_edge(EdgeMode::Clamp, 7, 5), 4);
    assert_eq!(resolve_edge(EdgeMode::Clamp, 2, 5), 2);
}

#[test]
fn resolve_reflect_repeats_edge_sample() {
    assert_eq!(resolve_edge(EdgeMode::Reflect, -1, 5), 0);
    assert_eq!(resolve_edge(EdgeMode::Reflect, -2, 5), 1);
    assert_eq!(resolve_edge(EdgeMode::Reflect, 5, 5), 4);
    assert_eq!(resolve_edge(EdgeMode::Reflect, 6, 5), 3);
}

#[test]
fn resolve_reflect101_mirrors_around_edge_pixel() {
    assert_eq!(resolve_edge(EdgeMode::Reflect101, -1, 5), 1);
    assert_eq!(resolve_edge(EdgeMode::Reflect101, -2, 5), 2);
    assert_eq!(resolve_edge(EdgeMode::Reflect101, 5, 5), 3);
    assert_eq!(resolve_edge(EdgeMode::Reflect101, -1, 1), 0);
}

#[test]
fn resolve_wrap_is_euclidean() {
    assert_eq!(resolve_edge(EdgeMode::Wrap, -1, 5), 4);
    assert_eq!(resolve_edge(EdgeMode::Wrap, 5, 5), 0);
    assert_eq!(resolve_edge(EdgeMode::Wrap, -7, 5), 3);
}

#[test]
fn regions_cover_extent_with_remainder_in_last() {
    let regions = make_regions(10, 3);
    assert_eq!(regions.len(), 3);
    assert_eq!((regions[0].start, regions[0].end), (0, 3));
    assert_eq!((regions[1].start, regions[1].end), (3, 6));
    assert_eq!((regions[2].start, regions[2].end), (6, 10));
}

#[test]
fn regions_with_more_workers_than_extent() {
    let regions = make_regions(2, 4);
    assert_eq!(regions.len(), 4);
    assert_eq!((regions[0].start, regions[0].end), (0, 0));
    assert_eq!((regions[3].start, regions[3].end), (0, 2));
}

#[test]
fn regions_single_worker_is_whole_extent() {
    let regions = make_regions(7, 1);
    assert_eq!(regions.len(), 1);
    assert_eq!((regions[0].start, regions[0].end), (0, 7));
}

#[test]
fn scan_classifies_symmetric_kernel_and_folds() {
    let kernel = vec![1i32, 4, 6, 4, 1];
    let (symmetric, points) = scan(&kernel);
    assert!(symmetric);
    assert_eq!(points.len(), 3);
    assert_eq!(points[0].offset, -2);
    assert_eq!(points[0].weight, 1);
    assert_eq!(points[2].offset, 0);
    assert_eq!(points[2].weight, 6);
}

#[test]
fn scan_keeps_every_tap_of_a_general_kernel() {
    let kernel = vec![1i32, 2, 3];
    let (symmetric, points) = scan(&kernel);
    assert!(!symmetric);
    assert_eq!(points.len(), 3);
    assert_eq!(points[1].offset, 0);
    assert_eq!(points[2].offset, 1);
    assert_eq!(points[2].weight, 3);
}

#[test]
fn make_arena_pads_with_clamp() {
    let src = vec![1u8, 2, 3, 4];
    let (buf, arena) = make_arena(&src, 2, 2, 1, 1, 0, EdgeMode::Clamp, 0).unwrap();
    assert_eq!(arena.width, 4);
    assert_eq!(arena.height, 2);
    assert_eq!(arena.pad_left, 1);
    assert_eq!(buf, vec![1u8, 1, 2, 2, 3, 3, 4, 4]);
}

#[test]
fn make_arena_pads_with_constant() {
    let src = vec![9u8];
    let (buf, _arena) = make_arena(&src, 1, 1, 1, 1, 1, EdgeMode::Constant, 7).unwrap();
    assert_eq!(buf, vec![7u8, 7, 7, 7, 9, 7, 7, 7, 7]);
}

#[test]
fn make_arena_rejects_empty_shape() {
    let src: Vec<u8> = Vec::new();
    assert_eq!(
        make_arena(&src, 0, 1, 1, 0, 0, EdgeMode::Clamp, 0).unwrap_err(),
        BlurError::InvalidShape,
    );
}

#[test]
fn make_arena_rejects_wrong_length() {
    let src = vec![1u8, 2, 3];
    assert_eq!(
        make_arena(&src, 2, 2, 1, 0, 0, EdgeMode::Clamp, 0).unwrap_err(),
        BlurError::SizeMismatch,
    );
}

#[test]
fn threading_policy_counts() {
    assert_eq!(ThreadingPolicy::Single.get_threads_count(4096, 4096), 1);
    assert_eq!(ThreadingPolicy::Fixed(0).get_threads_count(10, 10), 1);
    assert_eq!(ThreadingPolicy::Fixed(6).get_threads_count(10, 10), 6);
    assert_eq!(ThreadingPolicy::Adaptive.get_threads_count(16, 16), 1);
    assert_eq!(ThreadingPolicy::Adaptive.get_threads_count(8192, 8192), 16);
}

#[test]
fn channel_counts() {
    assert_eq!(FastBlurChannels::Plane.get_channels(), 1);
    assert_eq!(FastBlurChannels::Channels3.get_channels(), 3);
    assert_eq!(FastBlurChannels::Channels4.get_channels(), 4);
}
