//! Device memory, the timeline, staging, submission and presentation.
use voxel_engine::derived::pipeline::{Config, Pipeline};
use voxel_engine::gpu::allocator::{give_back, memory_type, take_first_fit, Allocator, Class, FreeList, Kind, BLOCK_GRAIN, DEFAULT_BLOCK_BYTES};
use voxel_engine::gpu::present::{estimated_bytes, extent, image_count, image_format, present_mode, Frames, Presents, Surface, WaitFor};
use voxel_engine::gpu::staging::{parts, readback_starts, split_readback, Reservation, Ring};
use voxel_engine::gpu::submit::Submitter;
use voxel_engine::gpu::timeline::{FrameReaders, Retirement, Timeline};
use voxel_engine::gpu::timing::{ticks, valid_mask, GpuTimer};
use voxel_engine::sorted::SortedMap;

fn ranges(f: &FreeList) -> Vec<(u64, u64)> {
    (0..f.len()).map(|i| (f.key_at(i), *f.val_at(i))).collect()
}

#[test]
fn first_fit_aligns_splits_and_coalesces() {
    let mut f: FreeList = SortedMap::new();
    f.insert(0, 1000);
    assert_eq!(take_first_fit(&mut f, 100, 1), Some(0));
    assert_eq!(take_first_fit(&mut f, 100, 256), Some(256));
    assert_eq!(ranges(&f), [(100, 156), (356, 644)]);
    assert_eq!(take_first_fit(&mut f, 150, 1), Some(100), "fills the alignment gap");
    assert_eq!(ranges(&f), [(250, 6), (356, 644)]);
    assert_eq!(take_first_fit(&mut f, 700, 1), None);
    give_back(&mut f, 0, 100);
    assert_eq!(ranges(&f), [(0, 100), (250, 6), (356, 644)]);
    give_back(&mut f, 256, 100);
    assert_eq!(ranges(&f), [(0, 100), (250, 750)], "merges with both neighbours");
    give_back(&mut f, 100, 150);
    assert_eq!(ranges(&f), [(0, 1000)], "everything back in one range");
}

#[test]
fn memory_types_prefer_their_own_side() {
    // Local and visible, visible and coherent, local.
    let types = [1 | 2 | 4, 2 | 4, 1];
    assert_eq!(memory_type(&types, 0b111, Kind::Device), Some(2));
    assert_eq!(memory_type(&types, 0b111, Kind::Host), Some(1));
    assert_eq!(memory_type(&types, 0b011, Kind::Device), Some(0), "a usable one is better than none");
    assert_eq!(memory_type(&types, 0b100, Kind::Host), None);
}

#[test]
fn blocks_are_shared_by_class_and_leave_when_empty() {
    let mut a = Allocator::with_block_bytes(1 << 20);
    let c = Class { category: 1, memory_type: 0, images: false };
    let d = Class { category: 2, memory_type: 0, images: false };
    assert_eq!(a.fit(c, 100, 16), None);
    assert_eq!(a.new_block_bytes(100), 1 << 20);
    assert_eq!(a.new_block_bytes((1 << 20) + 1), 2 * BLOCK_GRAIN);
    assert_eq!(a.open(c, 1 << 20, 100), (0, 0));
    assert_eq!(a.fit(c, 100, 64), Some((0, 128)));
    assert_eq!(a.fit(d, 100, 64), None, "another class has no room here");
    assert_eq!(a.open(d, 1 << 20, 100), (1, 0));
    assert_eq!(a.used(0), Some(200));
    assert!(!a.unplace(0, 0, 100));
    assert!(a.unplace(0, 128, 100), "the block is empty");
    assert_eq!(a.used(0), None);
    assert_eq!(a.open(c, 1 << 20, 8), (0, 0), "the first empty slot is taken again");
    let s = a.stats();
    assert_eq!((s.blocks_live, s.vk_allocations, s.vk_frees), (2, 3, 1));
    a.created(false);
    a.created(true);
    assert_eq!(a.leaked(), 2);
    a.destroyed(true);
    a.destroyed(false);
    assert_eq!(a.leaked(), 0);
    a.not_mapped();
    assert_eq!(a.stats().vk_frees, 2);
    assert!(!a.can_measure(u64::MAX, 1));
    assert_eq!(DEFAULT_BLOCK_BYTES, 64 << 20);
}

#[test]
fn retirement_releases_in_order_only_after_completion() {
    let mut r = Retirement::default();
    r.push(3, "a");
    r.push(3, "b");
    r.push(5, "c");
    assert!(r.collect(2).is_empty());
    assert_eq!(r.collect(4), vec!["a", "b"]);
    assert_eq!(r.len(), 1);
    assert_eq!(r.collect(9), vec!["c"]);
    assert!(r.is_empty());
}

#[test]
fn timeline_values_count_up() {
    let mut t = Timeline::new();
    assert_eq!(t.last_signal(), 0);
    assert_eq!((t.next_value(), t.next_value()), (1, 2));
    assert_eq!(t.last_signal(), 2);
}

#[test]
fn frame_readers_release_when_their_submission_is_done() {
    let mut p = Pipeline::new(Config::default());
    let mut f = FrameReaders::default();
    f.hold(1, p.acquire());
    f.hold(2, p.acquire());
    assert_eq!(f.len(), 2);
    assert_eq!(f.release_completed(&mut p, 0), 0);
    assert_eq!(f.release_completed(&mut p, 1), 1);
    assert_eq!(f.release_completed(&mut p, 9), 1);
    assert!(f.is_empty());
}

#[test]
fn staging_wraps_and_waits_for_the_oldest_batch() {
    let mut r = Ring::new(100);
    assert_eq!(r.chunk(), 25);
    for i in 0..4 {
        assert_eq!(r.reserve(0, 24), Reservation::At(24 * i));
        r.recorded(24);
    }
    assert_eq!(r.reserve(0, 24), Reservation::Full, "4 bytes are left");
    assert!(r.is_pending());
    r.taken();
    r.submitted(1);
    assert_eq!(r.oldest(), Some(1));
    assert_eq!(r.reserve(0, 24), Reservation::Full);
    r.stalled();
    assert_eq!(r.reserve(1, 24), Reservation::At(0), "the tail of the ring is skipped");
    r.recorded(24);
    let s = r.stats();
    assert_eq!((s.bytes, s.copies, s.batches, s.stalls), (120, 5, 1, 1));
}

#[test]
fn uploads_are_split_and_readbacks_laid_out() {
    assert_eq!(parts(10, 4), [(0, 4), (4, 4), (8, 2)]);
    assert_eq!(parts(0, 4), []);
    assert_eq!(readback_starts(&[3, 0, 5]), (vec![0, 3, 3], 8));
    assert_eq!(split_readback(&[1, 2, 3, 4, 5, 6, 7, 8, 9], &[3, 0, 5]), vec![vec![1, 2, 3], vec![], vec![4, 5, 6, 7, 8]]);
}

#[test]
fn command_buffers_are_recycled_after_their_submission() {
    let mut s = Submitter::new();
    assert_eq!(s.begin(0), None);
    s.submitted(1, 11);
    s.submitted(2, 12);
    assert_eq!(s.begin(0), None, "both are in flight");
    assert_eq!(s.begin(1), Some(11));
    assert_eq!(s.begin(1), None);
    assert_eq!(s.begin(2), Some(12));
}

#[test]
fn frame_slots_come_round_and_wait_for_their_last_submission() {
    let mut f = Frames::new(2);
    assert_eq!(f.in_flight(), 2);
    assert_eq!(f.begin(), (0, None));
    f.scene_submitted(0, 1);
    f.present_submitted(0, 2);
    assert_eq!(f.begin(), (1, None));
    f.scene_submitted(1, 3);
    assert_eq!(f.begin(), (1, Some(3)), "out of date: the slot is used again");
    f.present_submitted(1, 4);
    assert_eq!(f.begin(), (0, Some(2)));
    assert_eq!(f.waits(), [2, 4]);
}

#[test]
fn the_swapchain_follows_its_surface() {
    let s = Surface { current: (u32::MAX, 0), min: (10, 20), max: (100, 200), min_images: 2, max_images: 0 };
    assert_eq!(extent(s, (5, 500)), Some((10, 200)));
    assert_eq!(extent(Surface { current: (64, 48), ..s }, (5, 500)), Some((64, 48)));
    assert_eq!(extent(Surface { current: (0, 0), ..s }, (5, 500)), None);
    assert_eq!(image_count(s), 3);
    assert_eq!(image_count(Surface { max_images: 2, ..s }), 2);
    assert_eq!(image_format(&[(44, 0), (50, 0)]), Some((50, 0)));
    assert_eq!(image_format(&[(50, 1), (44, 0)]), Some((50, 1)), "the first one where the preferred is missing");
    assert_eq!(image_format(&[]), None);
    assert_eq!(present_mode(&[2, 1], 1), 1);
    assert_eq!(present_mode(&[2, 1], 0), 2);
    assert_eq!(estimated_bytes(3, (640, 480)), 3 * 640 * 480 * 4);
}

#[test]
fn presents_are_numbered_only_where_they_can_be_waited_for() {
    let mut p = Presents::new(true);
    assert_eq!(p.target(0), WaitFor::Nothing);
    assert_eq!((p.present(), p.present()), (Some(1), Some(2)));
    assert_eq!(p.target(0), WaitFor::Present(2));
    assert_eq!(p.target(1), WaitFor::Present(1));
    assert_eq!(p.target(2), WaitFor::Nothing);
    let mut q = Presents::new(false);
    assert_eq!(q.present(), None);
    assert_eq!(q.target(0), WaitFor::Unknown);
}

#[test]
fn ticks_are_masked_and_survive_a_wrap() {
    assert_eq!(valid_mask(64), u64::MAX);
    assert_eq!(valid_mask(70), u64::MAX);
    assert_eq!(valid_mask(36), (1 << 36) - 1);
    assert_eq!(ticks(10, 25, 64), 15);
    assert_eq!(ticks((1 << 36) - 5, 7, 36), 12);
    assert_eq!(ticks(u64::MAX, 1, 64), 2);
    assert_eq!(ticks(1 << 40, (1 << 41) + 3, 36), 3, "bits beyond the valid ones are noise");
}

#[test]
fn a_timer_slot_is_read_only_once_it_was_written() {
    let mut t = GpuTimer::new(2, 3, 36);
    assert_eq!(t.queries(), 12);
    assert_eq!(t.stamps(1), None);
    assert_eq!(t.reset(1), (6, 6));
    assert_eq!((t.begin_pass(1, 2), t.end_pass(1, 2)), (10, 11));
    assert_eq!(t.stamps(1), Some((6, 6)));
    assert_eq!(t.stamps(0), None);
    assert_eq!(t.durations(&[1, 4, 10, 10, (1 << 36) - 1, 0]), [3, 0, 1]);
}
