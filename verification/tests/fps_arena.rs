use minecraft_but_optimized::arena::FreeList;
use minecraft_but_optimized::fps::FpsCounter;

#[test]
fn fps_window_rolls_after_a_second_with_the_rounded_rate() {
    let mut fps = FpsCounter::new();
    assert_eq!(fps.current, 0);
    assert!(fps.show);
    assert_eq!(fps.cap, None);
    for _ in 0..59 {
        assert!(!fps.advance(500_000_000));
    }
    assert_eq!(fps.frames_in_window(), 59);
    // 60 frames over 1.2 s is exactly 50 per second.
    assert!(fps.advance(1_200_000_000));
    assert_eq!(fps.current, 50);
    assert_eq!(fps.frames_in_window(), 0);
}

#[test]
fn fps_rate_rounds_halves_up() {
    let mut fps = FpsCounter::new();
    // 3 frames over 2 s: 1.5 per second, shown as 2.
    fps.advance(0);
    fps.advance(0);
    assert!(fps.advance(2_000_000_000));
    assert_eq!(fps.current, 2);
    // 2 frames over 3 s: 0.67 per second, shown as 1.
    fps.advance(0);
    assert!(fps.advance(3_000_000_000));
    assert_eq!(fps.current, 1);
    // 1 frame over 3 s: 0.33 per second, shown as 0.
    assert!(fps.advance(3_000_000_000));
    assert_eq!(fps.current, 0);
}

#[test]
fn fps_tick_counts_frames() {
    let mut fps = FpsCounter::new();
    fps.tick();
    assert!(fps.frames_in_window() <= 1);
    fps.set_cap(Some(144));
    fps.set_show(false);
    assert_eq!(fps.cap, Some(144));
    assert!(!fps.show);
}

#[test]
fn arena_allocates_first_fit_and_merges_on_free() {
    let mut a = FreeList::new(100);
    assert_eq!(a.capacity(), 100);
    assert_eq!(a.try_alloc(30), Some(0));
    assert_eq!(a.try_alloc(30), Some(30));
    assert_eq!(a.try_alloc(30), Some(60));
    assert_eq!(a.try_alloc(30), None);
    a.free(30, 30);
    a.free(0, 30);
    // The two freed neighbors merged into one 60-byte range.
    assert_eq!(a.try_alloc(60), Some(0));
    a.free(0, 60);
    a.free(60, 30);
    assert_eq!(a.try_alloc(100), Some(0));
}

#[test]
fn arena_grows_when_nothing_fits() {
    let mut a = FreeList::new(0);
    assert_eq!(a.capacity(), 4);
    assert_eq!(a.allocate(0), (0, None));
    assert_eq!(a.allocate(4), (0, None));
    // Nothing free: doubling to 8 covers 3 more bytes.
    assert_eq!(a.allocate(3), (4, Some((4, 8))));
    // 1 byte is left at 7; 20 bytes need growing by more than doubling.
    assert_eq!(a.allocate(20), (7, Some((8, 28))));
    assert_eq!(a.capacity(), 28);
    assert_eq!(a.try_alloc(1), Some(27));
    assert_eq!(a.try_alloc(1), None);
}

#[test]
fn arena_grow_extends_a_trailing_free_range() {
    let mut a = FreeList::new(16);
    assert_eq!(a.try_alloc(10), Some(0));
    assert_eq!(a.grow(4), 32);
    assert_eq!(a.try_alloc(22), Some(10));
}

#[test]
fn arena_free_then_allocate_reuses_the_hole() {
    let mut a = FreeList::new(64);
    let x = a.allocate(16).0;
    let y = a.allocate(16).0;
    let z = a.allocate(16).0;
    assert_eq!((x, y, z), (0, 16, 32));
    a.free(y, 16);
    assert_eq!(a.allocate(8), (16, None));
    assert_eq!(a.allocate(8), (24, None));
    assert_eq!(a.allocate(16), (48, None));
}

#[test]
fn only_allocated_bytes_count_as_in_use() {
    let mut a = FreeList::new(64);
    assert!(!a.range_in_use(0, 8));
    let x = a.allocate(16).0;
    assert!(a.range_in_use(x, 16));
    assert!(a.range_in_use(x + 4, 4));
    assert!(!a.range_in_use(x + 8, 16));
    assert!(!a.range_in_use(60, 8));
    assert!(!a.range_in_use(u64::MAX, 2));
    a.free(x, 16);
    assert!(!a.range_in_use(x, 1));
}

#[test]
fn freeing_zero_bytes_does_nothing_whatever_the_offset() {
    let mut a = FreeList::new(100);
    assert_eq!(a.try_alloc(40), Some(0));
    a.free(1_000_000, 0);
    a.free(10, 0);
    assert_eq!(a.capacity(), 100);
    assert_eq!(a.try_alloc(60), Some(40));
    assert_eq!(a.try_alloc(1), None);
}
