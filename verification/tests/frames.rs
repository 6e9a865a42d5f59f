use frame_netlist::frame::{to_1bit, Frame};
use frame_netlist::ids::Allocator;

#[test]
fn luminance_weighs_the_channels() {
    // red alone is too dark, green alone is bright enough
    assert!(!to_1bit(255, 0, 0, 255));
    assert!(to_1bit(0, 255, 0, 255));
    assert!(!to_1bit(0, 0, 255, 255));
    assert!(!to_1bit(255, 0, 255, 255));
    assert!(to_1bit(255, 255, 255, 0));
    assert!(!to_1bit(0, 0, 0, 255));
}

#[test]
fn threshold_lies_between_127_and_128() {
    assert!(!to_1bit(127, 127, 127, 255));
    assert!(to_1bit(128, 128, 128, 255));
    // (7152 * 178) / 10000 = 127, (7152 * 179) / 10000 = 128
    assert!(!to_1bit(0, 178, 0, 255));
    assert!(to_1bit(0, 179, 0, 255));
    // (2126 * 255 + 7152 * 103) / 10000 = 127, with 104 it is 128
    assert!(!to_1bit(255, 103, 0, 255));
    assert!(to_1bit(255, 104, 0, 255));
}

#[test]
fn alpha_does_not_count() {
    for alpha in [0u8, 1, 127, 128, 255] {
        assert!(to_1bit(200, 200, 200, alpha));
        assert!(!to_1bit(20, 20, 20, alpha));
    }
}

#[test]
fn frame_needs_a_pixel_for_each_place() {
    assert!(Frame::new(2, 3, vec![false; 6]).is_some());
    assert!(Frame::new(2, 3, vec![false; 5]).is_none());
    assert!(Frame::new(2, 3, vec![false; 7]).is_none());
    assert!(Frame::new(0, 3, vec![]).is_some());
    assert!(Frame::new(usize::MAX, 2, vec![]).is_none());
    assert!(Frame::blank(usize::MAX, 2).is_none());
    let frame = Frame::new(3, 2, vec![true, false, false, false, false, true]).unwrap();
    assert_eq!(frame.width(), 3);
    assert_eq!(frame.height(), 2);
    assert!(frame.pixel(0, 0));
    assert!(!frame.pixel(1, 0));
    assert!(!frame.pixel(0, 1));
    assert!(frame.pixel(2, 1));
    assert_eq!(Frame::blank(3, 2), Frame::new(3, 2, vec![false; 6]));
}

#[test]
fn frame_from_image_bytes() {
    let bytes = [
        255, 255, 255, 255, 0, 0, 0, 255, //
        255, 0, 0, 255, 0, 255, 0, 0,
    ];
    let frame = Frame::from_rgba(2, 2, &bytes).unwrap();
    assert_eq!(Some(frame), Frame::new(2, 2, vec![true, false, false, true]));
    assert!(Frame::from_rgba(2, 2, &bytes[..15]).is_none());
    assert!(Frame::from_rgba(2, 1, &bytes).is_none());
    assert!(Frame::from_rgba(1, 2, &bytes[..8]).is_some());
    assert!(Frame::from_rgba(0, 0, &[]).is_some());
    assert!(Frame::from_rgba(usize::MAX, usize::MAX, &bytes).is_none());
}

#[test]
fn allocator_counts_up_from_its_seed() {
    let mut alloc = Allocator::seeded(41, 6);
    assert_eq!(alloc.highest_address(), 41);
    assert_eq!(alloc.highest_cluster(), 6);
    assert_eq!(alloc.next_address(), 42);
    assert_eq!(alloc.next_address(), 43);
    assert_eq!(alloc.next_cluster(), 7);
    assert_eq!(alloc.next_address(), 44);
    assert_eq!(alloc.next_cluster(), 8);
    assert_eq!(alloc.highest_address(), 44);
    assert_eq!(alloc.highest_cluster(), 8);
    let mut last = Allocator::seeded(u32::MAX - 1, 0);
    assert_eq!(last.next_address(), u32::MAX);
}
