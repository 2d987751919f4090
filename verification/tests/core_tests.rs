use mmcq::data_models::{BoxQueue, ColorChannel, Histogram, MinMaxBox, Rgba};
use mmcq::mmcq::{calc_mmcqmedian, create_box_queue, split_box, MMCQ};

#[test]
fn test_get_color_hash() {
    let input = [15, 12, 10];
    let resulted = mmcq::color_calc::MMCQ::get_color_hash(input[0], input[1], input[2]);
    let expected = 15754;
    assert_eq!(resulted, expected, "\nEXPECTED\n{}\nRESULTED\n{}", expected, resulted);
}

#[test]
fn test_hash_pixel() {
    let input = [15, 12, 10];
    let found = MMCQ::hash_rgb(input[0], input[1], input[2]);
    let expected = 15754;
    assert_eq!(expected, found, "Logic Error:");
}

#[test]
fn test_bin_color() {
    let input = Rgba::new(255, 255, 255, 255);
    let found = MMCQ::bin_pixel(input);
    let expected = Rgba::new(31, 31, 31, 255);
    assert_eq!(expected, found, "Logic Error:");
}

#[test]
fn test_bin_rebin_small_values() {
    // Binning a value it has already sent to the zero bin is a no-op.
    let once = MMCQ::bin_pixel(Rgba::new(7, 3, 0, 255));
    let twice = MMCQ::bin_pixel(once);
    assert_eq!(once, twice);
}

#[test]
fn test_hash_distinct_triples() {
    // Distinct binned triples never collide.
    let mut seen = std::collections::HashSet::new();
    for r in [0u8, 1, 15, 31] {
        for g in [0u8, 1, 15, 31] {
            for b in [0u8, 1, 15, 31] {
                assert!(seen.insert(MMCQ::hash_rgb(r, g, b)));
            }
        }
    }
}

#[test]
fn test_create_box_queue() {
    let input = MinMaxBox { rmin: 0, rmax: 31, gmin: 0, gmax: 31, bmin: 0, bmax: 31 };
    let found = create_box_queue(input);
    let expected = BoxQueue(vec![MinMaxBox {
        rmin: 0,
        rmax: 31,
        gmin: 0,
        gmax: 31,
        bmin: 0,
        bmax: 31,
    }]);
    assert_eq!(expected.0[0], found.0[0], "Logic Error:");
}

#[test]
fn test_calc_mmcqmedian() {
    let input = (
        Histogram(
            [
                1u32, 1, 2, 2, 2, 3, 3, 4, 4, 4, 5, 5, 5, 6, 6, 7, 7, 7, 8, 8, 8, 9, 9, 10, 10,
                10, 11, 12, 12,
            ]
            .to_vec(),
        ),
        MinMaxBox { rmin: 0, rmax: 31, gmin: 0, gmax: 31, bmin: 2, bmax: 30 },
        ColorChannel::Blue,
        12 as u32,
    );
    let found = calc_mmcqmedian(&input.0, input.1, &input.2, input.3);
    let expected = 8;
    assert_eq!(expected, found, "Logic Error:");
}

#[test]
fn test_calc_mmcqmedian_red_scenario() {
    // The documented cumulative histogram over the red axis of the box
    // r: 2-30, total 12: the adjusted median lands on 8.
    let histogram = Histogram(
        [
            1u32, 1, 2, 2, 2, 3, 3, 4, 4, 4, 5, 5, 5, 6, 6, 7, 7, 7, 8, 8, 8, 9, 9, 10, 10, 10,
            11, 11, 12,
        ]
        .to_vec(),
    );
    let bx = MinMaxBox { rmin: 2, rmax: 30, gmin: 1, gmax: 29, bmin: 0, bmax: 28 };
    let found = calc_mmcqmedian(&histogram, bx, &ColorChannel::Red, 12);
    assert_eq!(found, 8);
}

#[test]
fn test_split_box_shares_split_value() {
    let bx = MinMaxBox { rmin: 0, rmax: 31, gmin: 2, gmax: 20, bmin: 5, bmax: 9 };
    let (left, right) = split_box(bx, ColorChannel::Red, 15);
    assert_eq!(left.rmin, 0);
    assert_eq!(left.rmax, 15);
    assert_eq!(right.rmin, 15);
    assert_eq!(right.rmax, 31);
    // Every non-split axis keeps both bounds on both children.
    assert_eq!(left.gmin, 2);
    assert_eq!(left.gmax, 20);
    assert_eq!(left.bmin, 5);
    assert_eq!(left.bmax, 9);
    assert_eq!(right.gmin, 2);
    assert_eq!(right.gmax, 20);
    assert_eq!(right.bmin, 5);
    assert_eq!(right.bmax, 9);
}

#[test]
fn test_split_box_green_axis() {
    let bx = MinMaxBox { rmin: 0, rmax: 3, gmin: 0, gmax: 31, bmin: 0, bmax: 3 };
    let (left, right) = split_box(bx, ColorChannel::Green, 10);
    assert_eq!(left.gmax, 10);
    assert_eq!(right.gmin, 10);
    assert_eq!(left.gmin, 0);
    assert_eq!(right.gmax, 31);
    assert_eq!((left.rmin, left.rmax, left.bmin, left.bmax), (0, 3, 0, 3));
    assert_eq!((right.rmin, right.rmax, right.bmin, right.bmax), (0, 3, 0, 3));
}

#[test]
fn test_color_channel_add_wraps() {
    assert_eq!(ColorChannel::Red.add(1), ColorChannel::Green);
    assert_eq!(ColorChannel::Green.add(2), ColorChannel::Red);
    assert_eq!(ColorChannel::Blue.add(4), ColorChannel::Red);
    assert_eq!(ColorChannel::Blue.add(0), ColorChannel::Blue);
}

#[test]
fn test_queue_count() {
    let data = std::collections::HashMap::from([(1u32, 2u32), (5, 7)]);
    let mut queue =
        mmcq::queue::Queue::new(|m: std::collections::HashMap<u32, u32>| m.values().sum(), data);
    assert_eq!(queue.count(), 9);
}

#[test]
fn test_box_volume() {
    let bx = mmcq::data_models::Box { r_min: 0, r_max: 31, g_min: 0, g_max: 31, b_min: 0, b_max: 31 };
    assert_eq!(bx.volume(), 31 * 31 * 31);
}
