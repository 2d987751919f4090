use std::collections::HashMap;

use mmcq::data_models::{ColorChannel, FrequencyMap, Histogram, MinMaxBox, Rgba};
use mmcq::stats::{
    box_population, calc_cumul_histo, calc_dim_histograms, calc_frequency_map, calc_histogram,
    calc_minmax_box, replace_minmax,
};

fn gray(v: u8) -> Rgba {
    Rgba::new(v, v, v, v)
}

#[test]
fn test_calc_histogram0() {
    let input: Vec<Rgba> = vec![
        gray(31),
        gray(30),
        gray(29),
        gray(28),
        gray(27),
        gray(26),
        gray(25),
        gray(24),
        gray(23),
        gray(22),
    ];
    let found = calc_histogram(ColorChannel::Red, &input).0;
    let expected = Histogram(vec![1, 1, 1, 1, 1, 1, 1, 1, 1, 1]).0;
    assert_eq!(expected, found, "Logic Error:");
}

#[test]
fn test_calc_histogram1() {
    let input: Vec<Rgba> = vec![
        gray(255),
        gray(255),
        gray(247),
        gray(247),
        gray(247),
        gray(247),
        gray(247),
        gray(247),
        gray(247),
        gray(247),
    ];
    let found = calc_histogram(ColorChannel::Red, &input).0;
    let expected = Histogram(vec![8, 0, 0, 0, 0, 0, 0, 0, 2]).0;
    assert_eq!(expected, found, "Logic Error:");
}

#[test]
fn test_calc_histogram2() {
    let input: Vec<Rgba> = vec![
        gray(0),
        gray(0),
        gray(0),
        gray(0),
        gray(1),
        gray(1),
        gray(1),
        gray(1),
    ];
    let found = calc_histogram(ColorChannel::Red, &input).0;
    let expected = Histogram(vec![4, 4]).0;
    assert_eq!(expected, found, "Logic Error:");
}

#[test]
fn test_calc_dim_histograms() {
    let input: Vec<Rgba> = vec![Rgba::new(0, 10, 20, 255), Rgba::new(2, 10, 22, 255)];
    let dims = calc_dim_histograms(&input);
    assert_eq!(dims.0[0].0, vec![1, 0, 1]);
    assert_eq!(dims.0[1].0, vec![2]);
    assert_eq!(dims.0[2].0, vec![1, 0, 1]);
}

#[test]
fn test_calc_frequency_map1() {
    let input = vec![
        gray(31),
        gray(30),
        gray(29),
        gray(27),
        gray(27),
        gray(26),
        gray(25),
        gray(24),
        gray(23),
        gray(22),
    ];
    let found = calc_frequency_map(&input).0;
    let expected = FrequencyMap(HashMap::from([
        (32767, 1),
        (31710, 1),
        (30653, 1),
        (28539, 2),
        (27482, 1),
        (26425, 1),
        (25368, 1),
        (24311, 1),
        (23254, 1),
    ]))
    .0;
    assert_eq!(expected, found, "Logic Error:");
}

#[test]
fn test_calc_frequency_map_total() {
    // The counts of the frequency map always sum to the pixel count.
    let input = vec![gray(5), gray(5), gray(9), gray(200), gray(200), gray(200)];
    let found = calc_frequency_map(&input).0;
    let total: u32 = found.values().sum();
    assert_eq!(total as usize, input.len());
}

#[test]
fn test_calc_minmax_box() {
    let input = vec![
        gray(31),
        gray(30),
        gray(29),
        gray(28),
        gray(27),
        gray(26),
        gray(25),
        gray(24),
        gray(23),
        gray(22),
    ];
    let found = calc_minmax_box(&input);
    let expected = MinMaxBox { rmin: 22, rmax: 31, gmin: 22, gmax: 31, bmin: 22, bmax: 31 };

    assert_eq!(expected.rmin, found.rmin, "Logic Error: rmin");
    assert_eq!(expected.rmax, found.rmax, "Logic Error: rmax");
    assert_eq!(expected.gmin, found.gmin, "Logic Error: gmin");
    assert_eq!(expected.gmax, found.gmax, "Logic Error: gmax");
    assert_eq!(expected.bmin, found.bmin, "Logic Error: bmin");
    assert_eq!(expected.bmax, found.bmax, "Logic Error: bmax");
}

#[test]
fn test_replace_minmax() {
    let mut min: u8 = 255;
    let mut max: u8 = 0;
    let val = 100;
    replace_minmax(val, &mut min, &mut max);

    assert_eq!(val, min, "Logic Error: Minimum should have been replaced");
    assert_eq!(val, max, "Logic Error: Maximum should have been replaced");
}

fn scenario_frequency_map() -> FrequencyMap {
    FrequencyMap(HashMap::from([
        (2080, 1),
        (4194, 1),
        (7365, 1),
        (9479, 1),
        (12650, 1),
        (15821, 1),
        (17935, 1),
        (21106, 1),
        (24277, 1),
        (26391, 1),
        (29562, 1),
        (31676, 1),
    ]))
}

#[test]
fn test_calc_cumul_histo0() {
    let frequency_map: FrequencyMap = scenario_frequency_map();

    let color_channel: ColorChannel = ColorChannel::Red;
    let minmax_box: MinMaxBox = MinMaxBox { rmin: 2, rmax: 30, gmin: 1, gmax: 29, bmin: 0, bmax: 28 };
    let expected = Histogram(
        [
            1, 1, 2, 2, 2, 3, 3, 4, 4, 4, 5, 5, 5, 6, 6, 7, 7, 7, 8, 8, 8, 9, 9, 10, 10, 10, 11,
            11, 12,
        ]
        .to_vec(),
    );
    let found = calc_cumul_histo(&frequency_map, &color_channel, minmax_box);
    assert_eq!(expected.0, found.0 .0, "Logic Error:");
}

#[test]
fn test_calc_cumul_histo1() {
    let frequency_map: FrequencyMap = scenario_frequency_map();

    let color_channel: ColorChannel = ColorChannel::Green;
    let minmax_box: MinMaxBox = MinMaxBox { rmin: 9, rmax: 30, gmin: 1, gmax: 29, bmin: 0, bmax: 28 };
    let expected = Histogram(
        [
            0, 0, 0, 0, 0, 0, 0, 1, 1, 1, 2, 2, 2, 3, 3, 4, 4, 4, 5, 5, 5, 6, 6, 7, 7, 7, 8, 8, 9,
        ]
        .to_vec(),
    );
    let found = calc_cumul_histo(&frequency_map, &color_channel, minmax_box);
    assert_eq!(expected.0, found.0 .0, "Logic Error:");
}

#[test]
fn test_cumul_histo_total_is_population() {
    let frequency_map = scenario_frequency_map();
    let minmax_box = MinMaxBox { rmin: 2, rmax: 30, gmin: 1, gmax: 29, bmin: 0, bmax: 28 };
    let (_, total) = calc_cumul_histo(&frequency_map, &ColorChannel::Red, minmax_box);
    assert_eq!(total, 12);
    assert_eq!(box_population(&frequency_map, minmax_box), 12);
}
