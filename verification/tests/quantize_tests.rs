use std::collections::HashMap;

use mmcq::color_calc::{ColorSpace, MMCQ};
use mmcq::data_models::{BoxQueue, FrequencyMap, MinMaxBox, Rgba};
use mmcq::mmcq::{is_splittable, iterative_split, quantize, QuantizeError, QuantizerConfig};

fn gray(v: u8) -> Rgba {
    Rgba::new(v, v, v, v)
}

fn grays_22_to_31() -> FrequencyMap {
    FrequencyMap(HashMap::from([
        (32767, 1),
        (31710, 1),
        (30653, 1),
        (28539, 2),
        (27482, 1),
        (26425, 1),
        (25368, 1),
        (24311, 1),
        (23254, 1),
    ]))
}

#[test]
fn test_iterative_split_grays() {
    // Ten gray pixels over bins 22..=31: red has the longest range (ties
    // prefer red), the adjusted median lands on 23, and both children
    // share it as a bound.
    let frequency_map = grays_22_to_31();
    let bx = MinMaxBox { rmin: 22, rmax: 31, gmin: 22, gmax: 31, bmin: 22, bmax: 31 };
    let queue = BoxQueue(vec![bx]);
    let found = iterative_split(frequency_map, queue);
    assert_eq!(found.0.len(), 2);
    assert_eq!(
        found.0[0],
        MinMaxBox { rmin: 22, rmax: 23, gmin: 22, gmax: 31, bmin: 22, bmax: 31 }
    );
    assert_eq!(
        found.0[1],
        MinMaxBox { rmin: 23, rmax: 31, gmin: 22, gmax: 31, bmin: 22, bmax: 31 }
    );
}

#[test]
fn test_is_splittable_multi_bin() {
    let frequency_map = grays_22_to_31();
    let bx = MinMaxBox { rmin: 22, rmax: 31, gmin: 22, gmax: 31, bmin: 22, bmax: 31 };
    assert!(is_splittable(&frequency_map, bx));
}

#[test]
fn test_single_point_box_not_splittable() {
    // A box whose population sits in one bin on every axis is terminal.
    let frequency_map = FrequencyMap(HashMap::from([(mmcq::mmcq::MMCQ::hash_rgb(5, 5, 5), 10)]));
    let point_box = MinMaxBox { rmin: 5, rmax: 5, gmin: 5, gmax: 5, bmin: 5, bmax: 5 };
    assert!(!is_splittable(&frequency_map, point_box));
    let wide_box = MinMaxBox { rmin: 0, rmax: 31, gmin: 0, gmax: 0, bmin: 0, bmax: 31 };
    let one_bin = FrequencyMap(HashMap::from([(mmcq::mmcq::MMCQ::hash_rgb(3, 0, 0), 5)]));
    assert!(!is_splittable(&one_bin, wide_box));
}

#[test]
fn test_quantize_empty_pixels() {
    let pixels: Vec<Rgba> = Vec::new();
    let config = QuantizerConfig { target_palette_size: 4, max_iterations: 100 };
    assert_eq!(quantize(&pixels, config), Err(QuantizeError::EmptyPixels));
}

#[test]
fn test_quantize_insufficient_color_range() {
    // Two distinct binned colors cannot fill a palette of two non-empty
    // regions under the median cut's bookkeeping: the run reports it.
    let pixels = vec![gray(0), gray(255), gray(0)];
    let config = QuantizerConfig { target_palette_size: 2, max_iterations: 100 };
    assert_eq!(quantize(&pixels, config), Err(QuantizeError::InsufficientColorRange));
}

#[test]
fn test_quantize_two_boxes() {
    // Four distinct binned colors, target two: one split happens and the
    // two boxes partition the bounding box along the red axis.
    let pixels = vec![
        Rgba::new(0, 0, 0, 255),
        Rgba::new(255, 0, 0, 255),
        Rgba::new(0, 255, 0, 255),
        Rgba::new(255, 255, 0, 255),
    ];
    let config = QuantizerConfig { target_palette_size: 2, max_iterations: 100 };
    let result = quantize(&pixels, config).unwrap();
    assert_eq!(result.0.len(), 2);
    for bx in &result.0 {
        assert!(bx.rmin <= bx.rmax && bx.gmin <= bx.gmax && bx.bmin <= bx.bmax);
        assert!(bx.rmax <= 31 && bx.gmax <= 31 && bx.bmax <= 31);
    }
}

#[test]
fn test_quantize_target_zero_keeps_initial_box() {
    let pixels = vec![gray(0), gray(100), gray(255)];
    let config = QuantizerConfig { target_palette_size: 0, max_iterations: 100 };
    let result = quantize(&pixels, config).unwrap();
    assert_eq!(result.0.len(), 1);
    assert_eq!(result.0[0], MinMaxBox { rmin: 0, rmax: 31, gmin: 0, gmax: 31, bmin: 0, bmax: 31 });
}

#[test]
fn test_quantize_respects_iteration_budget() {
    let pixels = vec![gray(0), gray(40), gray(100), gray(160), gray(255)];
    let config = QuantizerConfig { target_palette_size: 4, max_iterations: 1 };
    let result = quantize(&pixels, config).unwrap();
    // One iteration can add at most one box.
    assert_eq!(result.0.len(), 2);
}

#[test]
fn test_split_children_both_populated() {
    let frequency_map = grays_22_to_31();
    let bx = MinMaxBox { rmin: 22, rmax: 31, gmin: 22, gmax: 31, bmin: 22, bmax: 31 };
    let queue = iterative_split(grays_22_to_31(), BoxQueue(vec![bx]));
    assert_eq!(queue.0.len(), 2);
    for child in &queue.0 {
        assert!(mmcq::stats::box_population(&frequency_map, *child) > 0);
    }
}

#[test]
fn test_union_population_equals_pixel_count() {
    // Summing the frequency map once over the union of the final boxes
    // gives back exactly the number of pixels.
    let pixels = vec![
        Rgba::new(0, 0, 0, 255),
        Rgba::new(255, 0, 0, 255),
        Rgba::new(0, 255, 0, 255),
        Rgba::new(255, 255, 0, 255),
        Rgba::new(10, 200, 77, 255),
        Rgba::new(10, 200, 77, 255),
    ];
    let config = QuantizerConfig { target_palette_size: 3, max_iterations: 100 };
    let result = quantize(&pixels, config).unwrap();

    let binned: Vec<Rgba> = pixels.iter().map(|p| mmcq::mmcq::MMCQ::bin_pixel(*p)).collect();
    let frequency_map = mmcq::stats::calc_frequency_map(&binned);
    let mut union_pop: u64 = 0;
    for r in 0u8..32 {
        for g in 0u8..32 {
            for b in 0u8..32 {
                let covered = result.0.iter().any(|bx| {
                    bx.rmin <= r && r <= bx.rmax && bx.gmin <= g && g <= bx.gmax && bx.bmin <= b
                        && b <= bx.bmax
                });
                if covered {
                    let hash = mmcq::mmcq::MMCQ::hash_rgb(r, g, b);
                    union_pop += *frequency_map.0.get(&hash).unwrap_or(&0) as u64;
                }
            }
        }
    }
    assert_eq!(union_pop as usize, pixels.len());
}

#[test]
fn test_get_frequency_map_bins_pixels() {
    let pixels = vec![gray(255), gray(255), gray(250), gray(0)];
    let history = MMCQ::get_frequency_map(&pixels);
    // 255 and 250 share the top bin after binning.
    assert_eq!(history.get(&32767), Some(&3));
    assert_eq!(history.get(&0), Some(&1));
    assert_eq!(history.len(), 2);
}

#[test]
fn test_colorspace_count() {
    let histo = HashMap::from([
        (26380, 11),
        (1057, 1),
        (0, 1),
        (25166, 10),
        (20041, 206),
        (22122, 2813),
        (21958, 28),
        (10530, 48),
        (14693, 24),
        (32767, 1),
    ]);
    let colorspace = ColorSpace::new(histo);
    assert_eq!(colorspace.count(), 3143);
}

#[test]
fn test_colorspace_volume_and_update() {
    let mut colorspace = ColorSpace::new(HashMap::new());
    assert_eq!(colorspace.r_min, 255);
    assert_eq!(colorspace.r_max, 0);
    colorspace.update(mmcq::data_models::ColorChannel::Red, 10);
    colorspace.update(mmcq::data_models::ColorChannel::Green, 4);
    colorspace.update(mmcq::data_models::ColorChannel::Blue, 7);
    assert_eq!((colorspace.r_min, colorspace.r_max), (10, 10));
    let cloned = colorspace.clone();
    assert_eq!((cloned.g_min, cloned.g_max), (4, 4));
    let fixed = ColorSpace {
        r_min: 0,
        r_max: 31,
        g_min: 10,
        g_max: 20,
        b_min: 5,
        b_max: 6,
        frequency_map: HashMap::new(),
    };
    assert_eq!(fixed.volume(), 31 * 10 * 1);
}

#[test]
fn test_get_colorspace_bounds() {
    let pixels = vec![Rgba::new(16, 8, 0, 255), Rgba::new(240, 232, 224, 255)];
    let histogram = MMCQ::get_frequency_map(&pixels);
    let colorspace = MMCQ::get_colorspace(&pixels, &histogram);
    assert_eq!((colorspace.r_min, colorspace.r_max), (2, 30));
    assert_eq!((colorspace.g_min, colorspace.g_max), (1, 29));
    assert_eq!((colorspace.b_min, colorspace.b_max), (0, 28));
}

#[test]
fn test_median_cut_apply_grays() {
    let histogram: HashMap<u32, u32> = grays_22_to_31().0;
    let colorspace = ColorSpace {
        r_min: 22,
        r_max: 31,
        g_min: 22,
        g_max: 31,
        b_min: 22,
        b_max: 31,
        frequency_map: histogram.clone(),
    };
    let (left, right) = MMCQ::median_cut_apply(colorspace, &histogram);
    assert_eq!((left.r_min, left.r_max), (22, 23));
    assert_eq!((right.r_min, right.r_max), (23, 31));
    assert_eq!((left.g_min, left.g_max), (22, 31));
    assert_eq!((right.b_min, right.b_max), (22, 31));
}
