//! Statistics over pixel sequences and frequency maps: per-channel
//! histograms, the tight bounding box, and the cumulative histogram a box
//! is split by.

use std::collections::HashMap;
use vstd::prelude::*;

use crate::counting::{
    box_pop, color_hash, count_of, hash_count, keys_bounded, lemma_count_le_total,
    lemma_map_sum_insert, lemma_plane_pop_le_total, lemma_plane_pop_nonneg,
    lemma_plane_pop_split_g, lemma_range_pop_empty_b, lemma_range_pop_empty_g,
    lemma_range_pop_le_total, lemma_range_pop_nonneg, lemma_range_pop_split_b,
    lemma_range_pop_split_g, lemma_range_pop_split_r, lemma_row_pop_le_total, map_total,
    pixel_hash, plane_pop, prefix_pop, range_pop, row_pop, HASH_SPACE,
};
use crate::counting::{
    channel_count, channel_of, lemma_channel_count_nonneg, lemma_channel_val_bounds,
    max_channel_val, min_channel_val,
};
use crate::data_models::{ColorChannel, DimHistograms, FrequencyMap, Histogram, MinMaxBox, Rgba};
use crate::mmcq::MMCQ;

verus! {

broadcast use vstd::std_specs::hash::group_hash_axioms;

/// Lowers `min` to `val` or raises `max` to `val` where `val` lies outside
/// the current bounds.
pub fn replace_minmax(val: u8, min: &mut u8, max: &mut u8)
    ensures
        *final(min) == if val < *old(min) { val } else { *old(min) },
        *final(max) == if val > *old(max) { val } else { *old(max) },
{
    if val < *min {
        *min = val;
    }
    if val > *max {
        *max = val;
    }
}

/// Computes the tight per-channel bounding box of a pixel sequence in a
/// single pass: every pixel lies within it, and every bound is attained.
pub fn calc_minmax_box(pixels: &Vec<Rgba>) -> (bx: MinMaxBox)
    requires
        pixels@.len() > 0,
    ensures
        bx.wf(),
        forall|i: int|
            0 <= i < pixels@.len() ==> bx.rmin <= #[trigger] pixels@[i].r <= bx.rmax
                && bx.gmin <= pixels@[i].g <= bx.gmax && bx.bmin <= pixels@[i].b <= bx.bmax,
        exists|i: int| 0 <= i < pixels@.len() && #[trigger] pixels@[i].r == bx.rmin,
        exists|i: int| 0 <= i < pixels@.len() && #[trigger] pixels@[i].r == bx.rmax,
        exists|i: int| 0 <= i < pixels@.len() && #[trigger] pixels@[i].g == bx.gmin,
        exists|i: int| 0 <= i < pixels@.len() && #[trigger] pixels@[i].g == bx.gmax,
        exists|i: int| 0 <= i < pixels@.len() && #[trigger] pixels@[i].b == bx.bmin,
        exists|i: int| 0 <= i < pixels@.len() && #[trigger] pixels@[i].b == bx.bmax,
{
    let first_pixel: Rgba = pixels[0];
    let mut rmin: u8 = first_pixel.r;
    let mut rmax: u8 = first_pixel.r;
    let mut gmin: u8 = first_pixel.g;
    let mut gmax: u8 = first_pixel.g;
    let mut bmin: u8 = first_pixel.b;
    let mut bmax: u8 = first_pixel.b;

    let mut idx: usize = 1;
    while idx < pixels.len()
        invariant
            1 <= idx <= pixels@.len(),
            rmin <= rmax && gmin <= gmax && bmin <= bmax,
            forall|i: int|
                0 <= i < idx ==> rmin <= #[trigger] pixels@[i].r <= rmax && gmin <= pixels@[i].g
                    <= gmax && bmin <= pixels@[i].b <= bmax,
            exists|i: int| 0 <= i < idx && #[trigger] pixels@[i].r == rmin,
            exists|i: int| 0 <= i < idx && #[trigger] pixels@[i].r == rmax,
            exists|i: int| 0 <= i < idx && #[trigger] pixels@[i].g == gmin,
            exists|i: int| 0 <= i < idx && #[trigger] pixels@[i].g == gmax,
            exists|i: int| 0 <= i < idx && #[trigger] pixels@[i].b == bmin,
            exists|i: int| 0 <= i < idx && #[trigger] pixels@[i].b == bmax,
        decreases pixels@.len() - idx,
    {
        let pixel: Rgba = pixels[idx];
        replace_minmax(pixel.r, &mut rmin, &mut rmax);
        replace_minmax(pixel.g, &mut gmin, &mut gmax);
        replace_minmax(pixel.b, &mut bmin, &mut bmax);
        idx = idx + 1;
    }

    MinMaxBox { rmin, rmax, gmin, gmax, bmin, bmax }
}

/// The value a pixel holds on the given channel.
fn channel_value(pixel: Rgba, color_ch: ColorChannel) -> (v: u8)
    ensures
        v as int == channel_of(pixel, color_ch),
{
    match color_ch {
        ColorChannel::Red => pixel.r,
        ColorChannel::Green => pixel.g,
        ColorChannel::Blue => pixel.b,
    }
}

/// Builds the histogram of one channel over the pixels: entry `t` counts
/// the pixels whose channel value is `t` above the channel's minimum, and
/// the histogram spans exactly the channel's value range.
fn generate_histogram(color_ch: ColorChannel, pixels: &Vec<Rgba>) -> (hist: Histogram)
    requires
        pixels@.len() > 0,
        pixels@.len() <= u32::MAX,
    ensures
        ({
            let lo = min_channel_val(pixels@, color_ch);
            let hi = max_channel_val(pixels@, color_ch);
            &&& hist.0@.len() == hi - lo + 1
            &&& forall|t: int|
                0 <= t < hist.0@.len() ==> hist.0@[t] == channel_count(pixels@, color_ch, lo + t)
        }),
{
    // First pass: the channel's minimum and maximum value.
    let first_val: u8 = channel_value(pixels[0], color_ch);
    let mut min: u8 = first_val;
    let mut max: u8 = first_val;
    proof {
        assert(pixels@.take(1).len() == 1);
        assert(pixels@.take(1)[0] == pixels@[0]);
    }
    let mut idx: usize = 1;
    while idx < pixels.len()
        invariant
            1 <= idx <= pixels@.len(),
            min as int == min_channel_val(pixels@.take(idx as int), color_ch),
            max as int == max_channel_val(pixels@.take(idx as int), color_ch),
        decreases pixels@.len() - idx,
    {
        let val: u8 = channel_value(pixels[idx], color_ch);
        proof {
            assert(pixels@.take(idx + 1).drop_last() =~= pixels@.take(idx as int));
            assert(pixels@.take(idx + 1).last() == pixels@[idx as int]);
        }
        replace_minmax(val, &mut min, &mut max);
        idx = idx + 1;
    }
    proof {
        assert(pixels@.take(pixels@.len() as int) =~= pixels@);
    }

    // Second pass: count each value's occurrences, offset by the minimum.
    let range: usize = (max - min) as usize + 1;
    let mut counts: Vec<u32> = Vec::new();
    while counts.len() < range
        invariant
            counts@.len() <= range,
            forall|t: int| 0 <= t < counts@.len() ==> counts@[t] == 0,
        decreases range - counts@.len(),
    {
        counts.push(0);
    }
    proof {
        assert(pixels@.take(0).len() == 0);
    }
    let mut idx2: usize = 0;
    while idx2 < pixels.len()
        invariant
            0 <= idx2 <= pixels@.len(),
            pixels@.len() <= u32::MAX,
            counts@.len() == range,
            range == max_channel_val(pixels@, color_ch) - min_channel_val(pixels@, color_ch) + 1,
            min as int == min_channel_val(pixels@, color_ch),
            max as int == max_channel_val(pixels@, color_ch),
            forall|t: int|
                0 <= t < counts@.len() ==> counts@[t] == channel_count(
                    pixels@.take(idx2 as int),
                    color_ch,
                    min + t,
                ),
        decreases pixels@.len() - idx2,
    {
        let val: u8 = channel_value(pixels[idx2], color_ch);
        proof {
            lemma_channel_val_bounds(pixels@, color_ch, idx2 as int);
            lemma_channel_count_nonneg(pixels@.take(idx2 as int), color_ch, val as int);
            assert(pixels@.take(idx2 as int).len() < u32::MAX);
        }
        let pos: usize = (val - min) as usize;
        let ghost old_counts = counts@;
        counts[pos] = counts[pos] + 1;
        proof {
            assert(pixels@.take(idx2 + 1).drop_last() =~= pixels@.take(idx2 as int));
            assert(pixels@.take(idx2 + 1).last() == pixels@[idx2 as int]);
            assert forall|t: int|
                0 <= t < counts@.len() implies counts@[t] == channel_count(
                    pixels@.take(idx2 + 1),
                    color_ch,
                    min + t,
                ) by {
                if t == pos {
                    assert(counts@[t] == old_counts[t] + 1);
                } else {
                    assert(counts@[t] == old_counts[t]);
                }
            }
        }
        idx2 = idx2 + 1;
    }
    proof {
        assert(pixels@.take(pixels@.len() as int) =~= pixels@);
    }
    Histogram(counts)
}

/// The histogram of the chosen channel over the pixels; see the entries'
/// exact meaning on the builder above.
pub fn calc_histogram(color_ch: ColorChannel, pixels: &Vec<Rgba>) -> (hist: Histogram)
    requires
        pixels@.len() > 0,
        pixels@.len() <= u32::MAX,
    ensures
        ({
            let lo = min_channel_val(pixels@, color_ch);
            let hi = max_channel_val(pixels@, color_ch);
            &&& hist.0@.len() == hi - lo + 1
            &&& forall|t: int|
                0 <= t < hist.0@.len() ==> hist.0@[t] == channel_count(pixels@, color_ch, lo + t)
        }),
{
    match color_ch {
        ColorChannel::Red => generate_histogram(color_ch, pixels),
        ColorChannel::Green => generate_histogram(color_ch, pixels),
        ColorChannel::Blue => generate_histogram(color_ch, pixels),
    }
}

/// The three per-channel histograms of the pixels, in red, green, blue
/// order.
pub fn calc_dim_histograms(pixels: &Vec<Rgba>) -> (dims: DimHistograms)
    requires
        pixels@.len() > 0,
        pixels@.len() <= u32::MAX,
    ensures
        ({
            let rh = dims.0[0].0@;
            let gh = dims.0[1].0@;
            let bh = dims.0[2].0@;
            &&& rh.len() == max_channel_val(pixels@, ColorChannel::Red) - min_channel_val(
                pixels@,
                ColorChannel::Red,
            ) + 1
            &&& gh.len() == max_channel_val(pixels@, ColorChannel::Green) - min_channel_val(
                pixels@,
                ColorChannel::Green,
            ) + 1
            &&& bh.len() == max_channel_val(pixels@, ColorChannel::Blue) - min_channel_val(
                pixels@,
                ColorChannel::Blue,
            ) + 1
            &&& forall|t: int|
                0 <= t < rh.len() ==> rh[t] == channel_count(
                    pixels@,
                    ColorChannel::Red,
                    min_channel_val(pixels@, ColorChannel::Red) + t,
                )
            &&& forall|t: int|
                0 <= t < gh.len() ==> gh[t] == channel_count(
                    pixels@,
                    ColorChannel::Green,
                    min_channel_val(pixels@, ColorChannel::Green) + t,
                )
            &&& forall|t: int|
                0 <= t < bh.len() ==> bh[t] == channel_count(
                    pixels@,
                    ColorChannel::Blue,
                    min_channel_val(pixels@, ColorChannel::Blue) + t,
                )
        }),
{
    let rhistogram = calc_histogram(ColorChannel::Red, pixels);
    let ghistogram = calc_histogram(ColorChannel::Green, pixels);
    let bhistogram = calc_histogram(ColorChannel::Blue, pixels);

    DimHistograms([rhistogram, ghistogram, bhistogram])
}

/// The population of a box: the sum of the frequency map's counts over
/// every bin it covers.
pub fn box_population(frequency_map: &FrequencyMap, minmax_box: MinMaxBox) -> (p: u32)
    requires
        frequency_map.wf(),
        minmax_box.binned(),
    ensures
        p == box_pop(frequency_map.0@, minmax_box),
{
    let (_histo, total) = calc_cumul_histo(frequency_map, &ColorChannel::Red, minmax_box);
    total
}

/// Builds the frequency map of a pixel sequence: each pixel's color hash
/// is counted once, so the counts always sum to the number of pixels.
pub fn calc_frequency_map(pixels: &Vec<Rgba>) -> (fm: FrequencyMap)
    requires
        pixels@.len() <= u32::MAX,
    ensures
        fm.wf(),
        forall|k: int| count_of(fm.0@, k) == hash_count(pixels@, k),
        forall|k: u32| #[trigger] fm.0@.contains_key(k) ==> fm.0@[k] >= 1,
        map_total(fm.0@) == pixels@.len(),
{
    let mut frequency_map: HashMap<u32, u32> = HashMap::new();
    proof {
        crate::counting::lemma_map_sum_empty(HASH_SPACE as int);
    }
    let mut idx: usize = 0;
    while idx < pixels.len()
        invariant
            pixels@.len() <= u32::MAX,
            0 <= idx <= pixels@.len(),
            forall|k: int| count_of(frequency_map@, k) == hash_count(pixels@.take(idx as int), k),
            forall|k: u32| #[trigger] frequency_map@.contains_key(k) ==> frequency_map@[k] >= 1,
            keys_bounded(frequency_map@),
            map_total(frequency_map@) == idx,
        decreases pixels@.len() - idx,
    {
        let pixel: Rgba = pixels[idx];
        let hash_val: u32 = MMCQ::hash_pixel(&pixel);
        let count: u32 = match frequency_map.get(&hash_val) {
            Some(v) => *v,
            None => 0,
        };
        proof {
            assert(count == count_of(frequency_map@, hash_val as int));
            lemma_count_le_total(frequency_map@, hash_val);
            lemma_map_sum_insert(
                frequency_map@,
                hash_val,
                (count + 1) as u32,
                HASH_SPACE as int,
            );
        }
        let ghost old_map = frequency_map@;
        frequency_map.insert(hash_val, count + 1);
        proof {
            assert(pixels@.take(idx + 1).drop_last() =~= pixels@.take(idx as int));
            assert(pixels@.take(idx + 1).last() == pixels@[idx as int]);
            assert(pixel_hash(pixels@[idx as int]) == hash_val);
            assert forall|k: int|
                count_of(frequency_map@, k) == hash_count(pixels@.take(idx + 1), k) by {
                if k == hash_val {
                    assert(count_of(frequency_map@, k) == count + 1);
                } else {
                    assert(count_of(frequency_map@, k) == count_of(old_map, k));
                }
            }
        }
        idx = idx + 1;
    }
    proof {
        assert(pixels@.take(pixels@.len() as int) =~= pixels@);
    }
    FrequencyMap(frequency_map)
}

/// The cumulative histogram of a box along the red axis: entry `t` sums
/// the map's counts over the sub-box with red at most `rmin + t`.
fn cumul_histo_red(m: &HashMap<u32, u32>, bx: MinMaxBox) -> (res: (Vec<u32>, u32))
    requires
        bx.binned(),
        map_total(m@) <= u32::MAX,
    ensures
        res.0@.len() == bx.rmax - bx.rmin + 1,
        forall|t: int|
            0 <= t < res.0@.len() ==> res.0@[t] == range_pop(
                m@,
                bx.rmin as int,
                bx.rmin + t,
                bx.gmin as int,
                bx.gmax as int,
                bx.bmin as int,
                bx.bmax as int,
            ),
        res.1 == box_pop(m@, bx),
{
    let mut total: u32 = 0;
    let mut partialsum: Vec<u32> = Vec::new();
    let mut i: u8 = bx.rmin;
    while i <= bx.rmax
        invariant
            bx.binned(),
            map_total(m@) <= u32::MAX,
            bx.rmin <= i <= bx.rmax + 1,
            partialsum@.len() == i - bx.rmin,
            forall|t: int|
                0 <= t < partialsum@.len() ==> partialsum@[t] == range_pop(
                    m@,
                    bx.rmin as int,
                    bx.rmin + t,
                    bx.gmin as int,
                    bx.gmax as int,
                    bx.bmin as int,
                    bx.bmax as int,
                ),
            total == range_pop(
                m@,
                bx.rmin as int,
                i - 1,
                bx.gmin as int,
                bx.gmax as int,
                bx.bmin as int,
                bx.bmax as int,
            ),
        decreases bx.rmax + 1 - i,
    {
        let mut j: u8 = bx.gmin;
        while j <= bx.gmax
            invariant
                bx.binned(),
                map_total(m@) <= u32::MAX,
                bx.rmin <= i <= bx.rmax,
                bx.gmin <= j <= bx.gmax + 1,
                total == range_pop(
                    m@,
                    bx.rmin as int,
                    i - 1,
                    bx.gmin as int,
                    bx.gmax as int,
                    bx.bmin as int,
                    bx.bmax as int,
                ) + plane_pop(m@, i as int, bx.gmin as int, j - 1, bx.bmin as int, bx.bmax as int),
            decreases bx.gmax + 1 - j,
        {
            let mut isum: u32 = 0;
            let mut k: u8 = bx.bmin;
            while k <= bx.bmax
                invariant
                    bx.binned(),
                    map_total(m@) <= u32::MAX,
                    bx.rmin <= i <= bx.rmax,
                    bx.gmin <= j <= bx.gmax,
                    bx.bmin <= k <= bx.bmax + 1,
                    isum == row_pop(m@, i as int, j as int, bx.bmin as int, k - 1),
                decreases bx.bmax + 1 - k,
            {
                let hash_val: u32 = MMCQ::hash_rgb(i, j, k);
                let val: u32 = match m.get(&hash_val) {
                    Some(v) => *v,
                    None => 0,
                };
                proof {
                    assert(val == count_of(m@, color_hash(i as int, j as int, k as int)));
                    assert(row_pop(m@, i as int, j as int, bx.bmin as int, k as int) == isum + val);
                    lemma_row_pop_le_total(m@, i as int, j as int, bx.bmin as int, k as int);
                }
                isum = isum + val;
                k = k + 1;
            }
            proof {
                assert(plane_pop(m@, i as int, bx.gmin as int, j as int, bx.bmin as int, bx.bmax as int)
                    == plane_pop(m@, i as int, bx.gmin as int, j - 1, bx.bmin as int, bx.bmax as int)
                    + row_pop(m@, i as int, j as int, bx.bmin as int, bx.bmax as int));
                lemma_plane_pop_split_g(
                    m@,
                    i as int,
                    bx.gmin as int,
                    j as int,
                    bx.gmax as int,
                    bx.bmin as int,
                    bx.bmax as int,
                );
                lemma_plane_pop_nonneg(
                    m@,
                    i as int,
                    j + 1,
                    bx.gmax as int,
                    bx.bmin as int,
                    bx.bmax as int,
                );
                assert(range_pop(
                    m@,
                    bx.rmin as int,
                    i as int,
                    bx.gmin as int,
                    bx.gmax as int,
                    bx.bmin as int,
                    bx.bmax as int,
                ) == range_pop(
                    m@,
                    bx.rmin as int,
                    i - 1,
                    bx.gmin as int,
                    bx.gmax as int,
                    bx.bmin as int,
                    bx.bmax as int,
                ) + plane_pop(m@, i as int, bx.gmin as int, bx.gmax as int, bx.bmin as int, bx.bmax as int));
                lemma_range_pop_le_total(
                    m@,
                    bx.rmin as int,
                    i as int,
                    bx.gmin as int,
                    bx.gmax as int,
                    bx.bmin as int,
                    bx.bmax as int,
                );
            }
            total = total + isum;
            j = j + 1;
        }
        proof {
            assert(range_pop(
                m@,
                bx.rmin as int,
                i as int,
                bx.gmin as int,
                bx.gmax as int,
                bx.bmin as int,
                bx.bmax as int,
            ) == range_pop(
                m@,
                bx.rmin as int,
                i - 1,
                bx.gmin as int,
                bx.gmax as int,
                bx.bmin as int,
                bx.bmax as int,
            ) + plane_pop(m@, i as int, bx.gmin as int, bx.gmax as int, bx.bmin as int, bx.bmax as int));
        }
        partialsum.push(total);
        i = i + 1;
    }
    (partialsum, total)
}

/// The cumulative histogram of a box along the green axis: entry `t` sums
/// the map's counts over the sub-box with green at most `gmin + t`.
fn cumul_histo_green(m: &HashMap<u32, u32>, bx: MinMaxBox) -> (res: (Vec<u32>, u32))
    requires
        bx.binned(),
        map_total(m@) <= u32::MAX,
    ensures
        res.0@.len() == bx.gmax - bx.gmin + 1,
        forall|t: int|
            0 <= t < res.0@.len() ==> res.0@[t] == range_pop(
                m@,
                bx.rmin as int,
                bx.rmax as int,
                bx.gmin as int,
                bx.gmin + t,
                bx.bmin as int,
                bx.bmax as int,
            ),
        res.1 == box_pop(m@, bx),
{
    let mut total: u32 = 0;
    let mut partialsum: Vec<u32> = Vec::new();
    let mut i: u8 = bx.gmin;
    proof {
        lemma_range_pop_empty_g(
            m@,
            bx.rmin as int,
            bx.rmax as int,
            bx.gmin as int,
            bx.gmin - 1,
            bx.bmin as int,
            bx.bmax as int,
        );
    }
    while i <= bx.gmax
        invariant
            bx.binned(),
            map_total(m@) <= u32::MAX,
            bx.gmin <= i <= bx.gmax + 1,
            partialsum@.len() == i - bx.gmin,
            forall|t: int|
                0 <= t < partialsum@.len() ==> partialsum@[t] == range_pop(
                    m@,
                    bx.rmin as int,
                    bx.rmax as int,
                    bx.gmin as int,
                    bx.gmin + t,
                    bx.bmin as int,
                    bx.bmax as int,
                ),
            total == range_pop(
                m@,
                bx.rmin as int,
                bx.rmax as int,
                bx.gmin as int,
                i - 1,
                bx.bmin as int,
                bx.bmax as int,
            ),
        decreases bx.gmax + 1 - i,
    {
        let mut j: u8 = bx.rmin;
        while j <= bx.rmax
            invariant
                bx.binned(),
                map_total(m@) <= u32::MAX,
                bx.gmin <= i <= bx.gmax,
                bx.rmin <= j <= bx.rmax + 1,
                total == range_pop(
                    m@,
                    bx.rmin as int,
                    bx.rmax as int,
                    bx.gmin as int,
                    i - 1,
                    bx.bmin as int,
                    bx.bmax as int,
                ) + range_pop(m@, bx.rmin as int, j - 1, i as int, i as int, bx.bmin as int, bx.bmax as int),
            decreases bx.rmax + 1 - j,
        {
            let mut isum: u32 = 0;
            let mut k: u8 = bx.bmin;
            while k <= bx.bmax
                invariant
                    bx.binned(),
                    map_total(m@) <= u32::MAX,
                    bx.gmin <= i <= bx.gmax,
                    bx.rmin <= j <= bx.rmax,
                    bx.bmin <= k <= bx.bmax + 1,
                    isum == row_pop(m@, j as int, i as int, bx.bmin as int, k - 1),
                decreases bx.bmax + 1 - k,
            {
                let hash_val: u32 = MMCQ::hash_rgb(j, i, k);
                let val: u32 = match m.get(&hash_val) {
                    Some(v) => *v,
                    None => 0,
                };
                proof {
                    assert(val == count_of(m@, color_hash(j as int, i as int, k as int)));
                    assert(row_pop(m@, j as int, i as int, bx.bmin as int, k as int) == isum + val);
                    lemma_row_pop_le_total(m@, j as int, i as int, bx.bmin as int, k as int);
                }
                isum = isum + val;
                k = k + 1;
            }
            proof {
                assert(plane_pop(m@, j as int, i as int, i - 1, bx.bmin as int, bx.bmax as int) == 0);
                assert(plane_pop(m@, j as int, i as int, i as int, bx.bmin as int, bx.bmax as int)
                    == row_pop(m@, j as int, i as int, bx.bmin as int, bx.bmax as int));
                assert(range_pop(m@, bx.rmin as int, j as int, i as int, i as int, bx.bmin as int, bx.bmax as int)
                    == range_pop(m@, bx.rmin as int, j - 1, i as int, i as int, bx.bmin as int, bx.bmax as int)
                    + plane_pop(m@, j as int, i as int, i as int, bx.bmin as int, bx.bmax as int));
                lemma_range_pop_split_r(
                    m@,
                    bx.rmin as int,
                    j as int,
                    bx.rmax as int,
                    i as int,
                    i as int,
                    bx.bmin as int,
                    bx.bmax as int,
                );
                lemma_range_pop_nonneg(
                    m@,
                    j + 1,
                    bx.rmax as int,
                    i as int,
                    i as int,
                    bx.bmin as int,
                    bx.bmax as int,
                );
                lemma_range_pop_split_g(
                    m@,
                    bx.rmin as int,
                    bx.rmax as int,
                    bx.gmin as int,
                    i - 1,
                    i as int,
                    bx.bmin as int,
                    bx.bmax as int,
                );
                lemma_range_pop_le_total(
                    m@,
                    bx.rmin as int,
                    bx.rmax as int,
                    bx.gmin as int,
                    i as int,
                    bx.bmin as int,
                    bx.bmax as int,
                );
            }
            total = total + isum;
            j = j + 1;
        }
        proof {
            lemma_range_pop_split_g(
                m@,
                bx.rmin as int,
                bx.rmax as int,
                bx.gmin as int,
                i - 1,
                i as int,
                bx.bmin as int,
                bx.bmax as int,
            );
        }
        partialsum.push(total);
        i = i + 1;
    }
    (partialsum, total)
}

/// The cumulative histogram of a box along the blue axis: entry `t` sums
/// the map's counts over the sub-box with blue at most `bmin + t`.
fn cumul_histo_blue(m: &HashMap<u32, u32>, bx: MinMaxBox) -> (res: (Vec<u32>, u32))
    requires
        bx.binned(),
        map_total(m@) <= u32::MAX,
    ensures
        res.0@.len() == bx.bmax - bx.bmin + 1,
        forall|t: int|
            0 <= t < res.0@.len() ==> res.0@[t] == range_pop(
                m@,
                bx.rmin as int,
                bx.rmax as int,
                bx.gmin as int,
                bx.gmax as int,
                bx.bmin as int,
                bx.bmin + t,
            ),
        res.1 == box_pop(m@, bx),
{
    let mut total: u32 = 0;
    let mut partialsum: Vec<u32> = Vec::new();
    let mut i: u8 = bx.bmin;
    proof {
        lemma_range_pop_empty_b(
            m@,
            bx.rmin as int,
            bx.rmax as int,
            bx.gmin as int,
            bx.gmax as int,
            bx.bmin as int,
            bx.bmin - 1,
        );
    }
    while i <= bx.bmax
        invariant
            bx.binned(),
            map_total(m@) <= u32::MAX,
            bx.bmin <= i <= bx.bmax + 1,
            partialsum@.len() == i - bx.bmin,
            forall|t: int|
                0 <= t < partialsum@.len() ==> partialsum@[t] == range_pop(
                    m@,
                    bx.rmin as int,
                    bx.rmax as int,
                    bx.gmin as int,
                    bx.gmax as int,
                    bx.bmin as int,
                    bx.bmin + t,
                ),
            total == range_pop(
                m@,
                bx.rmin as int,
                bx.rmax as int,
                bx.gmin as int,
                bx.gmax as int,
                bx.bmin as int,
                i - 1,
            ),
        decreases bx.bmax + 1 - i,
    {
        let mut j: u8 = bx.rmin;
        while j <= bx.rmax
            invariant
                bx.binned(),
                map_total(m@) <= u32::MAX,
                bx.bmin <= i <= bx.bmax,
                bx.rmin <= j <= bx.rmax + 1,
                total == range_pop(
                    m@,
                    bx.rmin as int,
                    bx.rmax as int,
                    bx.gmin as int,
                    bx.gmax as int,
                    bx.bmin as int,
                    i - 1,
                ) + range_pop(m@, bx.rmin as int, j - 1, bx.gmin as int, bx.gmax as int, i as int, i as int),
            decreases bx.rmax + 1 - j,
        {
            let mut isum: u32 = 0;
            let mut k: u8 = bx.gmin;
            while k <= bx.gmax
                invariant
                    bx.binned(),
                    map_total(m@) <= u32::MAX,
                    bx.bmin <= i <= bx.bmax,
                    bx.rmin <= j <= bx.rmax,
                    bx.gmin <= k <= bx.gmax + 1,
                    isum == plane_pop(m@, j as int, bx.gmin as int, k - 1, i as int, i as int),
                decreases bx.gmax + 1 - k,
            {
                let hash_val: u32 = MMCQ::hash_rgb(j, k, i);
                let val: u32 = match m.get(&hash_val) {
                    Some(v) => *v,
                    None => 0,
                };
                proof {
                    assert(val == count_of(m@, color_hash(j as int, k as int, i as int)));
                    assert(row_pop(m@, j as int, k as int, i as int, i - 1) == 0);
                    assert(row_pop(m@, j as int, k as int, i as int, i as int) == val);
                    assert(plane_pop(m@, j as int, bx.gmin as int, k as int, i as int, i as int)
                        == isum + val);
                    lemma_plane_pop_le_total(m@, j as int, bx.gmin as int, k as int, i as int, i as int);
                }
                isum = isum + val;
                k = k + 1;
            }
            proof {
                assert(range_pop(m@, bx.rmin as int, j as int, bx.gmin as int, bx.gmax as int, i as int, i as int)
                    == range_pop(m@, bx.rmin as int, j - 1, bx.gmin as int, bx.gmax as int, i as int, i as int)
                    + plane_pop(m@, j as int, bx.gmin as int, bx.gmax as int, i as int, i as int));
                lemma_range_pop_split_r(
                    m@,
                    bx.rmin as int,
                    j as int,
                    bx.rmax as int,
                    bx.gmin as int,
                    bx.gmax as int,
                    i as int,
                    i as int,
                );
                lemma_range_pop_nonneg(
                    m@,
                    j + 1,
                    bx.rmax as int,
                    bx.gmin as int,
                    bx.gmax as int,
                    i as int,
                    i as int,
                );
                lemma_range_pop_split_b(
                    m@,
                    bx.rmin as int,
                    bx.rmax as int,
                    bx.gmin as int,
                    bx.gmax as int,
                    bx.bmin as int,
                    i - 1,
                    i as int,
                );
                lemma_range_pop_le_total(
                    m@,
                    bx.rmin as int,
                    bx.rmax as int,
                    bx.gmin as int,
                    bx.gmax as int,
                    bx.bmin as int,
                    i as int,
                );
            }
            total = total + isum;
            j = j + 1;
        }
        proof {
            lemma_range_pop_split_b(
                m@,
                bx.rmin as int,
                bx.rmax as int,
                bx.gmin as int,
                bx.gmax as int,
                bx.bmin as int,
                i - 1,
                i as int,
            );
        }
        partialsum.push(total);
        i = i + 1;
    }
    (partialsum, total)
}

/// Collapses the frequency map over the two non-chosen axes into a 1D
/// running-sum histogram along the chosen axis of the box: entry `t` is
/// the box's population restricted to axis value at most `min + t`, and
/// the returned total is the whole box's population.
pub fn calc_cumul_histo(
    frequency_map: &FrequencyMap,
    color_channel: &ColorChannel,
    minmax_box: MinMaxBox,
) -> (res: (Histogram, u32))
    requires
        minmax_box.binned(),
        frequency_map.wf(),
    ensures
        res.0.0@.len() == minmax_box.axis_hi(*color_channel) - minmax_box.axis_lo(*color_channel)
            + 1,
        forall|t: int|
            0 <= t < res.0.0@.len() ==> res.0.0@[t] == prefix_pop(
                frequency_map.0@,
                minmax_box,
                *color_channel,
                minmax_box.axis_lo(*color_channel) + t,
            ),
        res.1 == box_pop(frequency_map.0@, minmax_box),
{
    let (v, total) = match color_channel {
        ColorChannel::Red => cumul_histo_red(&frequency_map.0, minmax_box),
        ColorChannel::Green => cumul_histo_green(&frequency_map.0, minmax_box),
        ColorChannel::Blue => cumul_histo_blue(&frequency_map.0, minmax_box),
    };
    (Histogram(v), total)
}

} // verus!
