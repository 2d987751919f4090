//! An earlier shape of the quantizer's API: a color space that carries
//! its own frequency map beside its bounds, with the same binning,
//! hashing and median-cut behavior as the box-queue pipeline.

use std::collections::HashMap;
use vstd::prelude::*;

use crate::counting::{
    binned_seq, box_pop, color_hash, count_of, hash_count, in_box, keys_bounded,
    lemma_map_sum_monotone, map_sum_below, map_total,
};
use crate::data_models::{ColorChannel, FrequencyMap, MinMaxBox, Rgba};
use crate::mmcq::{
    box_splittable, locate_longest_split, longest_axis, split_box, split_boxes, split_value_spec,
};

verus! {

broadcast use vstd::std_specs::hash::group_hash_axioms;

/// The axis-aligned bounds a color space holds, as a box value.
pub open spec fn colorspace_box(cs: ColorSpace) -> MinMaxBox {
    MinMaxBox {
        rmin: cs.r_min,
        rmax: cs.r_max,
        gmin: cs.g_min,
        gmax: cs.g_max,
        bmin: cs.b_min,
        bmax: cs.b_max,
    }
}

/// A region of quantized color space together with the frequency map of
/// the pixels it was computed from.
pub struct ColorSpace {
    pub r_min: u8,
    pub r_max: u8,
    pub g_min: u8,
    pub g_max: u8,
    pub b_min: u8,
    pub b_max: u8,
    pub frequency_map: HashMap<u32, u32>,
}

/// Modified Median Cut Quantization over color spaces: bins each 8-bit
/// channel to five significant bits and splits the space at the adjusted
/// population median of its longest axis.
pub struct MMCQ {}

impl MMCQ {
    /// Bins each pixel's channels and counts how often each binned color
    /// occurs: the counts always sum to the number of pixels.
    pub fn get_frequency_map(pixels: &Vec<Rgba>) -> (history: HashMap<u32, u32>)
        requires
            pixels@.len() <= u32::MAX,
        ensures
            forall|k: int| count_of(history@, k) == hash_count(binned_seq(pixels@), k),
            forall|k: u32| #[trigger] history@.contains_key(k) ==> history@[k] >= 1,
            keys_bounded(history@),
            map_total(history@) == pixels@.len(),
    {
        let mut binned: Vec<Rgba> = Vec::new();
        let mut i: usize = 0;
        while i < pixels.len()
            invariant
                0 <= i <= pixels@.len(),
                binned@.len() == i,
                forall|j: int|
                    0 <= j < i ==> #[trigger] binned@[j] == crate::counting::binned_pixel(
                        pixels@[j],
                    ),
            decreases pixels@.len() - i,
        {
            binned.push(crate::mmcq::MMCQ::bin_pixel(pixels[i]));
            i = i + 1;
        }
        proof {
            assert(binned@ =~= binned_seq(pixels@));
        }
        let history: FrequencyMap = crate::stats::calc_frequency_map(&binned);
        let FrequencyMap(map) = history;
        map
    }

    /// Packs three already-binned channel values into one identifier.
    pub fn get_color_hash(r: u8, g: u8, b: u8) -> (h: u32)
        ensures
            h == color_hash(r as int, g as int, b as int),
    {
        crate::mmcq::MMCQ::hash_rgb(r, g, b)
    }

    /// The RGB value range of the binned pixels, beside their frequency
    /// map: a condensed summary of the image's color characteristics.
    pub fn get_colorspace(pixels: &Vec<Rgba>, histogram: &HashMap<u32, u32>) -> (cs: ColorSpace)
        ensures
            cs.frequency_map@ == histogram@,
            pixels@.len() > 0 ==> colorspace_box(cs) == crate::counting::bounding_box(
                binned_seq(pixels@),
            ),
            pixels@.len() == 0 ==> cs.r_min == 255 && cs.r_max == 0 && cs.g_min == 255 && cs.g_max
                == 0 && cs.b_min == 255 && cs.b_max == 0,
    {
        let mut colorspace: ColorSpace = ColorSpace::new(histogram.clone());

        let mut i: usize = 0;
        while i < pixels.len()
            invariant
                0 <= i <= pixels@.len(),
                colorspace.frequency_map@ == histogram@,
                i == 0 ==> colorspace.r_min == 255 && colorspace.r_max == 0 && colorspace.g_min
                    == 255 && colorspace.g_max == 0 && colorspace.b_min == 255 && colorspace.b_max
                    == 0,
                i > 0 ==> colorspace.r_min == crate::counting::min_channel_val(
                    binned_seq(pixels@).take(i as int),
                    ColorChannel::Red,
                ) && colorspace.r_max == crate::counting::max_channel_val(
                    binned_seq(pixels@).take(i as int),
                    ColorChannel::Red,
                ) && colorspace.g_min == crate::counting::min_channel_val(
                    binned_seq(pixels@).take(i as int),
                    ColorChannel::Green,
                ) && colorspace.g_max == crate::counting::max_channel_val(
                    binned_seq(pixels@).take(i as int),
                    ColorChannel::Green,
                ) && colorspace.b_min == crate::counting::min_channel_val(
                    binned_seq(pixels@).take(i as int),
                    ColorChannel::Blue,
                ) && colorspace.b_max == crate::counting::max_channel_val(
                    binned_seq(pixels@).take(i as int),
                    ColorChannel::Blue,
                ),
            decreases pixels@.len() - i,
        {
            let pixel: Rgba = pixels[i];
            let binned: Rgba = crate::mmcq::MMCQ::bin_pixel(pixel);
            proof {
                let s = binned_seq(pixels@);
                assert(s[i as int] == crate::counting::binned_pixel(pixels@[i as int]));
                assert(s.take(i + 1).drop_last() =~= s.take(i as int));
                assert(s.take(i + 1).last() == s[i as int]);
                assert(s.take(i + 1)[0] == s[0]);
            }
            colorspace.update(ColorChannel::Red, binned.r);
            colorspace.update(ColorChannel::Green, binned.g);
            colorspace.update(ColorChannel::Blue, binned.b);
            i = i + 1;
        }
        proof {
            if pixels@.len() > 0 {
                assert(binned_seq(pixels@).take(pixels@.len() as int) =~= binned_seq(pixels@));
            }
        }
        colorspace
    }

    /// Splits the color space perpendicular to its longest axis at the
    /// adjusted population median of the given frequency map. Both of the
    /// returned spaces are populated, they share the split value as the
    /// left's upper and the right's lower bound on the split axis, and
    /// together they cover exactly the original region.
    pub fn median_cut_apply(colorspace: ColorSpace, histogram: &HashMap<u32, u32>) -> (res: (
        ColorSpace,
        ColorSpace,
    ))
        requires
            colorspace_box(colorspace).binned(),
            keys_bounded(histogram@),
            map_total(histogram@) <= u32::MAX,
            box_splittable(histogram@, colorspace_box(colorspace)),
        ensures
            ({
                let bx = colorspace_box(colorspace);
                let c = longest_axis(bx);
                let sv = split_value_spec(histogram@, bx, c) as u8;
                let children = split_boxes(bx, c, sv);
                &&& colorspace_box(res.0) == children.0
                &&& colorspace_box(res.1) == children.1
                &&& res.0.frequency_map@ == colorspace.frequency_map@
                &&& res.1.frequency_map@ == colorspace.frequency_map@
                &&& box_pop(histogram@, children.0) > 0
                &&& box_pop(histogram@, children.1) > 0
                &&& forall|r: int, g: int, b: int|
                    #![trigger in_box(children.0, r, g, b)]
                    #![trigger in_box(children.1, r, g, b)]
                    #![trigger in_box(bx, r, g, b)]
                    in_box(bx, r, g, b) <==> (in_box(children.0, r, g, b) || in_box(
                        children.1,
                        r,
                        g,
                        b,
                    ))
            }),
    {
        let minmax_box = MinMaxBox {
            rmin: colorspace.r_min,
            rmax: colorspace.r_max,
            gmin: colorspace.g_min,
            gmax: colorspace.g_max,
            bmin: colorspace.b_min,
            bmax: colorspace.b_max,
        };
        let frequency_map = FrequencyMap(histogram.clone());
        let (color_channel, median) = locate_longest_split(&frequency_map, minmax_box);
        let (left, right) = split_box(minmax_box, color_channel, median);
        let left_space = ColorSpace {
            r_min: left.rmin,
            r_max: left.rmax,
            g_min: left.gmin,
            g_max: left.gmax,
            b_min: left.bmin,
            b_max: left.bmax,
            frequency_map: colorspace.frequency_map.clone(),
        };
        let right_space = ColorSpace {
            r_min: right.rmin,
            r_max: right.rmax,
            g_min: right.gmin,
            g_max: right.gmax,
            b_min: right.bmin,
            b_max: right.bmax,
            frequency_map: colorspace.frequency_map,
        };
        (left_space, right_space)
    }
}

impl ColorSpace {
    /// A fresh color space around the given frequency map, with sentinel
    /// bounds that any first update replaces.
    pub fn new(histo: HashMap<u32, u32>) -> (cs: ColorSpace)
        ensures
            cs.r_min == 255 && cs.r_max == 0,
            cs.g_min == 255 && cs.g_max == 0,
            cs.b_min == 255 && cs.b_max == 0,
            cs.frequency_map@ == histo@,
    {
        ColorSpace {
            r_min: 255,
            r_max: 0,
            g_min: 255,
            g_max: 0,
            b_min: 255,
            b_max: 0,
            frequency_map: histo,
        }
    }

    /// The volume of the region: the product of the three axis ranges.
    pub fn volume(&self) -> (v: u32)
        requires
            self.r_min <= self.r_max,
            self.g_min <= self.g_max,
            self.b_min <= self.b_max,
        ensures
            v == (self.r_max - self.r_min) * (self.g_max - self.g_min) * (self.b_max - self.b_min),
    {
        let dr: u32 = (self.r_max - self.r_min) as u32;
        let dg: u32 = (self.g_max - self.g_min) as u32;
        let db: u32 = (self.b_max - self.b_min) as u32;
        proof {
            assert(dr * dg <= 255 * 255 && dr * dg * db <= 255 * 255 * 255) by (nonlinear_arith)
                requires
                    dr <= 255,
                    dg <= 255,
                    db <= 255,
            ;
        }
        dr * dg * db
    }

    /// The total pixel count the frequency map holds: the sum of all of
    /// its counts.
    pub fn count(&self) -> (sum_count: u32)
        requires
            keys_bounded(self.frequency_map@),
            map_total(self.frequency_map@) <= u32::MAX,
        ensures
            sum_count == map_total(self.frequency_map@),
    {
        let ghost m = self.frequency_map@;
        let mut sum_count: u32 = 0;
        let mut h: u32 = 0;
        while h < crate::counting::HASH_SPACE
            invariant
                m == self.frequency_map@,
                map_total(m) <= u32::MAX,
                0 <= h <= crate::counting::HASH_SPACE,
                sum_count == map_sum_below(m, h as int),
            decreases crate::counting::HASH_SPACE - h,
        {
            let val: u32 = match self.frequency_map.get(&h) {
                Some(v) => *v,
                None => 0,
            };
            proof {
                assert(val == count_of(m, h as int));
                assert(map_sum_below(m, h + 1) == map_sum_below(m, h as int) + count_of(
                    m,
                    h as int,
                ));
                lemma_map_sum_monotone(m, h + 1, crate::counting::HASH_SPACE as int);
            }
            sum_count = sum_count + val;
            h = h + 1;
        }
        sum_count
    }

    /// Widens the bounds of one channel to admit the given value.
    pub fn update(&mut self, color_channel: ColorChannel, value: u8)
        ensures
            ({
                let (lo, hi) = match color_channel {
                    ColorChannel::Red => (old(self).r_min, old(self).r_max),
                    ColorChannel::Green => (old(self).g_min, old(self).g_max),
                    ColorChannel::Blue => (old(self).b_min, old(self).b_max),
                };
                let (new_lo, new_hi) = match color_channel {
                    ColorChannel::Red => (final(self).r_min, final(self).r_max),
                    ColorChannel::Green => (final(self).g_min, final(self).g_max),
                    ColorChannel::Blue => (final(self).b_min, final(self).b_max),
                };
                &&& new_lo == if value < lo {
                    value
                } else {
                    lo
                }
                &&& new_hi == if value > hi {
                    value
                } else {
                    hi
                }
            }),
            color_channel != ColorChannel::Red ==> final(self).r_min == old(self).r_min
                && final(self).r_max == old(self).r_max,
            color_channel != ColorChannel::Green ==> final(self).g_min == old(self).g_min
                && final(self).g_max == old(self).g_max,
            color_channel != ColorChannel::Blue ==> final(self).b_min == old(self).b_min
                && final(self).b_max == old(self).b_max,
            final(self).frequency_map@ == old(self).frequency_map@,
    {
        match color_channel {
            ColorChannel::Red => {
                if value < self.r_min {
                    self.r_min = value;
                }
                if value > self.r_max {
                    self.r_max = value;
                }
            },
            ColorChannel::Green => {
                if value < self.g_min {
                    self.g_min = value;
                }
                if value > self.g_max {
                    self.g_max = value;
                }
            },
            ColorChannel::Blue => {
                if value < self.b_min {
                    self.b_min = value;
                }
                if value > self.b_max {
                    self.b_max = value;
                }
            },
        }
    }

    /// An independent copy of the color space, frequency map included.
    pub fn clone(&self) -> (cs: ColorSpace)
        ensures
            cs.r_min == self.r_min && cs.r_max == self.r_max,
            cs.g_min == self.g_min && cs.g_max == self.g_max,
            cs.b_min == self.b_min && cs.b_max == self.b_max,
            cs.frequency_map@ == self.frequency_map@,
    {
        ColorSpace {
            r_min: self.r_min,
            r_max: self.r_max,
            g_min: self.g_min,
            g_max: self.g_max,
            b_min: self.b_min,
            b_max: self.b_max,
            frequency_map: self.frequency_map.clone(),
        }
    }
}

} // verus!
