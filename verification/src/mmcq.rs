//! The Modified Median Cut Quantization algorithm proper: color hashing and
//! binning, the median locator and adjuster, the box splitter, and the
//! iteration over the box queue.

use vstd::prelude::*;

use crate::counting::{
    bin_value, binned_pixel, binned_seq, bounding_box, box_pop, color_hash, count_of, covered,
    distinct_color_count, freq_map_of, in_box, lemma_bounding_box_eq,
    lemma_covered_contains_equiv, lemma_covered_move, lemma_covered_split, lemma_freq_map_eq,
    lemma_hash_count_pos, lemma_point_le_box_pop, lemma_prefix_pop_bounds, lemma_prefix_pop_empty,
    lemma_prefix_pop_full, lemma_prefix_pop_step, lemma_range_pop_split_b, lemma_range_pop_split_g,
    lemma_range_pop_split_r, pixel_hash, prefix_pop,
};
use crate::data_models::{BoxQueue, ColorChannel, FrequencyMap, Histogram, MinMaxBox, Rgba};
use crate::stats::{calc_cumul_histo, calc_frequency_map, calc_minmax_box};

verus! {

/// Adjacent entries of a cumulative histogram never decrease.
pub open spec fn is_monotone(h: Seq<u32>) -> bool {
    forall|t: int| 0 <= t < h.len() - 1 ==> #[trigger] h[t] <= h[t + 1]
}

pub proof fn lemma_mono_le(h: Seq<u32>, a: int, b: int)
    requires
        is_monotone(h),
        0 <= a <= b < h.len(),
    ensures
        h[a] <= h[b],
    decreases b - a,
{
    if a < b {
        lemma_mono_le(h, a, b - 1);
        assert(h[b - 1] <= h[b]);
    }
}

/// The first index at or after `j` whose cumulative count strictly
/// exceeds half the total: the rough median scan.
pub open spec fn rough_median_idx(h: Seq<u32>, total: u32, j: int) -> int
    decreases h.len() - j,
{
    if j < 0 || j >= h.len() {
        j
    } else if h[j] > total / 2 {
        j
    } else {
        rough_median_idx(h, total, j + 1)
    }
}

/// The balance adjustment: the rough median at index `i` above `min` is
/// nudged toward the larger side of the axis range, rounding half up, and
/// clamped to `[min, max - 1]` from above or to `min` from below.
pub open spec fn balanced_median(i: int, min: int, max: int) -> int {
    let med = min + i;
    let upper = max - med;
    if i <= upper {
        let cand = med + (upper + 1) / 2;
        if cand > max - 1 {
            max - 1
        } else {
            cand
        }
    } else {
        let cand = med - 1 - (i + 1) / 2;
        if cand < min {
            min
        } else {
            cand
        }
    }
}

/// The upward zero-bin correction: the first index at or after `j` whose
/// cumulative count is positive.
pub open spec fn walk_up(h: Seq<u32>, j: int) -> int
    decreases h.len() - j,
{
    if 0 <= j < h.len() && h[j] == 0 {
        walk_up(h, j + 1)
    } else {
        j
    }
}

/// The downward correction: while the cumulative count at `j` is already
/// the whole total and the entry below is populated, step down.
pub open spec fn walk_down(h: Seq<u32>, total: u32, j: int) -> int
    decreases j,
{
    if 0 < j < h.len() && h[j] == total && h[j - 1] != 0 {
        walk_down(h, total, j - 1)
    } else {
        j
    }
}

/// The split index relative to the axis minimum: the rough median scan,
/// then the balance adjustment, then the two zero-bin corrections.
pub open spec fn mmcq_median_rel(h: Seq<u32>, min: int, max: int, total: u32) -> int {
    let rough = rough_median_idx(h, total, 0);
    let adjusted = balanced_median(rough, min, max);
    let up = walk_up(h, adjusted - min);
    walk_down(h, total, up)
}

/// The axis with the largest range, ties broken by the fixed priority
/// red over green over blue.
pub open spec fn longest_axis(bx: MinMaxBox) -> ColorChannel {
    let rr = bx.rmax - bx.rmin;
    let gr = bx.gmax - bx.gmin;
    let br = bx.bmax - bx.bmin;
    if rr >= gr && rr >= br {
        ColorChannel::Red
    } else if gr >= br {
        ColorChannel::Green
    } else {
        ColorChannel::Blue
    }
}

/// The two sub-boxes of a split: all bounds copied, except that along the
/// split axis the left child's upper bound and the right child's lower
/// bound both become the split value.
pub open spec fn split_boxes(bx: MinMaxBox, c: ColorChannel, split_val: u8) -> (MinMaxBox,
    MinMaxBox) {
    match c {
        ColorChannel::Red => (
            MinMaxBox {
                rmin: bx.rmin,
                rmax: split_val,
                gmin: bx.gmin,
                gmax: bx.gmax,
                bmin: bx.bmin,
                bmax: bx.bmax,
            },
            MinMaxBox {
                rmin: split_val,
                rmax: bx.rmax,
                gmin: bx.gmin,
                gmax: bx.gmax,
                bmin: bx.bmin,
                bmax: bx.bmax,
            },
        ),
        ColorChannel::Green => (
            MinMaxBox {
                rmin: bx.rmin,
                rmax: bx.rmax,
                gmin: bx.gmin,
                gmax: split_val,
                bmin: bx.bmin,
                bmax: bx.bmax,
            },
            MinMaxBox {
                rmin: bx.rmin,
                rmax: bx.rmax,
                gmin: split_val,
                gmax: bx.gmax,
                bmin: bx.bmin,
                bmax: bx.bmax,
            },
        ),
        ColorChannel::Blue => (
            MinMaxBox {
                rmin: bx.rmin,
                rmax: bx.rmax,
                gmin: bx.gmin,
                gmax: bx.gmax,
                bmin: bx.bmin,
                bmax: split_val,
            },
            MinMaxBox {
                rmin: bx.rmin,
                rmax: bx.rmax,
                gmin: bx.gmin,
                gmax: bx.gmax,
                bmin: split_val,
                bmax: bx.bmax,
            },
        ),
    }
}

/// A box can be split along channel `c`: the axis spans more than one
/// value, the box is populated, and some proper prefix of the axis holds
/// part but not all of the population.
pub open spec fn splittable_along(m: Map<u32, u32>, bx: MinMaxBox, c: ColorChannel) -> bool {
    &&& bx.axis_lo(c) < bx.axis_hi(c)
    &&& box_pop(m, bx) > 0
    &&& exists|v: int|
        bx.axis_lo(c) <= v <= bx.axis_hi(c) && 0 < #[trigger] prefix_pop(m, bx, c, v) < box_pop(
            m,
            bx,
        )
}

/// A box can be split along its longest axis.
pub open spec fn box_splittable(m: Map<u32, u32>, bx: MinMaxBox) -> bool {
    splittable_along(m, bx, longest_axis(bx))
}

/// The cumulative histogram of the box along channel `c`, as a sequence.
pub open spec fn cumul_seq(m: Map<u32, u32>, bx: MinMaxBox, c: ColorChannel) -> Seq<u32> {
    Seq::new(
        (bx.axis_hi(c) - bx.axis_lo(c) + 1) as nat,
        |t: int| prefix_pop(m, bx, c, bx.axis_lo(c) + t) as u32,
    )
}

/// The split value the median locator picks for the box along channel `c`.
pub open spec fn split_value_spec(m: Map<u32, u32>, bx: MinMaxBox, c: ColorChannel) -> int {
    bx.axis_lo(c) + mmcq_median_rel(
        cumul_seq(m, bx, c),
        bx.axis_lo(c),
        bx.axis_hi(c),
        box_pop(m, bx) as u32,
    )
}

/// A histogram whose entries are the prefix populations of a splittable
/// box is the box's cumulative sequence: monotone, ending at the box's
/// population, with some entry strictly between zero and that total.
pub proof fn lemma_histo_facts(
    m: Map<u32, u32>,
    bx: MinMaxBox,
    c: ColorChannel,
    h: Seq<u32>,
    total: u32,
)
    requires
        bx.binned(),
        h.len() == bx.axis_hi(c) - bx.axis_lo(c) + 1,
        forall|t: int| 0 <= t < h.len() ==> #[trigger] h[t] == prefix_pop(m, bx, c, bx.axis_lo(c) + t),
        total == box_pop(m, bx),
        splittable_along(m, bx, c),
    ensures
        h == cumul_seq(m, bx, c),
        is_monotone(h),
        h[h.len() - 1] == total,
        total > 0,
        exists|t: int| 0 <= t < h.len() && 0 < #[trigger] h[t] < total,
{
    let lo = bx.axis_lo(c);
    let hi = bx.axis_hi(c);
    let cs = cumul_seq(m, bx, c);
    lemma_prefix_pop_full(m, bx, c);
    assert forall|t: int| 0 <= t < h.len() implies h[t] == cs[t] by {
        lemma_prefix_pop_bounds(m, bx, c, lo + t);
    }
    assert(h =~= cs);
    assert forall|t: int| 0 <= t < h.len() - 1 implies #[trigger] h[t] <= h[t + 1] by {
        lemma_prefix_pop_step(m, bx, c, lo + t);
    }
    let v = choose|v: int|
        lo <= v <= hi && 0 < #[trigger] prefix_pop(m, bx, c, v) < box_pop(m, bx);
    assert(h[v - lo] == prefix_pop(m, bx, c, v));
    assert(0 < h[v - lo] < total);
}

/// The two children of a split carve the parent's population at the split
/// plane: the left child holds the prefix up to the split value, and the
/// right child holds everything above the value below it.
pub proof fn lemma_split_pops(m: Map<u32, u32>, bx: MinMaxBox, c: ColorChannel, s: u8)
    requires
        bx.wf(),
        bx.axis_lo(c) <= s <= bx.axis_hi(c),
    ensures
        box_pop(m, split_boxes(bx, c, s).0) == prefix_pop(m, bx, c, s as int),
        box_pop(m, split_boxes(bx, c, s).1) == box_pop(m, bx) - prefix_pop(m, bx, c, s - 1),
{
    match c {
        ColorChannel::Red => {
            lemma_range_pop_split_r(
                m,
                bx.rmin as int,
                s - 1,
                bx.rmax as int,
                bx.gmin as int,
                bx.gmax as int,
                bx.bmin as int,
                bx.bmax as int,
            );
        },
        ColorChannel::Green => {
            lemma_range_pop_split_g(
                m,
                bx.rmin as int,
                bx.rmax as int,
                bx.gmin as int,
                s - 1,
                bx.gmax as int,
                bx.bmin as int,
                bx.bmax as int,
            );
        },
        ColorChannel::Blue => {
            lemma_range_pop_split_b(
                m,
                bx.rmin as int,
                bx.rmax as int,
                bx.gmin as int,
                bx.gmax as int,
                bx.bmin as int,
                s - 1,
                bx.bmax as int,
            );
        },
    }
}

/// Modified Median Cut Quantization (MMCQ) encapsulates the constants and
/// the per-pixel operations of the algorithm. Each 8-bit channel keeps its
/// five high-order bits; the three binned channels pack into one hash.
pub struct MMCQ;

impl MMCQ {
    /// Packs three already-binned channel values into one identifier by
    /// bit shifting, so distinct binned triples get distinct identifiers.
    pub fn hash_rgb(r: u8, g: u8, b: u8) -> (h: u32)
        ensures
            h == color_hash(r as int, g as int, b as int),
    {
        let r_lshift: u32 = (r as u32) << 10u32;
        let g_lshift: u32 = (g as u32) << 5u32;
        let b_lshift: u32 = b as u32;
        proof {
            assert((r as u32) << 10u32 == r * 1024 && (g as u32) << 5u32 == g * 32) by (bit_vector);
        }
        r_lshift + g_lshift + b_lshift
    }

    /// The hash of a pixel's color channels; the alpha channel is ignored.
    pub fn hash_pixel(pixel: &Rgba) -> (h: u32)
        ensures
            h == color_hash(pixel.r as int, pixel.g as int, pixel.b as int),
    {
        MMCQ::hash_rgb(pixel.r, pixel.g, pixel.b)
    }

    /// Bins each color channel to its five high-order bits; the alpha
    /// channel passes through unchanged.
    pub fn bin_pixel(pixel: Rgba) -> (q: Rgba)
        ensures
            q.r == bin_value(pixel.r as int),
            q.g == bin_value(pixel.g as int),
            q.b == bin_value(pixel.b as int),
            q.a == pixel.a,
            q.r < 32 && q.g < 32 && q.b < 32,
    {
        let r_rshift: u8 = pixel.r >> 3u8;
        let g_rshift: u8 = pixel.g >> 3u8;
        let b_rshift: u8 = pixel.b >> 3u8;
        proof {
            let pr = pixel.r;
            let pg = pixel.g;
            let pb = pixel.b;
            assert(pr >> 3u8 == pr / 8 && pr / 8 < 32) by (bit_vector);
            assert(pg >> 3u8 == pg / 8 && pg / 8 < 32) by (bit_vector);
            assert(pb >> 3u8 == pb / 8 && pb / 8 < 32) by (bit_vector);
        }
        Rgba { r: r_rshift, g: g_rshift, b: b_rshift, a: pixel.a }
    }
}

/// On channel values below the bin width, binning is a no-op, so binning
/// such a value again changes nothing. (For a value of the bin width or
/// more the shift drops bits again, so re-binning is not a no-op there.)
pub proof fn lemma_bin_idempotent_below_width(v: int)
    requires
        0 <= v < 8,
    ensures
        bin_value(bin_value(v)) == bin_value(v),
{
}

/// The packing is injective over the quantized range: two binned triples
/// with the same hash are the same triple.
pub proof fn lemma_hash_injective(r1: u8, g1: u8, b1: u8, r2: u8, g2: u8, b2: u8)
    requires
        r1 < 32 && g1 < 32 && b1 < 32,
        r2 < 32 && g2 < 32 && b2 < 32,
        color_hash(r1 as int, g1 as int, b1 as int) == color_hash(r2 as int, g2 as int, b2 as int),
    ensures
        r1 == r2 && g1 == g2 && b1 == b2,
{
    assert(g1 * 32 + b1 < 1024 && g2 * 32 + b2 < 1024);
    assert(r1 == r2) by {
        assert(r1 * 1024 + (g1 * 32 + b1) == r2 * 1024 + (g2 * 32 + b2));
    }
    assert(g1 == g2 && b1 == b2);
}

/// Locates the split value along the chosen axis of a box from that
/// axis's cumulative histogram: the rough population median, nudged
/// toward the larger side of the range, then corrected so that the
/// cumulative count at the result is positive and, where possible, the
/// population above the result is positive too. The result is the exact
/// value of the four documented steps, it lies strictly below the axis
/// maximum, and both halves it induces are populated.
pub fn calc_mmcqmedian(
    cumsum_histogram: &Histogram,
    minmax_box: MinMaxBox,
    color_channel: &ColorChannel,
    total: u32,
) -> (median: u8)
    requires
        ({
            let min = minmax_box.axis_lo(*color_channel);
            let max = minmax_box.axis_hi(*color_channel);
            let h = cumsum_histogram.0@;
            &&& minmax_box.binned()
            &&& min < max
            &&& h.len() == max - min + 1
            &&& is_monotone(h)
            &&& h[h.len() - 1] == total
            &&& total > 0
            &&& exists|t: int| 0 <= t < h.len() && 0 < #[trigger] h[t] < total
        }),
    ensures
        ({
            let min = minmax_box.axis_lo(*color_channel);
            let max = minmax_box.axis_hi(*color_channel);
            let h = cumsum_histogram.0@;
            &&& min <= median < max
            &&& h[median - min] > 0
            &&& median > min ==> h[median - 1 - min] < total
            &&& median == min + mmcq_median_rel(h, min, max, total)
        }),
{
    let (min, max): (u8, u8) = match color_channel {
        ColorChannel::Red => (minmax_box.rmin, minmax_box.rmax),
        ColorChannel::Green => (minmax_box.gmin, minmax_box.gmax),
        ColorChannel::Blue => (minmax_box.bmin, minmax_box.bmax),
    };
    let ghost h = cumsum_histogram.0@;
    let hv: &Vec<u32> = &cumsum_histogram.0;
    let n: usize = hv.len();
    let median_target: u32 = total / 2;

    // Find the rough median based on cumulative count.
    let mut idx: usize = 0;
    while hv[idx] <= median_target
        invariant
            n == h.len(),
            hv@ == h,
            is_monotone(h),
            h[n - 1] == total,
            total > 0,
            median_target == total / 2,
            0 <= idx < n,
            rough_median_idx(h, total, 0) == rough_median_idx(h, total, idx as int),
        decreases n - idx,
    {
        proof {
            assert(h[n - 1] > median_target);
            assert(idx < n - 1);
        }
        idx = idx + 1;
    }
    proof {
        assert(rough_median_idx(h, total, idx as int) == idx);
    }
    let ghost rough = idx as int;

    // Adjust the median toward the larger side of the axis range.
    let range: usize = (max - min) as usize;
    let upper: usize = range - idx;
    let adjusted: u8 = if idx <= upper {
        let cand: usize = (min as usize) + idx + (upper + 1) / 2;
        if cand > (max as usize) - 1 {
            max - 1
        } else {
            cand as u8
        }
    } else {
        let back: usize = 1 + (idx + 1) / 2;
        if idx < back {
            min
        } else {
            ((min as usize) + idx - back) as u8
        }
    };
    proof {
        assert(adjusted == balanced_median(rough, min as int, max as int));
        assert(min <= adjusted <= max - 1);
    }

    // Move up while the cumulative count at the candidate is zero.
    let mut median: u8 = adjusted;
    while hv[(median - min) as usize] == 0
        invariant
            n == h.len(),
            hv@ == h,
            is_monotone(h),
            h[n - 1] == total,
            total > 0,
            exists|t: int| 0 <= t < h.len() && 0 < #[trigger] h[t] < total,
            min < max,
            n == max - min + 1,
            min <= median <= max - 1,
            walk_up(h, adjusted - min) == walk_up(h, median - min),
        decreases max - median,
    {
        proof {
            let w = choose|t: int| 0 <= t < h.len() && 0 < #[trigger] h[t] < total;
            if median - min + 1 > n - 2 {
                assert(median - min == n - 2);
                if w < n - 1 {
                    lemma_mono_le(h, w, n - 2);
                    assert(false);
                } else {
                    assert(false);
                }
            }
        }
        median = median + 1;
    }
    proof {
        assert(walk_up(h, median - min) == median - min);
        assert(h[median - min] > 0);
    }
    let ghost up = median - min;

    // Move down while the candidate already holds the whole total and the
    // entry below is still populated.
    while median > min && hv[(median - min) as usize] == total && hv[(median - 1 - min) as usize]
        != 0
        invariant
            n == h.len(),
            hv@ == h,
            is_monotone(h),
            h[n - 1] == total,
            total > 0,
            min < max,
            n == max - min + 1,
            min <= median <= max - 1,
            h[median - min] > 0,
            walk_down(h, total, up) == walk_down(h, total, median - min),
        decreases median,
    {
        median = median - 1;
    }
    proof {
        assert(walk_down(h, total, median - min) == median - min);
        if median > min {
            lemma_mono_le(h, median - min, n - 1);
            assert(h[median - min] <= total);
            lemma_mono_le(h, median - 1 - min, median - min);
            assert(h[median - 1 - min] < total);
        }
    }
    median
}

/// Puts the initial bounding box into a queue of its own: the starting
/// partition of color space.
pub fn create_box_queue(minmax_box: MinMaxBox) -> (q: BoxQueue)
    ensures
        q.0@ == seq![minmax_box],
{
    let mut init_box_queue: Vec<MinMaxBox> = Vec::new();
    init_box_queue.push(minmax_box);
    proof {
        assert(init_box_queue@ =~= seq![minmax_box]);
    }
    BoxQueue(init_box_queue)
}

/// Splits a box at a value inside the chosen axis's range into two
/// sub-boxes: bounds copied on every other axis, and on the split axis
/// `left.max == right.min == split_val`. Together the children cover
/// exactly the parent's region.
pub fn split_box(minmax_box: MinMaxBox, color_channel: ColorChannel, split_val: u8) -> (res: (
    MinMaxBox,
    MinMaxBox,
))
    requires
        minmax_box.wf(),
        minmax_box.axis_lo(color_channel) <= split_val <= minmax_box.axis_hi(color_channel),
    ensures
        res == split_boxes(minmax_box, color_channel, split_val),
        res.0.wf() && res.1.wf(),
        minmax_box.binned() ==> res.0.binned() && res.1.binned(),
        res.0.axis_lo(color_channel) == minmax_box.axis_lo(color_channel),
        res.0.axis_hi(color_channel) == split_val,
        res.1.axis_lo(color_channel) == split_val,
        res.1.axis_hi(color_channel) == minmax_box.axis_hi(color_channel),
        forall|r: int, g: int, b: int|
            #![trigger in_box(res.0, r, g, b)]
            #![trigger in_box(res.1, r, g, b)]
            #![trigger in_box(minmax_box, r, g, b)]
            in_box(minmax_box, r, g, b) <==> (in_box(res.0, r, g, b) || in_box(res.1, r, g, b)),
{
    let mut rmin: (u8, u8) = (minmax_box.rmin, minmax_box.rmin);
    let mut rmax: (u8, u8) = (minmax_box.rmax, minmax_box.rmax);
    let mut gmin: (u8, u8) = (minmax_box.gmin, minmax_box.gmin);
    let mut gmax: (u8, u8) = (minmax_box.gmax, minmax_box.gmax);
    let mut bmin: (u8, u8) = (minmax_box.bmin, minmax_box.bmin);
    let mut bmax: (u8, u8) = (minmax_box.bmax, minmax_box.bmax);

    match color_channel {
        ColorChannel::Red => {
            rmin = (minmax_box.rmin, split_val);
            rmax = (split_val, minmax_box.rmax);
        },
        ColorChannel::Green => {
            gmin = (minmax_box.gmin, split_val);
            gmax = (split_val, minmax_box.gmax);
        },
        ColorChannel::Blue => {
            bmin = (minmax_box.bmin, split_val);
            bmax = (split_val, minmax_box.bmax);
        },
    }

    (
        MinMaxBox {
            rmin: rmin.0,
            rmax: rmax.0,
            gmin: gmin.0,
            gmax: gmax.0,
            bmin: bmin.0,
            bmax: bmax.0,
        },
        MinMaxBox {
            rmin: rmin.1,
            rmax: rmax.1,
            gmin: gmin.1,
            gmax: gmax.1,
            bmin: bmin.1,
            bmax: bmax.1,
        },
    )
}

/// One step of the subdivision: pops the queue's last box, projects the
/// frequency map along its longest axis, locates the adjusted median,
/// splits the box there, and pushes both children. Both children are
/// populated, and together they cover exactly the popped box's region.
pub fn iterative_split(frequency_map: FrequencyMap, box_queue: BoxQueue) -> (q: BoxQueue)
    requires
        frequency_map.wf(),
        box_queue.0@.len() > 0,
        box_queue.0@.last().binned(),
        box_splittable(frequency_map.0@, box_queue.0@.last()),
    ensures
        ({
            let bx = box_queue.0@.last();
            let c = longest_axis(bx);
            let s = split_value_spec(frequency_map.0@, bx, c) as u8;
            let children = split_boxes(bx, c, s);
            &&& q.0@ == box_queue.0@.drop_last().push(children.0).push(children.1)
            &&& children.0.binned() && children.1.binned()
            &&& box_pop(frequency_map.0@, children.0) > 0
            &&& box_pop(frequency_map.0@, children.1) > 0
            &&& forall|r: int, g: int, b: int|
                #![trigger in_box(children.0, r, g, b)]
                #![trigger in_box(children.1, r, g, b)]
                #![trigger in_box(bx, r, g, b)]
                in_box(bx, r, g, b) <==> (in_box(children.0, r, g, b) || in_box(
                    children.1,
                    r,
                    g,
                    b,
                ))
        }),
{
    split_step(&frequency_map, box_queue)
}

/// The splitting step itself, borrowing the frequency map so that the
/// controller can run it repeatedly.
#[verifier::rlimit(100)]
fn split_step(frequency_map: &FrequencyMap, mut box_queue: BoxQueue) -> (q: BoxQueue)
    requires
        frequency_map.wf(),
        box_queue.0@.len() > 0,
        box_queue.0@.last().binned(),
        box_splittable(frequency_map.0@, box_queue.0@.last()),
    ensures
        ({
            let bx = box_queue.0@.last();
            let c = longest_axis(bx);
            let s = split_value_spec(frequency_map.0@, bx, c) as u8;
            let children = split_boxes(bx, c, s);
            &&& q.0@ == box_queue.0@.drop_last().push(children.0).push(children.1)
            &&& children.0.binned() && children.1.binned()
            &&& box_pop(frequency_map.0@, children.0) > 0
            &&& box_pop(frequency_map.0@, children.1) > 0
            &&& forall|r: int, g: int, b: int|
                #![trigger in_box(children.0, r, g, b)]
                #![trigger in_box(children.1, r, g, b)]
                #![trigger in_box(bx, r, g, b)]
                in_box(bx, r, g, b) <==> (in_box(children.0, r, g, b) || in_box(
                    children.1,
                    r,
                    g,
                    b,
                ))
        }),
{
    // Get the box to subdivide from the end of the queue.
    let minmax_box: MinMaxBox = match box_queue.0.pop() {
        Some(val) => val,
        None => unreached(),
    };

    let (longest_channel, median) = locate_longest_split(frequency_map, minmax_box);

    // Split the box at the median.
    let (left, right) = split_box(minmax_box, longest_channel, median);

    // Push the two new boxes back into the queue.
    box_queue.0.push(left);
    box_queue.0.push(right);
    box_queue
}

/// Picks the longest axis of a splittable box and locates the adjusted
/// median along it; both of the children that splitting there produces
/// are populated.
#[verifier::rlimit(100)]
pub(crate) fn locate_longest_split(frequency_map: &FrequencyMap, minmax_box: MinMaxBox) -> (res: (
    ColorChannel,
    u8,
))
    requires
        frequency_map.wf(),
        minmax_box.binned(),
        box_splittable(frequency_map.0@, minmax_box),
    ensures
        ({
            let m = frequency_map.0@;
            let children = split_boxes(minmax_box, res.0, res.1);
            &&& res.0 == longest_axis(minmax_box)
            &&& res.1 == split_value_spec(m, minmax_box, res.0) as u8
            &&& minmax_box.axis_lo(res.0) <= res.1 < minmax_box.axis_hi(res.0)
            &&& box_pop(m, children.0) > 0
            &&& box_pop(m, children.1) > 0
        }),
{
    let ghost m = frequency_map.0@;
    // Find the longest axis of the box (the biggest range).
    let red_range: u8 = minmax_box.rmax - minmax_box.rmin;
    let green_range: u8 = minmax_box.gmax - minmax_box.gmin;
    let blue_range: u8 = minmax_box.bmax - minmax_box.bmin;

    let longest_channel: ColorChannel = if red_range >= green_range && red_range >= blue_range {
        ColorChannel::Red
    } else if green_range >= blue_range {
        ColorChannel::Green
    } else {
        ColorChannel::Blue
    };
    proof {
        assert(longest_channel == longest_axis(minmax_box));
    }
    let ghost c = longest_channel;
    let ghost lo = minmax_box.axis_lo(c);
    let ghost hi = minmax_box.axis_hi(c);

    let (cumulative_histo, total) = calc_cumul_histo(frequency_map, &longest_channel, minmax_box);

    proof {
        lemma_histo_facts(m, minmax_box, c, cumulative_histo.0@, total);
    }

    // Locate the adjusted median along that axis.
    let median: u8 = calc_mmcqmedian(&cumulative_histo, minmax_box, &longest_channel, total);

    proof {
        assert(median == split_value_spec(m, minmax_box, c));
        lemma_split_pops(m, minmax_box, c, median);
        let children = split_boxes(minmax_box, c, median);
        assert(box_pop(m, children.0) == prefix_pop(m, minmax_box, c, median as int));
        let h = cumulative_histo.0@;
        assert(h[median - lo] == prefix_pop(m, minmax_box, c, median as int));
        if median as int == lo {
            lemma_prefix_pop_empty(m, minmax_box, c);
        } else {
            assert(h[median - 1 - lo] == prefix_pop(m, minmax_box, c, median - 1));
        }
    }
    (longest_channel, median)
}

/// Decides whether a box can be split along its longest axis: the axis
/// must span more than one value and some proper prefix of it must hold
/// part but not all of the box's population. A box that fails this test
/// is terminal and must never reach the splitter.
pub fn is_splittable(frequency_map: &FrequencyMap, minmax_box: MinMaxBox) -> (r: bool)
    requires
        frequency_map.wf(),
        minmax_box.binned(),
    ensures
        r == box_splittable(frequency_map.0@, minmax_box),
{
    let ghost m = frequency_map.0@;
    let red_range: u8 = minmax_box.rmax - minmax_box.rmin;
    let green_range: u8 = minmax_box.gmax - minmax_box.gmin;
    let blue_range: u8 = minmax_box.bmax - minmax_box.bmin;
    let longest_channel: ColorChannel = if red_range >= green_range && red_range >= blue_range {
        ColorChannel::Red
    } else if green_range >= blue_range {
        ColorChannel::Green
    } else {
        ColorChannel::Blue
    };
    proof {
        assert(longest_channel == longest_axis(minmax_box));
    }
    let ghost c = longest_channel;
    let ghost lo = minmax_box.axis_lo(c);
    let ghost hi = minmax_box.axis_hi(c);

    let (axis_min, axis_max): (u8, u8) = match longest_channel {
        ColorChannel::Red => (minmax_box.rmin, minmax_box.rmax),
        ColorChannel::Green => (minmax_box.gmin, minmax_box.gmax),
        ColorChannel::Blue => (minmax_box.bmin, minmax_box.bmax),
    };
    if axis_min == axis_max {
        return false;
    }

    let (histo, total) = calc_cumul_histo(frequency_map, &longest_channel, minmax_box);
    if total == 0 {
        return false;
    }

    let hv: &Vec<u32> = &histo.0;
    let n: usize = hv.len();
    let mut t: usize = 0;
    let mut found: bool = false;
    while t < n
        invariant
            n == histo.0@.len(),
            hv@ == histo.0@,
            0 <= t <= n,
            n == hi - lo + 1,
            forall|u: int|
                0 <= u < n ==> histo.0@[u] == prefix_pop(m, minmax_box, c, lo + u),
            total == box_pop(m, minmax_box),
            found <==> exists|u: int|
                0 <= u < t && 0 < #[trigger] prefix_pop(m, minmax_box, c, lo + u) < total,
        decreases n - t,
    {
        let entry: u32 = hv[t];
        if entry > 0 && entry < total {
            proof {
                assert(0 < prefix_pop(m, minmax_box, c, lo + t) < total);
            }
            found = true;
        }
        t = t + 1;
    }
    proof {
        if found {
            let u = choose|u: int|
                0 <= u < n && 0 < #[trigger] prefix_pop(m, minmax_box, c, lo + u) < total;
            assert(lo <= lo + u <= hi && 0 < prefix_pop(m, minmax_box, c, lo + u) < box_pop(m, minmax_box));
            assert(splittable_along(m, minmax_box, c));
        } else {
            if splittable_along(m, minmax_box, c) {
                let v = choose|v: int|
                    lo <= v <= hi && 0 < #[trigger] prefix_pop(m, minmax_box, c, v) < box_pop(
                        m,
                        minmax_box,
                    );
                assert(0 <= v - lo < n);
                assert(0 < prefix_pop(m, minmax_box, c, lo + (v - lo)) < total);
                assert(false);
            }
        }
    }
    found
}

/// How a quantization run is configured: the palette size it aims for,
/// and a hard bound on the number of subdivision steps taken.
#[derive(Clone, Copy, PartialEq, Eq, Structural, Debug)]
pub struct QuantizerConfig {
    pub target_palette_size: usize,
    pub max_iterations: usize,
}

/// Why a quantization run cannot proceed.
#[derive(Clone, Copy, PartialEq, Eq, Structural, Debug)]
pub enum QuantizeError {
    /// The pixel sequence was empty, so there is no color space to cut.
    EmptyPixels,
    /// The target palette size is at least the number of distinct binned
    /// colors, so the requested number of non-empty boxes cannot exist.
    InsufficientColorRange,
}

/// Runs the whole quantization: bins the pixels, builds their frequency
/// map and tight bounding box, and then repeatedly takes a box of maximal
/// population from the queue and splits it at the adjusted median of its
/// longest axis, until the target palette size is reached, no box can be
/// split, or the iteration budget runs out. Every returned box is a
/// populated region of binned color space, and together the boxes cover
/// exactly the initial bounding box: no color is lost.
#[verifier::rlimit(60)]
pub fn quantize(pixels: &Vec<Rgba>, config: QuantizerConfig) -> (res: Result<
    BoxQueue,
    QuantizeError,
>)
    requires
        pixels@.len() <= u32::MAX,
    ensures
        ({
            let s = binned_seq(pixels@);
            let m = freq_map_of(s);
            &&& (res matches Err(QuantizeError::EmptyPixels) <==> pixels@.len() == 0)
            &&& (res matches Err(QuantizeError::InsufficientColorRange) <==> (pixels@.len() > 0
                && config.target_palette_size >= distinct_color_count(s)))
            &&& (res matches Ok(q) ==> {
                &&& 1 <= q.0@.len()
                &&& q.0@.len() <= (if config.target_palette_size < 1 {
                    1int
                } else {
                    config.target_palette_size as int
                })
                &&& forall|i: int| 0 <= i < q.0@.len() ==> (#[trigger] q.0@[i]).binned()
                &&& forall|i: int| 0 <= i < q.0@.len() ==> box_pop(m, #[trigger] q.0@[i]) > 0
                &&& forall|r: int, g: int, b: int|
                    #[trigger] covered(q.0@, r, g, b) <==> in_box(bounding_box(s), r, g, b)
            })
        }),
{
    if pixels.len() == 0 {
        return Err(QuantizeError::EmptyPixels);
    }

    // Bin every pixel down to the configured precision.
    let mut binned: Vec<Rgba> = Vec::new();
    let mut i: usize = 0;
    while i < pixels.len()
        invariant
            0 <= i <= pixels@.len(),
            binned@.len() == i,
            forall|j: int| 0 <= j < i ==> #[trigger] binned@[j] == binned_pixel(pixels@[j]),
        decreases pixels@.len() - i,
    {
        binned.push(MMCQ::bin_pixel(pixels[i]));
        i = i + 1;
    }
    let ghost s = binned_seq(pixels@);
    proof {
        assert(binned@ =~= s);
        assert forall|j: int|
            0 <= j < binned@.len() implies (#[trigger] binned@[j]).r < 32 && binned@[j].g < 32
            && binned@[j].b < 32 by {
            assert(binned@[j] == binned_pixel(pixels@[j]));
        }
    }

    // Build the frequency map and check the distinct-color supply.
    let frequency_map: FrequencyMap = calc_frequency_map(&binned);
    let ghost m = frequency_map.0@;
    proof {
        lemma_freq_map_eq(m, s);
    }
    let distinct: usize = frequency_map.0.len();
    proof {
        assert(distinct == distinct_color_count(s));
    }
    if config.target_palette_size >= distinct {
        return Err(QuantizeError::InsufficientColorRange);
    }

    // The initial box: the tight bounds of the binned pixels.
    let init_box: MinMaxBox = calc_minmax_box(&binned);
    proof {
        lemma_bounding_box_eq(s, init_box);
        assert(init_box.binned());
        lemma_hash_count_pos(s, 0);
        assert(count_of(m, pixel_hash(s[0])) >= 1);
        lemma_point_le_box_pop(m, init_box, s[0].r as int, s[0].g as int, s[0].b as int);
        assert(pixel_hash(s[0]) == color_hash(s[0].r as int, s[0].g as int, s[0].b as int));
        assert(box_pop(m, init_box) > 0);
    }

    let mut queue: BoxQueue = create_box_queue(init_box);
    let mut done: Vec<MinMaxBox> = Vec::new();
    let mut iterations: usize = 0;
    proof {
        assert forall|r: int, g: int, b: int| #[trigger] covered(queue.0@, r, g, b) == in_box(
            init_box,
            r,
            g,
            b,
        ) by {
            if in_box(init_box, r, g, b) {
                assert(in_box(queue.0@[0], r, g, b));
            }
        }
    }

    while queue.0.len() > 0 && queue.0.len() + done.len() < config.target_palette_size
        && iterations < config.max_iterations
        invariant
            frequency_map.wf(),
            m == frequency_map.0@,
            1 <= queue.0@.len() + done@.len(),
            queue.0@.len() + done@.len() <= (if config.target_palette_size < 1 {
                1int
            } else {
                config.target_palette_size as int
            }),
            forall|i: int| 0 <= i < queue.0@.len() ==> (#[trigger] queue.0@[i]).binned(),
            forall|i: int| 0 <= i < done@.len() ==> (#[trigger] done@[i]).binned(),
            forall|i: int| 0 <= i < queue.0@.len() ==> box_pop(m, #[trigger] queue.0@[i]) > 0,
            forall|i: int| 0 <= i < done@.len() ==> box_pop(m, #[trigger] done@[i]) > 0,
            forall|r: int, g: int, b: int|
                (#[trigger] covered(queue.0@, r, g, b) || covered(done@, r, g, b)) <==> in_box(
                    init_box,
                    r,
                    g,
                    b,
                ),
            iterations <= config.max_iterations,
        decreases config.max_iterations - iterations,
    {
        // Bring a box of maximal population to the end of the queue.
        let ghost q_before_sort = queue.0@;
        sort_box_queue(&mut queue, &frequency_map);
        proof {
            lemma_covered_contains_equiv(q_before_sort, queue.0@);
            assert forall|i: int|
                0 <= i < queue.0@.len() implies (#[trigger] queue.0@[i]).binned() && box_pop(
                m,
                queue.0@[i],
            ) > 0 by {
                assert(q_before_sort.contains(queue.0@[i]));
                let j = choose|j: int|
                    0 <= j < q_before_sort.len() && q_before_sort[j] == queue.0@[i];
            }
        }

        let last_idx: usize = queue.0.len() - 1;
        let bx: MinMaxBox = queue.0[last_idx];
        if is_splittable(&frequency_map, bx) {
            let ghost q_pre = queue.0@;
            proof {
                assert(bx == q_pre.last());
            }
            queue = split_step(&frequency_map, queue);
            proof {
                let c = longest_axis(bx);
                let sv = split_value_spec(m, bx, c) as u8;
                let children = split_boxes(bx, c, sv);
                lemma_covered_split(q_pre, children.0, children.1);
                let q_new = q_pre.drop_last().push(children.0).push(children.1);
                assert(queue.0@ == q_new);
                assert forall|r: int, g: int, b: int|
                    (#[trigger] covered(queue.0@, r, g, b) || covered(done@, r, g, b)) <==> in_box(
                    init_box,
                    r,
                    g,
                    b,
                ) by {
                    assert(covered(q_before_sort, r, g, b) == covered(q_pre, r, g, b));
                    assert(covered(q_pre, r, g, b) == covered(q_new, r, g, b));
                }
                assert forall|i: int|
                    0 <= i < queue.0@.len() implies (#[trigger] queue.0@[i]).binned() && box_pop(
                    m,
                    queue.0@[i],
                ) > 0 by {
                    if i < q_pre.len() - 1 {
                        assert(queue.0@[i] == q_pre[i]);
                    } else if i == q_new.len() - 2 {
                        assert(queue.0@[i] == children.0);
                    } else {
                        assert(queue.0@[i] == children.1);
                    }
                }
            }
        } else {
            let ghost q_pre = queue.0@;
            let ghost d_pre = done@;
            let terminal_box: MinMaxBox = match queue.0.pop() {
                Some(v) => v,
                None => unreached(),
            };
            done.push(terminal_box);
            proof {
                lemma_covered_move(q_pre, d_pre);
                assert(queue.0@ == q_pre.drop_last());
                assert(done@ == d_pre.push(q_pre.last()));
                assert forall|r: int, g: int, b: int|
                    (#[trigger] covered(queue.0@, r, g, b) || covered(done@, r, g, b)) <==> in_box(
                    init_box,
                    r,
                    g,
                    b,
                ) by {
                    assert(covered(q_before_sort, r, g, b) == covered(q_pre, r, g, b));
                    assert((covered(q_pre, r, g, b) || covered(d_pre, r, g, b)) == (covered(
                        q_pre.drop_last(),
                        r,
                        g,
                        b,
                    ) || covered(d_pre.push(q_pre.last()), r, g, b)));
                }
            }
        }
        iterations = iterations + 1;
    }

    // The palette: the terminal boxes and whatever remains in the queue.
    let ghost d_fin = done@;
    let ghost q_fin = queue.0@;
    proof {
        assert forall|r: int, g: int, b: int|
            (#[trigger] covered(q_fin, r, g, b) || covered(d_fin, r, g, b)) <==> in_box(
            init_box,
            r,
            g,
            b,
        ) by {
            assert((covered(queue.0@, r, g, b) || covered(done@, r, g, b)) <==> in_box(
                init_box,
                r,
                g,
                b,
            ));
        }
        crate::counting::lemma_assemble_coverage(q_fin, d_fin, init_box, bounding_box(s));
    }
    let mut result_vec: Vec<MinMaxBox> = done;
    result_vec.append(&mut queue.0);
    proof {
        assert(result_vec@ == d_fin + q_fin);
        assert forall|r: int, g: int, b: int| #[trigger] covered(result_vec@, r, g, b) <==> in_box(
            bounding_box(s),
            r,
            g,
            b,
        ) by {
            assert(covered(d_fin + q_fin, r, g, b) <==> in_box(bounding_box(s), r, g, b));
        }
        assert forall|i: int|
            0 <= i < result_vec@.len() implies (#[trigger] result_vec@[i]).binned() && box_pop(
            m,
            result_vec@[i],
        ) > 0 by {
            if i < d_fin.len() {
                assert(result_vec@[i] == d_fin[i]);
            } else {
                assert(result_vec@[i] == q_fin[i - d_fin.len()]);
            }
        }
    }
    Ok(BoxQueue(result_vec))
}

/// Reorders the queue so that its last element is a box of maximal
/// population; the queue keeps exactly its boxes.
pub fn sort_box_queue(box_queue: &mut BoxQueue, frequency_map: &FrequencyMap)
    requires
        frequency_map.wf(),
        old(box_queue).0@.len() > 0,
        forall|i: int|
            0 <= i < old(box_queue).0@.len() ==> (#[trigger] old(box_queue).0@[i]).binned(),
    ensures
        final(box_queue).0@.len() == old(box_queue).0@.len(),
        final(box_queue).0@.to_multiset() == old(box_queue).0@.to_multiset(),
        forall|i: int|
            0 <= i < final(box_queue).0@.len() ==> old(box_queue).0@.contains(
                #[trigger] final(box_queue).0@[i],
            ),
        forall|i: int|
            0 <= i < old(box_queue).0@.len() ==> final(box_queue).0@.contains(
                #[trigger] old(box_queue).0@[i],
            ),
        forall|i: int|
            0 <= i < final(box_queue).0@.len() ==> box_pop(
                frequency_map.0@,
                #[trigger] final(box_queue).0@[i],
            ) <= box_pop(frequency_map.0@, final(box_queue).0@.last()),
{
    let ghost m = frequency_map.0@;
    let ghost orig = box_queue.0@;
    let len: usize = box_queue.0.len();
    let mut best: usize = 0;
    let mut best_pop: u32 = crate::stats::box_population(frequency_map, box_queue.0[0]);
    let mut i: usize = 1;
    while i < len
        invariant
            frequency_map.wf(),
            m == frequency_map.0@,
            box_queue.0@ == orig,
            len == orig.len(),
            forall|j: int| 0 <= j < len ==> (#[trigger] orig[j]).binned(),
            0 <= best < i <= len,
            best_pop == box_pop(m, orig[best as int]),
            forall|j: int| 0 <= j < i ==> box_pop(m, #[trigger] orig[j]) <= best_pop,
        decreases len - i,
    {
        let p: u32 = crate::stats::box_population(frequency_map, box_queue.0[i]);
        if p > best_pop {
            best = i;
            best_pop = p;
        }
        i = i + 1;
    }
    let chosen: MinMaxBox = box_queue.0.remove(best);
    box_queue.0.push(chosen);
    proof {
        let fin = box_queue.0@;
        assert(fin.len() == orig.len());
        assert(fin.to_multiset() == orig.to_multiset()) by {
            orig.to_multiset_ensures();
            orig.remove(best as int).to_multiset_ensures();
            assert(orig.contains(orig[best as int]));
            assert(orig.to_multiset().count(orig[best as int]) > 0);
            assert(fin.to_multiset() =~= orig.to_multiset().remove(orig[best as int]).insert(
                orig[best as int],
            ));
            assert(orig.to_multiset().remove(orig[best as int]).insert(orig[best as int])
                =~= orig.to_multiset());
        }
        assert forall|k: int| 0 <= k < fin.len() implies orig.contains(#[trigger] fin[k]) by {
            if k < best {
                assert(fin[k] == orig[k]);
            } else if k < fin.len() - 1 {
                assert(fin[k] == orig[k + 1]);
            } else {
                assert(fin[k] == orig[best as int]);
            }
        }
        assert forall|k: int| 0 <= k < orig.len() implies fin.contains(#[trigger] orig[k]) by {
            if k < best {
                assert(fin[k] == orig[k]);
            } else if k == best {
                assert(fin[fin.len() - 1] == orig[k]);
            } else {
                assert(fin[k - 1] == orig[k]);
            }
        }
        assert(fin.last() == orig[best as int]);
        assert forall|k: int| 0 <= k < fin.len() implies box_pop(m, #[trigger] fin[k]) <= box_pop(
            m,
            fin.last(),
        ) by {
            if k < best {
                assert(fin[k] == orig[k]);
            } else if k < fin.len() - 1 {
                assert(fin[k] == orig[k + 1]);
            } else {
                assert(fin[k] == orig[best as int]);
            }
        }
    }
}

} // verus!

