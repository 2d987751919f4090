//! The mathematical model of color hashing and of population counting:
//! what a packed color hash is, how many pixels a frequency map counts,
//! and how many of them fall inside a box of color space.

use vstd::prelude::*;

use crate::data_models::{ColorChannel, MinMaxBox, Rgba};

verus! {

/// One past the largest value the color-hash packing can produce for
/// 8-bit inputs, so every frequency-map key lies below it.
pub const HASH_SPACE: u32 = 0x80000;

/// The canonical packing of a color triple into one identifier:
/// `(r << 10) | (g << 5) | b` for the default five significant bits.
pub open spec fn color_hash(r: int, g: int, b: int) -> int {
    r * 1024 + g * 32 + b
}

/// Binning at five significant bits: drop the three low-order bits.
pub open spec fn bin_value(v: int) -> int {
    v / 8
}

/// The count a frequency map holds for hash `k`, zero when absent.
pub open spec fn count_of(m: Map<u32, u32>, k: int) -> int {
    if 0 <= k < 0x1_0000_0000 && m.contains_key(k as u32) {
        m[k as u32] as int
    } else {
        0
    }
}

/// Sum of the map's counts over all hashes below `n`.
pub open spec fn map_sum_below(m: Map<u32, u32>, n: int) -> int
    decreases n,
{
    if n <= 0 {
        0
    } else {
        map_sum_below(m, n - 1) + count_of(m, n - 1)
    }
}

/// The total population of a frequency map: the sum of all its counts,
/// for a map whose keys all lie below `HASH_SPACE`.
pub open spec fn map_total(m: Map<u32, u32>) -> int {
    map_sum_below(m, HASH_SPACE as int)
}

/// Every key the map holds lies in the space the hash packing can reach.
pub open spec fn keys_bounded(m: Map<u32, u32>) -> bool {
    forall|k: u32| m.contains_key(k) ==> k < HASH_SPACE
}

impl crate::data_models::FrequencyMap {
    /// The map's keys are valid color hashes and its total fits a `u32`,
    /// as it does for any map built from at most `u32::MAX` pixels.
    pub open spec fn wf(self) -> bool {
        keys_bounded(self.0@) && map_total(self.0@) <= u32::MAX
    }
}

/// The hash of a pixel's color channels.
pub open spec fn pixel_hash(p: Rgba) -> int {
    color_hash(p.r as int, p.g as int, p.b as int)
}

/// How many pixels of the sequence hash to `k`.
pub open spec fn hash_count(pixels: Seq<Rgba>, k: int) -> int
    decreases pixels.len(),
{
    if pixels.len() == 0 {
        0
    } else {
        hash_count(pixels.drop_last(), k) + if pixel_hash(pixels.last()) == k {
            1int
        } else {
            0int
        }
    }
}

pub proof fn lemma_hash_count_nonneg(pixels: Seq<Rgba>, k: int)
    ensures
        0 <= hash_count(pixels, k) <= pixels.len(),
    decreases pixels.len(),
{
    if pixels.len() > 0 {
        lemma_hash_count_nonneg(pixels.drop_last(), k);
    }
}

/// The channel value a pixel holds on the given axis.
pub open spec fn channel_of(p: Rgba, c: ColorChannel) -> int {
    match c {
        ColorChannel::Red => p.r as int,
        ColorChannel::Green => p.g as int,
        ColorChannel::Blue => p.b as int,
    }
}

/// How many pixels of the sequence hold value `v` on channel `c`.
pub open spec fn channel_count(pixels: Seq<Rgba>, c: ColorChannel, v: int) -> int
    decreases pixels.len(),
{
    if pixels.len() == 0 {
        0
    } else {
        channel_count(pixels.drop_last(), c, v) + if channel_of(pixels.last(), c) == v {
            1int
        } else {
            0int
        }
    }
}

pub proof fn lemma_channel_count_nonneg(pixels: Seq<Rgba>, c: ColorChannel, v: int)
    ensures
        0 <= channel_count(pixels, c, v) <= pixels.len(),
    decreases pixels.len(),
{
    if pixels.len() > 0 {
        lemma_channel_count_nonneg(pixels.drop_last(), c, v);
    }
}

/// The smallest value channel `c` takes over a non-empty pixel sequence.
pub open spec fn min_channel_val(pixels: Seq<Rgba>, c: ColorChannel) -> int
    decreases pixels.len(),
{
    if pixels.len() <= 1 {
        channel_of(pixels[0], c)
    } else {
        let rest = min_channel_val(pixels.drop_last(), c);
        let last = channel_of(pixels.last(), c);
        if last < rest {
            last
        } else {
            rest
        }
    }
}

/// The largest value channel `c` takes over a non-empty pixel sequence.
pub open spec fn max_channel_val(pixels: Seq<Rgba>, c: ColorChannel) -> int
    decreases pixels.len(),
{
    if pixels.len() <= 1 {
        channel_of(pixels[0], c)
    } else {
        let rest = max_channel_val(pixels.drop_last(), c);
        let last = channel_of(pixels.last(), c);
        if last > rest {
            last
        } else {
            rest
        }
    }
}

/// Every pixel's channel value lies between the channel's minimum and
/// maximum over the sequence.
pub proof fn lemma_channel_val_bounds(pixels: Seq<Rgba>, c: ColorChannel, i: int)
    requires
        0 <= i < pixels.len(),
    ensures
        min_channel_val(pixels, c) <= channel_of(pixels[i], c) <= max_channel_val(pixels, c),
    decreases pixels.len(),
{
    if pixels.len() > 1 && i < pixels.len() - 1 {
        lemma_channel_val_bounds(pixels.drop_last(), c, i);
    }
}

/// One key's count never exceeds the map's total.
pub proof fn lemma_count_le_total(m: Map<u32, u32>, k: u32)
    requires
        k < HASH_SPACE,
    ensures
        count_of(m, k as int) <= map_total(m),
{
    assert(map_sum_below(m, k + 1) == map_sum_below(m, k as int) + count_of(m, k as int));
    lemma_map_sum_nonneg(m, k as int);
    lemma_map_sum_monotone(m, k + 1, HASH_SPACE as int);
}

pub proof fn lemma_map_sum_empty(n: int)
    ensures
        map_sum_below(Map::<u32, u32>::empty(), n) == 0,
    decreases n,
{
    if n > 0 {
        lemma_map_sum_empty(n - 1);
    }
}

pub proof fn lemma_map_sum_nonneg(m: Map<u32, u32>, n: int)
    ensures
        map_sum_below(m, n) >= 0,
    decreases n,
{
    if n > 0 {
        lemma_map_sum_nonneg(m, n - 1);
    }
}

/// Raising the count of one key below `n` by `d` raises the sum below `n`
/// by `d`.
pub proof fn lemma_map_sum_insert(m: Map<u32, u32>, k: u32, v: u32, n: int)
    requires
        k < n,
    ensures
        map_sum_below(m.insert(k, v), n) == map_sum_below(m, n) + v - count_of(m, k as int),
    decreases n,
{
    let m2 = m.insert(k, v);
    if n > 0 {
        if k == n - 1 {
            assert(map_sum_below(m2, n - 1) == map_sum_below(m, n - 1)) by {
                lemma_map_sum_agree(m, m2, n - 1);
            }
        } else {
            lemma_map_sum_insert(m, k, v, n - 1);
            assert(count_of(m2, n - 1) == count_of(m, n - 1));
        }
    }
}

/// Two maps that agree on every hash below `n` have the same sum below `n`.
pub proof fn lemma_map_sum_agree(m1: Map<u32, u32>, m2: Map<u32, u32>, n: int)
    requires
        forall|k: int| 0 <= k < n ==> count_of(m1, k) == count_of(m2, k),
    ensures
        map_sum_below(m1, n) == map_sum_below(m2, n),
    decreases n,
{
    if n > 0 {
        lemma_map_sum_agree(m1, m2, n - 1);
    }
}

pub proof fn lemma_map_sum_monotone(m: Map<u32, u32>, a: int, b: int)
    requires
        a <= b,
    ensures
        map_sum_below(m, a) <= map_sum_below(m, b),
    decreases b - a,
{
    if a < b {
        lemma_map_sum_monotone(m, a, b - 1);
    }
}

/// A pixel with every color channel binned; the alpha channel unchanged.
pub open spec fn binned_pixel(p: Rgba) -> Rgba {
    Rgba {
        r: bin_value(p.r as int) as u8,
        g: bin_value(p.g as int) as u8,
        b: bin_value(p.b as int) as u8,
        a: p.a,
    }
}

/// The pixel sequence with every pixel binned.
pub open spec fn binned_seq(s: Seq<Rgba>) -> Seq<Rgba> {
    s.map_values(|p: Rgba| binned_pixel(p))
}

/// The frequency map a pixel sequence induces: each hash that occurs maps
/// to its number of occurrences.
pub open spec fn freq_map_of(s: Seq<Rgba>) -> Map<u32, u32> {
    Map::new(|k: u32| hash_count(s, k as int) > 0, |k: u32| hash_count(s, k as int) as u32)
}

/// How many distinct color hashes the pixel sequence produces.
pub open spec fn distinct_color_count(s: Seq<Rgba>) -> nat {
    freq_map_of(s).dom().len()
}

/// The tight bounding box of a non-empty pixel sequence.
pub open spec fn bounding_box(s: Seq<Rgba>) -> MinMaxBox {
    MinMaxBox {
        rmin: min_channel_val(s, ColorChannel::Red) as u8,
        rmax: max_channel_val(s, ColorChannel::Red) as u8,
        gmin: min_channel_val(s, ColorChannel::Green) as u8,
        gmax: max_channel_val(s, ColorChannel::Green) as u8,
        bmin: min_channel_val(s, ColorChannel::Blue) as u8,
        bmax: max_channel_val(s, ColorChannel::Blue) as u8,
    }
}

/// The channel's minimum over a non-empty sequence is attained by some
/// pixel.
pub proof fn lemma_min_channel_attained(s: Seq<Rgba>, c: ColorChannel)
    requires
        s.len() > 0,
    ensures
        exists|i: int| 0 <= i < s.len() && #[trigger] channel_of(s[i], c) == min_channel_val(s, c),
    decreases s.len(),
{
    if s.len() == 1 {
        assert(channel_of(s[0], c) == min_channel_val(s, c));
    } else {
        lemma_min_channel_attained(s.drop_last(), c);
        let j = choose|i: int|
            0 <= i < s.drop_last().len() && #[trigger] channel_of(s.drop_last()[i], c)
                == min_channel_val(s.drop_last(), c);
        if channel_of(s.last(), c) < min_channel_val(s.drop_last(), c) {
            assert(channel_of(s[s.len() - 1], c) == min_channel_val(s, c));
        } else {
            assert(channel_of(s[j], c) == min_channel_val(s, c));
        }
    }
}

/// The channel's maximum over a non-empty sequence is attained by some
/// pixel.
pub proof fn lemma_max_channel_attained(s: Seq<Rgba>, c: ColorChannel)
    requires
        s.len() > 0,
    ensures
        exists|i: int| 0 <= i < s.len() && #[trigger] channel_of(s[i], c) == max_channel_val(s, c),
    decreases s.len(),
{
    if s.len() == 1 {
        assert(channel_of(s[0], c) == max_channel_val(s, c));
    } else {
        lemma_max_channel_attained(s.drop_last(), c);
        let j = choose|i: int|
            0 <= i < s.drop_last().len() && #[trigger] channel_of(s.drop_last()[i], c)
                == max_channel_val(s.drop_last(), c);
        if channel_of(s.last(), c) > max_channel_val(s.drop_last(), c) {
            assert(channel_of(s[s.len() - 1], c) == max_channel_val(s, c));
        } else {
            assert(channel_of(s[j], c) == max_channel_val(s, c));
        }
    }
}

/// Whether the color triple lies inside the box, all bounds inclusive.
pub open spec fn in_box(bx: crate::data_models::MinMaxBox, r: int, g: int, b: int) -> bool {
    bx.rmin <= r <= bx.rmax && bx.gmin <= g <= bx.gmax && bx.bmin <= b <= bx.bmax
}

/// Whether some box of the sequence covers the color triple.
pub open spec fn covered(q: Seq<MinMaxBox>, r: int, g: int, b: int) -> bool {
    exists|i: int| 0 <= i < q.len() && in_box(#[trigger] q[i], r, g, b)
}

/// Two sequences that hold each other's boxes cover the same triples.
pub proof fn lemma_covered_contains_equiv(q1: Seq<MinMaxBox>, q2: Seq<MinMaxBox>)
    requires
        forall|i: int| 0 <= i < q1.len() ==> q2.contains(#[trigger] q1[i]),
        forall|i: int| 0 <= i < q2.len() ==> q1.contains(#[trigger] q2[i]),
    ensures
        forall|r: int, g: int, b: int| #[trigger] covered(q1, r, g, b) == covered(q2, r, g, b),
{
    assert forall|r: int, g: int, b: int| #[trigger] covered(q1, r, g, b) == covered(
        q2,
        r,
        g,
        b,
    ) by {
        if covered(q1, r, g, b) {
            let i = choose|i: int| 0 <= i < q1.len() && in_box(#[trigger] q1[i], r, g, b);
            assert(q2.contains(q1[i]));
            let j = choose|j: int| 0 <= j < q2.len() && q2[j] == q1[i];
            assert(in_box(q2[j], r, g, b));
        }
        if covered(q2, r, g, b) {
            let i = choose|i: int| 0 <= i < q2.len() && in_box(#[trigger] q2[i], r, g, b);
            assert(q1.contains(q2[i]));
            let j = choose|j: int| 0 <= j < q1.len() && q1[j] == q2[i];
            assert(in_box(q1[j], r, g, b));
        }
    }
}

/// Replacing the last box of a sequence by two boxes that together cover
/// exactly its region leaves the covered triples unchanged.
pub proof fn lemma_covered_split(q: Seq<MinMaxBox>, left: MinMaxBox, right: MinMaxBox)
    requires
        q.len() > 0,
        forall|r: int, g: int, b: int|
            #![trigger in_box(left, r, g, b)]
            #![trigger in_box(right, r, g, b)]
            in_box(q.last(), r, g, b) <==> (in_box(left, r, g, b) || in_box(right, r, g, b)),
    ensures
        forall|r: int, g: int, b: int| #[trigger] covered(q, r, g, b) == covered(
            q.drop_last().push(left).push(right),
            r,
            g,
            b,
        ),
{
    let q2 = q.drop_last().push(left).push(right);
    assert forall|r: int, g: int, b: int| #[trigger] covered(q, r, g, b) == covered(
        q2,
        r,
        g,
        b,
    ) by {
        if covered(q, r, g, b) {
            let i = choose|i: int| 0 <= i < q.len() && in_box(#[trigger] q[i], r, g, b);
            if i < q.len() - 1 {
                assert(q2[i] == q[i]);
                assert(in_box(q2[i], r, g, b));
            } else {
                assert(in_box(left, r, g, b) || in_box(right, r, g, b));
                if in_box(left, r, g, b) {
                    assert(in_box(q2[q2.len() - 2], r, g, b));
                } else {
                    assert(in_box(q2[q2.len() - 1], r, g, b));
                }
            }
        }
        if covered(q2, r, g, b) {
            let i = choose|i: int| 0 <= i < q2.len() && in_box(#[trigger] q2[i], r, g, b);
            if i < q2.len() - 2 {
                assert(q[i] == q2[i]);
                assert(in_box(q[i], r, g, b));
            } else {
                assert(in_box(q.last(), r, g, b));
                assert(in_box(q[q.len() - 1], r, g, b));
            }
        }
    }
}

/// Moving the last box of one sequence onto the end of another changes
/// the coverage of neither side's union.
pub proof fn lemma_covered_move(q: Seq<MinMaxBox>, d: Seq<MinMaxBox>)
    requires
        q.len() > 0,
    ensures
        forall|r: int, g: int, b: int|
            (#[trigger] covered(q, r, g, b) || covered(d, r, g, b)) == (covered(
                q.drop_last(),
                r,
                g,
                b,
            ) || covered(d.push(q.last()), r, g, b)),
{
    let q2 = q.drop_last();
    let d2 = d.push(q.last());
    assert forall|r: int, g: int, b: int|
        (#[trigger] covered(q, r, g, b) || covered(d, r, g, b)) == (covered(q2, r, g, b)
            || covered(d2, r, g, b)) by {
        if covered(q, r, g, b) {
            let i = choose|i: int| 0 <= i < q.len() && in_box(#[trigger] q[i], r, g, b);
            if i < q.len() - 1 {
                assert(in_box(q2[i], r, g, b));
            } else {
                assert(in_box(d2[d2.len() - 1], r, g, b));
            }
        }
        if covered(d, r, g, b) {
            let i = choose|i: int| 0 <= i < d.len() && in_box(#[trigger] d[i], r, g, b);
            assert(in_box(d2[i], r, g, b));
        }
        if covered(q2, r, g, b) {
            let i = choose|i: int| 0 <= i < q2.len() && in_box(#[trigger] q2[i], r, g, b);
            assert(in_box(q[i], r, g, b));
        }
        if covered(d2, r, g, b) {
            let i = choose|i: int| 0 <= i < d2.len() && in_box(#[trigger] d2[i], r, g, b);
            if i < d.len() {
                assert(in_box(d[i], r, g, b));
            } else {
                assert(in_box(q[q.len() - 1], r, g, b));
            }
        }
    }
}

/// Coverage of a concatenation is coverage of either part.
pub proof fn lemma_covered_concat(a: Seq<MinMaxBox>, b_seq: Seq<MinMaxBox>)
    ensures
        forall|r: int, g: int, b: int| #[trigger] covered(a + b_seq, r, g, b) == (covered(
            a,
            r,
            g,
            b,
        ) || covered(b_seq, r, g, b)),
{
    assert forall|r: int, g: int, b: int| #[trigger] covered(a + b_seq, r, g, b) == (covered(
        a,
        r,
        g,
        b,
    ) || covered(b_seq, r, g, b)) by {
        if covered(a + b_seq, r, g, b) {
            let i = choose|i: int| 0 <= i < (a + b_seq).len() && in_box(
                #[trigger] (a + b_seq)[i],
                r,
                g,
                b,
            );
            if i < a.len() {
                assert(in_box(a[i], r, g, b));
            } else {
                assert(in_box(b_seq[i - a.len()], r, g, b));
            }
        }
        if covered(a, r, g, b) {
            let i = choose|i: int| 0 <= i < a.len() && in_box(#[trigger] a[i], r, g, b);
            assert(in_box((a + b_seq)[i], r, g, b));
        }
        if covered(b_seq, r, g, b) {
            let i = choose|i: int| 0 <= i < b_seq.len() && in_box(#[trigger] b_seq[i], r, g, b);
            assert(in_box((a + b_seq)[i + a.len()], r, g, b));
        }
    }
}

/// If the boxes of an active queue and a terminal list together cover
/// exactly the initial box, so does their concatenation.
pub proof fn lemma_assemble_coverage(
    q: Seq<MinMaxBox>,
    d: Seq<MinMaxBox>,
    init: MinMaxBox,
    bb: MinMaxBox,
)
    requires
        forall|r: int, g: int, b: int|
            (#[trigger] covered(q, r, g, b) || covered(d, r, g, b)) <==> in_box(init, r, g, b),
        init == bb,
    ensures
        forall|r: int, g: int, b: int| #[trigger] covered(d + q, r, g, b) <==> in_box(bb, r, g, b),
{
    lemma_covered_concat(d, q);
    assert forall|r: int, g: int, b: int| #[trigger] covered(d + q, r, g, b) <==> in_box(
        bb,
        r,
        g,
        b,
    ) by {
        assert((covered(q, r, g, b) || covered(d, r, g, b)) <==> in_box(init, r, g, b));
        assert(covered(d + q, r, g, b) == (covered(d, r, g, b) || covered(q, r, g, b)));
    }
}

/// Population of one row of bins: red and green fixed, blue ranging over
/// `blo ..= bhi`.
pub open spec fn row_pop(m: Map<u32, u32>, r: int, g: int, blo: int, bhi: int) -> int
    decreases bhi + 1 - blo,
{
    if blo > bhi {
        0
    } else {
        row_pop(m, r, g, blo, bhi - 1) + count_of(m, color_hash(r, g, bhi))
    }
}

/// Population of one plane of bins: red fixed, green and blue ranging.
pub open spec fn plane_pop(m: Map<u32, u32>, r: int, glo: int, ghi: int, blo: int, bhi: int) -> int
    decreases ghi + 1 - glo,
{
    if glo > ghi {
        0
    } else {
        plane_pop(m, r, glo, ghi - 1, blo, bhi) + row_pop(m, r, ghi, blo, bhi)
    }
}

/// Population of a full range of bins: all three channels ranging.
pub open spec fn range_pop(
    m: Map<u32, u32>,
    rlo: int,
    rhi: int,
    glo: int,
    ghi: int,
    blo: int,
    bhi: int,
) -> int
    decreases rhi + 1 - rlo,
{
    if rlo > rhi {
        0
    } else {
        range_pop(m, rlo, rhi - 1, glo, ghi, blo, bhi) + plane_pop(m, rhi, glo, ghi, blo, bhi)
    }
}

/// The population of a box: the sum of the frequency map's counts over
/// every bin the box covers.
pub open spec fn box_pop(m: Map<u32, u32>, bx: crate::data_models::MinMaxBox) -> int {
    range_pop(
        m,
        bx.rmin as int,
        bx.rmax as int,
        bx.gmin as int,
        bx.gmax as int,
        bx.bmin as int,
        bx.bmax as int,
    )
}

pub proof fn lemma_row_pop_nonneg(m: Map<u32, u32>, r: int, g: int, blo: int, bhi: int)
    ensures
        row_pop(m, r, g, blo, bhi) >= 0,
    decreases bhi + 1 - blo,
{
    if blo <= bhi {
        lemma_row_pop_nonneg(m, r, g, blo, bhi - 1);
    }
}

pub proof fn lemma_plane_pop_nonneg(m: Map<u32, u32>, r: int, glo: int, ghi: int, blo: int, bhi: int)
    ensures
        plane_pop(m, r, glo, ghi, blo, bhi) >= 0,
    decreases ghi + 1 - glo,
{
    if glo <= ghi {
        lemma_plane_pop_nonneg(m, r, glo, ghi - 1, blo, bhi);
        lemma_row_pop_nonneg(m, r, ghi, blo, bhi);
    }
}

pub proof fn lemma_range_pop_nonneg(
    m: Map<u32, u32>,
    rlo: int,
    rhi: int,
    glo: int,
    ghi: int,
    blo: int,
    bhi: int,
)
    ensures
        range_pop(m, rlo, rhi, glo, ghi, blo, bhi) >= 0,
    decreases rhi + 1 - rlo,
{
    if rlo <= rhi {
        lemma_range_pop_nonneg(m, rlo, rhi - 1, glo, ghi, blo, bhi);
        lemma_plane_pop_nonneg(m, rhi, glo, ghi, blo, bhi);
    }
}

/// A row's population equals the map's sum over the consecutive hash
/// interval the row occupies.
pub proof fn lemma_row_pop_interval(m: Map<u32, u32>, r: int, g: int, blo: int, bhi: int)
    requires
        0 <= r,
        0 <= g,
        0 <= blo <= bhi,
    ensures
        row_pop(m, r, g, blo, bhi) == map_sum_below(m, color_hash(r, g, bhi) + 1) - map_sum_below(
            m,
            color_hash(r, g, blo),
        ),
    decreases bhi - blo,
{
    if blo == bhi {
        assert(row_pop(m, r, g, blo, bhi - 1) == 0);
        assert(map_sum_below(m, color_hash(r, g, bhi) + 1) == map_sum_below(
            m,
            color_hash(r, g, bhi),
        ) + count_of(m, color_hash(r, g, bhi)));
    } else {
        lemma_row_pop_interval(m, r, g, blo, bhi - 1);
        assert(color_hash(r, g, bhi - 1) + 1 == color_hash(r, g, bhi));
        assert(map_sum_below(m, color_hash(r, g, bhi) + 1) == map_sum_below(
            m,
            color_hash(r, g, bhi),
        ) + count_of(m, color_hash(r, g, bhi)));
    }
}

/// A plane's population is at most the map's sum over the hash interval
/// spanned from its first to its last row.
pub proof fn lemma_plane_pop_le_interval(
    m: Map<u32, u32>,
    r: int,
    glo: int,
    ghi: int,
    blo: int,
    bhi: int,
)
    requires
        0 <= r,
        0 <= glo <= ghi,
        0 <= blo <= bhi <= 31,
    ensures
        plane_pop(m, r, glo, ghi, blo, bhi) <= map_sum_below(m, color_hash(r, ghi, bhi) + 1)
            - map_sum_below(m, color_hash(r, glo, blo)),
    decreases ghi - glo,
{
    if glo == ghi {
        assert(plane_pop(m, r, glo, ghi - 1, blo, bhi) == 0);
        lemma_row_pop_interval(m, r, ghi, blo, bhi);
    } else {
        lemma_plane_pop_le_interval(m, r, glo, ghi - 1, blo, bhi);
        lemma_row_pop_interval(m, r, ghi, blo, bhi);
        assert(color_hash(r, ghi - 1, bhi) + 1 <= color_hash(r, ghi, blo));
        lemma_map_sum_monotone(m, color_hash(r, ghi - 1, bhi) + 1, color_hash(r, ghi, blo));
    }
}

/// A range's population is at most the map's sum over the hash interval
/// spanned from its first to its last plane.
pub proof fn lemma_range_pop_le_interval(
    m: Map<u32, u32>,
    rlo: int,
    rhi: int,
    glo: int,
    ghi: int,
    blo: int,
    bhi: int,
)
    requires
        0 <= rlo <= rhi,
        0 <= glo <= ghi <= 31,
        0 <= blo <= bhi <= 31,
    ensures
        range_pop(m, rlo, rhi, glo, ghi, blo, bhi) <= map_sum_below(m, color_hash(rhi, ghi, bhi) + 1)
            - map_sum_below(m, color_hash(rlo, glo, blo)),
    decreases rhi - rlo,
{
    if rlo == rhi {
        assert(range_pop(m, rlo, rhi - 1, glo, ghi, blo, bhi) == 0);
        lemma_plane_pop_le_interval(m, rhi, glo, ghi, blo, bhi);
    } else {
        lemma_range_pop_le_interval(m, rlo, rhi - 1, glo, ghi, blo, bhi);
        lemma_plane_pop_le_interval(m, rhi, glo, ghi, blo, bhi);
        assert(color_hash(rhi - 1, ghi, bhi) + 1 <= color_hash(rhi, glo, blo));
        lemma_map_sum_monotone(m, color_hash(rhi - 1, ghi, bhi) + 1, color_hash(rhi, glo, blo));
    }
}

/// No sub-range of the quantized cube holds more population than the
/// whole frequency map.
pub proof fn lemma_range_pop_le_total(
    m: Map<u32, u32>,
    rlo: int,
    rhi: int,
    glo: int,
    ghi: int,
    blo: int,
    bhi: int,
)
    requires
        0 <= rlo <= rhi <= 31,
        0 <= glo <= ghi <= 31,
        0 <= blo <= bhi <= 31,
    ensures
        0 <= range_pop(m, rlo, rhi, glo, ghi, blo, bhi) <= map_total(m),
{
    lemma_range_pop_nonneg(m, rlo, rhi, glo, ghi, blo, bhi);
    lemma_range_pop_le_interval(m, rlo, rhi, glo, ghi, blo, bhi);
    lemma_map_sum_nonneg(m, color_hash(rlo, glo, blo));
    lemma_map_sum_monotone(m, color_hash(rhi, ghi, bhi) + 1, HASH_SPACE as int);
}

/// One row of binned bins holds at most the whole map's population.
pub proof fn lemma_row_pop_le_total(m: Map<u32, u32>, r: int, g: int, blo: int, bhi: int)
    requires
        0 <= r <= 31,
        0 <= g <= 31,
        0 <= blo <= bhi <= 31,
    ensures
        0 <= row_pop(m, r, g, blo, bhi) <= map_total(m),
{
    lemma_row_pop_nonneg(m, r, g, blo, bhi);
    lemma_row_pop_interval(m, r, g, blo, bhi);
    lemma_map_sum_nonneg(m, color_hash(r, g, blo));
    lemma_map_sum_monotone(m, color_hash(r, g, bhi) + 1, HASH_SPACE as int);
}

/// One plane of binned bins holds at most the whole map's population.
pub proof fn lemma_plane_pop_le_total(
    m: Map<u32, u32>,
    r: int,
    glo: int,
    ghi: int,
    blo: int,
    bhi: int,
)
    requires
        0 <= r <= 31,
        0 <= glo <= ghi <= 31,
        0 <= blo <= bhi <= 31,
    ensures
        0 <= plane_pop(m, r, glo, ghi, blo, bhi) <= map_total(m),
{
    lemma_plane_pop_nonneg(m, r, glo, ghi, blo, bhi);
    lemma_plane_pop_le_interval(m, r, glo, ghi, blo, bhi);
    lemma_map_sum_nonneg(m, color_hash(r, glo, blo));
    lemma_map_sum_monotone(m, color_hash(r, ghi, bhi) + 1, HASH_SPACE as int);
}

/// The population of the part of a box up to value `v` along channel `c`:
/// the box with that channel's upper bound clamped to `v`.
pub open spec fn prefix_pop(
    m: Map<u32, u32>,
    bx: crate::data_models::MinMaxBox,
    c: crate::data_models::ColorChannel,
    v: int,
) -> int {
    match c {
        crate::data_models::ColorChannel::Red => range_pop(
            m,
            bx.rmin as int,
            v,
            bx.gmin as int,
            bx.gmax as int,
            bx.bmin as int,
            bx.bmax as int,
        ),
        crate::data_models::ColorChannel::Green => range_pop(
            m,
            bx.rmin as int,
            bx.rmax as int,
            bx.gmin as int,
            v,
            bx.bmin as int,
            bx.bmax as int,
        ),
        crate::data_models::ColorChannel::Blue => range_pop(
            m,
            bx.rmin as int,
            bx.rmax as int,
            bx.gmin as int,
            bx.gmax as int,
            bx.bmin as int,
            v,
        ),
    }
}

/// A box's prefix population never decreases as the prefix grows.
pub proof fn lemma_prefix_pop_step(m: Map<u32, u32>, bx: MinMaxBox, c: ColorChannel, v: int)
    requires
        bx.wf(),
        bx.axis_lo(c) - 1 <= v < bx.axis_hi(c),
    ensures
        prefix_pop(m, bx, c, v) <= prefix_pop(m, bx, c, v + 1),
{
    match c {
        ColorChannel::Red => {
            assert(range_pop(
                m,
                bx.rmin as int,
                v + 1,
                bx.gmin as int,
                bx.gmax as int,
                bx.bmin as int,
                bx.bmax as int,
            ) == range_pop(
                m,
                bx.rmin as int,
                v,
                bx.gmin as int,
                bx.gmax as int,
                bx.bmin as int,
                bx.bmax as int,
            ) + plane_pop(m, v + 1, bx.gmin as int, bx.gmax as int, bx.bmin as int, bx.bmax as int));
            lemma_plane_pop_nonneg(m, v + 1, bx.gmin as int, bx.gmax as int, bx.bmin as int, bx.bmax as int);
        },
        ColorChannel::Green => {
            lemma_range_pop_split_g(
                m,
                bx.rmin as int,
                bx.rmax as int,
                bx.gmin as int,
                v,
                v + 1,
                bx.bmin as int,
                bx.bmax as int,
            );
            lemma_range_pop_nonneg(
                m,
                bx.rmin as int,
                bx.rmax as int,
                v + 1,
                v + 1,
                bx.bmin as int,
                bx.bmax as int,
            );
        },
        ColorChannel::Blue => {
            lemma_range_pop_split_b(
                m,
                bx.rmin as int,
                bx.rmax as int,
                bx.gmin as int,
                bx.gmax as int,
                bx.bmin as int,
                v,
                v + 1,
            );
            lemma_range_pop_nonneg(
                m,
                bx.rmin as int,
                bx.rmax as int,
                bx.gmin as int,
                bx.gmax as int,
                v + 1,
                v + 1,
            );
        },
    }
}

/// A box's prefix population lies between zero and the whole map's total.
pub proof fn lemma_prefix_pop_bounds(m: Map<u32, u32>, bx: MinMaxBox, c: ColorChannel, v: int)
    requires
        bx.binned(),
        bx.axis_lo(c) <= v <= bx.axis_hi(c),
    ensures
        0 <= prefix_pop(m, bx, c, v) <= map_total(m),
{
    match c {
        ColorChannel::Red => {
            lemma_range_pop_le_total(
                m,
                bx.rmin as int,
                v,
                bx.gmin as int,
                bx.gmax as int,
                bx.bmin as int,
                bx.bmax as int,
            );
        },
        ColorChannel::Green => {
            lemma_range_pop_le_total(
                m,
                bx.rmin as int,
                bx.rmax as int,
                bx.gmin as int,
                v,
                bx.bmin as int,
                bx.bmax as int,
            );
        },
        ColorChannel::Blue => {
            lemma_range_pop_le_total(
                m,
                bx.rmin as int,
                bx.rmax as int,
                bx.gmin as int,
                bx.gmax as int,
                bx.bmin as int,
                v,
            );
        },
    }
}

/// The prefix that reaches the axis maximum is the whole box.
pub proof fn lemma_prefix_pop_full(m: Map<u32, u32>, bx: MinMaxBox, c: ColorChannel)
    ensures
        prefix_pop(m, bx, c, bx.axis_hi(c)) == box_pop(m, bx),
{
    match c {
        ColorChannel::Red => {},
        ColorChannel::Green => {},
        ColorChannel::Blue => {},
    }
}

/// The prefix that stops below the axis minimum is empty.
pub proof fn lemma_prefix_pop_empty(m: Map<u32, u32>, bx: MinMaxBox, c: ColorChannel)
    ensures
        prefix_pop(m, bx, c, bx.axis_lo(c) - 1) == 0,
{
    match c {
        ColorChannel::Red => {},
        ColorChannel::Green => {
            lemma_range_pop_empty_g(
                m,
                bx.rmin as int,
                bx.rmax as int,
                bx.gmin as int,
                bx.gmin - 1,
                bx.bmin as int,
                bx.bmax as int,
            );
        },
        ColorChannel::Blue => {
            lemma_range_pop_empty_b(
                m,
                bx.rmin as int,
                bx.rmax as int,
                bx.gmin as int,
                bx.gmax as int,
                bx.bmin as int,
                bx.bmin - 1,
            );
        },
    }
}

/// A plane over an empty blue range holds nothing.
pub proof fn lemma_plane_pop_empty_b(
    m: Map<u32, u32>,
    r: int,
    glo: int,
    ghi: int,
    blo: int,
    bhi: int,
)
    requires
        blo > bhi,
    ensures
        plane_pop(m, r, glo, ghi, blo, bhi) == 0,
    decreases ghi + 1 - glo,
{
    if glo <= ghi {
        lemma_plane_pop_empty_b(m, r, glo, ghi - 1, blo, bhi);
    }
}

/// A range over an empty green range holds nothing.
pub proof fn lemma_range_pop_empty_g(
    m: Map<u32, u32>,
    rlo: int,
    rhi: int,
    glo: int,
    ghi: int,
    blo: int,
    bhi: int,
)
    requires
        glo > ghi,
    ensures
        range_pop(m, rlo, rhi, glo, ghi, blo, bhi) == 0,
    decreases rhi + 1 - rlo,
{
    if rlo <= rhi {
        lemma_range_pop_empty_g(m, rlo, rhi - 1, glo, ghi, blo, bhi);
    }
}

/// A range over an empty blue range holds nothing.
pub proof fn lemma_range_pop_empty_b(
    m: Map<u32, u32>,
    rlo: int,
    rhi: int,
    glo: int,
    ghi: int,
    blo: int,
    bhi: int,
)
    requires
        blo > bhi,
    ensures
        range_pop(m, rlo, rhi, glo, ghi, blo, bhi) == 0,
    decreases rhi + 1 - rlo,
{
    if rlo <= rhi {
        lemma_range_pop_empty_b(m, rlo, rhi - 1, glo, ghi, blo, bhi);
        lemma_plane_pop_empty_b(m, rhi, glo, ghi, blo, bhi);
    }
}

/// A pixel that occurs in the sequence makes its hash's count positive.
pub proof fn lemma_hash_count_pos(s: Seq<Rgba>, i: int)
    requires
        0 <= i < s.len(),
    ensures
        hash_count(s, pixel_hash(s[i])) >= 1,
    decreases s.len(),
{
    lemma_hash_count_nonneg(s.drop_last(), pixel_hash(s[i]));
    if i < s.len() - 1 {
        lemma_hash_count_pos(s.drop_last(), i);
    }
}

/// A row's population splits additively at any interior blue value.
pub proof fn lemma_row_pop_split(m: Map<u32, u32>, r: int, g: int, blo: int, bmid: int, bhi: int)
    requires
        blo <= bmid + 1,
        bmid <= bhi,
    ensures
        row_pop(m, r, g, blo, bhi) == row_pop(m, r, g, blo, bmid) + row_pop(m, r, g, bmid + 1, bhi),
    decreases bhi - bmid,
{
    if bmid < bhi {
        lemma_row_pop_split(m, r, g, blo, bmid, bhi - 1);
    }
}

/// A plane's population splits additively at any interior green value.
pub proof fn lemma_plane_pop_split_g(
    m: Map<u32, u32>,
    r: int,
    glo: int,
    gmid: int,
    ghi: int,
    blo: int,
    bhi: int,
)
    requires
        glo <= gmid + 1,
        gmid <= ghi,
    ensures
        plane_pop(m, r, glo, ghi, blo, bhi) == plane_pop(m, r, glo, gmid, blo, bhi) + plane_pop(
            m,
            r,
            gmid + 1,
            ghi,
            blo,
            bhi,
        ),
    decreases ghi - gmid,
{
    if gmid < ghi {
        lemma_plane_pop_split_g(m, r, glo, gmid, ghi - 1, blo, bhi);
    }
}

/// A plane's population splits additively at any interior blue value.
pub proof fn lemma_plane_pop_split_b(
    m: Map<u32, u32>,
    r: int,
    glo: int,
    ghi: int,
    blo: int,
    bmid: int,
    bhi: int,
)
    requires
        blo <= bmid + 1,
        bmid <= bhi,
    ensures
        plane_pop(m, r, glo, ghi, blo, bhi) == plane_pop(m, r, glo, ghi, blo, bmid) + plane_pop(
            m,
            r,
            glo,
            ghi,
            bmid + 1,
            bhi,
        ),
    decreases ghi + 1 - glo,
{
    if glo <= ghi {
        lemma_plane_pop_split_b(m, r, glo, ghi - 1, blo, bmid, bhi);
        lemma_row_pop_split(m, r, ghi, blo, bmid, bhi);
    }
}

/// A range's population splits additively at any interior red value.
pub proof fn lemma_range_pop_split_r(
    m: Map<u32, u32>,
    rlo: int,
    rmid: int,
    rhi: int,
    glo: int,
    ghi: int,
    blo: int,
    bhi: int,
)
    requires
        rlo <= rmid + 1,
        rmid <= rhi,
    ensures
        range_pop(m, rlo, rhi, glo, ghi, blo, bhi) == range_pop(m, rlo, rmid, glo, ghi, blo, bhi)
            + range_pop(m, rmid + 1, rhi, glo, ghi, blo, bhi),
    decreases rhi - rmid,
{
    if rmid < rhi {
        lemma_range_pop_split_r(m, rlo, rmid, rhi - 1, glo, ghi, blo, bhi);
    }
}

/// A range's population splits additively at any interior green value.
pub proof fn lemma_range_pop_split_g(
    m: Map<u32, u32>,
    rlo: int,
    rhi: int,
    glo: int,
    gmid: int,
    ghi: int,
    blo: int,
    bhi: int,
)
    requires
        glo <= gmid + 1,
        gmid <= ghi,
    ensures
        range_pop(m, rlo, rhi, glo, ghi, blo, bhi) == range_pop(m, rlo, rhi, glo, gmid, blo, bhi)
            + range_pop(m, rlo, rhi, gmid + 1, ghi, blo, bhi),
    decreases rhi + 1 - rlo,
{
    if rlo <= rhi {
        lemma_range_pop_split_g(m, rlo, rhi - 1, glo, gmid, ghi, blo, bhi);
        lemma_plane_pop_split_g(m, rhi, glo, gmid, ghi, blo, bhi);
    }
}

/// A range's population splits additively at any interior blue value.
pub proof fn lemma_range_pop_split_b(
    m: Map<u32, u32>,
    rlo: int,
    rhi: int,
    glo: int,
    ghi: int,
    blo: int,
    bmid: int,
    bhi: int,
)
    requires
        blo <= bmid + 1,
        bmid <= bhi,
    ensures
        range_pop(m, rlo, rhi, glo, ghi, blo, bhi) == range_pop(m, rlo, rhi, glo, ghi, blo, bmid)
            + range_pop(m, rlo, rhi, glo, ghi, bmid + 1, bhi),
    decreases rhi + 1 - rlo,
{
    if rlo <= rhi {
        lemma_range_pop_split_b(m, rlo, rhi - 1, glo, ghi, blo, bmid, bhi);
        lemma_plane_pop_split_b(m, rhi, glo, ghi, blo, bmid, bhi);
    }
}

/// A map whose counts are exactly the hash multiplicities of a pixel
/// sequence, and which holds no zero counts, is the sequence's frequency
/// map.
pub proof fn lemma_freq_map_eq(m: Map<u32, u32>, s: Seq<Rgba>)
    requires
        forall|k: int| count_of(m, k) == hash_count(s, k),
        forall|k: u32| #[trigger] m.contains_key(k) ==> m[k] >= 1,
    ensures
        m == freq_map_of(s),
{
    let fm = freq_map_of(s);
    assert forall|k: u32| m.contains_key(k) == fm.contains_key(k) by {
        lemma_hash_count_nonneg(s, k as int);
        if m.contains_key(k) {
            assert(count_of(m, k as int) == m[k]);
            assert(hash_count(s, k as int) >= 1);
        }
        if hash_count(s, k as int) > 0 {
            assert(count_of(m, k as int) > 0);
        }
    }
    assert(m.dom() =~= fm.dom());
    assert forall|k: u32| m.contains_key(k) implies m[k] == fm[k] by {
        assert(count_of(m, k as int) == m[k]);
    }
    assert(m =~= fm);
}

/// A box that contains every pixel of a non-empty sequence and attains
/// each of its six bounds is the sequence's tight bounding box.
pub proof fn lemma_bounding_box_eq(s: Seq<Rgba>, bx: MinMaxBox)
    requires
        s.len() > 0,
        forall|i: int|
            0 <= i < s.len() ==> bx.rmin <= #[trigger] s[i].r <= bx.rmax && bx.gmin <= s[i].g
                <= bx.gmax && bx.bmin <= s[i].b <= bx.bmax,
        exists|i: int| 0 <= i < s.len() && #[trigger] s[i].r == bx.rmin,
        exists|i: int| 0 <= i < s.len() && #[trigger] s[i].r == bx.rmax,
        exists|i: int| 0 <= i < s.len() && #[trigger] s[i].g == bx.gmin,
        exists|i: int| 0 <= i < s.len() && #[trigger] s[i].g == bx.gmax,
        exists|i: int| 0 <= i < s.len() && #[trigger] s[i].b == bx.bmin,
        exists|i: int| 0 <= i < s.len() && #[trigger] s[i].b == bx.bmax,
    ensures
        bx == bounding_box(s),
{
    lemma_min_channel_attained(s, ColorChannel::Red);
    lemma_max_channel_attained(s, ColorChannel::Red);
    lemma_min_channel_attained(s, ColorChannel::Green);
    lemma_max_channel_attained(s, ColorChannel::Green);
    lemma_min_channel_attained(s, ColorChannel::Blue);
    lemma_max_channel_attained(s, ColorChannel::Blue);
    let a1 = choose|i: int|
        0 <= i < s.len() && #[trigger] channel_of(s[i], ColorChannel::Red) == min_channel_val(
            s,
            ColorChannel::Red,
        );
    let a2 = choose|i: int|
        0 <= i < s.len() && #[trigger] channel_of(s[i], ColorChannel::Red) == max_channel_val(
            s,
            ColorChannel::Red,
        );
    let a3 = choose|i: int|
        0 <= i < s.len() && #[trigger] channel_of(s[i], ColorChannel::Green) == min_channel_val(
            s,
            ColorChannel::Green,
        );
    let a4 = choose|i: int|
        0 <= i < s.len() && #[trigger] channel_of(s[i], ColorChannel::Green) == max_channel_val(
            s,
            ColorChannel::Green,
        );
    let a5 = choose|i: int|
        0 <= i < s.len() && #[trigger] channel_of(s[i], ColorChannel::Blue) == min_channel_val(
            s,
            ColorChannel::Blue,
        );
    let a6 = choose|i: int|
        0 <= i < s.len() && #[trigger] channel_of(s[i], ColorChannel::Blue) == max_channel_val(
            s,
            ColorChannel::Blue,
        );
    assert forall|i: int| 0 <= i < s.len() implies bx.gmin <= #[trigger] s[i].g <= bx.gmax by {
        assert(bx.rmin <= s[i].r);
    }
    assert forall|i: int| 0 <= i < s.len() implies bx.bmin <= #[trigger] s[i].b <= bx.bmax by {
        assert(bx.rmin <= s[i].r);
    }
    assert(bx.rmin <= s[a1].r);
    assert(s[a2].r <= bx.rmax);
    assert(bx.gmin <= s[a3].g);
    assert(s[a4].g <= bx.gmax);
    assert(bx.bmin <= s[a5].b);
    assert(s[a6].b <= bx.bmax);
    let j1 = choose|i: int| 0 <= i < s.len() && #[trigger] s[i].r == bx.rmin;
    let j2 = choose|i: int| 0 <= i < s.len() && #[trigger] s[i].r == bx.rmax;
    let j3 = choose|i: int| 0 <= i < s.len() && #[trigger] s[i].g == bx.gmin;
    let j4 = choose|i: int| 0 <= i < s.len() && #[trigger] s[i].g == bx.gmax;
    let j5 = choose|i: int| 0 <= i < s.len() && #[trigger] s[i].b == bx.bmin;
    let j6 = choose|i: int| 0 <= i < s.len() && #[trigger] s[i].b == bx.bmax;
    lemma_channel_val_bounds(s, ColorChannel::Red, j1);
    lemma_channel_val_bounds(s, ColorChannel::Red, j2);
    lemma_channel_val_bounds(s, ColorChannel::Green, j3);
    lemma_channel_val_bounds(s, ColorChannel::Green, j4);
    lemma_channel_val_bounds(s, ColorChannel::Blue, j5);
    lemma_channel_val_bounds(s, ColorChannel::Blue, j6);
    assert(bx.rmin == min_channel_val(s, ColorChannel::Red));
    assert(bx.rmax == max_channel_val(s, ColorChannel::Red));
    assert(bx.gmin == min_channel_val(s, ColorChannel::Green));
    assert(bx.gmax == max_channel_val(s, ColorChannel::Green));
    assert(bx.bmin == min_channel_val(s, ColorChannel::Blue));
    assert(bx.bmax == max_channel_val(s, ColorChannel::Blue));
}

/// Sum of the counts the boxes of `q` cover in one row: red and green
/// fixed, blue ranging over `0 ..= bhi`.
pub open spec fn covered_row_pop(
    m: Map<u32, u32>,
    q: Seq<MinMaxBox>,
    r: int,
    g: int,
    bhi: int,
) -> int
    decreases bhi + 1,
{
    if bhi < 0 {
        0
    } else {
        covered_row_pop(m, q, r, g, bhi - 1) + if covered(q, r, g, bhi) {
            count_of(m, color_hash(r, g, bhi))
        } else {
            0
        }
    }
}

/// Sum of the covered counts in one plane: red fixed, green up to `ghi`,
/// blue over the whole quantized range.
pub open spec fn covered_plane_pop(m: Map<u32, u32>, q: Seq<MinMaxBox>, r: int, ghi: int) -> int
    decreases ghi + 1,
{
    if ghi < 0 {
        0
    } else {
        covered_plane_pop(m, q, r, ghi - 1) + covered_row_pop(m, q, r, ghi, 31)
    }
}

/// Sum of the covered counts over red up to `rhi` and the whole quantized
/// range of the other two channels.
pub open spec fn covered_cube_pop(m: Map<u32, u32>, q: Seq<MinMaxBox>, rhi: int) -> int
    decreases rhi + 1,
{
    if rhi < 0 {
        0
    } else {
        covered_cube_pop(m, q, rhi - 1) + covered_plane_pop(m, q, rhi, 31)
    }
}

/// The population of the union of the regions of all boxes in the
/// sequence: each bin of the quantized cube is counted once, whether one
/// box covers it or several do.
pub open spec fn covered_pop(m: Map<u32, u32>, q: Seq<MinMaxBox>) -> int {
    covered_cube_pop(m, q, 31)
}

/// The hypothesis of the coverage congruence: wherever the two sequences
/// disagree about covering a bin of the cube, that bin holds no count.
pub open spec fn coverage_agrees_up_to_zeros(
    m: Map<u32, u32>,
    q1: Seq<MinMaxBox>,
    q2: Seq<MinMaxBox>,
) -> bool {
    forall|r: int, g: int, b: int|
        0 <= r < 32 && 0 <= g < 32 && 0 <= b < 32 ==> ((#[trigger] covered(q1, r, g, b))
            == covered(q2, r, g, b)) || count_of(m, color_hash(r, g, b)) == 0
}

pub proof fn lemma_covered_row_congruence(
    m: Map<u32, u32>,
    q1: Seq<MinMaxBox>,
    q2: Seq<MinMaxBox>,
    r: int,
    g: int,
    bhi: int,
)
    requires
        coverage_agrees_up_to_zeros(m, q1, q2),
        0 <= r < 32,
        0 <= g < 32,
        bhi < 32,
    ensures
        covered_row_pop(m, q1, r, g, bhi) == covered_row_pop(m, q2, r, g, bhi),
    decreases bhi + 1,
{
    if bhi >= 0 {
        lemma_covered_row_congruence(m, q1, q2, r, g, bhi - 1);
        assert(((covered(q1, r, g, bhi)) == covered(q2, r, g, bhi)) || count_of(
            m,
            color_hash(r, g, bhi),
        ) == 0);
    }
}

pub proof fn lemma_covered_plane_congruence(
    m: Map<u32, u32>,
    q1: Seq<MinMaxBox>,
    q2: Seq<MinMaxBox>,
    r: int,
    ghi: int,
)
    requires
        coverage_agrees_up_to_zeros(m, q1, q2),
        0 <= r < 32,
        ghi < 32,
    ensures
        covered_plane_pop(m, q1, r, ghi) == covered_plane_pop(m, q2, r, ghi),
    decreases ghi + 1,
{
    if ghi >= 0 {
        lemma_covered_plane_congruence(m, q1, q2, r, ghi - 1);
        lemma_covered_row_congruence(m, q1, q2, r, ghi, 31);
    }
}

pub proof fn lemma_covered_cube_congruence(
    m: Map<u32, u32>,
    q1: Seq<MinMaxBox>,
    q2: Seq<MinMaxBox>,
    rhi: int,
)
    requires
        coverage_agrees_up_to_zeros(m, q1, q2),
        rhi < 32,
    ensures
        covered_cube_pop(m, q1, rhi) == covered_cube_pop(m, q2, rhi),
    decreases rhi + 1,
{
    if rhi >= 0 {
        lemma_covered_cube_congruence(m, q1, q2, rhi - 1);
        lemma_covered_plane_congruence(m, q1, q2, rhi, 31);
    }
}

/// What a single box covers of one row: its own blue range, clamped to
/// the scanned prefix, where red and green lie inside it.
pub proof fn lemma_covered_row_single(m: Map<u32, u32>, bx: MinMaxBox, r: int, g: int, bhi: int)
    requires
        bx.wf(),
    ensures
        covered_row_pop(m, seq![bx], r, g, bhi) == if bx.rmin <= r <= bx.rmax && bx.gmin <= g
            <= bx.gmax && bhi >= bx.bmin {
            row_pop(
                m,
                r,
                g,
                bx.bmin as int,
                if bhi <= bx.bmax {
                    bhi
                } else {
                    bx.bmax as int
                },
            )
        } else {
            0
        },
    decreases bhi + 1,
{
    let q = seq![bx];
    if bhi >= 0 {
        lemma_covered_row_single(m, bx, r, g, bhi - 1);
        assert(covered(q, r, g, bhi) <==> in_box(bx, r, g, bhi)) by {
            if in_box(bx, r, g, bhi) {
                assert(in_box(q[0], r, g, bhi));
            }
        }
        if bx.rmin <= r <= bx.rmax && bx.gmin <= g <= bx.gmax && bhi == bx.bmin {
            assert(row_pop(m, r, g, bx.bmin as int, bhi - 1) == 0);
        }
    }
}

/// What a single box covers of one plane: its own green and blue ranges,
/// the green range clamped to the scanned prefix, where red lies inside.
pub proof fn lemma_covered_plane_single(m: Map<u32, u32>, bx: MinMaxBox, r: int, ghi: int)
    requires
        bx.binned(),
    ensures
        covered_plane_pop(m, seq![bx], r, ghi) == if bx.rmin <= r <= bx.rmax && ghi >= bx.gmin {
            plane_pop(
                m,
                r,
                bx.gmin as int,
                if ghi <= bx.gmax {
                    ghi
                } else {
                    bx.gmax as int
                },
                bx.bmin as int,
                bx.bmax as int,
            )
        } else {
            0
        },
    decreases ghi + 1,
{
    if ghi >= 0 {
        lemma_covered_plane_single(m, bx, r, ghi - 1);
        lemma_covered_row_single(m, bx, r, ghi, 31);
        if bx.rmin <= r <= bx.rmax && bx.gmin <= ghi <= bx.gmax {
            if ghi == bx.gmin {
                assert(plane_pop(m, r, bx.gmin as int, ghi - 1, bx.bmin as int, bx.bmax as int)
                    == 0);
            }
        }
    }
}

/// What a single box covers of the scanned cube prefix: its own ranges,
/// the red range clamped to the prefix.
pub proof fn lemma_covered_cube_single(m: Map<u32, u32>, bx: MinMaxBox, rhi: int)
    requires
        bx.binned(),
    ensures
        covered_cube_pop(m, seq![bx], rhi) == if rhi >= bx.rmin {
            range_pop(
                m,
                bx.rmin as int,
                if rhi <= bx.rmax {
                    rhi
                } else {
                    bx.rmax as int
                },
                bx.gmin as int,
                bx.gmax as int,
                bx.bmin as int,
                bx.bmax as int,
            )
        } else {
            0
        },
    decreases rhi + 1,
{
    if rhi >= 0 {
        lemma_covered_cube_single(m, bx, rhi - 1);
        lemma_covered_plane_single(m, bx, rhi, 31);
        if bx.rmin <= rhi <= bx.rmax {
            if rhi == bx.rmin {
                assert(range_pop(
                    m,
                    bx.rmin as int,
                    rhi - 1,
                    bx.gmin as int,
                    bx.gmax as int,
                    bx.bmin as int,
                    bx.bmax as int,
                ) == 0);
            }
        }
    }
}

/// The union population of one box is exactly its population.
pub proof fn lemma_covered_pop_single(m: Map<u32, u32>, bx: MinMaxBox)
    requires
        bx.binned(),
    ensures
        covered_pop(m, seq![bx]) == box_pop(m, bx),
{
    lemma_covered_cube_single(m, bx, 31);
}

/// A full plane of the quantized cube tiles one contiguous hash interval
/// exactly.
pub proof fn lemma_plane_pop_interval_full(m: Map<u32, u32>, r: int, ghi: int)
    requires
        0 <= r,
        0 <= ghi <= 31,
    ensures
        plane_pop(m, r, 0, ghi, 0, 31) == map_sum_below(m, color_hash(r, ghi, 31) + 1)
            - map_sum_below(m, color_hash(r, 0, 0)),
    decreases ghi,
{
    lemma_row_pop_interval(m, r, ghi, 0, 31);
    if ghi == 0 {
        assert(plane_pop(m, r, 0, -1, 0, 31) == 0);
    } else {
        lemma_plane_pop_interval_full(m, r, ghi - 1);
        assert(color_hash(r, ghi - 1, 31) + 1 == color_hash(r, ghi, 0));
    }
}

/// The whole quantized cube up to red `rhi` tiles the hash interval from
/// zero exactly.
pub proof fn lemma_range_pop_interval_full(m: Map<u32, u32>, rhi: int)
    requires
        0 <= rhi <= 31,
    ensures
        range_pop(m, 0, rhi, 0, 31, 0, 31) == map_sum_below(m, color_hash(rhi, 31, 31) + 1),
    decreases rhi,
{
    lemma_plane_pop_interval_full(m, rhi, 31);
    if rhi == 0 {
        assert(range_pop(m, 0, -1, 0, 31, 0, 31) == 0);
        assert(map_sum_below(m, color_hash(0, 0, 0)) == 0);
    } else {
        lemma_range_pop_interval_full(m, rhi - 1);
        assert(color_hash(rhi - 1, 31, 31) + 1 == color_hash(rhi, 0, 0));
    }
}

/// Sum of a pixel sequence's hash multiplicities over all hashes below
/// `n`.
pub open spec fn sum_hash_counts(s: Seq<Rgba>, n: int) -> int
    decreases n,
{
    if n <= 0 {
        0
    } else {
        sum_hash_counts(s, n - 1) + hash_count(s, n - 1)
    }
}

/// The frequency map a sequence induces sums to the sum of the sequence's
/// hash multiplicities.
pub proof fn lemma_freq_map_sum(s: Seq<Rgba>, n: int)
    requires
        s.len() <= u32::MAX,
        n <= 0x1_0000_0000,
    ensures
        map_sum_below(freq_map_of(s), n) == sum_hash_counts(s, n),
    decreases n,
{
    if n > 0 {
        lemma_freq_map_sum(s, n - 1);
        lemma_hash_count_nonneg(s, n - 1);
        assert(count_of(freq_map_of(s), n - 1) == hash_count(s, n - 1));
    }
}

/// Dropping the last pixel lowers exactly one multiplicity below `n`, by
/// one, where its hash lies below `n`.
pub proof fn lemma_sum_hash_counts_step(s: Seq<Rgba>, n: int)
    requires
        s.len() > 0,
    ensures
        sum_hash_counts(s, n) == sum_hash_counts(s.drop_last(), n) + if 0 <= pixel_hash(s.last())
            < n {
            1int
        } else {
            0int
        },
    decreases n,
{
    if n > 0 {
        lemma_sum_hash_counts_step(s, n - 1);
    }
}

/// Where every pixel's hash lies below `n`, the multiplicities below `n`
/// sum to the number of pixels.
pub proof fn lemma_sum_hash_counts_len(s: Seq<Rgba>, n: int)
    requires
        forall|i: int| 0 <= i < s.len() ==> 0 <= #[trigger] pixel_hash(s[i]) < n,
    ensures
        sum_hash_counts(s, n) == s.len(),
    decreases s.len(),
{
    if s.len() == 0 {
        lemma_sum_hash_counts_empty(s, n);
    } else {
        lemma_sum_hash_counts_step(s, n);
        assert forall|i: int|
            0 <= i < s.drop_last().len() implies 0 <= #[trigger] pixel_hash(s.drop_last()[i])
            < n by {
            assert(s.drop_last()[i] == s[i]);
        }
        lemma_sum_hash_counts_len(s.drop_last(), n);
        assert(pixel_hash(s[s.len() - 1]) < n);
    }
}

pub proof fn lemma_sum_hash_counts_empty(s: Seq<Rgba>, n: int)
    requires
        s.len() == 0,
    ensures
        sum_hash_counts(s, n) == 0,
    decreases n,
{
    if n > 0 {
        lemma_sum_hash_counts_empty(s, n - 1);
    }
}

/// A positive multiplicity has a pixel behind it.
pub proof fn lemma_hash_count_witness(s: Seq<Rgba>, k: int)
    requires
        hash_count(s, k) > 0,
    ensures
        exists|i: int| 0 <= i < s.len() && #[trigger] pixel_hash(s[i]) == k,
    decreases s.len(),
{
    if s.len() > 0 {
        if pixel_hash(s.last()) == k {
            assert(pixel_hash(s[s.len() - 1]) == k);
        } else {
            lemma_hash_count_witness(s.drop_last(), k);
            let i = choose|i: int|
                0 <= i < s.drop_last().len() && #[trigger] pixel_hash(s.drop_last()[i]) == k;
            assert(pixel_hash(s[i]) == k);
        }
    }
}

/// No pixel is lost or double-counted across any number of splits: where
/// the queue's boxes cover, between them, exactly the binned pixels'
/// bounding box, the frequency map's counts summed once over the union of
/// the boxes' regions give back exactly the number of pixels.
pub proof fn lemma_no_pixel_lost(pixels: Seq<Rgba>, q: Seq<MinMaxBox>)
    requires
        pixels.len() <= u32::MAX,
        forall|r: int, g: int, b: int|
            #[trigger] covered(q, r, g, b) <==> in_box(bounding_box(binned_seq(pixels)), r, g, b),
    ensures
        covered_pop(freq_map_of(binned_seq(pixels)), q) == pixels.len(),
{
    let s = binned_seq(pixels);
    let m = freq_map_of(s);
    let bb = bounding_box(s);
    let full = MinMaxBox { rmin: 0, rmax: 31, gmin: 0, gmax: 31, bmin: 0, bmax: 31 };

    assert forall|i: int|
        0 <= i < s.len() implies (#[trigger] s[i]).r < 32 && s[i].g < 32 && s[i].b < 32 by {
        assert(s[i] == binned_pixel(pixels[i]));
    }
    assert forall|i: int| 0 <= i < s.len() implies 0 <= #[trigger] pixel_hash(s[i]) < 32768 by {
        assert(s[i].r < 32 && s[i].g < 32 && s[i].b < 32);
    }

    assert(coverage_agrees_up_to_zeros(m, q, seq![full])) by {
        assert forall|r: int, g: int, b: int|
            0 <= r < 32 && 0 <= g < 32 && 0 <= b < 32 implies ((#[trigger] covered(q, r, g, b))
            == covered(seq![full], r, g, b)) || count_of(m, color_hash(r, g, b)) == 0 by {
            assert(in_box(full, r, g, b));
            assert(covered(seq![full], r, g, b)) by {
                assert(in_box(seq![full][0], r, g, b));
            }
            if count_of(m, color_hash(r, g, b)) != 0 {
                let k = color_hash(r, g, b);
                assert(0 <= k < 32768);
                assert(m.contains_key(k as u32));
                assert(hash_count(s, k) > 0);
                lemma_hash_count_witness(s, k);
                let i = choose|i: int| 0 <= i < s.len() && #[trigger] pixel_hash(s[i]) == k;
                assert(s[i].r == r && s[i].g == g && s[i].b == b) by {
                    assert(color_hash(s[i].r as int, s[i].g as int, s[i].b as int) == color_hash(
                        r,
                        g,
                        b,
                    ));
                    assert(s[i].g * 32 + s[i].b < 1024 && g * 32 + b < 1024);
                    assert(s[i].r == r) by {
                        assert(s[i].r * 1024 + (s[i].g * 32 + s[i].b) == r * 1024 + (g * 32 + b));
                    }
                }
                lemma_channel_val_bounds(s, ColorChannel::Red, i);
                lemma_channel_val_bounds(s, ColorChannel::Green, i);
                lemma_channel_val_bounds(s, ColorChannel::Blue, i);
                lemma_min_channel_attained(s, ColorChannel::Red);
                lemma_max_channel_attained(s, ColorChannel::Red);
                lemma_min_channel_attained(s, ColorChannel::Green);
                lemma_max_channel_attained(s, ColorChannel::Green);
                lemma_min_channel_attained(s, ColorChannel::Blue);
                lemma_max_channel_attained(s, ColorChannel::Blue);
                assert(0 <= min_channel_val(s, ColorChannel::Red) < 32 && 0 <= max_channel_val(
                    s,
                    ColorChannel::Red,
                ) < 32) by {
                    let w1 = choose|j: int|
                        0 <= j < s.len() && #[trigger] channel_of(s[j], ColorChannel::Red)
                            == min_channel_val(s, ColorChannel::Red);
                    let w2 = choose|j: int|
                        0 <= j < s.len() && #[trigger] channel_of(s[j], ColorChannel::Red)
                            == max_channel_val(s, ColorChannel::Red);
                    assert(s[w1].r < 32 && s[w2].r < 32);
                }
                assert(0 <= min_channel_val(s, ColorChannel::Green) < 32 && 0 <= max_channel_val(
                    s,
                    ColorChannel::Green,
                ) < 32) by {
                    let w1 = choose|j: int|
                        0 <= j < s.len() && #[trigger] channel_of(s[j], ColorChannel::Green)
                            == min_channel_val(s, ColorChannel::Green);
                    let w2 = choose|j: int|
                        0 <= j < s.len() && #[trigger] channel_of(s[j], ColorChannel::Green)
                            == max_channel_val(s, ColorChannel::Green);
                    assert(s[w1].g < 32 && s[w2].g < 32);
                }
                assert(0 <= min_channel_val(s, ColorChannel::Blue) < 32 && 0 <= max_channel_val(
                    s,
                    ColorChannel::Blue,
                ) < 32) by {
                    let w1 = choose|j: int|
                        0 <= j < s.len() && #[trigger] channel_of(s[j], ColorChannel::Blue)
                            == min_channel_val(s, ColorChannel::Blue);
                    let w2 = choose|j: int|
                        0 <= j < s.len() && #[trigger] channel_of(s[j], ColorChannel::Blue)
                            == max_channel_val(s, ColorChannel::Blue);
                    assert(s[w1].b < 32 && s[w2].b < 32);
                }
                assert(in_box(bb, r, g, b));
                assert(covered(q, r, g, b));
            }
        }
    }
    lemma_covered_cube_congruence(m, q, seq![full], 31);
    lemma_covered_pop_single(m, full);
    lemma_range_pop_interval_full(m, 31);
    assert(color_hash(31, 31, 31) + 1 == 32768);
    lemma_freq_map_sum(s, 32768);
    lemma_sum_hash_counts_len(s, 32768);
}

/// One bin inside a box contributes at most the box's population.
pub proof fn lemma_point_le_box_pop(m: Map<u32, u32>, bx: MinMaxBox, r: int, g: int, b: int)
    requires
        bx.wf(),
        in_box(bx, r, g, b),
    ensures
        count_of(m, color_hash(r, g, b)) <= box_pop(m, bx),
{
    let rlo = bx.rmin as int;
    let rhi = bx.rmax as int;
    let glo = bx.gmin as int;
    let ghi = bx.gmax as int;
    let blo = bx.bmin as int;
    let bhi = bx.bmax as int;
    lemma_range_pop_split_r(m, rlo, r - 1, rhi, glo, ghi, blo, bhi);
    lemma_range_pop_split_r(m, r, r, rhi, glo, ghi, blo, bhi);
    lemma_range_pop_nonneg(m, rlo, r - 1, glo, ghi, blo, bhi);
    lemma_range_pop_nonneg(m, r + 1, rhi, glo, ghi, blo, bhi);
    assert(range_pop(m, r, r - 1, glo, ghi, blo, bhi) == 0);
    assert(range_pop(m, r, r, glo, ghi, blo, bhi) == plane_pop(m, r, glo, ghi, blo, bhi));
    lemma_plane_pop_split_g(m, r, glo, g - 1, ghi, blo, bhi);
    lemma_plane_pop_split_g(m, r, g, g, ghi, blo, bhi);
    lemma_plane_pop_nonneg(m, r, glo, g - 1, blo, bhi);
    lemma_plane_pop_nonneg(m, r, g + 1, ghi, blo, bhi);
    assert(plane_pop(m, r, g, g - 1, blo, bhi) == 0);
    assert(plane_pop(m, r, g, g, blo, bhi) == row_pop(m, r, g, blo, bhi));
    lemma_row_pop_split(m, r, g, blo, b - 1, bhi);
    lemma_row_pop_split(m, r, g, b, b, bhi);
    lemma_row_pop_nonneg(m, r, g, blo, b - 1);
    lemma_row_pop_nonneg(m, r, g, b + 1, bhi);
    assert(row_pop(m, r, g, b, b - 1) == 0);
    assert(row_pop(m, r, g, b, b) == count_of(m, color_hash(r, g, b)));
}

} // verus!
