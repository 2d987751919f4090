//! The data model of the quantizer: pixels, histograms, frequency maps and
//! axis-aligned boxes of quantized color space.

use std::collections::HashMap;
use vstd::prelude::*;

verus! {

/// One 8-bit RGBA pixel sample, already decoded by the caller.
#[derive(Clone, Copy, PartialEq, Eq, Structural, Debug)]
pub struct Rgba {
    pub r: u8,
    pub g: u8,
    pub b: u8,
    pub a: u8,
}

impl Rgba {
    pub fn new(r: u8, g: u8, b: u8, a: u8) -> (p: Rgba)
        ensures
            p == (Rgba { r, g, b, a }),
    {
        Rgba { r, g, b, a }
    }
}

/// A 1D histogram: one unsigned count per axis value, or a running sum of
/// such counts when produced by the cumulative-histogram projection.
pub struct Histogram(pub Vec<u32>);

/// The three per-channel histograms of a pixel sequence, in channel order
/// red, green, blue.
pub struct DimHistograms(pub [Histogram; 3]);

/// Mapping from a packed color hash to its occurrence count among the
/// pixels it was built from.
pub struct FrequencyMap(pub HashMap<u32, u32>);

/// An axis-aligned region of color space: inclusive per-channel bounds.
#[derive(Clone, Copy, PartialEq, Eq, Structural, Debug)]
pub struct MinMaxBox {
    pub rmin: u8,
    pub rmax: u8,
    pub gmin: u8,
    pub gmax: u8,
    pub bmin: u8,
    pub bmax: u8,
}

impl MinMaxBox {
    /// Every channel's lower bound is at most its upper bound.
    pub open spec fn wf(self) -> bool {
        self.rmin <= self.rmax && self.gmin <= self.gmax && self.bmin <= self.bmax
    }

    /// A well-formed box whose bounds are post-binning channel values,
    /// so each lies in the quantized range.
    pub open spec fn binned(self) -> bool {
        self.wf() && self.rmax < 32 && self.gmax < 32 && self.bmax < 32
    }

    /// The box's lower bound along the given channel.
    pub open spec fn axis_lo(self, c: ColorChannel) -> int {
        match c {
            ColorChannel::Red => self.rmin as int,
            ColorChannel::Green => self.gmin as int,
            ColorChannel::Blue => self.bmin as int,
        }
    }

    /// The box's upper bound along the given channel.
    pub open spec fn axis_hi(self, c: ColorChannel) -> int {
        match c {
            ColorChannel::Red => self.rmax as int,
            ColorChannel::Green => self.gmax as int,
            ColorChannel::Blue => self.bmax as int,
        }
    }
}

/// An axis-aligned region of color space with one named bound pair per
/// channel; the unit a palette entry is carved from.
pub struct Box {
    pub r_min: u8,
    pub r_max: u8,
    pub g_min: u8,
    pub g_max: u8,
    pub b_min: u8,
    pub b_max: u8,
}

impl Box {
    /// The volume of the region: the product of the three axis ranges.
    pub fn volume(&self) -> (v: u32)
        requires
            self.r_min <= self.r_max,
            self.g_min <= self.g_max,
            self.b_min <= self.b_max,
        ensures
            v == (self.r_max - self.r_min) * (self.g_max - self.g_min) * (self.b_max - self.b_min),
    {
        let dr: u32 = (self.r_max - self.r_min) as u32;
        let dg: u32 = (self.g_max - self.g_min) as u32;
        let db: u32 = (self.b_max - self.b_min) as u32;
        proof {
            assert(dr * dg <= 255 * 255 && dr * dg * db <= 255 * 255 * 255) by (nonlinear_arith)
                requires
                    dr <= 255,
                    dg <= 255,
                    db <= 255,
            ;
        }
        dr * dg * db
    }
}

/// The working collection of boxes: the current partition of color space.
#[derive(PartialEq, Debug)]
pub struct BoxQueue(pub Vec<MinMaxBox>);

/// One of the three color channels, also the axis a box is split along.
#[derive(Clone, Copy, PartialEq, Eq, Structural, Debug)]
pub enum ColorChannel {
    Red,
    Green,
    Blue,
}

impl ColorChannel {
    /// The channel's position in the fixed red, green, blue order.
    pub open spec fn index_spec(self) -> int {
        match self {
            ColorChannel::Red => 0,
            ColorChannel::Green => 1,
            ColorChannel::Blue => 2,
        }
    }

    /// Steps `other` places forward from this channel, wrapping around the
    /// red, green, blue cycle.
    pub fn add(self, other: i32) -> (c: ColorChannel)
        requires
            0 <= other + self.index_spec(),
            other + self.index_spec() <= i32::MAX,
        ensures
            c.index_spec() == (other + self.index_spec()) % 3,
    {
        let idx: i32 = match self {
            ColorChannel::Red => 0,
            ColorChannel::Green => 1,
            ColorChannel::Blue => 2,
        };
        let sum_mod3: i32 = (other + idx) % 3;
        if sum_mod3 == 0 {
            ColorChannel::Red
        } else if sum_mod3 == 1 {
            ColorChannel::Green
        } else {
            ColorChannel::Blue
        }
    }
}

} // verus!
