//! Sizes and positions on screen, in pixels, and fonts.
use vstd::prelude::*;

verus! {

/// A width and a height in pixels.
#[derive(Copy, Clone, Debug, Default, PartialEq, Eq, Structural)]
pub struct Dimensions {
    pub width: u32,
    pub height: u32,
}

/// The sum of two sizes, capped at `u32::MAX`.
pub open spec fn saturating_sum(a: u32, b: u32) -> u32 {
    if a + b > u32::MAX {
        u32::MAX
    } else {
        (a + b) as u32
    }
}

/// The smaller of two sizes.
pub open spec fn smaller(a: u32, b: u32) -> u32 {
    if a <= b {
        a
    } else {
        b
    }
}

impl Dimensions {
    /// Dimensions of the given width and height.
    pub fn new(width: u32, height: u32) -> (r: Dimensions)
        ensures
            r.width == width,
            r.height == height,
    {
        Dimensions { width, height }
    }

    /// The dimensions that fit in both: the smaller width and the smaller height.
    pub fn intersect(self, other: Dimensions) -> (r: Dimensions)
        ensures
            r.width == smaller(self.width, other.width),
            r.height == smaller(self.height, other.height),
    {
        Dimensions {
            width: if self.width <= other.width {
                self.width
            } else {
                other.width
            },
            height: if self.height <= other.height {
                self.height
            } else {
                other.height
            },
        }
    }

    /// Adds the widths and the heights. A sum past `u32::MAX` is `u32::MAX`.
    pub fn saturating_add(self, other: Dimensions) -> (r: Dimensions)
        ensures
            r.width == saturating_sum(self.width, other.width),
            r.height == saturating_sum(self.height, other.height),
    {
        Dimensions {
            width: self.width.saturating_add(other.width),
            height: self.height.saturating_add(other.height),
        }
    }
}

/// A horizontal and a vertical offset in pixels.
#[derive(Copy, Clone, Debug, Default, PartialEq, Eq, Structural)]
pub struct Position {
    pub horizontal: u32,
    pub vertical: u32,
}

impl Position {
    /// The position with the given offsets.
    pub fn new(horizontal: u32, vertical: u32) -> (r: Position)
        ensures
            r.horizontal == horizontal,
            r.vertical == vertical,
    {
        Position { horizontal, vertical }
    }

    /// The origin.
    pub fn zero() -> (r: Position)
        ensures
            r.horizontal == 0,
            r.vertical == 0,
    {
        Self::new(0, 0)
    }

    /// Adds the offsets on each axis. A sum past `u32::MAX` is `u32::MAX`.
    pub fn saturating_add(self, other: Position) -> (r: Position)
        ensures
            r.horizontal == saturating_sum(self.horizontal, other.horizontal),
            r.vertical == saturating_sum(self.vertical, other.vertical),
    {
        Position {
            horizontal: self.horizontal.saturating_add(other.horizontal),
            vertical: self.vertical.saturating_add(other.vertical),
        }
    }
}

/// A font family and a size in points.
#[derive(Clone, Debug)]
pub struct Font {
    pub family: String,
    pub size: u8,
}

impl Font {
    /// A font of the given family and size.
    pub fn new(family: String, size: u8) -> (r: Font)
        ensures
            r.family == family,
            r.size == size,
    {
        Font { family, size }
    }
}

/// Adding sizes is commutative, also where it saturates.
pub proof fn lemma_saturating_add_commutes(a: Dimensions, b: Dimensions)
    ensures
        saturating_sum(a.width, b.width) == saturating_sum(b.width, a.width),
        saturating_sum(a.height, b.height) == saturating_sum(b.height, a.height),
{
}

/// A saturating sum is never below either side and equals the true sum whenever that fits.
pub proof fn lemma_saturating_sum_bounds(a: u32, b: u32)
    ensures
        saturating_sum(a, b) >= a,
        saturating_sum(a, b) >= b,
        a + b <= u32::MAX ==> saturating_sum(a, b) == a + b,
        a + b > u32::MAX ==> saturating_sum(a, b) == u32::MAX,
{
}

/// Intersecting is commutative and gives dimensions that fit in both.
pub proof fn lemma_intersect_fits(a: Dimensions, b: Dimensions)
    ensures
        smaller(a.width, b.width) == smaller(b.width, a.width),
        smaller(a.height, b.height) == smaller(b.height, a.height),
        smaller(a.width, b.width) <= a.width && smaller(a.width, b.width) <= b.width,
        smaller(a.height, b.height) <= a.height && smaller(a.height, b.height) <= b.height,
{
}

} // verus!
