//! Polygon edges in fixed-point coordinates, and what it means for such edges
//! to cover a pixel: each pixel is probed at a grid of sample points, and a
//! sample is inside where the winding number of the edges around it satisfies
//! the fill rule.
use crate::mask::MaskView;
use vstd::prelude::*;

verus! {

/// Coordinate units per pixel: coordinates carry eight fractional bits.
pub const UNIT: i64 = 256;

/// Sample points per pixel along each axis.
pub const SUBS: u64 = 4;

/// The distance between neighbouring sample points.
pub const STEP: i64 = 64;

/// The distance of the first sample point from the pixel's corner.
pub const INSET: i64 = 32;

/// What one covered sample point adds to the coverage of its pixel.
pub const WEIGHT: u8 = 16;

/// A point of the plane, in units of 1/256 pixel. The pixel at column `x` of
/// row `y` is the square from `(256 x, 256 y)` to `(256 x + 256, 256 y + 256)`.
#[derive(Clone, Copy, Debug, PartialEq, Eq, Structural)]
pub struct Point {
    pub x: i32,
    pub y: i32,
}

/// A directed line segment from one point to another.
#[derive(Clone, Copy, Debug, PartialEq, Eq, Structural)]
pub struct Edge {
    pub from: Point,
    pub to: Point,
}

/// How a winding number decides whether a point is inside.
#[derive(Clone, Copy, Debug, PartialEq, Eq, Structural)]
pub enum FillRule {
    /// Inside where the edges wind around the point at all.
    NonZero,
    /// Inside where the edges cross an odd number of times.
    EvenOdd,
}

impl FillRule {
    /// Whether a point with the given winding number is inside.
    pub open spec fn covers(self, winding: int) -> bool {
        match self {
            FillRule::NonZero => winding != 0,
            FillRule::EvenOdd => winding % 2 != 0,
        }
    }
}

impl Edge {
    /// The end with the smaller `y`; `from` where both are level.
    pub open spec fn low(self) -> Point {
        if self.from.y <= self.to.y {
            self.from
        } else {
            self.to
        }
    }

    /// The end with the larger `y`; `to` where both are level.
    pub open spec fn high(self) -> Point {
        if self.from.y <= self.to.y {
            self.to
        } else {
            self.from
        }
    }

    /// The sense in which the edge passes a horizontal line: 1 towards larger
    /// `y`, -1 towards smaller `y`, 0 for a level edge.
    pub open spec fn direction(self) -> int {
        if self.from.y < self.to.y {
            1
        } else if self.from.y > self.to.y {
            -1
        } else {
            0
        }
    }

    /// Whether the edge passes the horizontal line at `py`. The span of an
    /// edge is half open, so that where two edges meet at a vertex only one
    /// of them passes the line through it, and a level edge passes none.
    pub open spec fn spans(self, py: int) -> bool {
        self.low().y <= py < self.high().y
    }

    /// Whether the ray from `(px, py)` towards smaller `x` meets the edge:
    /// the edge passes the line at `py`, at or left of `px`.
    pub open spec fn meets_ray(self, px: int, py: int) -> bool {
        &&& self.spans(py)
        &&& (py - self.low().y) * (self.high().x - self.low().x) <= (px - self.low().x) * (
        self.high().y - self.low().y)
    }

    /// What the edge adds to the winding number at `(px, py)`.
    pub open spec fn crossing(self, px: int, py: int) -> int {
        if self.meets_ray(px, py) {
            self.direction()
        } else {
            0
        }
    }

    /// The edge run backwards.
    pub open spec fn reversed(self) -> Edge {
        Edge { from: self.to, to: self.from }
    }
}

/// The winding number of `edges` around `(px, py)`: the signed count of the
/// edges that the ray from there towards smaller `x` meets.
pub open spec fn winding(edges: Seq<Edge>, px: int, py: int) -> int
    decreases edges.len(),
{
    if edges.len() == 0 {
        0
    } else {
        winding(edges.drop_last(), px, py) + edges.last().crossing(px, py)
    }
}

/// The coordinate of sample column (or sample line) `k`.
pub open spec fn sample_pos(k: int) -> int {
    INSET + STEP * k
}

/// Whether the sample point at sample column `col` of sample line `line` is
/// inside.
pub open spec fn sample_inside(edges: Seq<Edge>, rule: FillRule, col: int, line: int) -> bool {
    rule.covers(winding(edges, sample_pos(col), sample_pos(line)))
}

/// One for a sample point that is inside, zero for one that is not.
pub open spec fn sample_count(edges: Seq<Edge>, rule: FillRule, col: int, line: int) -> int {
    if sample_inside(edges, rule, col, line) {
        1
    } else {
        0
    }
}

/// How many of the four sample points of pixel column `x` on sample line
/// `line` are inside.
pub open spec fn line_count(edges: Seq<Edge>, rule: FillRule, x: int, line: int) -> int {
    sample_count(edges, rule, 4 * x, line) + sample_count(edges, rule, 4 * x + 1, line)
        + sample_count(edges, rule, 4 * x + 2, line) + sample_count(edges, rule, 4 * x + 3, line)
}

/// How many of the sixteen sample points of the pixel at column `x` of row
/// `y` are inside.
pub open spec fn pixel_count(edges: Seq<Edge>, rule: FillRule, x: int, y: int) -> int {
    line_count(edges, rule, x, 4 * y) + line_count(edges, rule, x, 4 * y + 1) + line_count(
        edges,
        rule,
        x,
        4 * y + 2,
    ) + line_count(edges, rule, x, 4 * y + 3)
}

/// A sum of sample weights as a coverage byte: clamped at 255, so that a
/// pixel with all sixteen samples inside is fully covered.
pub open spec fn clamp_coverage(sum: int) -> u8 {
    if sum > 255 {
        255u8
    } else if sum < 0 {
        0u8
    } else {
        sum as u8
    }
}

/// The coverage of the pixel at column `x` of row `y`: sixteen for each
/// sample point inside, clamped at 255.
pub open spec fn coverage(edges: Seq<Edge>, rule: FillRule, x: int, y: int) -> u8 {
    clamp_coverage(WEIGHT * pixel_count(edges, rule, x, y))
}

/// The mask of the given dimensions that holds the coverage of each pixel.
pub open spec fn rendering(edges: Seq<Edge>, rule: FillRule, width: u32, height: u32) -> MaskView {
    MaskView {
        width,
        height,
        pixels: Seq::new(
            (width * height) as nat,
            |i: int| coverage(edges, rule, i % (width as int), i / (width as int)),
        ),
    }
}

} // verus!
