//! Stroking: the outline of what a round pen sweeps along line segments. The
//! pen is a disk of the pen width; along a segment it sweeps a rectangle, and
//! at each end of a segment it leaves the disk itself, which rounds joins and
//! caps alike. Rectangles and disks all wind the same way round, so that
//! filling their edges under the non-zero rule covers their union.
use crate::edge::Edge;
use crate::edge::Point;
use crate::arith::clamp;
use crate::arith::isqrt;
use crate::arith::sqrt;
use crate::polygon::polygon;
use vstd::prelude::*;

verus! {

/// The corners of the polygon that stands for the pen's disk.
pub const DISK_CORNERS: usize = 16;

/// The length of a segment, 256 times over and rounded down.
pub open spec fn length256(seg: Edge) -> nat {
    let dx = seg.to.x - seg.from.x;
    let dy = seg.to.y - seg.from.y;
    sqrt(((dx * dx + dy * dy) * 65536) as nat)
}

/// The part `v * width / (2 * length)` of half the pen width that falls to
/// one coordinate of a segment of 256 times the length `len256`, rounded
/// towards zero.
pub open spec fn scaled(v: int, width: u32, len256: nat) -> int {
    if v >= 0 {
        (v * width * 256) / (2 * len256 as int)
    } else {
        -(((-v) * width * 256) / (2 * len256 as int))
    }
}

/// The step from the middle line of a stroked segment to its side: at right
/// angles to the segment and half the pen width long.
pub open spec fn side_step(seg: Edge, width: u32) -> (int, int) {
    let dx = seg.to.x - seg.from.x;
    let dy = seg.to.y - seg.from.y;
    (scaled(-dy, width, length256(seg)), scaled(dx, width, length256(seg)))
}

/// The point `p` moved by `(dx, dy)`, kept within the coordinates.
pub open spec fn shifted(p: Point, dx: int, dy: int) -> Point {
    Point { x: clamp(p.x + dx), y: clamp(p.y + dy) }
}

/// The four corners of the rectangle that the pen sweeps along a segment.
pub open spec fn swept_corners(seg: Edge, width: u32) -> Seq<Point> {
    let (ox, oy) = side_step(seg, width);
    seq![
        shifted(seg.from, ox, oy),
        shifted(seg.to, ox, oy),
        shifted(seg.to, -ox, -oy),
        shifted(seg.from, -ox, -oy),
    ]
}

/// The direction of corner `k` of the disk, as a point of the circle of
/// radius 256: sixteen directions at equal angles, in the sense in which the
/// corners of a swept rectangle follow each other.
pub open spec fn compass(k: int) -> (int, int) {
    if k == 0 {
        (256, 0)
    } else if k == 1 {
        (237, -98)
    } else if k == 2 {
        (181, -181)
    } else if k == 3 {
        (98, -237)
    } else if k == 4 {
        (0, -256)
    } else if k == 5 {
        (-98, -237)
    } else if k == 6 {
        (-181, -181)
    } else if k == 7 {
        (-237, -98)
    } else if k == 8 {
        (-256, 0)
    } else if k == 9 {
        (-237, 98)
    } else if k == 10 {
        (-181, 181)
    } else if k == 11 {
        (-98, 237)
    } else if k == 12 {
        (0, 256)
    } else if k == 13 {
        (98, 237)
    } else if k == 14 {
        (181, 181)
    } else {
        (237, 98)
    }
}

/// The part `c / 256` of half the pen width, rounded towards zero.
pub open spec fn reach(c: int, width: u32) -> int {
    if c >= 0 {
        (c * width) / 512
    } else {
        -(((-c) * width) / 512)
    }
}

/// Corner `k` of the disk of the pen at `center`.
pub open spec fn disk_corner(center: Point, width: u32, k: int) -> Point {
    shifted(center, reach(compass(k).0, width), reach(compass(k).1, width))
}

/// The corners of the disk of the pen at `center`.
pub open spec fn disk_corners(center: Point, width: u32) -> Seq<Point> {
    Seq::new(DISK_CORNERS as nat, |k: int| disk_corner(center, width, k))
}

/// The outline of what the pen covers along one segment: the swept rectangle
/// and the disks at both ends. A pen without width covers nothing, and
/// neither does a segment without length.
pub open spec fn piece(seg: Edge, width: u32) -> Seq<Edge> {
    if width == 0 || seg.from == seg.to {
        Seq::empty()
    } else {
        polygon(swept_corners(seg, width)) + polygon(disk_corners(seg.from, width)) + polygon(
            disk_corners(seg.to, width),
        )
    }
}

/// The outline of what the pen covers along `segments`.
pub open spec fn stroke_outline(segments: Seq<Edge>, width: u32) -> Seq<Edge>
    decreases segments.len(),
{
    if segments.len() == 0 {
        Seq::empty()
    } else {
        stroke_outline(segments.drop_last(), width) + piece(segments.last(), width)
    }
}

/// A pen without width leaves no outline.
pub proof fn lemma_stroke_without_width(segments: Seq<Edge>)
    ensures
        stroke_outline(segments, 0) == Seq::<Edge>::empty(),
    decreases segments.len(),
{
    if segments.len() > 0 {
        lemma_stroke_without_width(segments.drop_last());
        assert(stroke_outline(segments, 0) =~= Seq::<Edge>::empty());
    }
}

/// Segments without length leave no outline.
pub proof fn lemma_stroke_without_length(segments: Seq<Edge>, width: u32)
    requires
        forall|i: int| 0 <= i < segments.len() ==> (#[trigger] segments[i]).from == segments[i].to,
    ensures
        stroke_outline(segments, width) == Seq::<Edge>::empty(),
    decreases segments.len(),
{
    if segments.len() > 0 {
        assert forall|i: int| 0 <= i < segments.drop_last().len() implies (
        #[trigger] segments.drop_last()[i]).from == segments.drop_last()[i].to by {
            assert(segments.drop_last()[i] == segments[i]);
        }
        lemma_stroke_without_length(segments.drop_last(), width);
        assert(stroke_outline(segments, width) =~= Seq::<Edge>::empty());
    }
}

/// Appends the closed polygon through `corners` to `out`.
pub fn polygon_into(out: &mut Vec<Edge>, corners: &[Point])
    ensures
        final(out)@ == old(out)@ + polygon(corners@),
{
    let n = corners.len();
    let mut i: usize = 0;
    while i < n
        invariant
            i <= n == corners@.len(),
            out@ == old(out)@ + polygon(corners@).take(i as int),
        decreases n - i,
    {
        let to = if i + 1 < n {
            corners[i + 1]
        } else {
            corners[0]
        };
        out.push(Edge { from: corners[i], to });
        assert(out@ =~= old(out)@ + polygon(corners@).take(i + 1)) by {
            assert(polygon(corners@).take(i + 1) =~= polygon(corners@).take(i as int).push(
                polygon(corners@)[i as int],
            ));
        }
        i += 1;
    }
    assert(polygon(corners@).take(n as int) =~= polygon(corners@));
}

/// The point `p` moved by `(dx, dy)`, kept within the coordinates.
fn shift(p: Point, dx: i64, dy: i64) -> (r: Point)
    ensures
        r == shifted(p, dx as int, dy as int),
{
    let x: i128 = p.x as i128 + dx as i128;
    let y: i128 = p.y as i128 + dy as i128;
    let cx: i32 = if x < i32::MIN as i128 {
        i32::MIN
    } else if x > i32::MAX as i128 {
        i32::MAX
    } else {
        x as i32
    };
    let cy: i32 = if y < i32::MIN as i128 {
        i32::MIN
    } else if y > i32::MAX as i128 {
        i32::MAX
    } else {
        y as i32
    };
    Point { x: cx, y: cy }
}

/// The quotient `size * width * scale / divisor` of sizes without sign.
fn part(size: u64, width: u32, scale: u64, divisor: u128) -> (q: i64)
    requires
        size <= 0x1_0000_0000,
        scale <= 256,
        divisor >= 512,
    ensures
        q == (size * width * scale) / (divisor as int),
        q >= 0,
{
    assert(size * width <= 0x1_0000_0000 * 0xffff_ffff) by (nonlinear_arith)
        requires
            size <= 0x1_0000_0000,
            width <= 0xffff_ffff,
    ;
    let product: u128 = (size as u128) * (width as u128);
    assert(product * scale <= 0x1_0000_0000 * 0xffff_ffff * 256) by (nonlinear_arith)
        requires
            0 <= product <= 0x1_0000_0000 * 0xffff_ffff,
            0 <= scale <= 256,
    ;
    let scaled: u128 = product * (scale as u128);
    let q: u128 = scaled / divisor;
    proof {
        vstd::arithmetic::div_mod::lemma_div_is_ordered_by_denominator(
            scaled as int,
            512,
            divisor as int,
        );
    }
    q as i64
}

/// The part of half the pen width that falls to one coordinate of a segment.
fn scale(v: i64, width: u32, len256: u64) -> (r: i64)
    requires
        -0x1_0000_0000 < v < 0x1_0000_0000,
        len256 >= 256,
    ensures
        r == scaled(v as int, width, len256 as nat),
        -i64::MAX <= r <= i64::MAX,
{
    let divisor: u128 = 2 * (len256 as u128);
    if v >= 0 {
        part(v as u64, width, 256, divisor)
    } else {
        -part((-v) as u64, width, 256, divisor)
    }
}

/// The direction of corner `k` of the disk.
fn compass_of(k: usize) -> (r: (i64, i64))
    requires
        k < DISK_CORNERS,
    ensures
        r.0 == compass(k as int).0,
        r.1 == compass(k as int).1,
        -256 <= r.0 <= 256,
        -256 <= r.1 <= 256,
{
    match k {
        0 => (256, 0),
        1 => (237, -98),
        2 => (181, -181),
        3 => (98, -237),
        4 => (0, -256),
        5 => (-98, -237),
        6 => (-181, -181),
        7 => (-237, -98),
        8 => (-256, 0),
        9 => (-237, 98),
        10 => (-181, 181),
        11 => (-98, 237),
        12 => (0, 256),
        13 => (98, 237),
        14 => (181, 181),
        _ => (237, 98),
    }
}

/// The part `c / 256` of half the pen width.
fn reach_of(c: i64, width: u32) -> (r: i64)
    requires
        -256 <= c <= 256,
    ensures
        r == reach(c as int, width),
{
    if c >= 0 {
        part(c as u64, width, 1, 512)
    } else {
        -part((-c) as u64, width, 1, 512)
    }
}

/// Appends the disk of the pen at `center` to `out`.
fn disk_into(out: &mut Vec<Edge>, center: Point, width: u32)
    ensures
        final(out)@ == old(out)@ + polygon(disk_corners(center, width)),
{
    let mut corners: Vec<Point> = Vec::new();
    let mut k: usize = 0;
    while k < DISK_CORNERS
        invariant
            k <= DISK_CORNERS,
            corners@ == disk_corners(center, width).take(k as int),
        decreases DISK_CORNERS - k,
    {
        let (cx, cy) = compass_of(k);
        corners.push(shift(center, reach_of(cx, width), reach_of(cy, width)));
        assert(corners@ =~= disk_corners(center, width).take(k + 1));
        k += 1;
    }
    assert(disk_corners(center, width).take(DISK_CORNERS as int) =~= disk_corners(center, width));
    polygon_into(out, corners.as_slice());
}

/// 256 times the length of a segment, rounded down.
fn length256_of(seg: Edge) -> (len: u64)
    ensures
        len == length256(seg),
        seg.from != seg.to ==> len >= 256,
{
    let dx: i64 = seg.to.x as i64 - seg.from.x as i64;
    let dy: i64 = seg.to.y as i64 - seg.from.y as i64;
    let ax: u128 = if dx < 0 {
        (-dx) as u128
    } else {
        dx as u128
    };
    let ay: u128 = if dy < 0 {
        (-dy) as u128
    } else {
        dy as u128
    };
    assert(ax * ax <= 0xffff_ffff * 0xffff_ffff && ay * ay <= 0xffff_ffff * 0xffff_ffff
        && ax * ax == dx * dx && ay * ay == dy * dy) by (nonlinear_arith)
        requires
            0 <= ax <= 0xffff_ffff,
            0 <= ay <= 0xffff_ffff,
            ax == dx || ax == -dx,
            ay == dy || ay == -dy,
    ;
    let square: u128 = ax * ax + ay * ay;
    let len = isqrt(square * 65536);
    proof {
        if seg.from != seg.to {
            assert(square >= 1) by (nonlinear_arith)
                requires
                    square == ax * ax + ay * ay,
                    ax >= 1 || ay >= 1,
                    ax >= 0,
                    ay >= 0,
            ;
            if len < 256 {
                assert((len + 1) * (len + 1) <= 65536) by (nonlinear_arith)
                    requires
                        0 <= len < 256,
                ;
            }
        }
    }
    len
}

/// Appends the outline of what the pen covers along one segment to `out`.
fn piece_into(out: &mut Vec<Edge>, seg: Edge, width: u32)
    ensures
        final(out)@ == old(out)@ + piece(seg, width),
{
    if width == 0 || (seg.from.x == seg.to.x && seg.from.y == seg.to.y) {
        assert(out@ =~= old(out)@ + piece(seg, width));
        return ;
    }
    let dx: i64 = seg.to.x as i64 - seg.from.x as i64;
    let dy: i64 = seg.to.y as i64 - seg.from.y as i64;
    let len = length256_of(seg);
    let ox = scale(-dy, width, len);
    let oy = scale(dx, width, len);
    let mut corners: Vec<Point> = Vec::new();
    corners.push(shift(seg.from, ox, oy));
    corners.push(shift(seg.to, ox, oy));
    corners.push(shift(seg.to, -ox, -oy));
    corners.push(shift(seg.from, -ox, -oy));
    assert(corners@ =~= swept_corners(seg, width));
    polygon_into(out, corners.as_slice());
    disk_into(out, seg.from, width);
    disk_into(out, seg.to, width);
    assert(out@ =~= old(out)@ + piece(seg, width));
}

/// Appends the outline of what the pen covers along `segments` to `out`.
pub fn stroke_into(out: &mut Vec<Edge>, segments: &[Edge], width: u32)
    ensures
        final(out)@ == old(out)@ + stroke_outline(segments@, width),
{
    let n = segments.len();
    let mut i: usize = 0;
    assert(segments@.take(0) =~= Seq::<Edge>::empty());
    assert(out@ =~= old(out)@ + stroke_outline(segments@.take(0), width));
    while i < n
        invariant
            i <= n == segments@.len(),
            out@ == old(out)@ + stroke_outline(segments@.take(i as int), width),
        decreases n - i,
    {
        assert(segments@.take(i + 1).drop_last() =~= segments@.take(i as int));
        assert(segments@.take(i + 1).last() == segments@[i as int]);
        piece_into(out, segments[i], width);
        assert(out@ =~= old(out)@ + stroke_outline(segments@.take(i + 1), width));
        i += 1;
    }
    assert(segments@.take(n as int) =~= segments@);
}

} // verus!
