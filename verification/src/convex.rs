//! Where a point lies to the same side of every edge of a closed polygon, as
//! the points inside a convex polygon do, the polygon winds round it, and a
//! pixel that lies so is covered in full.
use crate::edge::coverage;
use crate::edge::sample_count;
use crate::edge::sample_pos;
use crate::edge::winding;
use crate::edge::Edge;
use crate::edge::FillRule;
use crate::edge::Point;
use crate::edge::UNIT;
use crate::polygon::level;
use crate::polygon::lemma_coverage_reversed_polygon;
use crate::polygon::lemma_winding_idle;
use crate::polygon::polygon;
use vstd::prelude::*;

verus! {

/// The cross product of the vectors `(ax, ay)` and `(bx, by)`.
pub open spec fn cross(ax: int, ay: int, bx: int, by: int) -> int {
    ax * by - ay * bx
}

/// On which side of `edge` the point `(px, py)` lies: positive on one side,
/// negative on the other, zero on the line through the edge.
pub open spec fn side(edge: Edge, px: int, py: int) -> int {
    cross(edge.to.x - edge.from.x, edge.to.y - edge.from.y, px - edge.from.x, py - edge.from.y)
}

/// Whether the polygon has an edge and the point lies on the positive side
/// of every edge.
pub open spec fn enclosed(vertices: Seq<Point>, px: int, py: int) -> bool {
    &&& vertices.len() >= 1
    &&& forall|i: int|
        0 <= i < vertices.len() ==> side(#[trigger] polygon(vertices)[i], px, py) > 0
}

/// One for an edge that passes the line at `py` towards larger `y`.
pub open spec fn rises(edge: Edge, py: int) -> int {
    if edge.from.y <= py < edge.to.y {
        1
    } else {
        0
    }
}

/// One for an edge that passes the line at `py` towards smaller `y`.
pub open spec fn falls(edge: Edge, py: int) -> int {
    if edge.to.y <= py < edge.from.y {
        1
    } else {
        0
    }
}

/// How many of `edges` pass the line at `py` towards larger `y`.
pub open spec fn rising(edges: Seq<Edge>, py: int) -> int
    decreases edges.len(),
{
    if edges.len() == 0 {
        0
    } else {
        rising(edges.drop_last(), py) + rises(edges.last(), py)
    }
}

/// How many of `edges` pass the line at `py` towards smaller `y`.
pub open spec fn falling(edges: Seq<Edge>, py: int) -> int
    decreases edges.len(),
{
    if edges.len() == 0 {
        0
    } else {
        falling(edges.drop_last(), py) + falls(edges.last(), py)
    }
}

/// The side of an edge, seen from the point: the cross product of the
/// vectors from the point to the two ends.
pub proof fn lemma_side_from_point(edge: Edge, px: int, py: int)
    ensures
        side(edge, px, py) == cross(
            edge.from.x - px,
            edge.from.y - py,
            edge.to.x - px,
            edge.to.y - py,
        ),
{
    let ax = edge.from.x - px;
    let ay = edge.from.y - py;
    let bx = edge.to.x - px;
    let by = edge.to.y - py;
    assert((bx - ax) * (-ay) - (by - ay) * (-ax) == ax * by - ay * bx) by (nonlinear_arith);
}

/// With the point on its positive side, an edge adds to the winding number
/// only where it passes the line of the point towards smaller `y`.
pub proof fn lemma_crossing_on_positive_side(edge: Edge, px: int, py: int)
    requires
        side(edge, px, py) > 0,
    ensures
        edge.crossing(px, py) == -falls(edge, py),
{
    let lo = edge.low();
    let hi = edge.high();
    let t = py - lo.y;
    let m = px - lo.x;
    let dx = hi.x - lo.x;
    let dy = hi.y - lo.y;
    if edge.from.y < edge.to.y {
        assert(side(edge, px, py) == dx * t - dy * m);
        assert(t * dx == dx * t && m * dy == dy * m) by (nonlinear_arith);
    } else if edge.from.y > edge.to.y {
        assert(side(edge, px, py) == (-dx) * (t - dy) - (-dy) * (m - dx));
        assert((-dx) * (t - dy) - (-dy) * (m - dx) == m * dy - t * dx) by (nonlinear_arith);
    }
}

/// With the point on the positive side of every edge, the winding number is
/// the number of edges that pass the line of the point towards smaller `y`,
/// taken negative.
pub proof fn lemma_winding_on_positive_side(edges: Seq<Edge>, px: int, py: int)
    requires
        forall|i: int| 0 <= i < edges.len() ==> side(#[trigger] edges[i], px, py) > 0,
    ensures
        winding(edges, px, py) == -falling(edges, py),
    decreases edges.len(),
{
    if edges.len() > 0 {
        assert forall|i: int| 0 <= i < edges.drop_last().len() implies side(
            #[trigger] edges.drop_last()[i],
            px,
            py,
        ) > 0 by {
            assert(edges.drop_last()[i] == edges[i]);
        }
        lemma_winding_on_positive_side(edges.drop_last(), px, py);
        assert(side(edges[edges.len() - 1], px, py) > 0);
        lemma_crossing_on_positive_side(edges.last(), px, py);
    }
}

/// Neither count is negative, and an edge that passes the line counts.
pub proof fn lemma_counts(edges: Seq<Edge>, py: int, i: int)
    requires
        0 <= i < edges.len(),
    ensures
        rising(edges, py) >= 0,
        falling(edges, py) >= 0,
        edges[i].spans(py) ==> rising(edges, py) + falling(edges, py) >= 1,
    decreases edges.len(),
{
    if edges.len() > 1 {
        let j = if i < edges.len() - 1 {
            i
        } else {
            0
        };
        lemma_counts(edges.drop_last(), py, j);
    }
    if edges.len() == 1 {
        assert(rising(edges.drop_last(), py) == 0);
        assert(falling(edges.drop_last(), py) == 0);
    }
}

/// As many edges of a closed polygon pass a line one way as the other: over
/// the first `k` edges the counts differ as the levels of the first vertex
/// and of the vertex reached.
proof fn lemma_passes_balance(vertices: Seq<Point>, py: int, k: int)
    requires
        0 <= k <= vertices.len(),
    ensures
        rising(polygon(vertices).take(k), py) - falling(polygon(vertices).take(k), py) == (if k
            == 0 || k == vertices.len() {
            0
        } else {
            level(vertices[0], py) - level(vertices[k], py)
        }),
    decreases k,
{
    let edges = polygon(vertices);
    if k > 0 {
        lemma_passes_balance(vertices, py, k - 1);
        assert(edges.take(k).drop_last() =~= edges.take(k - 1));
        assert(edges.take(k).last() == edges[k - 1]);
    }
}

/// Of three vectors that point to one side of a horizontal line, the first
/// turns towards the third the way it turns towards the second, if the
/// second turns that way towards the third.
proof fn lemma_cross_transitive(ax: int, ay: int, bx: int, by: int, cx: int, cy: int)
    requires
        cross(ax, ay, bx, by) > 0,
        cross(bx, by, cx, cy) > 0,
        (ay > 0 && by > 0 && cy > 0) || (ay < 0 && by < 0 && cy < 0),
    ensures
        cross(ax, ay, cx, cy) > 0,
{
    let ab = cross(ax, ay, bx, by);
    let bc = cross(bx, by, cx, cy);
    let ac = cross(ax, ay, cx, cy);
    assert(ac * by == ab * cy + bc * ay) by (nonlinear_arith)
        requires
            ab == ax * by - ay * bx,
            bc == bx * cy - by * cx,
            ac == ax * cy - ay * cx,
    ;
    if by > 0 {
        assert(ab * cy + bc * ay > 0) by (nonlinear_arith)
            requires
                ab > 0,
                bc > 0,
                cy > 0,
                ay > 0,
        ;
        assert(ac > 0) by (nonlinear_arith)
            requires
                ac * by > 0,
                by > 0,
        ;
    } else {
        assert(ab * cy + bc * ay < 0) by (nonlinear_arith)
            requires
                ab > 0,
                bc > 0,
                cy < 0,
                ay < 0,
        ;
        assert(ac > 0) by (nonlinear_arith)
            requires
                ac * by < 0,
                by < 0,
        ;
    }
}

/// Where no edge of a polygon passes the line at `py`, all its vertices lie
/// on one side of the line.
proof fn lemma_levels_equal(vertices: Seq<Point>, py: int, k: int)
    requires
        0 <= k < vertices.len(),
        forall|i: int| 0 <= i < vertices.len() ==> !(#[trigger] polygon(vertices)[i]).spans(py),
    ensures
        level(vertices[k], py) == level(vertices[0], py),
    decreases k,
{
    if k > 0 {
        lemma_levels_equal(vertices, py, k - 1);
        assert(!polygon(vertices)[k - 1].spans(py));
    }
}

/// Where the point lies on the positive side of every edge and no vertex
/// lies below the line of the point, no vertex lies on that line either.
proof fn lemma_vertex_off_line(vertices: Seq<Point>, px: int, py: int, i: int)
    requires
        enclosed(vertices, px, py),
        vertices.len() >= 2,
        0 <= i < vertices.len(),
        forall|j: int| 0 <= j < vertices.len() ==> (#[trigger] vertices[j]).y <= py,
    ensures
        vertices[i].y < py,
{
    let n = vertices.len() as int;
    let next = if i + 1 < n {
        i + 1
    } else {
        0
    };
    let prev = if i > 0 {
        i - 1
    } else {
        n - 1
    };
    let leaving = polygon(vertices)[i];
    let entering = polygon(vertices)[prev];
    assert(leaving.from == vertices[i] && leaving.to == vertices[next]);
    assert(entering.from == vertices[prev] && entering.to == vertices[i]);
    lemma_side_from_point(leaving, px, py);
    lemma_side_from_point(entering, px, py);
    assert(side(leaving, px, py) > 0);
    assert(side(entering, px, py) > 0);
    if vertices[i].y == py {
        let ax = vertices[i].x - px;
        let ny = vertices[next].y - py;
        let qy = vertices[prev].y - py;
        let nx = vertices[next].x - px;
        let qx = vertices[prev].x - px;
        assert(vertices[next].y <= py);
        assert(vertices[prev].y <= py);
        assert(cross(ax, 0, nx, ny) == ax * ny) by (nonlinear_arith);
        assert(cross(qx, qy, ax, 0) == -(qy * ax)) by (nonlinear_arith);
        assert(ax < 0) by (nonlinear_arith)
            requires
                ax * ny > 0,
                ny <= 0,
        ;
        assert(qy * ax >= 0) by (nonlinear_arith)
            requires
                qy <= 0,
                ax < 0,
        ;
    }
}

/// Where the point lies on the positive side of every edge and all vertices
/// lie strictly on one side of the line of the point, the first vertex turns
/// the positive way towards every other vertex, as seen from the point.
proof fn lemma_fan(vertices: Seq<Point>, px: int, py: int, k: int)
    requires
        enclosed(vertices, px, py),
        1 <= k < vertices.len(),
        (forall|j: int| 0 <= j < vertices.len() ==> (#[trigger] vertices[j]).y > py) || (forall|
            j: int,
        |
            0 <= j < vertices.len() ==> (#[trigger] vertices[j]).y < py),
    ensures
        cross(
            vertices[0].x - px,
            vertices[0].y - py,
            vertices[k].x - px,
            vertices[k].y - py,
        ) > 0,
    decreases k,
{
    let edge = polygon(vertices)[k - 1];
    assert(edge.from == vertices[k - 1] && edge.to == vertices[k]);
    assert(side(edge, px, py) > 0);
    lemma_side_from_point(edge, px, py);
    if k > 1 {
        lemma_fan(vertices, px, py, k - 1);
        assert(vertices[0].y > py || vertices[0].y < py);
        assert(vertices[k - 1].y > py || vertices[k - 1].y < py);
        assert(vertices[k].y > py || vertices[k].y < py);
        lemma_cross_transitive(
            vertices[0].x - px,
            vertices[0].y - py,
            vertices[k - 1].x - px,
            vertices[k - 1].y - py,
            vertices[k].x - px,
            vertices[k].y - py,
        );
    }
}

/// Where the point lies on the positive side of every edge of a polygon,
/// some edge passes the line of the point.
pub proof fn lemma_some_edge_passes(vertices: Seq<Point>, px: int, py: int)
    requires
        enclosed(vertices, px, py),
    ensures
        exists|i: int| 0 <= i < vertices.len() && (#[trigger] polygon(vertices)[i]).spans(py),
{
    let n = vertices.len() as int;
    let edges = polygon(vertices);
    if forall|i: int| 0 <= i < vertices.len() ==> !(#[trigger] polygon(vertices)[i]).spans(py) {
        let closing = edges[n - 1];
        assert(closing.from == vertices[n - 1] && closing.to == vertices[0]);
        assert(side(closing, px, py) > 0);
        lemma_side_from_point(closing, px, py);
        if n == 1 {
            assert(cross(
                vertices[0].x - px,
                vertices[0].y - py,
                vertices[0].x - px,
                vertices[0].y - py,
            ) == 0) by (nonlinear_arith);
        } else {
            assert forall|j: int| 0 <= j < n implies level(#[trigger] vertices[j], py) == level(
                vertices[0],
                py,
            ) by {
                lemma_levels_equal(vertices, py, j);
            }
            if level(vertices[0], py) == 1 {
                assert forall|j: int| 0 <= j < n implies (#[trigger] vertices[j]).y <= py by {
                    assert(level(vertices[j], py) == 1);
                }
                assert forall|j: int| 0 <= j < n implies (#[trigger] vertices[j]).y < py by {
                    lemma_vertex_off_line(vertices, px, py, j);
                }
            } else {
                assert forall|j: int| 0 <= j < n implies (#[trigger] vertices[j]).y > py by {
                    assert(level(vertices[j], py) == 0);
                }
            }
            lemma_fan(vertices, px, py, n - 1);
            let ax = vertices[0].x - px;
            let ay = vertices[0].y - py;
            let bx = vertices[n - 1].x - px;
            let by = vertices[n - 1].y - py;
            assert(cross(bx, by, ax, ay) == -cross(ax, ay, bx, by)) by (nonlinear_arith);
        }
    }
}

/// A polygon winds round every point that lies on the positive side of all
/// its edges.
pub proof fn lemma_winding_enclosed(vertices: Seq<Point>, px: int, py: int)
    requires
        enclosed(vertices, px, py),
    ensures
        winding(polygon(vertices), px, py) <= -1,
{
    let edges = polygon(vertices);
    lemma_winding_on_positive_side(edges, px, py);
    lemma_passes_balance(vertices, py, vertices.len() as int);
    assert(edges.take(vertices.len() as int) =~= edges);
    lemma_some_edge_passes(vertices, px, py);
    let i = choose|i: int| 0 <= i < vertices.len() && (#[trigger] polygon(vertices)[i]).spans(py);
    lemma_counts(edges, py, i);
}

/// Whether the four corners of the pixel at column `x` of row `y` lie on the
/// positive side of every edge of the polygon.
pub open spec fn pixel_enclosed(vertices: Seq<Point>, x: int, y: int) -> bool {
    &&& enclosed(vertices, UNIT * x, UNIT * y)
    &&& enclosed(vertices, UNIT * x + UNIT, UNIT * y)
    &&& enclosed(vertices, UNIT * x, UNIT * y + UNIT)
    &&& enclosed(vertices, UNIT * x + UNIT, UNIT * y + UNIT)
}

/// A point of a square lies on the positive side of an edge if the corners
/// of the square do.
proof fn lemma_side_in_square(edge: Edge, left: int, top: int, size: int, px: int, py: int)
    requires
        size > 0,
        left <= px <= left + size,
        top <= py <= top + size,
        side(edge, left, top) > 0,
        side(edge, left + size, top) > 0,
        side(edge, left, top + size) > 0,
        side(edge, left + size, top + size) > 0,
    ensures
        side(edge, px, py) > 0,
{
    let dx = edge.to.x - edge.from.x;
    let dy = edge.to.y - edge.from.y;
    let u = px - left;
    let v = py - top;
    let s00 = side(edge, left, top);
    let s10 = side(edge, left + size, top);
    let s01 = side(edge, left, top + size);
    let s = side(edge, px, py);
    assert(s10 == s00 - dy * size && s01 == s00 + dx * size && s == s00 - dy * u + dx * v) by (
        nonlinear_arith)
        requires
            s00 == dx * (top - edge.from.y) - dy * (left - edge.from.x),
            s10 == dx * (top - edge.from.y) - dy * (left + size - edge.from.x),
            s01 == dx * (top + size - edge.from.y) - dy * (left - edge.from.x),
            s == dx * (py - edge.from.y) - dy * (px - edge.from.x),
            u == px - left,
            v == py - top,
    ;
    let s11 = side(edge, left + size, top + size);
    assert(s11 == s00 - dy * size + dx * size) by (nonlinear_arith)
        requires
            s00 == dx * (top - edge.from.y) - dy * (left - edge.from.x),
            s11 == dx * (top + size - edge.from.y) - dy * (left + size - edge.from.x),
    ;
    assert(s * size > 0) by (nonlinear_arith)
        requires
            s == s00 - dy * u + dx * v,
            s00 > 0,
            s00 - dy * size > 0,
            s00 + dx * size > 0,
            s00 - dy * size + dx * size > 0,
            0 <= u <= size,
            0 <= v <= size,
            size > 0,
    ;
    assert(s > 0) by (nonlinear_arith)
        requires
            s * size > 0,
            size > 0,
    ;
}

/// Under the non-zero rule a polygon covers in full every pixel whose
/// corners lie on the positive side of all its edges.
proof fn lemma_coverage_on_positive_side(vertices: Seq<Point>, x: int, y: int)
    requires
        pixel_enclosed(vertices, x, y),
    ensures
        coverage(polygon(vertices), FillRule::NonZero, x, y) == 255,
{
    assert forall|col: int, line: int|
        4 * x <= col < 4 * x + 4 && 4 * y <= line < 4 * y + 4 implies #[trigger] sample_count(
        polygon(vertices),
        FillRule::NonZero,
        col,
        line,
    ) == 1 by {
        let px = sample_pos(col);
        let py = sample_pos(line);
        assert forall|i: int| 0 <= i < vertices.len() implies side(
            #[trigger] polygon(vertices)[i],
            px,
            py,
        ) > 0 by {
            lemma_side_in_square(polygon(vertices)[i], UNIT * x, UNIT * y, UNIT as int, px, py);
        }
        lemma_winding_enclosed(vertices, px, py);
    }
}

/// Under the non-zero rule a polygon covers in full every pixel whose
/// corners lie to the same side of all its edges, whichever way round the
/// vertices are given.
pub proof fn lemma_coverage_enclosed(vertices: Seq<Point>, x: int, y: int)
    requires
        pixel_enclosed(vertices, x, y) || pixel_enclosed(vertices.reverse(), x, y),
    ensures
        coverage(polygon(vertices), FillRule::NonZero, x, y) == 255,
{
    if pixel_enclosed(vertices, x, y) {
        lemma_coverage_on_positive_side(vertices, x, y);
    } else {
        lemma_coverage_on_positive_side(vertices.reverse(), x, y);
        lemma_coverage_reversed_polygon(vertices, FillRule::NonZero, x, y);
    }
}

/// On which side of `line` the point `p` lies.
pub open spec fn side_of(line: Edge, p: Point) -> int {
    side(line, p.x as int, p.y as int)
}

/// Whether every vertex lies on the positive side of `line` or on it.
pub open spec fn behind(vertices: Seq<Point>, line: Edge) -> bool {
    forall|j: int| 0 <= j < vertices.len() ==> side_of(line, #[trigger] vertices[j]) >= 0
}

/// Whether the polygon is convex: every vertex lies on the positive side of
/// every edge or on it.
pub open spec fn convex(vertices: Seq<Point>) -> bool {
    forall|i: int| 0 <= i < vertices.len() ==> behind(vertices, #[trigger] polygon(vertices)[i])
}

/// How far right of the place where `edge` passes the line at `py` the point
/// `(px, py)` lies, times the rise of the edge: negative left of the edge.
pub open spec fn lead(edge: Edge, px: int, py: int) -> int {
    (px - edge.low().x) * (edge.high().y - edge.low().y) - (py - edge.low().y) * (edge.high().x
        - edge.low().x)
}

/// Where both ends of an edge lie on the positive side of a line or on it,
/// so does the place where the edge passes the line at `py`: the side of
/// `(px, py)` differs from a non-negative value as the point leads the edge.
proof fn lemma_side_along_edge(line: Edge, edge: Edge, px: int, py: int)
    requires
        edge.spans(py),
        side_of(line, edge.low()) >= 0,
        side_of(line, edge.high()) >= 0,
    ensures
        (edge.high().y - edge.low().y) * side(line, px, py) + (line.to.y - line.from.y) * lead(
            edge,
            px,
            py,
        ) >= 0,
{
    let lo = edge.low();
    let hi = edge.high();
    let dy = hi.y - lo.y;
    let dx = hi.x - lo.x;
    let t = py - lo.y;
    let m = px - lo.x;
    let fx = line.from.x as int;
    let fy = line.from.y as int;
    let ex = line.to.x - line.from.x;
    let ey = line.to.y - line.from.y;
    let at_lo = side(line, lo.x as int, lo.y as int);
    let at_hi = side(line, hi.x as int, hi.y as int);
    let at_p = side(line, px, py);
    let lox = lo.x as int;
    let loy = lo.y as int;
    let a = loy - fy;
    let b = lox - fx;
    let turn = ex * dy - ey * dx;
    let step = ex * t - ey * m;
    assert(at_hi == at_lo + turn) by (nonlinear_arith)
        requires
            at_lo == ex * a - ey * b,
            at_hi == ex * (a + dy) - ey * (b + dx),
            turn == ex * dy - ey * dx,
    ;
    assert(at_p == at_lo + step) by (nonlinear_arith)
        requires
            at_lo == ex * a - ey * b,
            at_p == ex * (a + t) - ey * (b + m),
            step == ex * t - ey * m,
    ;
    assert(at_lo * (dy - t) + (at_lo + turn) * t == at_lo * dy + turn * t) by (nonlinear_arith);
    assert(dy * step + ey * (m * dy - t * dx) == turn * t) by (nonlinear_arith)
        requires
            step == ex * t - ey * m,
            turn == ex * dy - ey * dx,
    ;
    assert(dy * (at_lo + step) == at_lo * dy + dy * step) by (nonlinear_arith);
    assert(dy * at_p + ey * (m * dy - t * dx) == at_lo * (dy - t) + at_hi * t);
    assert(at_lo * (dy - t) + at_hi * t >= 0) by (nonlinear_arith)
        requires
            at_lo >= 0,
            at_hi >= 0,
            0 <= t < dy,
    ;
}

/// Between two places where edges of a polygon pass the line of a point, the
/// point lies on the positive side of every line that has the polygon behind
/// it, or on that line.
proof fn lemma_side_between(line: Edge, first: Edge, second: Edge, px: int, py: int)
    requires
        first.spans(py),
        second.spans(py),
        lead(first, px, py) >= 0,
        lead(second, px, py) <= 0,
        side_of(line, first.from) >= 0,
        side_of(line, first.to) >= 0,
        side_of(line, second.from) >= 0,
        side_of(line, second.to) >= 0,
    ensures
        side(line, px, py) >= 0,
{
    lemma_side_along_edge(line, first, px, py);
    lemma_side_along_edge(line, second, px, py);
    let ey = line.to.y - line.from.y;
    let s = side(line, px, py);
    if ey <= 0 {
        let dy = first.high().y - first.low().y;
        let k = lead(first, px, py);
        assert(s >= 0) by (nonlinear_arith)
            requires
                dy * s + ey * k >= 0,
                ey <= 0,
                k >= 0,
                dy > 0,
        ;
    } else {
        let dy = second.high().y - second.low().y;
        let k = lead(second, px, py);
        assert(s >= 0) by (nonlinear_arith)
            requires
                dy * s + ey * k >= 0,
                ey > 0,
                k <= 0,
                dy > 0,
        ;
    }
}

/// Where every edge of a polygon that passes the line of a point does so at
/// or left of the point, the first `k` edges wind as the levels of the
/// vertices that they lead from and to differ.
proof fn lemma_winding_all_met(vertices: Seq<Point>, px: int, py: int, k: int)
    requires
        0 <= k <= vertices.len(),
        forall|i: int|
            0 <= i < vertices.len() && (#[trigger] polygon(vertices)[i]).spans(py) ==> polygon(
                vertices,
            )[i].meets_ray(px, py),
    ensures
        winding(polygon(vertices).take(k), px, py) == (if k == 0 || k == vertices.len() {
            0
        } else {
            level(vertices[0], py) - level(vertices[k], py)
        }),
    decreases k,
{
    let edges = polygon(vertices);
    if k > 0 {
        lemma_winding_all_met(vertices, px, py, k - 1);
        assert(edges.take(k).drop_last() =~= edges.take(k - 1));
        assert(edges.take(k).last() == edges[k - 1]);
        assert(edges[k - 1].spans(py) ==> edges[k - 1].meets_ray(px, py));
    }
}

/// A polygon winds round no point that a line parts from it: with the
/// polygon behind the line and the point strictly before it.
pub proof fn lemma_winding_separated(vertices: Seq<Point>, px: int, py: int, line: Edge)
    requires
        behind(vertices, line),
        side(line, px, py) < 0,
    ensures
        winding(polygon(vertices), px, py) == 0,
{
    let n = vertices.len() as int;
    let edges = polygon(vertices);
    assert forall|i: int| 0 <= i < n implies side_of(line, (#[trigger] edges[i]).from) >= 0
        && side_of(line, edges[i].to) >= 0 by {
        let to = if i + 1 < n {
            i + 1
        } else {
            0
        };
        assert(edges[i].from == vertices[i] && edges[i].to == vertices[to]);
    }
    if exists|i: int| 0 <= i < n && (#[trigger] edges[i]).meets_ray(px, py) {
        let first = choose|i: int| 0 <= i < n && (#[trigger] edges[i]).meets_ray(px, py);
        assert(lead(edges[first], px, py) >= 0);
        assert forall|i: int| 0 <= i < n && (#[trigger] edges[i]).spans(py) implies edges[i].meets_ray(
            px,
            py,
        ) by {
            if !edges[i].meets_ray(px, py) {
                assert(lead(edges[i], px, py) <= 0);
                lemma_side_between(line, edges[first], edges[i], px, py);
            }
        }
        lemma_winding_all_met(vertices, px, py, n);
        assert(edges.take(n) =~= edges);
    } else {
        assert forall|i: int| 0 <= i < edges.len() implies (#[trigger] edges[i]).crossing(px, py)
            == 0 by {
        }
        lemma_winding_idle(edges, px, py);
    }
}

/// The side of a line run backwards is the other side.
proof fn lemma_side_reversed(line: Edge, px: int, py: int)
    ensures
        side(line.reversed(), px, py) == -side(line, px, py),
{
    let ex = line.to.x - line.from.x;
    let ey = line.to.y - line.from.y;
    let ux = px - line.from.x;
    let uy = py - line.from.y;
    assert((-ex) * (uy - ey) - (-ey) * (ux - ex) == -(ex * uy - ey * ux)) by (nonlinear_arith);
}

/// Whether the four corners of the pixel at column `x` of row `y` lie
/// strictly on the negative side of `line`.
pub open spec fn pixel_before(line: Edge, x: int, y: int) -> bool {
    &&& side(line, UNIT * x, UNIT * y) < 0
    &&& side(line, UNIT * x + UNIT, UNIT * y) < 0
    &&& side(line, UNIT * x, UNIT * y + UNIT) < 0
    &&& side(line, UNIT * x + UNIT, UNIT * y + UNIT) < 0
}

/// A polygon covers no pixel that a line parts from it, under either rule.
pub proof fn lemma_coverage_separated(
    vertices: Seq<Point>,
    rule: FillRule,
    x: int,
    y: int,
    line: Edge,
)
    requires
        behind(vertices, line),
        pixel_before(line, x, y),
    ensures
        coverage(polygon(vertices), rule, x, y) == 0,
{
    assert forall|col: int, row: int|
        4 * x <= col < 4 * x + 4 && 4 * y <= row < 4 * y + 4 implies #[trigger] sample_count(
        polygon(vertices),
        rule,
        col,
        row,
    ) == 0 by {
        let px = sample_pos(col);
        let py = sample_pos(row);
        lemma_side_reversed(line, UNIT * x, UNIT * y);
        lemma_side_reversed(line, UNIT * x + UNIT, UNIT * y);
        lemma_side_reversed(line, UNIT * x, UNIT * y + UNIT);
        lemma_side_reversed(line, UNIT * x + UNIT, UNIT * y + UNIT);
        lemma_side_reversed(line, px, py);
        lemma_side_in_square(line.reversed(), UNIT * x, UNIT * y, UNIT as int, px, py);
        lemma_winding_separated(vertices, px, py, line);
    }
}

/// A convex polygon covers no pixel that lies strictly beyond one of its
/// edges, under either rule.
pub proof fn lemma_coverage_beyond_edge(
    vertices: Seq<Point>,
    rule: FillRule,
    x: int,
    y: int,
    i: int,
)
    requires
        convex(vertices),
        0 <= i < vertices.len(),
        pixel_before(polygon(vertices)[i], x, y),
    ensures
        coverage(polygon(vertices), rule, x, y) == 0,
{
    lemma_coverage_separated(vertices, rule, x, y, polygon(vertices)[i]);
}

} // verus!
