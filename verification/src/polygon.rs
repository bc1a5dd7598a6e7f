//! Closed polygons and what holds of their coverage whatever their shape:
//! running a polygon backwards covers the same pixels, and no pixel outside
//! the extent of the vertices is covered.
use crate::edge::coverage;
use crate::edge::rendering;
use crate::edge::sample_count;
use crate::edge::sample_pos;
use crate::edge::winding;
use crate::edge::Edge;
use crate::edge::FillRule;
use crate::edge::Point;
use crate::edge::UNIT;
use crate::mask::MaskView;
use vstd::prelude::*;

verus! {

/// The closed polygon through `vertices`: an edge from each vertex to the
/// next, and one from the last back to the first.
pub open spec fn polygon(vertices: Seq<Point>) -> Seq<Edge> {
    Seq::new(
        vertices.len(),
        |i: int|
            Edge {
                from: vertices[i],
                to: if i + 1 < vertices.len() {
                    vertices[i + 1]
                } else {
                    vertices[0]
                },
            },
    )
}

/// The edges run backwards: each edge reversed, the last edge first.
pub open spec fn backwards(edges: Seq<Edge>) -> Seq<Edge> {
    Seq::new(edges.len(), |i: int| edges[edges.len() - 1 - i].reversed())
}

/// The winding number of two lists of edges together is the sum of their
/// winding numbers.
pub proof fn lemma_winding_concat(a: Seq<Edge>, b: Seq<Edge>, px: int, py: int)
    ensures
        winding(a + b, px, py) == winding(a, px, py) + winding(b, px, py),
    decreases b.len(),
{
    if b.len() == 0 {
        assert(a + b =~= a);
    } else {
        assert((a + b).drop_last() =~= a + b.drop_last());
        assert((a + b).last() == b.last());
        lemma_winding_concat(a, b.drop_last(), px, py);
    }
}

/// The winding number of one edge is what that edge adds.
pub proof fn lemma_winding_single(edge: Edge, px: int, py: int)
    ensures
        winding(seq![edge], px, py) == edge.crossing(px, py),
{
    reveal_with_fuel(winding, 2);
    assert(seq![edge].drop_last() =~= Seq::<Edge>::empty());
}

/// Edges run backwards wind the other way round every point.
pub proof fn lemma_winding_backwards(edges: Seq<Edge>, px: int, py: int)
    ensures
        winding(backwards(edges), px, py) == -winding(edges, px, py),
    decreases edges.len(),
{
    if edges.len() > 0 {
        let rest = edges.drop_last();
        let last = edges.last();
        assert(backwards(edges) =~= seq![last.reversed()] + backwards(rest));
        lemma_winding_concat(seq![last.reversed()], backwards(rest), px, py);
        lemma_winding_backwards(rest, px, py);
        lemma_winding_single(last.reversed(), px, py);
        assert(last.reversed().crossing(px, py) == -last.crossing(px, py));
    }
}

/// Whether a point is inside does not depend on the sense of the winding.
pub proof fn lemma_covers_negated(rule: FillRule, winding: int)
    ensures
        rule.covers(-winding) == rule.covers(winding),
{
}

/// Edges run backwards cover every pixel as the edges themselves do, under
/// either rule.
pub proof fn lemma_coverage_backwards(edges: Seq<Edge>, rule: FillRule, x: int, y: int)
    ensures
        coverage(backwards(edges), rule, x, y) == coverage(edges, rule, x, y),
{
    assert forall|col: int, line: int|
        sample_count(backwards(edges), rule, col, line) == sample_count(
            edges,
            rule,
            col,
            line,
        ) by {
        lemma_winding_backwards(edges, sample_pos(col), sample_pos(line));
        lemma_covers_negated(rule, winding(edges, sample_pos(col), sample_pos(line)));
    }
}

/// The polygon through the vertices in reverse order winds the other way
/// round every point.
pub proof fn lemma_winding_reversed_polygon(vertices: Seq<Point>, px: int, py: int)
    ensures
        winding(polygon(vertices.reverse()), px, py) == -winding(polygon(vertices), px, py),
{
    let n = vertices.len() as int;
    if n > 0 {
        let forth = polygon(vertices);
        let back = polygon(vertices.reverse());
        let body = forth.drop_last();
        let closing = forth.last();
        assert(back =~= backwards(body).push(closing.reversed())) by {
            assert forall|i: int| 0 <= i < n implies back[i] == backwards(body).push(
                closing.reversed(),
            )[i] by {
            }
        }
        assert(back.drop_last() =~= backwards(body));
        lemma_winding_backwards(body, px, py);
        assert(closing.reversed().crossing(px, py) == -closing.crossing(px, py));
    } else {
        assert(polygon(vertices.reverse()) =~= polygon(vertices));
    }
}

/// A polygon covers every pixel alike whichever way round its vertices are
/// given, under either rule.
pub proof fn lemma_coverage_reversed_polygon(vertices: Seq<Point>, rule: FillRule, x: int, y: int)
    ensures
        coverage(polygon(vertices.reverse()), rule, x, y) == coverage(
            polygon(vertices),
            rule,
            x,
            y,
        ),
{
    assert forall|col: int, line: int|
        sample_count(polygon(vertices.reverse()), rule, col, line) == sample_count(
            polygon(vertices),
            rule,
            col,
            line,
        ) by {
        lemma_winding_reversed_polygon(vertices, sample_pos(col), sample_pos(line));
        lemma_covers_negated(rule, winding(polygon(vertices), sample_pos(col), sample_pos(line)));
    }
}

/// The rendering of a polygon does not depend on which way round its
/// vertices are given.
pub proof fn lemma_rendering_reversed_polygon(
    vertices: Seq<Point>,
    rule: FillRule,
    width: u32,
    height: u32,
)
    ensures
        rendering(polygon(vertices.reverse()), rule, width, height) == rendering(
            polygon(vertices),
            rule,
            width,
            height,
        ),
{
    let back = rendering(polygon(vertices.reverse()), rule, width, height);
    let forth = rendering(polygon(vertices), rule, width, height);
    assert forall|i: int| 0 <= i < back.pixels.len() implies back.pixels[i] == forth.pixels[i] by {
        lemma_coverage_reversed_polygon(vertices, rule, i % (width as int), i / (width as int));
    }
    assert(back.pixels =~= forth.pixels);
}

/// Without edges nothing is covered.
pub proof fn lemma_rendering_empty(rule: FillRule, width: u32, height: u32)
    ensures
        rendering(Seq::<Edge>::empty(), rule, width, height) == MaskView::zeroed(width, height),
{
    assert(rendering(Seq::<Edge>::empty(), rule, width, height).pixels =~= MaskView::zeroed(
        width,
        height,
    ).pixels);
}

/// Whether every vertex lies in the box from `(left, top)` to `(right, bottom)`.
pub open spec fn within(vertices: Seq<Point>, left: int, top: int, right: int, bottom: int) -> bool {
    forall|i: int|
        0 <= i < vertices.len() ==> left <= (#[trigger] vertices[i]).x <= right && top
            <= vertices[i].y <= bottom
}

/// One for a point at or above the line at `py`, zero for a point below it.
pub open spec fn level(p: Point, py: int) -> int {
    if p.y <= py {
        1
    } else {
        0
    }
}

/// An edge whose ends both lie at or left of `px` meets the ray from
/// `(px, py)` wherever it passes the line at `py`, and then adds the
/// difference of the levels of its ends to the winding number.
pub proof fn lemma_crossing_right_of(edge: Edge, px: int, py: int)
    requires
        edge.from.x <= px,
        edge.to.x <= px,
    ensures
        edge.crossing(px, py) == level(edge.from, py) - level(edge.to, py),
{
    let lo = edge.low();
    let hi = edge.high();
    if edge.spans(py) {
        let t = py - lo.y;
        let dy = hi.y - lo.y;
        let dx = hi.x - lo.x;
        let m = px - lo.x;
        assert(t * dx <= m * dy) by (nonlinear_arith)
            requires
                0 <= t < dy,
                dx <= m,
                0 <= m,
        ;
    }
}

/// An edge whose ends both lie right of `px` does not meet the ray from
/// `(px, py)`.
pub proof fn lemma_crossing_left_of(edge: Edge, px: int, py: int)
    requires
        px < edge.from.x,
        px < edge.to.x,
    ensures
        edge.crossing(px, py) == 0,
{
    let lo = edge.low();
    let hi = edge.high();
    if edge.spans(py) {
        let t = py - lo.y;
        let dy = hi.y - lo.y;
        let dx = hi.x - lo.x;
        let m = px - lo.x;
        assert(t * dx > m * dy) by (nonlinear_arith)
            requires
                0 <= t < dy,
                m < dx,
                m < 0,
        ;
    }
}

/// Right of all its vertices, the first `k` edges of a polygon wind as the
/// levels of the vertices that they lead from and to differ.
proof fn lemma_winding_right_of(vertices: Seq<Point>, px: int, py: int, k: int)
    requires
        0 <= k <= vertices.len(),
        forall|i: int| 0 <= i < vertices.len() ==> (#[trigger] vertices[i]).x <= px,
    ensures
        winding(polygon(vertices).take(k), px, py) == (if k == 0 || k == vertices.len() {
            0
        } else {
            level(vertices[0], py) - level(vertices[k], py)
        }),
    decreases k,
{
    let edges = polygon(vertices);
    if k > 0 {
        lemma_winding_right_of(vertices, px, py, k - 1);
        assert(edges.take(k).drop_last() =~= edges.take(k - 1));
        assert(edges.take(k).last() == edges[k - 1]);
        lemma_crossing_right_of(edges[k - 1], px, py);
    }
}

/// Outside the box of its vertices a polygon winds round no point.
pub proof fn lemma_winding_outside(
    vertices: Seq<Point>,
    px: int,
    py: int,
    left: int,
    top: int,
    right: int,
    bottom: int,
)
    requires
        within(vertices, left, top, right, bottom),
        px < left || px >= right || py < top || py >= bottom,
    ensures
        winding(polygon(vertices), px, py) == 0,
{
    let edges = polygon(vertices);
    if px >= right {
        lemma_winding_right_of(vertices, px, py, vertices.len() as int);
        assert(edges.take(vertices.len() as int) =~= edges);
    } else {
        assert forall|i: int| 0 <= i < edges.len() implies (#[trigger] edges[i]).crossing(px, py)
            == 0 by {
            let from = vertices[i];
            let to = if i + 1 < vertices.len() {
                vertices[i + 1]
            } else {
                vertices[0]
            };
            assert(edges[i].from == from && edges[i].to == to);
            if px < left {
                lemma_crossing_left_of(edges[i], px, py);
            }
        }
        lemma_winding_idle(edges, px, py);
    }
}

/// Edges that add nothing wind round nothing.
pub proof fn lemma_winding_idle(edges: Seq<Edge>, px: int, py: int)
    requires
        forall|i: int| 0 <= i < edges.len() ==> (#[trigger] edges[i]).crossing(px, py) == 0,
    ensures
        winding(edges, px, py) == 0,
    decreases edges.len(),
{
    if edges.len() > 0 {
        assert forall|i: int| 0 <= i < edges.drop_last().len() implies (#[trigger] edges.drop_last()[i]).crossing(
            px,
            py,
        ) == 0 by {
            assert(edges.drop_last()[i] == edges[i]);
        }
        lemma_winding_idle(edges.drop_last(), px, py);
    }
}

/// A polygon covers no pixel that lies outside the box of its vertices,
/// under either rule.
pub proof fn lemma_coverage_outside(
    vertices: Seq<Point>,
    rule: FillRule,
    x: int,
    y: int,
    left: int,
    top: int,
    right: int,
    bottom: int,
)
    requires
        within(vertices, left, top, right, bottom),
        UNIT * (x + 1) <= left || UNIT * x >= right || UNIT * (y + 1) <= top || UNIT * y >= bottom,
    ensures
        coverage(polygon(vertices), rule, x, y) == 0,
{
    assert forall|col: int, line: int|
        4 * x <= col < 4 * x + 4 && 4 * y <= line < 4 * y + 4 implies #[trigger] sample_count(
        polygon(vertices),
        rule,
        col,
        line,
    ) == 0 by {
        lemma_winding_outside(
            vertices,
            sample_pos(col),
            sample_pos(line),
            left,
            top,
            right,
            bottom,
        );
    }
}

} // verus!
