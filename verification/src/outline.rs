//! What holds of the outline that is filled for a path: it is closed, so that
//! every line is passed one way as often as the other, it stays in the box of
//! the points of the path, and it covers no pixel outside that box.
use crate::edge::coverage;
use crate::edge::sample_count;
use crate::edge::sample_pos;
use crate::edge::winding;
use crate::edge::Edge;
use crate::edge::FillRule;
use crate::edge::Point;
use crate::edge::UNIT;
use crate::path::edges_in_box;
use crate::path::in_box;
use crate::path::is_chain;
use crate::path::lemma_edges_in_box_concat;
use crate::path::lemma_flatten_cubic;
use crate::path::lemma_flatten_cubic_in_box;
use crate::path::lemma_flatten_quad;
use crate::path::lemma_flatten_quad_in_box;
use crate::path::pen_after;
use crate::path::step;
use crate::path::traced;
use crate::path::PathOp;
use crate::path::PathView;
use crate::path::Pen;
use crate::path::MAX_DEPTH;
use crate::polygon::lemma_crossing_left_of;
use crate::polygon::lemma_crossing_right_of;
use crate::polygon::lemma_winding_idle;
use crate::polygon::level;
use vstd::prelude::*;

verus! {

/// How far the edges lead across the line at `py`: the sum over the edges of
/// the level of the end that an edge leads from less the level of the end
/// that it leads to.
pub open spec fn drift(edges: Seq<Edge>, py: int) -> int
    decreases edges.len(),
{
    if edges.len() == 0 {
        0
    } else {
        drift(edges.drop_last(), py) + level(edges.last().from, py) - level(edges.last().to, py)
    }
}

/// The drift of two lists of edges together is the sum of their drifts.
pub proof fn lemma_drift_concat(a: Seq<Edge>, b: Seq<Edge>, py: int)
    ensures
        drift(a + b, py) == drift(a, py) + drift(b, py),
    decreases b.len(),
{
    if b.len() == 0 {
        assert(a + b =~= a);
    } else {
        assert((a + b).drop_last() =~= a + b.drop_last());
        assert((a + b).last() == b.last());
        lemma_drift_concat(a, b.drop_last(), py);
    }
}

/// The drift of one edge.
pub proof fn lemma_drift_single(edge: Edge, py: int)
    ensures
        drift(seq![edge], py) == level(edge.from, py) - level(edge.to, py),
{
    reveal_with_fuel(drift, 2);
    assert(seq![edge].drop_last() =~= Seq::<Edge>::empty());
}

/// A chain drifts as its two ends differ in level.
pub proof fn lemma_drift_chain(edges: Seq<Edge>, from: Point, to: Point, py: int)
    requires
        is_chain(edges, from, to),
    ensures
        drift(edges, py) == level(from, py) - level(to, py),
    decreases edges.len(),
{
    if edges.len() == 1 {
        assert(edges =~= seq![edges[0]]);
        lemma_drift_single(edges[0], py);
    } else {
        let rest = edges.drop_last();
        let joint = edges[edges.len() - 2].to;
        assert(edges[edges.len() - 2].to == edges[edges.len() - 1].from);
        assert(is_chain(rest, from, joint)) by {
            assert forall|i: int| 0 <= i < rest.len() - 1 implies (#[trigger] rest[i]).to == rest[i
                + 1].from by {
                assert(edges[i].to == edges[i + 1].from);
            }
        }
        lemma_drift_chain(rest, from, joint, py);
    }
}

/// What a command adds to a traced path drifts as the pen before and after
/// the command say: together with the way from the start of the sub-path to
/// the pen, it makes the way from the start of the sub-path to the pen again.
pub proof fn lemma_drift_step(pen: Pen, op: PathOp, relative: bool, tolerance: u32, py: int)
    ensures
        level(pen.start, py) - level(pen.at, py) + drift(
            step(pen, op, relative, tolerance, true),
            py,
        ) == level(pen.after(op, relative).start, py) - level(pen.after(op, relative).at, py),
{
    let edges = step(pen, op, relative, tolerance, true);
    let next = pen.after(op, relative);
    match op {
        PathOp::MoveTo(_) => {
            if pen.at != pen.start {
                lemma_drift_single(pen.way_back(), py);
            }
        },
        PathOp::LineTo(_) => {
            lemma_drift_single(edges[0], py);
            assert(edges =~= seq![edges[0]]);
        },
        PathOp::QuadTo(c, p) => {
            lemma_flatten_quad(
                pen.at,
                crate::path::place(pen.at, c, relative),
                next.at,
                tolerance,
                MAX_DEPTH as nat,
            );
            lemma_drift_chain(edges, pen.at, next.at, py);
        },
        PathOp::CubicTo(c1, c2, p) => {
            lemma_flatten_cubic(
                pen.at,
                crate::path::place(pen.at, c1, relative),
                crate::path::place(pen.at, c2, relative),
                next.at,
                tolerance,
                MAX_DEPTH as nat,
            );
            lemma_drift_chain(edges, pen.at, next.at, py);
        },
        PathOp::Close => {
            lemma_drift_single(pen.way_back(), py);
            assert(edges =~= seq![pen.way_back()]);
        },
    }
}

/// A path traced with its sub-paths closed drifts as the start of the last
/// sub-path and the pen differ in level.
pub proof fn lemma_drift_traced(ops: Seq<PathOp>, relative: bool, tolerance: u32, py: int)
    ensures
        drift(traced(ops, relative, tolerance, true), py) == level(
            pen_after(ops, relative).start,
            py,
        ) - level(pen_after(ops, relative).at, py),
    decreases ops.len(),
{
    if ops.len() > 0 {
        let pen = pen_after(ops.drop_last(), relative);
        lemma_drift_traced(ops.drop_last(), relative, tolerance, py);
        lemma_drift_concat(
            traced(ops.drop_last(), relative, tolerance, true),
            step(pen, ops.last(), relative, tolerance, true),
            py,
        );
        lemma_drift_step(pen, ops.last(), relative, tolerance, py);
    }
}

/// The outline of a path is closed: it passes every line one way as often as
/// the other.
pub proof fn lemma_outline_closed(path: PathView, tolerance: u32, py: int)
    ensures
        drift(path.outline(tolerance), py) == 0,
{
    if path.well_formed() {
        let pen = pen_after(path.ops, path.relative);
        lemma_drift_traced(path.ops, path.relative, tolerance, py);
        lemma_drift_concat(traced(path.ops, path.relative, tolerance, true), pen.closure(), py);
        if pen.at != pen.start {
            lemma_drift_single(pen.way_back(), py);
        }
    }
}

/// Whether every point of the command lies in the box.
pub open spec fn op_in_box(op: PathOp, left: int, top: int, right: int, bottom: int) -> bool {
    match op {
        PathOp::MoveTo(p) => in_box(p, left, top, right, bottom),
        PathOp::LineTo(p) => in_box(p, left, top, right, bottom),
        PathOp::QuadTo(c, p) => in_box(c, left, top, right, bottom) && in_box(
            p,
            left,
            top,
            right,
            bottom,
        ),
        PathOp::CubicTo(c1, c2, p) => in_box(c1, left, top, right, bottom) && in_box(
            c2,
            left,
            top,
            right,
            bottom,
        ) && in_box(p, left, top, right, bottom),
        PathOp::Close => true,
    }
}

/// Whether the points of the path are places that all lie in the box.
pub open spec fn path_in_box(path: PathView, left: int, top: int, right: int, bottom: int) -> bool {
    &&& !path.relative
    &&& forall|i: int|
        0 <= i < path.ops.len() ==> op_in_box(#[trigger] path.ops[i], left, top, right, bottom)
}

/// Whether the pen and the start of its sub-path lie in the box.
pub open spec fn pen_in_box(pen: Pen, left: int, top: int, right: int, bottom: int) -> bool {
    in_box(pen.start, left, top, right, bottom) && in_box(pen.at, left, top, right, bottom)
}

/// With the pen in the box, or still where it began, a command whose points
/// lie in the box adds edges in the box only, and leaves the pen in the box
/// if it is a move or the pen was there.
proof fn lemma_step_in_box(
    pen: Pen,
    op: PathOp,
    tolerance: u32,
    left: int,
    top: int,
    right: int,
    bottom: int,
)
    requires
        op_in_box(op, left, top, right, bottom),
        pen_in_box(pen, left, top, right, bottom) || (pen.at == pen.start && op is MoveTo),
    ensures
        edges_in_box(step(pen, op, false, tolerance, true), left, top, right, bottom),
        pen_in_box(pen.after(op, false), left, top, right, bottom),
{
    match op {
        PathOp::QuadTo(c, p) => {
            lemma_flatten_quad_in_box(
                pen.at,
                c,
                p,
                tolerance,
                MAX_DEPTH as nat,
                left,
                top,
                right,
                bottom,
            );
        },
        PathOp::CubicTo(c1, c2, p) => {
            lemma_flatten_cubic_in_box(
                pen.at,
                c1,
                c2,
                p,
                tolerance,
                MAX_DEPTH as nat,
                left,
                top,
                right,
                bottom,
            );
        },
        _ => {},
    }
}

/// The edges of a well-formed path whose points lie in a box lie in the box,
/// and so does the pen after them.
proof fn lemma_traced_in_box(
    ops: Seq<PathOp>,
    tolerance: u32,
    left: int,
    top: int,
    right: int,
    bottom: int,
)
    requires
        ops.len() > 0,
        ops[0] is MoveTo,
        forall|i: int| 0 <= i < ops.len() ==> op_in_box(#[trigger] ops[i], left, top, right, bottom),
    ensures
        edges_in_box(traced(ops, false, tolerance, true), left, top, right, bottom),
        pen_in_box(pen_after(ops, false), left, top, right, bottom),
    decreases ops.len(),
{
    let before = ops.drop_last();
    let pen = pen_after(before, false);
    assert(op_in_box(ops[ops.len() - 1], left, top, right, bottom));
    if ops.len() == 1 {
        reveal_with_fuel(traced, 2);
        reveal_with_fuel(pen_after, 2);
        assert(before =~= Seq::<PathOp>::empty());
        assert(pen == Pen::origin());
        lemma_step_in_box(pen, ops.last(), tolerance, left, top, right, bottom);
        assert(traced(ops, false, tolerance, true) =~= step(
            pen,
            ops.last(),
            false,
            tolerance,
            true,
        ));
    } else {
        assert(before[0] == ops[0]);
        assert forall|i: int| 0 <= i < before.len() implies op_in_box(
            #[trigger] before[i],
            left,
            top,
            right,
            bottom,
        ) by {
            assert(before[i] == ops[i]);
        }
        lemma_traced_in_box(before, tolerance, left, top, right, bottom);
        lemma_step_in_box(pen, ops.last(), tolerance, left, top, right, bottom);
        lemma_edges_in_box_concat(
            traced(before, false, tolerance, true),
            step(pen, ops.last(), false, tolerance, true),
            left,
            top,
            right,
            bottom,
        );
    }
}

/// The outline of a path whose points are places in a box lies in the box.
pub proof fn lemma_outline_in_box(
    path: PathView,
    tolerance: u32,
    left: int,
    top: int,
    right: int,
    bottom: int,
)
    requires
        path_in_box(path, left, top, right, bottom),
    ensures
        edges_in_box(path.outline(tolerance), left, top, right, bottom),
{
    if path.well_formed() {
        lemma_traced_in_box(path.ops, tolerance, left, top, right, bottom);
        lemma_edges_in_box_concat(
            traced(path.ops, false, tolerance, true),
            pen_after(path.ops, false).closure(),
            left,
            top,
            right,
            bottom,
        );
    }
}

/// Edges that lie at or left of a point wind round it as they drift across
/// its line.
pub proof fn lemma_winding_beyond(edges: Seq<Edge>, px: int, py: int)
    requires
        forall|i: int|
            0 <= i < edges.len() ==> (#[trigger] edges[i]).from.x <= px && edges[i].to.x <= px,
    ensures
        winding(edges, px, py) == drift(edges, py),
    decreases edges.len(),
{
    if edges.len() > 0 {
        assert forall|i: int| 0 <= i < edges.drop_last().len() implies (
        #[trigger] edges.drop_last()[i]).from.x <= px && edges.drop_last()[i].to.x <= px by {
            assert(edges.drop_last()[i] == edges[i]);
        }
        lemma_winding_beyond(edges.drop_last(), px, py);
        assert(edges[edges.len() - 1].from.x <= px);
        lemma_crossing_right_of(edges.last(), px, py);
    }
}

/// Closed edges in a box wind round no point outside the box.
pub proof fn lemma_winding_outside_box(
    edges: Seq<Edge>,
    px: int,
    py: int,
    left: int,
    top: int,
    right: int,
    bottom: int,
)
    requires
        edges_in_box(edges, left, top, right, bottom),
        drift(edges, py) == 0,
        px < left || px >= right || py < top || py >= bottom,
    ensures
        winding(edges, px, py) == 0,
{
    if px >= right {
        lemma_winding_beyond(edges, px, py);
    } else {
        assert forall|i: int| 0 <= i < edges.len() implies (#[trigger] edges[i]).crossing(px, py)
            == 0 by {
            assert(in_box(edges[i].from, left, top, right, bottom));
            if px < left {
                lemma_crossing_left_of(edges[i], px, py);
            }
        }
        lemma_winding_idle(edges, px, py);
    }
}

/// Filling a path covers no pixel outside a box that holds the points of the
/// path, under either rule and whatever the tolerance.
pub proof fn lemma_fill_outside(
    path: PathView,
    rule: FillRule,
    tolerance: u32,
    x: int,
    y: int,
    left: int,
    top: int,
    right: int,
    bottom: int,
)
    requires
        path_in_box(path, left, top, right, bottom),
        UNIT * (x + 1) <= left || UNIT * x >= right || UNIT * (y + 1) <= top || UNIT * y >= bottom,
    ensures
        coverage(path.outline(tolerance), rule, x, y) == 0,
{
    let edges = path.outline(tolerance);
    lemma_outline_in_box(path, tolerance, left, top, right, bottom);
    assert forall|col: int, line: int|
        4 * x <= col < 4 * x + 4 && 4 * y <= line < 4 * y + 4 implies #[trigger] sample_count(
        edges,
        rule,
        col,
        line,
    ) == 0 by {
        lemma_outline_closed(path, tolerance, sample_pos(line));
        lemma_winding_outside_box(
            edges,
            sample_pos(col),
            sample_pos(line),
            left,
            top,
            right,
            bottom,
        );
    }
}

} // verus!
