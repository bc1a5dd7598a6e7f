//! Paths of lines and Bézier curves, and how a path is flattened into the
//! line segments that are filled or stroked.
use crate::arith::clamp;
use crate::arith::lemma_pow2_positive;
use crate::arith::pow2;
use crate::edge::Edge;
use crate::edge::Point;
use vstd::prelude::*;

verus! {

/// How often a curve is halved at most before what is left of it is taken
/// for straight.
pub const MAX_DEPTH: u32 = 16;

/// One drawing command of a path.
#[derive(Clone, Copy, Debug, PartialEq, Eq, Structural)]
pub enum PathOp {
    /// Starts a new sub-path at the point.
    MoveTo(Point),
    /// Draws a straight line to the point.
    LineTo(Point),
    /// Draws a quadratic Bézier curve with one control point to the end point.
    QuadTo(Point, Point),
    /// Draws a cubic Bézier curve with two control points to the end point.
    CubicTo(Point, Point, Point),
    /// Ends the sub-path with a line back to where it started.
    Close,
}

/// Where the pen is while a path is walked: the start of the sub-path at work
/// and the place that the last command ended at.
#[derive(Clone, Copy, Debug, PartialEq, Eq, Structural)]
pub struct Pen {
    pub start: Point,
    pub at: Point,
}

/// The mathematical content of a [`Path`].
pub struct PathView {
    pub ops: Seq<PathOp>,
    pub pen_width: u32,
    pub relative: bool,
}

/// An ordered sequence of drawing commands, with the width of the pen that
/// strokes them and the coordinate mode: in absolute mode the points of a
/// command are places, in relative mode they are steps from the place that
/// the command before ended at.
#[derive(Debug)]
pub struct Path {
    ops: Vec<PathOp>,
    pen_width: u32,
    relative: bool,
}

impl View for Path {
    type V = PathView;

    closed spec fn view(&self) -> PathView {
        PathView { ops: self.ops@, pen_width: self.pen_width, relative: self.relative }
    }
}

/// The place that `p` names for a pen at `at`: `p` itself in absolute mode,
/// the step `p` from `at` in relative mode.
pub open spec fn place(at: Point, p: Point, relative: bool) -> Point {
    if relative {
        Point { x: clamp(at.x + p.x), y: clamp(at.y + p.y) }
    } else {
        p
    }
}

/// The point half way between `a` and `b`, rounded towards smaller
/// coordinates.
pub open spec fn midpoint(a: Point, b: Point) -> Point {
    Point { x: ((a.x + b.x) / 2) as i32, y: ((a.y + b.y) / 2) as i32 }
}

/// How far `b` lies from the middle between `a` and `c`, twice over: the
/// larger of the two coordinates of `a - 2 b + c`, without sign.
pub open spec fn bend(a: Point, b: Point, c: Point) -> int {
    let dx = a.x - 2 * b.x + c.x;
    let dy = a.y - 2 * b.y + c.y;
    let ax = if dx < 0 { -dx } else { dx };
    let ay = if dy < 0 { -dy } else { dy };
    if ax > ay { ax } else { ay }
}

/// Whether a quadratic curve is taken for straight: such a curve strays from
/// its chord by a quarter of its bend at most.
pub open spec fn quad_is_flat(p0: Point, c: Point, p1: Point, tolerance: u32) -> bool {
    bend(p0, c, p1) <= 4 * tolerance
}

/// Whether a cubic curve is taken for straight: such a curve strays from its
/// chord by three quarters of its larger bend at most.
pub open spec fn cubic_is_flat(p0: Point, c1: Point, c2: Point, p1: Point, tolerance: u32) -> bool {
    3 * bend(p0, c1, c2) <= 4 * tolerance && 3 * bend(c1, c2, p1) <= 4 * tolerance
}

/// The line segments that stand for a quadratic curve: the chord where the
/// curve is flat or may not be halved again, else the segments of its two
/// halves.
pub open spec fn flatten_quad(p0: Point, c: Point, p1: Point, tolerance: u32, depth: nat) -> Seq<
    Edge,
>
    decreases depth,
{
    if depth == 0 || quad_is_flat(p0, c, p1, tolerance) {
        seq![Edge { from: p0, to: p1 }]
    } else {
        let l = midpoint(p0, c);
        let r = midpoint(c, p1);
        let m = midpoint(l, r);
        flatten_quad(p0, l, m, tolerance, (depth - 1) as nat) + flatten_quad(
            m,
            r,
            p1,
            tolerance,
            (depth - 1) as nat,
        )
    }
}

/// The line segments that stand for a cubic curve: the chord where the curve
/// is flat or may not be halved again, else the segments of its two halves.
pub open spec fn flatten_cubic(
    p0: Point,
    c1: Point,
    c2: Point,
    p1: Point,
    tolerance: u32,
    depth: nat,
) -> Seq<Edge>
    decreases depth,
{
    if depth == 0 || cubic_is_flat(p0, c1, c2, p1, tolerance) {
        seq![Edge { from: p0, to: p1 }]
    } else {
        let ab = midpoint(p0, c1);
        let bc = midpoint(c1, c2);
        let cd = midpoint(c2, p1);
        let abc = midpoint(ab, bc);
        let bcd = midpoint(bc, cd);
        let m = midpoint(abc, bcd);
        flatten_cubic(p0, ab, abc, m, tolerance, (depth - 1) as nat) + flatten_cubic(
            m,
            bcd,
            cd,
            p1,
            tolerance,
            (depth - 1) as nat,
        )
    }
}

/// Whether `edges` form one chain from `from` to `to`: the first edge starts
/// at `from`, each edge starts where the one before it ends, and the last
/// edge ends at `to`.
pub open spec fn is_chain(edges: Seq<Edge>, from: Point, to: Point) -> bool {
    &&& edges.len() >= 1
    &&& edges.first().from == from
    &&& edges.last().to == to
    &&& forall|i: int| 0 <= i < edges.len() - 1 ==> (#[trigger] edges[i]).to == edges[i + 1].from
}

/// Whether the point lies in the box from `(left, top)` to `(right, bottom)`.
pub open spec fn in_box(p: Point, left: int, top: int, right: int, bottom: int) -> bool {
    left <= p.x <= right && top <= p.y <= bottom
}

/// Whether both ends of every edge lie in the box.
pub open spec fn edges_in_box(edges: Seq<Edge>, left: int, top: int, right: int, bottom: int) -> bool {
    forall|i: int|
        0 <= i < edges.len() ==> in_box((#[trigger] edges[i]).from, left, top, right, bottom)
            && in_box(edges[i].to, left, top, right, bottom)
}

/// The point half way between two points of a box lies in the box.
pub proof fn lemma_midpoint_in_box(
    a: Point,
    b: Point,
    left: int,
    top: int,
    right: int,
    bottom: int,
)
    requires
        in_box(a, left, top, right, bottom),
        in_box(b, left, top, right, bottom),
    ensures
        in_box(midpoint(a, b), left, top, right, bottom),
{
}

/// Edges in a box, followed by edges in that box, are edges in that box.
pub proof fn lemma_edges_in_box_concat(
    a: Seq<Edge>,
    b: Seq<Edge>,
    left: int,
    top: int,
    right: int,
    bottom: int,
)
    requires
        edges_in_box(a, left, top, right, bottom),
        edges_in_box(b, left, top, right, bottom),
    ensures
        edges_in_box(a + b, left, top, right, bottom),
{
    assert forall|i: int| 0 <= i < (a + b).len() implies in_box(
        (#[trigger] (a + b)[i]).from,
        left,
        top,
        right,
        bottom,
    ) && in_box((a + b)[i].to, left, top, right, bottom) by {
        if i < a.len() {
            assert((a + b)[i] == a[i]);
        } else {
            assert((a + b)[i] == b[i - a.len()]);
        }
    }
}

/// The segments of a quadratic curve stay in every box that holds its three
/// points.
pub proof fn lemma_flatten_quad_in_box(
    p0: Point,
    c: Point,
    p1: Point,
    tolerance: u32,
    depth: nat,
    left: int,
    top: int,
    right: int,
    bottom: int,
)
    requires
        in_box(p0, left, top, right, bottom),
        in_box(c, left, top, right, bottom),
        in_box(p1, left, top, right, bottom),
    ensures
        edges_in_box(flatten_quad(p0, c, p1, tolerance, depth), left, top, right, bottom),
    decreases depth,
{
    if depth == 0 || quad_is_flat(p0, c, p1, tolerance) {
        assert(flatten_quad(p0, c, p1, tolerance, depth) =~= seq![Edge { from: p0, to: p1 }]);
    } else {
        let l = midpoint(p0, c);
        let r = midpoint(c, p1);
        let m = midpoint(l, r);
        lemma_midpoint_in_box(p0, c, left, top, right, bottom);
        lemma_midpoint_in_box(c, p1, left, top, right, bottom);
        lemma_midpoint_in_box(l, r, left, top, right, bottom);
        let before = (depth - 1) as nat;
        lemma_flatten_quad_in_box(p0, l, m, tolerance, before, left, top, right, bottom);
        lemma_flatten_quad_in_box(m, r, p1, tolerance, before, left, top, right, bottom);
        lemma_edges_in_box_concat(
            flatten_quad(p0, l, m, tolerance, before),
            flatten_quad(m, r, p1, tolerance, before),
            left,
            top,
            right,
            bottom,
        );
    }
}

/// The segments of a cubic curve stay in every box that holds its four
/// points.
pub proof fn lemma_flatten_cubic_in_box(
    p0: Point,
    c1: Point,
    c2: Point,
    p1: Point,
    tolerance: u32,
    depth: nat,
    left: int,
    top: int,
    right: int,
    bottom: int,
)
    requires
        in_box(p0, left, top, right, bottom),
        in_box(c1, left, top, right, bottom),
        in_box(c2, left, top, right, bottom),
        in_box(p1, left, top, right, bottom),
    ensures
        edges_in_box(flatten_cubic(p0, c1, c2, p1, tolerance, depth), left, top, right, bottom),
    decreases depth,
{
    if depth == 0 || cubic_is_flat(p0, c1, c2, p1, tolerance) {
        assert(flatten_cubic(p0, c1, c2, p1, tolerance, depth) =~= seq![
            Edge { from: p0, to: p1 },
        ]);
    } else {
        let ab = midpoint(p0, c1);
        let bc = midpoint(c1, c2);
        let cd = midpoint(c2, p1);
        let abc = midpoint(ab, bc);
        let bcd = midpoint(bc, cd);
        let m = midpoint(abc, bcd);
        lemma_midpoint_in_box(p0, c1, left, top, right, bottom);
        lemma_midpoint_in_box(c1, c2, left, top, right, bottom);
        lemma_midpoint_in_box(c2, p1, left, top, right, bottom);
        lemma_midpoint_in_box(ab, bc, left, top, right, bottom);
        lemma_midpoint_in_box(bc, cd, left, top, right, bottom);
        lemma_midpoint_in_box(abc, bcd, left, top, right, bottom);
        let before = (depth - 1) as nat;
        lemma_flatten_cubic_in_box(p0, ab, abc, m, tolerance, before, left, top, right, bottom);
        lemma_flatten_cubic_in_box(m, bcd, cd, p1, tolerance, before, left, top, right, bottom);
        lemma_edges_in_box_concat(
            flatten_cubic(p0, ab, abc, m, tolerance, before),
            flatten_cubic(m, bcd, cd, p1, tolerance, before),
            left,
            top,
            right,
            bottom,
        );
    }
}

/// Two chains that meet make one chain.
pub proof fn lemma_chain_join(a: Seq<Edge>, b: Seq<Edge>, from: Point, mid: Point, to: Point)
    requires
        is_chain(a, from, mid),
        is_chain(b, mid, to),
    ensures
        is_chain(a + b, from, to),
{
    let both = a + b;
    assert forall|i: int| 0 <= i < both.len() - 1 implies (#[trigger] both[i]).to == both[i
        + 1].from by {
        if i < a.len() - 1 {
            assert(a[i].to == a[i + 1].from);
        } else if i == a.len() - 1 {
            assert(both[i] == a.last());
            assert(both[i + 1] == b.first());
        } else {
            assert(b[i - a.len()].to == b[i - a.len() + 1].from);
        }
    }
}

/// The segments of a quadratic curve form a chain from its start to its end,
/// of no more segments than the halvings allow. A curve whose points all
/// coincide is one segment.
pub proof fn lemma_flatten_quad(p0: Point, c: Point, p1: Point, tolerance: u32, depth: nat)
    ensures
        is_chain(flatten_quad(p0, c, p1, tolerance, depth), p0, p1),
        flatten_quad(p0, c, p1, tolerance, depth).len() <= pow2(depth),
        p0 == c && c == p1 ==> flatten_quad(p0, c, p1, tolerance, depth).len() == 1,
    decreases depth,
{
    lemma_pow2_positive(depth);
    if depth == 0 || quad_is_flat(p0, c, p1, tolerance) {
    } else {
        let l = midpoint(p0, c);
        let r = midpoint(c, p1);
        let m = midpoint(l, r);
        lemma_flatten_quad(p0, l, m, tolerance, (depth - 1) as nat);
        lemma_flatten_quad(m, r, p1, tolerance, (depth - 1) as nat);
        lemma_chain_join(
            flatten_quad(p0, l, m, tolerance, (depth - 1) as nat),
            flatten_quad(m, r, p1, tolerance, (depth - 1) as nat),
            p0,
            m,
            p1,
        );
    }
}

/// The segments of a cubic curve form a chain from its start to its end, of
/// no more segments than the halvings allow. A curve whose points all
/// coincide is one segment.
pub proof fn lemma_flatten_cubic(
    p0: Point,
    c1: Point,
    c2: Point,
    p1: Point,
    tolerance: u32,
    depth: nat,
)
    ensures
        is_chain(flatten_cubic(p0, c1, c2, p1, tolerance, depth), p0, p1),
        flatten_cubic(p0, c1, c2, p1, tolerance, depth).len() <= pow2(depth),
        p0 == c1 && c1 == c2 && c2 == p1 ==> flatten_cubic(p0, c1, c2, p1, tolerance, depth).len()
            == 1,
    decreases depth,
{
    lemma_pow2_positive(depth);
    if depth == 0 || cubic_is_flat(p0, c1, c2, p1, tolerance) {
    } else {
        let ab = midpoint(p0, c1);
        let bc = midpoint(c1, c2);
        let cd = midpoint(c2, p1);
        let abc = midpoint(ab, bc);
        let bcd = midpoint(bc, cd);
        let m = midpoint(abc, bcd);
        lemma_flatten_cubic(p0, ab, abc, m, tolerance, (depth - 1) as nat);
        lemma_flatten_cubic(m, bcd, cd, p1, tolerance, (depth - 1) as nat);
        lemma_chain_join(
            flatten_cubic(p0, ab, abc, m, tolerance, (depth - 1) as nat),
            flatten_cubic(m, bcd, cd, p1, tolerance, (depth - 1) as nat),
            p0,
            m,
            p1,
        );
    }
}

impl Pen {
    /// The pen before the first command: at the origin.
    pub open spec fn origin() -> Pen {
        Pen { start: Point { x: 0, y: 0 }, at: Point { x: 0, y: 0 } }
    }

    /// The pen after the command `op`.
    pub open spec fn after(self, op: PathOp, relative: bool) -> Pen {
        match op {
            PathOp::MoveTo(p) => {
                let q = place(self.at, p, relative);
                Pen { start: q, at: q }
            },
            PathOp::LineTo(p) => Pen { at: place(self.at, p, relative), ..self },
            PathOp::QuadTo(_, p) => Pen { at: place(self.at, p, relative), ..self },
            PathOp::CubicTo(_, _, p) => Pen { at: place(self.at, p, relative), ..self },
            PathOp::Close => Pen { at: self.start, ..self },
        }
    }

    /// The line that leads the pen back to the start of its sub-path.
    pub open spec fn way_back(self) -> Edge {
        Edge { from: self.at, to: self.start }
    }

    /// What closes the sub-path of the pen: the line back to its start, or
    /// nothing where the pen is there already.
    pub open spec fn closure(self) -> Seq<Edge> {
        if self.at == self.start {
            Seq::empty()
        } else {
            seq![self.way_back()]
        }
    }
}

/// The pen after all of `ops`.
pub open spec fn pen_after(ops: Seq<PathOp>, relative: bool) -> Pen
    decreases ops.len(),
{
    if ops.len() == 0 {
        Pen::origin()
    } else {
        pen_after(ops.drop_last(), relative).after(ops.last(), relative)
    }
}

/// The line segments that the command `op` draws with the pen: none for a
/// move, one for a line and for closing, those of the flattened curve for a
/// curve.
pub open spec fn drawn(pen: Pen, op: PathOp, relative: bool, tolerance: u32) -> Seq<Edge> {
    match op {
        PathOp::MoveTo(_) => Seq::empty(),
        PathOp::LineTo(p) => seq![Edge { from: pen.at, to: place(pen.at, p, relative) }],
        PathOp::QuadTo(c, p) => flatten_quad(
            pen.at,
            place(pen.at, c, relative),
            place(pen.at, p, relative),
            tolerance,
            MAX_DEPTH as nat,
        ),
        PathOp::CubicTo(c1, c2, p) => flatten_cubic(
            pen.at,
            place(pen.at, c1, relative),
            place(pen.at, c2, relative),
            place(pen.at, p, relative),
            tolerance,
            MAX_DEPTH as nat,
        ),
        PathOp::Close => seq![pen.way_back()],
    }
}

/// What the command `op` adds to a traced path. Where sub-paths are to be
/// closed, a move first closes the sub-path that it leaves.
pub open spec fn step(pen: Pen, op: PathOp, relative: bool, tolerance: u32, closing: bool) -> Seq<
    Edge,
> {
    if closing && op is MoveTo {
        pen.closure()
    } else {
        drawn(pen, op, relative, tolerance)
    }
}

/// The line segments of the commands `ops`, in the order drawn.
pub open spec fn traced(ops: Seq<PathOp>, relative: bool, tolerance: u32, closing: bool) -> Seq<
    Edge,
>
    decreases ops.len(),
{
    if ops.len() == 0 {
        Seq::empty()
    } else {
        traced(ops.drop_last(), relative, tolerance, closing) + step(
            pen_after(ops.drop_last(), relative),
            ops.last(),
            relative,
            tolerance,
            closing,
        )
    }
}

/// What one more command adds: the segments of the first `i + 1` commands
/// are those of the first `i` and the step of command `i`, and the pen moves
/// as that command says.
pub proof fn lemma_traced_next(
    ops: Seq<PathOp>,
    i: int,
    relative: bool,
    tolerance: u32,
    closing: bool,
)
    requires
        0 <= i < ops.len(),
    ensures
        traced(ops.take(i + 1), relative, tolerance, closing) == traced(
            ops.take(i),
            relative,
            tolerance,
            closing,
        ) + step(pen_after(ops.take(i), relative), ops[i], relative, tolerance, closing),
        pen_after(ops.take(i + 1), relative) == pen_after(ops.take(i), relative).after(
            ops[i],
            relative,
        ),
{
    assert(ops.take(i + 1).drop_last() =~= ops.take(i));
    assert(ops.take(i + 1).last() == ops[i]);
}

impl PathView {
    /// Whether the path begins, as it must, with a move.
    pub open spec fn well_formed(self) -> bool {
        self.ops.len() > 0 && self.ops[0] is MoveTo
    }

    /// The line segments that a pen strokes: those of the commands, with
    /// open sub-paths left open. A path that is not well formed has none.
    pub open spec fn segments(self, tolerance: u32) -> Seq<Edge> {
        if self.well_formed() {
            traced(self.ops, self.relative, tolerance, false)
        } else {
            Seq::empty()
        }
    }

    /// The edges that are filled: those of the commands, with every sub-path
    /// closed by a line back to its start. A path that is not well formed has
    /// none.
    pub open spec fn outline(self, tolerance: u32) -> Seq<Edge> {
        if self.well_formed() {
            traced(self.ops, self.relative, tolerance, true) + pen_after(
                self.ops,
                self.relative,
            ).closure()
        } else {
            Seq::empty()
        }
    }
}

/// Adds two coordinates and keeps the sum within what an `i32` holds.
fn add_clamped(a: i32, b: i32) -> (r: i32)
    ensures
        r == clamp(a + b),
{
    let sum: i64 = a as i64 + b as i64;
    if sum < i32::MIN as i64 {
        i32::MIN
    } else if sum > i32::MAX as i64 {
        i32::MAX
    } else {
        sum as i32
    }
}

/// The place that `p` names for a pen at `at`.
fn place_of(at: Point, p: Point, relative: bool) -> (r: Point)
    ensures
        r == place(at, p, relative),
{
    if relative {
        Point { x: add_clamped(at.x, p.x), y: add_clamped(at.y, p.y) }
    } else {
        p
    }
}

/// Half the sum of two coordinates, rounded down.
fn half_sum(a: i32, b: i32) -> (r: i32)
    ensures
        r == (a + b) / 2,
{
    let sum: i64 = a as i64 + b as i64;
    assert(sum >> 1 == sum / 2) by (bit_vector);
    (sum >> 1) as i32
}

/// The point half way between `a` and `b`.
fn midpoint_of(a: Point, b: Point) -> (r: Point)
    ensures
        r == midpoint(a, b),
{
    Point { x: half_sum(a.x, b.x), y: half_sum(a.y, b.y) }
}

/// The bend of the polygon `a`, `b`, `c` at `b`.
fn bend_of(a: Point, b: Point, c: Point) -> (r: u64)
    ensures
        r == bend(a, b, c),
        r <= 0x4_0000_0000,
{
    let dx: i64 = a.x as i64 - 2 * (b.x as i64) + c.x as i64;
    let dy: i64 = a.y as i64 - 2 * (b.y as i64) + c.y as i64;
    let ax: u64 = if dx < 0 {
        (-dx) as u64
    } else {
        dx as u64
    };
    let ay: u64 = if dy < 0 {
        (-dy) as u64
    } else {
        dy as u64
    };
    if ax > ay {
        ax
    } else {
        ay
    }
}

/// Whether a cubic curve is taken for straight.
fn cubic_is_flat_of(p0: Point, c1: Point, c2: Point, p1: Point, tolerance: u32) -> (flat: bool)
    ensures
        flat == cubic_is_flat(p0, c1, c2, p1, tolerance),
{
    let limit = 4 * (tolerance as u64);
    3 * bend_of(p0, c1, c2) <= limit && 3 * bend_of(c1, c2, p1) <= limit
}

/// Appends the line segments that stand for a quadratic curve to `out`.
pub fn flatten_quad_into(
    out: &mut Vec<Edge>,
    p0: Point,
    c: Point,
    p1: Point,
    tolerance: u32,
    depth: u32,
)
    ensures
        final(out)@ == old(out)@ + flatten_quad(p0, c, p1, tolerance, depth as nat),
    decreases depth,
{
    if depth == 0 || bend_of(p0, c, p1) <= 4 * (tolerance as u64) {
        out.push(Edge { from: p0, to: p1 });
        assert(out@ =~= old(out)@ + flatten_quad(p0, c, p1, tolerance, depth as nat));
    } else {
        let l = midpoint_of(p0, c);
        let r = midpoint_of(c, p1);
        let m = midpoint_of(l, r);
        flatten_quad_into(out, p0, l, m, tolerance, depth - 1);
        flatten_quad_into(out, m, r, p1, tolerance, depth - 1);
        assert(out@ =~= old(out)@ + flatten_quad(p0, c, p1, tolerance, depth as nat));
    }
}

/// Appends the line segments that stand for a cubic curve to `out`.
pub fn flatten_cubic_into(
    out: &mut Vec<Edge>,
    p0: Point,
    c1: Point,
    c2: Point,
    p1: Point,
    tolerance: u32,
    depth: u32,
)
    ensures
        final(out)@ == old(out)@ + flatten_cubic(p0, c1, c2, p1, tolerance, depth as nat),
    decreases depth,
{
    if depth == 0 || cubic_is_flat_of(p0, c1, c2, p1, tolerance) {
        out.push(Edge { from: p0, to: p1 });
        assert(out@ =~= old(out)@ + flatten_cubic(p0, c1, c2, p1, tolerance, depth as nat));
    } else {
        let ab = midpoint_of(p0, c1);
        let bc = midpoint_of(c1, c2);
        let cd = midpoint_of(c2, p1);
        let abc = midpoint_of(ab, bc);
        let bcd = midpoint_of(bc, cd);
        let m = midpoint_of(abc, bcd);
        flatten_cubic_into(out, p0, ab, abc, m, tolerance, depth - 1);
        flatten_cubic_into(out, m, bcd, cd, p1, tolerance, depth - 1);
        assert(out@ =~= old(out)@ + flatten_cubic(p0, c1, c2, p1, tolerance, depth as nat));
    }
}

/// Appends to `out` what closes the sub-path of the pen.
fn close_into(out: &mut Vec<Edge>, pen: Pen)
    ensures
        final(out)@ == old(out)@ + pen.closure(),
{
    if pen.at.x != pen.start.x || pen.at.y != pen.start.y {
        out.push(Edge { from: pen.at, to: pen.start });
    }
    assert(out@ =~= old(out)@ + pen.closure());
}

/// Appends what the command `op` adds to a traced path to `out`, and gives
/// the pen after the command.
fn step_into(
    out: &mut Vec<Edge>,
    pen: Pen,
    op: PathOp,
    relative: bool,
    tolerance: u32,
    closing: bool,
) -> (next: Pen)
    ensures
        final(out)@ == old(out)@ + step(pen, op, relative, tolerance, closing),
        next == pen.after(op, relative),
{
    match op {
        PathOp::MoveTo(p) => {
            if closing {
                close_into(out, pen);
            }
            assert(out@ =~= old(out)@ + step(pen, op, relative, tolerance, closing));
            let q = place_of(pen.at, p, relative);
            Pen { start: q, at: q }
        },
        PathOp::LineTo(p) => {
            let q = place_of(pen.at, p, relative);
            out.push(Edge { from: pen.at, to: q });
            assert(out@ =~= old(out)@ + step(pen, op, relative, tolerance, closing));
            Pen { start: pen.start, at: q }
        },
        PathOp::QuadTo(c, p) => {
            let q = place_of(pen.at, p, relative);
            flatten_quad_into(out, pen.at, place_of(pen.at, c, relative), q, tolerance, MAX_DEPTH);
            Pen { start: pen.start, at: q }
        },
        PathOp::CubicTo(c1, c2, p) => {
            let q = place_of(pen.at, p, relative);
            flatten_cubic_into(
                out,
                pen.at,
                place_of(pen.at, c1, relative),
                place_of(pen.at, c2, relative),
                q,
                tolerance,
                MAX_DEPTH,
            );
            Pen { start: pen.start, at: q }
        },
        PathOp::Close => {
            out.push(Edge { from: pen.at, to: pen.start });
            assert(out@ =~= old(out)@ + step(pen, op, relative, tolerance, closing));
            Pen { start: pen.start, at: pen.start }
        },
    }
}

impl Path {
    /// A path of the given commands, pen width and coordinate mode.
    pub fn new(ops: Vec<PathOp>, pen_width: u32, relative: bool) -> (path: Path)
        ensures
            path@ == (PathView { ops: ops@, pen_width, relative }),
    {
        Path { ops, pen_width, relative }
    }

    /// The drawing commands.
    pub fn ops(&self) -> (ops: &[PathOp])
        ensures
            ops@ == self@.ops,
    {
        self.ops.as_slice()
    }

    /// The width of the pen that strokes the path, in units of 1/256 pixel.
    pub fn pen_width(&self) -> (width: u32)
        ensures
            width == self@.pen_width,
    {
        self.pen_width
    }

    /// Whether the points of the commands are steps rather than places.
    pub fn is_relative(&self) -> (relative: bool)
        ensures
            relative == self@.relative,
    {
        self.relative
    }

    /// Whether the path begins with a move.
    pub fn is_well_formed(&self) -> (ok: bool)
        ensures
            ok == self@.well_formed(),
    {
        if self.ops.len() == 0 {
            return false;
        }
        match self.ops[0] {
            PathOp::MoveTo(_) => true,
            _ => false,
        }
    }

    /// Appends the line segments of the commands to `out`, and gives the pen
    /// after the last command.
    fn trace(&self, out: &mut Vec<Edge>, tolerance: u32, closing: bool) -> (pen: Pen)
        ensures
            final(out)@ == old(out)@ + traced(self@.ops, self@.relative, tolerance, closing),
            pen == pen_after(self@.ops, self@.relative),
    {
        let count = self.ops.len();
        let mut pen = Pen { start: Point { x: 0, y: 0 }, at: Point { x: 0, y: 0 } };
        let mut i: usize = 0;
        assert(self.ops@.take(0) =~= Seq::<PathOp>::empty());
        assert(out@ =~= old(out)@ + traced(self.ops@.take(0), self.relative, tolerance, closing));
        while i < count
            invariant
                i <= count == self.ops@.len(),
                pen == pen_after(self.ops@.take(i as int), self.relative),
                out@ == old(out)@ + traced(
                    self.ops@.take(i as int),
                    self.relative,
                    tolerance,
                    closing,
                ),
            decreases count - i,
        {
            let ghost before = out@;
            let ghost walked = traced(self.ops@.take(i as int), self.relative, tolerance, closing);
            let ghost added = step(pen, self.ops@[i as int], self.relative, tolerance, closing);
            proof {
                lemma_traced_next(self.ops@, i as int, self.relative, tolerance, closing);
            }
            pen = step_into(out, pen, self.ops[i], self.relative, tolerance, closing);
            assert(out@ == before + added);
            assert(before + added =~= old(out)@ + (walked + added));
            i += 1;
        }
        assert(self.ops@.take(count as int) =~= self.ops@);
        pen
    }

    /// Appends to `out` the line segments that a pen strokes.
    pub fn segments(&self, out: &mut Vec<Edge>, tolerance: u32)
        ensures
            final(out)@ == old(out)@ + self@.segments(tolerance),
    {
        if self.is_well_formed() {
            let _ = self.trace(out, tolerance, false);
        } else {
            assert(out@ =~= old(out)@ + self@.segments(tolerance));
        }
    }

    /// Appends to `out` the edges that are filled.
    pub fn outline(&self, out: &mut Vec<Edge>, tolerance: u32)
        ensures
            final(out)@ == old(out)@ + self@.outline(tolerance),
    {
        if self.is_well_formed() {
            let ghost before = out@;
            let pen = self.trace(out, tolerance, true);
            let ghost walked = out@;
            close_into(out, pen);
            assert(out@ =~= old(out)@ + self@.outline(tolerance));
        } else {
            assert(out@ =~= old(out)@ + self@.outline(tolerance));
        }
    }
}

} // verus!
