//! The plotter: it owns a mask and the working buffers of the rasterizer, and
//! renders paths into the mask by filling or by stroking.
use crate::edge::rendering;
use crate::edge::Edge;
use crate::edge::FillRule;
use crate::edge::Point;
use crate::mask::max_len;
use crate::mask::Mask;
use crate::mask::MaskError;
use crate::mask::MaskView;
use crate::path::Path;
use crate::path::PathOp;
use crate::path::PathView;
use crate::path::traced;
use crate::polygon::lemma_rendering_empty;
use crate::polygon::polygon;
use crate::raster::rasterize;
use crate::stroke::polygon_into;
use crate::stroke::stroke_into;
use crate::stroke::lemma_stroke_without_width;
use crate::stroke::stroke_outline;
use vstd::prelude::*;

verus! {

/// How far a flattened curve may stray from the curve where nothing else is
/// asked for, in units of 1/256 pixel.
pub const DEFAULT_TOLERANCE: u32 = 16;

/// Whether a plotter of the given dimensions can be made: its mask and its
/// marks, one of sixteen bytes for each sample column and one more, must be
/// addressable.
pub open spec fn plottable(width: u32, height: u32) -> bool {
    width * height <= max_len() && (4 * width + 1) * 16 <= max_len()
}

/// What stroking `path` renders into a mask of the given dimensions.
pub open spec fn stroked(path: PathView, tolerance: u32, width: u32, height: u32) -> MaskView {
    rendering(
        stroke_outline(path.segments(tolerance), path.pen_width),
        FillRule::NonZero,
        width,
        height,
    )
}

/// What filling `path` under `rule` renders into a mask of the given
/// dimensions.
pub open spec fn filled(
    path: PathView,
    rule: FillRule,
    tolerance: u32,
    width: u32,
    height: u32,
) -> MaskView {
    rendering(path.outline(tolerance), rule, width, height)
}

/// Stroking a path that is a single move, and so has no length, leaves the
/// mask clear.
pub proof fn lemma_stroke_lone_move(
    to: Point,
    pen_width: u32,
    relative: bool,
    tolerance: u32,
    width: u32,
    height: u32,
)
    ensures
        stroked(
            PathView { ops: seq![PathOp::MoveTo(to)], pen_width, relative },
            tolerance,
            width,
            height,
        ) == MaskView::zeroed(width, height),
{
    let ops = seq![PathOp::MoveTo(to)];
    reveal_with_fuel(traced, 2);
    assert(ops.drop_last() =~= Seq::<PathOp>::empty());
    assert(traced(ops, relative, tolerance, false) =~= Seq::<Edge>::empty());
    lemma_rendering_empty(FillRule::NonZero, width, height);
}

/// Stroking with a pen without width leaves the mask clear.
pub proof fn lemma_stroke_without_width_is_clear(
    path: PathView,
    tolerance: u32,
    width: u32,
    height: u32,
)
    requires
        path.pen_width == 0,
    ensures
        stroked(path, tolerance, width, height) == MaskView::zeroed(width, height),
{
    lemma_stroke_without_width(path.segments(tolerance));
    lemma_rendering_empty(FillRule::NonZero, width, height);
}

/// A path that does not begin with a move, such as an empty one, leaves the
/// mask clear, filled or stroked.
pub proof fn lemma_malformed_is_clear(
    path: PathView,
    rule: FillRule,
    tolerance: u32,
    width: u32,
    height: u32,
)
    requires
        !path.well_formed(),
    ensures
        filled(path, rule, tolerance, width, height) == MaskView::zeroed(width, height),
        stroked(path, tolerance, width, height) == MaskView::zeroed(width, height),
{
    lemma_rendering_empty(rule, width, height);
    lemma_rendering_empty(FillRule::NonZero, width, height);
}

/// The mathematical content of a [`Plotter`]: the tolerance that it flattens
/// curves with, and the mask that it rendered last.
pub struct PlotterView {
    pub tolerance: u32,
    pub mask: MaskView,
}

/// A plotter renders paths into the mask that it owns. Its working buffers
/// are made once and used again by every rendering.
pub struct Plotter {
    mask: Mask,
    scan: Mask,
    marks: Vec<i128>,
    segments: Vec<Edge>,
    edges: Vec<Edge>,
    active: Vec<Edge>,
    tolerance: u32,
}

impl View for Plotter {
    type V = PlotterView;

    closed spec fn view(&self) -> PlotterView {
        PlotterView { tolerance: self.tolerance, mask: self.mask@ }
    }
}

impl Plotter {
    /// The working buffers fit the mask.
    pub closed spec fn wf(&self) -> bool {
        &&& self.mask@.wf()
        &&& self.scan@.wf()
        &&& self.scan@.is_row_of(self.mask@)
        &&& self.marks@.len() == 4 * self.mask@.width + 1
    }

    /// Creates a plotter with a clear mask of `width` by `height` pixels,
    /// unless its buffers would exceed the addressable length.
    pub fn new(width: u32, height: u32) -> (r: Result<Plotter, MaskError>)
        ensures
            plottable(width, height) ==> r is Ok && r->Ok_0.wf() && r->Ok_0@ == (PlotterView {
                tolerance: DEFAULT_TOLERANCE,
                mask: MaskView::zeroed(width, height),
            }),
            !plottable(width, height) ==> r is Err && r->Err_0 == MaskError::InvalidDimensions,
    {
        let columns: u64 = 4 * (width as u64) + 1;
        if columns * 16 > isize::MAX as u64 {
            return Err(MaskError::InvalidDimensions);
        }
        let mask = match Mask::new(width, height) {
            Ok(mask) => mask,
            Err(e) => {
                return Err(MaskError::InvalidDimensions);
            },
        };
        assert(width * 1 <= max_len()) by (nonlinear_arith)
            requires
                (4 * width + 1) * 16 <= max_len(),
        ;
        let scan = match Mask::new(width, 1) {
            Ok(scan) => scan,
            Err(e) => {
                return Err(MaskError::InvalidDimensions);
            },
        };
        let marks = vec![0i128; columns as usize];
        Ok(
            Plotter {
                mask,
                scan,
                marks,
                segments: Vec::new(),
                edges: Vec::new(),
                active: Vec::new(),
                tolerance: DEFAULT_TOLERANCE,
            },
        )
    }

    /// The width of the mask in pixels.
    pub fn width(&self) -> (w: u32)
        ensures
            w == self@.mask.width,
    {
        self.mask.width()
    }

    /// The height of the mask in pixels.
    pub fn height(&self) -> (h: u32)
        ensures
            h == self@.mask.height,
    {
        self.mask.height()
    }

    /// How far a flattened curve may stray from the curve, in units of 1/256
    /// pixel.
    pub fn tolerance(&self) -> (t: u32)
        ensures
            t == self@.tolerance,
    {
        self.tolerance
    }

    /// Sets how far a flattened curve may stray from the curve.
    pub fn set_tolerance(&mut self, tolerance: u32)
        requires
            old(self).wf(),
        ensures
            final(self).wf(),
            final(self)@ == (PlotterView { tolerance, ..old(self)@ }),
    {
        self.tolerance = tolerance;
    }

    /// The mask that was rendered last.
    pub fn mask(&self) -> (m: &Mask)
        requires
            self.wf(),
        ensures
            m@ == self@.mask,
            m@.wf(),
    {
        &self.mask
    }

    /// Renders `edges` under `rule`: the mask then holds the coverage of
    /// each pixel, whatever it held before.
    pub fn render(&mut self, edges: &[Edge], rule: FillRule) -> (m: &Mask)
        requires
            old(self).wf(),
        ensures
            final(self).wf(),
            final(self)@.tolerance == old(self)@.tolerance,
            final(self)@.mask == rendering(
                edges@,
                rule,
                old(self)@.mask.width,
                old(self)@.mask.height,
            ),
            m@ == final(self)@.mask,
    {
        self.edges.clear();
        let mut i: usize = 0;
        while i < edges.len()
            invariant
                i <= edges@.len(),
                self.edges@ == edges@.take(i as int),
                self.wf(),
                self@ == old(self)@,
            decreases edges@.len() - i,
        {
            self.edges.push(edges[i]);
            assert(self.edges@ =~= edges@.take(i + 1));
            i += 1;
        }
        assert(edges@.take(edges@.len() as int) =~= edges@);
        rasterize(
            &mut self.mask,
            &mut self.scan,
            &mut self.marks,
            &mut self.edges,
            &mut self.active,
            rule,
        );
        &self.mask
    }

    /// Fills the closed polygon through `vertices` under `rule`.
    pub fn fill_polygon(&mut self, vertices: &[Point], rule: FillRule) -> (m: &Mask)
        requires
            old(self).wf(),
        ensures
            final(self).wf(),
            final(self)@.tolerance == old(self)@.tolerance,
            final(self)@.mask == rendering(
                polygon(vertices@),
                rule,
                old(self)@.mask.width,
                old(self)@.mask.height,
            ),
            m@ == final(self)@.mask,
    {
        self.edges.clear();
        polygon_into(&mut self.edges, vertices);
        assert(self.edges@ =~= polygon(vertices@));
        rasterize(
            &mut self.mask,
            &mut self.scan,
            &mut self.marks,
            &mut self.edges,
            &mut self.active,
            rule,
        );
        &self.mask
    }

    /// Fills `path` under `rule`: every sub-path is closed, curves are
    /// flattened within the plotter's tolerance, and each pixel gets the
    /// coverage of the edges. A path that does not begin with a move, such as
    /// an empty one, leaves the mask clear.
    pub fn fill(&mut self, path: &Path, rule: FillRule) -> (m: &Mask)
        requires
            old(self).wf(),
        ensures
            final(self).wf(),
            final(self)@.tolerance == old(self)@.tolerance,
            final(self)@.mask == filled(
                path@,
                rule,
                old(self)@.tolerance,
                old(self)@.mask.width,
                old(self)@.mask.height,
            ),
            m@ == final(self)@.mask,
    {
        self.edges.clear();
        path.outline(&mut self.edges, self.tolerance);
        assert(self.edges@ =~= path@.outline(self.tolerance));
        rasterize(
            &mut self.mask,
            &mut self.scan,
            &mut self.marks,
            &mut self.edges,
            &mut self.active,
            rule,
        );
        &self.mask
    }

    /// Strokes `path` with a round pen of the path's pen width: curves are
    /// flattened within the plotter's tolerance, and each pixel gets the
    /// coverage of what the pen sweeps along the segments, joins and caps
    /// rounded. A path without segments and a pen without width leave the
    /// mask clear.
    pub fn stroke(&mut self, path: &Path) -> (m: &Mask)
        requires
            old(self).wf(),
        ensures
            final(self).wf(),
            final(self)@.tolerance == old(self)@.tolerance,
            final(self)@.mask == stroked(
                path@,
                old(self)@.tolerance,
                old(self)@.mask.width,
                old(self)@.mask.height,
            ),
            m@ == final(self)@.mask,
    {
        self.segments.clear();
        path.segments(&mut self.segments, self.tolerance);
        assert(self.segments@ =~= path@.segments(self.tolerance));
        self.edges.clear();
        stroke_into(&mut self.edges, self.segments.as_slice(), path.pen_width());
        assert(self.edges@ =~= stroke_outline(self.segments@, path@.pen_width));
        rasterize(
            &mut self.mask,
            &mut self.scan,
            &mut self.marks,
            &mut self.edges,
            &mut self.active,
            FillRule::NonZero,
        );
        &self.mask
    }
}

} // verus!
