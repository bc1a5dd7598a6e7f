//! The scanline rasterizer: it walks the sample lines of a mask from top to
//! bottom, marks for each edge the sample column from which the edge lies to
//! the left, sums the marks along the line into winding numbers, and folds
//! the covered samples of every four lines into one row of the mask.
use crate::edge::clamp_coverage;
use crate::edge::coverage;
use crate::edge::line_count;
use crate::edge::pixel_count;
use crate::edge::rendering;
use crate::edge::sample_pos;
use crate::edge::winding;
use crate::edge::Edge;
use crate::edge::FillRule;
use crate::edge::INSET;
use crate::edge::UNIT;
use crate::edge::STEP;
use crate::edge::WEIGHT;
use crate::mask::lemma_row_in_bounds;
use crate::mask::Mask;
use crate::mask::MaskView;
use crate::sweep::lemma_active_winding;
use crate::sweep::lemma_retired;
use crate::sweep::retire;
use crate::sweep::sort_by_low;
use crate::sweep::sorted_by_low;
use crate::sweep::take_up;
use crate::sweep::wind_alike_from;
use vstd::prelude::*;

verus! {

/// The sum of the marks from sample column 0 up to and including column `c`.
pub open spec fn running(marks: Seq<i128>, c: int) -> int
    decreases c + 1,
{
    if c < 0 {
        0
    } else {
        running(marks, c - 1) + marks[c]
    }
}

/// Changing the mark of column `k` changes the running sums from `k` on, by
/// as much as the mark changed.
proof fn lemma_running_update(marks: Seq<i128>, k: int, v: i128, c: int)
    requires
        0 <= k < marks.len(),
        -1 <= c < marks.len(),
    ensures
        running(marks.update(k, v), c) == running(marks, c) + if c >= k {
            v - marks[k]
        } else {
            0
        },
    decreases c + 1,
{
    if c >= 0 {
        lemma_running_update(marks, k, v, c - 1);
    }
}

/// The running sums of marks that are all zero are zero.
proof fn lemma_running_zero(marks: Seq<i128>, c: int)
    requires
        -1 <= c < marks.len(),
        forall|t: int| 0 <= t < marks.len() ==> marks[t] == 0,
    ensures
        running(marks, c) == 0,
    decreases c + 1,
{
    if c >= 0 {
        lemma_running_zero(marks, c - 1);
    }
}

/// A winding number is at most the number of edges, in either sense.
pub proof fn lemma_winding_bound(edges: Seq<Edge>, px: int, py: int)
    ensures
        -edges.len() <= winding(edges, px, py) <= edges.len(),
    decreases edges.len(),
{
    if edges.len() > 0 {
        lemma_winding_bound(edges.drop_last(), px, py);
    }
}

/// Where an edge that rises by `dy` and runs sideways by `dx` passes a line
/// `t` above its low end: `m` units right of that end lie at or beyond the
/// edge exactly from the rounded-up quotient `t * dx / dy` on.
proof fn lemma_reach(t: int, dx: int, dy: int, q: int, r: int, m: int)
    requires
        0 <= t < dy,
        0 <= r < dy,
        0 <= q,
        dx >= 0 ==> t * dx == q * dy + r,
        dx < 0 ==> t * (-dx) == q * dy + r,
    ensures
        t * dx <= m * dy <==> m >= (if dx >= 0 {
            q + if r > 0 {
                1int
            } else {
                0int
            }
        } else {
            -q
        }),
{
    if dx >= 0 {
        let up = q + if r > 0 { 1int } else { 0int };
        if m >= up {
            assert(m * dy >= up * dy) by (nonlinear_arith)
                requires
                    m >= up,
                    dy > 0,
            ;
            assert(up * dy >= q * dy + r) by (nonlinear_arith)
                requires
                    up == q + if r > 0 { 1int } else { 0int },
                    0 <= r < dy,
            ;
        } else {
            assert(m * dy <= (up - 1) * dy) by (nonlinear_arith)
                requires
                    m <= up - 1,
                    dy > 0,
            ;
            assert((up - 1) * dy < q * dy + r) by (nonlinear_arith)
                requires
                    up == q + if r > 0 { 1int } else { 0int },
                    0 <= r < dy,
                    up - 1 < up,
                    m < up,
            ;
        }
    } else {
        assert(t * dx == -(t * (-dx))) by (nonlinear_arith);
        if m >= -q {
            assert(m * dy >= (-q) * dy) by (nonlinear_arith)
                requires
                    m >= -q,
                    dy > 0,
            ;
            assert((-q) * dy == -(q * dy)) by (nonlinear_arith);
        } else {
            assert(m * dy <= (-q - 1) * dy) by (nonlinear_arith)
                requires
                    m <= -q - 1,
                    dy > 0,
            ;
            assert((-q - 1) * dy == -(q * dy) - dy) by (nonlinear_arith);
        }
    }
}

/// The first sample column that lies at or right of the place where `edge`
/// passes the sample line at `sy`, or `columns` where no column does.
fn first_column(edge: &Edge, sy: i64, columns: usize) -> (k: usize)
    requires
        edge.spans(sy as int),
    ensures
        k <= columns,
        forall|c: int|
            0 <= c < columns ==> (#[trigger] edge.meets_ray(sample_pos(c), sy as int) <==> c >= k),
{
    let (lo, hi) = if edge.from.y <= edge.to.y {
        (edge.from, edge.to)
    } else {
        (edge.to, edge.from)
    };
    assert(lo == edge.low() && hi == edge.high());
    let t: u64 = (sy - lo.y as i64) as u64;
    let dy: u64 = (hi.y as i64 - lo.y as i64) as u64;
    let dx: i64 = hi.x as i64 - lo.x as i64;
    let adx: u64 = if dx >= 0 {
        dx as u64
    } else {
        (-dx) as u64
    };
    assert(t * adx <= 0xffff_ffff * 0xffff_ffff) by (nonlinear_arith)
        requires
            0 <= t <= 0xffff_ffff,
            0 <= adx <= 0xffff_ffff,
    ;
    let n: u64 = t * adx;
    let q: u64 = n / dy;
    let r: u64 = n % dy;
    assert(n == q * dy + r && q <= adx) by (nonlinear_arith)
        requires
            q == n / dy,
            r == n % dy,
            n == t * adx,
            0 <= t < dy,
            0 <= adx,
    ;
    let reach: i64 = if dx >= 0 {
        lo.x as i64 + q as i64 + if r > 0 {
            1
        } else {
            0
        }
    } else {
        lo.x as i64 - q as i64
    };
    let k: usize = if reach <= INSET {
        0
    } else {
        let steps: u64 = ((reach - INSET) as u64 + (STEP as u64 - 1)) / (STEP as u64);
        if steps >= columns as u64 {
            columns
        } else {
            steps as usize
        }
    };
    proof {
        assert forall|c: int| 0 <= c < columns implies (#[trigger] edge.meets_ray(
            sample_pos(c),
            sy as int,
        ) <==> c >= k) by {
            lemma_reach(t as int, dx as int, dy as int, q as int, r as int, sample_pos(c) - lo.x);
        }
    }
    k
}

/// Marks each edge that passes the sample line at `sy` at the first sample
/// column that lies at or right of the edge, with the edge's direction. The
/// running sums of the marks are then the winding numbers along the line.
fn mark_crossings(marks: &mut Vec<i128>, edges: &[Edge], sy: i64)
    requires
        old(marks)@.len() >= 1,
        forall|t: int| 0 <= t < old(marks)@.len() ==> old(marks)@[t] == 0,
    ensures
        final(marks)@.len() == old(marks)@.len(),
        forall|c: int|
            0 <= c < old(marks)@.len() - 1 ==> #[trigger] running(final(marks)@, c) == winding(
                edges@,
                sample_pos(c),
                sy as int,
            ),
{
    let columns = marks.len() - 1;
    let count = edges.len();
    let mut i: usize = 0;
    proof {
        assert forall|c: int| 0 <= c < columns implies #[trigger] running(marks@, c) == winding(
            edges@.take(0),
            sample_pos(c),
            sy as int,
        ) by {
            lemma_running_zero(marks@, c);
        }
    }
    while i < count
        invariant
            i <= count == edges@.len(),
            marks@.len() == columns + 1,
            forall|t: int| 0 <= t <= columns ==> -(i as int) <= #[trigger] marks@[t] <= i,
            forall|c: int|
                0 <= c < columns ==> #[trigger] running(marks@, c) == winding(
                    edges@.take(i as int),
                    sample_pos(c),
                    sy as int,
                ),
        decreases count - i,
    {
        let edge = edges[i];
        let (low_y, high_y) = if edge.from.y <= edge.to.y {
            (edge.from.y, edge.to.y)
        } else {
            (edge.to.y, edge.from.y)
        };
        let ghost before = marks@;
        assert(edges@.take(i + 1).drop_last() =~= edges@.take(i as int));
        assert(edges@.take(i + 1).last() == edge);
        if low_y as i64 <= sy && sy < high_y as i64 {
            let k = first_column(&edge, sy, columns);
            let step: i128 = if edge.from.y < edge.to.y {
                1
            } else {
                -1
            };
            let mark = marks[k] + step;
            marks[k] = mark;
            proof {
                assert forall|c: int| 0 <= c < columns implies #[trigger] running(marks@, c)
                    == winding(edges@.take(i + 1), sample_pos(c), sy as int) by {
                    lemma_running_update(before, k as int, mark, c);
                    assert(running(before, c) == winding(
                        edges@.take(i as int),
                        sample_pos(c),
                        sy as int,
                    ));
                }
            }
        } else {
            assert(!edge.spans(sy as int));
        }
        i += 1;
    }
    assert(edges@.take(count as int) =~= edges@);
}

/// How many of the four sample columns of pixel column `x` have running
/// sums that the rule takes for inside.
pub open spec fn marked_count(marks: Seq<i128>, rule: FillRule, x: int) -> int {
    (if rule.covers(running(marks, 4 * x)) { 1int } else { 0int })
    + (if rule.covers(running(marks, 4 * x + 1)) { 1int } else { 0int })
    + (if rule.covers(running(marks, 4 * x + 2)) { 1int } else { 0int })
    + (if rule.covers(running(marks, 4 * x + 3)) { 1int } else { 0int })
}

/// Whether the rule takes a point with winding number `winding` for inside.
fn covers(rule: FillRule, winding: i128) -> (inside: bool)
    requires
        winding > i128::MIN,
    ensures
        inside == rule.covers(winding as int),
{
    match rule {
        FillRule::NonZero => winding != 0,
        FillRule::EvenOdd => {
            let size: u128 = if winding >= 0 {
                winding as u128
            } else {
                (-winding) as u128
            };
            size % 2 == 1
        },
    }
}

/// Sums the marks along one sample line and writes to each pixel of `line`
/// the weight of its covered samples.
fn resolve_line(marks: &Vec<i128>, rule: FillRule, line: &mut [u8])
    requires
        marks@.len() == 4 * old(line)@.len() + 1,
        forall|c: int|
            0 <= c < marks@.len() - 1 ==> -0x1_0000_0000_0000_0000 <= #[trigger] running(marks@, c)
                <= 0x1_0000_0000_0000_0000,
    ensures
        final(line)@.len() == old(line)@.len(),
        forall|x: int|
            0 <= x < old(line)@.len() ==> #[trigger] final(line)@[x] == WEIGHT * marked_count(
                marks@,
                rule,
                x,
            ),
{
    let width = line.len();
    let columns = marks.len() - 1;
    let mut sum: i128 = 0;
    let mut x: usize = 0;
    while x < width
        invariant
            x <= width == line@.len() == old(line)@.len(),
            marks@.len() == 4 * width + 1 == columns + 1,
            sum == running(marks@, 4 * x - 1),
            -0x1_0000_0000_0000_0000 <= sum <= 0x1_0000_0000_0000_0000,
            forall|c: int|
                0 <= c < marks@.len() - 1 ==> -0x1_0000_0000_0000_0000 <= #[trigger] running(
                    marks@,
                    c,
                ) <= 0x1_0000_0000_0000_0000,
            forall|p: int|
                0 <= p < x ==> #[trigger] line@[p] == WEIGHT * marked_count(marks@, rule, p),
        decreases width - x,
    {
        let base = 4 * x;
        let mut inside: u8 = 0;
        assert(running(marks@, 4 * x) == sum + marks@[4 * x]);
        assert(running(marks@, 4 * x + 1) == running(marks@, 4 * x) + marks@[4 * x + 1]);
        assert(running(marks@, 4 * x + 2) == running(marks@, 4 * x + 1) + marks@[4 * x + 2]);
        assert(running(marks@, 4 * x + 3) == running(marks@, 4 * x + 2) + marks@[4 * x + 3]);
        sum = sum + marks[base];
        if covers(rule, sum) {
            inside = inside + 1;
        }
        sum = sum + marks[base + 1];
        if covers(rule, sum) {
            inside = inside + 1;
        }
        sum = sum + marks[base + 2];
        if covers(rule, sum) {
            inside = inside + 1;
        }
        sum = sum + marks[base + 3];
        if covers(rule, sum) {
            inside = inside + 1;
        }
        assert(inside == marked_count(marks@, rule, x as int));
        line[x] = WEIGHT * inside;
        x += 1;
    }
}

/// How many sample points of the pixel at column `x` of row `y` are inside
/// on the first `lines` of its four sample lines.
pub open spec fn partial_count(edges: Seq<Edge>, rule: FillRule, x: int, y: int, lines: int) -> int
    decreases lines,
{
    if lines <= 0 {
        0
    } else {
        partial_count(edges, rule, x, y, lines - 1) + line_count(edges, rule, x, 4 * y + lines - 1)
    }
}

/// After all four sample lines the partial count is the pixel's count.
proof fn lemma_partial_count_full(edges: Seq<Edge>, rule: FillRule, x: int, y: int)
    ensures
        partial_count(edges, rule, x, y, 4) == pixel_count(edges, rule, x, y),
        partial_count(edges, rule, x, y, 0) == 0,
{
    reveal_with_fuel(partial_count, 5);
}

/// A partial count is at most four per sample line.
proof fn lemma_partial_count_bound(edges: Seq<Edge>, rule: FillRule, x: int, y: int, lines: int)
    requires
        0 <= lines,
    ensures
        0 <= partial_count(edges, rule, x, y, lines) <= 4 * lines,
    decreases lines,
{
    if lines > 0 {
        lemma_partial_count_bound(edges, rule, x, y, lines - 1);
    }
}

/// What the mask holds while row `y` is at work: the rows above it are done,
/// row `y` holds what its first `lines` sample lines cover, and the rows
/// below it are still clear.
pub open spec fn in_progress(
    m: MaskView,
    edges: Seq<Edge>,
    rule: FillRule,
    y: int,
    lines: int,
) -> bool {
    forall|x: int, r: int|
        0 <= x < m.width && 0 <= r < m.height ==> #[trigger] m.pixel(x, r) == (if r < y {
            coverage(edges, rule, x, r)
        } else if r == y {
            clamp_coverage(WEIGHT * partial_count(edges, rule, x, y, lines))
        } else {
            0u8
        })
}

/// The pixels of different rows lie at different indices, those of row `y`
/// in that row's range.
proof fn lemma_pixel_index(m: MaskView, x: int, r: int, y: int)
    requires
        m.wf(),
        0 <= x < m.width,
        0 <= r < m.height,
        0 <= y < m.height,
    ensures
        0 <= r * m.width + x < m.pixels.len(),
        r == y <==> m.row_start(y) <= r * m.width + x < m.row_start(y) + m.width,
{
    lemma_row_in_bounds(m, r);
    lemma_row_in_bounds(m, y);
    let w = m.width as int;
    if r < y {
        assert((r + 1) * w <= y * w) by (nonlinear_arith)
            requires
                r + 1 <= y,
                w >= 0,
        ;
        assert((r + 1) * w == r * w + w) by (nonlinear_arith);
    }
    if r > y {
        assert((y + 1) * w <= r * w) by (nonlinear_arith)
            requires
                y + 1 <= r,
                w >= 0,
        ;
        assert((y + 1) * w == y * w + w) by (nonlinear_arith);
    }
}

/// A mask whose every pixel holds its coverage is the rendering.
proof fn lemma_rendering(m: MaskView, edges: Seq<Edge>, rule: FillRule)
    requires
        m.wf(),
        in_progress(m, edges, rule, m.height as int, 0),
    ensures
        m == rendering(edges, rule, m.width, m.height),
{
    let w = m.width as int;
    let done = rendering(edges, rule, m.width, m.height);
    assert forall|i: int| 0 <= i < m.pixels.len() implies m.pixels[i] == done.pixels[i] by {
        assert(w > 0) by (nonlinear_arith)
            requires
                0 <= i < w * m.height,
                w >= 0,
        ;
        vstd::arithmetic::div_mod::lemma_fundamental_div_mod(i, w);
        vstd::arithmetic::div_mod::lemma_mod_bound(i, w);
        let r = i / w;
        let x = i % w;
        assert(0 <= r < m.height) by (nonlinear_arith)
            requires
                0 <= i < w * m.height,
                i == w * r + x,
                0 <= x < w,
        ;
        assert(w * r == r * w) by (nonlinear_arith);
        assert(m.pixel(x, r) == m.pixels[i]);
    }
    assert(m.pixels =~= done.pixels);
}

/// Sets every mark to zero.
fn clear_marks(marks: &mut Vec<i128>)
    ensures
        final(marks)@.len() == old(marks)@.len(),
        forall|t: int| 0 <= t < final(marks)@.len() ==> final(marks)@[t] == 0,
{
    let n = marks.len();
    let mut t: usize = 0;
    while t < n
        invariant
            t <= n == marks@.len() == old(marks)@.len(),
            forall|p: int| 0 <= p < t ==> marks@[p] == 0,
        decreases n - t,
    {
        marks[t] = 0;
        t += 1;
    }
}

/// Renders `edges` into `mask` under `rule`: afterwards each pixel holds its
/// coverage. The edges are sorted by where they begin; `active` holds the
/// edges between their begin and their end as the sample lines go down.
/// `scan` is the one-row buffer that each sample line is resolved into before
/// it is accumulated, and `marks` holds one mark per sample column and one
/// more for what lies right of the mask.
pub(crate) fn rasterize(
    mask: &mut Mask,
    scan: &mut Mask,
    marks: &mut Vec<i128>,
    edges: &mut Vec<Edge>,
    active: &mut Vec<Edge>,
    rule: FillRule,
)
    requires
        old(mask)@.wf(),
        old(scan)@.wf(),
        old(scan)@.is_row_of(old(mask)@),
        old(marks)@.len() == 4 * old(mask)@.width + 1,
    ensures
        final(mask)@ == rendering(old(edges)@, rule, old(mask)@.width, old(mask)@.height),
        final(scan)@.wf(),
        final(scan)@.is_row_of(final(mask)@),
        final(marks)@.len() == old(marks)@.len(),
{
    let width = mask.width();
    let height = mask.height();
    let ghost all = edges@;
    sort_by_low(edges);
    active.clear();
    let count = edges.len();
    let mut next: usize = 0;
    mask.clear();
    proof {
        assert forall|x: int, r: int| 0 <= x < width && 0 <= r < height implies #[trigger] mask@.pixel(
            x,
            r,
        ) == 0 by {
            lemma_pixel_index(mask@, x, r, r);
        }
        assert forall|x: int| true implies partial_count(all, rule, x, 0, 0) == 0 by {
            lemma_partial_count_full(all, rule, x, 0);
        }
        assert(active@ + edges@.subrange(0, count as int) =~= edges@);
    }
    let mut y: u32 = 0;
    while y < height
        invariant
            y <= height,
            mask@.wf(),
            mask@.width == width,
            mask@.height == height,
            scan@.wf(),
            scan@.is_row_of(mask@),
            marks@.len() == 4 * width + 1,
            edges@.len() == count,
            sorted_by_low(edges@),
            next <= count,
            wind_alike_from(
                active@ + edges@.subrange(next as int, count as int),
                all,
                sample_pos(4 * y),
            ),
            in_progress(mask@, all, rule, y as int, 0),
        decreases height - y,
    {
        let mut line: u8 = 0;
        while line < 4
            invariant
                y < height,
                line <= 4,
                mask@.wf(),
                mask@.width == width,
                mask@.height == height,
                scan@.wf(),
                scan@.is_row_of(mask@),
                marks@.len() == 4 * width + 1,
                edges@.len() == count,
                sorted_by_low(edges@),
                next <= count,
                wind_alike_from(
                    active@ + edges@.subrange(next as int, count as int),
                    all,
                    sample_pos(4 * y + line),
                ),
                in_progress(mask@, all, rule, y as int, line as int),
            decreases 4 - line,
        {
            let sy: i64 = (y as i64) * UNIT + INSET + (line as i64) * STEP;
            assert(sy == sample_pos(4 * y + line));
            let ghost waiting = active@;
            let taken = take_up(active, edges, next, sy);
            proof {
                assert(active@ + edges@.subrange(taken as int, count as int) =~= waiting
                    + edges@.subrange(next as int, count as int));
            }
            next = taken;
            let ghost admitted = active@;
            retire(active, sy);
            proof {
                let rest = edges@.subrange(next as int, count as int);
                lemma_retired(admitted, active@, rest, all, sy as int);
            }
            clear_marks(marks);
            let live = active.len();
            mark_crossings(marks, active.as_slice(), sy);
            proof {
                let rest = edges@.subrange(next as int, count as int);
                assert forall|i: int| 0 <= i < rest.len() implies (#[trigger] rest[i]).low().y
                    > sy by {
                    assert(rest[i] == edges@[next + i]);
                }
                assert forall|c: int| 0 <= c < marks@.len() - 1 implies #[trigger] running(
                    marks@,
                    c,
                ) == winding(all, sample_pos(c), sy as int) && -0x1_0000_0000_0000_0000
                    <= running(marks@, c) <= 0x1_0000_0000_0000_0000 by {
                    lemma_winding_bound(active@, sample_pos(c), sy as int);
                    lemma_active_winding(active@, rest, all, sample_pos(c), sy as int);
                }
                lemma_row_in_bounds(scan@, 0);
            }
            let ghost scan_before = scan@;
            let row = scan.scan_line(0);
            resolve_line(marks, rule, row);
            assert(scan@.pixels =~= row@) by {
                assert(scan_before.row_start(0) == 0);
            }
            let ghost before = mask@;
            let _ = mask.accumulate(scan, y);
            proof {
                assert forall|x: int, r: int| 0 <= x < width && 0 <= r < height implies #[trigger] mask@.pixel(
                    x,
                    r,
                ) == (if r < y {
                    coverage(all, rule, x, r)
                } else if r == y {
                    clamp_coverage(WEIGHT * partial_count(all, rule, x, y as int, line + 1))
                } else {
                    0u8
                }) by {
                    lemma_pixel_index(before, x, r, y as int);
                    assert(before.pixel(x, r) == before.pixels[r * width + x]);
                    if r == y {
                        lemma_partial_count_bound(all, rule, x, y as int, line as int);
                        assert(scan@.pixels[x] == WEIGHT * marked_count(marks@, rule, x));
                        assert(marked_count(marks@, rule, x) == line_count(
                            all,
                            rule,
                            x,
                            4 * y + line,
                        ));
                    }
                }
            }
            line += 1;
        }
        proof {
            assert forall|x: int, r: int| 0 <= x < width && 0 <= r < height implies #[trigger] mask@.pixel(
                x,
                r,
            ) == (if r < y + 1 {
                coverage(all, rule, x, r)
            } else if r == y + 1 {
                clamp_coverage(WEIGHT * partial_count(all, rule, x, y + 1, 0))
            } else {
                0u8
            }) by {
                lemma_partial_count_full(all, rule, x, y as int);
                lemma_partial_count_full(all, rule, x, y + 1);
            }
        }
        y += 1;
    }
    proof {
        lemma_rendering(mask@, all, rule);
    }
}

} // verus!
