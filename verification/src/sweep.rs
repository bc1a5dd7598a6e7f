//! The order in which the rasterizer meets the edges: sorted by where they
//! begin, so that on its way down the mask it takes up each edge when the
//! sample lines reach it, and drops the edge when they have passed it.
use crate::edge::winding;
use crate::edge::Edge;
use crate::polygon::lemma_winding_concat;
use crate::polygon::lemma_winding_idle;
use vstd::prelude::*;

verus! {

/// Whether the edges are in the order of their low ends, from small `y` to
/// large.
pub open spec fn sorted_by_low(edges: Seq<Edge>) -> bool {
    forall|i: int, j: int|
        0 <= i <= j < edges.len() ==> (#[trigger] edges[i]).low().y <= (#[trigger] edges[j]).low().y
}

/// Whether two lists of edges wind alike round every point.
pub open spec fn wind_alike(a: Seq<Edge>, b: Seq<Edge>) -> bool {
    forall|px: int, py: int| #[trigger] winding(a, px, py) == winding(b, px, py)
}

/// Whether two lists of edges wind alike round every point at or below the
/// line at `sy`.
pub open spec fn wind_alike_from(a: Seq<Edge>, b: Seq<Edge>, sy: int) -> bool {
    forall|px: int, py: int| py >= sy ==> #[trigger] winding(a, px, py) == winding(b, px, py)
}

/// Replacing one edge of a list changes the winding number by what the two
/// edges add.
pub proof fn lemma_winding_update(edges: Seq<Edge>, i: int, edge: Edge, px: int, py: int)
    requires
        0 <= i < edges.len(),
    ensures
        winding(edges.update(i, edge), px, py) == winding(edges, px, py) - edges[i].crossing(
            px,
            py,
        ) + edge.crossing(px, py),
    decreases edges.len(),
{
    let n = edges.len() as int;
    if i == n - 1 {
        assert(edges.update(i, edge).drop_last() =~= edges.drop_last());
    } else {
        assert(edges.update(i, edge).drop_last() =~= edges.drop_last().update(i, edge));
        lemma_winding_update(edges.drop_last(), i, edge, px, py);
    }
}

/// Exchanging two edges of a list changes no winding number.
pub proof fn lemma_winding_swap(edges: Seq<Edge>, i: int, j: int)
    requires
        0 <= i < edges.len(),
        0 <= j < edges.len(),
    ensures
        wind_alike(edges.update(i, edges[j]).update(j, edges[i]), edges),
{
    let swapped = edges.update(i, edges[j]).update(j, edges[i]);
    assert forall|px: int, py: int| #[trigger] winding(swapped, px, py) == winding(
        edges,
        px,
        py,
    ) by {
        lemma_winding_update(edges, i, edges[j], px, py);
        lemma_winding_update(edges.update(i, edges[j]), j, edges[i], px, py);
    }
}

/// Taking an edge out of a list, the last edge into its place, takes from the
/// winding number what that edge added.
pub proof fn lemma_winding_swap_remove(edges: Seq<Edge>, i: int, px: int, py: int)
    requires
        0 <= i < edges.len(),
    ensures
        winding(edges.update(i, edges.last()).drop_last(), px, py) == winding(edges, px, py)
            - edges[i].crossing(px, py),
{
    let n = edges.len() as int;
    if i == n - 1 {
        assert(edges.update(i, edges.last()).drop_last() =~= edges.drop_last());
    } else {
        assert(edges.update(i, edges.last()).drop_last() =~= edges.drop_last().update(
            i,
            edges.last(),
        ));
        lemma_winding_update(edges.drop_last(), i, edges.last(), px, py);
    }
}

/// The `y` of the low end of an edge.
pub(crate) fn low_y(edge: &Edge) -> (y: i32)
    ensures
        y == edge.low().y,
{
    if edge.from.y <= edge.to.y {
        edge.from.y
    } else {
        edge.to.y
    }
}

/// The `y` of the high end of an edge.
pub(crate) fn high_y(edge: &Edge) -> (y: i32)
    ensures
        y == edge.high().y,
{
    if edge.from.y <= edge.to.y {
        edge.to.y
    } else {
        edge.from.y
    }
}

/// Exchanges the edges at `i` and `j`.
fn swap(edges: &mut Vec<Edge>, i: usize, j: usize)
    requires
        i < old(edges)@.len(),
        j < old(edges)@.len(),
    ensures
        final(edges)@ == old(edges)@.update(i as int, old(edges)@[j as int]).update(
            j as int,
            old(edges)@[i as int],
        ),
        wind_alike(final(edges)@, old(edges)@),
        final(edges)@.to_multiset() == old(edges)@.to_multiset(),
{
    let a = edges[i];
    let b = edges[j];
    edges[i] = b;
    edges[j] = a;
    proof {
        lemma_winding_swap(old(edges)@, i as int, j as int);
        broadcast use vstd::multiset::group_multiset_axioms;

        let before = old(edges)@;
        let between = before.update(i as int, b);
        vstd::seq_lib::to_multiset_update(before, i as int, b);
        vstd::seq_lib::to_multiset_update(between, j as int, a);
        before.to_multiset_ensures();
        assert(before.contains(a) && before.contains(b));
        assert(edges@.to_multiset() =~= before.to_multiset());
    }
}

/// One pass of the sort: it moves each edge up past the edges `gap` places
/// apart that begin below it. With a gap of one the edges are sorted
/// afterwards.
fn sort_pass(edges: &mut Vec<Edge>, gap: usize)
    requires
        gap >= 1,
    ensures
        final(edges)@.len() == old(edges)@.len(),
        final(edges)@.to_multiset() == old(edges)@.to_multiset(),
        wind_alike(final(edges)@, old(edges)@),
        gap == 1 ==> sorted_by_low(final(edges)@),
{
    let n = edges.len();
    let mut i: usize = gap;
    while i < n
        invariant
            gap >= 1,
            edges@.len() == n,
            gap <= i,
            wind_alike(edges@, old(edges)@),
            edges@.to_multiset() == old(edges)@.to_multiset(),
            gap == 1 ==> forall|a: int, b: int|
                0 <= a <= b < i && b < n ==> (#[trigger] edges@[a]).low().y <= (
                #[trigger] edges@[b]).low().y,
        decreases n - i,
    {
        let mut j: usize = i;
        while j >= gap && low_y(&edges[j - gap]) > low_y(&edges[j])
            invariant
                gap >= 1,
                edges@.len() == n,
                j <= i < n,
                wind_alike(edges@, old(edges)@),
                edges@.to_multiset() == old(edges)@.to_multiset(),
                gap == 1 ==> forall|a: int, b: int|
                    0 <= a <= b <= i && b != j ==> (#[trigger] edges@[a]).low().y <= (
                    #[trigger] edges@[b]).low().y,
            decreases j,
        {
            let ghost before = edges@;
            swap(edges, j - gap, j);
            proof {
                assert forall|px: int, py: int| #[trigger] winding(edges@, px, py) == winding(
                    old(edges)@,
                    px,
                    py,
                ) by {
                    assert(winding(edges@, px, py) == winding(before, px, py));
                    assert(winding(before, px, py) == winding(old(edges)@, px, py));
                }
            }
            j -= gap;
        }
        i += 1;
    }
}

/// Sorts the edges by their low ends, from small `y` to large. The sorted
/// edges are the edges in another order, and so wind round every point as
/// the edges did.
pub fn sort_by_low(edges: &mut Vec<Edge>)
    ensures
        final(edges)@.len() == old(edges)@.len(),
        final(edges)@.to_multiset() == old(edges)@.to_multiset(),
        sorted_by_low(final(edges)@),
        wind_alike(final(edges)@, old(edges)@),
{
    let n = edges.len();
    let mut gap: usize = n / 2;
    while gap > 1
        invariant
            edges@.len() == n,
            edges@.to_multiset() == old(edges)@.to_multiset(),
            wind_alike(edges@, old(edges)@),
        decreases gap,
    {
        let ghost before = edges@;
        sort_pass(edges, gap);
        proof {
            assert forall|px: int, py: int| #[trigger] winding(edges@, px, py) == winding(
                old(edges)@,
                px,
                py,
            ) by {
                assert(winding(edges@, px, py) == winding(before, px, py));
                assert(winding(before, px, py) == winding(old(edges)@, px, py));
            }
        }
        gap = gap / 2;
    }
    let ghost before = edges@;
    sort_pass(edges, 1);
    proof {
        assert forall|px: int, py: int| #[trigger] winding(edges@, px, py) == winding(
            old(edges)@,
            px,
            py,
        ) by {
            assert(winding(edges@, px, py) == winding(before, px, py));
            assert(winding(before, px, py) == winding(old(edges)@, px, py));
        }
    }
}

/// Takes up the edges that begin at or above the line at `sy`: moves them
/// from the sorted list, of which those before `next` are taken up already,
/// to the active list, and gives the place of the first edge that is left.
pub(crate) fn take_up(active: &mut Vec<Edge>, edges: &Vec<Edge>, next: usize, sy: i64) -> (end: usize)
    requires
        next <= edges@.len(),
        sorted_by_low(edges@),
    ensures
        next <= end <= edges@.len(),
        final(active)@ == old(active)@ + edges@.subrange(next as int, end as int),
        forall|i: int| end <= i < edges@.len() ==> (#[trigger] edges@[i]).low().y > sy,
{
    let n = edges.len();
    let mut end = next;
    assert(active@ =~= old(active)@ + edges@.subrange(next as int, end as int));
    while end < n && low_y(&edges[end]) as i64 <= sy
        invariant
            next <= end <= n == edges@.len(),
            active@ == old(active)@ + edges@.subrange(next as int, end as int),
        decreases n - end,
    {
        active.push(edges[end]);
        end += 1;
        assert(active@ =~= old(active)@ + edges@.subrange(next as int, end as int));
    }
    end
}

/// Drops from the active list the edges that end at or above the line at
/// `sy`: they pass no line from there on, so that what is left winds alike
/// round every point at or below that line.
pub(crate) fn retire(active: &mut Vec<Edge>, sy: i64)
    ensures
        wind_alike_from(final(active)@, old(active)@, sy as int),
        forall|i: int| 0 <= i < final(active)@.len() ==> (#[trigger] final(active)@[i]).high().y > sy,
{
    let mut i: usize = 0;
    while i < active.len()
        invariant
            i <= active@.len(),
            wind_alike_from(active@, old(active)@, sy as int),
            forall|k: int| 0 <= k < i ==> (#[trigger] active@[k]).high().y > sy,
        decreases active@.len() - i,
    {
        if high_y(&active[i]) as i64 <= sy {
            let ghost before = active@;
            active.swap_remove(i);
            proof {
                assert forall|px: int, py: int| py >= sy implies #[trigger] winding(
                    active@,
                    px,
                    py,
                ) == winding(old(active)@, px, py) by {
                    lemma_winding_swap_remove(before, i as int, px, py);
                    assert(!before[i as int].spans(py));
                    assert(winding(before, px, py) == winding(old(active)@, px, py));
                }
            }
        } else {
            i += 1;
        }
    }
}

/// The active edges wind round the points of the line at `sy` as all the
/// edges do, if together with the edges not yet taken up they wind so from
/// that line on and none of those edges begins at or above the line.
pub proof fn lemma_active_winding(
    active: Seq<Edge>,
    rest: Seq<Edge>,
    all: Seq<Edge>,
    px: int,
    sy: int,
)
    requires
        wind_alike_from(active + rest, all, sy),
        forall|i: int| 0 <= i < rest.len() ==> (#[trigger] rest[i]).low().y > sy,
    ensures
        winding(active, px, sy) == winding(all, px, sy),
{
    lemma_winding_concat(active, rest, px, sy);
    assert forall|i: int| 0 <= i < rest.len() implies (#[trigger] rest[i]).crossing(px, sy)
        == 0 by {
        assert(!rest[i].spans(sy));
    }
    lemma_winding_idle(rest, px, sy);
    assert(winding(active + rest, px, sy) == winding(all, px, sy));
}

/// Dropping edges that wind alike from a line on keeps the active edges and
/// the edges not yet taken up winding as before from that line on.
pub proof fn lemma_retired(
    before: Seq<Edge>,
    after: Seq<Edge>,
    rest: Seq<Edge>,
    all: Seq<Edge>,
    sy: int,
)
    requires
        wind_alike_from(before + rest, all, sy),
        wind_alike_from(after, before, sy),
    ensures
        wind_alike_from(after + rest, all, sy),
{
    assert forall|px: int, py: int| py >= sy implies #[trigger] winding(after + rest, px, py)
        == winding(all, px, py) by {
        lemma_winding_concat(after, rest, px, py);
        lemma_winding_concat(before, rest, px, py);
        assert(winding(after, px, py) == winding(before, px, py));
        assert(winding(before + rest, px, py) == winding(all, px, py));
    }
}

} // verus!
