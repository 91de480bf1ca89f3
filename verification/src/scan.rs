//! The scan over a raster that starts one trace at every foreground pixel no
//! earlier trace has claimed, and what holds of the strokes it collects.

use crate::canny::{manhattan, PixelIndex};
use crate::marking::{
    cell_of, is_lit, lemma_mark, lemma_mark_count, lemma_marked_among_lit, lemma_marked_among_update,
    marked_count, on_raster, unmarked_count,
};
use crate::raster::{lemma_cell_in_range, RasterView, FOREGROUND_THRESHOLD};
use crate::trace::{
    best_fit, fresh_neighbors, lemma_best_fit, lemma_fresh_neighbors, next_pending, trace_halts,
    trace_result, trace_step, trace_steps, TraceState, Traversal,
};
use vstd::prelude::*;

verus! {

/// Any two different points of `edge` keep the minimum spacing.
pub open spec fn spaced(edge: Seq<PixelIndex>, skip: int) -> bool {
    forall|i: int, j: int|
        0 <= i < edge.len() && 0 <= j < edge.len() && i != j ==> manhattan(
            #[trigger] edge[i],
            #[trigger] edge[j],
        ) >= skip
}

/// No pixel occurs twice among the points of `strokes`, neither within one
/// stroke nor in two of them.
pub open spec fn distinct_points(strokes: Seq<Seq<PixelIndex>>) -> bool {
    forall|a: int, i: int, b: int, j: int|
        0 <= a < strokes.len() && 0 <= i < strokes[a].len() && 0 <= b < strokes.len() && 0 <= j
            < strokes[b].len() && (a != b || i != j) ==> #[trigger] strokes[a][i]
            != #[trigger] strokes[b][j]
}

/// Every point of `strokes` is a foreground pixel.
pub open spec fn all_lit(r: RasterView, strokes: Seq<Seq<PixelIndex>>) -> bool {
    forall|a: int, i: int|
        0 <= a < strokes.len() && 0 <= i < strokes[a].len() ==> is_lit(r, #[trigger] strokes[a][i])
}

/// Every point of `strokes` has its flag set.
pub open spec fn all_marked(r: RasterView, visited: Seq<bool>, strokes: Seq<Seq<PixelIndex>>) -> bool {
    forall|a: int, i: int|
        0 <= a < strokes.len() && 0 <= i < strokes[a].len() ==> visited[cell_of(
            r,
            #[trigger] strokes[a][i],
        )]
}

/// Every stroke keeps the minimum spacing between its points.
pub open spec fn all_spaced(strokes: Seq<Seq<PixelIndex>>, skip: int) -> bool {
    forall|a: int| 0 <= a < strokes.len() ==> spaced(#[trigger] strokes[a], skip)
}

/// Number of points of all `strokes` together.
pub open spec fn total_points(strokes: Seq<Seq<PixelIndex>>) -> nat
    decreases strokes.len(),
{
    if strokes.len() == 0 {
        0
    } else {
        total_points(strokes.drop_last()) + strokes.last().len()
    }
}

/// There is one flag per pixel, and only foreground pixels have theirs set.
pub open spec fn flags_fit(r: RasterView, visited: Seq<bool>) -> bool {
    &&& visited.len() == r.pixels.len()
    &&& forall|k: int| 0 <= k < visited.len() && visited[k] ==> r.pixels[k] > FOREGROUND_THRESHOLD
}

/// What holds of the strokes collected so far together with the flags: the
/// points are visited foreground pixels, no pixel was accepted twice, every
/// stroke keeps the spacing, and there are no more points than set flags.
pub open spec fn consistent(r: RasterView, skip: int, visited: Seq<bool>, strokes: Seq<Seq<PixelIndex>>) -> bool {
    &&& flags_fit(r, visited)
    &&& all_lit(r, strokes)
    &&& all_marked(r, visited, strokes)
    &&& distinct_points(strokes)
    &&& all_spaced(strokes, skip)
    &&& total_points(strokes) <= marked_count(visited)
}

/// What holds at every step of a trace that runs after the strokes `done`
/// were finished.
pub open spec fn orderly(r: RasterView, skip: int, done: Seq<Seq<PixelIndex>>, s: TraceState) -> bool {
    &&& consistent(r, skip, s.visited, done.push(s.edge))
    &&& forall|i: int| 0 <= i < s.pending.len() ==> on_raster(r, #[trigger] s.pending[i])
}

/// The number that goes down with every step of a trace.
pub open spec fn effort(s: TraceState) -> int {
    unmarked_count(s.visited) + s.pending.len()
}

/// Adding the points of one more stroke adds its length to the total.
pub proof fn lemma_total_points_push(strokes: Seq<Seq<PixelIndex>>, edge: Seq<PixelIndex>)
    ensures
        total_points(strokes.push(edge)) == total_points(strokes) + edge.len(),
{
    assert(strokes.push(edge).drop_last() =~= strokes);
}

/// A step keeps a trace orderly, and while something is pending it brings
/// the effort down by one.
pub proof fn lemma_step_orderly(
    r: RasterView,
    skip: int,
    order: Traversal,
    done: Seq<Seq<PixelIndex>>,
    s: TraceState,
)
    requires
        r.wf(),
        r.width <= u32::MAX,
        r.height <= u32::MAX,
        orderly(r, skip, done, s),
    ensures
        orderly(r, skip, done, trace_step(r, skip, order, s)),
        s.pending.len() > 0 ==> effort(trace_step(r, skip, order, s)) == effort(s) - 1,
{
    if s.pending.len() > 0 {
        let current = next_pending(order, s.pending);
        let fresh = fresh_neighbors(r, s.visited, current);
        let t = trace_step(r, skip, order, s);
        lemma_fresh_neighbors(r, s.visited, current);
        lemma_mark(r, s.visited, fresh);
        lemma_mark_count(r, s.visited, fresh);
        lemma_best_fit(fresh, s.edge, skip);
        let before = done.push(s.edge);
        let after = done.push(t.edge);
        let last = done.len() as int;
        assert(before[last] == s.edge);
        assert(after[last] == t.edge);
        lemma_total_points_push(done, s.edge);
        lemma_total_points_push(done, t.edge);

        assert(flags_fit(r, t.visited)) by {
            assert forall|k: int| 0 <= k < t.visited.len() && t.visited[k] implies r.pixels[k]
                > FOREGROUND_THRESHOLD by {
                if !s.visited[k] {
                    let j = choose|j: int| 0 <= j < fresh.len() && cell_of(r, #[trigger] fresh[j]) == k;
                    assert(is_lit(r, fresh[j]));
                }
            }
        }
        assert forall|i: int| 0 <= i < t.pending.len() implies on_raster(r, #[trigger] t.pending[i]) by {
            let rest = crate::trace::rest_pending(order, s.pending);
            if i < rest.len() {
                match order {
                    Traversal::DepthFirst => {
                        assert(rest[i] == s.pending[i]);
                    },
                    Traversal::BreadthFirst => {
                        assert(rest[i] == s.pending[i + 1]);
                    },
                }
            } else {
                assert(t.pending[i] == fresh[i - rest.len()]);
            }
        }
        // Every old point is a point of `before`, at the same place.
        assert forall|a: int, i: int| 0 <= a < before.len() && 0 <= i < before[a].len() implies after[a][i]
            == before[a][i] && i < after[a].len() by {
            if a < last {
                assert(after[a] == done[a]);
                assert(before[a] == done[a]);
            }
        }
        match best_fit(fresh, s.edge, skip) {
            Some(p) => {
                let at = choose|j: int| 0 <= j < fresh.len() && fresh[j] == p;
                assert(is_lit(r, fresh[at]) && !s.visited[cell_of(r, fresh[at])]);
                assert(t.visited[cell_of(r, fresh[at])]);
                assert(t.edge == s.edge.push(p));
                let fresh_at = s.edge.len() as int;
                assert(t.edge[fresh_at] == p);
                assert forall|a: int, i: int| 0 <= a < after.len() && 0 <= i < after[a].len() implies (a
                    == last && i == fresh_at) || (i < before[a].len() && after[a][i] == before[a][i]) by {
                    if a < last {
                        assert(after[a] == done[a]);
                        assert(before[a] == done[a]);
                    }
                }
                assert(all_lit(r, after)) by {
                    assert forall|a: int, i: int| 0 <= a < after.len() && 0 <= i < after[a].len() implies is_lit(
                        r,
                        #[trigger] after[a][i],
                    ) by {
                        if !(a == last && i == fresh_at) {
                            assert(is_lit(r, before[a][i]));
                        }
                    }
                }
                assert(all_marked(r, t.visited, after)) by {
                    assert forall|a: int, i: int| 0 <= a < after.len() && 0 <= i < after[a].len() implies t.visited[cell_of(
                        r,
                        #[trigger] after[a][i],
                    )] by {
                        if !(a == last && i == fresh_at) {
                            assert(is_lit(r, before[a][i]));
                            assert(s.visited[cell_of(r, before[a][i])]);
                            lemma_cell_in_range(r, before[a][i].x as int, before[a][i].y as int);
                        }
                    }
                }
                assert(distinct_points(after)) by {
                    assert forall|a: int, i: int, b: int, j: int|
                        0 <= a < after.len() && 0 <= i < after[a].len() && 0 <= b < after.len() && 0 <= j
                            < after[b].len() && (a != b || i != j) implies #[trigger] after[a][i]
                        != #[trigger] after[b][j] by {
                        let first_new = a == last && i == fresh_at;
                        let second_new = b == last && j == fresh_at;
                        if first_new {
                            assert(s.visited[cell_of(r, before[b][j])]);
                        } else if second_new {
                            assert(s.visited[cell_of(r, before[a][i])]);
                        } else {
                            assert(before[a][i] != before[b][j]);
                        }
                    }
                }
                assert(all_spaced(after, skip)) by {
                    assert forall|a: int| 0 <= a < after.len() implies spaced(#[trigger] after[a], skip) by {
                        if a < last {
                            assert(after[a] == before[a]);
                            assert(spaced(before[a], skip));
                        } else {
                            assert(spaced(before[last], skip));
                            assert forall|i: int, j: int|
                                0 <= i < t.edge.len() && 0 <= j < t.edge.len() && i != j implies manhattan(
                                #[trigger] t.edge[i],
                                #[trigger] t.edge[j],
                            ) >= skip by {
                                if i == fresh_at {
                                    assert(t.edge[j] == s.edge[j]);
                                } else if j == fresh_at {
                                    assert(t.edge[i] == s.edge[i]);
                                } else {
                                    assert(t.edge[i] == s.edge[i]);
                                    assert(t.edge[j] == s.edge[j]);
                                }
                            }
                        }
                    }
                }
            },
            None => {
                assert(t.edge == s.edge);
                assert(after == before);
                assert(all_marked(r, t.visited, after)) by {
                    assert forall|a: int, i: int| 0 <= a < after.len() && 0 <= i < after[a].len() implies t.visited[cell_of(
                        r,
                        #[trigger] after[a][i],
                    )] by {
                        assert(is_lit(r, before[a][i]));
                        assert(s.visited[cell_of(r, before[a][i])]);
                        lemma_cell_in_range(r, before[a][i].x as int, before[a][i].y as int);
                    }
                }
            },
        }
    }
}

/// Steps chain: the state after `n` steps is an orderly one when the first was.
pub proof fn lemma_steps_orderly(
    r: RasterView,
    skip: int,
    order: Traversal,
    done: Seq<Seq<PixelIndex>>,
    s: TraceState,
    n: nat,
)
    requires
        r.wf(),
        r.width <= u32::MAX,
        r.height <= u32::MAX,
        orderly(r, skip, done, s),
    ensures
        orderly(r, skip, done, trace_steps(r, skip, order, s, n)),
    decreases n,
{
    if n > 0 {
        lemma_steps_orderly(r, skip, order, done, s, (n - 1) as nat);
        lemma_step_orderly(r, skip, order, done, trace_steps(r, skip, order, s, (n - 1) as nat));
    }
}

/// One step first and `n` steps after it are `n + 1` steps.
pub proof fn lemma_steps_unfold(r: RasterView, skip: int, order: Traversal, s: TraceState, n: nat)
    ensures
        trace_steps(r, skip, order, trace_step(r, skip, order, s), n) == trace_steps(
            r,
            skip,
            order,
            s,
            n + 1,
        ),
    decreases n,
{
    reveal_with_fuel(trace_steps, 2);
    if n > 0 {
        lemma_steps_unfold(r, skip, order, s, (n - 1) as nat);
    }
}

/// A trace that has come to rest stays where it is.
pub proof fn lemma_rest_is_stable(r: RasterView, skip: int, order: Traversal, s: TraceState, n: nat, m: nat)
    requires
        trace_halts(r, skip, order, s, n),
        n <= m,
    ensures
        trace_steps(r, skip, order, s, m) == trace_steps(r, skip, order, s, n),
    decreases m,
{
    if n < m {
        lemma_rest_is_stable(r, skip, order, s, n, (m - 1) as nat);
    }
}

/// However many steps it took to come to rest, the state at rest is the same.
pub proof fn lemma_trace_result(r: RasterView, skip: int, order: Traversal, s: TraceState, n: nat)
    requires
        trace_halts(r, skip, order, s, n),
    ensures
        trace_result(r, skip, order, s) == trace_steps(r, skip, order, s, n),
        trace_result(r, skip, order, s).pending.len() == 0,
{
    let chosen = choose|k: nat| trace_halts(r, skip, order, s, k);
    if chosen <= n {
        lemma_rest_is_stable(r, skip, order, s, chosen, n);
    } else {
        lemma_rest_is_stable(r, skip, order, s, n, chosen);
    }
}

/// Every orderly trace comes to rest.
pub proof fn lemma_trace_terminates(
    r: RasterView,
    skip: int,
    order: Traversal,
    done: Seq<Seq<PixelIndex>>,
    s: TraceState,
)
    requires
        r.wf(),
        r.width <= u32::MAX,
        r.height <= u32::MAX,
        orderly(r, skip, done, s),
    ensures
        exists|n: nat| trace_halts(r, skip, order, s, n),
        orderly(r, skip, done, trace_result(r, skip, order, s)),
        trace_result(r, skip, order, s).pending.len() == 0,
    decreases effort(s),
{
    crate::marking::lemma_marked_among_bound(s.visited, s.visited.len());
    if s.pending.len() == 0 {
        assert(trace_halts(r, skip, order, s, 0));
        lemma_trace_result(r, skip, order, s, 0);
    } else {
        let t = trace_step(r, skip, order, s);
        lemma_step_orderly(r, skip, order, done, s);
        crate::marking::lemma_marked_among_bound(t.visited, t.visited.len());
        lemma_trace_terminates(r, skip, order, done, t);
        let n = choose|n: nat| trace_halts(r, skip, order, t, n);
        lemma_steps_unfold(r, skip, order, s, n);
        assert(trace_halts(r, skip, order, s, n + 1));
        lemma_trace_result(r, skip, order, s, n + 1);
        lemma_steps_orderly(r, skip, order, done, s, n + 1);
    }
}

/// The strokes collected and the pixels claimed while a raster is scanned.
pub struct ScanState {
    pub visited: Seq<bool>,
    pub edges: Seq<Seq<PixelIndex>>,
}

/// The state in which the trace that is seeded at `seed` starts.
pub open spec fn seeded(r: RasterView, visited: Seq<bool>, seed: PixelIndex) -> TraceState {
    TraceState {
        visited: visited.update(cell_of(r, seed), true),
        pending: seq![seed],
        edge: Seq::empty(),
    }
}

/// The pixel at `(x, y)`.
pub open spec fn pixel(x: int, y: int) -> PixelIndex {
    PixelIndex { x: x as usize, y: y as usize }
}

/// What the scan does at pixel `(x, y)`: where it is a foreground pixel that
/// no trace has visited, a trace is seeded there and run until it rests; its
/// stroke is kept when it has at least one point.
pub open spec fn scan_pixel(
    r: RasterView,
    skip: int,
    order: Traversal,
    s: ScanState,
    x: int,
    y: int,
) -> ScanState {
    if r.lit(x, y) && !s.visited[r.cell(x, y)] {
        let rest = trace_result(r, skip, order, seeded(r, s.visited, pixel(x, y)));
        ScanState {
            visited: rest.visited,
            edges: if rest.edge.len() > 0 {
                s.edges.push(rest.edge)
            } else {
                s.edges
            },
        }
    } else {
        s
    }
}

/// The state of the scan before it looks at column `x` of row `y`, the
/// pixels being taken in raster order.
pub open spec fn scan(r: RasterView, skip: int, order: Traversal, x: nat, y: nat) -> ScanState
    decreases y, x,
{
    if x == 0 {
        if y == 0 {
            ScanState { visited: Seq::new(r.pixels.len(), |k: int| false), edges: Seq::empty() }
        } else {
            scan(r, skip, order, r.width, (y - 1) as nat)
        }
    } else {
        scan_pixel(r, skip, order, scan(r, skip, order, (x - 1) as nat, y), x - 1, y as int)
    }
}

/// The strokes of a raster: what the scan has collected after the last row.
pub open spec fn traced_edges(r: RasterView, skip: int, order: Traversal) -> Seq<Seq<PixelIndex>> {
    scan(r, skip, order, 0, r.height).edges
}

/// Every stroke has at least one point.
pub open spec fn none_empty(strokes: Seq<Seq<PixelIndex>>) -> bool {
    forall|a: int| 0 <= a < strokes.len() ==> (#[trigger] strokes[a]).len() > 0
}

/// What holds of a scan state.
pub open spec fn tidy(r: RasterView, skip: int, s: ScanState) -> bool {
    &&& consistent(r, skip, s.visited, s.edges)
    &&& none_empty(s.edges)
}

/// Strokes that are consistent together with one that has no point are
/// consistent without it, and the other way round.
pub proof fn lemma_consistent_with_empty(
    r: RasterView,
    skip: int,
    visited: Seq<bool>,
    strokes: Seq<Seq<PixelIndex>>,
)
    ensures
        consistent(r, skip, visited, strokes.push(Seq::empty())) <==> consistent(
            r,
            skip,
            visited,
            strokes,
        ),
{
    let more = strokes.push(Seq::empty());
    lemma_total_points_push(strokes, Seq::empty());
    assert forall|a: int| 0 <= a < strokes.len() implies more[a] == strokes[a] by {}
    assert(spaced(Seq::<PixelIndex>::empty(), skip));
    if consistent(r, skip, visited, more) {
        assert forall|a: int| 0 <= a < strokes.len() implies spaced(#[trigger] strokes[a], skip) by {
            assert(spaced(more[a], skip));
        }
        assert forall|a: int, i: int| 0 <= a < strokes.len() && 0 <= i < strokes[a].len() implies is_lit(
            r,
            #[trigger] strokes[a][i],
        ) && visited[cell_of(r, strokes[a][i])] by {
            assert(is_lit(r, more[a][i]));
            assert(visited[cell_of(r, more[a][i])]);
        }
        assert forall|a: int, i: int, b: int, j: int|
            0 <= a < strokes.len() && 0 <= i < strokes[a].len() && 0 <= b < strokes.len() && 0 <= j
                < strokes[b].len() && (a != b || i != j) implies #[trigger] strokes[a][i]
            != #[trigger] strokes[b][j] by {
            assert(more[a][i] != more[b][j]);
        }
    }
    if consistent(r, skip, visited, strokes) {
        assert forall|a: int| 0 <= a < more.len() implies spaced(#[trigger] more[a], skip) by {
            if a < strokes.len() {
                assert(spaced(strokes[a], skip));
            }
        }
        assert forall|a: int, i: int| 0 <= a < more.len() && 0 <= i < more[a].len() implies is_lit(
            r,
            #[trigger] more[a][i],
        ) && visited[cell_of(r, more[a][i])] by {
            assert(is_lit(r, strokes[a][i]));
            assert(visited[cell_of(r, strokes[a][i])]);
        }
        assert forall|a: int, i: int, b: int, j: int|
            0 <= a < more.len() && 0 <= i < more[a].len() && 0 <= b < more.len() && 0 <= j
                < more[b].len() && (a != b || i != j) implies #[trigger] more[a][i]
            != #[trigger] more[b][j] by {
            assert(strokes[a][i] != strokes[b][j]);
        }
    }
}

/// Seeding a trace at an unvisited foreground pixel of a tidy scan state gives
/// an orderly trace state.
pub proof fn lemma_seeded_orderly(r: RasterView, skip: int, s: ScanState, x: int, y: int)
    requires
        r.wf(),
        tidy(r, skip, s),
        r.lit(x, y),
        x <= usize::MAX,
        y <= usize::MAX,
        !s.visited[r.cell(x, y)],
    ensures
        orderly(r, skip, s.edges, seeded(r, s.visited, pixel(x, y))),
        effort(seeded(r, s.visited, pixel(x, y))) == unmarked_count(s.visited),
{
    let seed = pixel(x, y);
    let start = seeded(r, s.visited, seed);
    lemma_cell_in_range(r, x, y);
    lemma_marked_among_update(s.visited, r.cell(x, y), s.visited.len());
    lemma_consistent_with_empty(r, skip, s.visited, s.edges);
    let strokes = s.edges.push(Seq::empty());
    assert(start.edge == Seq::<PixelIndex>::empty());
    assert forall|a: int, i: int| 0 <= a < strokes.len() && 0 <= i < strokes[a].len() implies start.visited[cell_of(
        r,
        #[trigger] strokes[a][i],
    )] by {
        assert(is_lit(r, strokes[a][i]));
        assert(s.visited[cell_of(r, strokes[a][i])]);
        lemma_cell_in_range(r, strokes[a][i].x as int, strokes[a][i].y as int);
    }
    assert(start.pending[0] == seed);
}

/// Looking at one more pixel keeps the scan state tidy.
pub proof fn lemma_scan_pixel_tidy(
    r: RasterView,
    skip: int,
    order: Traversal,
    s: ScanState,
    x: int,
    y: int,
)
    requires
        r.wf(),
        r.width <= u32::MAX,
        r.height <= u32::MAX,
        tidy(r, skip, s),
        r.within(x, y),
    ensures
        tidy(r, skip, scan_pixel(r, skip, order, s, x, y)),
{
    if r.lit(x, y) && !s.visited[r.cell(x, y)] {
        let start = seeded(r, s.visited, pixel(x, y));
        lemma_seeded_orderly(r, skip, s, x, y);
        lemma_trace_terminates(r, skip, order, s.edges, start);
        let rest = trace_result(r, skip, order, start);
        let after = scan_pixel(r, skip, order, s, x, y);
        if rest.edge.len() > 0 {
            assert(after.edges == s.edges.push(rest.edge));
            assert forall|a: int| 0 <= a < after.edges.len() implies (#[trigger] after.edges[a]).len()
                > 0 by {
                if a < s.edges.len() {
                    assert(after.edges[a] == s.edges[a]);
                }
            }
        } else {
            assert(rest.edge =~= Seq::<PixelIndex>::empty());
            lemma_consistent_with_empty(r, skip, rest.visited, s.edges);
        }
    }
}

/// The scan state is tidy at every pixel.
pub proof fn lemma_scan_tidy(r: RasterView, skip: int, order: Traversal, x: nat, y: nat)
    requires
        r.wf(),
        r.width <= u32::MAX,
        r.height <= u32::MAX,
        x <= r.width,
        y <= r.height,
        y == r.height ==> x == 0,
    ensures
        tidy(r, skip, scan(r, skip, order, x, y)),
    decreases y, x,
{
    if x == 0 {
        if y == 0 {
            let blank = Seq::new(r.pixels.len(), |k: int| false);
            lemma_no_flag_set(blank, blank.len());
        } else {
            lemma_scan_tidy(r, skip, order, r.width, (y - 1) as nat);
        }
    } else {
        lemma_scan_tidy(r, skip, order, (x - 1) as nat, y);
        lemma_scan_pixel_tidy(r, skip, order, scan(r, skip, order, (x - 1) as nat, y), x - 1, y as int);
    }
}

/// Where no flag is set, the count of set flags is zero.
pub proof fn lemma_no_flag_set(flags: Seq<bool>, k: nat)
    requires
        k <= flags.len(),
        forall|i: int| 0 <= i < flags.len() ==> !flags[i],
    ensures
        crate::marking::marked_among(flags, k) == 0,
    decreases k,
{
    if k > 0 {
        lemma_no_flag_set(flags, (k - 1) as nat);
    }
}

/// The strokes of a raster are made of foreground pixels, use no pixel twice,
/// keep the minimum spacing, have at least one point each, and together hold
/// no more points than the raster has foreground pixels.
pub proof fn lemma_traced_edges(r: RasterView, skip: int, order: Traversal)
    requires
        r.wf(),
        r.width <= u32::MAX,
        r.height <= u32::MAX,
    ensures
        all_lit(r, traced_edges(r, skip, order)),
        distinct_points(traced_edges(r, skip, order)),
        all_spaced(traced_edges(r, skip, order), skip),
        none_empty(traced_edges(r, skip, order)),
        total_points(traced_edges(r, skip, order)) <= r.lit_count(),
{
    lemma_scan_tidy(r, skip, order, 0, r.height);
    let last = scan(r, skip, order, 0, r.height);
    lemma_marked_among_lit(r, last.visited, last.visited.len());
}

/// The scan of a raster without foreground pixels collects nothing.
pub proof fn lemma_scan_of_background(r: RasterView, skip: int, order: Traversal, x: nat, y: nat)
    requires
        r.wf(),
        x <= r.width,
        y <= r.height,
        y == r.height ==> x == 0,
        forall|k: int| 0 <= k < r.pixels.len() ==> r.pixels[k] <= FOREGROUND_THRESHOLD,
    ensures
        scan(r, skip, order, x, y).edges == Seq::<Seq<PixelIndex>>::empty(),
    decreases y, x,
{
    if x == 0 {
        if y > 0 {
            lemma_scan_of_background(r, skip, order, r.width, (y - 1) as nat);
        }
    } else {
        lemma_scan_of_background(r, skip, order, (x - 1) as nat, y);
        lemma_cell_in_range(r, x - 1, y as int);
    }
}

/// A raster without foreground pixels has no strokes, whatever its size and
/// whatever the spacing.
pub proof fn lemma_background_has_no_strokes(r: RasterView, skip: int, order: Traversal)
    requires
        r.wf(),
        forall|k: int| 0 <= k < r.pixels.len() ==> r.pixels[k] <= FOREGROUND_THRESHOLD,
    ensures
        traced_edges(r, skip, order).len() == 0,
{
    lemma_scan_of_background(r, skip, order, 0, r.height);
}

/// The strokes are a function of the raster, the spacing and the order of
/// exploration: the same input gives the same strokes.
pub proof fn lemma_same_input_same_strokes(
    first: RasterView,
    second: RasterView,
    skip: int,
    order: Traversal,
)
    requires
        first.width == second.width,
        first.height == second.height,
        first.pixels =~= second.pixels,
    ensures
        traced_edges(first, skip, order) == traced_edges(second, skip, order),
{
}

/// In a stroke that keeps the spacing, every point keeps it to the point
/// before it.
pub proof fn lemma_consecutive_points_are_spaced(edge: Seq<PixelIndex>, skip: int, i: int)
    requires
        spaced(edge, skip),
        0 < i < edge.len(),
    ensures
        manhattan(edge[i - 1], edge[i]) >= skip,
{
}

} // verus!
