//! From a binary edge raster to strokes: pixel neighbourhoods and the
//! flood-style trace that picks, with a minimum spacing, the points of each
//! connected stroke.

pub use crate::cnc::to_cnc;
pub use crate::tracer::PenDirection;

use crate::marking::{is_lit, mark, on_raster};
use crate::raster::{lemma_cell_in_range, Raster, RasterView};
use crate::scan::{
    all_lit, all_spaced, distinct_points, effort, lemma_scan_tidy, lemma_seeded_orderly,
    lemma_step_orderly, lemma_traced_edges, none_empty, orderly, pixel, scan, total_points,
    traced_edges, ScanState,
};
use crate::trace::{
    best_fit, edge_neighbors, fresh_neighbors, lemma_fresh_neighbors, lemma_neighbors, lit_on,
    meets_spacing, nearest, not_marked, rest_pending, start_at, state_of, trace_result, trace_steps,
    Traversal,
};
use vstd::prelude::*;

verus! {

/// A position on the pixel grid.
#[derive(Debug, PartialEq, Eq)]
pub struct SPixelIndex<T> {
    pub x: T,
    pub y: T,
}

impl<T: Copy> Clone for SPixelIndex<T> {
    fn clone(&self) -> (copy: Self)
        ensures
            copy == *self,
    {
        SPixelIndex { x: self.x, y: self.y }
    }
}

impl<T: Copy> Copy for SPixelIndex<T> {

}

/// A pixel position as the traversal uses it.
pub type PixelIndex = SPixelIndex<usize>;

/// One traced stroke: its accepted points in the order of acceptance.
pub type Edge = Vec<PixelIndex>;

/// One stroke of a vectorization record.
pub type SEdge<T> = Vec<SPixelIndex<T>>;

/// The strokes of a vectorization record.
pub type SEdges<T> = Vec<SEdge<T>>;

/// The record of one vectorization: the strokes, the raster's extent, and
/// the skips that gave the spacing between points.
#[derive(Debug, PartialEq, Eq)]
pub struct SerializebleComputation {
    /// The strokes, in the order in which the scan found them.
    pub edges: SEdges<usize>,
    /// Width of the raster.
    pub width: usize,
    /// Height of the raster.
    pub height: usize,
    /// Pixels skipped along a row.
    pub dx_skip: usize,
    /// Pixels skipped along a column.
    pub dy_skip: usize,
    /// The spacing between points: the sum of both skips, in 64 bits so
    /// that the sum always fits.
    pub px_skip: u64,
}

impl Clone for SerializebleComputation {
    fn clone(&self) -> (copy: Self)
        ensures
            copy.strokes() == self.strokes(),
            copy.width == self.width,
            copy.height == self.height,
            copy.dx_skip == self.dx_skip,
            copy.dy_skip == self.dy_skip,
            copy.px_skip == self.px_skip,
    {
        let mut edges: SEdges<usize> = Vec::new();
        let mut a: usize = 0;
        while a < self.edges.len()
            invariant
                a <= self.edges.len(),
                strokes_of(edges@) == strokes_of(self.edges@).take(a as int),
            decreases self.edges.len() - a,
        {
            let edge = copy_edge(&self.edges[a]);
            proof {
                assert(strokes_of(edges@.push(edge)) =~= strokes_of(edges@).push(edge@));
                assert(strokes_of(self.edges@).take(a + 1) =~= strokes_of(self.edges@).take(a as int).push(
                    self.edges@[a as int]@,
                ));
            }
            edges.push(edge);
            a = a + 1;
        }
        proof {
            assert(strokes_of(self.edges@).take(self.edges.len() as int) =~= strokes_of(self.edges@));
        }
        SerializebleComputation {
            edges,
            width: self.width,
            height: self.height,
            dx_skip: self.dx_skip,
            dy_skip: self.dy_skip,
            px_skip: self.px_skip,
        }
    }
}

/// A copy of a stroke.
fn copy_edge(edge: &Vec<PixelIndex>) -> (copy: Vec<PixelIndex>)
    ensures
        copy@ == edge@,
{
    let mut copy: Vec<PixelIndex> = Vec::new();
    let mut i: usize = 0;
    while i < edge.len()
        invariant
            i <= edge.len(),
            copy@ == edge@.take(i as int),
        decreases edge.len() - i,
    {
        copy.push(edge[i]);
        assert(edge@.take(i + 1) =~= edge@.take(i as int).push(edge@[i as int]));
        i = i + 1;
    }
    assert(edge@.take(edge.len() as int) =~= edge@);
    copy
}

impl SerializebleComputation {
    /// The strokes of the record.
    pub open spec fn strokes(self) -> Seq<Seq<PixelIndex>> {
        strokes_of(self.edges@)
    }

    /// The spacing is the sum of both skips, and every point lies on the
    /// raster.
    pub open spec fn wf(self) -> bool {
        &&& self.px_skip == self.dx_skip + self.dy_skip
        &&& forall|a: int, i: int|
            0 <= a < self.strokes().len() && 0 <= i < self.strokes()[a].len() ==> (
            #[trigger] self.strokes()[a][i]).x < self.width && self.strokes()[a][i].y < self.height
    }
}

/// Distance between two positions on a line.
pub open spec fn gap(a: int, b: int) -> int {
    if a <= b {
        b - a
    } else {
        a - b
    }
}

/// Manhattan distance between two pixels.
pub open spec fn manhattan(a: PixelIndex, b: PixelIndex) -> int {
    gap(a.x as int, b.x as int) + gap(a.y as int, b.y as int)
}

/// The eight steps to the pixels around a pixel, in the order in which the
/// traversal looks at them.
pub open spec fn offsets() -> Seq<(int, int)> {
    seq![(-1, -1), (-1, 0), (-1, 1), (0, -1), (0, 1), (1, -1), (1, 0), (1, 1)]
}

/// The eight positions around `point`, whether or not they lie on any grid.
pub open spec fn around(point: PixelIndex) -> Seq<(int, int)> {
    Seq::new(8, |k: int| (point.x + offsets()[k].0, point.y + offsets()[k].1))
}

/// The test that a position lies on a grid of `rows` columns by `cols` rows.
pub open spec fn inside(rows: int, cols: int) -> spec_fn((int, int)) -> bool {
    |q: (int, int)| 0 <= q.0 < rows && 0 <= q.1 < cols
}

/// A position with non-negative coordinates, as a pixel.
pub open spec fn as_pixel() -> spec_fn((int, int)) -> PixelIndex {
    |q: (int, int)| PixelIndex { x: q.0 as usize, y: q.1 as usize }
}

/// The 8-connected neighbours of `point` that lie on the grid, in the order
/// of `offsets`.
pub open spec fn neighbors(point: PixelIndex, rows: int, cols: int) -> Seq<PixelIndex> {
    around(point).filter(inside(rows, cols)).map_values(as_pixel())
}

/// The `k`-th step of `offsets`.
fn offset(k: usize) -> (d: (i8, i8))
    requires
        k < 8,
    ensures
        d.0 == offsets()[k as int].0,
        d.1 == offsets()[k as int].1,
{
    if k == 0 {
        (-1, -1)
    } else if k == 1 {
        (-1, 0)
    } else if k == 2 {
        (-1, 1)
    } else if k == 3 {
        (0, -1)
    } else if k == 4 {
        (0, 1)
    } else if k == 5 {
        (1, -1)
    } else if k == 6 {
        (1, 0)
    } else {
        (1, 1)
    }
}

/// Moves a coordinate by one step and keeps it when it stays below `bound`.
fn step_within(v: usize, d: i8, bound: u32) -> (moved: Option<usize>)
    requires
        -1 <= d <= 1,
    ensures
        moved is Some <==> 0 <= v + d < bound,
        moved matches Some(m) ==> m == v + d,
{
    if d == -1 {
        if v == 0 || v - 1 >= bound as usize {
            None
        } else {
            Some(v - 1)
        }
    } else if d == 0 {
        if v >= bound as usize {
            None
        } else {
            Some(v)
        }
    } else {
        if v >= bound as usize || v + 1 >= bound as usize {
            None
        } else {
            Some(v + 1)
        }
    }
}

/// The neighbours of `point` on a grid of `rows` columns by `cols` rows.
pub fn get_neighbors(point: PixelIndex, rows: u32, cols: u32) -> (found: Vec<PixelIndex>)
    ensures
        found@ == neighbors(point, rows as int, cols as int),
{
    let mut found: Vec<PixelIndex> = Vec::new();
    let mut k: usize = 0;
    while k < 8
        invariant
            k <= 8,
            found@ == around(point).take(k as int).filter(inside(rows as int, cols as int)).map_values(
                as_pixel(),
            ),
        decreases 8 - k,
    {
        let d = offset(k);
        proof {
            let seen = around(point).take(k as int);
            let next = around(point)[k as int];
            assert(around(point).take(k + 1) =~= seen.push(next));
            seen.lemma_filter_push(next, inside(rows as int, cols as int));
            let kept = seen.filter(inside(rows as int, cols as int));
            assert(kept.push(next).map_values(as_pixel()) =~= kept.map_values(as_pixel()).push(
                as_pixel()(next),
            ));
        }
        match (step_within(point.x, d.0, rows), step_within(point.y, d.1, cols)) {
            (Some(x), Some(y)) => {
                found.push(PixelIndex { x, y });
            },
            _ => {},
        }
        k = k + 1;
    }
    proof {
        assert(around(point).take(8) =~= around(point));
    }
    found
}

/// The foreground neighbours of `point` on `raster`.
pub fn get_edge_neighbors(point: PixelIndex, raster: &Raster) -> (found: Vec<PixelIndex>)
    ensures
        found@ == edge_neighbors(raster@, point),
{
    let near = get_neighbors(point, raster.width(), raster.height());
    let mut found: Vec<PixelIndex> = Vec::new();
    let mut i: usize = 0;
    while i < near.len()
        invariant
            i <= near.len(),
            found@ == near@.take(i as int).filter(lit_on(raster@)),
        decreases near.len() - i,
    {
        let p = near[i];
        proof {
            assert(near@.take(i + 1) =~= near@.take(i as int).push(p));
            near@.take(i as int).lemma_filter_push(p, lit_on(raster@));
        }
        if raster.is_lit(p.x, p.y) {
            found.push(p);
        }
        i = i + 1;
    }
    proof {
        assert(near@.take(near.len() as int) =~= near@);
    }
    found
}

/// The foreground neighbours of `point` whose flag is not set.
fn fresh_of(point: PixelIndex, raster: &Raster, visited: &Vec<bool>) -> (found: Vec<PixelIndex>)
    requires
        visited@.len() == raster@.pixels.len(),
    ensures
        found@ == fresh_neighbors(raster@, visited@, point),
{
    let lit = get_edge_neighbors(point, raster);
    let width = raster.width();
    let height = raster.height();
    let mut found: Vec<PixelIndex> = Vec::new();
    let mut i: usize = 0;
    proof {
        lemma_neighbors(point, width as int, height as int);
        crate::trace::lemma_filter_no_duplicates(
            neighbors(point, width as int, height as int),
            lit_on(raster@),
        );
    }
    while i < lit.len()
        invariant
            i <= lit.len(),
            visited@.len() == raster@.pixels.len(),
            raster@.wf(),
            forall|k: int| 0 <= k < lit@.len() ==> is_lit(raster@, #[trigger] lit@[k]),
            found@ == lit@.take(i as int).filter(not_marked(raster@, visited@)),
        decreases lit.len() - i,
    {
        let p = lit[i];
        proof {
            assert(is_lit(raster@, lit@[i as int]));
            assert(lit@.take(i + 1) =~= lit@.take(i as int).push(p));
            lit@.take(i as int).lemma_filter_push(p, not_marked(raster@, visited@));
        }
        let at = raster.cell_index(p.x, p.y);
        if !visited[at] {
            found.push(p);
        }
        i = i + 1;
    }
    proof {
        assert(lit@.take(lit.len() as int) =~= lit@);
    }
    found
}

/// Manhattan distance between two pixels of a raster.
fn distance(a: PixelIndex, b: PixelIndex) -> (d: u64)
    requires
        a.x <= u32::MAX,
        a.y <= u32::MAX,
        b.x <= u32::MAX,
        b.y <= u32::MAX,
    ensures
        d == manhattan(a, b),
{
    let across: u64 = if a.x <= b.x {
        (b.x - a.x) as u64
    } else {
        (a.x - b.x) as u64
    };
    let down: u64 = if a.y <= b.y {
        (b.y - a.y) as u64
    } else {
        (a.y - b.y) as u64
    };
    across + down
}

/// The distance from `p` to the nearest point of `edge`, unless one of them
/// is closer than `skip`.
fn spacing_cost(p: PixelIndex, edge: &Vec<PixelIndex>, skip: u64) -> (cost: Option<u64>)
    requires
        p.x <= u32::MAX,
        p.y <= u32::MAX,
        forall|i: int| 0 <= i < edge@.len() ==> (#[trigger] edge@[i]).x <= u32::MAX && edge@[i].y <= u32::MAX,
    ensures
        cost is Some <==> meets_spacing(p, edge@, skip as int),
        cost matches Some(d) ==> d == nearest(p, edge@),
{
    let mut least: u64 = 0;
    let mut i: usize = 0;
    while i < edge.len()
        invariant
            i <= edge.len(),
            p.x <= u32::MAX,
            p.y <= u32::MAX,
            forall|k: int| 0 <= k < edge@.len() ==> (#[trigger] edge@[k]).x <= u32::MAX && edge@[k].y <= u32::MAX,
            forall|k: int| 0 <= k < i ==> manhattan(p, #[trigger] edge@[k]) >= skip,
            least == nearest(p, edge@.take(i as int)),
        decreases edge.len() - i,
    {
        let q = edge[i];
        assert(edge@[i as int].x <= u32::MAX);
        let d = distance(p, q);
        if d < skip {
            return None;
        }
        proof {
            assert(edge@.take(i + 1).drop_last() =~= edge@.take(i as int));
            assert(edge@.take(i + 1).last() == q);
        }
        if i == 0 || d < least {
            least = d;
        }
        i = i + 1;
    }
    proof {
        assert(edge@.take(edge.len() as int) =~= edge@);
    }
    Some(least)
}

/// The candidate that a step accepts into `edge`, if any.
fn choose_best(candidates: &Vec<PixelIndex>, edge: &Vec<PixelIndex>, skip: u64) -> (best: Option<
    PixelIndex,
>)
    requires
        forall|i: int|
            0 <= i < candidates@.len() ==> (#[trigger] candidates@[i]).x <= u32::MAX && candidates@[i].y
                <= u32::MAX,
        forall|i: int| 0 <= i < edge@.len() ==> (#[trigger] edge@[i]).x <= u32::MAX && edge@[i].y <= u32::MAX,
    ensures
        best == best_fit(candidates@, edge@, skip as int),
{
    let mut best: Option<PixelIndex> = None;
    let mut best_cost: u64 = 0;
    let mut j: usize = 0;
    while j < candidates.len()
        invariant
            j <= candidates.len(),
            forall|i: int|
                0 <= i < candidates@.len() ==> (#[trigger] candidates@[i]).x <= u32::MAX
                    && candidates@[i].y <= u32::MAX,
            forall|i: int| 0 <= i < edge@.len() ==> (#[trigger] edge@[i]).x <= u32::MAX && edge@[i].y <= u32::MAX,
            best == best_fit(candidates@.take(j as int), edge@, skip as int),
            best matches Some(q) ==> best_cost == nearest(q, edge@),
        decreases candidates.len() - j,
    {
        let p = candidates[j];
        assert(candidates@[j as int].x <= u32::MAX);
        proof {
            assert(candidates@.take(j + 1).drop_last() =~= candidates@.take(j as int));
            assert(candidates@.take(j + 1).last() == p);
        }
        match spacing_cost(p, edge, skip) {
            Some(d) => {
                if best.is_none() || edge.len() == 0 || d < best_cost {
                    best = Some(p);
                    best_cost = d;
                }
            },
            None => {},
        }
        j = j + 1;
    }
    proof {
        assert(candidates@.take(candidates.len() as int) =~= candidates@);
    }
    best
}

/// Why a raster could not be vectorized.
#[derive(Clone, Copy, Debug, PartialEq, Eq)]
pub enum VectorizationError {
    /// The target width or the target height is zero, so the spacing
    /// between points cannot be derived.
    InvalidPrecision,
}

/// How many pixels stand for one pixel of the target along one axis.
pub open spec fn axis_skip(extent: int, target: int) -> int {
    extent / target
}

/// The minimum spacing between the points of a stroke: the sum of the skips
/// along both axes.
pub open spec fn cost_skip(r: RasterView, target_width: int, target_height: int) -> int {
    axis_skip(r.width as int, target_width) + axis_skip(r.height as int, target_height)
}

/// The strokes that a vector of edges holds.
pub open spec fn strokes_of(edges: Seq<Vec<PixelIndex>>) -> Seq<Seq<PixelIndex>> {
    Seq::new(edges.len(), |a: int| edges[a]@)
}

/// Runs the trace that is seeded at `seed` until nothing is pending, and
/// returns its stroke. The seed's flag is already set.
fn trace_edge(
    raster: &Raster,
    skip: u64,
    order: Traversal,
    seed: PixelIndex,
    visited: &mut Vec<bool>,
    Ghost(done): Ghost<Seq<Seq<PixelIndex>>>,
) -> (edge: Vec<PixelIndex>)
    requires
        orderly(
            raster@,
            skip as int,
            done,
            start_at(old(visited)@, seed),
        ),
    ensures
        ({
            let start = start_at(old(visited)@, seed);
            let rest = trace_result(raster@, skip as int, order, start);
            &&& final(visited)@ == rest.visited
            &&& edge@ == rest.edge
            &&& rest.pending.len() == 0
            &&& orderly(raster@, skip as int, done, rest)
        }),
{
    let width = raster.width();
    let height = raster.height();
    let mut pending: Vec<PixelIndex> = Vec::new();
    pending.push(seed);
    let mut edge: Vec<PixelIndex> = Vec::new();
    let ghost start = start_at(visited@, seed);
    let ghost mut steps: nat = 0;
    proof {
        assert(pending@ =~= seq![seed]);
        assert(edge@ =~= Seq::<PixelIndex>::empty());
    }
    while pending.len() > 0
        invariant
            raster@.wf(),
            raster@.width <= u32::MAX,
            raster@.height <= u32::MAX,
            orderly(
                raster@,
                skip as int,
                done,
                state_of(visited@, pending@, edge@),
            ),
            state_of(visited@, pending@, edge@) == trace_steps(
                raster@,
                skip as int,
                order,
                start,
                steps,
            ),
        decreases effort(state_of(visited@, pending@, edge@)),
    {
        let ghost before = state_of(visited@, pending@, edge@);
        let current = match order {
            Traversal::DepthFirst => pending.pop().unwrap(),
            Traversal::BreadthFirst => pending.remove(0),
        };
        proof {
            assert(current == crate::trace::next_pending(order, before.pending));
            assert(pending@ =~= rest_pending(order, before.pending));
        }
        let fresh = fresh_of(current, raster, visited);
        proof {
            lemma_fresh_neighbors(raster@, before.visited, current);
            lemma_step_orderly(raster@, skip as int, order, done, before);
        }
        let mut j: usize = 0;
        while j < fresh.len()
            invariant
                j <= fresh.len(),
                raster@.wf(),
                before.visited.len() == raster@.pixels.len(),
                forall|k: int| 0 <= k < fresh@.len() ==> on_raster(raster@, #[trigger] fresh@[k]),
                visited@ == mark(raster@, before.visited, fresh@.take(j as int)),
                visited@.len() == raster@.pixels.len(),
                pending@ == rest_pending(order, before.pending) + fresh@.take(j as int),
            decreases fresh.len() - j,
        {
            let p = fresh[j];
            assert(on_raster(raster@, fresh@[j as int]));
            let at = raster.cell_index(p.x, p.y);
            visited.set(at, true);
            pending.push(p);
            proof {
                assert(fresh@.take(j + 1).drop_last() =~= fresh@.take(j as int));
                assert(fresh@.take(j + 1).last() == p);
                assert(fresh@.take(j + 1) =~= fresh@.take(j as int).push(p));
            }
            j = j + 1;
        }
        proof {
            assert(fresh@.take(fresh.len() as int) =~= fresh@);
            let strokes = done.push(before.edge);
            assert(strokes[done.len() as int] == before.edge);
            assert forall|i: int| 0 <= i < edge@.len() implies (#[trigger] edge@[i]).x <= u32::MAX
                && edge@[i].y <= u32::MAX by {
                assert(is_lit(raster@, strokes[done.len() as int][i]));
            }
            assert forall|i: int| 0 <= i < fresh@.len() implies (#[trigger] fresh@[i]).x <= u32::MAX
                && fresh@[i].y <= u32::MAX by {
                assert(on_raster(raster@, fresh@[i]));
            }
        }
        match choose_best(&fresh, &edge, skip) {
            Some(p) => {
                edge.push(p);
            },
            None => {},
        }
        proof {
            steps = steps + 1;
            crate::marking::lemma_marked_among_bound(visited@, visited@.len());
        }
    }
    proof {
        crate::scan::lemma_trace_result(raster@, skip as int, order, start, steps);
    }
    edge
}

/// The scan state that the flags and the edges collected so far stand for.
pub open spec fn scan_state(visited: Seq<bool>, edges: Seq<Vec<PixelIndex>>) -> ScanState {
    ScanState { visited, edges: strokes_of(edges) }
}

/// The strokes of `raster` for a given spacing between the points of a
/// stroke: the raster is scanned in raster order, and a trace is started at
/// every foreground pixel that no earlier trace has visited.
///
/// The strokes are made of foreground pixels, use no pixel twice, keep the
/// spacing between any two points of one stroke, have at least one point
/// each, and together hold no more points than the raster has foreground
/// pixels.
pub fn trace_strokes(raster: &Raster, skip: u64, order: Traversal) -> (edges: Vec<Edge>)
    ensures
        strokes_of(edges@) == traced_edges(raster@, skip as int, order),
        all_lit(raster@, strokes_of(edges@)),
        distinct_points(strokes_of(edges@)),
        all_spaced(strokes_of(edges@), skip as int),
        none_empty(strokes_of(edges@)),
        total_points(strokes_of(edges@)) <= raster@.lit_count(),
{
    let width = raster.width();
    let height = raster.height();
    let mut visited: Vec<bool> = vec![false; raster.area()];
    let mut edges: Vec<Edge> = Vec::new();
    proof {
        lemma_traced_edges(raster@, skip as int, order);
        assert(visited@ =~= Seq::new(raster@.pixels.len(), |k: int| false));
        assert(strokes_of(edges@) =~= Seq::<Seq<PixelIndex>>::empty());
    }
    let mut y: u32 = 0;
    while y < height
        invariant
            y <= height,
            raster@.wf(),
            width == raster@.width,
            height == raster@.height,
            scan_state(visited@, edges@) == scan(raster@, skip as int, order, 0, y as nat),
        decreases height - y,
    {
        let mut x: u32 = 0;
        while x < width
            invariant
                x <= width,
                y < height,
                raster@.wf(),
                width == raster@.width,
                height == raster@.height,
                scan_state(visited@, edges@) == scan(raster@, skip as int, order, x as nat, y as nat),
            decreases width - x,
        {
            let ghost before = scan_state(visited@, edges@);
            proof {
                lemma_scan_tidy(raster@, skip as int, order, x as nat, y as nat);
                lemma_cell_in_range(raster@, x as int, y as int);
            }
            let at = raster.cell_index(x as usize, y as usize);
            if raster.is_lit(x as usize, y as usize) && !visited[at] {
                let seed = PixelIndex { x: x as usize, y: y as usize };
                proof {
                    lemma_seeded_orderly(raster@, skip as int, before, x as int, y as int);
                    assert(seed == pixel(x as int, y as int));
                }
                visited.set(at, true);
                let edge = trace_edge(raster, skip, order, seed, &mut visited, Ghost(strokes_of(edges@)));
                if edge.len() > 0 {
                    proof {
                        assert(strokes_of(edges@.push(edge)) =~= strokes_of(edges@).push(edge@));
                    }
                    edges.push(edge);
                }
            }
            x = x + 1;
        }
        y = y + 1;
    }
    edges
}

/// Vectorizes `raster`, exploring pending pixels in the given order.
///
/// The caller hands in the target extent: the raster's extent scaled by the
/// precision factor and rounded down. The spacing between the points of a
/// stroke is `cost_skip`, and the result is exactly what the scan of the
/// raster collects for that spacing. Fails exactly when the target width or
/// the target height is zero.
pub fn to_points_with(raster: &Raster, target_width: u32, target_height: u32, order: Traversal) -> (result:
    Result<Vec<Edge>, VectorizationError>)
    ensures
        result is Err <==> target_width == 0 || target_height == 0,
        result matches Err(e) ==> e == VectorizationError::InvalidPrecision,
        result matches Ok(edges) ==> {
            let skip = cost_skip(raster@, target_width as int, target_height as int);
            &&& strokes_of(edges@) == traced_edges(raster@, skip, order)
            &&& all_lit(raster@, strokes_of(edges@))
            &&& distinct_points(strokes_of(edges@))
            &&& all_spaced(strokes_of(edges@), skip)
            &&& none_empty(strokes_of(edges@))
            &&& total_points(strokes_of(edges@)) <= raster@.lit_count()
        },
{
    if target_width == 0 || target_height == 0 {
        return Err(VectorizationError::InvalidPrecision);
    }
    let skip: u64 = (raster.width() / target_width) as u64 + (raster.height() / target_height) as u64;
    Ok(trace_strokes(raster, skip, order))
}

/// Vectorizes `raster` depth first: the pixel discovered last is explored
/// first, which gives long continuous strokes.
///
/// Fails exactly when the target width or the target height is zero. The
/// strokes are made of foreground pixels, use no pixel twice, keep the
/// spacing `cost_skip` between any two points of one stroke, have at least
/// one point each, and together hold no more points than the raster has
/// foreground pixels.
pub fn to_points(raster: &Raster, target_width: u32, target_height: u32) -> (result: Result<
    Vec<Edge>,
    VectorizationError,
>)
    ensures
        result is Err <==> target_width == 0 || target_height == 0,
        result matches Err(e) ==> e == VectorizationError::InvalidPrecision,
        result matches Ok(edges) ==> {
            let skip = cost_skip(raster@, target_width as int, target_height as int);
            &&& strokes_of(edges@) == traced_edges(raster@, skip, Traversal::DepthFirst)
            &&& all_lit(raster@, strokes_of(edges@))
            &&& distinct_points(strokes_of(edges@))
            &&& all_spaced(strokes_of(edges@), skip)
            &&& none_empty(strokes_of(edges@))
            &&& total_points(strokes_of(edges@)) <= raster@.lit_count()
        },
{
    to_points_with(raster, target_width, target_height, Traversal::DepthFirst)
}

/// The record of the strokes of `raster` for the given skips.
fn record_of(raster: &Raster, edges: Vec<Edge>, dx_skip: u32, dy_skip: u32) -> (record:
    SerializebleComputation)
    requires
        all_lit(raster@, strokes_of(edges@)),
    ensures
        record.edges == edges,
        record.width == raster@.width,
        record.height == raster@.height,
        record.dx_skip == dx_skip,
        record.dy_skip == dy_skip,
        record.px_skip == dx_skip + dy_skip,
        record.wf(),
{
    let record = SerializebleComputation {
        edges,
        width: raster.width() as usize,
        height: raster.height() as usize,
        dx_skip: dx_skip as usize,
        dy_skip: dy_skip as usize,
        px_skip: dx_skip as u64 + dy_skip as u64,
    };
    proof {
        assert forall|a: int, i: int|
            0 <= a < record.strokes().len() && 0 <= i < record.strokes()[a].len() implies (
        #[trigger] record.strokes()[a][i]).x < record.width && record.strokes()[a][i].y < record.height by {
            assert(is_lit(raster@, record.strokes()[a][i]));
        }
    }
    record
}

/// Vectorizes `raster` and records the result with the raster's extent and
/// the skips.
///
/// Fails exactly when the target width or the target height is zero.
pub fn to_serializable_points(raster: &Raster, target_width: u32, target_height: u32) -> (result:
    Result<SerializebleComputation, VectorizationError>)
    ensures
        result is Err <==> target_width == 0 || target_height == 0,
        result matches Err(e) ==> e == VectorizationError::InvalidPrecision,
        result matches Ok(record) ==> {
            let skip = cost_skip(raster@, target_width as int, target_height as int);
            &&& record.width == raster@.width
            &&& record.height == raster@.height
            &&& record.dx_skip == axis_skip(raster@.width as int, target_width as int)
            &&& record.dy_skip == axis_skip(raster@.height as int, target_height as int)
            &&& record.px_skip == skip
            &&& record.wf()
            &&& record.strokes() == traced_edges(raster@, skip, Traversal::DepthFirst)
            &&& distinct_points(record.strokes())
            &&& all_spaced(record.strokes(), skip)
            &&& none_empty(record.strokes())
            &&& total_points(record.strokes()) <= raster@.lit_count()
        },
{
    match to_points(raster, target_width, target_height) {
        Err(e) => Err(e),
        Ok(edges) => Ok(
            record_of(raster, edges, raster.width() / target_width, raster.height() / target_height),
        ),
    }
}

/// A precision factor as a ratio: `numerator / denominator`. A ratio with
/// denominator zero stands for no precision at all.
#[derive(Clone, Copy, Debug, PartialEq, Eq)]
pub struct Precision {
    pub numerator: u32,
    pub denominator: u32,
}

impl Precision {
    /// The target extent for an extent: the extent scaled by the precision
    /// and rounded down, and zero where the precision has no value.
    pub open spec fn target(self, extent: int) -> int {
        if self.denominator == 0 {
            0
        } else {
            extent * self.numerator / (self.denominator as int)
        }
    }

    /// The target extent for an extent.
    pub fn target_extent(&self, extent: u32) -> (target: u64)
        ensures
            target == self.target(extent as int),
    {
        if self.denominator == 0 {
            0
        } else {
            assert(extent * self.numerator <= 0xffff_ffff * 0xffff_ffff) by (nonlinear_arith)
                requires
                    0 <= extent <= 0xffff_ffff,
                    0 <= self.numerator <= 0xffff_ffff,
            ;
            extent as u64 * self.numerator as u64 / self.denominator as u64
        }
    }
}

/// Vectorizes `raster` with a precision factor, depth first.
///
/// The target extent is the raster's extent scaled by the precision and
/// rounded down; the skip along an axis is the extent divided by its target,
/// rounded down; the spacing between the points of a stroke is the sum of
/// both skips. Fails exactly when the target width or the target height is
/// zero.
pub fn vectorize(raster: &Raster, precision: Precision) -> (result: Result<
    SerializebleComputation,
    VectorizationError,
>)
    ensures
        result is Err <==> precision.target(raster@.width as int) == 0 || precision.target(
            raster@.height as int,
        ) == 0,
        result matches Err(e) ==> e == VectorizationError::InvalidPrecision,
        result matches Ok(record) ==> {
            let dx = axis_skip(raster@.width as int, precision.target(raster@.width as int));
            let dy = axis_skip(raster@.height as int, precision.target(raster@.height as int));
            &&& record.width == raster@.width
            &&& record.height == raster@.height
            &&& record.dx_skip == dx
            &&& record.dy_skip == dy
            &&& record.px_skip == dx + dy
            &&& record.wf()
            &&& record.strokes() == traced_edges(raster@, dx + dy, Traversal::DepthFirst)
            &&& distinct_points(record.strokes())
            &&& all_spaced(record.strokes(), dx + dy)
            &&& none_empty(record.strokes())
            &&& total_points(record.strokes()) <= raster@.lit_count()
        },
{
    let width = raster.width();
    let height = raster.height();
    let target_width = precision.target_extent(width);
    let target_height = precision.target_extent(height);
    if target_width == 0 || target_height == 0 {
        return Err(VectorizationError::InvalidPrecision);
    }
    let dx_skip: u32 = (width as u64 / target_width) as u32;
    let dy_skip: u32 = (height as u64 / target_height) as u32;
    let edges = trace_strokes(raster, dx_skip as u64 + dy_skip as u64, Traversal::DepthFirst);
    Ok(record_of(raster, edges, dx_skip, dy_skip))
}

} // verus!
