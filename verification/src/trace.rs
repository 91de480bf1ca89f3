//! The flood-style trace of one stroke, as a function on states: which
//! neighbours a step discovers, which of them it accepts, and how steps chain
//! until nothing is pending.

use crate::canny::{around, as_pixel, inside, manhattan, neighbors, offsets, PixelIndex};
use crate::marking::{cell_of, is_lit, mark, on_raster, unclaimed};
use crate::raster::RasterView;
use vstd::prelude::*;

verus! {

/// In which order pending pixels are explored.
#[derive(Clone, Copy, Debug, PartialEq, Eq)]
pub enum Traversal {
    /// The pixel discovered last is explored first.
    DepthFirst,
    /// The pixel discovered first is explored first.
    BreadthFirst,
}

/// The test that a pixel is a foreground pixel of `r`.
pub open spec fn lit_on(r: RasterView) -> spec_fn(PixelIndex) -> bool {
    |p: PixelIndex| is_lit(r, p)
}

/// The test that a pixel's flag is not set.
pub open spec fn not_marked(r: RasterView, flags: Seq<bool>) -> spec_fn(PixelIndex) -> bool {
    |p: PixelIndex| !flags[cell_of(r, p)]
}

/// The foreground neighbours of `point`, in the order of the neighbourhood.
pub open spec fn edge_neighbors(r: RasterView, point: PixelIndex) -> Seq<PixelIndex> {
    neighbors(point, r.width as int, r.height as int).filter(lit_on(r))
}

/// The foreground neighbours of `point` that no trace has visited yet.
pub open spec fn fresh_neighbors(r: RasterView, visited: Seq<bool>, point: PixelIndex) -> Seq<
    PixelIndex,
> {
    edge_neighbors(r, point).filter(not_marked(r, visited))
}

/// Whether `p` keeps the minimum spacing to every point of `edge`.
pub open spec fn meets_spacing(p: PixelIndex, edge: Seq<PixelIndex>, skip: int) -> bool {
    forall|i: int| 0 <= i < edge.len() ==> manhattan(p, #[trigger] edge[i]) >= skip
}

/// The smallest distance from `p` to a point of `edge` (0 for an empty edge).
pub open spec fn nearest(p: PixelIndex, edge: Seq<PixelIndex>) -> int
    decreases edge.len(),
{
    if edge.len() == 0 {
        0
    } else if edge.len() == 1 {
        manhattan(p, edge[0])
    } else {
        let rest = nearest(p, edge.drop_last());
        let last = manhattan(p, edge.last());
        if last < rest {
            last
        } else {
            rest
        }
    }
}

/// The candidate that a step accepts into `edge`, if any. Only candidates
/// that keep the spacing to every accepted point count. While the edge is
/// empty the last of them wins; afterwards the first of those nearest to an
/// accepted point.
pub open spec fn best_fit(candidates: Seq<PixelIndex>, edge: Seq<PixelIndex>, skip: int) -> Option<
    PixelIndex,
>
    decreases candidates.len(),
{
    if candidates.len() == 0 {
        None
    } else {
        let earlier = best_fit(candidates.drop_last(), edge, skip);
        let p = candidates.last();
        if !meets_spacing(p, edge, skip) {
            earlier
        } else {
            match earlier {
                None => Some(p),
                Some(q) => if edge.len() == 0 || nearest(p, edge) < nearest(q, edge) {
                    Some(p)
                } else {
                    Some(q)
                },
            }
        }
    }
}

/// The state of a trace: the visited flags, the pixels waiting to be
/// explored, and the points accepted so far.
pub struct TraceState {
    pub visited: Seq<bool>,
    pub pending: Seq<PixelIndex>,
    pub edge: Seq<PixelIndex>,
}

/// The state with these flags, pending pixels and accepted points.
pub open spec fn state_of(visited: Seq<bool>, pending: Seq<PixelIndex>, edge: Seq<PixelIndex>) -> TraceState {
    TraceState { visited, pending, edge }
}

/// The state of a trace that has `seed` pending and nothing accepted.
pub open spec fn start_at(visited: Seq<bool>, seed: PixelIndex) -> TraceState {
    TraceState { visited, pending: seq![seed], edge: Seq::empty() }
}

/// The pending pixel that is explored next.
pub open spec fn next_pending(order: Traversal, pending: Seq<PixelIndex>) -> PixelIndex {
    match order {
        Traversal::DepthFirst => pending.last(),
        Traversal::BreadthFirst => pending.first(),
    }
}

/// The pending pixels once the next one has been taken.
pub open spec fn rest_pending(order: Traversal, pending: Seq<PixelIndex>) -> Seq<PixelIndex> {
    match order {
        Traversal::DepthFirst => pending.drop_last(),
        Traversal::BreadthFirst => pending.drop_first(),
    }
}

/// One step of a trace: take the next pending pixel, mark all its fresh
/// neighbours and make them pending, and accept at most one of them. A state
/// with nothing pending stays as it is.
pub open spec fn trace_step(r: RasterView, skip: int, order: Traversal, s: TraceState) -> TraceState {
    if s.pending.len() == 0 {
        s
    } else {
        let fresh = fresh_neighbors(r, s.visited, next_pending(order, s.pending));
        TraceState {
            visited: mark(r, s.visited, fresh),
            pending: rest_pending(order, s.pending) + fresh,
            edge: match best_fit(fresh, s.edge, skip) {
                Some(p) => s.edge.push(p),
                None => s.edge,
            },
        }
    }
}

/// The state after `n` steps.
pub open spec fn trace_steps(r: RasterView, skip: int, order: Traversal, s: TraceState, n: nat) -> TraceState
    decreases n,
{
    if n == 0 {
        s
    } else {
        trace_step(r, skip, order, trace_steps(r, skip, order, s, (n - 1) as nat))
    }
}

/// Whether nothing is pending after `n` steps.
pub open spec fn trace_halts(r: RasterView, skip: int, order: Traversal, s: TraceState, n: nat) -> bool {
    trace_steps(r, skip, order, s, n).pending.len() == 0
}

/// The state in which the trace that starts in `s` comes to rest.
pub open spec fn trace_result(r: RasterView, skip: int, order: Traversal, s: TraceState) -> TraceState {
    trace_steps(r, skip, order, s, choose|n: nat| trace_halts(r, skip, order, s, n))
}

/// A filter keeps a sequence free of duplicates.
pub proof fn lemma_filter_no_duplicates<A>(s: Seq<A>, keep: spec_fn(A) -> bool)
    requires
        s.no_duplicates(),
    ensures
        s.filter(keep).no_duplicates(),
        forall|i: int| 0 <= i < s.filter(keep).len() ==> s.contains(#[trigger] s.filter(keep)[i]) && keep(s.filter(keep)[i]),
    decreases s.len(),
{
    reveal(Seq::filter);
    if s.len() > 0 {
        let front = s.drop_last();
        assert(front.no_duplicates());
        lemma_filter_no_duplicates(front, keep);
        let kept = front.filter(keep);
        assert forall|i: int| 0 <= i < kept.len() implies s.contains(#[trigger] kept[i]) by {
            assert(front.contains(kept[i]));
            let j = choose|j: int| 0 <= j < front.len() && front[j] == kept[i];
            assert(s[j] == kept[i]);
        }
        if keep(s.last()) {
            assert(s.filter(keep) == kept.push(s.last()));
            assert forall|i: int| 0 <= i < kept.len() implies kept[i] != s.last() by {
                assert(front.contains(kept[i]));
                let j = choose|j: int| 0 <= j < front.len() && front[j] == kept[i];
                assert(s[j] == kept[i]);
            }
            assert(s.contains(s.last())) by {
                assert(s[s.len() - 1] == s.last());
            }
        }
    }
}

/// The neighbours of a pixel lie on the grid and are all different.
pub proof fn lemma_neighbors(point: PixelIndex, rows: int, cols: int)
    requires
        rows <= usize::MAX,
        cols <= usize::MAX,
    ensures
        neighbors(point, rows, cols).no_duplicates(),
        forall|i: int|
            0 <= i < neighbors(point, rows, cols).len() ==> 0 <= (#[trigger] neighbors(
                point,
                rows,
                cols,
            )[i]).x < rows && 0 <= neighbors(point, rows, cols)[i].y < cols,
{
    let ring = around(point);
    assert(ring.no_duplicates()) by {
        assert forall|i: int, j: int| 0 <= i < ring.len() && 0 <= j < ring.len() && i != j implies ring[i] != ring[j] by {
            assert(offsets()[i] != offsets()[j]);
        }
    }
    lemma_filter_no_duplicates(ring, inside(rows, cols));
    let kept = ring.filter(inside(rows, cols));
    let found = neighbors(point, rows, cols);
    assert(found.len() == kept.len());
    assert forall|i: int| 0 <= i < found.len() implies 0 <= (#[trigger] found[i]).x < rows && 0
        <= found[i].y < cols by {
        assert(inside(rows, cols)(kept[i]));
        assert(found[i] == as_pixel()(kept[i]));
    }
    assert forall|i: int, j: int| 0 <= i < found.len() && 0 <= j < found.len() && i != j implies found[i] != found[j] by {
        assert(inside(rows, cols)(kept[i]));
        assert(inside(rows, cols)(kept[j]));
        assert(found[i] == as_pixel()(kept[i]));
        assert(found[j] == as_pixel()(kept[j]));
        assert(kept[i] != kept[j]);
    }
}

/// The fresh neighbours of a pixel are unclaimed pixels of the raster.
pub proof fn lemma_fresh_neighbors(r: RasterView, visited: Seq<bool>, point: PixelIndex)
    requires
        r.width <= u32::MAX,
        r.height <= u32::MAX,
    ensures
        unclaimed(r, visited, fresh_neighbors(r, visited, point)),
        forall|j: int|
            0 <= j < fresh_neighbors(r, visited, point).len() ==> on_raster(
                r,
                #[trigger] fresh_neighbors(r, visited, point)[j],
            ),
{
    let near = neighbors(point, r.width as int, r.height as int);
    lemma_neighbors(point, r.width as int, r.height as int);
    lemma_filter_no_duplicates(near, lit_on(r));
    let edgy = edge_neighbors(r, point);
    lemma_filter_no_duplicates(edgy, not_marked(r, visited));
    let fresh = fresh_neighbors(r, visited, point);
    assert forall|j: int| 0 <= j < fresh.len() implies is_lit(r, #[trigger] fresh[j]) && !visited[cell_of(
        r,
        fresh[j],
    )] && on_raster(r, fresh[j]) by {
        assert(not_marked(r, visited)(fresh[j]));
        assert(edgy.contains(fresh[j]));
        let i = choose|i: int| 0 <= i < edgy.len() && edgy[i] == fresh[j];
        assert(lit_on(r)(edgy[i]));
    }
}

/// The candidate that a step accepts is one of the candidates and keeps the
/// spacing; where none is accepted, no candidate keeps it.
pub proof fn lemma_best_fit(candidates: Seq<PixelIndex>, edge: Seq<PixelIndex>, skip: int)
    ensures
        match best_fit(candidates, edge, skip) {
            Some(p) => candidates.contains(p) && meets_spacing(p, edge, skip),
            None => forall|j: int|
                0 <= j < candidates.len() ==> !meets_spacing(#[trigger] candidates[j], edge, skip),
        },
    decreases candidates.len(),
{
    if candidates.len() > 0 {
        let front = candidates.drop_last();
        lemma_best_fit(front, edge, skip);
        assert(candidates[candidates.len() - 1] == candidates.last());
        match best_fit(front, edge, skip) {
            Some(q) => {
                let j = choose|j: int| 0 <= j < front.len() && front[j] == q;
                assert(candidates[j] == q);
            },
            None => {
                assert forall|j: int| 0 <= j < candidates.len() - 1 implies !meets_spacing(
                    #[trigger] candidates[j],
                    edge,
                    skip,
                ) by {
                    assert(front[j] == candidates[j]);
                }
            },
        }
    }
}

/// The smallest distance to a point of a stroke is the distance to one of
/// its points, and no point of the stroke is nearer.
pub proof fn lemma_nearest(p: PixelIndex, edge: Seq<PixelIndex>)
    requires
        edge.len() > 0,
    ensures
        exists|k: int| 0 <= k < edge.len() && nearest(p, edge) == manhattan(p, #[trigger] edge[k]),
        forall|i: int| 0 <= i < edge.len() ==> nearest(p, edge) <= manhattan(p, #[trigger] edge[i]),
    decreases edge.len(),
{
    if edge.len() == 1 {
        assert(nearest(p, edge) == manhattan(p, edge[0]));
    } else {
        let front = edge.drop_last();
        lemma_nearest(p, front);
        let k = choose|k: int| 0 <= k < front.len() && nearest(p, front) == manhattan(p, #[trigger] front[k]);
        assert(front[k] == edge[k]);
        let last = edge.len() - 1;
        assert(edge.last() == edge[last]);
        if manhattan(p, edge.last()) < nearest(p, front) {
            assert(nearest(p, edge) == manhattan(p, edge[last]));
        } else {
            assert(nearest(p, edge) == manhattan(p, edge[k]));
        }
        assert forall|i: int| 0 <= i < edge.len() implies nearest(p, edge) <= manhattan(p, #[trigger] edge[i]) by {
            if i < front.len() {
                assert(front[i] == edge[i]);
            }
        }
    }
}

/// While nothing has been accepted, the last candidate is accepted. After
/// that, the accepted candidate is as near to the stroke as any candidate
/// that keeps the spacing, and nearer than every such candidate before it.
pub proof fn lemma_best_fit_is_tightest(candidates: Seq<PixelIndex>, edge: Seq<PixelIndex>, skip: int)
    ensures
        edge.len() == 0 && candidates.len() > 0 ==> best_fit(candidates, edge, skip) == Some(
            candidates.last(),
        ),
        edge.len() > 0 ==> (best_fit(candidates, edge, skip) matches Some(p) ==> exists|at: int|
            {
                &&& 0 <= at < candidates.len()
                &&& #[trigger] candidates[at] == p
                &&& forall|j: int|
                    0 <= j < candidates.len() && meets_spacing(#[trigger] candidates[j], edge, skip)
                        ==> nearest(p, edge) <= nearest(candidates[j], edge)
                &&& forall|j: int|
                    0 <= j < at && meets_spacing(#[trigger] candidates[j], edge, skip) ==> nearest(
                        p,
                        edge,
                    ) < nearest(candidates[j], edge)
            }),
    decreases candidates.len(),
{
    if candidates.len() > 0 {
        let front = candidates.drop_last();
        let last = candidates.len() - 1;
        lemma_best_fit_is_tightest(front, edge, skip);
        assert(candidates.last() == candidates[last]);
        if edge.len() > 0 {
            let earlier = best_fit(front, edge, skip);
            let fit = best_fit(candidates, edge, skip);
            match fit {
                Some(p) => {
                    lemma_best_fit(front, edge, skip);
                    if earlier == fit {
                        let at = choose|at: int|
                            {
                                &&& 0 <= at < front.len()
                                &&& #[trigger] front[at] == p
                                &&& forall|j: int|
                                    0 <= j < front.len() && meets_spacing(#[trigger] front[j], edge, skip)
                                        ==> nearest(p, edge) <= nearest(front[j], edge)
                                &&& forall|j: int|
                                    0 <= j < at && meets_spacing(#[trigger] front[j], edge, skip)
                                        ==> nearest(p, edge) < nearest(front[j], edge)
                            };
                        assert(candidates[at] == p);
                        assert forall|j: int|
                            0 <= j < candidates.len() && meets_spacing(
                                #[trigger] candidates[j],
                                edge,
                                skip,
                            ) implies nearest(p, edge) <= nearest(candidates[j], edge) by {
                            if j < last {
                                assert(front[j] == candidates[j]);
                            }
                        }
                        assert forall|j: int|
                            0 <= j < at && meets_spacing(#[trigger] candidates[j], edge, skip) implies nearest(
                            p,
                            edge,
                        ) < nearest(candidates[j], edge) by {
                            assert(front[j] == candidates[j]);
                        }
                    } else {
                        assert(p == candidates[last]);
                        assert forall|j: int|
                            0 <= j < candidates.len() && meets_spacing(
                                #[trigger] candidates[j],
                                edge,
                                skip,
                            ) implies nearest(p, edge) <= nearest(candidates[j], edge) by {
                            if j < last {
                                assert(front[j] == candidates[j]);
                            }
                        }
                        assert forall|j: int|
                            0 <= j < last && meets_spacing(#[trigger] candidates[j], edge, skip) implies nearest(
                            p,
                            edge,
                        ) < nearest(candidates[j], edge) by {
                            assert(front[j] == candidates[j]);
                        }
                    }
                },
                None => {},
            }
        }
    }
}

} // verus!
