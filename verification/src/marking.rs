//! The visited matrix as mathematics: one flag per pixel in raster order,
//! how many flags are set, and what marking a list of pixels does to them.

use crate::canny::PixelIndex;
use crate::raster::{lemma_cell_in_range, lemma_cell_injective, RasterView, FOREGROUND_THRESHOLD};
use vstd::prelude::*;

verus! {

/// Position of pixel `p` in raster order.
pub open spec fn cell_of(r: RasterView, p: PixelIndex) -> int {
    r.cell(p.x as int, p.y as int)
}

/// Whether `p` is a pixel of the raster.
pub open spec fn on_raster(r: RasterView, p: PixelIndex) -> bool {
    r.within(p.x as int, p.y as int)
}

/// Whether `p` is a foreground pixel of the raster.
pub open spec fn is_lit(r: RasterView, p: PixelIndex) -> bool {
    r.lit(p.x as int, p.y as int)
}

/// Number of set flags among the first `k`.
pub open spec fn marked_among(flags: Seq<bool>, k: nat) -> nat
    decreases k,
{
    if k == 0 {
        0
    } else {
        marked_among(flags, (k - 1) as nat) + if flags[k - 1] {
            1nat
        } else {
            0nat
        }
    }
}

/// Number of set flags.
pub open spec fn marked_count(flags: Seq<bool>) -> nat {
    marked_among(flags, flags.len())
}

/// Number of flags that are not set.
pub open spec fn unmarked_count(flags: Seq<bool>) -> int {
    flags.len() - marked_count(flags)
}

/// The flags after every pixel of `ps` has been marked, one after the other.
pub open spec fn mark(r: RasterView, flags: Seq<bool>, ps: Seq<PixelIndex>) -> Seq<bool>
    decreases ps.len(),
{
    if ps.len() == 0 {
        flags
    } else {
        mark(r, flags, ps.drop_last()).update(cell_of(r, ps.last()), true)
    }
}

/// Every pixel of `ps` is a foreground pixel whose flag is not set, and no
/// pixel occurs twice.
pub open spec fn unclaimed(r: RasterView, flags: Seq<bool>, ps: Seq<PixelIndex>) -> bool {
    &&& ps.no_duplicates()
    &&& forall|j: int| 0 <= j < ps.len() ==> is_lit(r, #[trigger] ps[j]) && !flags[cell_of(r, ps[j])]
}

/// Among `k` flags at most `k` are set.
pub proof fn lemma_marked_among_bound(flags: Seq<bool>, k: nat)
    ensures
        marked_among(flags, k) <= k,
    decreases k,
{
    if k > 0 {
        lemma_marked_among_bound(flags, (k - 1) as nat);
    }
}

/// Setting one flag that was not set adds one to the count.
pub proof fn lemma_marked_among_update(flags: Seq<bool>, i: int, k: nat)
    requires
        0 <= i < flags.len(),
        !flags[i],
        k <= flags.len(),
    ensures
        marked_among(flags.update(i, true), k) == marked_among(flags, k) + if i < k {
            1nat
        } else {
            0nat
        },
    decreases k,
{
    if k > 0 {
        lemma_marked_among_update(flags, i, (k - 1) as nat);
    }
}

/// Where every set flag stands on a foreground pixel, there are at most as
/// many set flags as foreground pixels.
pub proof fn lemma_marked_among_lit(r: RasterView, flags: Seq<bool>, k: nat)
    requires
        flags.len() == r.pixels.len(),
        k <= flags.len(),
        forall|i: int| 0 <= i < flags.len() && flags[i] ==> r.pixels[i] > FOREGROUND_THRESHOLD,
    ensures
        marked_among(flags, k) <= r.lit_among(k),
    decreases k,
{
    if k > 0 {
        lemma_marked_among_lit(r, flags, (k - 1) as nat);
    }
}

/// What marking does: the length stays, set flags stay set, the marked
/// pixels' flags are set, and no other flag changes.
pub proof fn lemma_mark(r: RasterView, flags: Seq<bool>, ps: Seq<PixelIndex>)
    requires
        r.wf(),
        flags.len() == r.pixels.len(),
        forall|j: int| 0 <= j < ps.len() ==> on_raster(r, #[trigger] ps[j]),
    ensures
        mark(r, flags, ps).len() == flags.len(),
        forall|i: int| 0 <= i < flags.len() && flags[i] ==> #[trigger] mark(r, flags, ps)[i],
        forall|j: int| 0 <= j < ps.len() ==> mark(r, flags, ps)[cell_of(r, #[trigger] ps[j])],
        forall|i: int|
            0 <= i < flags.len() && #[trigger] mark(r, flags, ps)[i] && !flags[i] ==> exists|j: int|
                0 <= j < ps.len() && cell_of(r, #[trigger] ps[j]) == i,
    decreases ps.len(),
{
    if ps.len() > 0 {
        let front = ps.drop_last();
        let last = ps.last();
        lemma_mark(r, flags, front);
        lemma_cell_in_range(r, last.x as int, last.y as int);
        let before = mark(r, flags, front);
        let after = mark(r, flags, ps);
        assert(after == before.update(cell_of(r, last), true));
        assert forall|j: int| 0 <= j < ps.len() implies after[cell_of(r, #[trigger] ps[j])] by {
            lemma_cell_in_range(r, ps[j].x as int, ps[j].y as int);
            if j < ps.len() - 1 {
                assert(front[j] == ps[j]);
                assert(before[cell_of(r, front[j])]);
            }
        }
        assert forall|i: int|
            0 <= i < flags.len() && #[trigger] after[i] && !flags[i] implies exists|j: int|
            0 <= j < ps.len() && cell_of(r, #[trigger] ps[j]) == i by {
            if i == cell_of(r, last) {
                assert(cell_of(r, ps[ps.len() - 1]) == i);
            } else {
                assert(before[i]);
                let j = choose|j: int| 0 <= j < front.len() && cell_of(r, #[trigger] front[j]) == i;
                assert(front[j] == ps[j]);
                assert(cell_of(r, ps[j]) == i);
            }
        }
    }
}

/// Marking pixels that were not claimed adds their number to the count.
pub proof fn lemma_mark_count(r: RasterView, flags: Seq<bool>, ps: Seq<PixelIndex>)
    requires
        r.wf(),
        flags.len() == r.pixels.len(),
        unclaimed(r, flags, ps),
    ensures
        marked_count(mark(r, flags, ps)) == marked_count(flags) + ps.len(),
    decreases ps.len(),
{
    if ps.len() > 0 {
        let front = ps.drop_last();
        let last = ps.last();
        assert forall|j: int| 0 <= j < front.len() implies is_lit(r, #[trigger] front[j])
            && !flags[cell_of(r, front[j])] by {
            assert(front[j] == ps[j]);
        }
        assert(front.no_duplicates()) by {
            assert forall|i: int, j: int| 0 <= i < front.len() && 0 <= j < front.len() && i != j implies front[i] != front[j] by {
                assert(front[i] == ps[i]);
                assert(front[j] == ps[j]);
            }
        }
        lemma_mark_count(r, flags, front);
        lemma_mark(r, flags, front);
        let before = mark(r, flags, front);
        lemma_cell_in_range(r, last.x as int, last.y as int);
        assert(!before[cell_of(r, last)]) by {
            if before[cell_of(r, last)] {
                let j = choose|j: int| 0 <= j < front.len() && cell_of(r, #[trigger] front[j]) == cell_of(r, last);
                assert(front[j] == ps[j]);
                assert(is_lit(r, ps[j]));
                lemma_cell_injective(r, ps[j].x as int, ps[j].y as int, last.x as int, last.y as int);
                assert(ps[j] == ps[ps.len() - 1]);
            }
        }
        lemma_marked_among_update(before, cell_of(r, last), before.len());
    }
}

} // verus!
