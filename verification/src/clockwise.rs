//! An optional second ordering for the points of a stroke that stands for a
//! closed contour: clockwise around the centroid of the points.
//!
//! The centroid is seldom a pixel, so every point is taken relative to it in
//! units of one `count`-th of a pixel: the offset of a point is `count` times
//! the point minus the sum of all points. All arithmetic is then exact.

use crate::canny::PixelIndex;
use vstd::prelude::*;

verus! {

/// The largest number of points that can be ordered.
pub const MAX_POINTS: usize = 0x7fff_ffff;

/// The largest coordinate of a point that can be ordered.
pub const MAX_COORDINATE: usize = 0xffff_ffff;

/// What the points are ordered around: the sum of the points and their
/// number, which together stand for the centroid.
pub struct Centre {
    pub sum_x: int,
    pub sum_y: int,
    pub count: int,
}

/// The sum of the first `k` horizontal coordinates.
pub open spec fn sum_x(edge: Seq<PixelIndex>, k: nat) -> int
    decreases k,
{
    if k == 0 {
        0
    } else {
        sum_x(edge, (k - 1) as nat) + edge[k - 1].x
    }
}

/// The sum of the first `k` vertical coordinates.
pub open spec fn sum_y(edge: Seq<PixelIndex>, k: nat) -> int
    decreases k,
{
    if k == 0 {
        0
    } else {
        sum_y(edge, (k - 1) as nat) + edge[k - 1].y
    }
}

/// The centre of the points of `edge`.
pub open spec fn centre_of(edge: Seq<PixelIndex>) -> Centre {
    Centre { sum_x: sum_x(edge, edge.len()), sum_y: sum_y(edge, edge.len()), count: edge.len() as int }
}

/// Where `p` lies relative to the centre, in units of one `count`-th of a
/// pixel.
pub open spec fn offset(c: Centre, p: PixelIndex) -> (int, int) {
    (c.count * p.x - c.sum_x, c.count * p.y - c.sum_y)
}

/// The cross product of the offsets of `a` and `b`.
pub open spec fn cross(c: Centre, a: PixelIndex, b: PixelIndex) -> int {
    offset(c, a).0 * offset(c, b).1 - offset(c, b).0 * offset(c, a).1
}

/// The square of the distance of `p` from the centre.
pub open spec fn reach(c: Centre, p: PixelIndex) -> int {
    offset(c, p).0 * offset(c, p).0 + offset(c, p).1 * offset(c, p).1
}

/// Whether `a` comes before `b` around the centre. Two points on the
/// vertical line through the centre are told apart by their vertical
/// offsets: the larger one first, unless both are negative, when the smaller
/// one comes first. Any other two points are told apart by the sign of the
/// cross product of their offsets, and on the same ray the farther point
/// comes first.
pub open spec fn before(c: Centre, a: PixelIndex, b: PixelIndex) -> bool {
    let (ax, ay) = offset(c, a);
    let (bx, by) = offset(c, b);
    if ax == 0 && bx == 0 {
        if ay >= 0 || by >= 0 {
            ay > by
        } else {
            by > ay
        }
    } else if cross(c, a, b) < 0 {
        true
    } else if cross(c, a, b) > 0 {
        false
    } else {
        reach(c, a) > reach(c, b)
    }
}

/// `sorted` with `p` put in from the back: `p` passes every point that it
/// comes before and stops behind the first that it does not come before.
pub open spec fn inserted(c: Centre, sorted: Seq<PixelIndex>, p: PixelIndex) -> Seq<PixelIndex>
    decreases sorted.len(),
{
    if sorted.len() == 0 {
        seq![p]
    } else if !before(c, p, sorted.last()) {
        sorted.push(p)
    } else {
        inserted(c, sorted.drop_last(), p).push(sorted.last())
    }
}

/// The first `k` points of `edge`, put in one after the other.
pub open spec fn ordered_among(c: Centre, edge: Seq<PixelIndex>, k: nat) -> Seq<PixelIndex>
    decreases k,
{
    if k == 0 {
        Seq::empty()
    } else {
        inserted(c, ordered_among(c, edge, (k - 1) as nat), edge[k - 1])
    }
}

/// The points of `edge` in clockwise order around their centroid.
pub open spec fn clockwise(edge: Seq<PixelIndex>) -> Seq<PixelIndex> {
    ordered_among(centre_of(edge), edge, edge.len())
}

/// Whether the points of `edge` are few enough and near enough to the origin
/// for the ordering to be computed in 128 bits.
pub open spec fn sortable(edge: Seq<PixelIndex>) -> bool {
    &&& edge.len() <= MAX_POINTS
    &&& forall|i: int|
        0 <= i < edge.len() ==> (#[trigger] edge[i]).x <= MAX_COORDINATE && edge[i].y <= MAX_COORDINATE
}

/// Putting a point in adds that point and nothing else.
pub proof fn lemma_inserted_holds_the_same(c: Centre, sorted: Seq<PixelIndex>, p: PixelIndex)
    ensures
        inserted(c, sorted, p).to_multiset() == sorted.to_multiset().insert(p),
        inserted(c, sorted, p).len() == sorted.len() + 1,
    decreases sorted.len(),
{
    broadcast use vstd::seq_lib::group_to_multiset_ensures;

    if sorted.len() == 0 {
        assert(seq![p] =~= sorted.push(p));
    } else if !before(c, p, sorted.last()) {
    } else {
        let front = sorted.drop_last();
        lemma_inserted_holds_the_same(c, front, p);
        assert(sorted =~= front.push(sorted.last()));
        assert(front.to_multiset().insert(p).insert(sorted.last()) =~= front.to_multiset().insert(
            sorted.last(),
        ).insert(p));
    }
}

/// The points in clockwise order are the points of the stroke, each as often
/// as the stroke holds it.
pub proof fn lemma_clockwise_is_a_rearrangement(edge: Seq<PixelIndex>)
    ensures
        clockwise(edge).to_multiset() == edge.to_multiset(),
        clockwise(edge).len() == edge.len(),
{
    lemma_ordered_among(centre_of(edge), edge, edge.len());
    assert(edge.take(edge.len() as int) =~= edge);
}

/// The first points put in one after the other are those points, each as
/// often as it occurs among them.
proof fn lemma_ordered_among(c: Centre, edge: Seq<PixelIndex>, k: nat)
    requires
        k <= edge.len(),
    ensures
        ordered_among(c, edge, k).to_multiset() == edge.take(k as int).to_multiset(),
        ordered_among(c, edge, k).len() == k,
    decreases k,
{
    broadcast use vstd::seq_lib::group_to_multiset_ensures;

    if k == 0 {
        assert(edge.take(0) =~= Seq::<PixelIndex>::empty());
        assert(ordered_among(c, edge, 0) =~= Seq::<PixelIndex>::empty());
    } else {
        lemma_ordered_among(c, edge, (k - 1) as nat);
        lemma_inserted_holds_the_same(c, ordered_among(c, edge, (k - 1) as nat), edge[k - 1]);
        assert(edge.take(k as int) =~= edge.take(k - 1).push(edge[k - 1]));
    }
}

/// Whether every point either comes before its successor or at least is not
/// preceded by it.
pub open spec fn in_order(c: Centre, s: Seq<PixelIndex>) -> bool {
    forall|i: int|
        0 <= i < s.len() - 1 ==> before(c, #[trigger] s[i], s[i + 1]) || !before(c, s[i + 1], s[i])
}

/// Putting a point in keeps the points in order.
pub proof fn lemma_inserted_in_order(c: Centre, sorted: Seq<PixelIndex>, p: PixelIndex)
    requires
        in_order(c, sorted),
    ensures
        in_order(c, inserted(c, sorted, p)),
        inserted(c, sorted, p).len() == sorted.len() + 1,
        inserted(c, sorted, p).last() == p || (sorted.len() > 0 && inserted(c, sorted, p).last()
            == sorted.last() && before(c, p, sorted.last())),
    decreases sorted.len(),
{
    let out = inserted(c, sorted, p);
    if sorted.len() == 0 {
    } else if !before(c, p, sorted.last()) {
        assert forall|i: int| 0 <= i < out.len() - 1 implies before(c, #[trigger] out[i], out[i + 1])
            || !before(c, out[i + 1], out[i]) by {
            if i < sorted.len() - 1 {
                assert(out[i] == sorted[i]);
                assert(out[i + 1] == sorted[i + 1]);
            }
        }
    } else {
        let front = sorted.drop_last();
        assert forall|i: int| 0 <= i < front.len() - 1 implies before(c, #[trigger] front[i], front[i + 1])
            || !before(c, front[i + 1], front[i]) by {
            assert(front[i] == sorted[i]);
            assert(front[i + 1] == sorted[i + 1]);
        }
        lemma_inserted_in_order(c, front, p);
        let inner = inserted(c, front, p);
        assert forall|i: int| 0 <= i < out.len() - 1 implies before(c, #[trigger] out[i], out[i + 1])
            || !before(c, out[i + 1], out[i]) by {
            if i < inner.len() - 1 {
                assert(out[i] == inner[i]);
                assert(out[i + 1] == inner[i + 1]);
            } else {
                assert(out[i] == inner.last());
                assert(out[i + 1] == sorted.last());
                if inner.last() != p {
                    assert(front[front.len() - 1] == sorted[sorted.len() - 2]);
                }
            }
        }
    }
}

/// In clockwise order, every point either comes before its successor or at
/// least is not preceded by it.
pub proof fn lemma_clockwise_is_in_order(edge: Seq<PixelIndex>)
    ensures
        in_order(centre_of(edge), clockwise(edge)),
{
    lemma_ordered_in_order(centre_of(edge), edge, edge.len());
}

/// The first points put in one after the other are in order.
proof fn lemma_ordered_in_order(c: Centre, edge: Seq<PixelIndex>, k: nat)
    ensures
        in_order(c, ordered_among(c, edge, k)),
    decreases k,
{
    if k > 0 {
        lemma_ordered_in_order(c, edge, (k - 1) as nat);
        lemma_inserted_in_order(c, ordered_among(c, edge, (k - 1) as nat), edge[k - 1]);
    }
}

/// Where `p` comes before every point from the `at`-th on and not before the
/// one in front of them, putting `p` in puts it at `at`.
proof fn lemma_inserted_at(c: Centre, sorted: Seq<PixelIndex>, p: PixelIndex, at: int)
    requires
        0 <= at <= sorted.len(),
        forall|i: int| at <= i < sorted.len() ==> before(c, p, #[trigger] sorted[i]),
        at > 0 ==> !before(c, p, sorted[at - 1]),
    ensures
        inserted(c, sorted, p) == sorted.insert(at, p),
    decreases sorted.len(),
{
    if sorted.len() == 0 {
        assert(sorted.insert(at, p) =~= seq![p]);
    } else if at == sorted.len() {
        assert(sorted.insert(at, p) =~= sorted.push(p));
    } else {
        let front = sorted.drop_last();
        assert(before(c, p, sorted[sorted.len() - 1]));
        assert forall|i: int| at <= i < front.len() implies before(c, p, #[trigger] front[i]) by {
            assert(front[i] == sorted[i]);
        }
        if at > 0 {
            assert(front[at - 1] == sorted[at - 1]);
        }
        lemma_inserted_at(c, front, p, at);
        assert(front.insert(at, p).push(sorted.last()) =~= sorted.insert(at, p));
    }
}

/// The sums of coordinates that are not above the largest coordinate are not
/// above their number times the largest coordinate.
proof fn lemma_sums_bounded(edge: Seq<PixelIndex>, k: nat)
    requires
        k <= edge.len(),
        sortable(edge),
    ensures
        0 <= sum_x(edge, k) <= k * MAX_COORDINATE,
        0 <= sum_y(edge, k) <= k * MAX_COORDINATE,
    decreases k,
{
    if k > 0 {
        lemma_sums_bounded(edge, (k - 1) as nat);
        assert(k * MAX_COORDINATE == (k - 1) * MAX_COORDINATE + MAX_COORDINATE) by (nonlinear_arith);
    }
}

/// The centre of a stroke, as the numbers that the ordering computes with.
struct Sums {
    x: i128,
    y: i128,
    count: i128,
}

impl Sums {
    /// The centre that the sums stand for.
    spec fn as_centre(self) -> Centre {
        Centre { sum_x: self.x as int, sum_y: self.y as int, count: self.count as int }
    }

    /// The sums are those of at most `MAX_POINTS` coordinates, none above
    /// `MAX_COORDINATE`.
    spec fn bounded(self) -> bool {
        &&& 0 <= self.count <= MAX_POINTS
        &&& 0 <= self.x <= self.count * MAX_COORDINATE
        &&& 0 <= self.y <= self.count * MAX_COORDINATE
    }
}

/// The largest size of one coordinate of an offset: `MAX_POINTS` times
/// `MAX_COORDINATE`.
const SPAN: i128 = 0x7fff_fffe_8000_0001;

/// The offset of `p` from the centre.
fn offset_of(sums: &Sums, p: PixelIndex) -> (o: (i128, i128))
    requires
        sums.bounded(),
        p.x <= MAX_COORDINATE,
        p.y <= MAX_COORDINATE,
    ensures
        o.0 == offset(sums.as_centre(), p).0,
        o.1 == offset(sums.as_centre(), p).1,
        -SPAN <= o.0 <= SPAN,
        -SPAN <= o.1 <= SPAN,
{
    proof {
        let n = sums.count as int;
        assert(0 <= n * p.x <= SPAN && 0 <= n * p.y <= SPAN && n * MAX_COORDINATE <= SPAN)
            by (nonlinear_arith)
            requires
                0 <= n <= 0x7fff_ffff,
                0 <= p.x <= 0xffff_ffff,
                0 <= p.y <= 0xffff_ffff,
                SPAN == 0x7fff_fffe_8000_0001,
                MAX_COORDINATE == 0xffff_ffff,
        ;
    }
    (sums.count * (p.x as i128) - sums.x, sums.count * (p.y as i128) - sums.y)
}

/// Whether `a` comes before `b` around the centre.
fn comes_before(sums: &Sums, a: PixelIndex, b: PixelIndex) -> (yes: bool)
    requires
        sums.bounded(),
        a.x <= MAX_COORDINATE,
        a.y <= MAX_COORDINATE,
        b.x <= MAX_COORDINATE,
        b.y <= MAX_COORDINATE,
    ensures
        yes == before(sums.as_centre(), a, b),
{
    let (ax, ay) = offset_of(sums, a);
    let (bx, by) = offset_of(sums, b);
    if ax == 0 && bx == 0 {
        if ay >= 0 || by >= 0 {
            ay > by
        } else {
            by > ay
        }
    } else {
        proof {
            lemma_products_fit(ax as int, by as int);
            lemma_products_fit(bx as int, ay as int);
            lemma_products_fit(ax as int, ax as int);
            lemma_products_fit(ay as int, ay as int);
            lemma_products_fit(bx as int, bx as int);
            lemma_products_fit(by as int, by as int);
        }
        let det = ax * by - bx * ay;
        if det < 0 {
            true
        } else if det > 0 {
            false
        } else {
            ax * ax + ay * ay > bx * bx + by * by
        }
    }
}

/// The product of two coordinates of offsets fits in 126 bits.
proof fn lemma_products_fit(u: int, v: int)
    requires
        -SPAN <= u <= SPAN,
        -SPAN <= v <= SPAN,
    ensures
        -SPAN * SPAN <= u * v <= SPAN * SPAN,
        SPAN * SPAN == 0x3fff_fffe_8000_0003_3fff_fffd_0000_0001,
{
    assert(-SPAN * SPAN <= u * v <= SPAN * SPAN) by (nonlinear_arith)
        requires
            -SPAN <= u <= SPAN,
            -SPAN <= v <= SPAN,
            SPAN >= 0,
    ;
    assert(0x7fff_fffe_8000_0001 * 0x7fff_fffe_8000_0001 == 0x3fff_fffe_8000_0003_3fff_fffd_0000_0001int);
}

/// The points of `edge` in clockwise order around their centroid. There is no
/// result where the stroke holds more than `MAX_POINTS` points or a
/// coordinate above `MAX_COORDINATE`.
pub fn sort_clockwise(edge: &Vec<PixelIndex>) -> (sorted: Option<Vec<PixelIndex>>)
    ensures
        sorted is Some <==> sortable(edge@),
        sorted matches Some(points) ==> points@ == clockwise(edge@),
{
    if edge.len() > MAX_POINTS {
        return None;
    }
    let mut sums = Sums { x: 0, y: 0, count: 0 };
    let mut k: usize = 0;
    while k < edge.len()
        invariant
            k <= edge.len(),
            edge.len() <= MAX_POINTS,
            forall|i: int|
                0 <= i < k ==> (#[trigger] edge@[i]).x <= MAX_COORDINATE && edge@[i].y <= MAX_COORDINATE,
            sums.count == k,
            sums.x == sum_x(edge@, k as nat),
            sums.y == sum_y(edge@, k as nat),
            0 <= sums.x <= k * MAX_COORDINATE,
            0 <= sums.y <= k * MAX_COORDINATE,
        decreases edge.len() - k,
    {
        let p = edge[k];
        if p.x > MAX_COORDINATE || p.y > MAX_COORDINATE {
            return None;
        }
        proof {
            assert((k + 1) * MAX_COORDINATE == k * MAX_COORDINATE + MAX_COORDINATE) by (nonlinear_arith);
            assert(k * MAX_COORDINATE <= 0x7fff_ffff * 0xffff_ffff) by (nonlinear_arith)
                requires
                    0 <= k <= 0x7fff_ffff,
                    MAX_COORDINATE == 0xffff_ffff,
            ;
        }
        sums.x = sums.x + p.x as i128;
        sums.y = sums.y + p.y as i128;
        sums.count = sums.count + 1;
        k = k + 1;
    }
    assert(sortable(edge@));
    assert(sums.as_centre() == centre_of(edge@));
    let mut points: Vec<PixelIndex> = Vec::new();
    let mut k: usize = 0;
    while k < edge.len()
        invariant
            k <= edge.len(),
            sortable(edge@),
            sums.bounded(),
            sums.as_centre() == centre_of(edge@),
            points@ == ordered_among(centre_of(edge@), edge@, k as nat),
            points@.len() == k,
            forall|i: int|
                0 <= i < points@.len() ==> (#[trigger] points@[i]).x <= MAX_COORDINATE && points@[i].y
                    <= MAX_COORDINATE,
        decreases edge.len() - k,
    {
        let p = edge[k];
        assert(edge@[k as int].x <= MAX_COORDINATE);
        let mut at: usize = points.len();
        while at > 0 && comes_before(&sums, p, points[at - 1])
            invariant
                at <= points@.len(),
                sums.bounded(),
                p.x <= MAX_COORDINATE,
                p.y <= MAX_COORDINATE,
                forall|i: int|
                    0 <= i < points@.len() ==> (#[trigger] points@[i]).x <= MAX_COORDINATE
                        && points@[i].y <= MAX_COORDINATE,
                forall|i: int|
                    at <= i < points@.len() ==> before(sums.as_centre(), p, #[trigger] points@[i]),
            decreases at,
        {
            at = at - 1;
        }
        proof {
            lemma_inserted_at(centre_of(edge@), points@, p, at as int);
            let grown = points@.insert(at as int, p);
            assert forall|i: int| 0 <= i < grown.len() implies (#[trigger] grown[i]).x <= MAX_COORDINATE
                && grown[i].y <= MAX_COORDINATE by {
                if i < at {
                    assert(grown[i] == points@[i]);
                } else if i > at {
                    assert(grown[i] == points@[i - 1]);
                }
            }
        }
        points.insert(at, p);
        k = k + 1;
    }
    Some(points)
}

} // verus!
