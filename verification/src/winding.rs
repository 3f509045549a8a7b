//! Winding numbers, and the choice of regions by them.
use crate::intersect::edge_count;
use crate::scalar::{
    answers_at_most, answers_less, is_abs, is_count, is_difference, is_product, is_ratio, is_sum,
    ratio, Point, Scalar,
};
use vstd::prelude::*;

verus! {

/// Tells on which side of the line through `p0` and `p1` the point `p2` lies:
/// positive to the left, negative to the right, zero on the line.
pub fn is_left<N: Scalar>(p0: Point<N>, p1: Point<N>, p2: Point<N>) -> (side: N)
    ensures
        is_side(p0, p1, p2, side),
{
    let left = p1.x.minus(p0.x).times(p2.y.minus(p0.y));
    assert(is_span(p0.x, p1.x, p0.y, p2.y, left));
    let right = p2.x.minus(p0.x).times(p1.y.minus(p0.y));
    assert(is_span(p0.x, p2.x, p0.y, p1.y, right));
    left.minus(right)
}

/// The winding number of the ring `polygon` around `pt`: how often the ring
/// wraps around the point, counted with sign.
///
/// Every edge that passes `pt` upwards with the point on its left adds one,
/// every edge that passes it downwards with the point on its right takes one
/// away. A point that lies within a small tolerance to the right of an edge
/// still counts as on its left.
///
/// The count is kept in 128 bits, which is wide enough for the edges of any
/// ring that fits in memory, so it cannot overflow. `is_winding` says edge by
/// edge which comparisons turn the count.
pub fn winding_number<N: Scalar>(pt: Point<N>, polygon: &Vec<Point<N>>) -> (wn: i128)
    ensures
        is_winding(pt, polygon@, wn as int),
        -edge_count(polygon@.len()) <= wn <= edge_count(polygon@.len()),
{
    let mut wn: i128 = 0;
    if polygon.len() < 2 {
        return wn;
    }
    let tolerance: N = N::from_count(0).minus(ratio(1, 100000));
    assert(is_tolerance(tolerance));
    let edges = polygon.len() - 1;
    let mut idx: usize = 0;
    while idx < edges
        invariant
            edges + 1 == polygon@.len(),
            idx <= edges,
            -idx <= wn <= idx,
            wound(pt, polygon@, tolerance, idx as int, wn as int),
        decreases edges - idx,
    {
        let ghost before = wn as int;
        let p0 = polygon[idx];
        let p1 = polygon[idx + 1];
        if p0.y.at_most(pt.y) {
            if pt.y.less(p1.y) {
                let left = tolerance.at_most(is_left(p0, p1, pt));
                assert(answers_left(p0, p1, pt, tolerance, left));
                if left {
                    wn = wn + 1;
                }
                assert(counted_up(p0, p1, pt, tolerance, wn - before));
            }
            assert(rising_turn(pt, p0, p1, tolerance, wn - before));
        } else {
            if p1.y.at_most(pt.y) {
                let right = is_left(p0, p1, pt).less(tolerance);
                assert(answers_right(p0, p1, pt, tolerance, right));
                if right {
                    wn = wn - 1;
                }
                assert(counted_down(p0, p1, pt, tolerance, wn - before));
            }
            assert(falling_turn(pt, p0, p1, tolerance, wn - before));
        }
        idx += 1;
        assert(edge_turn(pt, polygon@[idx - 1], polygon@[idx as int], tolerance, wn - before));
    }
    wn
}

/// The point at which a region is tested: the middle of the first edge of
/// `region` whose two ends differ in height by more than a hundredth. Edges
/// that run level are passed over, and a region that has no other edge has no
/// such point.
pub fn probe_point<N: Scalar>(region: &Vec<Point<N>>) -> (probe: Option<Point<N>>)
    ensures
        is_probe_of(region@, probe),
        edge_count(region@.len()) == 0 ==> probe is None,
{
    if region.len() < 2 {
        return None;
    }
    let level: N = ratio(1, 100);
    let half: N = ratio(1, 2);
    let edges = region.len() - 1;
    let mut idx: usize = 0;
    while idx < edges
        invariant
            edges + 1 == region@.len(),
            idx <= edges,
            is_ratio(1, 100, level),
            is_ratio(1, 2, half),
            all_level(region@, level, idx as int),
        decreases edges - idx,
    {
        let p0 = region[idx];
        let p1 = region[idx + 1];
        let steep = level.less(p1.y.minus(p0.y).abs());
        assert(edge_is_steep(region@, idx as int, level, steep));
        if steep {
            let mid = Point { x: p0.x.plus(p1.x).times(half), y: p0.y.plus(p1.y).times(half) };
            assert(is_middle(region@[idx as int], region@[idx + 1], half, mid));
            assert(is_probe(region@, level, half, Some(mid)));
            return Some(mid);
        }
        idx += 1;
    }
    assert(is_probe(region@, level, half, None));
    None
}

/// The winding number of `boundary` around the point at which `region` is
/// tested, or `None` where the region has no such point.
pub fn region_winding<N: Scalar>(region: &Vec<Point<N>>, boundary: &Vec<Point<N>>) -> (winding:
    Option<i128>)
    ensures
        is_region_winding(region@, boundary@, winding),
        edge_count(region@.len()) == 0 ==> winding is None,
        winding matches Some(wn) ==> -edge_count(boundary@.len()) <= wn <= edge_count(
            boundary@.len(),
        ),
{
    match probe_point(region) {
        Some(pt) => Some(winding_number(pt, boundary)),
        None => None,
    }
}

/// Whether a region with this winding number belongs to the result: the
/// boundary winds round its test point exactly once.
pub open spec fn winds_once(winding: Option<i128>) -> bool {
    winding == Some(1i128)
}

/// Those of `candidates` whose winding number is exactly one, in their order.
/// The winding number of `candidates[i]` is `windings[i]`.
pub open spec fn retained<T>(candidates: Seq<T>, windings: Seq<Option<i128>>) -> Seq<T>
    decreases candidates.len(),
{
    if candidates.len() == 0 {
        Seq::empty()
    } else {
        let earlier = retained(candidates.drop_last(), windings.drop_last());
        if winds_once(windings.last()) {
            earlier.push(candidates.last())
        } else {
            earlier
        }
    }
}

/// Every region that is retained has the winding number one: never none, zero,
/// two or more. The result is the place of the `k`-th retained region among the
/// candidates.
pub proof fn lemma_retained_winds_once<T>(
    candidates: Seq<T>,
    windings: Seq<Option<i128>>,
    k: int,
) -> (i: int)
    requires
        candidates.len() == windings.len(),
        0 <= k < retained(candidates, windings).len(),
    ensures
        0 <= i < candidates.len(),
        retained(candidates, windings)[k] == candidates[i],
        windings[i] == Some(1i128),
    decreases candidates.len(),
{
    let earlier = retained(candidates.drop_last(), windings.drop_last());
    if k < earlier.len() {
        lemma_retained_winds_once(candidates.drop_last(), windings.drop_last(), k)
    } else {
        candidates.len() - 1
    }
}

/// Every region with the winding number one is retained.
pub proof fn lemma_winds_once_is_retained<T>(
    candidates: Seq<T>,
    windings: Seq<Option<i128>>,
    i: int,
)
    requires
        candidates.len() == windings.len(),
        0 <= i < candidates.len(),
        windings[i] == Some(1i128),
    ensures
        retained(candidates, windings).contains(candidates[i]),
    decreases candidates.len(),
{
    let earlier = retained(candidates.drop_last(), windings.drop_last());
    let all = retained(candidates, windings);
    if i == candidates.len() - 1 {
        assert(all[all.len() - 1] == candidates[i]);
    } else {
        lemma_winds_once_is_retained(candidates.drop_last(), windings.drop_last(), i);
        let k = choose|k: int| 0 <= k < earlier.len() && earlier[k] == candidates[i];
        assert(all[k] == candidates[i]);
    }
}

/// Keeps the candidates whose winding number is exactly one, in their order.
/// The winding number of `candidates[i]` is `windings[i]`.
pub fn retain_winding_once<T>(candidates: Vec<T>, windings: &Vec<Option<i128>>) -> (kept: Vec<T>)
    requires
        candidates@.len() == windings@.len(),
    ensures
        kept@ == retained(candidates@, windings@),
{
    let mut kept: Vec<T> = Vec::new();
    let ghost all = candidates@;
    let count = windings.len();
    let mut i: usize = 0;
    for candidate in it: candidates
        invariant
            i == it.index(),
            it.seq() == all,
            all.len() == count,
            windings@.len() == count,
            kept@ == retained(all.subrange(0, i as int), windings@.subrange(0, i as int)),
    {
        proof {
            assert(all.subrange(0, i + 1).drop_last() =~= all.subrange(0, i as int));
            assert(windings@.subrange(0, i + 1).drop_last() =~= windings@.subrange(0, i as int));
        }
        let once = match windings[i] {
            Some(wn) => wn == 1,
            None => false,
        };
        if once {
            kept.push(candidate);
        }
        i += 1;
    }
    assert(all.subrange(0, i as int) =~= all);
    assert(windings@.subrange(0, i as int) =~= windings@);
    kept
}

/// Whether `r` is the product of the step from `from` to `to` and the step
/// from `from_other` to `to_other`.
pub open spec fn is_span<N: Scalar>(from: N, to: N, from_other: N, to_other: N, r: N) -> bool {
    exists|step: N, other: N|
        #![trigger is_difference(to, from, step), is_difference(to_other, from_other, other)]
        is_difference(to, from, step) && is_difference(to_other, from_other, other) && is_product(
            step,
            other,
            r,
        )
}

/// Whether `side` is what `is_left` gives:
/// `(p1.x - p0.x) * (p2.y - p0.y) - (p2.x - p0.x) * (p1.y - p0.y)`.
pub open spec fn is_side<N: Scalar>(p0: Point<N>, p1: Point<N>, p2: Point<N>, side: N) -> bool {
    exists|left: N, right: N|
        #![trigger is_span(p0.x, p1.x, p0.y, p2.y, left), is_span(p0.x, p2.x, p0.y, p1.y, right)]
        is_span(p0.x, p1.x, p0.y, p2.y, left) && is_span(p0.x, p2.x, p0.y, p1.y, right)
            && is_difference(left, right, side)
}

/// Whether `tolerance` is the scalar of nothing, less a hundred-thousandth:
/// how far to the right of an edge a point still counts as on its left.
pub open spec fn is_tolerance<N: Scalar>(tolerance: N) -> bool {
    exists|zero: N, small: N|
        #![trigger is_count(0, zero), is_ratio(1, 100000, small)]
        is_count(0, zero) && is_ratio(1, 100000, small) && is_difference(zero, small, tolerance)
}

/// Whether `yes` answers that `pt` lies left of the edge from `p0` to `p1`:
/// `tolerance` is at most the side of the point.
pub open spec fn answers_left<N: Scalar>(
    p0: Point<N>,
    p1: Point<N>,
    pt: Point<N>,
    tolerance: N,
    yes: bool,
) -> bool {
    exists|side: N| #[trigger] is_side(p0, p1, pt, side) && answers_at_most(tolerance, side, yes)
}

/// Whether `yes` answers that `pt` lies right of the edge from `p0` to `p1`:
/// the side of the point is less than `tolerance`.
pub open spec fn answers_right<N: Scalar>(
    p0: Point<N>,
    p1: Point<N>,
    pt: Point<N>,
    tolerance: N,
    yes: bool,
) -> bool {
    exists|side: N| #[trigger] is_side(p0, p1, pt, side) && answers_less(side, tolerance, yes)
}

/// Whether an edge that passes `pt` upwards turns the count by `turn`: by one
/// where the point lies on its left, and else not at all.
pub open spec fn counted_up<N: Scalar>(
    p0: Point<N>,
    p1: Point<N>,
    pt: Point<N>,
    tolerance: N,
    turn: int,
) -> bool {
    exists|left: bool|
        #[trigger] answers_left(p0, p1, pt, tolerance, left) && turn == if left {
            1int
        } else {
            0int
        }
}

/// Whether an edge that passes `pt` downwards turns the count by `turn`: by
/// one back where the point lies on its right, and else not at all.
pub open spec fn counted_down<N: Scalar>(
    p0: Point<N>,
    p1: Point<N>,
    pt: Point<N>,
    tolerance: N,
    turn: int,
) -> bool {
    exists|right: bool|
        #[trigger] answers_right(p0, p1, pt, tolerance, right) && turn == if right {
            -1int
        } else {
            0int
        }
}

/// Whether an edge that starts at or below `pt` turns the count by `turn`:
/// as an upward pass where it ends above the point, and else not at all.
pub open spec fn rising_turn<N: Scalar>(
    pt: Point<N>,
    p0: Point<N>,
    p1: Point<N>,
    tolerance: N,
    turn: int,
) -> bool {
    exists|rises: bool|
        answers_less(pt.y, p1.y, rises) && if rises {
            counted_up(p0, p1, pt, tolerance, turn)
        } else {
            turn == 0
        }
}

/// Whether an edge that starts above `pt` turns the count by `turn`: as a
/// downward pass where it ends at or below the point, and else not at all.
pub open spec fn falling_turn<N: Scalar>(
    pt: Point<N>,
    p0: Point<N>,
    p1: Point<N>,
    tolerance: N,
    turn: int,
) -> bool {
    exists|falls: bool|
        answers_at_most(p1.y, pt.y, falls) && if falls {
            counted_down(p0, p1, pt, tolerance, turn)
        } else {
            turn == 0
        }
}

/// Whether the edge from `p0` to `p1` turns the count round `pt` by `turn`.
pub open spec fn edge_turn<N: Scalar>(
    pt: Point<N>,
    p0: Point<N>,
    p1: Point<N>,
    tolerance: N,
    turn: int,
) -> bool {
    exists|low: bool|
        answers_at_most(p0.y, pt.y, low) && if low {
            rising_turn(pt, p0, p1, tolerance, turn)
        } else {
            falling_turn(pt, p0, p1, tolerance, turn)
        }
}

/// Whether the first `edges` edges of `polygon` turn the count round `pt` to
/// `wn`: each edge in its order adds its turn.
pub open spec fn wound<N: Scalar>(
    pt: Point<N>,
    polygon: Seq<Point<N>>,
    tolerance: N,
    edges: int,
    wn: int,
) -> bool
    decreases edges,
{
    if edges <= 0 {
        wn == 0
    } else {
        exists|turn: int|
            #![trigger edge_turn(pt, polygon[edges - 1], polygon[edges], tolerance, turn)]
            wound(pt, polygon, tolerance, edges - 1, wn - turn) && edge_turn(
                pt,
                polygon[edges - 1],
                polygon[edges],
                tolerance,
                turn,
            )
    }
}

/// Whether `wn` is the winding number of `polygon` round `pt`: nothing for a
/// ring without an edge, and else what all its edges turn the count to.
pub open spec fn is_winding<N: Scalar>(pt: Point<N>, polygon: Seq<Point<N>>, wn: int) -> bool {
    if edge_count(polygon.len()) == 0 {
        wn == 0
    } else {
        exists|tolerance: N|
            #![trigger wound(pt, polygon, tolerance, edge_count(polygon.len()) as int, wn)]
            is_tolerance(tolerance) && wound(
                pt,
                polygon,
                tolerance,
                edge_count(polygon.len()) as int,
                wn,
            )
    }
}

/// Whether `yes` answers that the edge from `p0` to `p1` is steep enough to
/// test a region at: `level` is less than the absolute value of its rise.
pub open spec fn answers_steep<N: Scalar>(p0: Point<N>, p1: Point<N>, level: N, yes: bool) -> bool {
    exists|rise: N, size: N|
        #![trigger is_difference(p1.y, p0.y, rise), is_abs(rise, size)]
        is_difference(p1.y, p0.y, rise) && is_abs(rise, size) && answers_less(level, size, yes)
}

/// Whether `yes` answers that the edge of `region` at `index` is steep.
pub open spec fn edge_is_steep<N: Scalar>(
    region: Seq<Point<N>>,
    index: int,
    level: N,
    yes: bool,
) -> bool {
    answers_steep(region[index], region[index + 1], level, yes)
}

/// Whether none of the first `edges` edges of `region` was found steep.
pub open spec fn all_level<N: Scalar>(region: Seq<Point<N>>, level: N, edges: int) -> bool {
    forall|i: int| 0 <= i < edges ==> #[trigger] edge_is_steep(region, i, level, false)
}

/// Whether `mid` is the middle between `p0` and `p1`: the sums of their
/// coordinates, times `half`.
pub open spec fn is_middle<N: Scalar>(p0: Point<N>, p1: Point<N>, half: N, mid: Point<N>) -> bool {
    exists|sx: N, sy: N|
        #![trigger is_sum(p0.x, p1.x, sx), is_sum(p0.y, p1.y, sy)]
        is_sum(p0.x, p1.x, sx) && is_product(sx, half, mid.x) && is_sum(p0.y, p1.y, sy)
            && is_product(sy, half, mid.y)
}

/// Whether `probe` is the test point of `region`: the middle of its first
/// edge that was found steep, or none where no edge was.
pub open spec fn is_probe<N: Scalar>(
    region: Seq<Point<N>>,
    level: N,
    half: N,
    probe: Option<Point<N>>,
) -> bool {
    match probe {
        Some(mid) => exists|i: int|
            0 <= i < edge_count(region.len()) && all_level(region, level, i) && #[trigger] edge_is_steep(
                region,
                i,
                level,
                true,
            ) && is_middle(region[i], region[i + 1], half, mid),
        None => all_level(region, level, edge_count(region.len()) as int),
    }
}

/// Whether `probe` is what `probe_point` gives for `region`: none for a
/// region without an edge, and else its test point for the level of a
/// hundredth and the half of one.
pub open spec fn is_probe_of<N: Scalar>(region: Seq<Point<N>>, probe: Option<Point<N>>) -> bool {
    if edge_count(region.len()) == 0 {
        probe is None
    } else {
        exists|level: N, half: N|
            #![trigger is_probe(region, level, half, probe)]
            is_ratio(1, 100, level) && is_ratio(1, 2, half) && is_probe(region, level, half, probe)
    }
}

/// Whether `winding` is what `region_winding` gives: the winding number of
/// `boundary` round the test point of `region`, or none where the region has
/// no test point.
pub open spec fn is_region_winding<N: Scalar>(
    region: Seq<Point<N>>,
    boundary: Seq<Point<N>>,
    winding: Option<i128>,
) -> bool {
    exists|probe: Option<Point<N>>|
        #![trigger is_probe_of(region, probe)]
        is_probe_of(region, probe) && match probe {
            Some(pt) => winding matches Some(wn) && is_winding(pt, boundary, wn as int),
            None => winding is None,
        }
}

} // verus!
