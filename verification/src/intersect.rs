//! The crossing of a segment with a polyline.
use crate::scalar::{
    answers_at_most, answers_less, is_abs, is_count, is_epsilon, is_product, is_quotient,
    is_ratio, is_sum, is_vector, ratio, Point, Scalar,
};
use vstd::prelude::*;

verus! {

/// Where a query segment crosses a reference polyline.
pub struct IntersectionResult<N> {
    /// How far along the query segment the crossing lies, from 0 at its start
    /// to 1 at its end.
    pub u: N,
    /// How far along the crossed edge the crossing lies, from 0 to 1.
    pub t: N,
    /// The crossing itself.
    pub point: Point<N>,
    /// The crossed edge: it runs from `line[index]` to `line[index + 1]`.
    pub index: usize,
}

/// The cross product of `a` and `b` taken as vectors: `a.x * b.y - a.y * b.x`.
pub fn cross_product<N: Scalar>(a: Point<N>, b: Point<N>) -> (r: N)
    ensures
        is_cross(a, b, r),
{
    a.x.times(b.y).minus(a.y.times(b.x))
}

/// The number of edges of a polyline of `points` points.
pub open spec fn edge_count(points: nat) -> nat {
    if points == 0 {
        0
    } else {
        (points - 1) as nat
    }
}

/// The crossing of the segment from `start` to `end` with the polyline `line`
/// that lies nearest to `start`, if there is one.
///
/// Edges that run nearly parallel to the segment are passed over. A crossing
/// counts where it lies behind epsilon on the segment and no further than the
/// nearest crossing found before it, and on the crossed edge from nothing to
/// one. With `exclude_points` it must lie strictly inside the crossed edge,
/// above a hundred-thousandth and below 0.999999, so that touching one of its
/// end points does not count.
///
/// The edges are gone through in their order, and each is held against the
/// nearest crossing found before it: `is_intersection` says with which scalar
/// operations. The edge that is named is one of the polyline's, and a polyline
/// without an edge is never crossed.
pub fn intersect<N: Scalar>(
    start: Point<N>,
    end: Point<N>,
    line: &Vec<Point<N>>,
    exclude_points: bool,
) -> (found: Option<IntersectionResult<N>>)
    ensures
        is_intersection(start, end, line@, exclude_points, found),
        edge_count(line@.len()) == 0 ==> found is None,
        found matches Some(hit) ==> hit.index < edge_count(line@.len()),
{
    let mut found: Option<IntersectionResult<N>> = None;
    if line.len() < 2 {
        return found;
    }
    let epsilon = N::epsilon();
    let zero = N::from_count(0);
    let one = N::from_count(1);
    let inner_low: N = ratio(1, 100000);
    let inner_high: N = ratio(999999, 1000000);
    let ghost limits = Limits { epsilon, zero, one, inner_low, inner_high };
    let mut nearest = one;
    let s = Point { x: end.x.minus(start.x), y: end.y.minus(start.y) };
    let edges = line.len() - 1;
    let mut idx: usize = 0;
    while idx < edges
        invariant
            edges + 1 == line@.len(),
            idx <= edges,
            limits == (Limits { epsilon, zero, one, inner_low, inner_high }),
            found matches Some(hit) ==> hit.index < edges,
            scanned(start, s, line@, exclude_points, limits, idx as int, nearest, found),
        decreases edges - idx,
    {
        let ghost before = nearest;
        let ghost earlier = found;
        let ghost mut outcome: Option<IntersectionResult<N>> = None;
        let p0 = line[idx];
        let p1 = line[idx + 1];
        let r = Point { x: p1.x.minus(p0.x), y: p1.y.minus(p0.y) };
        let rxs = cross_product(r, s);
        let parallel = rxs.abs().less(epsilon);
        assert(answers_parallel(rxs, limits.epsilon, parallel));
        if !parallel {
            let q_p = Point { x: start.x.minus(p0.x), y: start.y.minus(p0.y) };
            let u = cross_product(q_p, r).over(rxs);
            assert(is_vector(p0, start, q_p));
            assert(is_param(q_p, r, rxs, u));
            let off = u.at_most(epsilon) || nearest.less(u);
            assert(answers_off_segment(u, limits.epsilon, before, off));
            if !off {
                let t = cross_product(q_p, s).over(rxs);
                assert(is_param(q_p, s, rxs, t));
                let outside = if exclude_points {
                    t.at_most(inner_low) || inner_high.at_most(t)
                } else {
                    t.less(zero) || one.less(t)
                };
                assert(answers_off_edge(t, exclude_points, limits, outside));
                if !outside {
                    nearest = u;
                    let point = Point {
                        x: start.x.plus(u.times(s.x)),
                        y: start.y.plus(u.times(s.y)),
                    };
                    assert(is_point_along(start, s, u, point));
                    found = Some(IntersectionResult { u, t, point, index: idx });
                    proof {
                        outcome = found;
                    }
                }
                assert(crossing_on_segment(
                    start,
                    s,
                    q_p,
                    rxs,
                    u,
                    idx as int,
                    exclude_points,
                    limits,
                    outcome,
                ));
            }
            assert(crossing_not_parallel(
                start,
                s,
                p0,
                r,
                rxs,
                idx as int,
                exclude_points,
                limits,
                before,
                outcome,
            ));
        }
        assert(is_vector(p0, p1, r));
        assert(edge_crossing(
            start,
            s,
            p0,
            p1,
            idx as int,
            exclude_points,
            limits,
            before,
            outcome,
        ));
        idx += 1;
        assert(scanned(start, s, line@, exclude_points, limits, idx - 1, before, earlier));
        assert(scan_step(
            start,
            s,
            line@[idx - 1],
            line@[idx as int],
            idx - 1,
            exclude_points,
            limits,
            before,
            earlier,
            nearest,
            found,
        ));
        assert(scanned(start, s, line@, exclude_points, limits, idx as int, nearest, found));
    }
    assert(is_vector(start, end, s));
    assert(is_limits(limits));
    found
}

/// The scalars that a crossing is held against.
pub struct Limits<N> {
    /// The smallest step between two scalars.
    pub epsilon: N,
    /// The scalar of nothing, the start of an edge.
    pub zero: N,
    /// The scalar of one, the far end of a segment or an edge.
    pub one: N,
    /// How far from the start of the crossed edge a crossing must lie to be
    /// strictly inside it.
    pub inner_low: N,
    /// How far from the start of the crossed edge a crossing may lie to be
    /// strictly inside it.
    pub inner_high: N,
}

/// Whether `limits` are the scalars that `intersect` holds a crossing
/// against: epsilon, nothing, one, a hundred-thousandth and 0.999999.
pub open spec fn is_limits<N: Scalar>(limits: Limits<N>) -> bool {
    &&& is_epsilon(limits.epsilon)
    &&& is_count(0, limits.zero)
    &&& is_count(1, limits.one)
    &&& is_ratio(1, 100000, limits.inner_low)
    &&& is_ratio(999999, 1000000, limits.inner_high)
}

/// Whether `r` is the cross product of `a` and `b`: the product of `a.x` and
/// `b.y`, less the product of `a.y` and `b.x`.
pub open spec fn is_cross<N: Scalar>(a: Point<N>, b: Point<N>, r: N) -> bool {
    exists|ab: N, ba: N|
        #![trigger is_product(a.x, b.y, ab), is_product(a.y, b.x, ba)]
        is_product(a.x, b.y, ab) && is_product(a.y, b.x, ba) && crate::scalar::is_difference(
            ab,
            ba,
            r,
        )
}

/// Whether `value` is the cross product of `q` and `along`, divided by `rxs`:
/// how far along one of two crossing lines their crossing lies.
pub open spec fn is_param<N: Scalar>(q: Point<N>, along: Point<N>, rxs: N, value: N) -> bool {
    exists|c: N| #[trigger] is_cross(q, along, c) && is_quotient(c, rxs, value)
}

/// Whether `yes` answers that an edge runs nearly parallel to the segment: the
/// absolute value of their cross product `rxs` is less than `epsilon`.
pub open spec fn answers_parallel<N: Scalar>(rxs: N, epsilon: N, yes: bool) -> bool {
    exists|size: N| is_abs(rxs, size) && answers_less(size, epsilon, yes)
}

/// Whether `yes` answers that a crossing at `u` is of no use: `u` is at most
/// `epsilon`, on top of the start, or else `nearest` is less than `u`. What is
/// left is `u` above `epsilon` and no more than `nearest`.
pub open spec fn answers_off_segment<N: Scalar>(u: N, epsilon: N, nearest: N, yes: bool) -> bool {
    exists|early: bool|
        answers_at_most(u, epsilon, early) && if early {
            yes
        } else {
            answers_less(nearest, u, yes)
        }
}

/// Whether `yes` answers that a crossing at `t` misses the crossed edge. With
/// `exclude_points` it misses where `t` is at most `inner_low` or at least
/// `inner_high`, which leaves what lies strictly between the two. Without, it
/// misses where `t` is less than nothing or more than one, which leaves what
/// lies from nothing to one, both ends included.
pub open spec fn answers_off_edge<N: Scalar>(
    t: N,
    exclude_points: bool,
    limits: Limits<N>,
    yes: bool,
) -> bool {
    if exclude_points {
        exists|below: bool|
            answers_at_most(t, limits.inner_low, below) && if below {
                yes
            } else {
                answers_at_most(limits.inner_high, t, yes)
            }
    } else {
        exists|negative: bool|
            answers_less(t, limits.zero, negative) && if negative {
                yes
            } else {
                answers_less(limits.one, t, yes)
            }
    }
}

/// Whether `point` lies at `u` along the segment from `start` in the
/// direction `s`: `start + u * s`, coordinate by coordinate.
pub open spec fn is_point_along<N: Scalar>(start: Point<N>, s: Point<N>, u: N, point: Point<N>) -> bool {
    exists|ux: N, uy: N|
        #![trigger is_product(u, s.x, ux), is_product(u, s.y, uy)]
        is_product(u, s.x, ux) && is_sum(start.x, ux, point.x) && is_product(u, s.y, uy) && is_sum(
            start.y,
            uy,
            point.y,
        )
}

/// What the edge at `index` gives once its crossing is known to lie at `u` on
/// the segment: nothing where the crossing misses the edge, and else the
/// crossing with its place `t` on the edge and its point.
pub open spec fn crossing_on_segment<N: Scalar>(
    start: Point<N>,
    s: Point<N>,
    q: Point<N>,
    rxs: N,
    u: N,
    index: int,
    exclude_points: bool,
    limits: Limits<N>,
    outcome: Option<IntersectionResult<N>>,
) -> bool {
    exists|t: N, outside: bool|
        #![trigger answers_off_edge(t, exclude_points, limits, outside)]
        is_param(q, s, rxs, t) && answers_off_edge(t, exclude_points, limits, outside) && if outside {
            outcome is None
        } else {
            &&& outcome matches Some(hit)
            &&& hit.u == u
            &&& hit.t == t
            &&& hit.index == index
            &&& is_point_along(start, s, u, hit.point)
        }
}

/// What the edge from `p0` in the direction `r` gives once it is known not to
/// run parallel to the segment: nothing where its crossing lies on top of the
/// start or beyond `nearest`, and else what `crossing_on_segment` says.
pub open spec fn crossing_not_parallel<N: Scalar>(
    start: Point<N>,
    s: Point<N>,
    p0: Point<N>,
    r: Point<N>,
    rxs: N,
    index: int,
    exclude_points: bool,
    limits: Limits<N>,
    nearest: N,
    outcome: Option<IntersectionResult<N>>,
) -> bool {
    exists|q: Point<N>, u: N, off: bool|
        #![trigger is_vector(p0, start, q), answers_off_segment(u, limits.epsilon, nearest, off)]
        is_vector(p0, start, q) && is_param(q, r, rxs, u) && answers_off_segment(
            u,
            limits.epsilon,
            nearest,
            off,
        ) && if off {
            outcome is None
        } else {
            crossing_on_segment(start, s, q, rxs, u, index, exclude_points, limits, outcome)
        }
}

/// What the edge from `p0` to `p1` at `index` gives, held against the nearest
/// crossing `nearest` found before it: nothing where it runs parallel to the
/// segment, and else what `crossing_not_parallel` says.
pub open spec fn edge_crossing<N: Scalar>(
    start: Point<N>,
    s: Point<N>,
    p0: Point<N>,
    p1: Point<N>,
    index: int,
    exclude_points: bool,
    limits: Limits<N>,
    nearest: N,
    outcome: Option<IntersectionResult<N>>,
) -> bool {
    exists|r: Point<N>, rxs: N, parallel: bool|
        #![trigger is_cross(r, s, rxs), answers_parallel(rxs, limits.epsilon, parallel)]
        is_vector(p0, p1, r) && is_cross(r, s, rxs) && answers_parallel(
            rxs,
            limits.epsilon,
            parallel,
        ) && if parallel {
            outcome is None
        } else {
            crossing_not_parallel(
                start,
                s,
                p0,
                r,
                rxs,
                index,
                exclude_points,
                limits,
                nearest,
                outcome,
            )
        }
}

/// Whether going through the first `edges` edges of `line` leaves the nearest
/// crossing at `nearest` and `found` as the crossing. Before the first edge
/// the nearest crossing is at one, the end of the segment, and nothing is
/// found; an edge that gives a crossing replaces both.
pub open spec fn scanned<N: Scalar>(
    start: Point<N>,
    s: Point<N>,
    line: Seq<Point<N>>,
    exclude_points: bool,
    limits: Limits<N>,
    edges: int,
    nearest: N,
    found: Option<IntersectionResult<N>>,
) -> bool
    decreases edges,
{
    if edges <= 0 {
        nearest == limits.one && found is None
    } else {
        exists|before: N, earlier: Option<IntersectionResult<N>>|
            #![trigger
                scan_step(
                    start,
                    s,
                    line[edges - 1],
                    line[edges],
                    edges - 1,
                    exclude_points,
                    limits,
                    before,
                    earlier,
                    nearest,
                    found,
                )
            ]
            scanned(start, s, line, exclude_points, limits, edges - 1, before, earlier)
                && scan_step(
                start,
                s,
                line[edges - 1],
                line[edges],
                edges - 1,
                exclude_points,
                limits,
                before,
                earlier,
                nearest,
                found,
            )
    }
}

/// Whether the edge from `p0` to `p1` at `index` turns the nearest crossing
/// `before` and the crossing `earlier` into `nearest` and `found`: an edge
/// that gives a crossing replaces both, any other leaves both as they were.
pub open spec fn scan_step<N: Scalar>(
    start: Point<N>,
    s: Point<N>,
    p0: Point<N>,
    p1: Point<N>,
    index: int,
    exclude_points: bool,
    limits: Limits<N>,
    before: N,
    earlier: Option<IntersectionResult<N>>,
    nearest: N,
    found: Option<IntersectionResult<N>>,
) -> bool {
    exists|outcome: Option<IntersectionResult<N>>|
        #![trigger edge_crossing(start, s, p0, p1, index, exclude_points, limits, before, outcome)]
        edge_crossing(start, s, p0, p1, index, exclude_points, limits, before, outcome)
            && match outcome {
            Some(hit) => nearest == hit.u && found == outcome,
            None => nearest == before && found == earlier,
        }
}

/// Whether `found` is what `intersect` gives for the segment from `start` to
/// `end` and the polyline `line`: nothing for a polyline without an edge, and
/// else what going through all its edges leaves.
pub open spec fn is_intersection<N: Scalar>(
    start: Point<N>,
    end: Point<N>,
    line: Seq<Point<N>>,
    exclude_points: bool,
    found: Option<IntersectionResult<N>>,
) -> bool {
    if edge_count(line.len()) == 0 {
        found is None
    } else {
        exists|s: Point<N>, limits: Limits<N>, nearest: N|
            #![trigger
                scanned(
                    start,
                    s,
                    line,
                    exclude_points,
                    limits,
                    edge_count(line.len()) as int,
                    nearest,
                    found,
                )
            ]
            is_vector(start, end, s) && is_limits(limits) && scanned(
                start,
                s,
                line,
                exclude_points,
                limits,
                edge_count(line.len()) as int,
                nearest,
                found,
            )
    }
}

} // verus!
