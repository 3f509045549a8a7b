//! The raw contour of an offset ring: its edges, moved sideways, and the joins
//! between them.
use crate::intersect::edge_count;
use crate::scalar::{
    answers_below_zero, answers_less, full_turn, is_atan2, is_ceil, is_cos, is_count, is_difference,
    is_epsilon, is_full_turn, is_pi, is_product, is_quotient, is_sin, is_sqrt, is_sum,
    is_to_count, Point, Scalar,
};
use vstd::prelude::*;

verus! {

/// An edge of the input ring, moved sideways by the offset.
pub struct OffsetEdge<N> {
    /// The start of the moved edge.
    pub p0: Point<N>,
    /// The end of the moved edge.
    pub p1: Point<N>,
    /// The end of the edge where it was before it was moved.
    pub p1_orig: Point<N>,
    /// The direction of length one in which the edge was moved, at a right
    /// angle to the edge.
    pub normal: Point<N>,
}

/// How the contour gets from one moved edge to the next.
pub enum Join<N> {
    /// The two edges turn away from the offset side: the contour passes
    /// through the corner of the input ring that lies between them.
    Miter,
    /// The two edges continue each other: the end of the first falls on the
    /// start of the second and is left out.
    Straight,
    /// The two edges point in opposite directions: nothing lies between them.
    Flat,
    /// The two edges turn towards the offset side: the contour goes round the
    /// corner of the input ring through these points of a circle.
    Round(Vec<Point<N>>),
}

/// The points that one moved edge and the join behind it add to the contour.
pub open spec fn corner_points<N>(edge: OffsetEdge<N>, join: Join<N>) -> Seq<Point<N>> {
    match join {
        Join::Miter => seq![edge.p0, edge.p1, edge.p1_orig],
        Join::Straight => seq![edge.p0],
        Join::Flat => seq![edge.p0, edge.p1],
        Join::Round(samples) => seq![edge.p0, edge.p1] + samples@,
    }
}

/// The points of all the moved edges and their joins, one corner after the
/// other. The join at place `i` is the one behind the edge at place `i`.
pub open spec fn outline<N>(edges: Seq<OffsetEdge<N>>, joins: Seq<Join<N>>) -> Seq<Point<N>>
    decreases edges.len(),
{
    if edges.len() == 0 {
        Seq::empty()
    } else {
        outline(edges.drop_last(), joins.drop_last()) + corner_points(edges.last(), joins.last())
    }
}

/// A polyline closed by its own first point. An empty polyline stays empty.
pub open spec fn closed_by_first<P>(points: Seq<P>) -> Seq<P> {
    if points.len() == 0 {
        points
    } else {
        points.push(points[0])
    }
}

/// The number of points that lie strictly between the two ends of an arc that
/// is cut into `count` steps.
pub open spec fn inner_samples(count: nat) -> nat {
    if count == 0 {
        0
    } else {
        (count - 1) as nat
    }
}

/// Whether `p` is a point of `ring` other than its first.
pub open spec fn is_later_point<P>(ring: Seq<P>, p: P) -> bool {
    exists|i: int| 0 < i < ring.len() && #[trigger] ring[i] == p
}

/// Every corner begins with the start of its edge.
pub proof fn lemma_corner_begins_with_edge<N>(edge: OffsetEdge<N>, join: Join<N>)
    ensures
        corner_points(edge, join).len() >= 1,
        corner_points(edge, join)[0] == edge.p0,
{
}

/// An outline begins with the start of its first edge and holds at least one
/// point for each edge.
pub proof fn lemma_outline_begins_with_first_edge<N>(
    edges: Seq<OffsetEdge<N>>,
    joins: Seq<Join<N>>,
)
    requires
        edges.len() == joins.len(),
    ensures
        outline(edges, joins).len() >= edges.len(),
        edges.len() > 0 ==> outline(edges, joins)[0] == edges[0].p0,
    decreases edges.len(),
{
    if edges.len() > 0 {
        lemma_outline_begins_with_first_edge(edges.drop_last(), joins.drop_last());
        lemma_corner_begins_with_edge(edges.last(), joins.last());
    }
}

/// The edges of `ring`, each moved by `offset` along its normal.
///
/// An edge that is shorter than the smallest step between two scalars has no
/// direction and is left out, so the edges that are returned are at most as
/// many as the ring has. Each remembers the point of the ring at which it
/// ended before it was moved.
pub fn offset_edges<N: Scalar>(ring: &Vec<Point<N>>, offset: N) -> (edges: Vec<OffsetEdge<N>>)
    ensures
        is_offset_edges(ring@, offset, edges@),
        edges@.len() <= edge_count(ring@.len()),
        forall|k: int|
            0 <= k < edges@.len() ==> is_later_point(ring@, (#[trigger] edges@[k]).p1_orig),
{
    let mut edges: Vec<OffsetEdge<N>> = Vec::new();
    if ring.len() < 2 {
        return edges;
    }
    let last = ring.len() - 1;
    let mut idx: usize = 0;
    while idx < last
        invariant
            last + 1 == ring@.len(),
            idx <= last,
            edges@.len() <= idx,
            forall|k: int|
                0 <= k < edges@.len() ==> is_later_point(ring@, (#[trigger] edges@[k]).p1_orig),
            moved_edges(ring@, offset, idx as int, edges@),
        decreases last - idx,
    {
        let ghost before = edges@;
        let ghost mut outcome: Option<OffsetEdge<N>> = None;
        let p0 = ring[idx];
        let p1 = ring[idx + 1];
        let dx = p0.x.minus(p1.x);
        let dy = p0.y.minus(p1.y);
        let len = dx.times(dx).plus(dy.times(dy)).sqrt();
        assert(is_length(p0, p1, len));
        let short = len.less(N::epsilon());
        assert(answers_short(len, short));
        if !short {
            let normal = Point { x: p1.y.minus(p0.y).over(len), y: p0.x.minus(p1.x).over(len) };
            assert(is_normal(p0, p1, len, normal));
            let edge = OffsetEdge {
                p0: Point {
                    x: p0.x.plus(offset.times(normal.x)),
                    y: p0.y.plus(offset.times(normal.y)),
                },
                p1: Point {
                    x: p1.x.plus(offset.times(normal.x)),
                    y: p1.y.plus(offset.times(normal.y)),
                },
                p1_orig: p1,
                normal,
            };
            assert(is_moved(p0, offset, normal, edge.p0));
            assert(is_moved(p1, offset, normal, edge.p1));
            proof {
                outcome = Some(edge);
            }
            edges.push(edge);
            assert(ring@[idx + 1] == p1);
        }
        assert(moved_edge(p0, p1, offset, outcome));
        idx += 1;
        assert(edges_step(ring@[idx - 1], ring@[idx as int], offset, before, edges@));
    }
    edges
}

/// The points of the circle round `center` with radius `offset` that lie
/// `arc_step`, twice `arc_step` and so on from `start_angle`, up to but not
/// including `count` steps. The angle grows with each step if `forwards`, and
/// shrinks otherwise.
pub fn arc_samples<N: Scalar>(
    center: Point<N>,
    offset: N,
    start_angle: N,
    arc_step: N,
    count: usize,
    forwards: bool,
) -> (samples: Vec<Point<N>>)
    ensures
        is_arc_of(center, offset, start_angle, arc_step, count, forwards, samples@),
        samples@.len() == inner_samples(count as nat),
{
    let mut samples: Vec<Point<N>> = Vec::new();
    let mut step: usize = 1;
    while step < count
        invariant
            1 <= step,
            step <= count || step == 1,
            samples@.len() == step - 1,
            forall|i: int|
                0 <= i < samples@.len() ==> is_arc_sample(
                    center,
                    offset,
                    start_angle,
                    arc_step,
                    forwards,
                    i,
                    #[trigger] samples@[i],
                ),
        decreases count - step,
    {
        let turned = N::from_count(step).times(arc_step);
        let angle = if forwards {
            start_angle.plus(turned)
        } else {
            start_angle.minus(turned)
        };
        assert(is_turned(start_angle, arc_step, step, forwards, angle));
        let point = Point {
            x: center.x.plus(offset.times(angle.cos())),
            y: center.y.plus(offset.times(angle.sin())),
        };
        assert(is_on_circle(center, offset, angle, point));
        assert(is_arc_sample(center, offset, start_angle, arc_step, forwards, step - 1, point));
        samples.push(point);
        step += 1;
    }
    samples
}

/// The points of the arc round `center` that leads from the direction
/// `start_angle` to the direction `end_angle`, without its two ends.
///
/// A positive offset goes round with growing angles, a negative one with
/// shrinking angles. The arc is cut into steps of `arc_step`; where the number
/// of steps is not a count (it is not a number, or too large), the arc has no
/// points.
pub fn arc_between<N: Scalar>(
    center: Point<N>,
    offset: N,
    start_angle: N,
    end_angle: N,
    arc_step: N,
) -> (samples: Vec<Point<N>>)
    ensures
        is_arc(center, offset, start_angle, end_angle, arc_step, samples@),
{
    let mut end = end_angle;
    let inwards = offset.less(N::from_count(0));
    assert(answers_below_zero(offset, inwards));
    let forwards = !inwards;
    let sweep = if forwards {
        let wraps = end.less(start_angle);
        if wraps {
            end = end.plus(full_turn());
        }
        assert(is_unwound(end_angle, wraps, true, end));
        end.minus(start_angle)
    } else {
        let wraps = start_angle.less(end);
        if wraps {
            end = end.minus(full_turn());
        }
        assert(is_unwound(end_angle, wraps, false, end));
        start_angle.minus(end)
    };
    assert(is_sweep(start_angle, end_angle, forwards, sweep));
    let count = match sweep.over(arc_step).ceil().to_count() {
        Some(count) => count,
        None => 0,
    };
    assert(is_step_count(sweep, arc_step, count));
    arc_samples(center, offset, start_angle, arc_step, count, forwards)
}

/// The join between `edge` and the edge `next` that follows it.
///
/// What decides is the angle by which the normal turns from one edge to the
/// next, seen from the side to which the ring is offset.
pub fn join_after<N: Scalar>(
    edge: &OffsetEdge<N>,
    next: &OffsetEdge<N>,
    offset: N,
    arc_step: N,
) -> (join: Join<N>)
    ensures
        is_join(*edge, *next, offset, arc_step, join),
{
    let start_angle = edge.normal.y.atan2(edge.normal.x);
    let end_angle = next.normal.y.atan2(next.normal.x);
    let mut angle = start_angle.minus(end_angle);
    let ghost raw = angle;
    let zero = N::from_count(0);
    let negative = angle.less(zero);
    assert(answers_below_zero(raw, negative));
    if negative {
        angle = angle.plus(full_turn());
    }
    let ghost wrapped = angle;
    assert(is_unwrapped(raw, negative, wrapped));
    assert(is_wrapped_turn(start_angle, end_angle, wrapped));
    let inwards = offset.less(zero);
    assert(answers_below_zero(offset, inwards));
    if inwards {
        angle = full_turn::<N>().minus(angle);
    }
    assert(is_seen_from(wrapped, inwards, angle));
    assert(is_turn(start_angle, end_angle, offset, angle));
    let convex = angle.less(N::pi());
    assert(answers_below_half_turn(angle, convex));
    let join = if convex {
        let closed = angle.less(N::epsilon());
        assert(answers_closed(angle, closed));
        let join = if closed {
            Join::Straight
        } else {
            Join::Miter
        };
        assert(is_convex_join(angle, join));
        join
    } else {
        let concave = N::pi().less(angle);
        assert(answers_above_half_turn(angle, concave));
        let join = if concave {
            Join::Round(arc_between(edge.p1_orig, offset, start_angle, end_angle, arc_step))
        } else {
            Join::Flat
        };
        assert(is_other_join(
            angle,
            edge.p1_orig,
            offset,
            start_angle,
            end_angle,
            arc_step,
            join,
        ));
        join
    };
    assert(is_join_at(angle, edge.p1_orig, offset, start_angle, end_angle, arc_step, join));
    join
}

/// The join behind each of `edges`: the one between it and the edge that
/// follows it, and for the last edge the one between it and the first. An arc
/// gets `arcdetail` points for a full circle.
pub fn joins_of<N: Scalar>(edges: &Vec<OffsetEdge<N>>, offset: N, arcdetail: N) -> (joins: Vec<
    Join<N>,
>)
    ensures
        is_joins(edges@, offset, arcdetail, joins@),
        joins@.len() == edges@.len(),
{
    let arc_step = full_turn::<N>().over(arcdetail);
    assert(is_arc_step(arcdetail, arc_step));
    let mut joins: Vec<Join<N>> = Vec::new();
    let count = edges.len();
    let mut idx: usize = 0;
    while idx < count
        invariant
            count == edges@.len(),
            idx <= count,
            joins@.len() == idx,
            forall|i: int|
                0 <= i < joins@.len() ==> is_join_in(
                    edges@,
                    offset,
                    arc_step,
                    i,
                    #[trigger] joins@[i],
                ),
        decreases count - idx,
    {
        let next = if idx + 1 == count {
            0
        } else {
            idx + 1
        };
        let join = join_after(&edges[idx], &edges[next], offset, arc_step);
        assert(is_join_in(edges@, offset, arc_step, idx as int, join));
        joins.push(join);
        idx += 1;
    }
    joins
}

/// Whether `arc_step` is the angle between two points of an arc: a full turn,
/// divided by `arcdetail`.
pub open spec fn is_arc_step<N: Scalar>(arcdetail: N, arc_step: N) -> bool {
    exists|turn: N| #![trigger is_full_turn(turn)] is_full_turn(turn) && is_quotient(
        turn,
        arcdetail,
        arc_step,
    )
}

/// The place of the edge that follows the edge at place `i` among `count`
/// edges: the next, and the first behind the last.
pub open spec fn following(i: int, count: int) -> int {
    if i + 1 == count {
        0
    } else {
        i + 1
    }
}

/// Whether `join` is the join behind the edge at place `i` of `edges`.
pub open spec fn is_join_in<N: Scalar>(
    edges: Seq<OffsetEdge<N>>,
    offset: N,
    arc_step: N,
    i: int,
    join: Join<N>,
) -> bool {
    is_join(edges[i], edges[following(i, edges.len() as int)], offset, arc_step, join)
}

/// Whether `joins` are what `joins_of` gives for `edges`: behind each edge the
/// join between it and the edge that follows it, with arcs in steps of a full
/// turn divided by `arcdetail`.
pub open spec fn is_joins<N: Scalar>(
    edges: Seq<OffsetEdge<N>>,
    offset: N,
    arcdetail: N,
    joins: Seq<Join<N>>,
) -> bool {
    &&& joins.len() == edges.len()
    &&& exists|arc_step: N|
        #![trigger is_arc_step(arcdetail, arc_step)]
        is_arc_step(arcdetail, arc_step) && forall|i: int|
            0 <= i < joins.len() ==> is_join_in(edges, offset, arc_step, i, #[trigger] joins[i])
}

/// Adds a moved edge and the join behind it to the contour.
pub fn append_corner<N: Scalar>(contour: &mut Vec<Point<N>>, edge: &OffsetEdge<N>, join: &Join<N>)
    ensures
        final(contour)@ == old(contour)@ + corner_points(*edge, *join),
{
    let ghost before = contour@;
    contour.push(edge.p0);
    match join {
        Join::Miter => {
            contour.push(edge.p1);
            contour.push(edge.p1_orig);
        },
        Join::Straight => {},
        Join::Flat => {
            contour.push(edge.p1);
        },
        Join::Round(samples) => {
            contour.push(edge.p1);
            let mut i: usize = 0;
            while i < samples.len()
                invariant
                    i <= samples@.len(),
                    contour@ == before + seq![edge.p0, edge.p1] + samples@.subrange(0, i as int),
                decreases samples@.len() - i,
            {
                contour.push(samples[i]);
                assert(samples@.subrange(0, i + 1) =~= samples@.subrange(0, i as int).push(
                    samples@[i as int],
                ));
                i += 1;
            }
            assert(samples@.subrange(0, i as int) =~= samples@);
        },
    }
    assert(contour@ =~= before + corner_points(*edge, *join));
}

/// The raw contour of the offset ring: every moved edge in turn with the join
/// behind it, closed by its own first point.
///
/// The contour may cross itself. Without an edge it is empty.
pub fn raw_contour<N: Scalar>(edges: &Vec<OffsetEdge<N>>, joins: &Vec<Join<N>>) -> (contour: Vec<
    Point<N>,
>)
    requires
        joins@.len() == edges@.len(),
    ensures
        contour@ == closed_by_first(outline(edges@, joins@)),
        edges@.len() == 0 <==> contour@.len() == 0,
        edges@.len() > 0 ==> contour@.len() > edges@.len(),
        edges@.len() > 0 ==> contour@[0] == edges@[0].p0,
        edges@.len() > 0 ==> contour@.last() == contour@[0],
{
    let mut contour: Vec<Point<N>> = Vec::new();
    let count = edges.len();
    let mut idx: usize = 0;
    while idx < count
        invariant
            count == edges@.len(),
            count == joins@.len(),
            idx <= count,
            contour@ == outline(edges@.subrange(0, idx as int), joins@.subrange(0, idx as int)),
        decreases count - idx,
    {
        proof {
            assert(edges@.subrange(0, idx + 1).drop_last() =~= edges@.subrange(0, idx as int));
            assert(joins@.subrange(0, idx + 1).drop_last() =~= joins@.subrange(0, idx as int));
        }
        append_corner(&mut contour, &edges[idx], &joins[idx]);
        idx += 1;
    }
    proof {
        assert(edges@.subrange(0, idx as int) =~= edges@);
        assert(joins@.subrange(0, idx as int) =~= joins@);
        lemma_outline_begins_with_first_edge(edges@, joins@);
    }
    if contour.len() > 0 {
        let first = contour[0];
        contour.push(first);
    }
    contour
}

/// Whether `len` is the length of the edge from `p0` to `p1`: the square root
/// of the sum of the squares of `p0.x - p1.x` and `p0.y - p1.y`.
pub open spec fn is_length<N: Scalar>(p0: Point<N>, p1: Point<N>, len: N) -> bool {
    exists|dx: N, dy: N, xx: N, yy: N, sq: N|
        #![trigger
            is_difference(p0.x, p1.x, dx),
            is_difference(p0.y, p1.y, dy),
            is_product(dx, dx, xx),
            is_product(dy, dy, yy),
            is_sqrt(sq, len)
        ]
        is_difference(p0.x, p1.x, dx) && is_difference(p0.y, p1.y, dy) && is_product(dx, dx, xx)
            && is_product(dy, dy, yy) && is_sum(xx, yy, sq) && is_sqrt(sq, len)
}

/// Whether `yes` answers that an edge of length `len` is too short to have a
/// direction: `len` is less than epsilon.
pub open spec fn answers_short<N: Scalar>(len: N, yes: bool) -> bool {
    exists|epsilon: N| is_epsilon(epsilon) && answers_less(len, epsilon, yes)
}

/// Whether `normal` is the normal of the edge from `p0` to `p1` of length
/// `len`: `p1.y - p0.y` and `p0.x - p1.x`, each divided by `len`.
pub open spec fn is_normal<N: Scalar>(p0: Point<N>, p1: Point<N>, len: N, normal: Point<N>) -> bool {
    exists|across: N, along: N|
        #![trigger is_difference(p1.y, p0.y, across), is_difference(p0.x, p1.x, along)]
        is_difference(p1.y, p0.y, across) && is_quotient(across, len, normal.x) && is_difference(
            p0.x,
            p1.x,
            along,
        ) && is_quotient(along, len, normal.y)
}

/// Whether `moved` is `p`, moved by `offset` along `normal`: `p + offset *
/// normal`, coordinate by coordinate.
pub open spec fn is_moved<N: Scalar>(p: Point<N>, offset: N, normal: Point<N>, moved: Point<N>) -> bool {
    exists|sx: N, sy: N|
        #![trigger is_product(offset, normal.x, sx), is_product(offset, normal.y, sy)]
        is_product(offset, normal.x, sx) && is_sum(p.x, sx, moved.x) && is_product(
            offset,
            normal.y,
            sy,
        ) && is_sum(p.y, sy, moved.y)
}

/// What the edge from `p0` to `p1` gives: nothing where it is too short, and
/// else the edge with its normal, its two ends moved by `offset` along the
/// normal, and `p1` as the end where it was.
pub open spec fn moved_edge<N: Scalar>(
    p0: Point<N>,
    p1: Point<N>,
    offset: N,
    outcome: Option<OffsetEdge<N>>,
) -> bool {
    exists|len: N, short: bool|
        #![trigger is_length(p0, p1, len), answers_short(len, short)]
        is_length(p0, p1, len) && answers_short(len, short) && if short {
            outcome is None
        } else {
            &&& outcome matches Some(edge)
            &&& is_normal(p0, p1, len, edge.normal)
            &&& is_moved(p0, offset, edge.normal, edge.p0)
            &&& is_moved(p1, offset, edge.normal, edge.p1)
            &&& edge.p1_orig == p1
        }
}

/// Whether the edge from `p0` to `p1` turns the moved edges `before` into
/// `after`: what it gives is added at the end.
pub open spec fn edges_step<N: Scalar>(
    p0: Point<N>,
    p1: Point<N>,
    offset: N,
    before: Seq<OffsetEdge<N>>,
    after: Seq<OffsetEdge<N>>,
) -> bool {
    exists|outcome: Option<OffsetEdge<N>>|
        #![trigger moved_edge(p0, p1, offset, outcome)]
        moved_edge(p0, p1, offset, outcome) && after == match outcome {
            Some(edge) => before.push(edge),
            None => before,
        }
}

/// Whether `edges` are what the first `count` edges of `ring` give, in their
/// order.
pub open spec fn moved_edges<N: Scalar>(
    ring: Seq<Point<N>>,
    offset: N,
    count: int,
    edges: Seq<OffsetEdge<N>>,
) -> bool
    decreases count,
{
    if count <= 0 {
        edges.len() == 0
    } else {
        exists|before: Seq<OffsetEdge<N>>|
            #![trigger edges_step(ring[count - 1], ring[count], offset, before, edges)]
            moved_edges(ring, offset, count - 1, before) && edges_step(
                ring[count - 1],
                ring[count],
                offset,
                before,
                edges,
            )
    }
}

/// Whether `edges` are what `offset_edges` gives for `ring`: what all its
/// edges give.
pub open spec fn is_offset_edges<N: Scalar>(
    ring: Seq<Point<N>>,
    offset: N,
    edges: Seq<OffsetEdge<N>>,
) -> bool {
    moved_edges(ring, offset, edge_count(ring.len()) as int, edges)
}

/// Whether `angle` lies `step` steps of `arc_step` from `start_angle`: the
/// scalar of `step`, times `arc_step`, added to `start_angle` if `forwards`
/// and taken from it otherwise.
pub open spec fn is_turned<N: Scalar>(
    start_angle: N,
    arc_step: N,
    step: usize,
    forwards: bool,
    angle: N,
) -> bool {
    exists|steps: N, turned: N|
        #![trigger is_count(step, steps), is_product(steps, arc_step, turned)]
        is_count(step, steps) && is_product(steps, arc_step, turned) && if forwards {
            is_sum(start_angle, turned, angle)
        } else {
            is_difference(start_angle, turned, angle)
        }
}

/// Whether `point` lies on the circle round `center` in the direction
/// `angle`: `center + offset * (cos angle, sin angle)`.
pub open spec fn is_on_circle<N: Scalar>(center: Point<N>, offset: N, angle: N, point: Point<N>) -> bool {
    exists|c: N, s: N, ox: N, oy: N|
        #![trigger is_product(offset, c, ox), is_product(offset, s, oy)]
        is_cos(angle, c) && is_product(offset, c, ox) && is_sum(center.x, ox, point.x) && is_sin(
            angle,
            s,
        ) && is_product(offset, s, oy) && is_sum(center.y, oy, point.y)
}

/// Whether `point` is the sample at place `index` of an arc: the point of the
/// circle that lies `index + 1` steps from `start_angle`.
pub open spec fn is_arc_sample<N: Scalar>(
    center: Point<N>,
    offset: N,
    start_angle: N,
    arc_step: N,
    forwards: bool,
    index: int,
    point: Point<N>,
) -> bool {
    exists|angle: N|
        #![trigger is_on_circle(center, offset, angle, point)]
        is_turned(start_angle, arc_step, (index + 1) as usize, forwards, angle) && is_on_circle(
            center,
            offset,
            angle,
            point,
        )
}

/// Whether `samples` are the points of an arc that is cut into `count` steps:
/// one for each step but the last, each where `is_arc_sample` says.
pub open spec fn is_arc_of<N: Scalar>(
    center: Point<N>,
    offset: N,
    start_angle: N,
    arc_step: N,
    count: usize,
    forwards: bool,
    samples: Seq<Point<N>>,
) -> bool {
    &&& samples.len() == inner_samples(count as nat)
    &&& forall|i: int|
        0 <= i < samples.len() ==> is_arc_sample(
            center,
            offset,
            start_angle,
            arc_step,
            forwards,
            i,
            #[trigger] samples[i],
        )
}

/// Whether `end` is the angle `end_angle`, unwound so that the arc does not
/// run the wrong way round: a full turn further if `forwards`, a full turn
/// back otherwise, where `wraps`, and `end_angle` itself where not.
pub open spec fn is_unwound<N: Scalar>(end_angle: N, wraps: bool, forwards: bool, end: N) -> bool {
    if wraps {
        exists|turn: N|
            #![trigger is_full_turn(turn)]
            is_full_turn(turn) && if forwards {
                is_sum(end_angle, turn, end)
            } else {
                is_difference(end_angle, turn, end)
            }
    } else {
        end == end_angle
    }
}

/// Whether `sweep` is the angle that an arc from `start_angle` to `end_angle`
/// goes through. Forwards the end wraps where it is less than the start, and
/// the sweep is the end less the start; backwards the end wraps where the
/// start is less than it, and the sweep is the start less the end.
pub open spec fn is_sweep<N: Scalar>(start_angle: N, end_angle: N, forwards: bool, sweep: N) -> bool {
    exists|wraps: bool, end: N|
        #![trigger is_unwound(end_angle, wraps, forwards, end)]
        is_unwound(end_angle, wraps, forwards, end) && if forwards {
            answers_less(end_angle, start_angle, wraps) && is_difference(end, start_angle, sweep)
        } else {
            answers_less(start_angle, end_angle, wraps) && is_difference(start_angle, end, sweep)
        }
}

/// Whether `count` is the number of steps of `arc_step` that `sweep` takes:
/// their quotient, rounded up, as a count, and nothing where that is no
/// count.
pub open spec fn is_step_count<N: Scalar>(sweep: N, arc_step: N, count: usize) -> bool {
    exists|steps: N, whole: N, counted: Option<usize>|
        #![trigger is_quotient(sweep, arc_step, steps), is_ceil(steps, whole), is_to_count(whole, counted)]
        is_quotient(sweep, arc_step, steps) && is_ceil(steps, whole) && is_to_count(whole, counted)
            && count == match counted {
            Some(count) => count,
            None => 0,
        }
}

/// Whether `samples` are what `arc_between` gives: the points of the arc that
/// goes forwards unless the offset is negative, through the sweep from
/// `start_angle` to `end_angle`, in as many steps as the sweep takes.
pub open spec fn is_arc<N: Scalar>(
    center: Point<N>,
    offset: N,
    start_angle: N,
    end_angle: N,
    arc_step: N,
    samples: Seq<Point<N>>,
) -> bool {
    exists|inwards: bool, sweep: N, count: usize|
        #![trigger answers_below_zero(offset, inwards), is_step_count(sweep, arc_step, count)]
        answers_below_zero(offset, inwards) && is_sweep(start_angle, end_angle, !inwards, sweep)
            && is_step_count(sweep, arc_step, count) && is_arc_of(
            center,
            offset,
            start_angle,
            arc_step,
            count,
            !inwards,
            samples,
        )
}

/// Whether `wrapped` is the angle `raw`, made positive: a full turn more
/// where `negative`, and `raw` itself where not.
pub open spec fn is_unwrapped<N: Scalar>(raw: N, negative: bool, wrapped: N) -> bool {
    if negative {
        exists|turn: N| #![trigger is_full_turn(turn)] is_full_turn(turn) && is_sum(raw, turn, wrapped)
    } else {
        wrapped == raw
    }
}

/// Whether `wrapped` is the angle from the direction `end_angle` to the
/// direction `start_angle`, made positive.
pub open spec fn is_wrapped_turn<N: Scalar>(start_angle: N, end_angle: N, wrapped: N) -> bool {
    exists|raw: N, negative: bool|
        #![trigger is_unwrapped(raw, negative, wrapped)]
        is_difference(start_angle, end_angle, raw) && answers_below_zero(raw, negative)
            && is_unwrapped(raw, negative, wrapped)
}

/// Whether `angle` is the turn `wrapped` as it is seen from the side to which
/// the ring is offset: a full turn less `wrapped` where the offset goes
/// inwards, and `wrapped` itself where not.
pub open spec fn is_seen_from<N: Scalar>(wrapped: N, inwards: bool, angle: N) -> bool {
    if inwards {
        exists|turn: N|
            #![trigger is_full_turn(turn)]
            is_full_turn(turn) && is_difference(turn, wrapped, angle)
    } else {
        angle == wrapped
    }
}

/// Whether `angle` is the angle by which the normal turns between two edges
/// with the directions `start_angle` and `end_angle`, seen from the side to
/// which the ring is offset.
pub open spec fn is_turn<N: Scalar>(start_angle: N, end_angle: N, offset: N, angle: N) -> bool {
    exists|wrapped: N, inwards: bool|
        #![trigger is_seen_from(wrapped, inwards, angle)]
        is_wrapped_turn(start_angle, end_angle, wrapped) && answers_below_zero(offset, inwards)
            && is_seen_from(wrapped, inwards, angle)
}

/// Whether `yes` answers that `angle` is less than pi.
pub open spec fn answers_below_half_turn<N: Scalar>(angle: N, yes: bool) -> bool {
    exists|pi: N| is_pi(pi) && answers_less(angle, pi, yes)
}

/// Whether `yes` answers that pi is less than `angle`.
pub open spec fn answers_above_half_turn<N: Scalar>(angle: N, yes: bool) -> bool {
    exists|pi: N| is_pi(pi) && answers_less(pi, angle, yes)
}

/// Whether `yes` answers that `angle` is less than epsilon: the two edges
/// continue each other.
pub open spec fn answers_closed<N: Scalar>(angle: N, yes: bool) -> bool {
    exists|epsilon: N| is_epsilon(epsilon) && answers_less(angle, epsilon, yes)
}

/// Whether `join` is the join of two edges that turn by less than pi: a
/// straight continuation where the turn is less than epsilon, and else a
/// miter.
pub open spec fn is_convex_join<N: Scalar>(angle: N, join: Join<N>) -> bool {
    exists|closed: bool|
        #![trigger answers_closed(angle, closed)]
        answers_closed(angle, closed) && if closed {
            join is Straight
        } else {
            join is Miter
        }
}

/// Whether `join` is the join of two edges that do not turn by less than pi:
/// an arc round `center` where they turn by more, and else a flat join.
pub open spec fn is_other_join<N: Scalar>(
    angle: N,
    center: Point<N>,
    offset: N,
    start_angle: N,
    end_angle: N,
    arc_step: N,
    join: Join<N>,
) -> bool {
    exists|concave: bool|
        #![trigger answers_above_half_turn(angle, concave)]
        answers_above_half_turn(angle, concave) && if concave {
            join matches Join::Round(samples) && is_arc(
                center,
                offset,
                start_angle,
                end_angle,
                arc_step,
                samples@,
            )
        } else {
            join is Flat
        }
}

/// Whether `join` is the join of two edges that turn by `angle`.
pub open spec fn is_join_at<N: Scalar>(
    angle: N,
    center: Point<N>,
    offset: N,
    start_angle: N,
    end_angle: N,
    arc_step: N,
    join: Join<N>,
) -> bool {
    exists|convex: bool|
        #![trigger answers_below_half_turn(angle, convex)]
        answers_below_half_turn(angle, convex) && if convex {
            is_convex_join(angle, join)
        } else {
            is_other_join(angle, center, offset, start_angle, end_angle, arc_step, join)
        }
}

/// Whether `join` is what `join_after` gives for `edge` and the edge `next`
/// behind it: the join for the turn between the directions of their normals,
/// round the end of `edge` where it was before it was moved.
pub open spec fn is_join<N: Scalar>(
    edge: OffsetEdge<N>,
    next: OffsetEdge<N>,
    offset: N,
    arc_step: N,
    join: Join<N>,
) -> bool {
    exists|start_angle: N, end_angle: N, angle: N|
        #![trigger is_turn(start_angle, end_angle, offset, angle)]
        is_atan2(edge.normal.y, edge.normal.x, start_angle) && is_atan2(
            next.normal.y,
            next.normal.x,
            end_angle,
        ) && is_turn(start_angle, end_angle, offset, angle) && is_join_at(
            angle,
            edge.p1_orig,
            offset,
            start_angle,
            end_angle,
            arc_step,
            join,
        )
}

} // verus!
