//! The resolution of a raw contour: finding its crossings, splitting it into
//! regions and keeping those that belong to the offset polygon.
use crate::boundary::{occurrences, partner_slot, raw_refs, Boundary, VertexRef, MAX_CROSSINGS};
use crate::error::CombinatorialExplosionError;
use crate::intersect::{intersect, is_intersection, IntersectionResult};
use crate::regions::{decompose, is_cycle, is_decomposition, lemma_uncrossed_is_one_region};
use crate::scalar::{Point, Scalar};
use crate::walks::paired;
use crate::winding::{is_region_winding, region_winding, retain_winding_once, retained};
use vstd::prelude::*;

verus! {

/// Whether `ring` ends where it begins.
pub open spec fn is_closed<P>(ring: Seq<P>) -> bool {
    ring.len() >= 2 && ring[0] == ring.last()
}

/// In a boundary every crossing is referred to exactly twice.
pub proof fn lemma_boundary_is_paired<P: Copy>(boundary: &Boundary<P>)
    requires
        boundary.wf(),
    ensures
        paired(boundary.refs@),
{
    let refs = boundary.refs@;
    assert forall|p: int| 0 <= p < refs.len() && (#[trigger] refs[p]) is Crossing implies occurrences(
        refs,
        refs[p],
    ) == 2 by {
        assert(boundary.holds(refs[p]));
        match refs[p] {
            VertexRef::Crossing(k) => {
                assert(occurrences(refs, VertexRef::Crossing(k)) == 2);
            },
            VertexRef::Raw(_) => {},
        }
    }
}

/// A boundary in which no crossing was found is a single region, and that
/// region is the raw contour itself, point for point, closed by its first
/// point.
pub proof fn lemma_uncrossed_region_is_contour<P: Copy>(
    boundary: &Boundary<P>,
    cycles: Seq<Vec<usize>>,
)
    requires
        boundary.wf(),
        boundary.crossings@.len() == 0,
        boundary.raw@.len() > 0,
        is_decomposition(boundary.refs@, cycles),
    ensures
        cycles.len() == 1,
        boundary.ring_through(cycles[0]@) == boundary.raw@.push(boundary.raw@[0]),
        boundary.ring_through(cycles[0]@) == boundary.resolved(),
{
    boundary.lemma_uncrossed_passes_raw_points();
    assert(boundary.raw@.len() == boundary.raw.len());
    lemma_uncrossed_is_one_region(boundary.raw@.len(), cycles);
    assert(boundary.ring_through(cycles[0]@) =~= boundary.raw@.push(boundary.raw@[0]));
    assert(boundary.resolved() =~= boundary.raw@.push(boundary.raw@[0]));
}

/// Finds the points at which the contour `raw` crosses itself and puts them
/// into its boundary. The last point of `raw` is joined to the first.
///
/// Every edge of the boundary in turn is tested against all the others. Where
/// it crosses one, the crossing is recorded on both edges, and the rest of the
/// edge, from the crossing on, is tested again, until nothing crosses it any
/// more. The call fails when more crossings are needed than the cap allows.
///
/// `is_located` says query by query how the search goes. A contour of fewer
/// than four points has no two edges that could cross, so its boundary is
/// found and has no crossing.
pub fn locate_crossings<N: Scalar>(raw: Vec<Point<N>>) -> (result: Result<
    Boundary<Point<N>>,
    CombinatorialExplosionError,
>)
    ensures
        is_located(raw@, result),
        result matches Ok(boundary) ==> boundary.wf() && boundary.raw@ == raw@,
        raw@.len() < 4 ==> (result matches Ok(boundary) && boundary.crossings@.len() == 0),
{
    let ghost points = raw@;
    let mut boundary = Boundary::new(raw);
    let mut cursor: usize = 0;
    let ghost mut queries: nat = 0;
    let ghost mut last: Search<N> = arbitrary();
    while boundary.refs.len() - cursor > 1
        invariant
            boundary.wf(),
            boundary.raw@ == points,
            points == raw@,
            cursor <= boundary.refs@.len(),
            points.len() < 4 ==> boundary.crossings@.len() == 0,
            cursor > 0 ==> points.len() > 1,
            cursor == 0 ==> is_fresh(points, boundary),
            cursor > 0 ==> reached(points, queries, last) && is_query(last, None)
                && last.boundary == boundary && cursor == last.cursor + 1,
        decreases MAX_CROSSINGS - boundary.crossings@.len(), boundary.refs@.len() - cursor,
    {
        let ghost crossings_before = boundary.crossings@.len();
        let ghost cursor_before = cursor;
        let mut p0 = boundary.lookup(boundary.refs[cursor]);
        let p1 = boundary.lookup(boundary.refs[cursor + 1]);
        proof {
            let first = Search { boundary, cursor, p0, p1 };
            assert(starts_edge(first));
            if cursor > 0 {
                assert(follows(last, None, first));
                assert(search_step(last, first));
                queries = queries + 1;
            } else {
                queries = 0;
            }
            assert(reached(points, queries, first));
        }
        loop
            invariant_except_break
                reached(points, queries, Search { boundary, cursor, p0, p1 }),
            invariant
                boundary.wf(),
                boundary.raw@ == points,
                points == raw@,
                points.len() > 1,
                cursor + 1 < boundary.refs.len(),
                points.len() < 4 ==> boundary.crossings@.len() == 0,
                boundary.crossings@.len() >= crossings_before,
                cursor - cursor_before == boundary.crossings@.len() - crossings_before,
            ensures
                reached(points, queries, last),
                is_query(last, None),
                last.boundary == boundary,
                last.cursor == cursor,
            decreases MAX_CROSSINGS - boundary.crossings@.len(),
        {
            let ghost here = Search { boundary, cursor, p0, p1 };
            let len = boundary.refs.len();
            let rest = boundary.rest_points(cursor);
            assert(rest@.len() == len - 2);
            let found = intersect(p0, p1, &rest, true);
            assert(is_query(here, found));
            match found {
                Some(hit) => {
                    assert(points.len() >= 4);
                    match boundary.record_crossing(cursor, hit.index, hit.point) {
                        Ok(()) => {},
                        Err(error) => {
                            proof {
                                let failed: Result<
                                    Boundary<Point<N>>,
                                    CombinatorialExplosionError,
                                > = Err(error);
                                assert(ends_search(here, found, failed));
                            }
                            return Err(error);
                        },
                    }
                    p0 = hit.point;
                    cursor += 1;
                    proof {
                        let next = Search { boundary, cursor, p0, p1 };
                        assert(follows(here, found, next));
                        assert(search_step(here, next));
                        queries = queries + 1;
                        assert(reached(points, queries, next));
                    }
                },
                None => {
                    proof {
                        last = here;
                    }
                    break ;
                },
            }
        }
        cursor += 1;
    }
    proof {
        let done: Result<Boundary<Point<N>>, CombinatorialExplosionError> = Ok(boundary);
        if cursor > 0 {
            assert(ends_search(last, None, done));
        }
    }
    Ok(boundary)
}

/// A place in the search for crossings: the boundary as far as it is
/// resolved, and the segment that is held against the rest of it next. The
/// segment leads from `p0` to `p1` and belongs to the edge at `cursor`.
pub struct Search<N> {
    /// The boundary with the crossings found so far.
    pub boundary: Boundary<Point<N>>,
    /// The position at which the edge under test starts.
    pub cursor: usize,
    /// The start of the segment: the start of the edge, or the last crossing
    /// found on it.
    pub p0: Point<N>,
    /// The end of the segment and of the edge.
    pub p1: Point<N>,
}

/// Whether `boundary` is the boundary of the contour `raw` before any
/// crossing is found.
pub open spec fn is_fresh<N: Scalar>(raw: Seq<Point<N>>, boundary: Boundary<Point<N>>) -> bool {
    &&& boundary.raw@ == raw
    &&& boundary.crossings@.len() == 0
    &&& boundary.refs@ == raw_refs(raw.len())
}

/// Whether `after` is `before` with one more crossing: `point`, found on the
/// edge at `cursor` and on edge `hit` of the rest.
pub open spec fn is_recorded<N: Scalar>(
    before: Boundary<Point<N>>,
    cursor: int,
    hit: int,
    point: Point<N>,
    after: Boundary<Point<N>>,
) -> bool {
    let id = VertexRef::Crossing(before.crossings@.len() as usize);
    &&& after.raw@ == before.raw@
    &&& after.crossings@ == before.crossings@.push(point)
    &&& after.refs@ == before.refs@.insert(cursor + 1, id).insert(
        partner_slot(cursor, hit, before.refs@.len() as int),
        id,
    )
}

/// Whether `found` is what holding the segment of `search` against the rest
/// of its boundary gives.
pub open spec fn is_query<N: Scalar>(search: Search<N>, found: Option<IntersectionResult<N>>) -> bool {
    is_intersection(
        search.p0,
        search.p1,
        search.boundary.rest_of(search.cursor as int),
        true,
        found,
    )
}

/// Whether `search` is at the start of an edge: the edge at its cursor is not
/// the last of the boundary, and the segment is the whole edge.
pub open spec fn starts_edge<N: Scalar>(search: Search<N>) -> bool {
    &&& search.boundary.refs@.len() - search.cursor > 1
    &&& search.p0 == search.boundary.point_at(search.cursor as int)
    &&& search.p1 == search.boundary.point_at(search.cursor + 1)
}

/// Where the search goes on after a query at `before` that gave `found`. A
/// crossing is recorded, if the cap allows one more, and the rest of the edge
/// behind the crossing comes next. Without a crossing the next edge comes
/// next, if there is one.
pub open spec fn follows<N: Scalar>(
    before: Search<N>,
    found: Option<IntersectionResult<N>>,
    after: Search<N>,
) -> bool {
    match found {
        Some(hit) => {
            &&& before.boundary.crossings@.len() < MAX_CROSSINGS
            &&& is_recorded(
                before.boundary,
                before.cursor as int,
                hit.index as int,
                hit.point,
                after.boundary,
            )
            &&& after.cursor == before.cursor + 1
            &&& after.p0 == hit.point
            &&& after.p1 == before.p1
        },
        None => {
            &&& after.boundary == before.boundary
            &&& after.cursor == before.cursor + 1
            &&& starts_edge(after)
        },
    }
}

/// Whether the search goes from `before` to `after` with one query.
pub open spec fn search_step<N: Scalar>(before: Search<N>, after: Search<N>) -> bool {
    exists|found: Option<IntersectionResult<N>>|
        #![trigger is_query(before, found)]
        is_query(before, found) && follows(before, found, after)
}

/// Whether the search in the contour `raw` is at `search` after `queries`
/// queries. It starts with the fresh boundary at its first edge.
pub open spec fn reached<N: Scalar>(raw: Seq<Point<N>>, queries: nat, search: Search<N>) -> bool
    decreases queries,
{
    if queries == 0 {
        is_fresh(raw, search.boundary) && search.cursor == 0 && starts_edge(search)
    } else {
        exists|before: Search<N>|
            #![trigger search_step(before, search)]
            reached(raw, (queries - 1) as nat, before) && search_step(before, search)
    }
}

/// Whether the search ends with `result` after a query at `last` that gave
/// `found`: it fails on a crossing that the cap does not allow any more, and
/// it is done with the boundary as it is where the last edge but one has no
/// further crossing.
pub open spec fn ends_search<N: Scalar>(
    last: Search<N>,
    found: Option<IntersectionResult<N>>,
    result: Result<Boundary<Point<N>>, CombinatorialExplosionError>,
) -> bool {
    match found {
        Some(hit) => last.boundary.crossings@.len() == MAX_CROSSINGS && result is Err,
        None => {
            &&& last.boundary.refs@.len() - (last.cursor + 1) <= 1
            &&& result matches Ok(boundary)
            &&& boundary == last.boundary
        },
    }
}

/// Whether `result` is what `locate_crossings` gives for the contour `raw`:
/// the fresh boundary where the contour has no edge to test, and else what
/// the search ends with.
pub open spec fn is_located<N: Scalar>(
    raw: Seq<Point<N>>,
    result: Result<Boundary<Point<N>>, CombinatorialExplosionError>,
) -> bool {
    if raw.len() <= 1 {
        result matches Ok(boundary) && is_fresh(raw, boundary)
    } else {
        exists|queries: nat, last: Search<N>, found: Option<IntersectionResult<N>>|
            #![trigger reached(raw, queries, last), is_query(last, found)]
            reached(raw, queries, last) && is_query(last, found) && ends_search(
                last,
                found,
                result,
            )
    }
}

/// The closed rings that pass the positions of each of `cycles`.
pub fn rings_of<P: Copy>(boundary: &Boundary<P>, cycles: &Vec<Vec<usize>>) -> (rings: Vec<Vec<P>>)
    requires
        boundary.wf(),
        forall|j: int| 0 <= j < cycles@.len() ==> is_cycle(boundary.refs@, (#[trigger] cycles@[j])@),
    ensures
        rings@.len() == cycles@.len(),
        forall|j: int|
            0 <= j < rings@.len() ==> (#[trigger] rings@[j])@ == boundary.ring_through(cycles@[j]@),
        forall|j: int| 0 <= j < rings@.len() ==> is_closed((#[trigger] rings@[j])@),
{
    let mut rings: Vec<Vec<P>> = Vec::new();
    let mut j: usize = 0;
    while j < cycles.len()
        invariant
            boundary.wf(),
            j <= cycles@.len(),
            forall|j: int|
                0 <= j < cycles@.len() ==> is_cycle(boundary.refs@, (#[trigger] cycles@[j])@),
            rings@.len() == j,
            forall|k: int|
                0 <= k < rings@.len() ==> (#[trigger] rings@[k])@ == boundary.ring_through(
                    cycles@[k]@,
                ),
            forall|k: int| 0 <= k < rings@.len() ==> is_closed((#[trigger] rings@[k])@),
        decreases cycles@.len() - j,
    {
        assert(is_cycle(boundary.refs@, cycles@[j as int]@));
        let ring = boundary.ring_of(&cycles[j]);
        rings.push(ring);
        j += 1;
    }
    rings
}

/// The winding number of `boundary` around the test point of each of
/// `regions`, or `None` for a region that has no test point.
pub fn windings_of<N: Scalar>(regions: &Vec<Vec<Point<N>>>, boundary: &Vec<Point<N>>) -> (windings:
    Vec<Option<i128>>)
    ensures
        windings@.len() == regions@.len(),
        forall|j: int|
            0 <= j < windings@.len() ==> is_region_winding(
                regions@[j]@,
                boundary@,
                #[trigger] windings@[j],
            ),
{
    let mut windings: Vec<Option<i128>> = Vec::new();
    let mut j: usize = 0;
    while j < regions.len()
        invariant
            j <= regions@.len(),
            windings@.len() == j,
            forall|k: int|
                0 <= k < windings@.len() ==> is_region_winding(
                    regions@[k]@,
                    boundary@,
                    #[trigger] windings@[k],
                ),
        decreases regions@.len() - j,
    {
        windings.push(region_winding(&regions[j], boundary));
        j += 1;
    }
    windings
}

/// Every ring that is retained from closed rings is closed.
pub proof fn lemma_retained_are_closed<P>(
    candidates: Seq<Vec<P>>,
    windings: Seq<Option<i128>>,
    k: int,
)
    requires
        candidates.len() == windings.len(),
        forall|j: int| 0 <= j < candidates.len() ==> is_closed((#[trigger] candidates[j])@),
        0 <= k < retained(candidates, windings).len(),
    ensures
        is_closed(retained(candidates, windings)[k]@),
{
    let i = crate::winding::lemma_retained_winds_once(candidates, windings, k);
    assert(is_closed(candidates[i]@));
}

/// A closed contour without the last point, which repeats the first.
pub open spec fn without_closing_point<P>(contour: Seq<P>) -> Seq<P> {
    if contour.len() == 0 {
        contour
    } else {
        contour.drop_last()
    }
}

/// Whether `rings` are what `boundary` gives for the contour `raw`, given the
/// regions `cycles` that the boundary falls into and the winding number of
/// each, taken for the ring through the region against the whole resolved
/// boundary: the rings through those regions whose winding number is one, in
/// their order.
pub open spec fn is_resolution<N: Scalar>(
    raw: Seq<Point<N>>,
    rings: Seq<Vec<Point<N>>>,
    boundary: Boundary<Point<N>>,
    cycles: Seq<Vec<usize>>,
    windings: Seq<Option<i128>>,
) -> bool {
    &&& is_located(raw, Ok(boundary))
    &&& boundary.wf()
    &&& boundary.raw@ == raw
    &&& is_decomposition(boundary.refs@, cycles)
    &&& windings.len() == cycles.len()
    &&& forall|j: int|
        0 <= j < windings.len() ==> is_region_winding(
            boundary.ring_through(cycles[j]@),
            boundary.resolved(),
            #[trigger] windings[j],
        )
    &&& rings.len() == retained(cycles, windings).len()
    &&& forall|k: int|
        0 <= k < rings.len() ==> (#[trigger] rings[k])@ == boundary.ring_through(
            retained(cycles, windings)[k]@,
        )
}

/// Whether `rings` resolve the contour `raw`: there is a boundary of the
/// contour, with the crossings that were found in it, of which `rings` are
/// the regions with the winding number one.
pub open spec fn resolves<N: Scalar>(raw: Seq<Point<N>>, rings: Seq<Vec<Point<N>>>) -> bool {
    exists|boundary: Boundary<Point<N>>, cycles: Seq<Vec<usize>>, windings: Seq<Option<i128>>|
        is_resolution(raw, rings, boundary, cycles, windings)
}

/// Where the search finds no crossing in a contour, the boundary is one
/// region. If the boundary winds once round its test point, the contour itself
/// is the one ring that is returned, point for point and closed by its first
/// point; if not, no ring is returned.
pub proof fn lemma_uncrossed_resolution<N: Scalar>(
    raw: Seq<Point<N>>,
    rings: Seq<Vec<Point<N>>>,
    boundary: Boundary<Point<N>>,
    cycles: Seq<Vec<usize>>,
    windings: Seq<Option<i128>>,
)
    requires
        is_resolution(raw, rings, boundary, cycles, windings),
        boundary.crossings@.len() == 0,
        raw.len() > 0,
    ensures
        cycles.len() == 1,
        windings[0] == Some(1i128) ==> rings.len() == 1 && rings[0]@ == raw.push(raw[0]),
        windings[0] != Some(1i128) ==> rings.len() == 0,
{
    lemma_uncrossed_region_is_contour(&boundary, cycles);
    reveal_with_fuel(retained, 2);
    assert(cycles.drop_last().len() == 0);
    assert(windings.last() == windings[0]);
    assert(cycles.last() == cycles[0]);
}

/// What is retained of two sequences by the same winding numbers keeps what
/// the two have to do with each other, place by place.
pub proof fn lemma_retained_alike<A, B>(
    left: Seq<A>,
    right: Seq<B>,
    windings: Seq<Option<i128>>,
    alike: spec_fn(A, B) -> bool,
)
    requires
        left.len() == windings.len(),
        right.len() == windings.len(),
        forall|j: int| 0 <= j < left.len() ==> alike(#[trigger] left[j], right[j]),
    ensures
        retained(left, windings).len() == retained(right, windings).len(),
        forall|k: int|
            0 <= k < retained(left, windings).len() ==> alike(
                #[trigger] retained(left, windings)[k],
                retained(right, windings)[k],
            ),
    decreases left.len(),
{
    if left.len() > 0 {
        lemma_retained_alike(left.drop_last(), right.drop_last(), windings.drop_last(), alike);
        assert(alike(left[left.len() - 1], right[left.len() - 1]));
    }
}

/// Resolves a raw contour into the rings of the offset polygon.
///
/// The contour is taken as closed: its last point repeats its first and is
/// not looked at. The crossings of the contour with itself are found, the
/// boundary is split at them into closed regions, and a region is kept where
/// the resolved boundary winds exactly once round its test point. The rings
/// come in the order in which the regions are found.
///
/// Every ring that is returned is closed. A contour without an edge has no
/// region, and one of fewer than four edges always resolves.
pub fn resolve<N: Scalar>(contour: Vec<Point<N>>) -> (result: Result<
    Vec<Vec<Point<N>>>,
    CombinatorialExplosionError,
>)
    ensures
        result matches Ok(rings) ==> forall|k: int|
            0 <= k < rings@.len() ==> is_closed((#[trigger] rings@[k])@),
        result matches Ok(rings) ==> resolves(without_closing_point(contour@), rings@),
        result matches Err(error) ==> is_located(without_closing_point(contour@), Err(error)),
        contour@.len() <= 1 ==> (result matches Ok(rings) && rings@.len() == 0),
        contour@.len() <= 4 ==> result is Ok,
{
    let mut raw = contour;
    raw.pop();
    let ghost open = raw@;
    let boundary = match locate_crossings(raw) {
        Ok(boundary) => boundary,
        Err(error) => {
            return Err(error);
        },
    };
    proof {
        lemma_boundary_is_paired(&boundary);
    }
    let cycles = decompose(&boundary.refs);
    if boundary.refs.len() == 0 {
        let rings: Vec<Vec<Point<N>>> = Vec::new();
        proof {
            let none = Seq::<Option<i128>>::empty();
            assert(cycles@.len() == 0) by {
                if cycles@.len() > 0 {
                    assert(is_cycle(boundary.refs@, cycles@[0]@));
                    assert(cycles@[0]@[0] < boundary.refs@.len());
                }
            }
            assert(is_resolution(open, rings@, boundary, cycles@, none));
        }
        return Ok(rings);
    }
    let candidates = rings_of(&boundary, &cycles);
    let outline = boundary.resolved_ring();
    let windings = windings_of(&candidates, &outline);
    let ghost all = candidates@;
    let rings = retain_winding_once(candidates, &windings);
    proof {
        assert forall|k: int| 0 <= k < rings@.len() implies is_closed((#[trigger] rings@[k])@) by {
            lemma_retained_are_closed(all, windings@, k);
        }
        let alike = |ring: Vec<Point<N>>, cycle: Vec<usize>|
            ring@ == boundary.ring_through(cycle@);
        lemma_retained_alike(all, cycles@, windings@, alike);
        assert forall|k: int| 0 <= k < rings@.len() implies (#[trigger] rings@[k])@
            == boundary.ring_through(retained(cycles@, windings@)[k]@) by {
            assert(alike(retained(all, windings@)[k], retained(cycles@, windings@)[k]));
        }
        assert(is_resolution(open, rings@, boundary, cycles@, windings@));
    }
    Ok(rings)
}

} // verus!
