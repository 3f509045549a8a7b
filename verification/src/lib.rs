//! Offsetting of simple closed polygons.
//!
//! [`offset_polygon`] grows or shrinks a ring by a signed distance. It builds
//! the raw contour of the moved edges ([`contour`]), finds where that contour
//! crosses itself ([`resolve`], [`intersect`]), splits it at the crossings into
//! closed regions ([`regions`], [`walks`]) and keeps the regions round which the
//! resolved boundary winds exactly once ([`winding`]).
//!
//! The geometry is computed in any type that implements [`Scalar`]. What is
//! proved holds for every such type: no call panics, every call ends, and
//! every result is what its contract says. The combinatorial part of the work
//! is stated outright. The geometry is stated as the scalar operations that it
//! is made of: which operation is asked, with which arguments, and what is
//! done with its answer. What an operation answers is the scalar type's own
//! affair.
use vstd::prelude::*;

pub mod boundary;
pub mod contour;
pub mod error;
pub mod intersect;
pub mod regions;
pub mod resolve;
pub mod scalar;
pub mod walks;
pub mod winding;

pub use boundary::{Boundary, VertexRef, MAX_CROSSINGS};
pub use error::CombinatorialExplosionError;
pub use intersect::{intersect, IntersectionResult};
pub use scalar::{Point, Scalar};

verus! {

/// Whether `rings` are what the moved edges `edges` of `polygon` and the joins
/// `joins` between them give: `edges` are the edges of the ring, moved by
/// `offset`, `joins` the joins behind them, and `rings` the regions of the
/// resolved outline round which it winds once.
pub open spec fn is_offset_of<N: Scalar>(
    polygon: Seq<Point<N>>,
    offset: N,
    arcdetail: N,
    rings: Seq<Vec<Point<N>>>,
    edges: Seq<contour::OffsetEdge<N>>,
    joins: Seq<contour::Join<N>>,
) -> bool {
    &&& contour::is_offset_edges(polygon, offset, edges)
    &&& edges.len() <= intersect::edge_count(polygon.len())
    &&& forall|k: int|
        0 <= k < edges.len() ==> contour::is_later_point(polygon, (#[trigger] edges[k]).p1_orig)
    &&& contour::is_joins(edges, offset, arcdetail, joins)
    &&& resolve::resolves(contour::outline(edges, joins), rings)
}

/// Whether the offset of `polygon` fails with the moved edges `edges` and the
/// joins `joins`: they are the edges and joins of the ring, and the search for
/// the crossings of their outline ends on a crossing that the cap does not
/// allow any more.
pub open spec fn is_offset_failure<N: Scalar>(
    polygon: Seq<Point<N>>,
    offset: N,
    arcdetail: N,
    error: CombinatorialExplosionError,
    edges: Seq<contour::OffsetEdge<N>>,
    joins: Seq<contour::Join<N>>,
) -> bool {
    &&& contour::is_offset_edges(polygon, offset, edges)
    &&& contour::is_joins(edges, offset, arcdetail, joins)
    &&& resolve::is_located(contour::outline(edges, joins), Err(error))
}

/// Expands or shrinks the ring `polygon` by `offset`.
///
/// The ring has to be closed: its last point repeats its first. A positive
/// offset expands it, a negative one shrinks it. Where the offset ring bends
/// round a corner of the input, the corner is rounded by an arc, and
/// `arcdetail` is the number of points that a full circle would get.
///
/// The result are the rings of the offset polygon, each closed. There may be
/// none, when the ring is shrunk to nothing, or several, when it falls apart.
/// They are those regions of the resolved raw contour round whose test point
/// the contour winds exactly once. An empty ring gives one empty ring. A ring
/// of a single point has no edge and gives no ring.
///
/// The call fails only when the raw contour crosses itself more often than
/// [`MAX_CROSSINGS`] allows.
pub fn offset_polygon<N: Scalar>(polygon: &Vec<Point<N>>, offset: N, arcdetail: N) -> (result:
    Result<Vec<Vec<Point<N>>>, CombinatorialExplosionError>)
    ensures
        polygon@.len() == 0 ==> (result matches Ok(rings) && rings@.len() == 1 && rings@[0]@.len()
            == 0),
        polygon@.len() == 1 ==> (result matches Ok(rings) && rings@.len() == 0),
        polygon@.len() > 0 ==> (result matches Ok(rings) ==> forall|k: int|
            0 <= k < rings@.len() ==> resolve::is_closed((#[trigger] rings@[k])@)),
        polygon@.len() > 0 ==> (result matches Ok(rings) ==> exists|
            edges: Seq<contour::OffsetEdge<N>>,
            joins: Seq<contour::Join<N>>,
        | is_offset_of(polygon@, offset, arcdetail, rings@, edges, joins)),
        result matches Err(error) ==> exists|
            edges: Seq<contour::OffsetEdge<N>>,
            joins: Seq<contour::Join<N>>,
        | is_offset_failure(polygon@, offset, arcdetail, error, edges, joins),
{
    if polygon.len() == 0 {
        let mut rings: Vec<Vec<Point<N>>> = Vec::new();
        rings.push(Vec::new());
        return Ok(rings);
    }
    let edges = contour::offset_edges(polygon, offset);
    let joins = contour::joins_of(&edges, offset, arcdetail);
    let outline = contour::raw_contour(&edges, &joins);
    proof {
        assert(resolve::without_closing_point(outline@) =~= contour::outline(edges@, joins@));
    }
    let result = resolve::resolve(outline);
    proof {
        if result is Ok {
            assert(is_offset_of(polygon@, offset, arcdetail, result->Ok_0@, edges@, joins@));
        } else {
            assert(is_offset_failure(
                polygon@,
                offset,
                arcdetail,
                result->Err_0,
                edges@,
                joins@,
            ));
        }
    }
    result
}

} // verus!
