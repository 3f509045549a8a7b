use offset_polygon::contour::{
    append_corner, arc_between, arc_samples, join_after, joins_of, offset_edges, raw_contour, Join,
    OffsetEdge,
};
use offset_polygon::intersect::cross_product;
use offset_polygon::winding::{
    is_left, probe_point, region_winding, retain_winding_once, winding_number,
};
use offset_polygon::{intersect, offset_polygon, Point, Scalar};

/// Double precision numbers as the scalars of the library.
#[derive(Clone, Copy, Debug, PartialEq)]
struct Real(f64);

impl Scalar for Real {
    fn from_count(n: usize) -> Self {
        Real(n as f64)
    }

    fn pi() -> Self {
        Real(std::f64::consts::PI)
    }

    fn epsilon() -> Self {
        Real(f64::EPSILON)
    }

    fn plus(self, rhs: Self) -> Self {
        Real(self.0 + rhs.0)
    }

    fn minus(self, rhs: Self) -> Self {
        Real(self.0 - rhs.0)
    }

    fn times(self, rhs: Self) -> Self {
        Real(self.0 * rhs.0)
    }

    fn over(self, rhs: Self) -> Self {
        Real(self.0 / rhs.0)
    }

    fn less(self, rhs: Self) -> bool {
        self.0 < rhs.0
    }

    fn at_most(self, rhs: Self) -> bool {
        self.0 <= rhs.0
    }

    fn abs(self) -> Self {
        Real(self.0.abs())
    }

    fn sqrt(self) -> Self {
        Real(self.0.sqrt())
    }

    fn ceil(self) -> Self {
        Real(self.0.ceil())
    }

    fn sin(self) -> Self {
        Real(self.0.sin())
    }

    fn cos(self) -> Self {
        Real(self.0.cos())
    }

    fn atan2(self, x: Self) -> Self {
        Real(self.0.atan2(x.0))
    }

    fn to_count(self) -> Option<usize> {
        num_traits::NumCast::from(self.0)
    }
}

fn pt(x: f64, y: f64) -> Point<Real> {
    Point { x: Real(x), y: Real(y) }
}

fn coords(points: &[Point<Real>]) -> Vec<(f64, f64)> {
    points.iter().map(|p| (p.x.0, p.y.0)).collect()
}

fn square() -> Vec<Point<Real>> {
    vec![pt(0.0, 0.0), pt(2.0, 0.0), pt(2.0, 2.0), pt(0.0, 2.0), pt(0.0, 0.0)]
}

fn triangle() -> Vec<Point<Real>> {
    vec![pt(0.0, 0.0), pt(1.0, 0.0), pt(1.0, 1.0), pt(0.0, 0.0)]
}

#[test]
fn cross_product_is_the_determinant() {
    assert_eq!(cross_product(pt(1.0, 2.0), pt(3.0, 4.0)), Real(-2.0));
    assert_eq!(cross_product(pt(3.0, 4.0), pt(1.0, 2.0)), Real(2.0));
    assert_eq!(cross_product(pt(2.0, 4.0), pt(1.0, 2.0)), Real(0.0));
}

#[test]
fn is_left_tells_the_side() {
    assert_eq!(is_left(pt(0.0, 0.0), pt(1.0, 0.0), pt(0.0, 1.0)), Real(1.0));
    assert_eq!(is_left(pt(0.0, 0.0), pt(1.0, 0.0), pt(0.0, -1.0)), Real(-1.0));
    assert_eq!(is_left(pt(0.0, 0.0), pt(1.0, 0.0), pt(5.0, 0.0)), Real(0.0));
    assert_eq!(is_left(pt(1.0, 1.0), pt(3.0, 2.0), pt(2.0, 4.0)), Real(5.0));
}

#[test]
fn intersect_finds_the_crossing() {
    let line = vec![pt(1.0, -1.0), pt(1.0, 1.0)];
    let hit = intersect(pt(0.0, 0.0), pt(2.0, 0.0), &line, true).unwrap();
    assert_eq!(hit.index, 0);
    assert_eq!(hit.u, Real(0.5));
    assert_eq!(hit.t, Real(0.5));
    assert_eq!((hit.point.x, hit.point.y), (Real(1.0), Real(0.0)));
}

#[test]
fn intersect_picks_the_crossing_nearest_to_the_start() {
    let line = vec![pt(1.5, -1.0), pt(1.5, 1.0), pt(0.5, 1.0), pt(0.5, -1.0)];
    let hit = intersect(pt(0.0, 0.0), pt(2.0, 0.0), &line, true).unwrap();
    assert_eq!(hit.index, 2);
    assert_eq!(hit.u, Real(0.25));
    assert_eq!(hit.t, Real(0.5));
    assert_eq!((hit.point.x, hit.point.y), (Real(0.5), Real(0.0)));
    let reversed = vec![pt(0.5, -1.0), pt(0.5, 1.0), pt(1.5, 1.0), pt(1.5, -1.0)];
    let hit = intersect(pt(0.0, 0.0), pt(2.0, 0.0), &reversed, true).unwrap();
    assert_eq!(hit.index, 0);
    assert_eq!(hit.u, Real(0.25));
}

#[test]
fn intersect_passes_over_parallel_edges() {
    let line = vec![pt(0.0, 1.0), pt(2.0, 1.0)];
    assert!(intersect(pt(0.0, 0.0), pt(2.0, 0.0), &line, false).is_none());
    let on_top = vec![pt(0.5, 0.0), pt(1.5, 0.0)];
    assert!(intersect(pt(0.0, 0.0), pt(2.0, 0.0), &on_top, false).is_none());
}

#[test]
fn intersect_stays_within_the_query_segment() {
    let behind_the_end = vec![pt(3.0, -1.0), pt(3.0, 1.0)];
    assert!(intersect(pt(0.0, 0.0), pt(2.0, 0.0), &behind_the_end, false).is_none());
    let before_the_start = vec![pt(-1.0, -1.0), pt(-1.0, 1.0)];
    assert!(intersect(pt(0.0, 0.0), pt(2.0, 0.0), &before_the_start, false).is_none());
    let through_the_start = vec![pt(0.0, -1.0), pt(0.0, 1.0)];
    assert!(intersect(pt(0.0, 0.0), pt(2.0, 0.0), &through_the_start, false).is_none());
    let through_the_end = vec![pt(2.0, -1.0), pt(2.0, 1.0)];
    let hit = intersect(pt(0.0, 0.0), pt(2.0, 0.0), &through_the_end, false).unwrap();
    assert_eq!(hit.u, Real(1.0));
}

#[test]
fn intersect_stays_within_the_crossed_edge() {
    let above = vec![pt(1.0, 1.0), pt(1.0, 2.0)];
    assert!(intersect(pt(0.0, 0.0), pt(2.0, 0.0), &above, false).is_none());
    let below = vec![pt(1.0, -2.0), pt(1.0, -1.0)];
    assert!(intersect(pt(0.0, 0.0), pt(2.0, 0.0), &below, false).is_none());
}

#[test]
fn intersect_counts_a_touched_end_point_only_on_request() {
    let line = vec![pt(1.0, -1.0), pt(1.0, 0.0)];
    let hit = intersect(pt(0.0, 0.0), pt(2.0, 0.0), &line, false).unwrap();
    assert_eq!(hit.index, 0);
    assert_eq!(hit.t, Real(1.0));
    assert_eq!(hit.u, Real(0.5));
    assert!(intersect(pt(0.0, 0.0), pt(2.0, 0.0), &line, true).is_none());
    let from_the_touch = vec![pt(1.0, 0.0), pt(1.0, 1.0)];
    assert!(intersect(pt(0.0, 0.0), pt(2.0, 0.0), &from_the_touch, true).is_none());
}

#[test]
fn intersect_finds_nothing_on_a_line_without_an_edge() {
    assert!(intersect(pt(0.0, 0.0), pt(2.0, 0.0), &Vec::new(), false).is_none());
    assert!(intersect(pt(0.0, 0.0), pt(2.0, 0.0), &vec![pt(1.0, 0.0)], false).is_none());
    assert!(intersect(pt(0.0, 0.0), pt(2.0, 0.0), &Vec::new(), true).is_none());
}

#[test]
fn winding_number_counts_the_turns() {
    let ring = square();
    assert_eq!(winding_number(pt(1.0, 1.0), &ring), 1);
    assert_eq!(winding_number(pt(3.0, 1.0), &ring), 0);
    assert_eq!(winding_number(pt(-1.0, 1.0), &ring), 0);
    assert_eq!(winding_number(pt(1.0, 3.0), &ring), 0);
    let mut clockwise = square();
    clockwise.reverse();
    assert_eq!(winding_number(pt(1.0, 1.0), &clockwise), -1);
    let mut twice = square();
    twice.extend_from_slice(&square()[1..]);
    assert_eq!(winding_number(pt(1.0, 1.0), &twice), 2);
}

#[test]
fn winding_number_has_a_tolerance_to_the_right_of_rising_edges() {
    let ring = square();
    assert_eq!(winding_number(pt(2.000001, 1.0), &ring), 1);
    assert_eq!(winding_number(pt(2.001, 1.0), &ring), 0);
}

#[test]
fn winding_number_of_a_ring_without_an_edge_is_zero() {
    assert_eq!(winding_number(pt(1.0, 1.0), &Vec::new()), 0);
    assert_eq!(winding_number(pt(1.0, 1.0), &vec![pt(0.0, 0.0)]), 0);
}

#[test]
fn probe_point_is_the_middle_of_the_first_edge_that_is_not_level() {
    let probe = probe_point(&triangle()).unwrap();
    assert_eq!((probe.x, probe.y), (Real(1.0), Real(0.5)));
    let slightly_tilted = vec![pt(0.0, 0.0), pt(1.0, 0.01), pt(3.0, 0.03), pt(0.0, 0.0)];
    let probe = probe_point(&slightly_tilted).unwrap();
    assert_eq!((probe.x, probe.y), (Real(2.0), Real(0.02)));
}

#[test]
fn probe_point_of_a_level_region_is_none() {
    let level = vec![pt(0.0, 0.0), pt(1.0, 0.0), pt(2.0, 0.005), pt(0.0, 0.0)];
    assert!(probe_point(&level).is_none());
    assert!(probe_point(&Vec::<Point<Real>>::new()).is_none());
    assert!(probe_point(&vec![pt(0.0, 0.0)]).is_none());
}

#[test]
fn region_winding_tests_the_probe_point() {
    assert_eq!(region_winding(&triangle(), &square()), Some(1));
    let outside = vec![pt(5.0, 0.0), pt(6.0, 0.0), pt(6.0, 1.0), pt(5.0, 0.0)];
    assert_eq!(region_winding(&outside, &square()), Some(0));
    let level = vec![pt(0.0, 1.0), pt(1.0, 1.0), pt(0.0, 1.0)];
    assert_eq!(region_winding(&level, &square()), None);
}

#[test]
fn only_regions_of_winding_number_one_are_retained() {
    let candidates = vec!["a", "b", "c", "d", "e", "f"];
    let windings = vec![Some(1), Some(0), None, Some(2), Some(1), Some(-1)];
    assert_eq!(retain_winding_once(candidates, &windings), vec!["a", "e"]);
    assert_eq!(retain_winding_once(vec![7, 8], &vec![Some(0), None]), Vec::<i32>::new());
    assert_eq!(retain_winding_once(Vec::<i32>::new(), &Vec::new()), Vec::<i32>::new());
}

#[test]
fn offset_edges_moves_each_edge_along_its_normal() {
    let edges = offset_edges(&triangle(), Real(-0.1));
    assert_eq!(edges.len(), 3);
    assert_eq!(coords(&[edges[0].p0, edges[0].p1, edges[0].p1_orig]), vec![
        (0.0, 0.1),
        (1.0, 0.1),
        (1.0, 0.0),
    ]);
    assert_eq!(coords(&[edges[0].normal]), vec![(0.0, -1.0)]);
    assert_eq!(coords(&[edges[1].p0, edges[1].p1, edges[1].p1_orig]), vec![
        (0.9, 0.0),
        (0.9, 1.0),
        (1.0, 1.0),
    ]);
    assert_eq!(coords(&[edges[1].normal]), vec![(1.0, 0.0)]);
    let half = 0.5f64.sqrt();
    assert!((edges[2].normal.x.0 + half).abs() < 1e-15);
    assert!((edges[2].normal.y.0 - half).abs() < 1e-15);
}

#[test]
fn offset_edges_leaves_out_edges_without_length() {
    let ring = vec![pt(0.0, 0.0), pt(1.0, 0.0), pt(1.0, 0.0), pt(1.0, 1.0), pt(0.0, 0.0)];
    let edges = offset_edges(&ring, Real(-0.1));
    assert_eq!(edges.len(), 3);
    assert_eq!(coords(&[edges[1].p0, edges[1].p1]), vec![(0.9, 0.0), (0.9, 1.0)]);
    assert_eq!(offset_edges(&vec![pt(1.0, 1.0)], Real(1.0)).len(), 0);
    assert_eq!(offset_edges(&Vec::<Point<Real>>::new(), Real(1.0)).len(), 0);
    assert_eq!(offset_edges(&vec![pt(1.0, 1.0), pt(1.0, 1.0)], Real(1.0)).len(), 0);
}

#[test]
fn a_repeated_point_does_not_change_the_offset() {
    let ring = vec![pt(0.0, 0.0), pt(1.0, 0.0), pt(1.0, 0.0), pt(1.0, 1.0), pt(0.0, 0.0)];
    let with_repeat = offset_polygon(&ring, Real(-0.1), Real(10.0)).unwrap();
    let without = offset_polygon(&triangle(), Real(-0.1), Real(10.0)).unwrap();
    assert_eq!(with_repeat.len(), 1);
    assert_eq!(coords(&with_repeat[0]), coords(&without[0]));
}

#[test]
fn arc_samples_lie_between_the_ends_of_the_arc() {
    let quarter = std::f64::consts::FRAC_PI_2;
    let none = arc_samples(pt(0.0, 0.0), Real(1.0), Real(0.0), Real(quarter), 0, true);
    assert_eq!(none.len(), 0);
    let one_step = arc_samples(pt(0.0, 0.0), Real(1.0), Real(0.0), Real(quarter), 1, true);
    assert_eq!(one_step.len(), 0);
    let forwards = arc_samples(pt(10.0, 20.0), Real(2.0), Real(0.0), Real(quarter), 3, true);
    assert_eq!(forwards.len(), 2);
    assert!((forwards[0].x.0 - 10.0).abs() < 1e-12 && (forwards[0].y.0 - 22.0).abs() < 1e-12);
    assert!((forwards[1].x.0 - 8.0).abs() < 1e-12 && (forwards[1].y.0 - 20.0).abs() < 1e-12);
    let backwards = arc_samples(pt(10.0, 20.0), Real(2.0), Real(0.0), Real(quarter), 3, false);
    assert_eq!(backwards.len(), 2);
    assert!((backwards[0].x.0 - 10.0).abs() < 1e-12 && (backwards[0].y.0 - 18.0).abs() < 1e-12);
    assert!((backwards[1].x.0 - 8.0).abs() < 1e-12 && (backwards[1].y.0 - 20.0).abs() < 1e-12);
}

#[test]
fn append_corner_adds_the_edge_and_its_join() {
    let edge = OffsetEdge { p0: pt(1.0, 1.0), p1: pt(2.0, 1.0), p1_orig: pt(2.0, 0.0), normal: pt(0.0, 1.0) };
    let mut contour = vec![pt(9.0, 9.0)];
    append_corner(&mut contour, &edge, &Join::Miter);
    assert_eq!(coords(&contour), vec![(9.0, 9.0), (1.0, 1.0), (2.0, 1.0), (2.0, 0.0)]);
    let mut contour = vec![pt(9.0, 9.0)];
    append_corner(&mut contour, &edge, &Join::Straight);
    assert_eq!(coords(&contour), vec![(9.0, 9.0), (1.0, 1.0)]);
    let mut contour = vec![pt(9.0, 9.0)];
    append_corner(&mut contour, &edge, &Join::Flat);
    assert_eq!(coords(&contour), vec![(9.0, 9.0), (1.0, 1.0), (2.0, 1.0)]);
    let mut contour = Vec::new();
    append_corner(&mut contour, &edge, &Join::Round(vec![pt(3.0, 0.5), pt(3.0, 0.0)]));
    assert_eq!(coords(&contour), vec![(1.0, 1.0), (2.0, 1.0), (3.0, 0.5), (3.0, 0.0)]);
}

#[test]
fn raw_contour_of_no_edge_is_empty() {
    let contour = raw_contour(&Vec::<OffsetEdge<Real>>::new(), &Vec::new());
    assert_eq!(contour.len(), 0);
}

#[test]
fn raw_contour_rounds_the_corners_of_an_expanded_rectangle() {
    let ring = vec![pt(910.0, 840.0), pt(1890.0, 840.0), pt(1890.0, 1190.0), pt(910.0, 1190.0), pt(910.0, 840.0)];
    let edges = offset_edges(&ring, Real(4.0));
    let contour = raw_contour(&edges, &joins_of(&edges, Real(4.0), Real(20.0)));
    assert_eq!(contour.len(), 25);
    assert_eq!(coords(&contour[..2]), vec![(910.0, 836.0), (1890.0, 836.0)]);
    assert_eq!(coords(&contour[6..8]), vec![(1894.0, 840.0), (1894.0, 1190.0)]);
    assert_eq!(coords(&contour[24..]), vec![(910.0, 836.0)]);
    for sample in &contour[2..6] {
        let radius = ((sample.x.0 - 1890.0).powi(2) + (sample.y.0 - 840.0).powi(2)).sqrt();
        assert!((radius - 4.0).abs() < 1e-9);
        assert!(sample.x.0 > 1890.0 && sample.y.0 < 840.0);
    }
}

#[test]
fn raw_contour_miters_the_corners_of_a_shrunk_triangle() {
    let edges = offset_edges(&triangle(), Real(-0.1));
    let contour = raw_contour(&edges, &joins_of(&edges, Real(-0.1), Real(10.0)));
    assert_eq!(contour.len(), 10);
    assert_eq!(coords(&contour[..6]), vec![
        (0.0, 0.1),
        (1.0, 0.1),
        (1.0, 0.0),
        (0.9, 0.0),
        (0.9, 1.0),
        (1.0, 1.0),
    ]);
    assert_eq!(coords(&contour[8..]), vec![(0.0, 0.0), (0.0, 0.1)]);
}

#[test]
fn raw_contour_drops_the_doubled_point_of_a_straight_continuation() {
    let ring = vec![pt(0.0, 0.0), pt(1.0, 0.0), pt(2.0, 0.0), pt(2.0, 2.0), pt(0.0, 2.0), pt(0.0, 0.0)];
    let edges = offset_edges(&ring, Real(0.5));
    assert_eq!(edges.len(), 5);
    let contour = raw_contour(&edges, &joins_of(&edges, Real(0.5), Real(4.0)));
    assert_eq!(coords(&contour[..3]), vec![(0.0, -0.5), (1.0, -0.5), (2.0, -0.5)]);
    assert_eq!(contour.len(), 10);
}

#[test]
fn a_convex_ring_with_a_small_offset_gives_its_raw_contour() {
    let ring = vec![pt(910.0, 840.0), pt(1890.0, 840.0), pt(1890.0, 1190.0), pt(910.0, 1190.0), pt(910.0, 840.0)];
    let edges = offset_edges(&ring, Real(4.0));
    let contour = raw_contour(&edges, &joins_of(&edges, Real(4.0), Real(20.0)));
    let rings = offset_polygon(&ring, Real(4.0), Real(20.0)).unwrap();
    assert_eq!(rings.len(), 1);
    assert_eq!(coords(&rings[0]), coords(&contour));
    let edges = offset_edges(&triangle(), Real(0.1));
    let contour = raw_contour(&edges, &joins_of(&edges, Real(0.1), Real(10.0)));
    let rings = offset_polygon(&triangle(), Real(0.1), Real(10.0)).unwrap();
    assert_eq!(rings.len(), 1);
    assert_eq!(rings[0].len(), 15);
    assert_eq!(coords(&rings[0]), coords(&contour));
}

#[test]
fn joins_of_a_shrunk_triangle_are_miters() {
    let edges = offset_edges(&triangle(), Real(-0.1));
    let joins = joins_of(&edges, Real(-0.1), Real(10.0));
    assert_eq!(joins.len(), 3);
    assert!(joins.iter().all(|join| matches!(join, Join::Miter)));
}

#[test]
fn joins_of_an_expanded_triangle_are_arcs() {
    let edges = offset_edges(&triangle(), Real(0.1));
    let joins = joins_of(&edges, Real(0.1), Real(10.0));
    let samples: Vec<usize> = joins
        .iter()
        .map(|join| match join {
            Join::Round(samples) => samples.len(),
            _ => panic!("the corners of an expanded convex ring are rounded"),
        })
        .collect();
    assert_eq!(samples, vec![2, 3, 3]);
}

#[test]
fn joins_of_edges_that_continue_or_oppose_each_other() {
    let ring = vec![pt(0.0, 0.0), pt(1.0, 0.0), pt(2.0, 0.0), pt(2.0, 2.0), pt(0.0, 2.0), pt(0.0, 0.0)];
    let edges = offset_edges(&ring, Real(0.5));
    let joins = joins_of(&edges, Real(0.5), Real(4.0));
    assert_eq!(joins.len(), 5);
    assert!(matches!(joins[0], Join::Straight));
    for join in &joins[1..] {
        assert!(matches!(join, Join::Round(samples) if samples.is_empty()));
    }
    let there_and_back = vec![pt(0.0, 0.0), pt(1.0, 0.0), pt(0.0, 0.0)];
    let edges = offset_edges(&there_and_back, Real(0.5));
    let joins = joins_of(&edges, Real(0.5), Real(4.0));
    assert_eq!(joins.len(), 2);
    assert!(joins.iter().all(|join| matches!(join, Join::Flat)));
    assert_eq!(joins_of(&Vec::<OffsetEdge<Real>>::new(), Real(0.5), Real(4.0)).len(), 0);
}

#[test]
fn raw_contour_lays_out_each_edge_with_its_join() {
    let edges = vec![
        OffsetEdge { p0: pt(0.0, 0.0), p1: pt(1.0, 0.0), p1_orig: pt(1.0, 1.0), normal: pt(0.0, -1.0) },
        OffsetEdge { p0: pt(2.0, 0.0), p1: pt(3.0, 0.0), p1_orig: pt(3.0, 1.0), normal: pt(0.0, -1.0) },
        OffsetEdge { p0: pt(4.0, 0.0), p1: pt(5.0, 0.0), p1_orig: pt(5.0, 1.0), normal: pt(0.0, -1.0) },
        OffsetEdge { p0: pt(6.0, 0.0), p1: pt(7.0, 0.0), p1_orig: pt(7.0, 1.0), normal: pt(0.0, -1.0) },
    ];
    let joins = vec![
        Join::Miter,
        Join::Straight,
        Join::Round(vec![pt(5.5, -1.0), pt(5.75, -2.0)]),
        Join::Flat,
    ];
    let contour = raw_contour(&edges, &joins);
    assert_eq!(coords(&contour), vec![
        (0.0, 0.0),
        (1.0, 0.0),
        (1.0, 1.0),
        (2.0, 0.0),
        (4.0, 0.0),
        (5.0, 0.0),
        (5.5, -1.0),
        (5.75, -2.0),
        (6.0, 0.0),
        (7.0, 0.0),
        (0.0, 0.0),
    ]);
}

#[test]
fn offset_edges_end_at_points_of_the_ring() {
    let ring = vec![pt(0.0, 0.0), pt(1.0, 0.0), pt(1.0, 0.0), pt(1.0, 1.0), pt(0.0, 0.0)];
    for offset in [-0.5, 0.0, 2.0] {
        let edges = offset_edges(&ring, Real(offset));
        let ends: Vec<(f64, f64)> = edges.iter().map(|edge| (edge.p1_orig.x.0, edge.p1_orig.y.0)).collect();
        assert_eq!(ends, vec![(1.0, 0.0), (1.0, 1.0), (0.0, 0.0)]);
    }
}

#[test]
fn intersect_passes_over_a_crossing_at_epsilon_from_the_start() {
    let eps = f64::EPSILON;
    let at_epsilon = vec![pt(eps, -1.0), pt(eps, 1.0)];
    assert!(intersect(pt(0.0, 0.0), pt(1.0, 0.0), &at_epsilon, false).is_none());
    assert!(intersect(pt(0.0, 0.0), pt(1.0, 0.0), &at_epsilon, true).is_none());
    let behind_epsilon = vec![pt(2.0 * eps, -1.0), pt(2.0 * eps, 1.0)];
    let hit = intersect(pt(0.0, 0.0), pt(1.0, 0.0), &behind_epsilon, true).unwrap();
    assert_eq!(hit.u, Real(2.0 * eps));
    assert_eq!(hit.t, Real(0.5));
}

#[test]
fn intersect_takes_a_crossing_as_far_as_the_nearest_before_it() {
    let twice = vec![pt(1.0, -1.0), pt(1.0, 1.0), pt(1.0, -1.0)];
    let hit = intersect(pt(0.0, 0.0), pt(2.0, 0.0), &twice, true).unwrap();
    assert_eq!(hit.index, 1);
    assert_eq!(hit.u, Real(0.5));
    let at_the_end = vec![pt(2.0, -1.0), pt(2.0, 1.0)];
    let hit = intersect(pt(0.0, 0.0), pt(2.0, 0.0), &at_the_end, true).unwrap();
    assert_eq!(hit.u, Real(1.0));
}

#[test]
fn intersect_with_excluded_points_stops_short_of_both_bounds_on_the_edge() {
    let low = 1.0 / 100000.0;
    let high = 999999.0 / 1000000.0;
    let at_the_low_bound = vec![pt(1.0, -1.0), pt(1.0, 99999.0)];
    let hit = intersect(pt(0.0, 0.0), pt(2.0, 0.0), &at_the_low_bound, false).unwrap();
    assert_eq!(hit.t, Real(low));
    assert_eq!(hit.t, Real(0.00001));
    assert!(intersect(pt(0.0, 0.0), pt(2.0, 0.0), &at_the_low_bound, true).is_none());
    let above_the_low_bound = vec![pt(1.0, -2.0), pt(1.0, 99998.0)];
    let hit = intersect(pt(0.0, 0.0), pt(2.0, 0.0), &above_the_low_bound, true).unwrap();
    assert_eq!(hit.t, Real(0.00002));
    let at_the_high_bound = vec![pt(1.0, -999999.0), pt(1.0, 1.0)];
    let hit = intersect(pt(0.0, 0.0), pt(2.0, 0.0), &at_the_high_bound, false).unwrap();
    assert_eq!(hit.t, Real(high));
    assert_eq!(hit.t, Real(0.999999));
    assert!(intersect(pt(0.0, 0.0), pt(2.0, 0.0), &at_the_high_bound, true).is_none());
    let below_the_high_bound = vec![pt(1.0, -999998.0), pt(1.0, 2.0)];
    let hit = intersect(pt(0.0, 0.0), pt(2.0, 0.0), &below_the_high_bound, true).unwrap();
    assert_eq!(hit.t, Real(0.999998));
}

#[test]
fn intersect_without_excluded_points_takes_both_ends_of_the_edge() {
    let from_the_touch = vec![pt(1.0, 0.0), pt(1.0, 1.0)];
    let hit = intersect(pt(0.0, 0.0), pt(2.0, 0.0), &from_the_touch, false).unwrap();
    assert_eq!(hit.t, Real(0.0));
    let down_from_the_touch = vec![pt(1.0, 0.0), pt(1.0, -1.0)];
    let hit = intersect(pt(0.0, 0.0), pt(2.0, 0.0), &down_from_the_touch, false).unwrap();
    assert_eq!(hit.t, Real(0.0));
    assert!(hit.t.0.is_sign_negative());
    assert_eq!(hit.u, Real(0.5));
    let to_the_touch = vec![pt(1.0, -1.0), pt(1.0, 0.0)];
    let hit = intersect(pt(0.0, 0.0), pt(2.0, 0.0), &to_the_touch, false).unwrap();
    assert_eq!(hit.t, Real(1.0));
    let short_of_the_segment = vec![pt(1.0, 0.5), pt(1.0, 1.0)];
    assert!(intersect(pt(0.0, 0.0), pt(2.0, 0.0), &short_of_the_segment, false).is_none());
}

fn edge_with_normal(x: f64, y: f64) -> OffsetEdge<Real> {
    OffsetEdge { p0: pt(0.0, 0.0), p1: pt(1.0, 0.0), p1_orig: pt(1.0, 1.0), normal: pt(x, y) }
}

#[test]
fn a_turn_of_epsilon_is_mitered_and_a_smaller_one_is_straight() {
    let eps = f64::EPSILON;
    assert_eq!(eps.atan2(1.0), eps);
    assert_eq!((eps / 2.0).atan2(1.0), eps / 2.0);
    let level = edge_with_normal(1.0, 0.0);
    let join = join_after(&edge_with_normal(1.0, eps), &level, Real(1.0), Real(0.5));
    assert!(matches!(join, Join::Miter));
    let join = join_after(&edge_with_normal(1.0, 2.0 * eps), &level, Real(1.0), Real(0.5));
    assert!(matches!(join, Join::Miter));
    let join = join_after(&edge_with_normal(1.0, eps / 2.0), &level, Real(1.0), Real(0.5));
    assert!(matches!(join, Join::Straight));
    let join = join_after(&level, &level, Real(1.0), Real(0.5));
    assert!(matches!(join, Join::Straight));
}

#[test]
fn an_offset_of_negative_zero_is_not_negative() {
    let up = edge_with_normal(0.0, 1.0);
    let right = edge_with_normal(1.0, 0.0);
    assert!(matches!(join_after(&up, &right, Real(0.0), Real(0.5)), Join::Miter));
    assert!(matches!(join_after(&up, &right, Real(-0.0), Real(0.5)), Join::Miter));
    assert!(matches!(join_after(&up, &right, Real(-1.0), Real(0.5)), Join::Round(_)));
    assert!(matches!(join_after(&right, &up, Real(0.0), Real(0.5)), Join::Round(_)));
    assert!(matches!(join_after(&right, &up, Real(-0.0), Real(0.5)), Join::Round(_)));
    assert!(matches!(join_after(&right, &up, Real(-1.0), Real(0.5)), Join::Miter));
    let quarter = std::f64::consts::FRAC_PI_2;
    let forwards = arc_between(pt(0.0, 0.0), Real(0.0), Real(0.0), Real(quarter), Real(0.5));
    let backwards = arc_between(pt(0.0, 0.0), Real(-1.0), Real(0.0), Real(quarter), Real(0.5));
    let of_negative_zero = arc_between(pt(0.0, 0.0), Real(-0.0), Real(0.0), Real(quarter), Real(0.5));
    assert_eq!(forwards.len(), 3);
    assert_eq!(backwards.len(), 9);
    assert_eq!(of_negative_zero.len(), 3);
}

#[test]
fn a_turn_of_negative_zero_is_not_wrapped() {
    let zero_angle = 0.0f64.atan2(1.0);
    assert_eq!(zero_angle, 0.0);
    let negative_zero_angle = (-0.0f64).atan2(1.0);
    assert!(negative_zero_angle == 0.0 && negative_zero_angle.is_sign_negative());
    let join = join_after(&edge_with_normal(1.0, -0.0), &edge_with_normal(1.0, 0.0), Real(1.0), Real(0.5));
    assert!(matches!(join, Join::Straight));
}
