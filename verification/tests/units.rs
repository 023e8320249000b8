//! Unit tests of the components: color parsing, snapping, the closure
//! tracker, the union-find, exact geometry, the pruner and the tracer.

use planarfill::arrange;
use planarfill::color::parse_hex_color;
use planarfill::dsu::DSU;
use planarfill::editor::Editor;
use planarfill::geom::{LineSeg, Pt, SCALE};
use planarfill::poly;
use planarfill::trace;
use planarfill::tracker::{GraphStore, SnapKey};

const S: i64 = SCALE;

fn pt(x: i64, y: i64) -> Pt {
    Pt { x, y }
}

fn line(x1: i64, y1: i64, x2: i64, y2: i64) -> LineSeg {
    LineSeg { a: pt(x1, y1), b: pt(x2, y2) }
}

#[test]
fn hex_color_parses_and_defaults() {
    assert_eq!(parse_hex_color(b"ff8800"), 0xff8800ff);
    assert_eq!(parse_hex_color(b"#ff8800"), 0xff8800ff);
    assert_eq!(parse_hex_color(b"#ABCDEF"), 0xabcdefff);
    assert_eq!(parse_hex_color(b"+ff"), 0x0000ffff);
    assert_eq!(parse_hex_color(b""), 0x747474ff);
    assert_eq!(parse_hex_color(b"#"), 0x747474ff);
    assert_eq!(parse_hex_color(b"zz"), 0x747474ff);
    assert_eq!(parse_hex_color(b"123456789"), 0x747474ff);
    // a full 32-bit value keeps only its low 24 bits in front of the alpha
    assert_eq!(parse_hex_color(b"ffffffff"), 0xffffffff);
}

#[test]
fn snap_key_clusters_close_points() {
    // tolerance is two drawing units (2048 subunits), ties away from zero
    assert_eq!(SnapKey::from_point(0, 0), SnapKey(0, 0));
    assert_eq!(SnapKey::from_point(3000, -3000), SnapKey(1, -1));
    assert_eq!(SnapKey::from_point(1024, -1024), SnapKey(1, -1));
    assert_eq!(SnapKey::from_point(1023, 1023), SnapKey(0, 0));
    assert_eq!(SnapKey::from_point(5 * S, 5 * S), SnapKey(3, 3));
}

#[test]
fn tracker_counts_odd_degrees_per_component() {
    let mut g = GraphStore::new();
    // an open two-segment path: both ends have odd degree
    let e0 = g.add_segment(pt(0, 0), pt(10 * S, 0), 0);
    let _e1 = g.add_segment(pt(10 * S, 0), pt(20 * S, 0), 1);
    assert_eq!(g.node_count(), 3);
    assert!(!g.is_edge_closed(e0));
    // closing the loop makes every degree even
    let mut h = GraphStore::new();
    h.add_segment(pt(0, 0), pt(10 * S, 0), 0);
    h.add_segment(pt(10 * S, 0), pt(10 * S, 10 * S), 1);
    h.add_segment(pt(10 * S, 10 * S), pt(0, 10 * S), 2);
    let last = h.add_segment(pt(0, 10 * S), pt(0, 0), 3);
    assert!(h.is_edge_closed(last));
    assert_eq!(h.closed_edges(), vec![0, 1, 2, 3]);
    // endpoints within the coarse tolerance snap to one node
    let mut k = GraphStore::new();
    k.add_segment(pt(0, 0), pt(10 * S, 0), 0);
    k.add_segment(pt(10 * S + 500, 300, ), pt(20 * S, 0), 1);
    assert_eq!(k.node_count(), 3);
}

#[test]
fn tracker_clear_resets_everything() {
    let mut g = GraphStore::new();
    g.add_segment(pt(0, 0), pt(5 * S, 0), 0);
    g.clear();
    assert_eq!(g.node_count(), 0);
    assert_eq!(g.edge_count(), 0);
    assert!(g.get_edge(0).is_none());
}

#[test]
fn dsu_unions_and_counts() {
    let mut d = DSU::new();
    let a = d.make_set();
    let b = d.make_set();
    let c = d.make_set();
    assert_ne!(d.find(a), d.find(b));
    d.union(a, b);
    assert_eq!(d.find(a), d.find(b));
    assert_ne!(d.find(a), d.find(c));
    d.increment_odd_count(a);
    d.increment_odd_count(b);
    assert_eq!(d.get_odd_count(a), 2);
    d.decrement_odd_count(b);
    assert_eq!(d.get_odd_count(a), 1);
    d.union(a, c);
    assert_eq!(d.get_odd_count(c), 1);
}

#[test]
fn intersection_is_exact_and_strictly_interior() {
    let l1 = line(0, 0, 10 * S, 10 * S);
    let l2 = line(0, 10 * S, 10 * S, 0);
    let c = poly::line_intersection(&l1, &l2).expect("diagonals cross");
    assert_eq!(c.p, pt(5 * S, 5 * S));
    // parallel lines never cross
    let l3 = line(0, 0, 10 * S, 0);
    let l4 = line(0, S, 10 * S, S);
    assert!(poly::line_intersection(&l3, &l4).is_none());
    // touching at an endpoint is not an interior crossing
    let l5 = line(0, 0, 10 * S, 0);
    let l6 = line(10 * S, 0, 10 * S, 10 * S);
    assert!(poly::line_intersection(&l5, &l6).is_none());
}

#[test]
fn shoelace_area_is_exact() {
    let ring = vec![pt(0, 0), pt(10 * S, 0), pt(10 * S, 10 * S), pt(0, 10 * S)];
    let a2 = poly::area2x_e(&ring);
    assert_eq!(a2, 2 * (10 * S as i128) * (10 * S as i128));
    let too_short = vec![pt(0, 0), pt(S, 0)];
    assert_eq!(poly::area2x_e(&too_short), 0);
}

#[test]
fn point_in_polygon_even_odd() {
    let ring = vec![pt(0, 0), pt(10 * S, 0), pt(10 * S, 10 * S), pt(0, 10 * S), pt(0, 0)];
    assert!(poly::point_in_poly_e(pt(5 * S, 5 * S), &ring));
    assert!(!poly::point_in_poly_e(pt(15 * S, 5 * S), &ring));
    assert!(!poly::point_in_poly_e(pt(-S, 5 * S), &ring));
    // a point on a vertex counts as boundary, not inside
    assert!(!poly::point_in_poly_e(pt(0, 0), &ring));
}

#[test]
fn builder_splits_crossing_lines() {
    let lines = vec![line(0, 0, 10 * S, 10 * S), line(0, 10 * S, 10 * S, 0)];
    let arr = arrange::build(&lines);
    // two lines crossing once: 5 nodes, 4 segments, 8 half-edges
    assert_eq!(arr.nodes.len(), 5);
    assert_eq!(arr.segments.len(), 4);
    assert_eq!(arr.half_edges.len(), 8);
    // the crossing node has degree 4
    let cross_id = arr.nodes.iter().position(|p| *p == pt(5 * S, 5 * S)).unwrap();
    assert_eq!(arr.degree[cross_id], 4);
}

#[test]
fn two_core_strips_the_whisker() {
    let lines = vec![
        line(0, 0, 20 * S, 0),
        line(20 * S, 0, 20 * S, 20 * S),
        line(20 * S, 20 * S, 0, 20 * S),
        line(0, 20 * S, 0, 0),
        line(0, 0, -10 * S, -10 * S),
    ];
    let arr = arrange::build(&lines);
    let tip = arr.nodes.iter().position(|p| *p == pt(-10 * S, -10 * S)).unwrap();
    assert!(!arr.allow[tip]);
    for v in 0..arr.nodes.len() {
        if arr.allow[v] {
            assert!(arr.eff_degree[v] >= 2);
        }
    }
    // the square's corners survive
    let corner = arr.nodes.iter().position(|p| *p == pt(20 * S, 0)).unwrap();
    assert!(arr.allow[corner]);
}

#[test]
fn trace_closes_the_square_within_the_step_bound() {
    let lines = vec![
        line(0, 0, 10 * S, 0),
        line(10 * S, 0, 10 * S, 10 * S),
        line(10 * S, 10 * S, 0, 10 * S),
        line(0, 10 * S, 0, 0),
    ];
    let arr = arrange::build(&lines);
    let a = arr.nodes.iter().position(|p| *p == pt(0, 0)).unwrap();
    let b = arr.nodes.iter().position(|p| *p == pt(10 * S, 0)).unwrap();
    let r = trace::trace_face_side(
        &arr,
        a,
        b,
        trace::SideRule::KeepLeft,
        pt(5 * S, 5 * S),
        planarfill::fill::GAP_RADIUS,
    );
    assert!(r.closed);
    assert_eq!(r.points.len(), 5);
    assert_eq!(r.points[0], r.points[4]);
    let limit = std::cmp::max(8, 3 * arr.segments.len() as u32 + 20);
    assert!(r.steps <= limit);
}

#[test]
fn trace_fails_cleanly_on_a_bare_segment() {
    let lines = vec![line(0, 0, 10 * S, 0)];
    let arr = arrange::build(&lines);
    let r = trace::trace_face_side(
        &arr,
        0,
        1,
        trace::SideRule::KeepLeft,
        pt(5 * S, S),
        planarfill::fill::GAP_RADIUS,
    );
    assert!(!r.closed);
    assert!(r.fail_reason.is_some());
    assert_eq!(r.points.len(), 0);
}

#[test]
fn other_end_picks_the_far_node() {
    let sg = arrange::Seg { a: 3, b: 7 };
    assert_eq!(arrange::other_end(&sg, 3), 7);
    assert_eq!(arrange::other_end(&sg, 7), 3);
}

#[test]
fn registry_deduplicates_exact_points() {
    let mut reg = arrange::IntersectionRegistry::new();
    let i0 = reg.get_or_insert(pt(S, S));
    let i1 = reg.get_or_insert(pt(S, S));
    let i2 = reg.get_or_insert(pt(S, S + 1));
    assert_eq!(i0, i1);
    assert_ne!(i0, i2);
}

#[test]
fn short_lines_are_rejected() {
    let mut e = Editor::new();
    assert!(!e.add_line(0, 0, S - 1, 0));
    assert_eq!(e.line_count(), 0);
    // undo after a rejected add does not eat an older mutation's partner
    assert!(e.add_line(0, 0, S, 0));
    assert!(!e.add_line(0, 0, 100, 100));
    e.undo();
    assert_eq!(e.line_count(), 0);
}

#[test]
fn tracker_of_lines_runs_off_the_raw_lines() {
    let lines = vec![
        line(0, 0, 10 * S, 0),
        line(10 * S, 0, 10 * S, 10 * S),
        line(10 * S, 10 * S, 0, 10 * S),
        line(0, 10 * S, 0, 0),
    ];
    let mut g = planarfill::tracker::tracker_of_lines(&lines);
    assert_eq!(g.edge_count(), 4);
    assert!(g.is_edge_closed(0));
}
