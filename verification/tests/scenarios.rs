//! End-to-end scenarios on the editor: filling simple figures, trimming
//! overhangs, and undoing every kind of mutation.

use planarfill::arrange;
use planarfill::editor::Editor;
use planarfill::fill::FillOutcome;
use planarfill::geom::{LineSeg, Pt, SCALE};
use planarfill::poly;
use planarfill::trace::FailReason;

const S: i64 = SCALE;

fn abs128(v: i128) -> i128 {
    if v < 0 {
        -v
    } else {
        v
    }
}

fn square_editor(side: i64) -> Editor {
    let mut e = Editor::new();
    assert!(e.add_line(0, 0, side * S, 0));
    assert!(e.add_line(side * S, 0, side * S, side * S));
    assert!(e.add_line(side * S, side * S, 0, side * S));
    assert!(e.add_line(0, side * S, 0, 0));
    e
}

#[test]
fn square_fill_yields_one_closed_polygon() {
    let mut e = square_editor(10);
    let filled = e.fill_at(5 * S, 5 * S, b"ff0000");
    assert!(filled);
    assert_eq!(e.fills_count(), 1);
    let poly = &e.fills[0];
    // 4 distinct corners plus the closing repeat
    assert_eq!(poly.points.len(), 5);
    assert_eq!(poly.points[0], poly.points[4]);
    // area 100 square units: |2A| in subunits squared
    let a2 = poly::area2x_e(&poly.points);
    assert_eq!(abs128(a2), 2 * (10 * S as i128) * (10 * S as i128));
    assert_eq!(poly.color, 0xff0000ff);
}

#[test]
fn open_line_yields_no_fill() {
    let mut e = Editor::new();
    assert!(e.add_line(0, 0, 10 * S, 0));
    let filled = e.fill_at(5 * S, S, b"ff0000");
    assert!(!filled);
    assert_eq!(e.fills_count(), 0);
    // directly on the arrangement: no valid seed segment exists, so the
    // reported reason is a dead end
    let arr = arrange::build(&e.lines);
    match planarfill::fill::fill_at(&arr, Pt { x: 5 * S, y: S }, 0x747474ff) {
        FillOutcome::NoFill(FailReason::DeadEnd) => {}
        _ => panic!("expected a dead-end no-fill"),
    }
}

#[test]
fn crossing_diagonals_fills_are_deterministic() {
    // Two crossing diagonals split the square into four triangles. The
    // walker prefers the straightest continuation at every junction, so a
    // walk seeded from a square edge closes the square's own ring, and both
    // directions of the dual trace agree on it; a fill at any triangle
    // centroid therefore selects the square ring, identically every time.
    let square_a2 = 2 * (20 * S as i128) * (20 * S as i128);
    let centroids = [
        (10 * S, 10 * S / 3),
        (10 * S, 20 * S - 10 * S / 3),
        (10 * S / 3, 10 * S),
        (20 * S - 10 * S / 3, 10 * S),
    ];
    let corners = [
        Pt { x: 0, y: 0 },
        Pt { x: 20 * S, y: 0 },
        Pt { x: 20 * S, y: 20 * S },
        Pt { x: 0, y: 20 * S },
    ];
    let mut rings: Vec<Vec<Pt>> = Vec::new();
    for (cx, cy) in centroids {
        let mut e = square_editor(20);
        assert!(e.add_line(0, 0, 20 * S, 20 * S));
        assert!(e.add_line(0, 20 * S, 20 * S, 0));
        assert!(e.fill_at(cx, cy, b"00ff00"), "no fill at ({cx},{cy})");
        let ring = e.fills[0].points.clone();
        assert_eq!(ring.len(), 5);
        assert_eq!(abs128(poly::area2x_e(&ring)), square_a2);
        for c in corners {
            assert!(ring.contains(&c));
        }
        rings.push(ring);
    }
    // determinism: repeating a fill at the same point gives the same ring
    let mut again = square_editor(20);
    assert!(again.add_line(0, 0, 20 * S, 20 * S));
    assert!(again.add_line(0, 20 * S, 20 * S, 0));
    assert!(again.fill_at(centroids[0].0, centroids[0].1, b"00ff00"));
    assert_eq!(again.fills[0].points, rings[0]);
    // a point whose nearest segment is a diagonal half seeds from it, and
    // no face around that seed passes validation: no fill, state unchanged
    let mut e = square_editor(20);
    assert!(e.add_line(0, 0, 20 * S, 20 * S));
    assert!(e.add_line(0, 20 * S, 20 * S, 0));
    let lines0 = e.lines.clone();
    assert!(!e.fill_at(10 * S, 9 * S, b"00ff00"));
    assert_eq!(e.fills_count(), 0);
    assert_eq!(e.lines, lines0);
    // the selector reports that no candidate passed validation
    let arr = arrange::build(&e.lines);
    match planarfill::fill::fill_at(&arr, Pt { x: 10 * S, y: 9 * S }, 0x747474ff) {
        FillOutcome::NoFill(FailReason::NoClosure) => {}
        _ => panic!("expected a no-closure no-fill"),
    }
}

#[test]
fn whisker_is_trimmed_and_fill_is_unchanged() {
    let mut before = square_editor(20);
    assert!(before.add_line(0, 0, -10 * S, -10 * S));
    let mut reference = square_editor(20);

    // fill inside the square succeeds identically before and after trimming
    let mut probe = square_editor(20);
    assert!(probe.add_line(0, 0, -10 * S, -10 * S));
    assert!(probe.fill_at(10 * S, 10 * S, b"0000ff"));
    let ring_before = probe.fills[0].points.clone();

    let changed = before.cleanup_overhangs();
    assert!(changed);
    assert_eq!(before.line_count(), 4);
    // exactly the four square segments survive
    for l in &before.lines {
        assert_ne!(l.a, l.b);
        assert!(l.a.x >= 0 && l.a.y >= 0 && l.b.x >= 0 && l.b.y >= 0);
    }
    assert!(before.fill_at(10 * S, 10 * S, b"0000ff"));
    assert_eq!(before.fills[0].points, ring_before);

    // a pristine square gives that same ring too
    assert!(reference.fill_at(10 * S, 10 * S, b"0000ff"));
    assert_eq!(reference.fills[0].points, ring_before);
}

#[test]
fn trim_on_clean_square_changes_nothing() {
    let mut e = square_editor(20);
    let lines0 = e.lines.clone();
    let changed = e.cleanup_overhangs();
    assert!(!changed);
    assert_eq!(e.lines, lines0);
}

#[test]
fn undo_restores_after_add_line() {
    let mut e = square_editor(10);
    let lines0 = e.lines.clone();
    assert!(e.add_line(0, 0, 3 * S, 7 * S));
    e.undo();
    assert_eq!(e.lines, lines0);
}

#[test]
fn undo_restores_after_add_frame() {
    let mut e = Editor::new();
    assert!(e.add_line(0, 0, 5 * S, 0));
    let lines0 = e.lines.clone();
    e.add_frame(0, 0, 10 * S, 0, 10 * S, 10 * S, 0, 10 * S);
    assert_eq!(e.line_count(), 5);
    e.undo();
    assert_eq!(e.lines, lines0);
}

#[test]
fn undo_restores_after_clear() {
    let mut e = square_editor(10);
    assert!(e.fill_at(5 * S, 5 * S, b"ff0000"));
    let lines0 = e.lines.clone();
    let ring0 = e.fills[0].points.clone();
    e.clear();
    assert_eq!(e.line_count(), 0);
    assert_eq!(e.fills_count(), 0);
    e.undo();
    assert_eq!(e.lines, lines0);
    assert_eq!(e.fills_count(), 1);
    assert_eq!(e.fills[0].points, ring0);
}

#[test]
fn undo_restores_after_fill() {
    let mut e = square_editor(10);
    let lines0 = e.lines.clone();
    assert!(e.fill_at(5 * S, 5 * S, b"ff0000"));
    assert_eq!(e.fills_count(), 1);
    e.undo();
    assert_eq!(e.fills_count(), 0);
    assert_eq!(e.lines, lines0);
}

#[test]
fn undo_restores_after_cleanup() {
    let mut e = square_editor(20);
    assert!(e.add_line(0, 0, -10 * S, -10 * S));
    let lines0 = e.lines.clone();
    assert!(e.cleanup_overhangs());
    assert_eq!(e.line_count(), 4);
    e.undo();
    assert_eq!(e.lines, lines0);
}

#[test]
fn undo_rebuild_is_identical() {
    let mut e = square_editor(10);
    let arr0 = arrange::build(&e.lines);
    assert!(e.add_line(0, 0, 7 * S, 3 * S));
    e.undo();
    let arr1 = arrange::build(&e.lines);
    assert_eq!(arr0.nodes, arr1.nodes);
    assert_eq!(arr0.segments, arr1.segments);
    assert_eq!(arr0.half_edges, arr1.half_edges);
    assert_eq!(arr0.outgoing, arr1.outgoing);
    assert_eq!(arr0.degree, arr1.degree);
    assert_eq!(arr0.allow, arr1.allow);
    assert_eq!(arr0.eff_degree, arr1.eff_degree);
}

#[test]
fn undo_with_empty_history_is_a_no_op() {
    let mut e = Editor::new();
    e.undo();
    assert_eq!(e.line_count(), 0);
    assert_eq!(e.fills_count(), 0);
}
