//! Tests of the exact angle and rounding comparators, and of chained undo.

use planarfill::editor::Editor;
use planarfill::geom;
use planarfill::geom::SCALE;

const S: i64 = SCALE;

#[test]
fn turn_magnitudes_compare_exactly() {
    // |45 degrees| < |90 degrees|: (cross, dot) pairs (1,1) and (1,0)
    assert!(geom::abs_turn_lt_e(1, 1, 1, 0));
    assert!(!geom::abs_turn_lt_e(1, 0, 1, 1));
    // mirrored turns have equal magnitude
    assert!(geom::abs_turn_eq_e(-1, 1, 1, 1));
    assert!(!geom::abs_turn_lt_e(-1, 1, 1, 1));
    // the straight-back half-turn is the largest magnitude
    assert!(geom::abs_turn_lt_e(1, 0, 0, -1));
    assert!(!geom::abs_turn_lt_e(0, -1, 1, 1));
    // zero turn is the smallest
    assert!(geom::abs_turn_lt_e(0, 1, 1, 1));
    // scaling a turn pair does not change its angle
    assert!(geom::abs_turn_eq_e(3, 3, 7, 7));
}

#[test]
fn radial_direction_order_is_counter_clockwise() {
    let ring = [(1i64, 0i64), (1, 1), (0, 1), (-1, 1), (-1, 0), (-1, -1), (0, -1), (1, -1)];
    for i in 0..ring.len() {
        for j in 0..ring.len() {
            let (x1, y1) = ring[i];
            let (x2, y2) = ring[j];
            assert_eq!(geom::dir_lt_e(x1, y1, x2, y2), i < j, "pair {i} {j}");
        }
    }
    // collinear same-direction vectors are radially equal
    assert!(!geom::dir_lt_e(2, 2, 5, 5));
    assert!(!geom::dir_lt_e(5, 5, 2, 2));
}

#[test]
fn rounding_division_ties_away_from_zero() {
    assert_eq!(geom::div_round_half_away_e(3, 2), 2);
    assert_eq!(geom::div_round_half_away_e(-3, 2), -2);
    assert_eq!(geom::div_round_half_away_e(1, 2), 1);
    assert_eq!(geom::div_round_half_away_e(-1, 2), -1);
    assert_eq!(geom::div_round_half_away_e(2, 3), 1);
    assert_eq!(geom::div_round_half_away_e(-2, 3), -1);
    assert_eq!(geom::div_round_half_away_e(7, 7), 1);
    assert_eq!(geom::div_round_half_away_e(0, 5), 0);
}

#[test]
fn chained_undo_walks_back_through_history() {
    let mut e = Editor::new();
    assert!(e.add_line(0, 0, 10 * S, 0));
    let after_one = e.lines.clone();
    assert!(e.add_line(10 * S, 0, 10 * S, 10 * S));
    let after_two = e.lines.clone();
    e.add_frame(0, 0, 20 * S, 0, 20 * S, 20 * S, 0, 20 * S);
    assert_eq!(e.line_count(), 6);
    e.undo();
    assert_eq!(e.lines, after_two);
    e.undo();
    assert_eq!(e.lines, after_one);
    e.undo();
    assert_eq!(e.line_count(), 0);
    e.undo();
    assert_eq!(e.line_count(), 0);
}
