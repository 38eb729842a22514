//! Points on edges, and segments that meet.

use crasball::game::crossing::segments_meet;
use crasball::game::{is_point_on_any_edge, is_point_on_edge, Edge, Facing, Point, Spot};

fn edge(ax: i16, ay: i16, bx: i16, by: i16, n: Facing) -> Edge {
    Edge { a: Point::new(ax, ay), b: Point::new(bx, by), n }
}

fn spot(x: i64, y: i64) -> Spot {
    Spot { x, y }
}

#[test]
fn point_new_keeps_its_coordinates() {
    let p = Point::new(-7, 12);
    assert_eq!(p.x, -7);
    assert_eq!(p.y, 12);
    assert_eq!(p.to_spot(), spot(-14, 24));
}

#[test]
fn a_point_within_an_edge_is_on_it() {
    let e = edge(0, 0, 100, 0, Facing::Down);
    assert!(is_point_on_edge(Point::new(40, 0), &e));
}

#[test]
fn both_ends_of_an_edge_are_on_it() {
    let e = edge(100, 0, 100, 100, Facing::Left);
    assert!(is_point_on_edge(Point::new(100, 0), &e));
    assert!(is_point_on_edge(Point::new(100, 100), &e));
}

#[test]
fn an_edge_walked_towards_smaller_coordinates_holds_its_points() {
    let e = edge(100, 100, 0, 100, Facing::Up);
    assert!(is_point_on_edge(Point::new(60, 100), &e));
    assert!(is_point_on_edge(Point::new(0, 100), &e));
}

#[test]
fn a_point_off_the_line_or_past_the_end_is_not_on_the_edge() {
    let e = edge(0, 0, 100, 0, Facing::Down);
    assert!(!is_point_on_edge(Point::new(40, 1), &e));
    assert!(!is_point_on_edge(Point::new(101, 0), &e));
    assert!(!is_point_on_edge(Point::new(-1, 0), &e));
    assert!(!is_point_on_edge(Point::new(40, -1), &e));
}

#[test]
fn points_are_compared_coordinate_by_coordinate() {
    // greater in x and smaller in y: neither at or above nor at or below the ends
    let e = edge(0, 0, 10, 10, Facing::Down);
    assert!(is_point_on_edge(Point::new(3, 8), &e));
    assert!(!is_point_on_edge(Point::new(11, 5), &e));
    let slanted = edge(0, 10, 10, 0, Facing::Down);
    assert!(!is_point_on_edge(Point::new(5, 5), &slanted));
    assert!(!is_point_on_edge(Point::new(0, 10), &slanted));
}

#[test]
fn the_first_edge_that_holds_the_point_is_found() {
    let edges = vec![
        edge(0, 0, 100, 0, Facing::Down),
        edge(100, 0, 100, 100, Facing::Left),
        edge(100, 100, 0, 100, Facing::Up),
        edge(0, 100, 0, 0, Facing::Right),
    ];
    assert_eq!(is_point_on_any_edge(Point::new(100, 50), &edges), (true, 1));
    assert_eq!(is_point_on_any_edge(Point::new(100, 100), &edges), (true, 1));
    assert_eq!(is_point_on_any_edge(Point::new(0, 0), &edges), (true, 0));
    assert_eq!(is_point_on_any_edge(Point::new(0, 30), &edges[1..]), (true, 2));
}

#[test]
fn a_point_on_no_edge_gives_false_and_zero() {
    let edges = vec![edge(0, 0, 100, 0, Facing::Down), edge(100, 0, 100, 100, Facing::Left)];
    assert_eq!(is_point_on_any_edge(Point::new(50, 50), &edges), (false, 0));
    assert_eq!(is_point_on_any_edge(Point::new(50, 50), &edges[..0]), (false, 0));
}

#[test]
fn crossing_segments_meet() {
    assert!(segments_meet(spot(0, 0), spot(10, 10), spot(0, 10), spot(10, 0)));
    assert!(segments_meet(spot(0, 10), spot(10, 0), spot(10, 10), spot(0, 0)));
}

#[test]
fn segments_that_touch_at_an_end_meet() {
    assert!(segments_meet(spot(0, 0), spot(10, 0), spot(10, 0), spot(10, 10)));
    assert!(segments_meet(spot(0, 0), spot(10, 0), spot(5, 0), spot(5, 7)));
    assert!(segments_meet(spot(0, 0), spot(10, 0), spot(5, -7), spot(5, 0)));
}

#[test]
fn segments_apart_do_not_meet() {
    assert!(!segments_meet(spot(0, 0), spot(10, 0), spot(11, -5), spot(11, 5)));
    assert!(!segments_meet(spot(0, 0), spot(10, 0), spot(5, 1), spot(5, 7)));
    assert!(!segments_meet(spot(0, 0), spot(10, 10), spot(20, 0), spot(11, 10)));
}

#[test]
fn parallel_segments_never_meet() {
    assert!(!segments_meet(spot(0, 0), spot(10, 0), spot(0, 5), spot(10, 5)));
    // on one line, overlapping
    assert!(!segments_meet(spot(0, 0), spot(10, 0), spot(5, 0), spot(15, 0)));
    // one and the same
    assert!(!segments_meet(spot(0, 0), spot(10, 0), spot(0, 0), spot(10, 0)));
}

#[test]
fn a_segment_without_length_meets_nothing() {
    assert!(!segments_meet(spot(5, 0), spot(5, 0), spot(0, 0), spot(10, 0)));
    assert!(!segments_meet(spot(0, 0), spot(10, 0), spot(5, 0), spot(5, 0)));
}

#[test]
fn segments_meet_at_the_widest_span() {
    let m: i64 = 0x100_0000_0000;
    assert!(segments_meet(spot(-m, -m), spot(m, m), spot(-m, m), spot(m, -m)));
    assert!(!segments_meet(spot(-m, -m), spot(m, -m), spot(-m, m), spot(m, m)));
}

#[test]
fn segments_meet_whichever_is_named_first() {
    let spots = [spot(0, 0), spot(10, 0), spot(5, -3), spot(5, 4), spot(10, 10), spot(7, 0)];
    for a1 in spots {
        for a2 in spots {
            for b1 in spots {
                for b2 in spots {
                    assert_eq!(segments_meet(a1, a2, b1, b2), segments_meet(b1, b2, a1, a2));
                    assert_eq!(segments_meet(a1, a2, b1, b2), segments_meet(a2, a1, b2, b1));
                }
            }
        }
    }
}
