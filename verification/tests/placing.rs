//! Where a wall is placed in a boundary, and the playfield that only takes placed walls.

use crasball::game::boundary::{is_aligned, is_sound};
use crasball::game::placement::{placement, Placement};
use crasball::game::wall::is_apart;
use crasball::game::{Ball, Edge, Facing, Playfield, Point, Wall};

fn edge(ax: i16, ay: i16, bx: i16, by: i16, n: Facing) -> Edge {
    Edge { a: Point::new(ax, ay), b: Point::new(bx, by), n }
}

fn wall(x0: i16, y0: i16, x1: i16, y1: i16) -> Wall {
    Wall::new(Point::new(x0, y0), Point::new(x1, y0), Point::new(x1, y1), Point::new(x0, y1))
}

fn square() -> Vec<Edge> {
    vec![
        edge(0, 0, 100, 0, Facing::Down),
        edge(100, 0, 100, 100, Facing::Left),
        edge(100, 100, 0, 100, Facing::Up),
        edge(0, 100, 0, 0, Facing::Right),
    ]
}

fn notched_square() -> Vec<Edge> {
    vec![
        edge(0, 0, 40, 0, Facing::Down),
        edge(40, 0, 40, 20, Facing::Left),
        edge(40, 20, 60, 20, Facing::Down),
        edge(60, 20, 60, 0, Facing::Right),
        edge(60, 0, 100, 0, Facing::Down),
        edge(100, 0, 100, 100, Facing::Left),
        edge(100, 100, 0, 100, Facing::Up),
        edge(0, 100, 0, 0, Facing::Right),
    ]
}

fn points_of(e: &Edge) -> Vec<(i16, i16)> {
    let mut points = Vec::new();
    for x in e.a.x.min(e.b.x)..=e.a.x.max(e.b.x) {
        for y in e.a.y.min(e.b.y)..=e.a.y.max(e.b.y) {
            points.push((x, y));
        }
    }
    points
}

fn touches_itself(edges: &[Edge]) -> bool {
    let n = edges.len();
    for i in 0..n {
        for j in i + 1..n {
            for p in points_of(&edges[i]) {
                if points_of(&edges[j]).contains(&p) {
                    let corner = if j == i + 1 {
                        Some(edges[i].b)
                    } else if i == 0 && j == n - 1 {
                        Some(edges[0].a)
                    } else {
                        None
                    };
                    if corner != Some(Point::new(p.0, p.1)) {
                        return true;
                    }
                }
            }
        }
    }
    false
}

#[test]
fn a_proper_wall_has_width_and_height_and_clockwise_corners() {
    assert!(wall(40, 0, 60, 20).is_proper());
    assert!(!wall(40, 0, 40, 20).is_proper());
    assert!(!wall(40, 0, 60, 0).is_proper());
    assert!(!wall(60, 0, 40, 20).is_proper());
    assert!(!wall(40, 20, 60, 0).is_proper());
    let skewed =
        Wall::new(Point::new(40, 0), Point::new(60, 1), Point::new(60, 20), Point::new(40, 20));
    assert!(!skewed.is_proper());
}

#[test]
fn an_edge_is_apart_from_a_wall_that_it_does_not_touch() {
    let w = wall(40, 0, 60, 20);
    assert!(!is_apart(&edge(0, 0, 100, 0, Facing::Down), &w));
    assert!(!is_apart(&edge(100, 0, 0, 0, Facing::Up), &w));
    assert!(!is_apart(&edge(0, 20, 40, 20, Facing::Down), &w));
    assert!(!is_apart(&edge(50, 5, 50, 15, Facing::Left), &w));
    assert!(!is_apart(&edge(50, 50, 50, 20, Facing::Right), &w));
    assert!(is_apart(&edge(0, 21, 100, 21, Facing::Down), &w));
    assert!(is_apart(&edge(0, 20, 39, 20, Facing::Down), &w));
    assert!(is_apart(&edge(100, 0, 100, 100, Facing::Left), &w));
    assert!(is_apart(&edge(61, 100, 61, 0, Facing::Right), &w));
}

#[test]
fn an_aligned_edge_has_the_region_on_its_right() {
    assert!(is_aligned(&edge(0, 0, 100, 0, Facing::Down)));
    assert!(is_aligned(&edge(100, 0, 100, 100, Facing::Left)));
    assert!(is_aligned(&edge(100, 100, 0, 100, Facing::Up)));
    assert!(is_aligned(&edge(0, 100, 0, 0, Facing::Right)));
    assert!(!is_aligned(&edge(0, 0, 100, 0, Facing::Up)));
    assert!(!is_aligned(&edge(0, 0, 100, 0, Facing::Left)));
    assert!(!is_aligned(&edge(0, 0, 0, 0, Facing::Down)));
    assert!(!is_aligned(&edge(0, 0, 100, 1, Facing::Down)));
}

#[test]
fn a_sound_boundary_is_a_loop_along_grid_lines_that_turns_at_every_corner() {
    assert!(is_sound(&square()));
    assert!(is_sound(&notched_square()));
    assert!(!is_sound(&vec![]));
    // open
    assert!(!is_sound(&square()[..3].to_vec()));
    // two edges in a row along one line
    let mut straight = square();
    straight[0] = edge(50, 0, 100, 0, Facing::Down);
    straight.insert(0, edge(0, 0, 50, 0, Facing::Down));
    assert!(!is_sound(&straight));
    // walked the wrong way round
    let mut turned: Vec<Edge> =
        square().iter().rev().map(|e| Edge { a: e.b, b: e.a, n: e.n }).collect();
    assert!(!is_sound(&turned));
    for e in turned.iter_mut() {
        e.n = e.n.opposite();
    }
    assert!(is_sound(&turned));
    // a gap at the last corner
    let mut gap = square();
    gap[3] = edge(0, 100, 0, 10, Facing::Right);
    assert!(!is_sound(&gap));
}

#[test]
fn walls_against_one_edge_are_notches() {
    assert_eq!(placement(&square(), &wall(40, 0, 60, 20)), Placement::Notch(0));
    assert_eq!(placement(&square(), &wall(80, 40, 100, 60)), Placement::Notch(1));
    assert_eq!(placement(&square(), &wall(40, 80, 60, 100)), Placement::Notch(2));
    assert_eq!(placement(&square(), &wall(0, 40, 20, 60)), Placement::Notch(3));
    assert_eq!(placement(&notched_square(), &wall(45, 20, 55, 30)), Placement::Notch(2));
}

#[test]
fn walls_from_edge_to_edge_are_bridges() {
    assert_eq!(placement(&square(), &wall(60, 0, 80, 100)), Placement::Bridge(0, 2));
    assert_eq!(placement(&square(), &wall(0, 40, 100, 60)), Placement::Bridge(1, 3));
    assert_eq!(placement(&notched_square(), &wall(45, 20, 55, 100)), Placement::Bridge(2, 6));
}

#[test]
fn walls_in_inward_corners_are_shelves_and_bars() {
    assert_eq!(placement(&notched_square(), &wall(60, 10, 80, 20)), Placement::Shelf(2));
    assert_eq!(placement(&notched_square(), &wall(40, 20, 50, 30)), Placement::Shelf(1));
    assert_eq!(placement(&notched_square(), &wall(60, 10, 100, 20)), Placement::Bar(2, 5));
    assert_eq!(placement(&notched_square(), &wall(40, 20, 50, 100)), Placement::Bar(1, 6));
}

#[test]
fn walls_that_touch_nothing_are_clear() {
    assert_eq!(placement(&square(), &wall(40, 40, 60, 60)), Placement::Clear);
    assert_eq!(placement(&square(), &wall(200, 0, 220, 100)), Placement::Clear);
    assert_eq!(placement(&notched_square(), &wall(45, 5, 55, 15)), Placement::Clear);
    assert_eq!(placement(&vec![], &wall(0, 0, 10, 10)), Placement::Clear);
}

#[test]
fn other_walls_are_astray() {
    // in an outward corner of the square
    assert_eq!(placement(&square(), &wall(0, 0, 20, 20)), Placement::Astray);
    // across an edge
    assert_eq!(placement(&square(), &wall(40, -10, 60, 20)), Placement::Astray);
    // all over the square
    assert_eq!(placement(&square(), &wall(0, 0, 100, 100)), Placement::Astray);
    assert_eq!(placement(&square(), &wall(-10, -10, 110, 110)), Placement::Astray);
    // ending with the edge that holds it
    assert_eq!(placement(&notched_square(), &wall(30, 0, 40, 10)), Placement::Astray);
    // against the notch from the outside
    assert_eq!(placement(&notched_square(), &wall(40, 0, 60, 20)), Placement::Astray);
    // from the top edge down to the edge that faces it, through the notch's side
    assert_eq!(placement(&notched_square(), &wall(30, 0, 50, 100)), Placement::Astray);
}

#[test]
fn a_playfield_takes_the_walls_that_are_placed_and_stays_tidy() {
    let balls: Vec<Ball> = (0..81)
        .map(|k| Ball::new(k, 20 * (k as i32 % 9) + 11, 20 * (k as i32 / 9) + 11))
        .collect();
    let mut field = Playfield::new(
        Point::new(0, 0),
        Point::new(100, 0),
        Point::new(100, 100),
        Point::new(0, 100),
        balls,
    );
    let cuts: [(usize, (i16, i16, i16, i16), bool, usize); 9] = [
        (0, (40, 0, 60, 20), true, 1),
        (0, (60, 10, 80, 20), true, 1),
        (0, (30, 0, 40, 10), false, 1),
        (1, (0, 40, 100, 60), false, 1),
        (0, (0, 40, 100, 60), true, 2),
        (1, (47, 60, 53, 100), true, 3),
        (0, (80, 10, 100, 20), false, 3),
        (0, (80, 0, 100, 10), false, 3),
        (2, (53, 70, 100, 80), true, 4),
    ];
    for (region, (x0, y0, x1, y1), taken, regions) in cuts {
        let before = field.areas.clone();
        let cut = field.place_wall(
            region,
            Point::new(x0, y0),
            Point::new(x1, y0),
            Point::new(x1, y1),
            Point::new(x0, y1),
        );
        assert_eq!(cut, taken);
        assert_eq!(field.areas.len(), regions);
        if !cut {
            assert_eq!(field.areas, before);
        }
        for area in &field.areas {
            assert!(is_sound(&area.edges));
            assert!(!touches_itself(&area.edges));
            for ball in &area.balls {
                assert!(area.ball_is_inside(*ball));
            }
        }
    }
    let total: usize = field.areas.iter().map(|area| area.balls.len()).sum();
    // the walls cover 4, 2, 18, none and 4 of the balls
    assert_eq!(total, 81 - 28);
}

#[test]
fn a_wall_that_is_not_proper_is_not_placed() {
    let mut field = Playfield::new(
        Point::new(0, 0),
        Point::new(100, 0),
        Point::new(100, 100),
        Point::new(0, 100),
        vec![],
    );
    assert!(!field.place_wall(
        0,
        Point::new(60, 0),
        Point::new(40, 0),
        Point::new(40, 20),
        Point::new(60, 20)
    ));
    assert_eq!(field.areas.len(), 1);
    assert_eq!(field.areas[0].edges, square());
}
