//! Walls cut into boundaries that are written out edge by edge.

use crasball::game::wall::splice;
use crasball::game::{Ball, Edge, Facing, LiveArea, Point, Wall};

fn edge(ax: i16, ay: i16, bx: i16, by: i16, n: Facing) -> Edge {
    Edge { a: Point::new(ax, ay), b: Point::new(bx, by), n }
}

fn square() -> Vec<Edge> {
    vec![
        edge(0, 0, 100, 0, Facing::Down),
        edge(100, 0, 100, 100, Facing::Left),
        edge(100, 100, 0, 100, Facing::Up),
        edge(0, 100, 0, 0, Facing::Right),
    ]
}

/// The square with a notch cut into its top edge from x = 40 to x = 60, down to y = 20.
fn notched_square() -> Vec<Edge> {
    vec![
        edge(0, 0, 40, 0, Facing::Down),
        edge(40, 0, 40, 20, Facing::Left),
        edge(40, 20, 60, 20, Facing::Down),
        edge(60, 20, 60, 0, Facing::Right),
        edge(60, 0, 100, 0, Facing::Down),
        edge(100, 0, 100, 100, Facing::Left),
        edge(100, 100, 0, 100, Facing::Up),
        edge(0, 100, 0, 0, Facing::Right),
    ]
}

/// A ball whose centre lies on the grid point `(x, y)`.
fn ball(id: usize, x: i32, y: i32) -> Ball {
    Ball::new(id, 2 * x, 2 * y)
}

fn cut(area: LiveArea, x0: i16, y0: i16, x1: i16, y1: i16) -> Vec<LiveArea> {
    assert!(area.accepts_wall(
        Point::new(x0, y0),
        Point::new(x1, y0),
        Point::new(x1, y1),
        Point::new(x0, y1)
    ));
    area.add_wall(Point::new(x0, y0), Point::new(x1, y0), Point::new(x1, y1), Point::new(x0, y1))
}

fn is_loop(edges: &[Edge]) -> bool {
    !edges.is_empty()
        && edges.windows(2).all(|pair| pair[0].b == pair[1].a)
        && edges[edges.len() - 1].b == edges[0].a
}

/// Every edge runs along a grid line with the region on its right, and the boundary turns
/// by a quarter at each corner.
fn is_sound(edges: &[Edge]) -> bool {
    let aligned = |e: &Edge| match e.n {
        Facing::Down => e.a.y == e.b.y && e.a.x < e.b.x,
        Facing::Left => e.a.x == e.b.x && e.a.y < e.b.y,
        Facing::Up => e.a.y == e.b.y && e.a.x > e.b.x,
        Facing::Right => e.a.x == e.b.x && e.a.y > e.b.y,
    };
    is_loop(edges)
        && edges.iter().all(aligned)
        && (0..edges.len()).all(|i| {
            let next = edges[(i + 1) % edges.len()].n;
            next == edges[i].n.clockwise() || next == edges[i].n.anticlockwise()
        })
}

fn points_of(e: &Edge) -> Vec<(i16, i16)> {
    let mut points = Vec::new();
    for x in e.a.x.min(e.b.x)..=e.a.x.max(e.b.x) {
        for y in e.a.y.min(e.b.y)..=e.a.y.max(e.b.y) {
            points.push((x, y));
        }
    }
    points
}

/// Two edges share a point only where one follows the other, and then only the corner
/// between them.
fn is_simple(edges: &[Edge]) -> bool {
    let n = edges.len();
    for i in 0..n {
        for j in i + 1..n {
            for p in points_of(&edges[i]) {
                if points_of(&edges[j]).contains(&p) {
                    let corner = if j == i + 1 {
                        Some(edges[i].b)
                    } else if i == 0 && j == n - 1 {
                        Some(edges[0].a)
                    } else {
                        None
                    };
                    if corner != Some(Point::new(p.0, p.1)) {
                        return false;
                    }
                }
            }
        }
    }
    true
}

#[test]
fn a_wall_on_the_top_edge_cuts_a_notch() {
    let area = LiveArea { balls: vec![ball(0, 50, 50)], edges: square() };
    let out = cut(area, 40, 0, 60, 20);
    assert_eq!(out, vec![LiveArea { balls: vec![ball(0, 50, 50)], edges: notched_square() }]);
}

#[test]
fn a_wall_on_the_right_edge_cuts_a_notch() {
    let area = LiveArea { balls: vec![], edges: square() };
    let out = cut(area, 80, 40, 100, 60);
    assert_eq!(out.len(), 1);
    assert_eq!(
        out[0].edges,
        vec![
            edge(0, 0, 100, 0, Facing::Down),
            edge(100, 0, 100, 40, Facing::Left),
            edge(100, 40, 80, 40, Facing::Up),
            edge(80, 40, 80, 60, Facing::Left),
            edge(80, 60, 100, 60, Facing::Down),
            edge(100, 60, 100, 100, Facing::Left),
            edge(100, 100, 0, 100, Facing::Up),
            edge(0, 100, 0, 0, Facing::Right),
        ]
    );
}

#[test]
fn a_wall_on_the_left_edge_cuts_a_notch() {
    let area = LiveArea { balls: vec![], edges: square() };
    let out = cut(area, 0, 40, 20, 60);
    assert_eq!(out.len(), 1);
    assert_eq!(
        out[0].edges,
        vec![
            edge(0, 0, 100, 0, Facing::Down),
            edge(100, 0, 100, 100, Facing::Left),
            edge(100, 100, 0, 100, Facing::Up),
            edge(0, 100, 0, 60, Facing::Right),
            edge(0, 60, 20, 60, Facing::Down),
            edge(20, 60, 20, 40, Facing::Right),
            edge(20, 40, 0, 40, Facing::Up),
            edge(0, 40, 0, 0, Facing::Right),
        ]
    );
}

#[test]
fn a_wall_clear_of_the_boundary_changes_nothing() {
    let area = LiveArea { balls: vec![ball(0, 10, 10), ball(1, 300, 10)], edges: square() };
    let out = cut(area, 40, 40, 60, 60);
    // the ball outside the boundary is dropped, the one inside kept
    assert_eq!(out, vec![LiveArea { balls: vec![ball(0, 10, 10)], edges: square() }]);
}

#[test]
fn a_wall_from_top_to_bottom_keeps_the_side_with_the_ball() {
    let area = LiveArea { balls: vec![ball(0, 50, 50)], edges: square() };
    let out = cut(area, 60, 0, 80, 100);
    assert_eq!(
        out,
        vec![LiveArea {
            balls: vec![ball(0, 50, 50)],
            edges: vec![
                edge(0, 0, 60, 0, Facing::Down),
                edge(60, 0, 60, 100, Facing::Left),
                edge(60, 100, 0, 100, Facing::Up),
                edge(0, 100, 0, 0, Facing::Right),
            ],
        }]
    );
}

#[test]
fn a_wall_from_top_to_bottom_splits_where_both_sides_hold_a_ball() {
    let balls = vec![ball(0, 90, 10), ball(1, 50, 50), ball(2, 85, 95), ball(3, 10, 90)];
    let area = LiveArea { balls: balls.clone(), edges: square() };
    let out = cut(area, 60, 0, 80, 100);
    assert_eq!(
        out,
        vec![
            LiveArea {
                balls: vec![balls[1], balls[3]],
                edges: vec![
                    edge(0, 0, 60, 0, Facing::Down),
                    edge(60, 0, 60, 100, Facing::Left),
                    edge(60, 100, 0, 100, Facing::Up),
                    edge(0, 100, 0, 0, Facing::Right),
                ],
            },
            LiveArea {
                balls: vec![balls[0], balls[2]],
                edges: vec![
                    edge(80, 0, 100, 0, Facing::Down),
                    edge(100, 0, 100, 100, Facing::Left),
                    edge(100, 100, 80, 100, Facing::Up),
                    edge(80, 100, 80, 0, Facing::Right),
                ],
            },
        ]
    );
}

#[test]
fn a_wall_from_right_to_left_severs_a_boundary_that_starts_with_its_top() {
    // met from the edge that faces left, the severed edges are rotated by one
    let balls = vec![ball(0, 50, 20), ball(1, 50, 80)];
    let area = LiveArea { balls: balls.clone(), edges: square() };
    let out = cut(area, 0, 40, 100, 60);
    assert_eq!(
        out,
        vec![
            LiveArea {
                balls: vec![balls[0]],
                edges: vec![
                    edge(0, 0, 100, 0, Facing::Down),
                    edge(100, 0, 100, 40, Facing::Left),
                    edge(100, 40, 0, 40, Facing::Up),
                    edge(0, 40, 0, 0, Facing::Right),
                ],
            },
            LiveArea {
                balls: vec![balls[1]],
                edges: vec![
                    edge(0, 60, 100, 60, Facing::Down),
                    edge(100, 60, 100, 100, Facing::Left),
                    edge(100, 100, 0, 100, Facing::Up),
                    edge(0, 100, 0, 60, Facing::Right),
                ],
            },
        ]
    );
}

#[test]
fn a_ball_within_the_wall_is_lost() {
    let balls = vec![ball(0, 70, 50), ball(1, 50, 50)];
    let area = LiveArea { balls: balls.clone(), edges: square() };
    let out = cut(area, 60, 0, 80, 100);
    assert_eq!(out.len(), 1);
    assert_eq!(out[0].balls, vec![balls[1]]);
}

#[test]
fn a_wall_that_continues_an_edge_draws_the_edge_out() {
    // beside the notch, against its right side: the bottom of the notch is drawn out
    let area = LiveArea { balls: vec![ball(0, 50, 50)], edges: notched_square() };
    let out = cut(area, 60, 10, 80, 20);
    assert_eq!(
        out,
        vec![LiveArea {
            balls: vec![ball(0, 50, 50)],
            edges: vec![
                edge(0, 0, 40, 0, Facing::Down),
                edge(40, 0, 40, 20, Facing::Left),
                edge(40, 20, 80, 20, Facing::Down),
                edge(80, 20, 80, 10, Facing::Right),
                edge(80, 10, 60, 10, Facing::Up),
                edge(60, 10, 60, 0, Facing::Right),
                edge(60, 0, 100, 0, Facing::Down),
                edge(100, 0, 100, 100, Facing::Left),
                edge(100, 100, 0, 100, Facing::Up),
                edge(0, 100, 0, 0, Facing::Right),
            ],
        }]
    );
}

#[test]
fn a_wall_that_continues_an_edge_to_another_severs_what_lies_behind() {
    let balls = vec![ball(0, 80, 5), ball(1, 50, 50)];
    let area = LiveArea { balls: balls.clone(), edges: notched_square() };
    let out = cut(area, 60, 10, 100, 20);
    assert_eq!(
        out,
        vec![
            LiveArea {
                balls: vec![balls[1]],
                edges: vec![
                    edge(0, 0, 40, 0, Facing::Down),
                    edge(40, 0, 40, 20, Facing::Left),
                    edge(40, 20, 100, 20, Facing::Down),
                    edge(100, 20, 100, 100, Facing::Left),
                    edge(100, 100, 0, 100, Facing::Up),
                    edge(0, 100, 0, 0, Facing::Right),
                ],
            },
            LiveArea {
                balls: vec![balls[0]],
                edges: vec![
                    edge(60, 10, 60, 0, Facing::Right),
                    edge(60, 0, 100, 0, Facing::Down),
                    edge(100, 0, 100, 10, Facing::Left),
                    edge(100, 10, 60, 10, Facing::Up),
                ],
            },
        ]
    );
}

#[test]
fn a_wall_that_continues_the_last_edge_is_not_accepted() {
    // the left edge ends on the wall's bottom right corner, and no edge follows it
    let area = LiveArea { balls: vec![], edges: square() };
    assert!(!area.accepts_wall(
        Point::new(-20, -20),
        Point::new(0, -20),
        Point::new(0, 0),
        Point::new(-20, 0)
    ));
}

#[test]
fn a_wall_that_fills_the_end_of_a_strip_is_not_accepted() {
    // the severed boundary has two edges, and the edge that faces right asks for three
    let strip = vec![
        edge(0, 100, 0, 40, Facing::Right),
        edge(0, 40, 20, 40, Facing::Down),
        edge(20, 40, 20, 100, Facing::Left),
        edge(20, 100, 0, 100, Facing::Up),
    ];
    let area = LiveArea { balls: vec![], edges: strip };
    assert!(!area.accepts_wall(
        Point::new(0, 40),
        Point::new(20, 40),
        Point::new(20, 60),
        Point::new(0, 60)
    ));
}

#[test]
fn the_same_wall_is_accepted_where_the_strip_starts_with_another_edge() {
    let strip = vec![
        edge(20, 40, 20, 100, Facing::Left),
        edge(20, 100, 0, 100, Facing::Up),
        edge(0, 100, 0, 40, Facing::Right),
        edge(0, 40, 20, 40, Facing::Down),
    ];
    let area = LiveArea { balls: vec![], edges: strip };
    assert!(area.accepts_wall(
        Point::new(0, 40),
        Point::new(20, 40),
        Point::new(20, 60),
        Point::new(0, 60)
    ));
}

#[test]
fn a_region_without_edges_accepts_any_wall_and_stays_empty() {
    let area = LiveArea { balls: vec![ball(0, 1, 1)], edges: vec![] };
    let out = cut(area, 0, 0, 10, 10);
    assert_eq!(out, vec![LiveArea { balls: vec![], edges: vec![] }]);
}

#[test]
fn splice_leaves_an_untouched_edge_alone() {
    let edges = square();
    let wall =
        Wall::new(Point::new(40, 0), Point::new(60, 0), Point::new(60, 20), Point::new(40, 20));
    let cut = splice(&edges, &wall, 1).unwrap();
    assert_eq!(cut.kept, vec![edges[1]]);
    assert_eq!(cut.severed, None);
    assert_eq!(cut.next, 2);
}

#[test]
fn splice_cuts_a_notch_into_the_edge_that_holds_the_wall() {
    let edges = square();
    let wall =
        Wall::new(Point::new(40, 0), Point::new(60, 0), Point::new(60, 20), Point::new(40, 20));
    let cut = splice(&edges, &wall, 0).unwrap();
    assert_eq!(cut.kept, notched_square()[..5].to_vec());
    assert_eq!(cut.severed, None);
    assert_eq!(cut.next, 1);
}

#[test]
fn splice_consumes_the_edges_up_to_the_landing() {
    let edges = square();
    let wall =
        Wall::new(Point::new(60, 0), Point::new(80, 0), Point::new(80, 100), Point::new(60, 100));
    let cut = splice(&edges, &wall, 0).unwrap();
    assert_eq!(
        cut.kept,
        vec![
            edge(0, 0, 60, 0, Facing::Down),
            edge(60, 0, 60, 100, Facing::Left),
            edge(60, 100, 0, 100, Facing::Up),
        ]
    );
    assert_eq!(
        cut.severed,
        Some(vec![
            edge(80, 0, 100, 0, Facing::Down),
            edge(100, 0, 100, 100, Facing::Left),
            edge(100, 100, 80, 100, Facing::Up),
            edge(80, 100, 80, 0, Facing::Right),
        ])
    );
    assert_eq!(cut.next, 3);
}

#[test]
fn splice_is_undefined_where_a_trailing_notch_has_no_next_edge() {
    let edges = square();
    let wall =
        Wall::new(Point::new(-20, -20), Point::new(0, -20), Point::new(0, 0), Point::new(-20, 0));
    assert!(splice(&edges, &wall, 3).is_none());
    assert!(splice(&edges, &wall, 2).is_some());
}

#[test]
fn wall_corners_are_counted_clockwise_from_the_top_left() {
    let wall = Wall::new(Point::new(1, 2), Point::new(3, 2), Point::new(3, 4), Point::new(1, 4));
    assert_eq!(wall.corner_at(0), Point::new(1, 2));
    assert_eq!(wall.corner_at(1), Point::new(3, 2));
    assert_eq!(wall.corner_at(2), Point::new(3, 4));
    assert_eq!(wall.corner_at(3), Point::new(1, 4));
    assert_eq!(wall.corner_at(4), Point::new(1, 2));
    assert_eq!(wall.corner_at(7), Point::new(1, 4));
}

#[test]
fn every_boundary_that_comes_out_is_a_loop() {
    let walls = [
        (40, 0, 60, 20),
        (80, 40, 100, 60),
        (40, 80, 60, 100),
        (0, 40, 20, 60),
        (60, 0, 80, 100),
        (0, 40, 100, 60),
        (60, 10, 80, 20),
        (60, 10, 100, 20),
    ];
    let balls: Vec<Ball> = (0..100)
        .map(|k| ball(k, (k as i32 % 10) * 10 + 5, (k as i32 / 10) * 10 + 5))
        .collect();
    for boundary in [square(), notched_square()] {
        for (x0, y0, x1, y1) in walls {
            let area = LiveArea { balls: balls.clone(), edges: boundary.clone() };
            if area.accepts_wall(
                Point::new(x0, y0),
                Point::new(x1, y0),
                Point::new(x1, y1),
                Point::new(x0, y1),
            ) {
                for region in cut(area, x0, y0, x1, y1) {
                    assert!(is_loop(&region.edges));
                }
            }
        }
    }
}

#[test]
fn a_notch_leaves_a_sound_boundary_that_does_not_touch_itself() {
    assert!(is_sound(&square()) && is_simple(&square()));
    let walls = [(40, 0, 60, 20), (80, 40, 100, 60), (40, 80, 60, 100), (0, 40, 20, 60)];
    for (x0, y0, x1, y1) in walls {
        let out = cut(LiveArea { balls: vec![], edges: square() }, x0, y0, x1, y1);
        assert_eq!(out.len(), 1);
        assert_eq!(out[0].edges.len(), 8);
        assert!(is_sound(&out[0].edges));
        assert!(is_simple(&out[0].edges));
    }
    // a second notch into the first
    let out = cut(LiveArea { balls: vec![], edges: notched_square() }, 45, 20, 55, 30);
    assert_eq!(out[0].edges.len(), 12);
    assert!(is_sound(&out[0].edges));
    assert!(is_simple(&out[0].edges));
}

#[test]
fn a_bridge_leaves_two_sound_boundaries_that_do_not_touch_themselves() {
    let balls = vec![ball(0, 5, 5), ball(1, 95, 95)];
    for (x0, y0, x1, y1) in [(60, 0, 80, 100), (0, 40, 100, 60), (10, 0, 20, 100)] {
        let out = cut(LiveArea { balls: balls.clone(), edges: square() }, x0, y0, x1, y1);
        assert_eq!(out.len(), 2);
        for region in &out {
            assert_eq!(region.edges.len(), 4);
            assert!(is_sound(&region.edges));
            assert!(is_simple(&region.edges));
        }
    }
}

#[test]
fn a_shelf_leaves_a_sound_boundary_that_does_not_touch_itself() {
    assert!(is_sound(&notched_square()) && is_simple(&notched_square()));
    // in the corner above the right end of the notch, and in the one below its left end
    let out = cut(LiveArea { balls: vec![], edges: notched_square() }, 60, 10, 80, 20);
    assert_eq!(out.len(), 1);
    assert_eq!(out[0].edges.len(), 10);
    assert!(is_sound(&out[0].edges));
    assert!(is_simple(&out[0].edges));
    let out = cut(LiveArea { balls: vec![], edges: notched_square() }, 40, 20, 50, 30);
    assert_eq!(out.len(), 1);
    assert_eq!(
        out[0].edges,
        vec![
            edge(0, 0, 40, 0, Facing::Down),
            edge(40, 0, 40, 30, Facing::Left),
            edge(40, 30, 50, 30, Facing::Down),
            edge(50, 30, 50, 20, Facing::Right),
            edge(50, 20, 60, 20, Facing::Down),
            edge(60, 20, 60, 0, Facing::Right),
            edge(60, 0, 100, 0, Facing::Down),
            edge(100, 0, 100, 100, Facing::Left),
            edge(100, 100, 0, 100, Facing::Up),
            edge(0, 100, 0, 0, Facing::Right),
        ]
    );
    assert!(is_sound(&out[0].edges));
    assert!(is_simple(&out[0].edges));
}

#[test]
fn a_wall_that_ends_with_its_edge_is_met_twice() {
    // the wall's second corner lies on the end of the top edge, where the next edge
    // starts: that edge holds the corner too, and cuts the wall in once more
    let out = cut(LiveArea { balls: vec![], edges: notched_square() }, 30, 0, 40, 10);
    assert_eq!(out.len(), 1);
    assert!(is_loop(&out[0].edges));
    assert!(!is_sound(&out[0].edges));
    assert_eq!(out[0].edges[4], edge(40, 0, 40, 0, Facing::Down));
}

#[test]
fn a_bar_leaves_two_sound_boundaries_that_do_not_touch_themselves() {
    let balls = vec![ball(0, 80, 5), ball(1, 50, 50)];
    let out = cut(LiveArea { balls, edges: notched_square() }, 60, 10, 100, 20);
    assert_eq!(out.len(), 2);
    for region in &out {
        assert!(is_sound(&region.edges));
        assert!(is_simple(&region.edges));
    }
    assert_eq!(out[0].edges.len(), 6);
    assert_eq!(out[1].edges.len(), 4);
}

#[test]
fn a_cut_into_a_corner_keeps_the_balls_that_lie_off_the_wall() {
    let balls: Vec<Ball> = (0..81)
        .map(|k| Ball::new(k, 20 * (k as i32 % 9) + 11, 20 * (k as i32 / 9) + 11))
        .collect();
    let inside = |b: &Ball, x0: i32, y0: i32, x1: i32, y1: i32| {
        2 * x0 < b.x && b.x < 2 * x1 && 2 * y0 < b.y && b.y < 2 * y1
    };
    let start = LiveArea { balls: balls.clone(), edges: notched_square() };
    let placed: Vec<Ball> = balls.iter().filter(|b| start.ball_is_inside(**b)).copied().collect();
    assert_eq!(placed.len(), 77);
    for (x0, y0, x1, y1) in [(60, 10, 80, 20), (60, 10, 100, 20)] {
        let free: Vec<Ball> =
            placed.iter().filter(|b| !inside(b, x0, y0, x1, y1)).copied().collect();
        let area = LiveArea { balls: free.clone(), edges: notched_square() };
        let out = cut(area, x0 as i16, y0 as i16, x1 as i16, y1 as i16);
        let total: usize = out.iter().map(|region| region.balls.len()).sum();
        assert_eq!(total, free.len());
        for b in &free {
            assert_eq!(out.iter().filter(|region| region.balls.contains(b)).count(), 1);
        }
    }
}

#[test]
fn a_cut_keeps_the_balls_that_lie_off_the_wall() {
    // no ball within the wall or on a grid line through a corner
    let balls: Vec<Ball> = (0..81)
        .map(|k| Ball::new(k, 20 * (k as i32 % 9) + 11, 20 * (k as i32 / 9) + 11))
        .collect();
    let inside = |b: &Ball, x0: i32, y0: i32, x1: i32, y1: i32| {
        2 * x0 < b.x && b.x < 2 * x1 && 2 * y0 < b.y && b.y < 2 * y1
    };
    for (x0, y0, x1, y1) in [(40, 0, 60, 20), (60, 0, 80, 100), (0, 40, 100, 60), (0, 40, 20, 60)] {
        let free: Vec<Ball> =
            balls.iter().filter(|b| !inside(b, x0, y0, x1, y1)).copied().collect();
        let area = LiveArea { balls: free.clone(), edges: square() };
        let out = cut(area, x0 as i16, y0 as i16, x1 as i16, y1 as i16);
        let total: usize = out.iter().map(|region| region.balls.len()).sum();
        assert_eq!(total, free.len());
        for b in &free {
            assert_eq!(out.iter().filter(|region| region.balls.contains(b)).count(), 1);
        }
        for region in &out {
            for b in &region.balls {
                assert!(region.ball_is_inside(*b));
            }
        }
    }
}
