//! Which boundary holds which ball.

use crasball::game::ball::{balls_held, boundary_holds};
use crasball::game::{Ball, Edge, Facing, LiveArea, Point};

fn edge(ax: i16, ay: i16, bx: i16, by: i16, n: Facing) -> Edge {
    Edge { a: Point::new(ax, ay), b: Point::new(bx, by), n }
}

fn rectangle(x0: i16, y0: i16, x1: i16, y1: i16) -> Vec<Edge> {
    vec![
        edge(x0, y0, x1, y0, Facing::Down),
        edge(x1, y0, x1, y1, Facing::Left),
        edge(x1, y1, x0, y1, Facing::Up),
        edge(x0, y1, x0, y0, Facing::Right),
    ]
}

/// A coordinate on the grid of half steps.
fn half_steps(v: f32) -> i32 {
    let below = v.floor();
    2 * (below as i32) + if v > below { 1 } else { 0 }
}

fn ball_at(id: usize, x: f32, y: f32) -> Ball {
    Ball::new(id, half_steps(x), half_steps(y))
}

#[test]
fn half_steps_tell_lines_from_what_lies_between() {
    assert_eq!(half_steps(50.0), 100);
    assert_eq!(half_steps(50.25), 101);
    assert_eq!(half_steps(50.999), 101);
    assert_eq!(half_steps(51.0), 102);
    assert_eq!(half_steps(-0.5), -1);
    assert_eq!(half_steps(-1.0), -2);
    assert_eq!(half_steps(0.0), 0);
}

#[test]
fn ball_new_keeps_its_fields() {
    let ball = Ball::new(3, 100, -7);
    assert_eq!(ball, Ball { id: 3, x: 100, y: -7 });
}

#[test]
fn a_square_holds_the_ball_at_its_centre() {
    let area = LiveArea { balls: vec![], edges: rectangle(0, 0, 100, 100) };
    assert!(area.ball_is_inside(ball_at(0, 50.0, 50.0)));
    assert!(area.ball_is_inside(ball_at(0, 0.5, 99.5)));
}

#[test]
fn a_square_does_not_hold_a_ball_beside_it() {
    let area = LiveArea { balls: vec![], edges: rectangle(0, 0, 100, 100) };
    assert!(!area.ball_is_inside(ball_at(0, 150.0, 50.0)));
    assert!(!area.ball_is_inside(ball_at(0, -50.0, 50.0)));
    assert!(!area.ball_is_inside(ball_at(0, 50.0, 150.0)));
    assert!(!area.ball_is_inside(ball_at(0, 50.0, -50.0)));
    assert!(!area.ball_is_inside(ball_at(0, -50.0, -50.0)));
    assert!(!area.ball_is_inside(ball_at(0, 150.0, 150.0)));
}

#[test]
fn a_notch_is_outside() {
    let edges = vec![
        edge(0, 0, 40, 0, Facing::Down),
        edge(40, 0, 40, 20, Facing::Left),
        edge(40, 20, 60, 20, Facing::Down),
        edge(60, 20, 60, 0, Facing::Right),
        edge(60, 0, 100, 0, Facing::Down),
        edge(100, 0, 100, 100, Facing::Left),
        edge(100, 100, 0, 100, Facing::Up),
        edge(0, 100, 0, 0, Facing::Right),
    ];
    assert!(!boundary_holds(&edges, ball_at(0, 50.0, 10.0)));
    assert!(boundary_holds(&edges, ball_at(0, 50.0, 30.0)));
    assert!(boundary_holds(&edges, ball_at(0, 30.0, 10.0)));
    assert!(boundary_holds(&edges, ball_at(0, 70.0, 10.0)));
}

#[test]
fn both_rays_have_to_meet_an_odd_number_of_edges() {
    // only the level edges of a square: the ray along x meets nothing
    let level = vec![edge(0, 0, 100, 0, Facing::Down), edge(100, 100, 0, 100, Facing::Up)];
    assert!(!boundary_holds(&level, ball_at(0, 50.0, 50.0)));
    let upright = vec![edge(100, 0, 100, 100, Facing::Left), edge(0, 100, 0, 0, Facing::Right)];
    assert!(!boundary_holds(&upright, ball_at(0, 50.0, 50.0)));
    assert!(boundary_holds(&rectangle(0, 0, 100, 100), ball_at(0, 50.0, 50.0)));
}

#[test]
fn edges_are_sorted_by_their_facing_not_by_their_run() {
    // an upright segment that claims to face down is tested against the ray along y, and
    // is parallel to it
    let mut edges = rectangle(0, 0, 100, 100);
    edges[1] = edge(100, 0, 100, 100, Facing::Down);
    assert!(!boundary_holds(&edges, ball_at(0, 50.0, 50.0)));
}

#[test]
fn a_ray_that_only_touches_an_edge_meets_it() {
    let edges = rectangle(0, 0, 100, 100);
    // on the right edge: the ray along x starts on it, and meets it alone
    assert!(boundary_holds(&edges, ball_at(0, 100.0, 50.0)));
    // on the bottom edge: the ray along y starts on it, and meets it alone
    assert!(boundary_holds(&edges, ball_at(0, 50.0, 100.0)));
    // on the left edge: the ray along x starts on it, and meets the right edge too
    assert!(!boundary_holds(&edges, ball_at(0, 0.0, 50.0)));
    // on the top edge: the ray along y starts on it, and meets the bottom edge too
    assert!(!boundary_holds(&edges, ball_at(0, 50.0, 0.0)));
    // in the corner where both rays only touch the ends of the edges they meet
    assert!(boundary_holds(&edges, ball_at(0, 100.0, 100.0)));
}

#[test]
fn the_rays_reach_1024_steps_and_no_further() {
    let tall = rectangle(0, 0, 100, 2000);
    assert!(boundary_holds(&tall, ball_at(0, 50.0, 976.0)));
    assert!(!boundary_holds(&tall, ball_at(0, 50.0, 975.5)));
    let wide = rectangle(0, 0, 2000, 100);
    assert!(boundary_holds(&wide, ball_at(0, 976.0, 50.0)));
    assert!(!boundary_holds(&wide, ball_at(0, 975.5, 50.0)));
}

#[test]
fn a_ball_at_the_end_of_the_number_range_is_outside() {
    let edges = rectangle(-32768, -32768, 32767, 32767);
    assert!(!boundary_holds(&edges, Ball::new(0, i32::MAX, i32::MAX)));
    assert!(!boundary_holds(&edges, Ball::new(0, i32::MIN, i32::MIN)));
    assert!(!boundary_holds(&edges, Ball::new(0, i32::MAX, 0)));
    assert!(boundary_holds(&edges, Ball::new(0, 65534 - 2048, 65534 - 2048)));
}

#[test]
fn no_edges_hold_no_ball() {
    assert!(!boundary_holds(&vec![], ball_at(0, 50.0, 50.0)));
}

#[test]
fn the_balls_held_keep_their_order() {
    let edges = rectangle(0, 0, 100, 100);
    let balls = vec![
        ball_at(0, 150.0, 50.0),
        ball_at(1, 70.0, 50.0),
        ball_at(2, 50.0, -1.0),
        ball_at(3, 10.0, 10.0),
        ball_at(4, 50.0, 50.0),
    ];
    let held = balls_held(&edges, &balls);
    assert_eq!(held, vec![balls[1], balls[3], balls[4]]);
    assert_eq!(balls_held(&edges, &vec![]), vec![]);
    assert_eq!(balls_held(&vec![], &balls), vec![]);
}

#[test]
fn a_ball_off_the_lines_is_inside_by_either_ray_alone() {
    // round a loop, the two rays meet an even number of edges together
    let edges = vec![
        edge(0, 0, 40, 0, Facing::Down),
        edge(40, 0, 40, 20, Facing::Left),
        edge(40, 20, 60, 20, Facing::Down),
        edge(60, 20, 60, 0, Facing::Right),
        edge(60, 0, 100, 0, Facing::Down),
        edge(100, 0, 100, 100, Facing::Left),
        edge(100, 100, 0, 100, Facing::Up),
        edge(0, 100, 0, 0, Facing::Right),
    ];
    let mut x = -10.5;
    while x < 111.0 {
        let mut y = -10.5;
        while y < 111.0 {
            let ball = ball_at(0, x, y);
            let level = edges.iter().filter(|e| e.n.is_level() && e.is_struck_by(ball)).count();
            let upright = edges.iter().filter(|e| !e.n.is_level() && e.is_struck_by(ball)).count();
            assert_eq!(level % 2, upright % 2);
            assert_eq!(boundary_holds(&edges, ball), level % 2 == 1);
            y += 7.0;
        }
        x += 7.0;
    }
}
