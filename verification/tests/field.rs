//! The playfield and the regions that walls make of it.

use crasball::game::{Ball, Edge, Facing, LiveArea, Playfield, Point};

fn edge(ax: i16, ay: i16, bx: i16, by: i16, n: Facing) -> Edge {
    Edge { a: Point::new(ax, ay), b: Point::new(bx, by), n }
}

fn ball(id: usize, x: i32, y: i32) -> Ball {
    Ball::new(id, 2 * x, 2 * y)
}

fn field(balls: Vec<Ball>) -> Playfield {
    Playfield::new(
        Point::new(0, 0),
        Point::new(100, 0),
        Point::new(100, 100),
        Point::new(0, 100),
        balls,
    )
}

fn insert(field: &mut Playfield, region: usize, x0: i16, y0: i16, x1: i16, y1: i16) {
    field.insert_wall(
        region,
        Point::new(x0, y0),
        Point::new(x1, y0),
        Point::new(x1, y1),
        Point::new(x0, y1),
    );
}

#[test]
fn a_new_playfield_is_one_rectangle_with_all_balls() {
    let balls = vec![ball(0, 50, 50), ball(1, 500, 500)];
    let made = field(balls.clone());
    assert_eq!(
        made.areas,
        vec![LiveArea {
            balls,
            edges: vec![
                edge(0, 0, 100, 0, Facing::Down),
                edge(100, 0, 100, 100, Facing::Left),
                edge(100, 100, 0, 100, Facing::Up),
                edge(0, 100, 0, 0, Facing::Right),
            ],
        }]
    );
}

#[test]
fn a_wall_divides_the_region_it_is_cut_into() {
    let mut made = field(vec![ball(0, 30, 50), ball(1, 90, 50)]);
    assert!(made.accepts_wall(
        0,
        Point::new(60, 0),
        Point::new(80, 0),
        Point::new(80, 100),
        Point::new(60, 100)
    ));
    insert(&mut made, 0, 60, 0, 80, 100);
    assert_eq!(made.areas.len(), 2);
    assert_eq!(made.areas[0].balls, vec![ball(0, 30, 50)]);
    assert_eq!(made.areas[1].balls, vec![ball(1, 90, 50)]);
    assert_eq!(made.areas[0].edges[1], edge(60, 0, 60, 100, Facing::Left));
    assert_eq!(made.areas[1].edges[3], edge(80, 100, 80, 0, Facing::Right));
}

#[test]
fn the_regions_of_a_cut_take_the_place_of_the_region() {
    let mut made = field(vec![ball(0, 30, 20), ball(1, 30, 80), ball(2, 90, 50)]);
    insert(&mut made, 0, 60, 0, 80, 100);
    let right = made.areas[1].clone();
    // the left region is divided in turn: its parts come before the right region
    assert!(made.accepts_wall(
        0,
        Point::new(0, 40),
        Point::new(60, 40),
        Point::new(60, 60),
        Point::new(0, 60)
    ));
    insert(&mut made, 0, 0, 40, 60, 60);
    assert_eq!(made.areas.len(), 3);
    assert_eq!(made.areas[0].balls, vec![ball(0, 30, 20)]);
    assert_eq!(made.areas[1].balls, vec![ball(1, 30, 80)]);
    assert_eq!(made.areas[2], right);
    assert_eq!(
        made.areas[0].edges,
        vec![
            edge(0, 0, 60, 0, Facing::Down),
            edge(60, 0, 60, 40, Facing::Left),
            edge(60, 40, 0, 40, Facing::Up),
            edge(0, 40, 0, 0, Facing::Right),
        ]
    );
}

#[test]
fn a_wall_into_the_last_region_leaves_the_others_alone() {
    let mut made = field(vec![ball(0, 30, 50), ball(1, 90, 50)]);
    insert(&mut made, 0, 60, 0, 80, 100);
    let left = made.areas[0].clone();
    insert(&mut made, 1, 85, 0, 95, 10);
    assert_eq!(made.areas.len(), 2);
    assert_eq!(made.areas[0], left);
    assert_eq!(made.areas[1].edges.len(), 8);
    assert_eq!(made.areas[1].balls, vec![ball(1, 90, 50)]);
}

#[test]
fn a_region_that_is_not_there_accepts_no_wall() {
    let made = field(vec![]);
    assert!(!made.accepts_wall(
        1,
        Point::new(40, 0),
        Point::new(60, 0),
        Point::new(60, 20),
        Point::new(40, 20)
    ));
    assert!(made.accepts_wall(
        0,
        Point::new(40, 0),
        Point::new(60, 0),
        Point::new(60, 20),
        Point::new(40, 20)
    ));
}
