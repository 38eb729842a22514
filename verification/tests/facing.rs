//! The four facings, their turns and their normals.

use crasball::game::Facing;

const ALL: [Facing; 4] = [Facing::Down, Facing::Left, Facing::Up, Facing::Right];

#[test]
fn clockwise_follows_down_left_up_right() {
    assert_eq!(Facing::Down.clockwise(), Facing::Left);
    assert_eq!(Facing::Left.clockwise(), Facing::Up);
    assert_eq!(Facing::Up.clockwise(), Facing::Right);
    assert_eq!(Facing::Right.clockwise(), Facing::Down);
}

#[test]
fn anticlockwise_follows_down_right_up_left() {
    assert_eq!(Facing::Down.anticlockwise(), Facing::Right);
    assert_eq!(Facing::Right.anticlockwise(), Facing::Up);
    assert_eq!(Facing::Up.anticlockwise(), Facing::Left);
    assert_eq!(Facing::Left.anticlockwise(), Facing::Down);
}

#[test]
fn opposite_is_half_a_turn() {
    assert_eq!(Facing::Down.opposite(), Facing::Up);
    assert_eq!(Facing::Up.opposite(), Facing::Down);
    assert_eq!(Facing::Left.opposite(), Facing::Right);
    assert_eq!(Facing::Right.opposite(), Facing::Left);
    for f in ALL {
        assert_eq!(f.clockwise().clockwise(), f.opposite());
        assert_eq!(f.opposite().opposite(), f);
    }
}

#[test]
fn turns_undo_each_other() {
    for f in ALL {
        assert_eq!(f.clockwise().anticlockwise(), f);
        assert_eq!(f.anticlockwise().clockwise(), f);
        assert_eq!(f.clockwise().clockwise().clockwise().clockwise(), f);
    }
}

#[test]
fn ordinal_counts_clockwise_from_down() {
    assert_eq!(Facing::Down.ordinal(), 0);
    assert_eq!(Facing::Left.ordinal(), 1);
    assert_eq!(Facing::Up.ordinal(), 2);
    assert_eq!(Facing::Right.ordinal(), 3);
    for f in ALL {
        assert_eq!(f.clockwise().ordinal(), (f.ordinal() + 1) % 4);
    }
}

#[test]
fn normal_points_into_the_region() {
    assert_eq!(Facing::Down.normal(), (0, 1));
    assert_eq!(Facing::Left.normal(), (-1, 0));
    assert_eq!(Facing::Up.normal(), (0, -1));
    assert_eq!(Facing::Right.normal(), (1, 0));
}

#[test]
fn normal_of_the_opposite_facing_is_negated() {
    for f in ALL {
        let (x, y) = f.normal();
        assert_eq!(f.opposite().normal(), (-x, -y));
        assert_eq!(f.clockwise().normal(), (-y, x));
    }
}

#[test]
fn mirroring_twice_off_opposite_walls_restores_the_direction() {
    // v - 2 (v . n) n, on whole numbers, for each facing and its opposite
    let v: (i32, i32) = (30, -70);
    for f in ALL {
        let n = f.normal();
        let m = f.opposite().normal();
        let dot = v.0 * n.0 as i32 + v.1 * n.1 as i32;
        let once = (v.0 - 2 * dot * n.0 as i32, v.1 - 2 * dot * n.1 as i32);
        let back = once.0 * m.0 as i32 + once.1 * m.1 as i32;
        let twice = (once.0 - 2 * back * m.0 as i32, once.1 - 2 * back * m.1 as i32);
        assert_ne!(once, v);
        assert_eq!(twice, v);
    }
}

#[test]
fn level_facings_are_down_and_up() {
    assert!(Facing::Down.is_level());
    assert!(Facing::Up.is_level());
    assert!(!Facing::Left.is_level());
    assert!(!Facing::Right.is_level());
}
