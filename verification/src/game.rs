//! The boundary model and the engine that cuts walls into it.
//!
//! `facing`, `point`, `edge` and `ball` hold the data; `crossing` decides whether two
//! segments meet; `wall` cuts a wall into one edge, `area` into a region, `playfield`
//! into one region of many. The other modules state and prove what the cut keeps:
//! `boundary` says what a sound boundary is, `insertion` that every boundary that comes
//! out is a loop, `notch`, `shelf`, `bridge` and `bar` what comes out for the four ways
//! in which a wall is placed, `placement` finds the way at hand, `rays` and `parity`
//! say which side of a wall a ball lands on, and `tally` that no ball is lost.

pub mod area;
pub mod ball;
pub mod bar;
pub mod boundary;
pub mod bridge;
pub mod crossing;
pub mod edge;
pub mod facing;
pub mod insertion;
pub mod notch;
pub mod parity;
pub mod placement;
pub mod playfield;
pub mod point;
pub mod rays;
pub mod shelf;
pub mod tally;
pub mod wall;

pub use self::area::LiveArea;
pub use self::ball::Ball;
pub use self::crossing::Spot;
pub use self::edge::{is_point_on_any_edge, is_point_on_edge, Edge};
pub use self::facing::Facing;
pub use self::placement::Placement;
pub use self::playfield::Playfield;
pub use self::point::Point;
pub use self::wall::Wall;
