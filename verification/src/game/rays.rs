//! What the rays of the inside test meet, stated on coordinates.

use vstd::prelude::*;
use crate::game::ball::{encloses, strikes, Ball, REACH};
use crate::game::boundary::{chained, closed, joined};
use crate::game::crossing::meets;
use crate::game::edge::Edge;
use crate::game::point::Point;

verus! {

/// `v` lies between `a` and `b`, whichever of the two is the smaller, ends included.
pub open spec fn amid(v: int, a: int, b: int) -> bool {
    (a <= v <= b) || (b <= v <= a)
}

impl Edge {
    /// The edge runs along a grid line of the kind that its facing stands for: along `x`
    /// where it faces `Down` or `Up`, else along `y`. It may be without length.
    pub open spec fn axial(self) -> bool {
        if self.n.level() {
            self.a.y == self.b.y
        } else {
            self.a.x == self.b.x
        }
    }

    /// What `struck_by` comes to for an edge along a grid line: the edge has length, the
    /// ball's coordinate along the edge lies within the edge, and the edge lies no more
    /// than `REACH` half steps from the ball on the side to which the ray is cast.
    pub open spec fn crossed_by(self, ball: Ball) -> bool {
        if self.n.level() {
            self.a.x != self.b.x && amid(ball.x as int, 2 * self.a.x, 2 * self.b.x) && ball.y
                <= 2 * self.a.y <= ball.y + REACH
        } else {
            self.a.y != self.b.y && amid(ball.y as int, 2 * self.a.y, 2 * self.b.y) && ball.x
                <= 2 * self.a.x <= ball.x + REACH
        }
    }
}

/// A product with a factor that is not zero lies between zero and a multiple of that
/// factor just as the other factor lies between zero and the multiplier.
proof fn lemma_scaled_between(k: int, v: int, m: int)
    requires
        k != 0,
    ensures
        k > 0 ==> ((0 <= k * v <= k * m) <==> (0 <= v <= m)),
        k < 0 ==> ((k * m <= k * v <= 0) <==> (0 <= v <= m)),
{
    assert(k > 0 ==> ((0 <= k * v) <==> (0 <= v))) by (nonlinear_arith)
        requires
            k != 0,
    ;
    assert(k > 0 ==> ((k * v <= k * m) <==> (v <= m))) by (nonlinear_arith)
        requires
            k != 0,
    ;
    assert(k < 0 ==> ((k * v <= 0) <==> (0 <= v))) by (nonlinear_arith)
        requires
            k != 0,
    ;
    assert(k < 0 ==> ((k * m <= k * v) <==> (v <= m))) by (nonlinear_arith)
        requires
            k != 0,
    ;
}

/// For an edge along a grid line, the ray of the inside test meets the edge exactly
/// where the coordinates say that it crosses or touches it.
pub proof fn lemma_struck_is_crossed(e: Edge, ball: Ball)
    requires
        e.axial(),
    ensures
        e.struck_by(ball) == e.crossed_by(ball),
{
    reveal(meets);
    if e.n.level() {
        let k = 2 * e.b.x - 2 * e.a.x;
        let dy = 2 * e.a.y - ball.y;
        let dx = 2 * e.a.x - ball.x;
        if k != 0 {
            lemma_scaled_between(k, dy, REACH as int);
        }
        assert(k * REACH - 0 * 0 == REACH * k) by (nonlinear_arith);
        assert(k * dy - 0 * dx == k * dy) by (nonlinear_arith);
        assert(0 * dy - REACH * dx == -REACH * dx) by (nonlinear_arith);
        assert(k * REACH == REACH * k) by (nonlinear_arith);
    } else {
        let k = 2 * e.b.y - 2 * e.a.y;
        let dy = 2 * e.a.y - ball.y;
        let dx = 2 * e.a.x - ball.x;
        if k != 0 {
            lemma_scaled_between(k, dx, REACH as int);
        }
        assert(0 * 0 - REACH * k == -(REACH * k)) by (nonlinear_arith);
        assert(0 * dy - k * dx == -(k * dx)) by (nonlinear_arith);
        assert(REACH * dy - 0 * dx == REACH * dy) by (nonlinear_arith);
        assert(k * REACH == REACH * k) by (nonlinear_arith);
    }
}

/// The ball has the point `p` in plain view: `p` lies on neither grid line through the
/// ball's centre, and no further than `REACH` half steps on the sides to which the rays
/// are cast.
pub open spec fn in_view(p: Point, ball: Ball) -> bool {
    &&& 2 * p.x != ball.x
    &&& 2 * p.y != ball.y
    &&& 2 * p.x <= ball.x + REACH
    &&& 2 * p.y <= ball.y + REACH
}

/// The ball has both ends of edge `i` in plain view.
pub open spec fn sees_edge(edges: Seq<Edge>, i: int, ball: Ball) -> bool {
    in_view(edges[i].a, ball) && in_view(edges[i].b, ball)
}

/// The ball has every corner of the boundary in plain view.
pub open spec fn sees(edges: Seq<Edge>, ball: Ball) -> bool {
    forall|i: int| 0 <= i < edges.len() ==> #[trigger] sees_edge(edges, i, ball)
}

/// Every edge runs along a grid line of the kind that its facing stands for.
pub open spec fn axial(edges: Seq<Edge>) -> bool {
    forall|i: int| 0 <= i < edges.len() ==> #[trigger] edges[i].axial()
}

/// `p` lies in the quarter of the plane between the two rays that the ball casts.
pub open spec fn beyond(p: Point, ball: Ball) -> bool {
    2 * p.x > ball.x && 2 * p.y > ball.y
}

/// An edge along a grid line whose ends the ball has in plain view is met by the ball's
/// ray exactly where one end lies between the rays and the other does not.
pub proof fn lemma_struck_leaves_quarter(e: Edge, ball: Ball)
    requires
        e.axial(),
        in_view(e.a, ball),
        in_view(e.b, ball),
    ensures
        e.struck_by(ball) == (beyond(e.a, ball) != beyond(e.b, ball)),
{
    lemma_struck_is_crossed(e, ball);
}

/// One where the flag is set, else none.
pub open spec fn one_if(b: bool) -> nat {
    if b {
        1
    } else {
        0
    }
}

/// The edges of both kinds that the ball's rays meet, counted.
pub open spec fn struck(edges: Seq<Edge>, ball: Ball) -> nat {
    strikes(edges, ball, true) + strikes(edges, ball, false)
}

/// Along a chain of edges whose corners the ball has in plain view, the rays are met an
/// odd number of times exactly where the chain starts on one side of them and ends on
/// the other.
pub proof fn lemma_chain_leaves_quarter(edges: Seq<Edge>, ball: Ball)
    requires
        edges.len() > 0,
        chained(edges),
        axial(edges),
        sees(edges, ball),
    ensures
        struck(edges, ball) % 2 == one_if(
            beyond(edges[0].a, ball) != beyond(edges.last().b, ball),
        ),
    decreases edges.len(),
{
    let e = edges.last();
    let head = edges.drop_last();
    let n = edges.len() as int;
    assert(e.axial());
    assert(sees_edge(edges, n - 1, ball));
    lemma_struck_leaves_quarter(e, ball);
    assert(struck(edges, ball) == struck(head, ball) + one_if(e.struck_by(ball)));
    if head.len() > 0 {
        assert forall|i: int| 0 <= i < head.len() - 1 implies #[trigger] joined(head, i) by {
            assert(joined(edges, i));
        }
        assert forall|i: int| 0 <= i < head.len() implies #[trigger] head[i].axial() by {
            assert(edges[i].axial());
        }
        assert forall|i: int| 0 <= i < head.len() implies #[trigger] sees_edge(head, i, ball) by {
            assert(sees_edge(edges, i, ball));
        }
        lemma_chain_leaves_quarter(head, ball);
        assert(joined(edges, n - 2));
        assert(head.last().b == e.a);
    } else {
        assert(strikes(head, ball, true) == 0);
        assert(strikes(head, ball, false) == 0);
    }
}

/// Round a loop whose corners the ball has in plain view, the two rays are met an even
/// number of times together: the ray along `y` meets an odd number of level edges exactly
/// where the ray along `x` meets an odd number of upright ones. The loop holds the ball
/// where either does.
pub proof fn lemma_rays_agree(edges: Seq<Edge>, ball: Ball)
    requires
        closed(edges),
        axial(edges),
        sees(edges, ball),
    ensures
        struck(edges, ball) % 2 == 0,
        encloses(edges, ball) == (strikes(edges, ball, true) % 2 == 1),
        encloses(edges, ball) == (strikes(edges, ball, false) % 2 == 1),
{
    lemma_chain_leaves_quarter(edges, ball);
}

} // verus!
