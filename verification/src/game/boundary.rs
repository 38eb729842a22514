//! What makes a sequence of edges the boundary of a region.

use vstd::prelude::*;
use crate::game::edge::Edge;
use crate::game::facing::Facing;
use crate::game::point::Point;
use crate::game::wall::rotated;

verus! {

/// Edge `i` ends where edge `i + 1` starts.
pub open spec fn joined(edges: Seq<Edge>, i: int) -> bool {
    edges[i].b == edges[i + 1].a
}

/// Each edge ends where the next one starts.
pub open spec fn chained(edges: Seq<Edge>) -> bool {
    forall|i: int| 0 <= i < edges.len() - 1 ==> #[trigger] joined(edges, i)
}

/// The edges form a loop: each ends where the next one starts, and the last one where
/// the first one starts.
pub open spec fn closed(edges: Seq<Edge>) -> bool {
    edges.len() > 0 && chained(edges) && edges.last().b == edges[0].a
}

/// Every edge runs along a grid line, has length, and has the region on its right.
pub open spec fn rectilinear(edges: Seq<Edge>) -> bool {
    forall|i: int| 0 <= i < edges.len() ==> #[trigger] edges[i].aligned()
}

/// The index of the edge that follows edge `i` round the loop.
pub open spec fn following(edges: Seq<Edge>, i: int) -> int {
    if i + 1 == edges.len() {
        0
    } else {
        i + 1
    }
}

/// The index of the edge before edge `i` round the loop.
pub open spec fn preceding(edges: Seq<Edge>, i: int) -> int {
    if i == 0 {
        edges.len() - 1
    } else {
        i - 1
    }
}

/// The boundary turns by a quarter at the end of edge `i`.
pub open spec fn turns_at(edges: Seq<Edge>, i: int) -> bool {
    let n = edges[i].n;
    let m = edges[following(edges, i)].n;
    m == n.turned(1) || m == n.turned(-1)
}

/// The boundary turns by a quarter at every corner: no two edges in a row run along the
/// same line.
pub open spec fn turning(edges: Seq<Edge>) -> bool {
    forall|i: int| 0 <= i < edges.len() ==> #[trigger] turns_at(edges, i)
}

/// The edges `i` and `j` share the point `p`.
pub open spec fn share(edges: Seq<Edge>, i: int, j: int, p: Point) -> bool {
    edges[i].holds(p) && edges[j].holds(p)
}

/// The loop does not touch itself: two edges share a point only where one follows the
/// other, and then only the corner between them. Only grid points are asked about: two
/// edges along grid lines that share any point share a grid point.
pub open spec fn simple(edges: Seq<Edge>) -> bool {
    forall|i: int, j: int, p: Point|
        0 <= i < j < edges.len() && #[trigger] share(edges, i, j, p) ==> (j == i + 1 && p
            == edges[i].b) || (i == 0 && j == edges.len() - 1 && p == edges[0].a)
}

/// A boundary as the engine is meant to be given it: a closed loop of edges along grid
/// lines, walked clockwise, that turns at every corner.
pub open spec fn sound(edges: Seq<Edge>) -> bool {
    closed(edges) && rectilinear(edges) && turning(edges)
}

/// Two chains of which the first ends where the second starts make one chain.
pub proof fn lemma_chains_join(s: Seq<Edge>, t: Seq<Edge>)
    requires
        chained(s),
        chained(t),
        s.len() > 0 && t.len() > 0 ==> s.last().b == t[0].a,
    ensures
        chained(s + t),
{
    let u = s + t;
    assert forall|i: int| 0 <= i < u.len() - 1 implies #[trigger] joined(u, i) by {
        if i + 1 < s.len() {
            assert(joined(s, i));
        } else if i >= s.len() {
            assert(joined(t, i - s.len()));
        }
    }
}

/// A part of a chain is a chain.
pub proof fn lemma_subchain(s: Seq<Edge>, from: int, to: int)
    requires
        chained(s),
        0 <= from <= to <= s.len(),
    ensures
        chained(s.subrange(from, to)),
{
    let u = s.subrange(from, to);
    assert forall|i: int| 0 <= i < u.len() - 1 implies #[trigger] joined(u, i) by {
        assert(joined(s, from + i));
    }
}

/// A loop stays a loop when its last `k` edges are moved to the front.
pub proof fn lemma_rotation_keeps_loop(s: Seq<Edge>, k: int)
    requires
        closed(s),
        0 <= k <= s.len(),
    ensures
        closed(rotated(s, k)),
{
    let n = s.len() as int;
    let back = s.subrange(n - k, n);
    let front = s.subrange(0, n - k);
    lemma_subchain(s, n - k, n);
    lemma_subchain(s, 0, n - k);
    lemma_chains_join(back, front);
    if 0 < k < n {
        assert(joined(s, n - k - 1));
    }
}

/// The place in `s` of edge `q` of `s` rotated by `k`.
pub open spec fn unrotated(s: Seq<Edge>, k: int, q: int) -> int {
    if q < k {
        s.len() - k + q
    } else {
        q - k
    }
}

/// A sound boundary stays sound when its last `k` edges are moved to the front.
pub proof fn lemma_rotation_keeps_sound(s: Seq<Edge>, k: int)
    requires
        sound(s),
        0 <= k <= s.len(),
    ensures
        sound(rotated(s, k)),
{
    let n = s.len() as int;
    let r = rotated(s, k);
    lemma_rotation_keeps_loop(s, k);
    assert forall|q: int| 0 <= q < r.len() implies #[trigger] r[q].aligned() by {
        assert(r[q] == s[unrotated(s, k, q)]);
        assert(s[unrotated(s, k, q)].aligned());
    }
    assert forall|q: int| 0 <= q < r.len() implies #[trigger] turns_at(r, q) by {
        let m = unrotated(s, k, q);
        assert(r[q] == s[m]);
        assert(r[following(r, q)] == s[unrotated(s, k, following(r, q))]);
        assert(unrotated(s, k, following(r, q)) == following(s, m));
        assert(turns_at(s, m));
    }
}

/// A loop that does not touch itself still does not when its last `k` edges are moved to
/// the front.
pub proof fn lemma_rotation_keeps_simple(s: Seq<Edge>, k: int)
    requires
        closed(s),
        simple(s),
        0 <= k <= s.len(),
    ensures
        simple(rotated(s, k)),
{
    let n = s.len() as int;
    let r = rotated(s, k);
    assert forall|q: int, t: int, p: Point|
        0 <= q < t < r.len() && #[trigger] share(r, q, t, p) implies (t == q + 1 && p == r[q].b)
        || (q == 0 && t == r.len() - 1 && p == r[0].a) by {
        let i = unrotated(s, k, q);
        let j = unrotated(s, k, t);
        assert(r[q] == s[i]);
        assert(r[t] == s[j]);
        if i < j {
            assert(share(s, i, j, p));
            if j == i + 1 {
            } else {
                assert(i == 0 && j == n - 1);
            }
        } else {
            assert(share(s, j, i, p));
            if i == j + 1 {
                assert(joined(s, j));
            }
        }
    }
}

/// In a sound boundary each edge ends where the edge that follows it round the loop
/// starts, and that edge is another one.
pub proof fn lemma_round_the_loop(edges: Seq<Edge>, i: int)
    requires
        sound(edges),
        0 <= i < edges.len(),
    ensures
        edges.len() >= 2,
        0 <= following(edges, i) < edges.len(),
        0 <= preceding(edges, i) < edges.len(),
        following(edges, i) != i,
        preceding(edges, i) != i,
        edges[i].b == edges[following(edges, i)].a,
        edges[preceding(edges, i)].b == edges[i].a,
{
    assert(edges[i].aligned());
    if i + 1 < edges.len() {
        assert(joined(edges, i));
    }
    if i > 0 {
        assert(joined(edges, i - 1));
    }
}

/// Whether the edge runs along a grid line, has length, and has the region on its right.
pub fn is_aligned(e: &Edge) -> (r: bool)
    ensures
        r == e.aligned(),
{
    match e.n {
        Facing::Down => e.a.y == e.b.y && e.a.x < e.b.x,
        Facing::Left => e.a.x == e.b.x && e.a.y < e.b.y,
        Facing::Up => e.a.y == e.b.y && e.a.x > e.b.x,
        Facing::Right => e.a.x == e.b.x && e.a.y > e.b.y,
    }
}

/// Whether the boundary is sound.
pub fn is_sound(edges: &Vec<Edge>) -> (r: bool)
    ensures
        r == sound(edges@),
{
    let n: usize = edges.len();
    if n == 0 {
        return false;
    }
    let mut i: usize = 0;
    while i < n
        invariant
            n == edges@.len(),
            0 < n,
            i <= n,
            forall|j: int| 0 <= j < i ==> #[trigger] edges@[j].aligned(),
            forall|j: int| 0 <= j < i ==> #[trigger] turns_at(edges@, j),
            forall|j: int| 0 <= j < i && j < n - 1 ==> #[trigger] joined(edges@, j),
            i == n ==> edges@.last().b == edges@[0].a,
        decreases n - i,
    {
        let e: Edge = edges[i];
        let next: Edge = if i + 1 == n {
            edges[0]
        } else {
            edges[i + 1]
        };
        if !is_aligned(&e) {
            assert(!edges@[i as int].aligned());
            return false;
        }
        if e.b != next.a {
            proof {
                if i + 1 < n {
                    assert(!joined(edges@, i as int));
                }
            }
            return false;
        }
        if !(next.n == e.n.clockwise() || next.n == e.n.anticlockwise()) {
            assert(!turns_at(edges@, i as int));
            return false;
        }
        proof {
            assert(turns_at(edges@, i as int));
            if i + 1 < n {
                assert(joined(edges@, i as int));
            }
        }
        i += 1;
    }
    true
}

} // verus!
