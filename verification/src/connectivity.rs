//! Connectedness of a set of rooms: every room can be reached from every
//! other one through a chain of rooms in which neighbours overlap.

use crate::rectangle::{overlapping, Rectangle};
use vstd::prelude::*;

verus! {

/// Whether the rooms at positions `s` and `s + 1` of a path overlap.
pub open spec fn linked(rooms: Seq<Rectangle>, path: Seq<int>, s: int) -> bool {
    overlapping(rooms[path[s]], rooms[path[s + 1]])
}

/// A chain is a non-empty path of room indices in which each room overlaps the next.
pub open spec fn is_chain(rooms: Seq<Rectangle>, path: Seq<int>) -> bool {
    &&& path.len() > 0
    &&& forall|s: int| 0 <= s < path.len() ==> 0 <= #[trigger] path[s] < rooms.len()
    &&& forall|s: int| 0 <= s < path.len() - 1 ==> #[trigger] linked(rooms, path, s)
}

/// Room `b` can be reached from room `a` through a chain.
pub open spec fn joined(rooms: Seq<Rectangle>, a: int, b: int) -> bool {
    exists|path: Seq<int>| #[trigger] is_chain(rooms, path) && path[0] == a && path.last() == b
}

/// The rooms form one connected cluster: any two of them are joined by a chain.
pub open spec fn connected(rooms: Seq<Rectangle>) -> bool {
    forall|a: int, b: int|
        0 <= a < rooms.len() && 0 <= b < rooms.len() ==> #[trigger] joined(rooms, a, b)
}

/// Every room is joined to itself.
pub proof fn lemma_joined_to_itself(rooms: Seq<Rectangle>, a: int)
    requires
        0 <= a < rooms.len(),
    ensures
        joined(rooms, a, a),
{
    let path = seq![a];
    assert(is_chain(rooms, path));
    assert(path[0] == a && path.last() == a);
}

/// Two rooms that overlap are joined.
pub proof fn lemma_joined_by_overlap(rooms: Seq<Rectangle>, a: int, b: int)
    requires
        0 <= a < rooms.len(),
        0 <= b < rooms.len(),
        overlapping(rooms[a], rooms[b]),
    ensures
        joined(rooms, a, b),
{
    let path = seq![a, b];
    assert forall|s: int| 0 <= s < path.len() - 1 implies #[trigger] linked(rooms, path, s) by {
        assert(s == 0);
    }
    assert(is_chain(rooms, path));
    assert(path[0] == a && path.last() == b);
}

/// Chains can be put end to end.
pub proof fn lemma_joined_transitive(rooms: Seq<Rectangle>, a: int, b: int, c: int)
    requires
        joined(rooms, a, b),
        joined(rooms, b, c),
    ensures
        joined(rooms, a, c),
{
    let p = choose|path: Seq<int>| #[trigger]
        is_chain(rooms, path) && path[0] == a && path.last() == b;
    let q = choose|path: Seq<int>| #[trigger]
        is_chain(rooms, path) && path[0] == b && path.last() == c;
    let path = p.drop_last() + q;
    let n = p.len() - 1;
    assert forall|s: int| 0 <= s < path.len() implies 0 <= #[trigger] path[s] < rooms.len() by {
        if s < n {
            assert(path[s] == p[s]);
        } else {
            assert(path[s] == q[s - n]);
        }
    }
    assert forall|s: int| 0 <= s < path.len() - 1 implies #[trigger] linked(rooms, path, s) by {
        if s + 1 < n {
            assert(linked(rooms, p, s));
        } else if s < n {
            assert(linked(rooms, p, s));
            assert(path[s + 1] == q[0]);
        } else {
            assert(linked(rooms, q, s - n));
        }
    }
    assert(is_chain(rooms, path));
    assert(path[0] == a) by {
        if n > 0 {
            assert(path[0] == p[0]);
        }
    }
    assert(path.last() == c);
}

/// A chain carries over to another sequence of rooms that holds the same
/// rooms `shift` places further on, as long as rooms that overlapped still do.
pub proof fn lemma_joined_carries_over(
    from: Seq<Rectangle>,
    to: Seq<Rectangle>,
    shift: int,
    a: int,
    b: int,
)
    requires
        joined(from, a, b),
        0 <= shift,
        from.len() + shift <= to.len(),
        forall|u: int, v: int|
            0 <= u < from.len() && 0 <= v < from.len() && overlapping(from[u], from[v])
                ==> overlapping(#[trigger] to[u + shift], #[trigger] to[v + shift]),
    ensures
        joined(to, a + shift, b + shift),
{
    let p = choose|path: Seq<int>| #[trigger]
        is_chain(from, path) && path[0] == a && path.last() == b;
    let path = Seq::new(p.len(), |s: int| p[s] + shift);
    assert forall|s: int| 0 <= s < path.len() - 1 implies #[trigger] linked(to, path, s) by {
        assert(linked(from, p, s));
        assert(overlapping(to[p[s] + shift], to[p[s + 1] + shift]));
    }
    assert(is_chain(to, path));
    assert(path[0] == a + shift && path.last() == b + shift);
}

/// Shifting two rectangles by the same amount does not change whether they overlap.
pub proof fn lemma_shift_keeps_overlap(
    a: Rectangle,
    b: Rectangle,
    a2: Rectangle,
    b2: Rectangle,
    dx: int,
    dy: int,
)
    requires
        a2.x == a.x + dx && a2.y == a.y + dy && a2.w == a.w && a2.h == a.h,
        b2.x == b.x + dx && b2.y == b.y + dy && b2.w == b.w && b2.h == b.h,
    ensures
        overlapping(a2, b2) == overlapping(a, b),
{
}

/// A connected cluster stays connected when it is shifted as a whole.
pub proof fn lemma_connected_after_shift(
    rooms: Seq<Rectangle>,
    after: Seq<Rectangle>,
    dx: int,
    dy: int,
)
    requires
        connected(rooms),
        after.len() == rooms.len(),
        forall|k: int|
            0 <= k < rooms.len() ==> {
                &&& (#[trigger] after[k]).x == rooms[k].x + dx
                &&& after[k].y == rooms[k].y + dy
                &&& after[k].w == rooms[k].w
                &&& after[k].h == rooms[k].h
            },
    ensures
        connected(after),
{
    assert forall|u: int, v: int|
        0 <= u < rooms.len() && 0 <= v < rooms.len() && overlapping(
            rooms[u],
            rooms[v],
        ) implies overlapping(#[trigger] after[u + 0], #[trigger] after[v + 0]) by {
        lemma_shift_keeps_overlap(rooms[u], rooms[v], after[u], after[v], dx, dy);
    }
    assert forall|a: int, b: int| 0 <= a < after.len() && 0 <= b < after.len() implies #[trigger]
        joined(after, a, b) by {
        assert(joined(rooms, a, b));
        lemma_joined_carries_over(rooms, after, 0, a, b);
    }
}

/// Two connected clusters that overlap somewhere form one connected cluster.
pub proof fn lemma_connected_after_union(g1: Seq<Rectangle>, g2: Seq<Rectangle>, a: int, b: int)
    requires
        connected(g1),
        connected(g2),
        0 <= a < g1.len(),
        0 <= b < g2.len(),
        overlapping(g1[a], g2[b]),
    ensures
        connected(g1 + g2),
{
    let all = g1 + g2;
    let n = g1.len() as int;
    assert forall|u: int, v: int|
        0 <= u < g1.len() && 0 <= v < g1.len() && overlapping(g1[u], g1[v]) implies overlapping(
        #[trigger] all[u + 0],
        #[trigger] all[v + 0],
    ) by {
        assert(all[u] == g1[u] && all[v] == g1[v]);
    }
    assert forall|u: int, v: int|
        0 <= u < g2.len() && 0 <= v < g2.len() && overlapping(g2[u], g2[v]) implies overlapping(
        #[trigger] all[u + n],
        #[trigger] all[v + n],
    ) by {
        assert(all[u + n] == g2[u] && all[v + n] == g2[v]);
    }
    assert(all[a] == g1[a] && all[b + n] == g2[b]);
    crate::rectangle::overlap_is_symmetric(g1[a], g2[b]);
    lemma_joined_by_overlap(all, a, b + n);
    lemma_joined_by_overlap(all, b + n, a);
    assert forall|u: int, v: int| 0 <= u < all.len() && 0 <= v < all.len() implies #[trigger]
        joined(all, u, v) by {
        if u < n {
            assert(joined(g1, u, a));
            lemma_joined_carries_over(g1, all, 0, u, a);
        } else {
            assert(joined(g2, u - n, b));
            lemma_joined_carries_over(g2, all, n, u - n, b);
        }
        if v < n {
            assert(joined(g1, a, v));
            lemma_joined_carries_over(g1, all, 0, a, v);
        } else {
            assert(joined(g2, b, v - n));
            lemma_joined_carries_over(g2, all, n, b, v - n);
        }
        if u < n && v < n {
            lemma_joined_transitive(all, u, a, v);
        } else if u < n {
            lemma_joined_transitive(all, u, a, b + n);
            lemma_joined_transitive(all, u, b + n, v);
        } else if v < n {
            lemma_joined_transitive(all, u, b + n, a);
            lemma_joined_transitive(all, u, a, v);
        } else {
            lemma_joined_transitive(all, u, b + n, v);
        }
    }
}

/// A single room is connected.
pub proof fn lemma_single_room_connected(room: Rectangle)
    ensures
        connected(seq![room]),
{
    assert forall|a: int, b: int| 0 <= a < 1 && 0 <= b < 1 implies #[trigger] joined(
        seq![room],
        a,
        b,
    ) by {
        lemma_joined_to_itself(seq![room], 0);
    }
}

} // verus!
