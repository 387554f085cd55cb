//! Wall regions: the overlaps between the rooms of a settled layout.

use crate::rectangle::{intersection, overlap, overlapping, pairwise_disjoint, Rectangle};
use vstd::prelude::*;

verus! {

/// The overlaps of room `i` with the rooms at positions `from` and later, in
/// the order of those rooms.
pub open spec fn overlaps_with_later(rooms: Seq<Rectangle>, i: int, from: int) -> Seq<Rectangle>
    decreases rooms.len() - from,
{
    if from >= rooms.len() {
        Seq::empty()
    } else {
        match overlap(rooms[i], rooms[from]) {
            Some(shared) => seq![shared] + overlaps_with_later(rooms, i, from + 1),
            None => overlaps_with_later(rooms, i, from + 1),
        }
    }
}

/// The overlaps of all pairs of rooms whose first room is at position `i` or
/// later: first those of room `i` with each later room, then those of room
/// `i + 1`, and so on.
pub open spec fn pair_overlaps_from(rooms: Seq<Rectangle>, i: int) -> Seq<Rectangle>
    decreases rooms.len() - i,
{
    if i >= rooms.len() {
        Seq::empty()
    } else {
        overlaps_with_later(rooms, i, i + 1) + pair_overlaps_from(rooms, i + 1)
    }
}

/// The overlaps of all pairs of distinct rooms. Pairs are taken with the
/// earlier room first, ordered by the earlier room and then by the later
/// one. Every overlapping pair contributes its own entry.
pub open spec fn pair_overlaps(rooms: Seq<Rectangle>) -> Seq<Rectangle> {
    pair_overlaps_from(rooms, 0)
}

/// The pairs that room `i` forms with the rooms at positions `from` and later
/// that it overlaps, in the order of those rooms.
pub open spec fn pairs_with_later(rooms: Seq<Rectangle>, i: int, from: int) -> Seq<(int, int)>
    decreases rooms.len() - from,
{
    if from >= rooms.len() {
        Seq::empty()
    } else if overlapping(rooms[i], rooms[from]) {
        seq![(i, from)] + pairs_with_later(rooms, i, from + 1)
    } else {
        pairs_with_later(rooms, i, from + 1)
    }
}

/// The pairs of overlapping rooms whose first room is at position `i` or later.
pub open spec fn overlapping_pairs_from(rooms: Seq<Rectangle>, i: int) -> Seq<(int, int)>
    decreases rooms.len() - i,
{
    if i >= rooms.len() {
        Seq::empty()
    } else {
        pairs_with_later(rooms, i, i + 1) + overlapping_pairs_from(rooms, i + 1)
    }
}

/// The pairs of positions whose rooms overlap, the earlier position first.
pub open spec fn overlapping_pairs(rooms: Seq<Rectangle>) -> Seq<(int, int)> {
    overlapping_pairs_from(rooms, 0)
}

/// The order of pairs: by the first position, then by the second.
pub open spec fn comes_before(p: (int, int), q: (int, int)) -> bool {
    p.0 < q.0 || (p.0 == q.0 && p.1 < q.1)
}

/// Collects the overlap of every pair of distinct rooms that share area.
pub fn find_intersections(rectangles: &[Rectangle]) -> (intersections: Vec<Rectangle>)
    ensures
        intersections@ == pair_overlaps(rectangles@),
        forall|k: int|
            0 <= k < intersections.len() ==> (#[trigger] intersections@[k]).occupies_space(),
        intersections.len() == 0 <==> pairwise_disjoint(rectangles@),
{
    let mut intersections: Vec<Rectangle> = Vec::new();
    let mut i: usize = 0;
    while i < rectangles.len()
        invariant
            i <= rectangles.len(),
            intersections@ + pair_overlaps_from(rectangles@, i as int) == pair_overlaps(
                rectangles@,
            ),
        decreases rectangles.len() - i,
    {
        let mut j: usize = i + 1;
        while j < rectangles.len()
            invariant
                i < rectangles.len(),
                i < j <= rectangles.len(),
                intersections@ + overlaps_with_later(rectangles@, i as int, j as int)
                    + pair_overlaps_from(rectangles@, i + 1) == pair_overlaps(rectangles@),
            decreases rectangles.len() - j,
        {
            let ghost collected = intersections@;
            if let Some(shared) = intersection(&rectangles[i], &rectangles[j]) {
                intersections.push(shared);
                assert(intersections@ + overlaps_with_later(rectangles@, i as int, j + 1)
                    =~= collected + overlaps_with_later(rectangles@, i as int, j as int));
            }
            j += 1;
        }
        assert(intersections@ + overlaps_with_later(rectangles@, i as int, j as int)
            =~= intersections@);
        i += 1;
    }
    assert(intersections@ + pair_overlaps_from(rectangles@, i as int) =~= intersections@);
    proof {
        lemma_pair_overlaps_from(rectangles@, 0);
    }
    intersections
}

/// The overlaps of one room with later rooms all occupy space, and there are
/// none exactly when the room overlaps none of those rooms.
pub proof fn lemma_overlaps_with_later(rooms: Seq<Rectangle>, i: int, from: int)
    requires
        0 <= i < rooms.len(),
        0 <= from,
    ensures
        forall|k: int|
            0 <= k < overlaps_with_later(rooms, i, from).len() ==> (#[trigger] overlaps_with_later(
                rooms,
                i,
                from,
            )[k]).occupies_space(),
        overlaps_with_later(rooms, i, from).len() == 0 <==> forall|j: int|
            from <= j < rooms.len() ==> !overlapping(rooms[i], #[trigger] rooms[j]),
    decreases rooms.len() - from,
{
    if from < rooms.len() {
        lemma_overlaps_with_later(rooms, i, from + 1);
        if overlaps_with_later(rooms, i, from).len() == 0 {
            assert forall|j: int| from <= j < rooms.len() implies !overlapping(
                rooms[i],
                #[trigger] rooms[j],
            ) by {
                if j > from {
                    assert(from + 1 <= j);
                }
            }
        }
    }
}

/// The overlaps of all pairs all occupy space, and there are none exactly
/// when no two rooms overlap.
pub proof fn lemma_pair_overlaps_from(rooms: Seq<Rectangle>, i: int)
    requires
        0 <= i,
    ensures
        forall|k: int|
            0 <= k < pair_overlaps_from(rooms, i).len() ==> (#[trigger] pair_overlaps_from(
                rooms,
                i,
            )[k]).occupies_space(),
        pair_overlaps_from(rooms, i).len() == 0 <==> forall|a: int, b: int|
            i <= a < b < rooms.len() ==> !overlapping(#[trigger] rooms[a], #[trigger] rooms[b]),
    decreases rooms.len() - i,
{
    if i < rooms.len() {
        lemma_overlaps_with_later(rooms, i, i + 1);
        lemma_pair_overlaps_from(rooms, i + 1);
        let head = overlaps_with_later(rooms, i, i + 1);
        let tail = pair_overlaps_from(rooms, i + 1);
        assert forall|k: int| 0 <= k < pair_overlaps_from(rooms, i).len() implies (
        #[trigger] pair_overlaps_from(rooms, i)[k]).occupies_space() by {
            if k < head.len() {
                assert(pair_overlaps_from(rooms, i)[k] == head[k]);
            } else {
                assert(pair_overlaps_from(rooms, i)[k] == tail[k - head.len()]);
            }
        }
        if pair_overlaps_from(rooms, i).len() == 0 {
            assert forall|a: int, b: int| i <= a < b < rooms.len() implies !overlapping(
                #[trigger] rooms[a],
                #[trigger] rooms[b],
            ) by {
                if a > i {
                    assert(i + 1 <= a);
                }
            }
        }
    }
}

/// The pairs of one room with later rooms: there is one for each wall of
/// that room, they name exactly the later rooms that it overlaps, and they
/// come in the order of those rooms.
pub proof fn lemma_pairs_with_later(rooms: Seq<Rectangle>, i: int, from: int)
    requires
        0 <= i < from,
        i < rooms.len(),
    ensures
        pairs_with_later(rooms, i, from).len() == overlaps_with_later(rooms, i, from).len(),
        forall|k: int|
            0 <= k < pairs_with_later(rooms, i, from).len() ==> {
                let p = #[trigger] pairs_with_later(rooms, i, from)[k];
                &&& p.0 == i
                &&& from <= p.1 < rooms.len()
                &&& overlap(rooms[i], rooms[p.1]) == Some(overlaps_with_later(rooms, i, from)[k])
            },
        forall|k: int, m: int|
            0 <= k < m < pairs_with_later(rooms, i, from).len() ==> (#[trigger] pairs_with_later(
                rooms,
                i,
                from,
            )[k]).1 < (#[trigger] pairs_with_later(rooms, i, from)[m]).1,
        forall|j: int|
            from <= j < rooms.len() && overlapping(rooms[i], #[trigger] rooms[j]) ==> exists|k: int|
                0 <= k < pairs_with_later(rooms, i, from).len() && #[trigger] pairs_with_later(
                    rooms,
                    i,
                    from,
                )[k] == (i, j),
    decreases rooms.len() - from,
{
    if from < rooms.len() {
        lemma_pairs_with_later(rooms, i, from + 1);
        let pairs = pairs_with_later(rooms, i, from);
        let rest = pairs_with_later(rooms, i, from + 1);
        let walls = overlaps_with_later(rooms, i, from);
        let hit = overlapping(rooms[i], rooms[from]);
        let d: int = if hit { 1 } else { 0 };
        assert forall|k: int| 0 <= k < pairs.len() implies {
            let p = #[trigger] pairs[k];
            &&& p.0 == i
            &&& from <= p.1 < rooms.len()
            &&& overlap(rooms[i], rooms[p.1]) == Some(walls[k])
        } by {
            if k >= d {
                assert(pairs[k] == rest[k - d]);
            }
        }
        assert forall|k: int, m: int| 0 <= k < m < pairs.len() implies (#[trigger] pairs[k]).1 < (
        #[trigger] pairs[m]).1 by {
            assert(pairs[m] == rest[m - d]);
            if k >= d {
                assert(pairs[k] == rest[k - d]);
            }
        }
        assert forall|j: int|
            from <= j < rooms.len() && overlapping(rooms[i], #[trigger] rooms[j]) implies exists|
            k: int,
        |
            0 <= k < pairs.len() && #[trigger] pairs[k] == (i, j) by {
            if j == from {
                assert(pairs[0] == (i, j));
            } else {
                let k = choose|k: int| 0 <= k < rest.len() && #[trigger] rest[k] == (i, j);
                assert(pairs[k + d] == rest[k]);
            }
        }
    }
}

/// The pairs behind the walls: there is one pair for each wall, the wall is
/// the overlap of the pair's rooms, the pairs are exactly the pairs of
/// overlapping rooms, and they come ordered by the earlier room and then by
/// the later one.
pub proof fn lemma_overlapping_pairs_from(rooms: Seq<Rectangle>, i: int)
    requires
        0 <= i,
    ensures
        overlapping_pairs_from(rooms, i).len() == pair_overlaps_from(rooms, i).len(),
        forall|k: int|
            0 <= k < overlapping_pairs_from(rooms, i).len() ==> {
                let p = #[trigger] overlapping_pairs_from(rooms, i)[k];
                &&& i <= p.0 < p.1 < rooms.len()
                &&& overlap(rooms[p.0], rooms[p.1]) == Some(pair_overlaps_from(rooms, i)[k])
            },
        forall|k: int, m: int|
            0 <= k < m < overlapping_pairs_from(rooms, i).len() ==> comes_before(
                #[trigger] overlapping_pairs_from(rooms, i)[k],
                #[trigger] overlapping_pairs_from(rooms, i)[m],
            ),
        forall|a: int, b: int|
            i <= a < b < rooms.len() && overlapping(#[trigger] rooms[a], #[trigger] rooms[b])
                ==> exists|k: int|
                0 <= k < overlapping_pairs_from(rooms, i).len() && #[trigger] overlapping_pairs_from(
                    rooms,
                    i,
                )[k] == (a, b),
    decreases rooms.len() - i,
{
    if i < rooms.len() {
        lemma_pairs_with_later(rooms, i, i + 1);
        lemma_overlapping_pairs_from(rooms, i + 1);
        let pairs = overlapping_pairs_from(rooms, i);
        let head = pairs_with_later(rooms, i, i + 1);
        let tail = overlapping_pairs_from(rooms, i + 1);
        let walls = pair_overlaps_from(rooms, i);
        let n = head.len() as int;
        assert forall|k: int| 0 <= k < pairs.len() implies {
            let p = #[trigger] pairs[k];
            &&& i <= p.0 < p.1 < rooms.len()
            &&& overlap(rooms[p.0], rooms[p.1]) == Some(walls[k])
        } by {
            if k < n {
                assert(pairs[k] == head[k]);
            } else {
                assert(pairs[k] == tail[k - n]);
            }
        }
        assert forall|k: int, m: int| 0 <= k < m < pairs.len() implies comes_before(
            #[trigger] pairs[k],
            #[trigger] pairs[m],
        ) by {
            if m < n {
                assert(pairs[k] == head[k] && pairs[m] == head[m]);
            } else if k < n {
                assert(pairs[k] == head[k] && pairs[m] == tail[m - n]);
            } else {
                assert(pairs[k] == tail[k - n] && pairs[m] == tail[m - n]);
            }
        }
        assert forall|a: int, b: int|
            i <= a < b < rooms.len() && overlapping(
                #[trigger] rooms[a],
                #[trigger] rooms[b],
            ) implies exists|k: int| 0 <= k < pairs.len() && #[trigger] pairs[k] == (a, b) by {
            if a == i {
                let k = choose|k: int| 0 <= k < head.len() && #[trigger] head[k] == (i, b);
                assert(pairs[k] == head[k]);
            } else {
                let k = choose|k: int| 0 <= k < tail.len() && #[trigger] tail[k] == (a, b);
                assert(pairs[k + n] == tail[k]);
            }
        }
    }
}

/// The walls follow the pairs of overlapping rooms: wall `k` is the overlap
/// of the rooms of pair `k`, each pair of overlapping rooms occurs, the
/// earlier room first, and the pairs are ordered by the earlier room and
/// then by the later one.
pub proof fn walls_follow_pair_order(rooms: Seq<Rectangle>)
    ensures
        overlapping_pairs(rooms).len() == pair_overlaps(rooms).len(),
        forall|k: int|
            0 <= k < overlapping_pairs(rooms).len() ==> {
                let p = #[trigger] overlapping_pairs(rooms)[k];
                &&& 0 <= p.0 < p.1 < rooms.len()
                &&& overlap(rooms[p.0], rooms[p.1]) == Some(pair_overlaps(rooms)[k])
            },
        forall|k: int, m: int|
            0 <= k < m < overlapping_pairs(rooms).len() ==> comes_before(
                #[trigger] overlapping_pairs(rooms)[k],
                #[trigger] overlapping_pairs(rooms)[m],
            ),
        forall|a: int, b: int|
            0 <= a < b < rooms.len() && overlapping(#[trigger] rooms[a], #[trigger] rooms[b])
                ==> exists|k: int|
                0 <= k < overlapping_pairs(rooms).len() && #[trigger] overlapping_pairs(rooms)[k]
                    == (a, b),
{
    lemma_overlapping_pairs_from(rooms, 0);
}

/// Extraction is repeatable: equal room lists give the same wall regions in
/// the same order.
pub proof fn extraction_is_repeatable(first: Seq<Rectangle>, second: Seq<Rectangle>)
    requires
        first == second,
    ensures
        pair_overlaps(first) == pair_overlaps(second),
{
}

/// Rooms of which no two overlap have no wall regions, and only they.
pub proof fn no_walls_without_overlap(rooms: Seq<Rectangle>)
    ensures
        pair_overlaps(rooms).len() == 0 <==> pairwise_disjoint(rooms),
{
    lemma_pair_overlaps_from(rooms, 0);
}

} // verus!
