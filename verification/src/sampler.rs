//! Rejection sampling of rooms that do not overlap.
//!
//! A batch is filled room by room. Each room is drawn at random; while it
//! overlaps a room already placed it is given a new position, and when too
//! many positions in a row have failed the whole batch is given up.

use crate::rectangle::{
    intersects_any, overlap_is_symmetric, overlapping, overlaps_any, pairwise_disjoint, Rectangle,
};
use crate::rng::SeededRng;
use vstd::prelude::*;

verus! {

/// How many new positions a room may have been given when it is tested
/// again: a room that still overlaps after more than this many ends the batch.
pub const TRIAL_CEILING: usize = 3000;

/// The coordinate that a draw from `0..map_size` stands for: the map is
/// centred on the origin.
pub open spec fn centred(drawn: u32, map_size: u32) -> int {
    drawn - map_size / 2
}

/// A rectangle as the sampler draws them: its corner lies on the map, which
/// spans `map_size` units centred on the origin along each axis, and each
/// side is at least `min_size` and less than `max_size` long.
pub open spec fn within_map(r: Rectangle, map_size: u32, min_size: u32, max_size: u32) -> bool {
    &&& centred(0, map_size) <= r.x < centred(map_size, map_size)
    &&& centred(0, map_size) <= r.y < centred(map_size, map_size)
    &&& min_size <= r.w < max_size
    &&& min_size <= r.h < max_size
}

/// The next coordinate that a source gives, and the source after the draw.
pub open spec fn drawn_coordinate(rng: SeededRng, map_size: u32) -> (i32, SeededRng) {
    let drawn = rng.draw(0, map_size);
    (centred(drawn.0, map_size) as i32, drawn.1)
}

/// The next position that a source gives: first `x`, then `y`.
pub open spec fn drawn_position(rng: SeededRng, map_size: u32) -> ((i32, i32), SeededRng) {
    let x = drawn_coordinate(rng, map_size);
    let y = drawn_coordinate(x.1, map_size);
    ((x.0, y.0), y.1)
}

/// The next candidate room that a source gives: a position, then a width,
/// then a height.
pub open spec fn drawn_candidate(rng: SeededRng, map_size: u32, min_size: u32, max_size: u32) -> (
    Rectangle,
    SeededRng,
) {
    let position = drawn_position(rng, map_size);
    let w = position.1.draw(min_size, max_size);
    let h = w.1.draw(min_size, max_size);
    (Rectangle { x: position.0.0, y: position.0.1, w: w.0, h: h.0 }, h.1)
}

/// Where a candidate ends up among the rooms already placed, and the source
/// afterwards. A candidate that overlaps none of them stays. Otherwise it is
/// given a new position, its size unchanged, and tried again, unless it has
/// been moved more than `TRIAL_CEILING` times already: then there is no place for it.
pub open spec fn settled_candidate(
    rng: SeededRng,
    candidate: Rectangle,
    placed: Seq<Rectangle>,
    map_size: u32,
    trial: nat,
) -> (Option<Rectangle>, SeededRng)
    decreases TRIAL_CEILING + 1 - trial,
{
    if !overlaps_any(candidate, placed) {
        (Some(candidate), rng)
    } else if trial > TRIAL_CEILING {
        (None, rng)
    } else {
        let position = drawn_position(rng, map_size);
        settled_candidate(
            position.1,
            Rectangle { x: position.0.0, y: position.0.1, w: candidate.w, h: candidate.h },
            placed,
            map_size,
            trial + 1,
        )
    }
}

/// The batch that grows out of `placed` when `remaining` more rooms are
/// sampled, and the source afterwards. There is no batch when one of the
/// rooms finds no place.
pub open spec fn sampled_batch(
    rng: SeededRng,
    placed: Seq<Rectangle>,
    remaining: nat,
    map_size: u32,
    min_size: u32,
    max_size: u32,
) -> (Option<Seq<Rectangle>>, SeededRng)
    decreases remaining,
{
    if remaining == 0 {
        (Some(placed), rng)
    } else {
        let candidate = drawn_candidate(rng, map_size, min_size, max_size);
        let settled = settled_candidate(candidate.1, candidate.0, placed, map_size, 0);
        match settled.0 {
            Some(room) => sampled_batch(
                settled.1,
                placed.push(room),
                (remaining - 1) as nat,
                map_size,
                min_size,
                max_size,
            ),
            None => (None, settled.1),
        }
    }
}

/// A candidate that has found its place overlaps none of the rooms placed
/// before it, and has kept its size.
pub proof fn lemma_settled_candidate(
    rng: SeededRng,
    candidate: Rectangle,
    placed: Seq<Rectangle>,
    map_size: u32,
    trial: nat,
)
    ensures
        settled_candidate(rng, candidate, placed, map_size, trial).0 matches Some(room) ==> {
            &&& !overlaps_any(room, placed)
            &&& room.w == candidate.w
            &&& room.h == candidate.h
        },
    decreases TRIAL_CEILING + 1 - trial,
{
    if overlaps_any(candidate, placed) && trial <= TRIAL_CEILING {
        let position = drawn_position(rng, map_size);
        lemma_settled_candidate(
            position.1,
            Rectangle { x: position.0.0, y: position.0.1, w: candidate.w, h: candidate.h },
            placed,
            map_size,
            trial + 1,
        );
    }
}

/// A batch that grows out of rooms that do not overlap holds those rooms
/// first, has as many more as were asked for, and no two of its rooms overlap.
pub proof fn lemma_sampled_batch(
    rng: SeededRng,
    placed: Seq<Rectangle>,
    remaining: nat,
    map_size: u32,
    min_size: u32,
    max_size: u32,
)
    requires
        pairwise_disjoint(placed),
    ensures
        sampled_batch(rng, placed, remaining, map_size, min_size, max_size).0 matches Some(rooms)
            ==> {
            &&& rooms.len() == placed.len() + remaining
            &&& rooms.take(placed.len() as int) == placed
            &&& pairwise_disjoint(rooms)
        },
    decreases remaining,
{
    if remaining == 0 {
        assert(placed.take(placed.len() as int) =~= placed);
    } else {
        let candidate = drawn_candidate(rng, map_size, min_size, max_size);
        let settled = settled_candidate(candidate.1, candidate.0, placed, map_size, 0);
        lemma_settled_candidate(candidate.1, candidate.0, placed, map_size, 0);
        if let Some(room) = settled.0 {
            let grown = placed.push(room);
            assert forall|i: int, j: int| 0 <= i < j < grown.len() implies !overlapping(
                #[trigger] grown[i],
                #[trigger] grown[j],
            ) by {
                if j == placed.len() {
                    assert(grown[i] == placed[i]);
                    overlap_is_symmetric(room, placed[i]);
                } else {
                    assert(grown[i] == placed[i] && grown[j] == placed[j]);
                }
            }
            lemma_sampled_batch(
                settled.1,
                grown,
                (remaining - 1) as nat,
                map_size,
                min_size,
                max_size,
            );
            let batch = sampled_batch(rng, placed, remaining, map_size, min_size, max_size).0;
            if let Some(rooms) = batch {
                assert(rooms.take(placed.len() as int) =~= rooms.take(grown.len() as int).take(
                    placed.len() as int,
                ));
                assert(grown.take(placed.len() as int) =~= placed);
            }
        }
    }
}

/// No two rooms of a sampled batch overlap, and the batch has as many rooms
/// as were asked for.
pub proof fn sampled_rooms_never_overlap(
    rng: SeededRng,
    n: nat,
    map_size: u32,
    min_size: u32,
    max_size: u32,
)
    ensures
        sampled_batch(rng, Seq::empty(), n, map_size, min_size, max_size).0 matches Some(rooms)
            ==> rooms.len() == n && pairwise_disjoint(rooms),
{
    lemma_sampled_batch(rng, Seq::empty(), n, map_size, min_size, max_size);
}

/// Sampling is repeatable: sources in the same state give, for the same
/// parameters, the same batch, and are in the same state afterwards.
pub proof fn sampling_is_repeatable(
    first: SeededRng,
    second: SeededRng,
    n: nat,
    map_size: u32,
    min_size: u32,
    max_size: u32,
)
    requires
        first == second,
    ensures
        sampled_batch(first, Seq::empty(), n, map_size, min_size, max_size) == sampled_batch(
            second,
            Seq::empty(),
            n,
            map_size,
            min_size,
            max_size,
        ),
{
}

/// Turns a draw from `0..map_size` into a coordinate on the map.
pub fn coordinate_from_draw(drawn: u32, map_size: u32) -> (c: i32)
    requires
        drawn < map_size,
    ensures
        c == centred(drawn, map_size),
{
    (drawn as i64 - (map_size / 2) as i64) as i32
}

/// Draws a coordinate on the map.
pub fn draw_coordinate(rng: &mut SeededRng, map_size: u32) -> (c: i32)
    requires
        map_size > 0,
    ensures
        (c, *final(rng)) == drawn_coordinate(*old(rng), map_size),
        centred(0, map_size) <= c < centred(map_size, map_size),
{
    let drawn = rng.gen_range(0, map_size);
    coordinate_from_draw(drawn, map_size)
}

/// Draws a position on the map.
pub fn draw_position(rng: &mut SeededRng, map_size: u32) -> (position: (i32, i32))
    requires
        map_size > 0,
    ensures
        (position, *final(rng)) == drawn_position(*old(rng), map_size),
        centred(0, map_size) <= position.0 < centred(map_size, map_size),
        centred(0, map_size) <= position.1 < centred(map_size, map_size),
{
    let x = draw_coordinate(rng, map_size);
    let y = draw_coordinate(rng, map_size);
    (x, y)
}

/// Draws a candidate room: a position on the map and a size.
pub fn draw_candidate(rng: &mut SeededRng, map_size: u32, min_size: u32, max_size: u32) -> (candidate:
    Rectangle)
    requires
        map_size > 0,
        min_size < max_size,
    ensures
        (candidate, *final(rng)) == drawn_candidate(*old(rng), map_size, min_size, max_size),
        within_map(candidate, map_size, min_size, max_size),
{
    let (x, y) = draw_position(rng, map_size);
    let w = rng.gen_range(min_size, max_size);
    let h = rng.gen_range(min_size, max_size);
    Rectangle { x, y, w, h }
}

/// Finds a place for a candidate among the rooms already placed: the
/// candidate is moved to a new random position for as long as it overlaps
/// one of them. Gives up, with `None`, when a candidate that has been moved
/// more than `TRIAL_CEILING` times still overlaps.
pub fn place_candidate(
    rng: &mut SeededRng,
    candidate: Rectangle,
    placed: &Vec<Rectangle>,
    map_size: u32,
) -> (room: Option<Rectangle>)
    requires
        map_size > 0,
    ensures
        (room, *final(rng)) == settled_candidate(*old(rng), candidate, placed@, map_size, 0),
        room matches Some(r) ==> {
            &&& !overlaps_any(r, placed@)
            &&& r.w == candidate.w && r.h == candidate.h
            &&& r == candidate || {
                &&& centred(0, map_size) <= r.x < centred(map_size, map_size)
                &&& centred(0, map_size) <= r.y < centred(map_size, map_size)
            }
        },
        !overlaps_any(candidate, placed@) ==> room == Some(candidate),
{
    let mut rect = candidate;
    let mut trial: usize = 0;
    while intersects_any(&rect, placed)
        invariant
            map_size > 0,
            trial <= TRIAL_CEILING + 1,
            settled_candidate(*rng, rect, placed@, map_size, trial as nat) == settled_candidate(
                *old(rng),
                candidate,
                placed@,
                map_size,
                0,
            ),
            rect.w == candidate.w && rect.h == candidate.h,
            rect == candidate || {
                &&& centred(0, map_size) <= rect.x < centred(map_size, map_size)
                &&& centred(0, map_size) <= rect.y < centred(map_size, map_size)
            },
            trial == 0 ==> rect == candidate,
        decreases TRIAL_CEILING + 1 - trial,
    {
        if trial > TRIAL_CEILING {
            return None;
        }
        trial += 1;
        let (x, y) = draw_position(rng, map_size);
        rect = Rectangle { x, y, w: rect.w, h: rect.h };
    }
    Some(rect)
}

/// Samples a batch of `n` rooms of which no two overlap, or `None` when one
/// of them found no place. Corners are drawn from the map, sides from
/// `min_size..max_size`.
pub fn generate_non_overlapping_rectangles(
    rng: &mut SeededRng,
    n: usize,
    map_size: u32,
    min_size: u32,
    max_size: u32,
) -> (batch: Option<Vec<Rectangle>>)
    requires
        map_size > 0,
        min_size < max_size,
    ensures
        *final(rng) == sampled_batch(
            *old(rng),
            Seq::empty(),
            n as nat,
            map_size,
            min_size,
            max_size,
        ).1,
        match batch {
            Some(rooms) => {
                &&& sampled_batch(
                    *old(rng),
                    Seq::empty(),
                    n as nat,
                    map_size,
                    min_size,
                    max_size,
                ).0 == Some(rooms@)
                &&& rooms.len() == n
                &&& pairwise_disjoint(rooms@)
                &&& forall|k: int|
                    0 <= k < rooms.len() ==> within_map(
                        #[trigger] rooms@[k],
                        map_size,
                        min_size,
                        max_size,
                    )
            },
            None => sampled_batch(
                *old(rng),
                Seq::empty(),
                n as nat,
                map_size,
                min_size,
                max_size,
            ).0 is None,
        },
        n <= 1 ==> batch is Some,
{
    let mut rectangles: Vec<Rectangle> = Vec::new();
    let mut count: usize = 0;
    while count < n
        invariant
            map_size > 0,
            min_size < max_size,
            count <= n,
            rectangles.len() == count,
            pairwise_disjoint(rectangles@),
            forall|k: int|
                0 <= k < rectangles.len() ==> within_map(
                    #[trigger] rectangles@[k],
                    map_size,
                    min_size,
                    max_size,
                ),
            sampled_batch(*rng, rectangles@, (n - count) as nat, map_size, min_size, max_size)
                == sampled_batch(*old(rng), Seq::empty(), n as nat, map_size, min_size, max_size),
        decreases n - count,
    {
        let candidate = draw_candidate(rng, map_size, min_size, max_size);
        match place_candidate(rng, candidate, &rectangles, map_size) {
            Some(room) => {
                let ghost earlier = rectangles@;
                rectangles.push(room);
                assert forall|i: int, j: int| 0 <= i < j < rectangles.len() implies !overlapping(
                    #[trigger] rectangles@[i],
                    #[trigger] rectangles@[j],
                ) by {
                    if j == rectangles.len() - 1 {
                        assert(rectangles@[i] == earlier[i]);
                        overlap_is_symmetric(room, earlier[i]);
                    } else {
                        assert(rectangles@[i] == earlier[i] && rectangles@[j] == earlier[j]);
                    }
                }
            },
            None => {
                return None;
            },
        }
        count += 1;
    }
    Some(rectangles)
}

} // verus!
