//! The whole generator: place the rooms, compact them, mark the walls.

use crate::compaction::{compactable, compacted, compress_rooms, fits, offset, total_offset};
use crate::connectivity::connected;
use crate::rectangle::{pairwise_disjoint, Rectangle};
use crate::rng::SeededRng;
use crate::sampler::{generate_non_overlapping_rectangles, sampled_batch, within_map};
use crate::walls::{find_intersections, pair_overlaps};
use vstd::prelude::*;

verus! {

/// A finished layout: the rooms of the compacted cluster, and the wall
/// regions where two of them overlap.
#[derive(Debug, PartialEq, Eq)]
pub struct Layout {
    pub rooms: Vec<Rectangle>,
    pub walls: Vec<Rectangle>,
}

/// The first batch that succeeds within `attempts` attempts, each attempt
/// starting afresh with the source as the attempt before left it, and the
/// source afterwards.
pub open spec fn placed_rooms(
    rng: SeededRng,
    n: nat,
    map_size: u32,
    min_size: u32,
    max_size: u32,
    attempts: nat,
) -> (Option<Seq<Rectangle>>, SeededRng)
    decreases attempts,
{
    if attempts == 0 {
        (None, rng)
    } else {
        let batch = sampled_batch(rng, Seq::empty(), n, map_size, min_size, max_size);
        match batch.0 {
            Some(_) => batch,
            None => placed_rooms(
                batch.1,
                n,
                map_size,
                min_size,
                max_size,
                (attempts - 1) as nat,
            ),
        }
    }
}

/// The rooms and walls that a seed and the parameters lead to, if a batch
/// can be placed within `attempts` attempts.
pub open spec fn planned_layout(
    seed: u64,
    n: nat,
    map_size: u32,
    min_size: u32,
    max_size: u32,
    attempts: nat,
) -> Option<(Seq<Rectangle>, Seq<Rectangle>)> {
    let start = SeededRng { seed, word_pos: 0 };
    match placed_rooms(start, n, map_size, min_size, max_size, attempts).0 {
        Some(rooms) => Some((compacted(rooms), pair_overlaps(compacted(rooms)))),
        None => None,
    }
}

/// Samples batches until one succeeds, at most `max_attempts` times. A batch
/// that fails is discarded as a whole.
pub fn place_rooms(
    rng: &mut SeededRng,
    n: usize,
    map_size: u32,
    min_size: u32,
    max_size: u32,
    max_attempts: u32,
) -> (placed: Option<Vec<Rectangle>>)
    requires
        map_size > 0,
        min_size < max_size,
    ensures
        *final(rng) == placed_rooms(
            *old(rng),
            n as nat,
            map_size,
            min_size,
            max_size,
            max_attempts as nat,
        ).1,
        match placed {
            Some(rooms) => {
                &&& placed_rooms(
                    *old(rng),
                    n as nat,
                    map_size,
                    min_size,
                    max_size,
                    max_attempts as nat,
                ).0 == Some(rooms@)
                &&& rooms.len() == n
                &&& pairwise_disjoint(rooms@)
                &&& forall|k: int|
                    0 <= k < rooms.len() ==> within_map(
                        #[trigger] rooms@[k],
                        map_size,
                        min_size,
                        max_size,
                    )
            },
            None => placed_rooms(
                *old(rng),
                n as nat,
                map_size,
                min_size,
                max_size,
                max_attempts as nat,
            ).0 is None,
        },
        n <= 1 && max_attempts > 0 ==> placed is Some,
{
    let mut attempt: u32 = 0;
    while attempt < max_attempts
        invariant
            map_size > 0,
            min_size < max_size,
            attempt <= max_attempts,
            placed_rooms(
                *rng,
                n as nat,
                map_size,
                min_size,
                max_size,
                (max_attempts - attempt) as nat,
            ) == placed_rooms(
                *old(rng),
                n as nat,
                map_size,
                min_size,
                max_size,
                max_attempts as nat,
            ),
            n <= 1 ==> attempt == 0,
        decreases max_attempts - attempt,
    {
        match generate_non_overlapping_rectangles(rng, n, map_size, min_size, max_size) {
            Some(rooms) => {
                return Some(rooms);
            },
            None => {},
        }
        attempt += 1;
    }
    None
}

/// Rooms drawn from the map can be compacted when their sides are positive
/// and the map is small enough for the number of rooms.
pub proof fn lemma_sampled_rooms_compactable(
    rooms: Seq<Rectangle>,
    map_size: u32,
    min_size: u32,
    max_size: u32,
)
    requires
        rooms.len() > 0,
        min_size > 0,
        forall|k: int|
            0 <= k < rooms.len() ==> within_map(#[trigger] rooms[k], map_size, min_size, max_size),
        (rooms.len() - 1) * map_size + map_size / 2 <= i32::MAX,
    ensures
        compactable(rooms),
{
    assert forall|k: int| 0 <= k < rooms.len() implies fits(
        #[trigger] rooms[k],
        total_offset(rooms) - offset(rooms[k]),
    ) && rooms[k].occupies_space() by {
        assert(within_map(rooms[k], map_size, min_size, max_size));
        lemma_offset_of_other_rooms(rooms, k, map_size, min_size, max_size);
    }
}

/// Rooms drawn from the map, one of them left out, are together at most
/// `map_size` steps per room away from the origin.
proof fn lemma_offset_of_other_rooms(
    rooms: Seq<Rectangle>,
    k: int,
    map_size: u32,
    min_size: u32,
    max_size: u32,
)
    requires
        0 <= k < rooms.len(),
        forall|m: int|
            0 <= m < rooms.len() ==> within_map(#[trigger] rooms[m], map_size, min_size, max_size),
    ensures
        total_offset(rooms) - offset(rooms[k]) <= (rooms.len() - 1) * map_size,
    decreases rooms.len(),
{
    let earlier = rooms.drop_last();
    assert(within_map(rooms.last(), map_size, min_size, max_size));
    assert(offset(rooms.last()) <= map_size);
    if k == rooms.len() - 1 {
        lemma_offset_of_sampled_rooms(earlier, map_size, min_size, max_size);
    } else {
        lemma_offset_of_other_rooms(earlier, k, map_size, min_size, max_size);
        assert((earlier.len() - 1) * map_size + map_size == (rooms.len() - 1) * map_size)
            by (nonlinear_arith)
            requires
                earlier.len() + 1 == rooms.len(),
        ;
    }
}

/// Rooms drawn from the map are together at most `map_size` steps per room
/// away from the origin.
proof fn lemma_offset_of_sampled_rooms(
    rooms: Seq<Rectangle>,
    map_size: u32,
    min_size: u32,
    max_size: u32,
)
    requires
        forall|k: int|
            0 <= k < rooms.len() ==> within_map(#[trigger] rooms[k], map_size, min_size, max_size),
    ensures
        total_offset(rooms) <= rooms.len() * map_size,
    decreases rooms.len(),
{
    if rooms.len() > 0 {
        let earlier = rooms.drop_last();
        lemma_offset_of_sampled_rooms(earlier, map_size, min_size, max_size);
        assert(within_map(rooms.last(), map_size, min_size, max_size));
        assert(offset(rooms.last()) <= map_size);
        assert(earlier.len() * map_size + map_size == rooms.len() * map_size) by (nonlinear_arith)
            requires
                earlier.len() + 1 == rooms.len(),
        ;
    }
}

/// Generation is repeatable: the same seed and the same parameters lead to
/// the same rooms and the same walls.
pub proof fn layout_is_repeatable(
    first_seed: u64,
    second_seed: u64,
    n: nat,
    map_size: u32,
    min_size: u32,
    max_size: u32,
    attempts: nat,
)
    requires
        first_seed == second_seed,
    ensures
        planned_layout(first_seed, n, map_size, min_size, max_size, attempts) == planned_layout(
            second_seed,
            n,
            map_size,
            min_size,
            max_size,
            attempts,
        ),
{
}

/// Generates a layout from a seed: places `num_rooms` rooms at random
/// without overlap, trying up to `max_attempts` batches, compacts them into
/// one cluster and marks the regions where its rooms overlap. Returns `None`
/// when no batch could be placed.
pub fn generate_layout(
    seed: u64,
    num_rooms: usize,
    map_size: u32,
    min_size: u32,
    max_size: u32,
    max_attempts: u32,
) -> (layout: Option<Layout>)
    requires
        num_rooms > 0,
        map_size > 0,
        0 < min_size < max_size,
        (num_rooms - 1) * map_size + map_size / 2 <= i32::MAX,
    ensures
        match layout {
            Some(found) => {
                &&& planned_layout(
                    seed,
                    num_rooms as nat,
                    map_size,
                    min_size,
                    max_size,
                    max_attempts as nat,
                ) == Some((found.rooms@, found.walls@))
                &&& found.rooms.len() == num_rooms
                &&& connected(found.rooms@)
                &&& found.walls.len() == 0 <==> pairwise_disjoint(found.rooms@)
                &&& forall|k: int|
                    0 <= k < found.rooms.len() ==> (#[trigger] found.rooms@[k]).occupies_space()
                &&& forall|k: int|
                    0 <= k < found.walls.len() ==> (#[trigger] found.walls@[k]).occupies_space()
            },
            None => planned_layout(
                seed,
                num_rooms as nat,
                map_size,
                min_size,
                max_size,
                max_attempts as nat,
            ) is None,
        },
        num_rooms == 1 && max_attempts > 0 ==> layout is Some,
{
    let mut rng = SeededRng::new(seed);
    match place_rooms(&mut rng, num_rooms, map_size, min_size, max_size, max_attempts) {
        Some(placed) => {
            let mut scattered = placed;
            proof {
                lemma_sampled_rooms_compactable(scattered@, map_size, min_size, max_size);
            }
            let rooms = compress_rooms(&mut scattered);
            let walls = find_intersections(rooms.as_slice());
            Some(Layout { rooms, walls })
        },
        None => None,
    }
}

} // verus!
