use rand::{Rng, SeedableRng};
use rand_chacha::ChaCha8Rng;
use room_layout::sampler::{
    coordinate_from_draw, draw_candidate, draw_coordinate, draw_position, place_candidate,
    TRIAL_CEILING,
};
use room_layout::{
    generate_non_overlapping_rectangles, intersection, place_rooms, Rectangle, SeededRng,
};

const SEEDS: [u64; 5] = [0, 1, 42, 18212822918530262970, u64::MAX];

fn rect(x: i32, y: i32, w: u32, h: u32) -> Rectangle {
    Rectangle { x, y, w, h }
}

fn overlaps_any(rect: &Rectangle, others: &[Rectangle]) -> bool {
    others.iter().any(|other| intersection(rect, other).is_some())
}

/// The same sampling, drawn from a generator that keeps its own state.
fn sample_with(
    rng: &mut ChaCha8Rng,
    n: usize,
    map_size: u32,
    min_size: u32,
    max_size: u32,
) -> Option<Vec<Rectangle>> {
    let half = (map_size / 2) as i64;
    let mut rectangles: Vec<Rectangle> = Vec::new();
    for _ in 0..n {
        let mut room = Rectangle {
            x: (rng.gen_range(0..map_size) as i64 - half) as i32,
            y: (rng.gen_range(0..map_size) as i64 - half) as i32,
            w: rng.gen_range(min_size..max_size),
            h: rng.gen_range(min_size..max_size),
        };
        let mut trial = 0usize;
        while overlaps_any(&room, &rectangles) {
            if trial > 3000 {
                return None;
            }
            trial += 1;
            room.x = (rng.gen_range(0..map_size) as i64 - half) as i32;
            room.y = (rng.gen_range(0..map_size) as i64 - half) as i32;
        }
        rectangles.push(room);
    }
    Some(rectangles)
}

#[test]
fn a_new_source_starts_at_the_beginning_of_its_stream() {
    let rng = SeededRng::new(77);
    assert_eq!(rng, SeededRng { seed: 77, word_pos: 0 });
}

#[test]
fn draws_follow_the_stream_of_the_seeded_generator() {
    for seed in SEEDS {
        let mut ours = SeededRng::new(seed);
        let mut theirs = ChaCha8Rng::seed_from_u64(seed);
        for round in 0..200u32 {
            let low = round % 7;
            let high = low + 1 + (round * 37) % 1000;
            let expected: u32 = theirs.gen_range(low..high);
            assert_eq!(ours.gen_range(low, high), expected);
            assert_eq!(ours.seed, seed);
            assert_eq!(ours.word_pos, theirs.get_word_pos());
        }
    }
}

#[test]
fn draws_stay_within_their_range() {
    let mut rng = SeededRng::new(5);
    for _ in 0..500 {
        let value = rng.gen_range(4, 15);
        assert!((4..15).contains(&value));
    }
    for _ in 0..50 {
        assert_eq!(rng.gen_range(9, 10), 9);
    }
    for _ in 0..50 {
        assert!(rng.gen_range(u32::MAX - 1, u32::MAX) == u32::MAX - 1);
    }
}

#[test]
fn draws_move_the_source_on() {
    let mut rng = SeededRng::new(11);
    let before = rng;
    let first = rng.gen_range(0, 1_000_000);
    assert!(rng.word_pos > before.word_pos);
    let second = rng.gen_range(0, 1_000_000);
    let mut again = before;
    assert_eq!(again.gen_range(0, 1_000_000), first);
    assert_eq!(again.gen_range(0, 1_000_000), second);
    assert_eq!(again, rng);
}

#[test]
fn draws_differ_between_seeds() {
    let mut one = SeededRng::new(1);
    let mut two = SeededRng::new(2);
    let from_one: Vec<u32> = (0..16).map(|_| one.gen_range(0, u32::MAX)).collect();
    let from_two: Vec<u32> = (0..16).map(|_| two.gen_range(0, u32::MAX)).collect();
    assert_ne!(from_one, from_two);
}

#[test]
fn coordinates_are_centred_on_the_origin() {
    assert_eq!(coordinate_from_draw(0, 120), -60);
    assert_eq!(coordinate_from_draw(60, 120), 0);
    assert_eq!(coordinate_from_draw(119, 120), 59);
    assert_eq!(coordinate_from_draw(0, 5), -2);
    assert_eq!(coordinate_from_draw(4, 5), 2);
    assert_eq!(coordinate_from_draw(0, 1), 0);
    assert_eq!(coordinate_from_draw(0, u32::MAX), -(i32::MAX));
    assert_eq!(coordinate_from_draw(u32::MAX - 1, u32::MAX), i32::MAX);
}

#[test]
fn a_coordinate_is_one_draw_from_the_map() {
    for seed in SEEDS {
        let mut ours = SeededRng::new(seed);
        let mut theirs = ChaCha8Rng::seed_from_u64(seed);
        for _ in 0..50 {
            let drawn: u32 = theirs.gen_range(0..120);
            assert_eq!(draw_coordinate(&mut ours, 120), drawn as i32 - 60);
        }
        assert_eq!(ours.word_pos, theirs.get_word_pos());
    }
}

#[test]
fn a_position_is_drawn_x_first() {
    let mut ours = SeededRng::new(3);
    let mut theirs = ChaCha8Rng::seed_from_u64(3);
    for _ in 0..50 {
        let x: u32 = theirs.gen_range(0..31);
        let y: u32 = theirs.gen_range(0..31);
        assert_eq!(draw_position(&mut ours, 31), (x as i32 - 15, y as i32 - 15));
    }
}

#[test]
fn a_candidate_is_drawn_as_position_then_width_then_height() {
    let mut ours = SeededRng::new(8);
    let mut theirs = ChaCha8Rng::seed_from_u64(8);
    for _ in 0..50 {
        let x: u32 = theirs.gen_range(0..120);
        let y: u32 = theirs.gen_range(0..120);
        let w: u32 = theirs.gen_range(4..15);
        let h: u32 = theirs.gen_range(4..15);
        assert_eq!(
            draw_candidate(&mut ours, 120, 4, 15),
            rect(x as i32 - 60, y as i32 - 60, w, h)
        );
    }
}

#[test]
fn a_candidate_that_overlaps_nothing_stays_and_draws_nothing() {
    let mut rng = SeededRng::new(1);
    let placed = vec![rect(0, 0, 4, 4)];
    let candidate = rect(4, 0, 4, 4);
    assert_eq!(place_candidate(&mut rng, candidate, &placed, 120), Some(candidate));
    assert_eq!(rng, SeededRng::new(1));
}

#[test]
fn a_candidate_that_overlaps_is_moved_and_keeps_its_size() {
    let mut rng = SeededRng::new(1);
    let placed = vec![rect(0, 0, 4, 4)];
    let candidate = rect(1, 1, 5, 7);
    let room = place_candidate(&mut rng, candidate, &placed, 120).unwrap();
    assert_eq!((room.w, room.h), (5, 7));
    assert_ne!(room, candidate);
    assert!(intersection(&room, &placed[0]).is_none());
    assert!((-60..60).contains(&room.x) && (-60..60).contains(&room.y));
    assert!(rng.word_pos >= 2);
}

#[test]
fn a_candidate_without_a_place_is_given_up_after_the_ceiling() {
    assert_eq!(TRIAL_CEILING, 3000);
    let placed = vec![rect(-100, -100, 300, 300)];
    let candidate = rect(0, 0, 2, 2);
    let mut ours = SeededRng::new(9);
    assert_eq!(place_candidate(&mut ours, candidate, &placed, 10), None);

    let mut theirs = ChaCha8Rng::seed_from_u64(9);
    for _ in 0..(2 * 3001) {
        let _: u32 = theirs.gen_range(0..10);
    }
    assert_eq!(ours.word_pos, theirs.get_word_pos());
}

#[test]
fn sampled_rooms_do_not_overlap() {
    for seed in SEEDS {
        let mut rng = SeededRng::new(seed);
        let rooms = generate_non_overlapping_rectangles(&mut rng, 20, 120, 4, 15).unwrap();
        assert_eq!(rooms.len(), 20);
        for i in 0..rooms.len() {
            for j in 0..rooms.len() {
                if i != j {
                    assert_eq!(intersection(&rooms[i], &rooms[j]), None);
                }
            }
        }
    }
}

#[test]
fn sampled_rooms_lie_on_the_map_and_have_the_sizes_asked_for() {
    for seed in SEEDS {
        let mut rng = SeededRng::new(seed);
        let rooms = generate_non_overlapping_rectangles(&mut rng, 30, 121, 4, 15).unwrap();
        for room in rooms {
            assert!((-60..61).contains(&room.x));
            assert!((-60..61).contains(&room.y));
            assert!((4..15).contains(&room.w));
            assert!((4..15).contains(&room.h));
        }
    }
}

#[test]
fn sampling_is_the_same_for_the_same_seed() {
    for seed in SEEDS {
        let mut first = SeededRng::new(seed);
        let mut second = SeededRng::new(seed);
        let a = generate_non_overlapping_rectangles(&mut first, 20, 120, 4, 15);
        let b = generate_non_overlapping_rectangles(&mut second, 20, 120, 4, 15);
        assert_eq!(a, b);
        assert_eq!(first, second);
    }
}

#[test]
fn sampling_matches_a_generator_that_keeps_its_own_state() {
    for seed in SEEDS {
        for (n, map_size, min_size, max_size) in
            [(20usize, 120u32, 4u32, 15u32), (8, 40, 4, 15), (60, 64, 1, 9), (5, 7, 2, 3)]
        {
            let mut ours = SeededRng::new(seed);
            let mut theirs = ChaCha8Rng::seed_from_u64(seed);
            for _ in 0..3 {
                let batch =
                    generate_non_overlapping_rectangles(&mut ours, n, map_size, min_size, max_size);
                let expected = sample_with(&mut theirs, n, map_size, min_size, max_size);
                assert_eq!(batch, expected);
                assert_eq!(ours.word_pos, theirs.get_word_pos());
            }
        }
    }
}

#[test]
fn a_batch_that_cannot_fit_is_given_up() {
    let mut ours = SeededRng::new(4);
    let mut theirs = ChaCha8Rng::seed_from_u64(4);
    assert_eq!(generate_non_overlapping_rectangles(&mut ours, 3, 2, 10, 11), None);
    assert_eq!(sample_with(&mut theirs, 3, 2, 10, 11), None);
    assert_eq!(ours.word_pos, theirs.get_word_pos());
}

#[test]
fn an_empty_batch_draws_nothing() {
    let mut rng = SeededRng::new(6);
    assert_eq!(
        generate_non_overlapping_rectangles(&mut rng, 0, 120, 4, 15),
        Some(Vec::new())
    );
    assert_eq!(rng, SeededRng::new(6));
}

#[test]
fn a_batch_of_one_always_succeeds() {
    for seed in SEEDS {
        let mut rng = SeededRng::new(seed);
        let rooms = generate_non_overlapping_rectangles(&mut rng, 1, 1, 7, 8).unwrap();
        assert_eq!(rooms, vec![rect(0, 0, 7, 7)]);
    }
}

#[test]
fn rooms_without_area_never_overlap() {
    let mut rng = SeededRng::new(2);
    let rooms = generate_non_overlapping_rectangles(&mut rng, 50, 1, 0, 1).unwrap();
    assert_eq!(rooms, vec![rect(0, 0, 0, 0); 50]);
}

#[test]
fn placing_retries_whole_batches() {
    let seed = 2;
    let mut stateful = SeededRng::new(seed);
    assert_eq!(generate_non_overlapping_rectangles(&mut stateful, 8, 16, 6, 9), None);
    assert_eq!(generate_non_overlapping_rectangles(&mut stateful, 8, 16, 6, 9), None);
    let after_two_failures = stateful;
    let third = generate_non_overlapping_rectangles(&mut stateful, 8, 16, 6, 9);
    assert!(third.is_some());

    let mut rng = SeededRng::new(seed);
    assert_eq!(place_rooms(&mut rng, 8, 16, 6, 9, 3), third);
    assert_eq!(rng, stateful);

    let mut short = SeededRng::new(seed);
    assert_eq!(place_rooms(&mut short, 8, 16, 6, 9, 2), None);
    assert_eq!(short, after_two_failures);
}

#[test]
fn placing_gives_up_after_the_attempts_allowed() {
    let mut rng = SeededRng::new(4);
    assert_eq!(place_rooms(&mut rng, 3, 2, 10, 11, 2), None);
    let mut stateful = SeededRng::new(4);
    assert_eq!(generate_non_overlapping_rectangles(&mut stateful, 3, 2, 10, 11), None);
    assert_eq!(generate_non_overlapping_rectangles(&mut stateful, 3, 2, 10, 11), None);
    assert_eq!(rng, stateful);
}

#[test]
fn placing_without_attempts_places_nothing() {
    let mut rng = SeededRng::new(4);
    assert_eq!(place_rooms(&mut rng, 5, 120, 4, 15, 0), None);
    assert_eq!(rng, SeededRng::new(4));
}
