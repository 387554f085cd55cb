use room_layout::compaction::{
    distance, find_collision, group_step, groups_collide, is_anchored, step_toward_origin,
};
use room_layout::{
    compress_rooms, find_intersections, intersection, is_compactable, move_and_merge_groups,
    move_group, Rectangle,
};

fn rect(x: i32, y: i32, w: u32, h: u32) -> Rectangle {
    Rectangle { x, y, w, h }
}

fn is_connected(rooms: &[Rectangle]) -> bool {
    if rooms.is_empty() {
        return true;
    }
    let mut reached = vec![false; rooms.len()];
    let mut pending = vec![0usize];
    reached[0] = true;
    while let Some(at) = pending.pop() {
        for next in 0..rooms.len() {
            if !reached[next] && intersection(&rooms[at], &rooms[next]).is_some() {
                reached[next] = true;
                pending.push(next);
            }
        }
    }
    reached.iter().all(|seen| *seen)
}

#[test]
fn move_group_shifts_every_rectangle() {
    let mut group = vec![rect(0, 0, 1, 2), rect(-5, 7, 3, 4), rect(9, -9, 5, 6)];
    move_group(&mut group, 1, -1);
    assert_eq!(group, vec![rect(1, -1, 1, 2), rect(-4, 6, 3, 4), rect(10, -10, 5, 6)]);
    move_group(&mut group, 0, 0);
    assert_eq!(group, vec![rect(1, -1, 1, 2), rect(-4, 6, 3, 4), rect(10, -10, 5, 6)]);
    move_group(&mut group, -3, 2);
    assert_eq!(group, vec![rect(-2, 1, 1, 2), rect(-7, 8, 3, 4), rect(7, -8, 5, 6)]);
}

#[test]
fn move_group_on_an_empty_group() {
    let mut group: Vec<Rectangle> = Vec::new();
    move_group(&mut group, 1, 1);
    assert!(group.is_empty());
}

#[test]
fn distances_are_counted_from_zero() {
    assert_eq!(distance(0), 0);
    assert_eq!(distance(17), 17);
    assert_eq!(distance(-17), 17);
    assert_eq!(distance(i32::MAX), 2_147_483_647);
    assert_eq!(distance(i32::MIN), 2_147_483_648);
}

#[test]
fn steps_lead_towards_the_origin() {
    assert_eq!(step_toward_origin(-17), 1);
    assert_eq!(step_toward_origin(-1), 1);
    assert_eq!(step_toward_origin(0), 0);
    assert_eq!(step_toward_origin(1), -1);
    assert_eq!(step_toward_origin(i32::MAX), -1);
    assert_eq!(step_toward_origin(i32::MIN), 1);
}

#[test]
fn a_group_is_anchored_when_it_covers_the_origin_cell() {
    assert!(is_anchored(&vec![rect(0, 0, 1, 1)]));
    assert!(is_anchored(&vec![rect(-3, -3, 4, 4)]));
    assert!(is_anchored(&vec![rect(9, 9, 1, 1), rect(-1, 0, 2, 1)]));
    assert!(!is_anchored(&vec![rect(-3, -3, 3, 3)]));
    assert!(!is_anchored(&vec![rect(1, 0, 4, 4)]));
    assert!(!is_anchored(&vec![rect(0, 1, 4, 4)]));
    assert!(!is_anchored(&vec![rect(-2, 0, 2, 2)]));
    assert!(!is_anchored(&Vec::new()));
}

#[test]
fn a_group_steps_by_its_first_rectangle_unless_anchored() {
    assert_eq!(group_step(&vec![rect(-5, 3, 2, 2)]), (1, -1));
    assert_eq!(group_step(&vec![rect(5, -3, 2, 2)]), (-1, 1));
    assert_eq!(group_step(&vec![rect(0, 8, 2, 2)]), (0, -1));
    assert_eq!(group_step(&vec![rect(-8, 0, 2, 2)]), (1, 0));
    assert_eq!(group_step(&vec![rect(-8, 4, 2, 2), rect(20, -20, 1, 1)]), (1, -1));
    assert_eq!(group_step(&vec![rect(-8, 4, 2, 2), rect(0, 0, 1, 1)]), (0, 0));
    assert_eq!(group_step(&vec![rect(-1, -1, 2, 2)]), (0, 0));
}

#[test]
fn groups_collide_when_any_two_rectangles_overlap() {
    let g1 = vec![rect(0, 0, 2, 2), rect(10, 10, 2, 2)];
    let g2 = vec![rect(-9, -9, 2, 2), rect(11, 11, 2, 2)];
    let g3 = vec![rect(2, 0, 2, 2), rect(12, 10, 2, 2)];
    assert!(groups_collide(&g1, &g2));
    assert!(groups_collide(&g2, &g1));
    assert!(!groups_collide(&g1, &g3));
    assert!(!groups_collide(&g1, &Vec::new()));
    assert!(!groups_collide(&Vec::new(), &g1));
}

#[test]
fn the_first_later_group_that_collides_is_found() {
    let groups = vec![
        vec![rect(0, 0, 2, 2)],
        vec![rect(5, 5, 1, 1)],
        vec![rect(1, 1, 2, 2)],
        vec![rect(0, 0, 1, 1)],
    ];
    assert_eq!(find_collision(&groups, 0), 2);
    assert_eq!(find_collision(&groups, 1), 4);
    assert_eq!(find_collision(&groups, 2), 4);
    assert_eq!(find_collision(&groups, 3), 4);
}

#[test]
fn a_round_moves_every_group_one_step() {
    let mut groups = vec![vec![rect(-5, 0, 2, 2)], vec![rect(3, 3, 2, 2)]];
    move_and_merge_groups(&mut groups);
    assert_eq!(groups, vec![vec![rect(-4, 0, 2, 2)], vec![rect(2, 2, 2, 2)]]);
}

#[test]
fn a_round_merges_groups_that_come_to_overlap() {
    let mut groups = vec![
        vec![rect(-2, 0, 2, 2)],
        vec![rect(0, 0, 2, 2)],
        vec![rect(10, 10, 1, 1)],
    ];
    move_and_merge_groups(&mut groups);
    assert_eq!(
        groups,
        vec![vec![rect(-1, 0, 2, 2), rect(0, 0, 2, 2)], vec![rect(9, 9, 1, 1)]]
    );
}

#[test]
fn a_merged_group_moves_again_in_the_same_round() {
    let mut groups = vec![vec![rect(-6, 0, 2, 2)], vec![rect(-5, 1, 2, 2)]];
    move_and_merge_groups(&mut groups);
    assert_eq!(groups, vec![vec![rect(-4, 0, 2, 2), rect(-4, 1, 2, 2)]]);
}

#[test]
fn a_round_absorbs_one_group_after_the_other() {
    let mut groups = vec![
        vec![rect(0, 0, 3, 3)],
        vec![rect(20, 20, 1, 1)],
        vec![rect(2, 2, 3, 3)],
        vec![rect(1, 1, 1, 1)],
    ];
    move_and_merge_groups(&mut groups);
    assert_eq!(
        groups,
        vec![
            vec![rect(0, 0, 3, 3), rect(2, 2, 3, 3), rect(1, 1, 1, 1)],
            vec![rect(19, 19, 1, 1)],
        ]
    );
}

#[test]
fn a_round_on_no_groups_does_nothing() {
    let mut groups: Vec<Vec<Rectangle>> = Vec::new();
    move_and_merge_groups(&mut groups);
    assert!(groups.is_empty());
}

#[test]
fn two_rooms_are_compacted_step_by_step() {
    let mut rooms = vec![rect(-3, 0, 2, 2), rect(2, 0, 2, 2)];
    let compacted = compress_rooms(&mut rooms);
    assert_eq!(compacted, vec![rect(-1, 0, 2, 2), rect(0, 0, 2, 2)]);
    assert_eq!(rooms, vec![rect(-3, 0, 2, 2), rect(2, 0, 2, 2)]);
    assert_eq!(find_intersections(&compacted), vec![rect(0, 0, 1, 2)]);
}

#[test]
fn three_rooms_in_a_row_end_as_one_cluster() {
    let mut rooms = vec![rect(-4, 0, 2, 2), rect(0, 0, 2, 2), rect(3, 0, 2, 2)];
    let compacted = compress_rooms(&mut rooms);
    assert_eq!(compacted, vec![rect(-1, 0, 2, 2), rect(0, 0, 2, 2), rect(1, 0, 2, 2)]);
    assert_eq!(
        find_intersections(&compacted),
        vec![rect(0, 0, 1, 2), rect(1, 0, 1, 2)]
    );
}

#[test]
fn rooms_that_meet_far_from_the_origin_stay_there() {
    let mut rooms = vec![rect(40, 40, 3, 3), rect(38, 38, 2, 2)];
    assert_eq!(compress_rooms(&mut rooms), vec![rect(38, 38, 3, 3), rect(37, 37, 2, 2)]);
}

#[test]
fn a_single_room_stays_where_it_is() {
    let mut rooms = vec![rect(5, 5, 1, 1)];
    assert_eq!(compress_rooms(&mut rooms), vec![rect(5, 5, 1, 1)]);
}

#[test]
fn compaction_keeps_the_number_and_the_sizes_of_rooms() {
    let mut rooms = vec![
        rect(-30, 12, 4, 9),
        rect(25, -18, 7, 5),
        rect(3, 40, 6, 6),
        rect(-44, -44, 10, 4),
        rect(17, 17, 5, 12),
        rect(0, -35, 8, 8),
    ];
    assert!(is_compactable(&rooms));
    let compacted = compress_rooms(&mut rooms);
    assert_eq!(compacted.len(), rooms.len());
    let mut sizes_before: Vec<(u32, u32)> = rooms.iter().map(|r| (r.w, r.h)).collect();
    let mut sizes_after: Vec<(u32, u32)> = compacted.iter().map(|r| (r.w, r.h)).collect();
    sizes_before.sort();
    sizes_after.sort();
    assert_eq!(sizes_before, sizes_after);
}

#[test]
fn compaction_leaves_one_connected_cluster() {
    let mut rooms = vec![
        rect(-30, 12, 4, 9),
        rect(25, -18, 7, 5),
        rect(3, 40, 6, 6),
        rect(-44, -44, 10, 4),
        rect(17, 17, 5, 12),
        rect(0, -35, 8, 8),
    ];
    assert!(!is_connected(&rooms));
    let compacted = compress_rooms(&mut rooms);
    assert!(is_connected(&compacted));
}

#[test]
fn compaction_gives_the_same_cluster_every_time() {
    let scattered = vec![
        rect(-30, 12, 4, 9),
        rect(25, -18, 7, 5),
        rect(3, 40, 6, 6),
        rect(-44, -44, 10, 4),
    ];
    let mut first = scattered.clone();
    let mut second = scattered.clone();
    assert_eq!(compress_rooms(&mut first), compress_rooms(&mut second));
}

#[test]
fn rooms_that_cannot_be_compacted_are_recognised() {
    assert!(!is_compactable(&Vec::new()));
    assert!(!is_compactable(&vec![rect(0, 0, 0, 3)]));
    assert!(!is_compactable(&vec![rect(0, 0, 3, 0)]));
    assert!(!is_compactable(&vec![rect(4, 4, 2, 2), rect(0, 0, 2, 0)]));
    assert!(!is_compactable(&vec![rect(1, 1, 2, 2), rect(i32::MAX, 0, 1, 1)]));
    assert!(!is_compactable(&vec![rect(0, i32::MAX, 1, 1), rect(0, 1, 1, 1)]));
    assert!(!is_compactable(&vec![rect(i32::MIN, 0, 1, 1), rect(0, 0, 1, 1)]));
    assert!(!is_compactable(&vec![rect(i32::MAX, i32::MAX, 1, 1), rect(0, 0, 1, 1)]));
}

#[test]
fn rooms_that_can_be_compacted_are_recognised() {
    assert!(is_compactable(&vec![rect(0, 0, 1, 1)]));
    assert!(is_compactable(&vec![rect(i32::MIN, 0, 1, 1)]));
    assert!(is_compactable(&vec![rect(i32::MAX, i32::MAX, 1, 1)]));
    assert!(is_compactable(&vec![rect(0, i32::MAX, 1, 1), rect(0, 0, 1, 1)]));
    assert!(is_compactable(&vec![rect(-60, 59, 4, 14), rect(59, -60, 14, 4)]));
    assert!(is_compactable(&vec![rect(1_000_000, -1_000_000, 1, 1), rect(-5, 5, 2, 2)]));
}

#[test]
fn a_room_at_the_edge_of_the_grid_is_compacted() {
    let mut rooms = vec![rect(0, i32::MAX, 1, 1), rect(0, 0, 1, 1)];
    let mut groups = vec![vec![rooms[0]], vec![rooms[1]]];
    move_and_merge_groups(&mut groups);
    assert_eq!(groups, vec![vec![rect(0, i32::MAX - 1, 1, 1)], vec![rect(0, 0, 1, 1)]]);
    rooms[0].y = 3;
    assert_eq!(compress_rooms(&mut rooms), vec![rect(0, 0, 1, 1), rect(0, 0, 1, 1)]);
}
