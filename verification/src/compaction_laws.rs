//! What compaction keeps and what it achieves: the rounds never leave the
//! representable range, every round makes progress, and the cluster that is
//! left holds the rooms that there were, connected.

use crate::compaction::{
    all_connected, all_occupy_space, anchored, carry, collide, compactable, compacted,
    first_collision, fits, has_room, merged, moved, offset, origin_probe, ready, remaining_work,
    room_count, settle, shifted, singletons, step_of, stepped, sweep, sweep_from, total_offset,
    travel, well_formed,
};
use crate::connectivity::{
    connected, lemma_connected_after_shift, lemma_connected_after_union,
    lemma_single_room_connected,
};
use crate::rectangle::{overlapping, overlaps_any, size_of, sizes, Rectangle};
use vstd::math::abs;
use vstd::multiset::Multiset;
use vstd::prelude::*;
use vstd::seq_lib::lemma_multiset_commutative;

verus! {

/// The first `k + 1` rooms are as far from the origin as the first `k` and room `k`.
pub proof fn lemma_total_offset_of_prefix(rooms: Seq<Rectangle>, k: int)
    requires
        0 <= k < rooms.len(),
    ensures
        total_offset(rooms.take(k + 1)) == total_offset(rooms.take(k)) + offset(rooms[k]),
{
    assert(rooms.take(k + 1).drop_last() =~= rooms.take(k));
}

/// Rooms taken one by one have their total offset as travel.
pub proof fn lemma_travel_of_singletons(rooms: Seq<Rectangle>)
    ensures
        travel(singletons(rooms)) == total_offset(rooms),
    decreases rooms.len(),
{
    if rooms.len() > 0 {
        lemma_travel_of_singletons(rooms.drop_last());
        assert(singletons(rooms).drop_last() =~= singletons(rooms.drop_last()));
    }
}

/// Rooms that can be compacted are, taken one by one, groups on which the
/// rounds can run.
pub proof fn lemma_compactable_ready(rooms: Seq<Rectangle>)
    requires
        compactable(rooms),
    ensures
        ready(singletons(rooms)),
{
    let groups = singletons(rooms);
    lemma_travel_of_singletons(rooms);
    assert forall|g: int, k: int| 0 <= g < groups.len() && 0 <= k < groups[g].len() implies fits(
        #[trigger] groups[g][k],
        carry(groups, g, k),
    ) && groups[g][k].occupies_space() by {
        assert(groups[g][k] == rooms[g]);
    }
}

/// Replacing a group changes the remaining travel by the difference of the
/// two first rectangles' offsets.
pub proof fn lemma_travel_update(groups: Seq<Seq<Rectangle>>, i: int, group: Seq<Rectangle>)
    requires
        0 <= i < groups.len(),
    ensures
        travel(groups.update(i, group)) == travel(groups) - offset(groups[i][0]) + offset(group[0]),
    decreases groups.len(),
{
    if i == groups.len() - 1 {
        assert(groups.update(i, group).drop_last() =~= groups.drop_last());
    } else {
        assert(groups.update(i, group).drop_last() =~= groups.drop_last().update(i, group));
        lemma_travel_update(groups.drop_last(), i, group);
    }
}

/// Removing a group takes its first rectangle's offset out of the remaining travel.
pub proof fn lemma_travel_remove(groups: Seq<Seq<Rectangle>>, j: int)
    requires
        0 <= j < groups.len(),
    ensures
        travel(groups.remove(j)) == travel(groups) - offset(groups[j][0]),
    decreases groups.len(),
{
    if j == groups.len() - 1 {
        assert(groups.remove(j) =~= groups.drop_last());
    } else {
        assert(groups.remove(j).drop_last() =~= groups.drop_last().remove(j));
        assert(groups.remove(j).last() == groups.last());
        lemma_travel_remove(groups.drop_last(), j);
    }
}

/// The first collision lies between the start of the search and the number of groups.
pub proof fn lemma_first_collision(groups: Seq<Seq<Rectangle>>, i: int, from: int)
    requires
        0 <= from <= groups.len(),
    ensures
        from <= first_collision(groups, i, from) <= groups.len(),
        first_collision(groups, i, from) < groups.len() ==> collide(
            groups[i],
            groups[first_collision(groups, i, from)],
        ),
        forall|m: int|
            from <= m < first_collision(groups, i, from) ==> !collide(groups[i], #[trigger] groups[m]),
    decreases groups.len() - from,
{
    if from < groups.len() && !collide(groups[i], groups[from]) {
        lemma_first_collision(groups, i, from + 1);
    }
}

/// A step is exact and uses up travel: when group `i` takes its step, each of
/// its rectangles is shifted without leaving the representable range, the
/// remaining travel shrinks by the length of the step, and there is still
/// room for the travel that remains.
pub proof fn lemma_step(groups: Seq<Seq<Rectangle>>, i: int)
    requires
        well_formed(groups),
        has_room(groups),
        0 <= i < groups.len(),
    ensures
        well_formed(stepped(groups, i)),
        has_room(stepped(groups, i)),
        stepped(groups, i).len() == groups.len(),
        travel(stepped(groups, i)) == travel(groups) - abs(step_of(groups[i]).0) - abs(
            step_of(groups[i]).1,
        ),
        forall|k: int|
            0 <= k < groups[i].len() ==> {
                &&& (#[trigger] stepped(groups, i)[i][k]).x == groups[i][k].x + step_of(groups[i]).0
                &&& stepped(groups, i)[i][k].y == groups[i][k].y + step_of(groups[i]).1
                &&& stepped(groups, i)[i][k].w == groups[i][k].w
                &&& stepped(groups, i)[i][k].h == groups[i][k].h
            },
{
    let step = step_of(groups[i]);
    let group = groups[i];
    let after = moved(group, step.0, step.1);
    let placed = stepped(groups, i);
    assert(placed == groups.update(i, after));
    assert(group.len() > 0);
    assert(fits(group[0], carry(groups, i, 0)));
    lemma_travel_remove(groups, i);
    assert(travel(groups) >= offset(group[0]));
    assert(abs(step.0) + abs(step.1) <= offset(group[0]));
    assert(after[0] == shifted(group[0], step.0, step.1));
    assert(offset(after[0]) == offset(group[0]) - abs(step.0) - abs(step.1));
    lemma_travel_update(groups, i, after);
    assert forall|k: int| 0 <= k < group.len() implies {
        &&& (#[trigger] placed[i][k]).x == group[k].x + step.0
        &&& placed[i][k].y == group[k].y + step.1
        &&& placed[i][k].w == group[k].w
        &&& placed[i][k].h == group[k].h
    } by {
        assert(fits(group[k], carry(groups, i, k)));
        assert(placed[i][k] == shifted(group[k], step.0, step.1));
    }
    assert forall|g: int, k: int| 0 <= g < placed.len() && 0 <= k < placed[g].len() implies fits(
        #[trigger] placed[g][k],
        carry(placed, g, k),
    ) by {
        if g == i {
            assert(fits(group[k], carry(groups, i, k)));
            assert(placed[i][k] == shifted(group[k], step.0, step.1));
        } else {
            assert(fits(groups[g][k], carry(groups, g, k)));
        }
    }
    assert forall|g: int| 0 <= g < placed.len() implies (#[trigger] placed[g]).len() > 0 by {
        if g != i {
            assert(groups[g].len() > 0);
        }
    }
}

/// A merge keeps the groups well formed and never adds travel.
pub proof fn lemma_merge(groups: Seq<Seq<Rectangle>>, i: int, j: int)
    requires
        well_formed(groups),
        has_room(groups),
        0 <= i < j < groups.len(),
    ensures
        well_formed(merged(groups, i, j)),
        has_room(merged(groups, i, j)),
        merged(groups, i, j).len() == groups.len() - 1,
        travel(merged(groups, i, j)) == travel(groups) - offset(groups[j][0]),
{
    let joined = groups.update(i, groups[i] + groups[j]);
    let after = merged(groups, i, j);
    assert(groups[i].len() > 0 && groups[j].len() > 0);
    assert(joined[i][0] == groups[i][0]);
    lemma_travel_update(groups, i, groups[i] + groups[j]);
    lemma_travel_remove(joined, j);
    assert forall|g: int| 0 <= g < after.len() implies (#[trigger] after[g]).len() > 0 by {
        if g < j {
            assert(after[g] == joined[g]);
            if g != i {
                assert(groups[g].len() > 0);
            }
        } else {
            assert(after[g] == joined[g + 1]);
            assert(groups[g + 1].len() > 0);
        }
    }
    assert forall|g: int, k: int| 0 <= g < after.len() && 0 <= k < after[g].len() implies fits(
        #[trigger] after[g][k],
        carry(after, g, k),
    ) by {
        if g == i {
            if k < groups[i].len() {
                assert(fits(groups[i][k], carry(groups, i, k)));
            } else {
                assert(after[g][k] == groups[j][k - groups[i].len()]);
                assert(fits(groups[j][k - groups[i].len()], carry(groups, j, k - groups[i].len())));
            }
        } else if g < j {
            assert(fits(groups[g][k], carry(groups, g, k)));
        } else {
            assert(after[g] == groups[g + 1]);
            assert(fits(groups[g + 1][k], carry(groups, g + 1, k)));
        }
    }
}

/// Replacing a group changes the room count by the difference of the two sizes.
pub proof fn lemma_room_count_update(groups: Seq<Seq<Rectangle>>, i: int, group: Seq<Rectangle>)
    requires
        0 <= i < groups.len(),
    ensures
        room_count(groups.update(i, group)) == room_count(groups) - groups[i].len() + group.len(),
    decreases groups.len(),
{
    if i == groups.len() - 1 {
        assert(groups.update(i, group).drop_last() =~= groups.drop_last());
    } else {
        assert(groups.update(i, group).drop_last() =~= groups.drop_last().update(i, group));
        lemma_room_count_update(groups.drop_last(), i, group);
    }
}

/// Removing a group takes its rectangles out of the room count.
pub proof fn lemma_room_count_remove(groups: Seq<Seq<Rectangle>>, j: int)
    requires
        0 <= j < groups.len(),
    ensures
        room_count(groups.remove(j)) == room_count(groups) - groups[j].len(),
    decreases groups.len(),
{
    if j == groups.len() - 1 {
        assert(groups.remove(j) =~= groups.drop_last());
    } else {
        assert(groups.remove(j).drop_last() =~= groups.drop_last().remove(j));
        assert(groups.remove(j).last() == groups.last());
        lemma_room_count_remove(groups.drop_last(), j);
    }
}

/// A step neither adds nor removes rooms, does not change their sizes, and
/// keeps connected groups connected.
pub proof fn lemma_step_keeps_rooms(groups: Seq<Seq<Rectangle>>, i: int)
    requires
        well_formed(groups),
        has_room(groups),
        0 <= i < groups.len(),
    ensures
        room_count(stepped(groups, i)) == room_count(groups),
        all_occupy_space(groups) ==> all_occupy_space(stepped(groups, i)),
        all_connected(groups) ==> all_connected(stepped(groups, i)),
{
    let step = step_of(groups[i]);
    let placed = stepped(groups, i);
    lemma_step(groups, i);
    lemma_room_count_update(groups, i, moved(groups[i], step.0, step.1));
    if all_occupy_space(groups) {
        assert forall|g: int, k: int| 0 <= g < placed.len() && 0 <= k < placed[g].len() implies (
        #[trigger] placed[g][k]).occupies_space() by {
            if g == i {
                assert(groups[i][k].occupies_space());
            } else {
                assert(groups[g][k].occupies_space());
            }
        }
    }
    if all_connected(groups) {
        assert forall|g: int| 0 <= g < placed.len() implies connected(#[trigger] placed[g]) by {
            if g == i {
                assert(connected(groups[i]));
                lemma_connected_after_shift(groups[i], placed[i], step.0, step.1);
            } else {
                assert(connected(groups[g]));
            }
        }
    }
}

/// A merge neither adds nor removes rooms, and merging two connected groups
/// that collide gives a connected group.
pub proof fn lemma_merge_keeps_rooms(groups: Seq<Seq<Rectangle>>, i: int, j: int)
    requires
        0 <= i < j < groups.len(),
        collide(groups[i], groups[j]),
    ensures
        room_count(merged(groups, i, j)) == room_count(groups),
        all_occupy_space(groups) ==> all_occupy_space(merged(groups, i, j)),
        all_connected(groups) ==> all_connected(merged(groups, i, j)),
{
    let joined = groups.update(i, groups[i] + groups[j]);
    let after = merged(groups, i, j);
    lemma_room_count_update(groups, i, groups[i] + groups[j]);
    lemma_room_count_remove(joined, j);
    assert forall|g: int| 0 <= g < after.len() implies #[trigger] after[g] == (if g == i {
        groups[i] + groups[j]
    } else if g < j {
        groups[g]
    } else {
        groups[g + 1]
    }) by {
        if g < j {
            assert(after[g] == joined[g]);
        } else {
            assert(after[g] == joined[g + 1]);
        }
    }
    if all_occupy_space(groups) {
        assert forall|g: int, k: int| 0 <= g < after.len() && 0 <= k < after[g].len() implies (
        #[trigger] after[g][k]).occupies_space() by {
            if g == i {
                if k < groups[i].len() {
                    assert(groups[i][k].occupies_space());
                } else {
                    assert(groups[j][k - groups[i].len()].occupies_space());
                }
            } else if g < j {
                assert(groups[g][k].occupies_space());
            } else {
                assert(groups[g + 1][k].occupies_space());
            }
        }
    }
    if all_connected(groups) {
        assert forall|g: int| 0 <= g < after.len() implies connected(#[trigger] after[g]) by {
            if g == i {
                assert(connected(groups[i]) && connected(groups[j]));
                let a = choose|a: int|
                    0 <= a < groups[i].len() && overlaps_any(#[trigger] groups[i][a], groups[j]);
                let b = choose|b: int|
                    0 <= b < groups[j].len() && overlapping(groups[i][a], #[trigger] groups[j][b]);
                lemma_connected_after_union(groups[i], groups[j], a, b);
            } else if g < j {
                assert(connected(groups[g]));
            } else {
                assert(connected(groups[g + 1]));
            }
        }
    }
}

/// What the rest of a round keeps: the groups stay well formed with room to
/// move, no room is added or lost, rooms keep occupying space, connected
/// groups stay connected, at least one group is left, and the remaining work
/// does not grow.
pub proof fn lemma_sweep_from(groups: Seq<Seq<Rectangle>>, i: int)
    requires
        well_formed(groups),
        has_room(groups),
        0 <= i <= groups.len(),
    ensures
        well_formed(sweep_from(groups, i)),
        has_room(sweep_from(groups, i)),
        remaining_work(sweep_from(groups, i)) <= remaining_work(groups),
        sweep_from(groups, i).len() <= groups.len(),
        groups.len() > 0 ==> sweep_from(groups, i).len() > 0,
        room_count(sweep_from(groups, i)) == room_count(groups),
        all_occupy_space(groups) ==> all_occupy_space(sweep_from(groups, i)),
        all_connected(groups) ==> all_connected(sweep_from(groups, i)),
    decreases groups.len() - i,
{
    if i < groups.len() {
        let placed = stepped(groups, i);
        lemma_step(groups, i);
        lemma_step_keeps_rooms(groups, i);
        let j = first_collision(placed, i, i + 1);
        lemma_first_collision(placed, i, i + 1);
        if i < j < placed.len() {
            lemma_merge(placed, i, j);
            lemma_merge_keeps_rooms(placed, i, j);
            lemma_sweep_from(merged(placed, i, j), i);
        } else {
            lemma_sweep_from(placed, i + 1);
        }
    }
}

/// A group whose first rectangle occupies space and that is not anchored
/// takes a real step.
proof fn lemma_unanchored_group_moves(group: Seq<Rectangle>)
    requires
        group.len() > 0,
        group[0].occupies_space(),
        !anchored(group),
    ensures
        abs(step_of(group).0) + abs(step_of(group).1) >= 1,
{
    if group[0].x == 0 && group[0].y == 0 {
        assert(overlapping(origin_probe(), group[0]));
    }
}

/// Two anchored groups collide: both cover the origin cell.
proof fn lemma_anchored_groups_collide(g1: Seq<Rectangle>, g2: Seq<Rectangle>)
    requires
        anchored(g1),
        anchored(g2),
    ensures
        collide(g1, g2),
{
    let a = choose|a: int| 0 <= a < g1.len() && overlapping(origin_probe(), #[trigger] g1[a]);
    let b = choose|b: int| 0 <= b < g2.len() && overlapping(origin_probe(), #[trigger] g2[b]);
    assert(overlapping(g1[a], g2[b]));
    assert(overlaps_any(g1[a], g2));
}

/// A group that takes no step stays where it is.
proof fn lemma_anchored_group_stays(groups: Seq<Seq<Rectangle>>, i: int)
    requires
        0 <= i < groups.len(),
        anchored(groups[i]),
    ensures
        stepped(groups, i) == groups,
{
    assert(moved(groups[i], 0, 0) =~= groups[i]);
    assert(stepped(groups, i) =~= groups);
}

/// Every round makes progress: while more than one group is left, a round
/// lowers the remaining work. Either the first group moves or absorbs another
/// one, or it is anchored and alone at the origin, and then the second group
/// is not anchored and moves.
pub proof fn lemma_round_makes_progress(groups: Seq<Seq<Rectangle>>)
    requires
        ready(groups),
        groups.len() >= 2,
    ensures
        ready(sweep(groups)),
        sweep(groups).len() >= 1,
        remaining_work(sweep(groups)) < remaining_work(groups),
{
    lemma_sweep_from(groups, 0);
    let placed = stepped(groups, 0);
    lemma_step(groups, 0);
    lemma_step_keeps_rooms(groups, 0);
    let j = first_collision(placed, 0, 1);
    lemma_first_collision(placed, 0, 1);
    assert(groups[0][0].occupies_space());
    if !anchored(groups[0]) {
        lemma_unanchored_group_moves(groups[0]);
    } else {
        lemma_anchored_group_stays(groups, 0);
    }
    if 0 < j < placed.len() {
        lemma_merge(placed, 0, j);
        lemma_sweep_from(merged(placed, 0, j), 0);
    } else {
        lemma_sweep_from(placed, 1);
        if anchored(groups[0]) {
            assert(!collide(placed[0], placed[1]));
            if anchored(placed[1]) {
                lemma_anchored_groups_collide(placed[0], placed[1]);
            }
            assert(placed[1][0].occupies_space());
            lemma_unanchored_group_moves(placed[1]);
            let placed2 = stepped(placed, 1);
            lemma_step(placed, 1);
            let j2 = first_collision(placed2, 1, 2);
            lemma_first_collision(placed2, 1, 2);
            if 1 < j2 < placed2.len() {
                lemma_merge(placed2, 1, j2);
                lemma_sweep_from(merged(placed2, 1, j2), 1);
            } else {
                lemma_sweep_from(placed2, 2);
            }
        }
    }
}

/// What compaction comes to: the rounds end with exactly one group, which
/// holds every room that there was, and is connected if the groups were.
pub proof fn lemma_settle(groups: Seq<Seq<Rectangle>>)
    requires
        ready(groups),
        groups.len() > 0,
    ensures
        settle(groups).len() == 1,
        ready(settle(groups)),
        room_count(settle(groups)) == room_count(groups),
        all_connected(groups) ==> all_connected(settle(groups)),
    decreases remaining_work(groups),
{
    if groups.len() > 1 {
        lemma_round_makes_progress(groups);
        lemma_sweep_from(groups, 0);
        lemma_settle(sweep(groups));
    }
}

/// Rooms taken one by one form as many groups as there are rooms, each connected.
pub proof fn lemma_singletons(rooms: Seq<Rectangle>)
    ensures
        room_count(singletons(rooms)) == rooms.len(),
        all_connected(singletons(rooms)),
        well_formed(singletons(rooms)),
    decreases rooms.len(),
{
    let groups = singletons(rooms);
    if rooms.len() > 0 {
        lemma_singletons(rooms.drop_last());
        assert(groups.drop_last() =~= singletons(rooms.drop_last()));
    }
    assert forall|g: int| 0 <= g < groups.len() implies connected(#[trigger] groups[g]) by {
        lemma_single_room_connected(rooms[g]);
    }
}

/// Compaction comes to an end, and it ends with a single group.
pub proof fn compaction_leaves_one_group(rooms: Seq<Rectangle>)
    requires
        compactable(rooms),
    ensures
        settle(singletons(rooms)).len() == 1,
{
    lemma_compactable_ready(rooms);
    lemma_settle(singletons(rooms));
}

/// Compaction neither creates nor destroys a room.
pub proof fn compaction_conserves_rooms(rooms: Seq<Rectangle>)
    requires
        compactable(rooms),
    ensures
        compacted(rooms).len() == rooms.len(),
{
    lemma_compactable_ready(rooms);
    lemma_singletons(rooms);
    lemma_settle(singletons(rooms));
    let end = settle(singletons(rooms));
    assert(end.drop_last() =~= Seq::<Seq<Rectangle>>::empty());
    assert(room_count(end.drop_last()) == 0);
}

/// After compaction the rooms form one connected cluster: any room can be
/// reached from any other through rooms that overlap.
pub proof fn compaction_connects_rooms(rooms: Seq<Rectangle>)
    requires
        compactable(rooms),
    ensures
        connected(compacted(rooms)),
{
    lemma_compactable_ready(rooms);
    lemma_singletons(rooms);
    lemma_settle(singletons(rooms));
}

/// Compaction is repeatable: equal rooms compact to equal clusters.
pub proof fn compaction_is_repeatable(first: Seq<Rectangle>, second: Seq<Rectangle>)
    requires
        first == second,
    ensures
        compacted(first) == compacted(second),
{
}

/// Compaction leaves every room with a positive width and height.
pub proof fn compaction_keeps_rooms_solid(rooms: Seq<Rectangle>)
    requires
        compactable(rooms),
    ensures
        forall|k: int|
            0 <= k < compacted(rooms).len() ==> (#[trigger] compacted(rooms)[k]).occupies_space(),
{
    lemma_compactable_ready(rooms);
    lemma_settle(singletons(rooms));
}

/// The sizes of the rectangles of all groups together.
pub open spec fn all_sizes(groups: Seq<Seq<Rectangle>>) -> Multiset<(u32, u32)>
    decreases groups.len(),
{
    if groups.len() == 0 {
        Multiset::empty()
    } else {
        all_sizes(groups.drop_last()).add(sizes(groups.last()))
    }
}

/// The sizes of two sequences put together are the sizes of both.
pub proof fn lemma_sizes_of_both(a: Seq<Rectangle>, b: Seq<Rectangle>)
    ensures
        sizes(a + b) == sizes(a).add(sizes(b)),
{
    let sa = Seq::new(a.len(), |k: int| size_of(a[k]));
    let sb = Seq::new(b.len(), |k: int| size_of(b[k]));
    let sab = Seq::new((a + b).len(), |k: int| size_of((a + b)[k]));
    assert(sab =~= sa + sb);
    lemma_multiset_commutative(sa, sb);
}

/// Rectangles that keep their widths and heights keep their sizes.
pub proof fn lemma_sizes_kept(before: Seq<Rectangle>, after: Seq<Rectangle>)
    requires
        before.len() == after.len(),
        forall|k: int|
            0 <= k < before.len() ==> (#[trigger] after[k]).w == before[k].w && after[k].h
                == before[k].h,
    ensures
        sizes(after) == sizes(before),
{
    assert(Seq::new(after.len(), |k: int| size_of(after[k])) =~= Seq::new(
        before.len(),
        |k: int| size_of(before[k]),
    ));
}

/// Replacing a group exchanges its sizes for those of the new group.
pub proof fn lemma_all_sizes_update(groups: Seq<Seq<Rectangle>>, i: int, group: Seq<Rectangle>)
    requires
        0 <= i < groups.len(),
    ensures
        all_sizes(groups.update(i, group)).add(sizes(groups[i])) == all_sizes(groups).add(
            sizes(group),
        ),
    decreases groups.len(),
{
    let changed = groups.update(i, group);
    if i == groups.len() - 1 {
        assert(changed.drop_last() =~= groups.drop_last());
    } else {
        assert(changed.drop_last() =~= groups.drop_last().update(i, group));
        lemma_all_sizes_update(groups.drop_last(), i, group);
        let x = all_sizes(groups.drop_last().update(i, group));
        let y = all_sizes(groups.drop_last());
        assert forall|v: (u32, u32)|
            all_sizes(changed).add(sizes(groups[i])).count(v) == all_sizes(groups).add(
                sizes(group),
            ).count(v) by {
            assert(x.add(sizes(groups[i])).count(v) == y.add(sizes(group)).count(v));
        }
    }
    assert(all_sizes(changed).add(sizes(groups[i])) =~= all_sizes(groups).add(sizes(group)));
}

/// Removing a group takes its sizes out.
pub proof fn lemma_all_sizes_remove(groups: Seq<Seq<Rectangle>>, j: int)
    requires
        0 <= j < groups.len(),
    ensures
        all_sizes(groups.remove(j)).add(sizes(groups[j])) == all_sizes(groups),
    decreases groups.len(),
{
    if j == groups.len() - 1 {
        assert(groups.remove(j) =~= groups.drop_last());
    } else {
        assert(groups.remove(j).drop_last() =~= groups.drop_last().remove(j));
        assert(groups.remove(j).last() == groups.last());
        lemma_all_sizes_remove(groups.drop_last(), j);
        let x = all_sizes(groups.drop_last().remove(j));
        assert forall|v: (u32, u32)|
            all_sizes(groups.remove(j)).add(sizes(groups[j])).count(v) == all_sizes(groups).count(
                v,
            ) by {
            assert(x.add(sizes(groups[j])).count(v) == all_sizes(groups.drop_last()).count(v));
        }
    }
    assert(all_sizes(groups.remove(j)).add(sizes(groups[j])) =~= all_sizes(groups));
}

/// Neither a step nor a merge changes the sizes of the rooms.
pub proof fn lemma_sizes_through_step_and_merge(groups: Seq<Seq<Rectangle>>, i: int, j: int)
    requires
        well_formed(groups),
        has_room(groups),
        0 <= i < groups.len(),
    ensures
        all_sizes(stepped(groups, i)) == all_sizes(groups),
        i < j < groups.len() ==> all_sizes(merged(groups, i, j)) == all_sizes(groups),
{
    let step = step_of(groups[i]);
    lemma_step(groups, i);
    lemma_sizes_kept(groups[i], stepped(groups, i)[i]);
    lemma_all_sizes_update(groups, i, moved(groups[i], step.0, step.1));
    assert forall|v: (u32, u32)|
        all_sizes(stepped(groups, i)).count(v) == all_sizes(groups).count(v) by {
        assert(all_sizes(stepped(groups, i)).add(sizes(groups[i])).count(v) == all_sizes(
            groups,
        ).add(sizes(stepped(groups, i)[i])).count(v));
    }
    assert(all_sizes(stepped(groups, i)) =~= all_sizes(groups));
    if i < j < groups.len() {
        let joined = groups.update(i, groups[i] + groups[j]);
        lemma_sizes_of_both(groups[i], groups[j]);
        lemma_all_sizes_update(groups, i, groups[i] + groups[j]);
        lemma_all_sizes_remove(joined, j);
        assert forall|v: (u32, u32)|
            all_sizes(merged(groups, i, j)).count(v) == all_sizes(groups).count(v) by {
            assert(all_sizes(joined).add(sizes(groups[i])).count(v) == all_sizes(groups).add(
                sizes(groups[i] + groups[j]),
            ).count(v));
            assert(all_sizes(merged(groups, i, j)).add(sizes(groups[j])).count(v) == all_sizes(
                joined,
            ).count(v));
        }
        assert(all_sizes(merged(groups, i, j)) =~= all_sizes(groups));
    }
}

/// The rest of a round does not change the sizes of the rooms.
pub proof fn lemma_sweep_keeps_sizes(groups: Seq<Seq<Rectangle>>, i: int)
    requires
        well_formed(groups),
        has_room(groups),
        0 <= i <= groups.len(),
    ensures
        all_sizes(sweep_from(groups, i)) == all_sizes(groups),
    decreases groups.len() - i,
{
    if i < groups.len() {
        let placed = stepped(groups, i);
        lemma_step(groups, i);
        lemma_sizes_through_step_and_merge(groups, i, i);
        let j = first_collision(placed, i, i + 1);
        lemma_first_collision(placed, i, i + 1);
        if i < j < placed.len() {
            lemma_merge(placed, i, j);
            lemma_sizes_through_step_and_merge(placed, i, j);
            lemma_sweep_keeps_sizes(merged(placed, i, j), i);
        } else {
            lemma_sweep_keeps_sizes(placed, i + 1);
        }
    }
}

/// The rounds do not change the sizes of the rooms.
pub proof fn lemma_settle_keeps_sizes(groups: Seq<Seq<Rectangle>>)
    requires
        ready(groups),
    ensures
        all_sizes(settle(groups)) == all_sizes(groups),
    decreases remaining_work(groups),
{
    if groups.len() > 1 {
        lemma_round_makes_progress(groups);
        lemma_sweep_keeps_sizes(groups, 0);
        lemma_settle_keeps_sizes(sweep(groups));
    }
}

/// Rooms taken one by one have the sizes of the rooms.
pub proof fn lemma_sizes_of_singletons(rooms: Seq<Rectangle>)
    ensures
        all_sizes(singletons(rooms)) == sizes(rooms),
    decreases rooms.len(),
{
    if rooms.len() == 0 {
        let none = Seq::new(rooms.len(), |k: int| size_of(rooms[k]));
        assert forall|v: (u32, u32)| sizes(rooms).count(v) == 0 by {
            vstd::seq_lib::to_multiset_contains(none, v);
        }
        assert(sizes(rooms) =~= Multiset::<(u32, u32)>::empty());
    } else {
        let earlier = rooms.drop_last();
        let last = seq![rooms.last()];
        lemma_sizes_of_singletons(earlier);
        assert(singletons(rooms).drop_last() =~= singletons(earlier));
        assert(singletons(rooms).last() =~= last);
        assert(all_sizes(singletons(rooms)) == all_sizes(singletons(earlier)).add(sizes(last)));
        assert(rooms =~= earlier + last);
        lemma_sizes_of_both(earlier, last);
    }
}

/// Compaction keeps the rooms' sizes: the cluster holds a room of a given
/// width and height exactly as often as such a room was handed in.
pub proof fn compaction_keeps_sizes(rooms: Seq<Rectangle>)
    requires
        compactable(rooms),
    ensures
        sizes(compacted(rooms)) == sizes(rooms),
{
    lemma_compactable_ready(rooms);
    lemma_singletons(rooms);
    lemma_settle(singletons(rooms));
    lemma_settle_keeps_sizes(singletons(rooms));
    lemma_sizes_of_singletons(rooms);
    let end = settle(singletons(rooms));
    assert(end.drop_last() =~= Seq::<Seq<Rectangle>>::empty());
    assert(all_sizes(end.drop_last()) =~= Multiset::<(u32, u32)>::empty());
    assert(all_sizes(end) =~= sizes(end[0]));
}

} // verus!
