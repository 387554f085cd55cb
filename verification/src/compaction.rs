//! Compaction: pulling scattered rooms together into one cluster at the origin.
//!
//! Rooms start as groups of one. In every round each group takes a unit step
//! towards the origin unless it already covers the origin cell, and a group
//! that has come to overlap a later group absorbs it. Groups move as rigid
//! bodies. The rounds end when a single group is left.

use crate::compaction_laws::{
    compaction_connects_rooms, compaction_conserves_rooms, compaction_keeps_rooms_solid,
    compaction_keeps_sizes, lemma_compactable_ready, lemma_merge, lemma_round_makes_progress,
    lemma_step, lemma_sweep_from, lemma_total_offset_of_prefix,
};
use crate::connectivity::connected;
use crate::rectangle::{intersects_any, overlaps_any, sizes, Rectangle};
use vstd::math::abs;
use vstd::prelude::*;

verus! {

/// The unit cell at the origin. A group that overlaps it has arrived.
pub open spec fn origin_probe() -> Rectangle {
    Rectangle { x: 0, y: 0, w: 1, h: 1 }
}

/// A group is anchored once one of its rectangles covers the origin cell.
pub open spec fn anchored(group: Seq<Rectangle>) -> bool {
    overlaps_any(origin_probe(), group)
}

/// The unit step that brings a coordinate closer to zero.
pub open spec fn toward_origin(c: int) -> int {
    if c < 0 {
        1
    } else if c > 0 {
        -1
    } else {
        0
    }
}

/// The step a group takes in one round: none when it is anchored, otherwise
/// one unit towards the origin along each axis, judged by its first rectangle.
pub open spec fn step_of(group: Seq<Rectangle>) -> (int, int) {
    if anchored(group) {
        (0, 0)
    } else {
        (toward_origin(group[0].x as int), toward_origin(group[0].y as int))
    }
}

/// A rectangle shifted by `(dx, dy)`.
pub open spec fn shifted(r: Rectangle, dx: int, dy: int) -> Rectangle {
    Rectangle { x: (r.x + dx) as i32, y: (r.y + dy) as i32, w: r.w, h: r.h }
}

/// A group shifted as a rigid body by `(dx, dy)`.
pub open spec fn moved(group: Seq<Rectangle>, dx: int, dy: int) -> Seq<Rectangle> {
    Seq::new(group.len(), |k: int| shifted(group[k], dx, dy))
}

/// Two groups collide when a rectangle of one overlaps a rectangle of the other.
pub open spec fn collide(g1: Seq<Rectangle>, g2: Seq<Rectangle>) -> bool {
    exists|a: int| 0 <= a < g1.len() && overlaps_any(#[trigger] g1[a], g2)
}

/// The index of the first group at or after `from` that collides with group
/// `i`, or the number of groups when there is none.
pub open spec fn first_collision(groups: Seq<Seq<Rectangle>>, i: int, from: int) -> int
    decreases groups.len() - from,
{
    if from >= groups.len() {
        groups.len() as int
    } else if collide(groups[i], groups[from]) {
        from
    } else {
        first_collision(groups, i, from + 1)
    }
}

/// The groups after group `i` has taken its step.
pub open spec fn stepped(groups: Seq<Seq<Rectangle>>, i: int) -> Seq<Seq<Rectangle>> {
    let step = step_of(groups[i]);
    groups.update(i, moved(groups[i], step.0, step.1))
}

/// The groups after group `i` has absorbed group `j`: the rectangles of `j`
/// are appended to those of `i`, and `j` leaves its place.
pub open spec fn merged(groups: Seq<Seq<Rectangle>>, i: int, j: int) -> Seq<Seq<Rectangle>> {
    groups.update(i, groups[i] + groups[j]).remove(j)
}

/// The rest of a round, from group `i` on. Group `i` takes its step. If it
/// then collides with a later group, it absorbs the first such group and is
/// examined again at the same index. Otherwise the round goes on with the
/// next group.
pub open spec fn sweep_from(groups: Seq<Seq<Rectangle>>, i: int) -> Seq<Seq<Rectangle>>
    decreases groups.len() - i,
{
    if 0 <= i < groups.len() {
        let placed = stepped(groups, i);
        let j = first_collision(placed, i, i + 1);
        if i < j < placed.len() {
            sweep_from(merged(placed, i, j), i)
        } else {
            sweep_from(placed, i + 1)
        }
    } else {
        groups
    }
}

/// One full round over all groups.
pub open spec fn sweep(groups: Seq<Seq<Rectangle>>) -> Seq<Seq<Rectangle>> {
    sweep_from(groups, 0)
}

/// How far a rectangle's corner is from the origin, counted in unit steps
/// along each axis.
pub open spec fn offset(r: Rectangle) -> nat {
    abs(r.x as int) + abs(r.y as int)
}

/// The total distance that the groups' first rectangles still have to the
/// origin. No rectangle can be carried further than this in the rounds to come.
pub open spec fn travel(groups: Seq<Seq<Rectangle>>) -> nat
    decreases groups.len(),
{
    if groups.len() == 0 {
        0
    } else {
        travel(groups.drop_last()) + offset(groups.last()[0])
    }
}

/// Whether a rectangle's corner can be carried `slack` steps in any direction
/// and remain representable.
pub open spec fn fits(r: Rectangle, slack: int) -> bool {
    &&& i32::MIN + slack <= r.x <= i32::MAX - slack
    &&& i32::MIN + slack <= r.y <= i32::MAX - slack
}

/// Every group holds at least one rectangle.
pub open spec fn well_formed(groups: Seq<Seq<Rectangle>>) -> bool {
    forall|g: int| 0 <= g < groups.len() ==> (#[trigger] groups[g]).len() > 0
}

/// How far rectangle `k` of group `g` may still be carried by others. The
/// first rectangle of a group leads it: its own way to the origin brings it
/// closer, so only the travel of the other groups can carry it. Every other
/// rectangle follows a leader, for as long as all groups travel.
pub open spec fn carry(groups: Seq<Seq<Rectangle>>, g: int, k: int) -> int {
    if k == 0 {
        travel(groups) - offset(groups[g][0])
    } else {
        travel(groups) as int
    }
}

/// No rectangle can be carried out of the representable range.
pub open spec fn has_room(groups: Seq<Seq<Rectangle>>) -> bool {
    forall|g: int, k: int|
        0 <= g < groups.len() && 0 <= k < groups[g].len() ==> fits(
            #[trigger] groups[g][k],
            carry(groups, g, k),
        )
}

/// Every rectangle of every group occupies space.
pub open spec fn all_occupy_space(groups: Seq<Seq<Rectangle>>) -> bool {
    forall|g: int, k: int|
        0 <= g < groups.len() && 0 <= k < groups[g].len() ==> (
        #[trigger] groups[g][k]).occupies_space()
}

/// Every group is a connected cluster.
pub open spec fn all_connected(groups: Seq<Seq<Rectangle>>) -> bool {
    forall|g: int| 0 <= g < groups.len() ==> connected(#[trigger] groups[g])
}

/// The number of rectangles in all groups together.
pub open spec fn room_count(groups: Seq<Seq<Rectangle>>) -> nat
    decreases groups.len(),
{
    if groups.len() == 0 {
        0
    } else {
        room_count(groups.drop_last()) + groups.last().len()
    }
}

/// Groups on which the rounds can run: no group is empty, every rectangle
/// occupies space, and no step can leave the representable range.
pub open spec fn ready(groups: Seq<Seq<Rectangle>>) -> bool {
    well_formed(groups) && has_room(groups) && all_occupy_space(groups)
}

/// What the rounds still have to do: the remaining travel plus the number of
/// groups. Every round lowers it.
pub open spec fn remaining_work(groups: Seq<Seq<Rectangle>>) -> nat {
    travel(groups) + groups.len()
}

/// The groups after as many rounds as it takes to leave a single group.
pub open spec fn settle(groups: Seq<Seq<Rectangle>>) -> Seq<Seq<Rectangle>>
    decreases remaining_work(groups),
    when ready(groups)
    via settle_terminates
{
    if groups.len() <= 1 {
        groups
    } else {
        settle(sweep(groups))
    }
}

/// The rounds come to an end: each round lowers the remaining work.
#[via_fn]
proof fn settle_terminates(groups: Seq<Seq<Rectangle>>) {
    if groups.len() > 1 {
        lemma_round_makes_progress(groups);
    }
}

/// Each room as a group of its own.
pub open spec fn singletons(rooms: Seq<Rectangle>) -> Seq<Seq<Rectangle>> {
    Seq::new(rooms.len(), |k: int| seq![rooms[k]])
}

/// The distance of all rooms' corners from the origin, added up.
pub open spec fn total_offset(rooms: Seq<Rectangle>) -> nat
    decreases rooms.len(),
{
    if rooms.len() == 0 {
        0
    } else {
        total_offset(rooms.drop_last()) + offset(rooms.last())
    }
}

/// Rooms that can be compacted: there is at least one, each occupies space,
/// and each stays representable when it is carried as far as the other rooms
/// are, taken together, away from the origin.
pub open spec fn compactable(rooms: Seq<Rectangle>) -> bool {
    &&& rooms.len() > 0
    &&& forall|k: int| 0 <= k < rooms.len() ==> (#[trigger] rooms[k]).occupies_space()
    &&& forall|k: int|
        0 <= k < rooms.len() ==> fits(#[trigger] rooms[k], total_offset(rooms) - offset(rooms[k]))
}

/// The rooms after compaction: the one group that is left when the rounds end.
pub open spec fn compacted(rooms: Seq<Rectangle>) -> Seq<Rectangle> {
    settle(singletons(rooms))[0]
}

/// The groups as sequences of rectangles.
pub open spec fn views(groups: Seq<Vec<Rectangle>>) -> Seq<Seq<Rectangle>> {
    Seq::new(groups.len(), |g: int| groups[g]@)
}

/// Shifts every rectangle of a group by `(dx, dy)`.
pub fn move_group(rects: &mut Vec<Rectangle>, dx: i32, dy: i32)
    requires
        forall|k: int|
            0 <= k < old(rects).len() ==> i32::MIN <= (#[trigger] old(rects)[k]).x + dx <= i32::MAX
                && i32::MIN <= old(rects)[k].y + dy <= i32::MAX,
    ensures
        final(rects)@ == moved(old(rects)@, dx as int, dy as int),
{
    let ghost before = rects@;
    let mut k: usize = 0;
    while k < rects.len()
        invariant
            k <= rects.len(),
            rects.len() == before.len(),
            forall|m: int| 0 <= m < k ==> rects@[m] == shifted(before[m], dx as int, dy as int),
            forall|m: int| k <= m < before.len() ==> rects@[m] == before[m],
            forall|m: int|
                0 <= m < before.len() ==> i32::MIN <= (#[trigger] before[m]).x + dx <= i32::MAX
                    && i32::MIN <= before[m].y + dy <= i32::MAX,
        decreases rects.len() - k,
    {
        let r = rects[k];
        assert(r == before[k as int]);
        rects.set(k, Rectangle { x: r.x + dx, y: r.y + dy, w: r.w, h: r.h });
        k += 1;
    }
    assert(rects@ =~= moved(before, dx as int, dy as int));
}

/// Tells whether a group covers the origin cell.
pub fn is_anchored(group: &Vec<Rectangle>) -> (arrived: bool)
    ensures
        arrived == anchored(group@),
{
    let probe = Rectangle { x: 0, y: 0, w: 1, h: 1 };
    intersects_any(&probe, group)
}

/// The unit step that brings a coordinate closer to zero.
pub fn step_toward_origin(c: i32) -> (d: i32)
    ensures
        d == toward_origin(c as int),
{
    if c < 0 {
        1
    } else if c > 0 {
        -1
    } else {
        0
    }
}

/// The step that a group takes in one round.
pub fn group_step(group: &Vec<Rectangle>) -> (step: (i32, i32))
    requires
        group.len() > 0,
    ensures
        (step.0 as int, step.1 as int) == step_of(group@),
{
    if is_anchored(group) {
        (0, 0)
    } else {
        (step_toward_origin(group[0].x), step_toward_origin(group[0].y))
    }
}

/// Tells whether a rectangle of `g1` overlaps a rectangle of `g2`.
pub fn groups_collide(g1: &Vec<Rectangle>, g2: &Vec<Rectangle>) -> (hit: bool)
    ensures
        hit == collide(g1@, g2@),
{
    let mut a: usize = 0;
    while a < g1.len()
        invariant
            a <= g1.len(),
            forall|m: int| 0 <= m < a ==> !overlaps_any(#[trigger] g1@[m], g2@),
        decreases g1.len() - a,
    {
        if intersects_any(&g1[a], g2) {
            return true;
        }
        a += 1;
    }
    false
}

/// Finds the first group after `i` that collides with group `i`; returns the
/// number of groups when there is none.
pub fn find_collision(groups: &Vec<Vec<Rectangle>>, i: usize) -> (j: usize)
    requires
        i < groups.len(),
    ensures
        j == first_collision(views(groups@), i as int, i + 1),
        i < j <= groups.len(),
{
    let mut j: usize = i + 1;
    while j < groups.len()
        invariant
            i < j <= groups.len(),
            first_collision(views(groups@), i as int, j as int) == first_collision(
                views(groups@),
                i as int,
                i + 1,
            ),
        decreases groups.len() - j,
    {
        if groups_collide(&groups[i], &groups[j]) {
            return j;
        }
        j += 1;
    }
    j
}

/// Runs one round: every group in turn takes its step and absorbs the first
/// later group that it has come to collide with, as often as it finds one.
pub fn move_and_merge_groups(groups: &mut Vec<Vec<Rectangle>>)
    requires
        well_formed(views(old(groups)@)),
        has_room(views(old(groups)@)),
    ensures
        views(final(groups)@) == sweep(views(old(groups)@)),
        well_formed(views(final(groups)@)),
        has_room(views(final(groups)@)),
        final(groups).len() <= old(groups).len(),
        old(groups).len() > 0 ==> final(groups).len() > 0,
        room_count(views(final(groups)@)) == room_count(views(old(groups)@)),
        remaining_work(views(final(groups)@)) <= remaining_work(views(old(groups)@)),
{
    let ghost start = views(groups@);
    proof {
        lemma_sweep_from(start, 0);
    }
    let mut i: usize = 0;
    while i < groups.len()
        invariant
            i <= groups.len(),
            well_formed(views(groups@)),
            has_room(views(groups@)),
            sweep_from(views(groups@), i as int) == sweep(start),
        decreases groups.len() - i,
    {
        let ghost before = views(groups@);
        let (dx, dy) = group_step(&groups[i]);
        proof {
            lemma_step(before, i as int);
            assert forall|k: int| 0 <= k < groups@[i as int].len() implies i32::MIN <= (
            #[trigger] groups@[i as int][k]).x + dx <= i32::MAX && i32::MIN <= groups@[i as int][k].y
                + dy <= i32::MAX by {
                assert(before[i as int][k] == groups@[i as int][k]);
                assert(stepped(before, i as int)[i as int][k].x == before[i as int][k].x + dx);
            }
        }
        move_group(&mut groups[i], dx, dy);
        let ghost placed = views(groups@);
        assert(placed =~= stepped(before, i as int));
        let j = find_collision(groups, i);
        if j < groups.len() {
            proof {
                lemma_merge(placed, i as int, j as int);
            }
            let mut absorbed = groups.remove(j);
            groups[i].append(&mut absorbed);
            assert(views(groups@) =~= merged(placed, i as int, j as int));
        } else {
            i += 1;
        }
    }
}

/// Tells whether rooms can be compacted: there is at least one, each
/// occupies space, and none can be carried out of the representable range.
pub fn is_compactable(rooms: &Vec<Rectangle>) -> (ok: bool)
    ensures
        ok == compactable(rooms@),
{
    if rooms.len() == 0 {
        return false;
    }
    let mut total: i128 = 0;
    let mut k: usize = 0;
    while k < rooms.len()
        invariant
            k <= rooms.len(),
            0 <= total <= k * 0x1_0000_0000,
            total == total_offset(rooms@.take(k as int)),
            forall|m: int| 0 <= m < k ==> (#[trigger] rooms@[m]).occupies_space(),
        decreases rooms.len() - k,
    {
        let room = rooms[k];
        if room.w == 0 || room.h == 0 {
            return false;
        }
        proof {
            lemma_total_offset_of_prefix(rooms@, k as int);
        }
        total = total + distance(room.x) + distance(room.y);
        k += 1;
    }
    assert(rooms@.take(k as int) =~= rooms@);
    let mut m: usize = 0;
    while m < rooms.len()
        invariant
            m <= rooms.len(),
            0 <= total <= rooms.len() * 0x1_0000_0000,
            total == total_offset(rooms@),
            forall|g: int|
                0 <= g < m ==> fits(#[trigger] rooms@[g], total_offset(rooms@) - offset(rooms@[g])),
        decreases rooms.len() - m,
    {
        let room = rooms[m];
        let slack: i128 = total - distance(room.x) - distance(room.y);
        let low: i128 = i32::MIN as i128 + slack;
        let high: i128 = i32::MAX as i128 - slack;
        if (room.x as i128) < low || (room.x as i128) > high || (room.y as i128) < low || (
        room.y as i128) > high {
            return false;
        }
        m += 1;
    }
    true
}

/// The distance of a coordinate from zero.
pub fn distance(c: i32) -> (d: i128)
    ensures
        d == abs(c as int),
{
    if c < 0 {
        -(c as i128)
    } else {
        c as i128
    }
}

/// Compacts scattered rooms into one cluster around the origin and returns
/// the rooms of that cluster. The rooms handed in are left as they were.
pub fn compress_rooms(rooms: &mut Vec<Rectangle>) -> (result: Vec<Rectangle>)
    requires
        compactable(old(rooms)@),
    ensures
        final(rooms)@ == old(rooms)@,
        result@ == compacted(old(rooms)@),
        result.len() == old(rooms).len(),
        sizes(result@) == sizes(old(rooms)@),
        connected(result@),
        forall|k: int| 0 <= k < result.len() ==> (#[trigger] result@[k]).occupies_space(),
{
    let mut groups: Vec<Vec<Rectangle>> = Vec::new();
    let mut k: usize = 0;
    while k < rooms.len()
        invariant
            k <= rooms.len(),
            groups.len() == k,
            views(groups@) == singletons(rooms@.take(k as int)),
        decreases rooms.len() - k,
    {
        let ghost earlier = views(groups@);
        let mut group: Vec<Rectangle> = Vec::new();
        group.push(rooms[k]);
        assert(group@ =~= seq![rooms@[k as int]]);
        groups.push(group);
        k += 1;
        assert forall|g: int| 0 <= g < k implies #[trigger] views(groups@)[g] == singletons(
            rooms@.take(k as int),
        )[g] by {
            if g < k - 1 {
                assert(views(groups@)[g] == earlier[g]);
                assert(earlier[g] == seq![rooms@.take(k - 1)[g]]);
            }
        }
        assert(views(groups@) =~= singletons(rooms@.take(k as int)));
    }
    assert(rooms@.take(k as int) =~= rooms@);
    proof {
        lemma_compactable_ready(rooms@);
        compaction_conserves_rooms(rooms@);
        compaction_keeps_sizes(rooms@);
        compaction_connects_rooms(rooms@);
        compaction_keeps_rooms_solid(rooms@);
    }
    while groups.len() > 1
        invariant
            groups.len() >= 1,
            compactable(rooms@),
            ready(views(groups@)),
            settle(views(groups@)) == settle(singletons(rooms@)),
        decreases remaining_work(views(groups@)),
    {
        proof {
            lemma_round_makes_progress(views(groups@));
        }
        move_and_merge_groups(&mut groups);
    }
    groups.remove(0)
}

} // verus!
