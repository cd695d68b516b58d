//! Terraforming progress: how far the robot sees and what each terraforming
//! milestone unlocks.
use vstd::prelude::*;
use crate::types::Position;
use crate::world::{pos_in_bounds, World, START_VISION_RADIUS};

verus! {

/// The robot's vision radius after `last_milestone` terraforming milestones:
/// 6 tiles, plus one for every 5 milestones (every 10% of terraforming).
pub open spec fn vision_radius_spec(last_milestone: u32) -> int {
    START_VISION_RADIUS + last_milestone / 5
}

/// Whether `p` is within `radius` of `center` (Euclidean distance).
pub open spec fn within_radius(p: Position, center: Position, radius: int) -> bool {
    p.dist_sq(center) <= radius * radius
}

/// The robot's vision radius after `last_milestone` milestones.
pub fn vision_radius(last_milestone: u32) -> (r: i32)
    ensures
        r == vision_radius_spec(last_milestone),
{
    START_VISION_RADIUS + (last_milestone / 5) as i32
}

/// A coordinate farther than `r` from the centre along one axis is outside
/// the disk of radius `r`.
pub proof fn lemma_far_axis(a: int, b: int, r: int)
    requires
        r >= 0,
        a > r || a < -r,
    ensures
        a * a + b * b > r * r,
{
    assert(a * a > r * r) by (nonlinear_arith)
        requires
            r >= 0,
            a > r || a < -r,
    ;
    assert(b * b >= 0) by (nonlinear_arith);
}

/// Marks as explored every grid tile within the robot's vision radius of
/// `robot_position`; the radius grows with `last_milestone`.
pub fn update_fog_of_war(world: &mut World, robot_position: Position, last_milestone: u32)
    requires
        old(world).wf(),
        vision_radius_spec(last_milestone) <= 32767,
        i32::MIN + vision_radius_spec(last_milestone) <= robot_position.x <= i32::MAX
            - vision_radius_spec(last_milestone),
        i32::MIN + vision_radius_spec(last_milestone) <= robot_position.y <= i32::MAX
            - vision_radius_spec(last_milestone),
    ensures
        final(world).wf(),
        final(world).tiles == old(world).tiles,
        final(world).charging_stations == old(world).charging_stations,
        final(world).day_count == old(world).day_count,
        final(world).base_position == old(world).base_position,
        final(world).ice_stored == old(world).ice_stored,
        forall|p: Position|
            #[trigger] final(world).explored_at(p) == (old(world).explored_at(p) || (pos_in_bounds(p)
                && within_radius(p, robot_position, vision_radius_spec(last_milestone)))),
{
    let r = vision_radius(last_milestone);
    let ghost rr = r as int;
    let mut dy: i32 = -r;
    assert forall|p: Position| #[trigger] world.explored_at(p) == (old(world).explored_at(p) || (
    pos_in_bounds(p) && p.y < robot_position.y + dy && within_radius(p, robot_position, rr))) by {
        if p.y < robot_position.y + dy {
            lemma_far_axis(p.y - robot_position.y, p.x - robot_position.x, rr);
        }
    }
    while dy <= r
        invariant
            r == rr,
            rr == vision_radius_spec(last_milestone),
            6 <= rr <= 32767,
            -rr <= dy <= rr + 1,
            i32::MIN + rr <= robot_position.x <= i32::MAX - rr,
            i32::MIN + rr <= robot_position.y <= i32::MAX - rr,
            world.wf(),
            world.tiles == old(world).tiles,
            world.charging_stations == old(world).charging_stations,
            world.day_count == old(world).day_count,
            world.base_position == old(world).base_position,
            world.ice_stored == old(world).ice_stored,
            forall|p: Position|
                #[trigger] world.explored_at(p) == (old(world).explored_at(p) || (pos_in_bounds(p)
                    && p.y < robot_position.y + dy && within_radius(p, robot_position, rr))),
        decreases rr + 1 - dy,
    {
        let mut dx: i32 = -r;
        assert forall|p: Position| #[trigger] world.explored_at(p) == (old(world).explored_at(p) || (
        pos_in_bounds(p) && within_radius(p, robot_position, rr) && (p.y < robot_position.y + dy || (
        p.y == robot_position.y + dy && p.x < robot_position.x + dx)))) by {
            if p.y == robot_position.y + dy && p.x < robot_position.x + dx {
                lemma_far_axis(p.x - robot_position.x, p.y - robot_position.y, rr);
            }
        }
        while dx <= r
            invariant
                r == rr,
                6 <= rr <= 32767,
                -rr <= dy <= rr,
                -rr <= dx <= rr + 1,
                i32::MIN + rr <= robot_position.x <= i32::MAX - rr,
                i32::MIN + rr <= robot_position.y <= i32::MAX - rr,
                world.wf(),
                world.tiles == old(world).tiles,
                world.charging_stations == old(world).charging_stations,
                world.day_count == old(world).day_count,
                world.base_position == old(world).base_position,
                world.ice_stored == old(world).ice_stored,
                forall|p: Position|
                    #[trigger] world.explored_at(p) == (old(world).explored_at(p) || (pos_in_bounds(p)
                        && within_radius(p, robot_position, rr) && (p.y < robot_position.y + dy || (
                    p.y == robot_position.y + dy && p.x < robot_position.x + dx)))),
            decreases rr + 1 - dx,
        {
            proof {
                crate::world::lemma_square_bound(dx as int, rr);
                crate::world::lemma_square_bound(dy as int, rr);
                assert(rr * rr <= 32767 * 32767) by (nonlinear_arith)
                    requires
                        0 <= rr <= 32767,
                ;
            }
            let dist_sq = dx * dx + dy * dy;
            if dist_sq <= r * r {
                let pos = Position::new(robot_position.x + dx, robot_position.y + dy);
                let ghost before = *world;
                world.mark_as_explored(&pos);
                assert forall|p: Position| #[trigger] world.explored_at(p) == (old(world).explored_at(p)
                    || (pos_in_bounds(p) && within_radius(p, robot_position, rr) && (p.y
                    < robot_position.y + dy || (p.y == robot_position.y + dy && p.x
                    < robot_position.x + dx + 1)))) by {
                    assert(world.explored_at(p) == (before.explored_at(p) || (p == pos
                        && pos_in_bounds(pos))));
                    assert(before.explored_at(p) == (old(world).explored_at(p) || (pos_in_bounds(p)
                        && within_radius(p, robot_position, rr) && (p.y < robot_position.y + dy || (
                    p.y == robot_position.y + dy && p.x < robot_position.x + dx)))));
                }
            } else {
                assert forall|p: Position| #[trigger] world.explored_at(p) == (old(world).explored_at(p)
                    || (pos_in_bounds(p) && within_radius(p, robot_position, rr) && (p.y
                    < robot_position.y + dy || (p.y == robot_position.y + dy && p.x
                    < robot_position.x + dx + 1)))) by {
                    if p.y == robot_position.y + dy && p.x == robot_position.x + dx {
                        assert(!within_radius(p, robot_position, rr));
                    }
                }
            }
            dx += 1;
        }
        assert forall|p: Position| #[trigger] world.explored_at(p) == (old(world).explored_at(p) || (
        pos_in_bounds(p) && p.y < robot_position.y + dy + 1 && within_radius(p, robot_position, rr))) by {
            if p.y == robot_position.y + dy && p.x >= robot_position.x + dx {
                lemma_far_axis(p.x - robot_position.x, p.y - robot_position.y, rr);
            }
        }
        dy += 1;
    }
    assert forall|p: Position| #[trigger] world.explored_at(p) == (old(world).explored_at(p) || (
    pos_in_bounds(p) && within_radius(p, robot_position, rr))) by {
        if p.y >= robot_position.y + dy {
            lemma_far_axis(p.y - robot_position.y, p.x - robot_position.x, rr);
        }
    }
}

/// What a terraforming milestone improves; the kinds take turns, one per
/// milestone (2% of terraforming each).
#[derive(Clone, Copy, PartialEq, Eq, Debug, Structural)]
pub enum MilestoneUpgrade {
    /// Milestones 1, 6, 11, ...: the robot sees farther.
    Vision,
    /// Milestones 2, 7, 12, ...: the battery holds 5 more energy.
    BatteryCapacity,
    /// Milestones 3, 8, 13, ...: moving costs less energy.
    MovementEfficiency,
    /// Milestones 4, 9, 14, ...: recharging is announced as faster.
    RechargeRate,
    /// Milestones 5, 10, 15, ...: collecting costs less energy.
    CollectionEfficiency,
}

/// The upgrade that milestone number `milestone` unlocks.
pub open spec fn upgrade_for(milestone: u32) -> MilestoneUpgrade {
    if milestone % 5 == 1 {
        MilestoneUpgrade::Vision
    } else if milestone % 5 == 2 {
        MilestoneUpgrade::BatteryCapacity
    } else if milestone % 5 == 3 {
        MilestoneUpgrade::MovementEfficiency
    } else if milestone % 5 == 4 {
        MilestoneUpgrade::RechargeRate
    } else {
        MilestoneUpgrade::CollectionEfficiency
    }
}

/// What reaching a terraforming milestone brings.
#[derive(Clone, Copy, PartialEq, Eq, Debug, Structural)]
pub struct MilestoneReport {
    /// The terraforming percentage of the milestone (2% per milestone).
    pub percent: u32,
    /// The upgrade that the milestone unlocks.
    pub upgrade: MilestoneUpgrade,
    /// Whether Mars is fully terraformed (100% or more).
    pub terraforming_complete: bool,
}

/// The report of milestone number `milestone`: its percentage, its upgrade,
/// and whether terraforming is complete.
pub fn milestone_report(milestone: u32) -> (report: MilestoneReport)
    requires
        milestone <= u32::MAX / 2,
    ensures
        report.percent == 2 * milestone,
        report.upgrade == upgrade_for(milestone),
        report.terraforming_complete == (2 * milestone >= 100),
{
    let percent = milestone * 2;
    let upgrade = match milestone % 5 {
        1 => MilestoneUpgrade::Vision,
        2 => MilestoneUpgrade::BatteryCapacity,
        3 => MilestoneUpgrade::MovementEfficiency,
        4 => MilestoneUpgrade::RechargeRate,
        _ => MilestoneUpgrade::CollectionEfficiency,
    };
    MilestoneReport { percent, upgrade, terraforming_complete: percent >= 100 }
}

/// The milestones that a rise of terraforming from milestone `last` to
/// milestone `current` reaches, in order: `last + 1` up to `current`, none
/// when terraforming did not rise.
pub open spec fn milestones_reached(last: u32, current: u32) -> Seq<u32> {
    if current > last {
        Seq::new((current - last) as nat, |i: int| (last + 1 + i) as u32)
    } else {
        Seq::empty()
    }
}

/// The last milestone reached after terraforming stands at milestone
/// `current`: it never goes down.
pub open spec fn last_milestone_after(last: u32, current: u32) -> u32 {
    if current > last {
        current
    } else {
        last
    }
}

/// The milestones to apply when terraforming stands at milestone `current`
/// and `last` was the last one reached, and the new last milestone.
pub fn pending_milestones(last: u32, current: u32) -> (r: (Vec<u32>, u32))
    ensures
        r.0@ == milestones_reached(last, current),
        r.1 == last_milestone_after(last, current),
{
    let mut reached: Vec<u32> = Vec::new();
    if current <= last {
        return (reached, last);
    }
    let mut m: u32 = last;
    while m < current
        invariant
            last <= m <= current,
            reached@ == Seq::new((m - last) as nat, |i: int| (last + 1 + i) as u32),
        decreases current - m,
    {
        m += 1;
        let ghost before = reached@;
        reached.push(m);
        assert(reached@ =~= Seq::new((m - last) as nat, |i: int| (last + 1 + i) as u32)) by {
            assert forall|i: int| 0 <= i < m - last implies reached@[i] == (last + 1 + i) as u32 by {
                if i < m - last - 1 {
                    assert(reached@[i] == before[i]);
                }
            }
        }
    }
    assert(reached@ =~= milestones_reached(last, current));
    (reached, current)
}

/// Law: each milestone is applied once: the milestones reached all lie
/// beyond `last`, up to `current`, each once in increasing order, and
/// checking again at the same level reaches none.
pub proof fn lemma_milestones_once(last: u32, current: u32)
    ensures
        forall|i: int|
            0 <= i < milestones_reached(last, current).len() ==> last < #[trigger] milestones_reached(
                last,
                current,
            )[i] <= current,
        forall|i: int, j: int|
            0 <= i < j < milestones_reached(last, current).len() ==> #[trigger] milestones_reached(
                last,
                current,
            )[i] < #[trigger] milestones_reached(last, current)[j],
        milestones_reached(last_milestone_after(last, current), current).len() == 0,
        last_milestone_after(last, current) >= last,
{
}

/// Law: the upgrades repeat with a period of five milestones, and the vision
/// radius grows by one tile every five milestones.
pub proof fn lemma_upgrades_cycle(milestone: u32)
    requires
        milestone <= u32::MAX - 5,
    ensures
        upgrade_for((milestone + 5) as u32) == upgrade_for(milestone),
        vision_radius_spec((milestone + 5) as u32) == vision_radius_spec(milestone) + 1,
{
}

} // verus!
