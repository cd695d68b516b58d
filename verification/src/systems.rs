//! Game systems: movement rules, power-down handling, ice deposits and the
//! effects of the robot's scanning and collecting on the world.
use vstd::prelude::*;
use crate::types::{Position, TileType};
use crate::world::World;

verus! {

/// What happened when the game checked the robot's power state.
#[derive(Clone, Copy, PartialEq, Eq, Debug, Structural)]
pub enum PowerDownOutcome {
    /// The robot has power; nothing happened.
    Running,
    /// The robot powered down away from any recharge point: the game is over.
    Stranded,
    /// The robot powered down at a recharge point: the next day has begun
    /// and the robot is to be restored to full power. `terraform_day` tells
    /// whether the new day count is a multiple of 5.
    Restored { terraform_day: bool },
}

/// The label that a scan of `tile` reports; for a charging station tile,
/// `station` tells whether a station stands there (`Some`) and whether it
/// has booted.
pub open spec fn scan_label(tile: TileType, station: Option<bool>) -> Seq<char> {
    match tile {
        TileType::Regolith => "regolith"@,
        TileType::Rock => "rock formation"@,
        TileType::Ice => "ice deposit"@,
        TileType::Base => "base station"@,
        TileType::ChargingStation => match station {
            Some(true) => "operational charging station"@,
            Some(false) => "charging station (booting...)"@,
            None => "charging station"@,
        },
    }
}

/// The game systems that update the world each tick.
pub struct GameSystems;

impl GameSystems {
    /// Whether the robot may step onto `target`: on the grid and not rock.
    pub fn can_move_to(world: &World, target: &Position) -> (b: bool)
        requires
            world.wf(),
        ensures
            b == (world.tile_at(*target) is Some && world.tile_at(*target) != Some(
                TileType::Rock,
            )),
    {
        match world.get_tile(target) {
            Some(TileType::Rock) => false,
            Some(_) => true,
            None => false,
        }
    }

    /// Handles a powered-down robot: away from a recharge point it is
    /// stranded; at the base or an operational station the next day begins
    /// (stations boot one more day) and the robot is to be restored.
    pub fn handle_power_down(world: &mut World, powered_down: bool, position: Position) -> (outcome:
        PowerDownOutcome)
        requires
            old(world).wf(),
            powered_down && old(world).recharges_at(position) ==> old(world).day_count < u32::MAX,
        ensures
            final(world).wf(),
            !powered_down ==> outcome == PowerDownOutcome::Running && *final(world) == *old(world),
            powered_down && !old(world).recharges_at(position) ==> outcome
                == PowerDownOutcome::Stranded && *final(world) == *old(world),
            powered_down && old(world).recharges_at(position) ==> {
                &&& outcome == (PowerDownOutcome::Restored {
                    terraform_day: final(world).day_count % 5 == 0,
                })
                &&& final(world).day_count == old(world).day_count + 1
                &&& final(world).tiles == old(world).tiles
                &&& final(world).explored == old(world).explored
                &&& final(world).base_position == old(world).base_position
                &&& final(world).ice_stored == old(world).ice_stored
                &&& final(world).charging_stations.len() == old(world).charging_stations.len()
                &&& forall|i: int|
                    0 <= i < old(world).charging_stations.len() ==> #[trigger] final(world).charging_stations@[i] == old(world).charging_stations@[i].after_day()
            },
    {
        if !powered_down {
            return PowerDownOutcome::Running;
        }
        if !world.is_recharge_point(&position) {
            return PowerDownOutcome::Stranded;
        }
        let terraform_day = world.start_next_day();
        PowerDownOutcome::Restored { terraform_day }
    }

    /// Unloads the robot's ice samples into the base's store when the robot
    /// stands at the base, and returns how many it unloaded.
    pub fn deposit_ice(world: &mut World, position: Position, ice_samples: &mut u32) -> (deposited:
        u32)
        requires
            old(world).wf(),
            position == old(world).base_position ==> old(world).ice_stored + *old(ice_samples)
                <= u32::MAX,
        ensures
            final(world).wf(),
            deposited == if position == old(world).base_position {
                *old(ice_samples)
            } else {
                0
            },
            final(world).ice_stored == old(world).ice_stored + deposited,
            *final(ice_samples) == *old(ice_samples) - deposited,
            final(world).ice_stored + *final(ice_samples) == old(world).ice_stored + *old(ice_samples),
            final(world).tiles == old(world).tiles,
            final(world).explored == old(world).explored,
            final(world).charging_stations == old(world).charging_stations,
            final(world).day_count == old(world).day_count,
            final(world).base_position == old(world).base_position,
    {
        let mut deposited: u32 = 0;
        if position == world.base_position && *ice_samples > 0 {
            deposited = *ice_samples;
            world.ice_stored += *ice_samples;
            *ice_samples = 0;
        }
        deposited
    }

    /// What a scan at `position` detects.
    pub fn scan_report(world: &World, position: &Position) -> (label: &'static str)
        requires
            world.wf(),
        ensures
            label@ == scan_label(
                match world.tile_at(*position) {
                    Some(t) => t,
                    None => TileType::Regolith,
                },
                if world.has_station(*position) {
                    Some(world.station_operational_at(*position))
                } else {
                    None
                },
            ),
    {
        let tile = match world.get_tile(position) {
            Some(t) => t,
            None => TileType::Regolith,
        };
        match tile {
            TileType::Regolith => "regolith",
            TileType::Rock => "rock formation",
            TileType::Ice => "ice deposit",
            TileType::Base => "base station",
            TileType::ChargingStation => {
                match world.get_charging_station(position) {
                    Some(station) => {
                        let operational = station.is_operational();
                        proof {
                            let i = choose|i: int|
                                0 <= i < world.charging_stations.len()
                                    && #[trigger] world.charging_stations@[i] == *station;
                            assert(world.charging_stations@[i].position == *position);
                            assert(forall|j: int|
                                0 <= j < world.charging_stations.len()
                                    && #[trigger] world.charging_stations@[j].position == *position
                                    ==> j == i);
                        }
                        if operational {
                            "operational charging station"
                        } else {
                            "charging station (booting...)"
                        }
                    },
                    None => "charging station",
                }
            },
        }
    }

    /// Collects an ice sample at `position`: on an ice tile the robot gains a
    /// sample and the deposit turns into regolith; elsewhere nothing changes.
    /// Tells whether a sample was collected.
    pub fn collect_ice(world: &mut World, position: &Position, ice_samples: &mut u32) -> (collected:
        bool)
        requires
            old(world).wf(),
            old(world).tile_at(*position) == Some(TileType::Ice) ==> *old(ice_samples) < u32::MAX,
        ensures
            final(world).wf(),
            collected == (old(world).tile_at(*position) == Some(TileType::Ice)),
            collected ==> {
                &&& *final(ice_samples) == *old(ice_samples) + 1
                &&& final(world).same_but_tiles(*old(world))
                &&& forall|p: Position|
                    #[trigger] final(world).tile_at(p) == if p == *position {
                        Some(TileType::Regolith)
                    } else {
                        old(world).tile_at(p)
                    }
            },
            !collected ==> *final(ice_samples) == *old(ice_samples) && *final(world) == *old(world),
    {
        match world.get_tile(position) {
            Some(TileType::Ice) => {
                *ice_samples += 1;
                world.set_tile(position, TileType::Regolith);
                true
            },
            _ => false,
        }
    }
}

} // verus!
