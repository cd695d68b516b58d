use sol1::progress::{milestone_report, pending_milestones, update_fog_of_war, vision_radius, MilestoneUpgrade};
use sol1::systems::{GameSystems, PowerDownOutcome};
use sol1::types::{Position, TileType};
use sol1::world::{World, BASE_X, BASE_Y, WORLD_HEIGHT, WORLD_WIDTH};

fn flat_world() -> World {
    let mut tiles = vec![vec![TileType::Regolith; WORLD_WIDTH]; WORLD_HEIGHT];
    tiles[BASE_Y][BASE_X] = TileType::Base;
    World {
        tiles,
        explored: vec![vec![false; WORLD_WIDTH]; WORLD_HEIGHT],
        charging_stations: Vec::new(),
        day_count: 1,
        base_position: Position::new(BASE_X as i32, BASE_Y as i32),
        ice_stored: 0,
    }
}

#[test]
fn rock_and_the_edge_block_movement() {
    let mut world = flat_world();
    world.set_tile(&Position::new(5, 5), TileType::Rock);
    assert!(!GameSystems::can_move_to(&world, &Position::new(5, 5)));
    assert!(GameSystems::can_move_to(&world, &Position::new(5, 6)));
    assert!(GameSystems::can_move_to(&world, &Position::new(100, 100)));
    assert!(!GameSystems::can_move_to(&world, &Position::new(-1, 5)));
    assert!(!GameSystems::can_move_to(&world, &Position::new(5, 200)));
}

#[test]
fn power_down_away_from_chargers_strands_the_robot() {
    let mut world = flat_world();
    let outcome = GameSystems::handle_power_down(&mut world, true, Position::new(10, 10));
    assert_eq!(outcome, PowerDownOutcome::Stranded);
    assert_eq!(world.day_count, 1);
}

#[test]
fn power_down_at_base_starts_next_day() {
    let mut world = flat_world();
    assert!(world.place_charging_station(Position::new(20, 20)));
    let outcome = GameSystems::handle_power_down(&mut world, true, Position::new(100, 100));
    assert_eq!(outcome, PowerDownOutcome::Restored { terraform_day: false });
    assert_eq!(world.day_count, 2);
    assert!(world.is_charging_station_operational(&Position::new(20, 20)));
    world.day_count = 4;
    let outcome = GameSystems::handle_power_down(&mut world, true, Position::new(20, 20));
    assert_eq!(outcome, PowerDownOutcome::Restored { terraform_day: true });
    assert_eq!(world.day_count, 5);
}

#[test]
fn power_down_at_booting_station_strands_the_robot() {
    let mut world = flat_world();
    assert!(world.place_charging_station(Position::new(20, 20)));
    let outcome = GameSystems::handle_power_down(&mut world, true, Position::new(20, 20));
    assert_eq!(outcome, PowerDownOutcome::Stranded);
}

#[test]
fn powered_robot_is_left_alone() {
    let mut world = flat_world();
    let outcome = GameSystems::handle_power_down(&mut world, false, Position::new(10, 10));
    assert_eq!(outcome, PowerDownOutcome::Running);
    assert_eq!(world.day_count, 1);
}

#[test]
fn ice_is_deposited_only_at_the_base_and_conserved() {
    let mut world = flat_world();
    world.ice_stored = 2;
    let mut samples = 3;
    assert_eq!(GameSystems::deposit_ice(&mut world, Position::new(99, 100), &mut samples), 0);
    assert_eq!(samples, 3);
    assert_eq!(world.ice_stored, 2);
    assert_eq!(GameSystems::deposit_ice(&mut world, Position::new(100, 100), &mut samples), 3);
    assert_eq!(samples, 0);
    assert_eq!(world.ice_stored, 5);
    assert_eq!(GameSystems::deposit_ice(&mut world, Position::new(100, 100), &mut samples), 0);
}

#[test]
fn scans_name_what_lies_under_the_robot() {
    let mut world = flat_world();
    assert_eq!(GameSystems::scan_report(&world, &Position::new(0, 0)), "regolith");
    assert_eq!(GameSystems::scan_report(&world, &Position::new(100, 100)), "base station");
    assert_eq!(GameSystems::scan_report(&world, &Position::new(-3, 0)), "regolith");
    world.set_tile(&Position::new(1, 0), TileType::Rock);
    assert_eq!(GameSystems::scan_report(&world, &Position::new(1, 0)), "rock formation");
    world.set_tile(&Position::new(2, 0), TileType::Ice);
    assert_eq!(GameSystems::scan_report(&world, &Position::new(2, 0)), "ice deposit");
    assert!(world.place_charging_station(Position::new(3, 0)));
    assert_eq!(GameSystems::scan_report(&world, &Position::new(3, 0)), "charging station (booting...)");
    world.start_next_day();
    assert_eq!(GameSystems::scan_report(&world, &Position::new(3, 0)), "operational charging station");
    world.set_tile(&Position::new(4, 0), TileType::ChargingStation);
    assert_eq!(GameSystems::scan_report(&world, &Position::new(4, 0)), "charging station");
}

#[test]
fn collecting_ice_turns_the_deposit_into_regolith() {
    let mut world = flat_world();
    let p = Position::new(30, 30);
    world.set_tile(&p, TileType::Ice);
    let mut samples = 0;
    assert!(GameSystems::collect_ice(&mut world, &p, &mut samples));
    assert_eq!(samples, 1);
    assert_eq!(world.get_tile(&p), Some(TileType::Regolith));
    assert!(!GameSystems::collect_ice(&mut world, &p, &mut samples));
    assert_eq!(samples, 1);
}

#[test]
fn vision_grows_every_five_milestones() {
    assert_eq!(vision_radius(0), 6);
    assert_eq!(vision_radius(4), 6);
    assert_eq!(vision_radius(5), 7);
    assert_eq!(vision_radius(50), 16);
}

#[test]
fn fog_of_war_reveals_a_disk() {
    let mut world = flat_world();
    update_fog_of_war(&mut world, Position::new(50, 50), 0);
    assert!(world.is_explored(&Position::new(56, 50)));
    assert!(!world.is_explored(&Position::new(57, 50)));
    assert!(world.is_explored(&Position::new(54, 54)));
    assert!(!world.is_explored(&Position::new(55, 54)));
    let count = world.explored.iter().flatten().filter(|b| **b).count();
    assert_eq!(count, 113);
    update_fog_of_war(&mut world, Position::new(50, 50), 5);
    assert!(world.is_explored(&Position::new(57, 50)));
}

#[test]
fn fog_of_war_at_the_edge_stays_on_the_grid() {
    let mut world = flat_world();
    update_fog_of_war(&mut world, Position::new(0, 0), 0);
    assert!(world.is_explored(&Position::new(0, 0)));
    assert!(world.is_explored(&Position::new(6, 0)));
    let count = world.explored.iter().flatten().filter(|b| **b).count();
    assert_eq!(count, 35);
}

#[test]
fn milestones_cycle_through_upgrades() {
    let r = milestone_report(1);
    assert_eq!(r.percent, 2);
    assert_eq!(r.upgrade, MilestoneUpgrade::Vision);
    assert!(!r.terraforming_complete);
    assert_eq!(milestone_report(2).upgrade, MilestoneUpgrade::BatteryCapacity);
    assert_eq!(milestone_report(3).upgrade, MilestoneUpgrade::MovementEfficiency);
    assert_eq!(milestone_report(4).upgrade, MilestoneUpgrade::RechargeRate);
    assert_eq!(milestone_report(5).upgrade, MilestoneUpgrade::CollectionEfficiency);
    assert_eq!(milestone_report(6).upgrade, MilestoneUpgrade::Vision);
    let last = milestone_report(50);
    assert_eq!(last.percent, 100);
    assert!(last.terraforming_complete);
    assert!(!milestone_report(49).terraforming_complete);
}

#[test]
fn milestones_are_applied_once_each() {
    assert_eq!(pending_milestones(0, 3), (vec![1, 2, 3], 3));
    assert_eq!(pending_milestones(3, 3), (vec![], 3));
    assert_eq!(pending_milestones(5, 2), (vec![], 5));
    assert_eq!(pending_milestones(u32::MAX - 1, u32::MAX), (vec![u32::MAX], u32::MAX));
}
