use sol1::ai::{position_key, required_charge, PilotReadings, RobotAI, RobotStatus};
use sol1::input::InputAction;
use sol1::types::{Position, TileType};
use sol1::world::{World, BASE_X, BASE_Y, WORLD_HEIGHT, WORLD_WIDTH};

fn flat_world() -> World {
    let mut tiles = vec![vec![TileType::Regolith; WORLD_WIDTH]; WORLD_HEIGHT];
    tiles[BASE_Y][BASE_X] = TileType::Base;
    World {
        tiles,
        explored: vec![vec![false; WORLD_WIDTH]; WORLD_HEIGHT],
        charging_stations: Vec::new(),
        day_count: 1,
        base_position: Position::new(BASE_X as i32, BASE_Y as i32),
        ice_stored: 0,
    }
}

fn robot_at(x: i32, y: i32) -> RobotStatus {
    RobotStatus { position: Position::new(x, y), has_step_energy: true }
}

fn adjacent(a: Position, b: Position) -> bool {
    (a.x - b.x).abs() + (a.y - b.y).abs() == 1
}

#[test]
fn position_keys_are_distinct() {
    let ps = [
        Position::new(1, 2),
        Position::new(2, 1),
        Position::new(-1, 0),
        Position::new(0, -1),
        Position::new(0, 0),
        Position::new(i32::MIN, i32::MAX),
    ];
    for a in ps.iter() {
        for b in ps.iter() {
            assert_eq!(position_key(a) == position_key(b), a == b);
        }
    }
    assert_eq!(position_key(&Position::new(0, 0)), (1u64 << 63) + (1u64 << 31));
}

#[test]
fn fresh_autopilot_explores_to_the_right() {
    let ai = RobotAI::new();
    assert_eq!(ai.exploration_direction, (1, 0));
    assert_eq!(ai.stuck_counter, 0);
    assert_eq!(ai.last_position, Position::new(100, 100));
    assert!(ai.known_ice_locations.is_empty());
    assert!(ai.current_path.is_empty());
    assert_eq!(ai.path_target, None);
}

#[test]
fn steps_map_to_move_actions() {
    let ai = RobotAI::new();
    assert_eq!(ai.move_direction(0, -1), Some(InputAction::MoveUp));
    assert_eq!(ai.move_direction(0, 1), Some(InputAction::MoveDown));
    assert_eq!(ai.move_direction(-1, 0), Some(InputAction::MoveLeft));
    assert_eq!(ai.move_direction(1, 0), Some(InputAction::MoveRight));
    assert_eq!(ai.move_direction(1, 1), Some(InputAction::MoveRight));
    assert_eq!(ai.move_direction(-1, -1), Some(InputAction::MoveLeft));
}

#[test]
fn four_quarter_turns_come_back() {
    let ai = RobotAI::new();
    let mut d = (0, -1);
    let seen: Vec<(i32, i32)> = (0..4)
        .map(|_| {
            d = ai.rotate_direction(d);
            d
        })
        .collect();
    assert_eq!(seen, vec![(1, 0), (0, 1), (-1, 0), (0, -1)]);
    assert_eq!(ai.rotate_direction((1, 1)), (1, 0));
}

#[test]
fn moves_need_energy_and_open_ground() {
    let mut world = flat_world();
    world.set_tile(&Position::new(51, 50), TileType::Rock);
    let ai = RobotAI::new();
    let robot = robot_at(50, 50);
    assert!(!ai.can_move(&world, &robot, 1, 0));
    assert!(ai.can_move(&world, &robot, -1, 0));
    assert!(!ai.can_move(&world, &robot, 0, 0));
    let tired = RobotStatus { position: Position::new(50, 50), has_step_energy: false };
    assert!(!ai.can_move(&world, &tired, -1, 0));
    assert!(!ai.can_move(&world, &robot_at(0, 0), -1, 0));
}

#[test]
fn any_move_tries_up_right_down_left() {
    let mut world = flat_world();
    let ai = RobotAI::new();
    assert_eq!(ai.try_any_move(&world, &robot_at(50, 50)), Some(InputAction::MoveUp));
    world.set_tile(&Position::new(50, 49), TileType::Rock);
    assert_eq!(ai.try_any_move(&world, &robot_at(50, 50)), Some(InputAction::MoveRight));
    world.set_tile(&Position::new(51, 50), TileType::Rock);
    world.set_tile(&Position::new(50, 51), TileType::Rock);
    assert_eq!(ai.try_any_move(&world, &robot_at(50, 50)), Some(InputAction::MoveLeft));
    world.set_tile(&Position::new(49, 50), TileType::Rock);
    assert_eq!(ai.try_any_move(&world, &robot_at(50, 50)), None);
}

#[test]
fn greedy_moves_along_the_longer_axis_first() {
    let mut world = flat_world();
    let ai = RobotAI::new();
    let robot = robot_at(50, 50);
    assert_eq!(ai.greedy_move_to(&world, &robot, Position::new(60, 52)), Some(InputAction::MoveRight));
    assert_eq!(ai.greedy_move_to(&world, &robot, Position::new(52, 60)), Some(InputAction::MoveDown));
    world.set_tile(&Position::new(51, 50), TileType::Rock);
    assert_eq!(ai.greedy_move_to(&world, &robot, Position::new(60, 52)), Some(InputAction::MoveDown));
    assert_eq!(ai.greedy_move_to(&world, &robot, Position::new(60, 50)), Some(InputAction::MoveLeft));
}

#[test]
fn path_to_a_neighbour_is_one_step() {
    let world = flat_world();
    let ai = RobotAI::new();
    let path = ai.find_path(&world, &robot_at(50, 50), Position::new(51, 50));
    assert_eq!(path.into_iter().collect::<Vec<_>>(), vec![Position::new(51, 50)]);
}

#[test]
fn path_goes_around_rock() {
    let mut world = flat_world();
    world.set_tile(&Position::new(51, 50), TileType::Rock);
    let ai = RobotAI::new();
    let start = Position::new(50, 50);
    let target = Position::new(52, 50);
    let path: Vec<Position> = ai.find_path(&world, &robot_at(50, 50), target).into_iter().collect();
    assert_eq!(path.len(), 4);
    assert!(adjacent(start, path[0]));
    for w in path.windows(2) {
        assert!(adjacent(w[0], w[1]));
    }
    assert_eq!(*path.last().unwrap(), target);
    assert!(path.iter().all(|p| world.get_tile(p) != Some(TileType::Rock)));
}

#[test]
fn path_avoids_remembered_rock() {
    let world = flat_world();
    let mut ai = RobotAI::new();
    ai.known_obstacles.insert(position_key(&Position::new(51, 50)), true);
    let path: Vec<Position> = ai.find_path(&world, &robot_at(50, 50), Position::new(52, 50)).into_iter().collect();
    assert_eq!(path.len(), 4);
    assert!(!path.contains(&Position::new(51, 50)));
}

#[test]
fn no_path_to_self_rock_or_far_targets() {
    let mut world = flat_world();
    world.set_tile(&Position::new(60, 50), TileType::Rock);
    let ai = RobotAI::new();
    let robot = robot_at(50, 50);
    assert!(ai.find_path(&world, &robot, Position::new(50, 50)).is_empty());
    assert!(ai.find_path(&world, &robot, Position::new(60, 50)).is_empty());
    assert!(ai.find_path(&world, &robot_at(10, 10), Position::new(100, 10)).is_empty());
    assert!(ai.find_path(&world, &robot, Position::new(-1, 50)).is_empty());
}

#[test]
fn path_prefers_up_then_right_then_down_then_left() {
    let world = flat_world();
    let ai = RobotAI::new();
    let robot = robot_at(50, 50);
    let path: Vec<Position> = ai.find_path(&world, &robot, Position::new(52, 48)).into_iter().collect();
    assert_eq!(
        path,
        vec![Position::new(50, 49), Position::new(50, 48), Position::new(51, 48), Position::new(52, 48)]
    );
    let path: Vec<Position> = ai.find_path(&world, &robot, Position::new(48, 52)).into_iter().collect();
    assert_eq!(
        path,
        vec![Position::new(50, 51), Position::new(50, 52), Position::new(49, 52), Position::new(48, 52)]
    );
    let path: Vec<Position> = ai.find_path(&world, &robot, Position::new(52, 52)).into_iter().collect();
    assert_eq!(
        path,
        vec![Position::new(51, 50), Position::new(52, 50), Position::new(52, 51), Position::new(52, 52)]
    );
}

#[test]
fn walled_in_target_has_no_path() {
    let mut world = flat_world();
    for p in [Position::new(61, 50), Position::new(59, 50), Position::new(60, 51), Position::new(60, 49)] {
        world.set_tile(&p, TileType::Rock);
    }
    let ai = RobotAI::new();
    assert!(ai.find_path(&world, &robot_at(50, 50), Position::new(60, 50)).is_empty());
}

#[test]
fn search_gives_up_beyond_its_budget() {
    let world = flat_world();
    let ai = RobotAI::new();
    let robot = robot_at(100, 100);
    assert_eq!(ai.find_path(&world, &robot, Position::new(160, 100)).len(), 60);
    assert!(ai.find_path(&world, &robot, Position::new(164, 100)).is_empty());
}

#[test]
fn navigation_follows_and_then_stops_at_the_target() {
    let world = flat_world();
    let mut ai = RobotAI::new();
    let target = Position::new(53, 50);
    assert_eq!(ai.navigate_to(&world, &robot_at(50, 50), target), Some(InputAction::MoveRight));
    assert_eq!(ai.path_target, Some(target));
    assert_eq!(ai.current_path.len(), 2);
    assert_eq!(ai.navigate_to(&world, &robot_at(51, 50), target), Some(InputAction::MoveRight));
    assert_eq!(ai.current_path.len(), 1);
    assert_eq!(ai.navigate_to(&world, &robot_at(52, 50), target), Some(InputAction::MoveRight));
    assert_eq!(ai.navigate_to(&world, &robot_at(53, 50), target), None);
    assert!(ai.current_path.is_empty());
    assert_eq!(ai.path_target, None);
}

#[test]
fn navigation_falls_back_to_greedy_without_path() {
    let world = flat_world();
    let mut ai = RobotAI::new();
    let action = ai.navigate_to(&world, &robot_at(10, 10), Position::new(150, 10));
    assert_eq!(action, Some(InputAction::MoveRight));
    assert!(ai.current_path.is_empty());
    assert_eq!(ai.path_target, None);
}

#[test]
fn return_to_base_heads_home() {
    let world = flat_world();
    let mut ai = RobotAI::new();
    assert_eq!(ai.return_to_base(&world, &robot_at(100, 103)), Some(InputAction::MoveUp));
    assert_eq!(ai.return_to_base(&world, &robot_at(100, 100)), None);
}

#[test]
fn nearest_charger_is_base_or_operational_station() {
    let mut world = flat_world();
    let ai = RobotAI::new();
    let robot = robot_at(100, 120);
    assert_eq!(ai.find_nearest_charger(&world, &robot), Position::new(100, 100));
    assert!(world.place_charging_station(Position::new(100, 125)));
    assert_eq!(ai.find_nearest_charger(&world, &robot), Position::new(100, 100));
    world.start_next_day();
    assert_eq!(ai.find_nearest_charger(&world, &robot), Position::new(100, 125));
    assert!(world.place_charging_station(Position::new(100, 121)));
    world.start_next_day();
    assert_eq!(ai.find_nearest_charger(&world, &robot), Position::new(100, 121));
}

#[test]
fn nearest_ice_within_radius() {
    let mut world = flat_world();
    let ai = RobotAI::new();
    let robot = robot_at(50, 50);
    assert_eq!(ai.find_nearest_ice(&world, &robot, 8), None);
    world.set_tile(&Position::new(53, 50), TileType::Ice);
    world.set_tile(&Position::new(50, 52), TileType::Ice);
    world.set_tile(&Position::new(50, 50), TileType::Ice);
    assert_eq!(ai.find_nearest_ice(&world, &robot, 8), Some(Position::new(50, 52)));
    assert_eq!(ai.find_nearest_ice(&world, &robot, 1), None);
    assert_eq!(ai.find_nearest_ice(&world, &robot, -3), None);
}

#[test]
fn remembered_and_visible_ice_are_both_found() {
    let mut world = flat_world();
    let mut ai = RobotAI::new();
    let ice = Position::new(55, 50);
    world.set_tile(&ice, TileType::Ice);
    ai.known_ice_locations.push(ice);
    assert_eq!(ai.find_nearest_ice(&world, &robot_at(50, 50), 8), Some(ice));
    ai.unreachable_targets.insert(position_key(&ice), 3);
    assert_eq!(ai.failed_attempts(&ice), 3);
    // Visible ice within the radius is found even when given up on.
    assert_eq!(ai.find_nearest_ice(&world, &robot_at(50, 50), 8), Some(ice));
    assert_eq!(ai.find_nearest_ice(&world, &robot_at(50, 50), 4), None);
}

#[test]
fn nearest_ice_ties_prefer_memory_then_the_first_row() {
    let mut world = flat_world();
    let mut ai = RobotAI::new();
    let robot = robot_at(50, 50);
    // Four deposits at distance 2; none remembered: the top one wins.
    for p in [Position::new(52, 50), Position::new(50, 52), Position::new(48, 50), Position::new(50, 48)] {
        world.set_tile(&p, TileType::Ice);
    }
    assert_eq!(ai.find_nearest_ice(&world, &robot, 8), Some(Position::new(50, 48)));
    // On one row, the leftmost wins.
    world.set_tile(&Position::new(50, 48), TileType::Regolith);
    assert_eq!(ai.find_nearest_ice(&world, &robot, 8), Some(Position::new(48, 50)));
    // A remembered deposit at the same distance comes first, in list order.
    ai.known_ice_locations.push(Position::new(50, 52));
    ai.known_ice_locations.push(Position::new(52, 50));
    assert_eq!(ai.find_nearest_ice(&world, &robot, 8), Some(Position::new(50, 52)));
    // A strictly nearer visible deposit still wins over memory.
    world.set_tile(&Position::new(51, 51), TileType::Ice);
    assert_eq!(ai.find_nearest_ice(&world, &robot, 8), Some(Position::new(51, 51)));
}

#[test]
fn memory_keeps_old_ice_first_then_new_ice_row_by_row() {
    let mut world = flat_world();
    let mut ai = RobotAI::new();
    let far = Position::new(80, 80);
    world.set_tile(&far, TileType::Ice);
    ai.known_ice_locations.push(far);
    for p in [Position::new(53, 52), Position::new(47, 52), Position::new(50, 45)] {
        world.set_tile(&p, TileType::Ice);
    }
    ai.update_memory(&world, &robot_at(50, 50));
    assert_eq!(
        ai.known_ice_locations,
        vec![far, Position::new(50, 45), Position::new(47, 52), Position::new(53, 52)]
    );
}

#[test]
fn exploration_prefers_unexplored_then_heads_away_from_base() {
    let mut world = flat_world();
    let ai = RobotAI::new();
    assert_eq!(ai.find_best_exploration_direction(&world, &robot_at(120, 100)), (0, -1));
    for row in world.explored.iter_mut() {
        for e in row.iter_mut() {
            *e = true;
        }
    }
    assert_eq!(ai.find_best_exploration_direction(&world, &robot_at(120, 100)), (1, 0));
    assert_eq!(ai.find_best_exploration_direction(&world, &robot_at(100, 80)), (0, -1));
    world.set_tile(&Position::new(130, 100), TileType::Ice);
    assert_eq!(ai.find_best_exploration_direction(&world, &robot_at(120, 100)), (1, 0));
}

#[test]
fn exploring_keeps_heading_until_a_checkpoint() {
    let world = flat_world();
    let mut ai = RobotAI::new();
    assert_eq!(ai.explore_for_ice(&world, &robot_at(50, 51)), Some(InputAction::MoveRight));
    assert_eq!(ai.exploration_direction, (1, 0));
    assert_eq!(ai.explore_for_ice(&world, &robot_at(50, 55)), Some(InputAction::MoveUp));
    assert_eq!(ai.exploration_direction, (0, -1));
}

#[test]
fn memory_records_rock_ground_and_ice() {
    let mut world = flat_world();
    world.set_tile(&Position::new(52, 50), TileType::Rock);
    world.set_tile(&Position::new(50, 53), TileType::Ice);
    world.set_tile(&Position::new(50, 60), TileType::Ice);
    let mut ai = RobotAI::new();
    ai.update_memory(&world, &robot_at(50, 50));
    assert_eq!(ai.known_obstacles.get(&position_key(&Position::new(52, 50))), Some(&true));
    assert_eq!(ai.known_obstacles.get(&position_key(&Position::new(51, 50))), Some(&false));
    assert_eq!(ai.known_obstacles.get(&position_key(&Position::new(50, 53))), None);
    assert_eq!(ai.known_obstacles.get(&position_key(&Position::new(50, 60))), None);
    assert_eq!(ai.known_ice_locations, vec![Position::new(50, 53)]);
    ai.update_memory(&world, &robot_at(50, 50));
    assert_eq!(ai.known_ice_locations, vec![Position::new(50, 53)]);
    world.set_tile(&Position::new(50, 53), TileType::Regolith);
    ai.update_memory(&world, &robot_at(10, 10));
    assert!(ai.known_ice_locations.is_empty());
    assert_eq!(ai.known_obstacles.len(), 196 + 197);
}

#[test]
fn being_stuck_turns_then_resets() {
    let mut ai = RobotAI::new();
    let here = Position::new(100, 100);
    let target = Position::new(120, 100);
    ai.path_target = Some(target);
    for expected in 1..=3 {
        ai.track_progress(here);
        assert_eq!(ai.stuck_counter, expected);
        assert_eq!(ai.exploration_direction, (1, 0));
    }
    ai.track_progress(here);
    assert_eq!(ai.stuck_counter, 4);
    assert_eq!(ai.exploration_direction, (0, 1));
    assert_eq!(ai.path_target, None);
    assert_eq!(ai.failed_attempts(&target), 1);
    ai.track_progress(here);
    ai.track_progress(here);
    assert_eq!(ai.stuck_counter, 6);
    assert_eq!(ai.exploration_direction, (0, -1));
    ai.track_progress(here);
    assert_eq!(ai.stuck_counter, 0);
    assert_eq!(ai.exploration_direction, (0, -1));
    ai.track_progress(Position::new(101, 100));
    assert_eq!(ai.stuck_counter, 0);
    assert_eq!(ai.last_position, Position::new(101, 100));
}

#[test]
fn stuck_reset_direction_follows_position_parity() {
    let mut ai = RobotAI::new();
    let here = Position::new(-3, 0);
    ai.track_progress(here);
    ai.stuck_counter = 6;
    ai.track_progress(here);
    assert_eq!(ai.stuck_counter, 0);
    assert_eq!(ai.exploration_direction, (1, 0));
}

#[test]
fn charge_needed_before_leaving() {
    assert_eq!(required_charge(true, Some(1)), 95);
    assert_eq!(required_charge(false, Some(9)), 50);
    assert_eq!(required_charge(false, Some(10)), 70);
    assert_eq!(required_charge(false, Some(64)), 70);
    assert_eq!(required_charge(false, Some(65)), 85);
    assert_eq!(required_charge(false, None), 85);
}

fn readings(energy: u32) -> PilotReadings {
    PilotReadings {
        is_night: false,
        energy_units: energy,
        energy_low: false,
        energy_for_building: energy > 60,
        far_from_last_station: true,
    }
}

#[test]
fn autopilot_collects_ice_underfoot() {
    let mut world = flat_world();
    world.set_tile(&Position::new(50, 50), TileType::Ice);
    let mut ai = RobotAI::new();
    let action = ai.decide_behavior(&world, &robot_at(50, 50), 5, &readings(10));
    assert_eq!(action, Some(InputAction::Collect));
}

#[test]
fn autopilot_brings_three_samples_home() {
    let world = flat_world();
    let mut ai = RobotAI::new();
    assert_eq!(ai.decide_behavior(&world, &robot_at(100, 103), 3, &readings(90)), Some(InputAction::MoveUp));
    assert_eq!(ai.path_target, Some(Position::new(100, 100)));
}

#[test]
fn autopilot_waits_at_a_charger_until_charged() {
    let mut world = flat_world();
    let mut ai = RobotAI::new();
    let base = robot_at(100, 100);
    assert_eq!(ai.decide_behavior(&world, &base, 0, &readings(84)), None);
    let night = PilotReadings { is_night: true, ..readings(90) };
    assert_eq!(ai.decide_behavior(&world, &base, 0, &night), None);
    assert!(ai.decide_behavior(&world, &base, 0, &readings(85)).is_some());
    world.set_tile(&Position::new(102, 100), TileType::Ice);
    assert_eq!(ai.decide_behavior(&world, &base, 0, &readings(49)), None);
    assert_eq!(ai.decide_behavior(&world, &base, 0, &readings(50)), Some(InputAction::MoveRight));
}

#[test]
fn autopilot_heads_for_a_charger_when_low() {
    let world = flat_world();
    let mut ai = RobotAI::new();
    let low = PilotReadings { energy_low: true, ..readings(20) };
    assert_eq!(ai.decide_behavior(&world, &robot_at(100, 104), 0, &low), Some(InputAction::MoveUp));
    assert_eq!(ai.path_target, Some(Position::new(100, 100)));
}

#[test]
fn autopilot_builds_stations_far_out() {
    let world = flat_world();
    let mut ai = RobotAI::new();
    let far = robot_at(150, 100);
    assert_eq!(
        ai.decide_behavior(&world, &far, 0, &readings(70)),
        Some(InputAction::PlaceChargingStation)
    );
    let tired = readings(60);
    assert_ne!(ai.decide_behavior(&world, &far, 0, &tired), Some(InputAction::PlaceChargingStation));
    let near = robot_at(130, 100);
    assert_ne!(
        ai.decide_behavior(&world, &near, 0, &readings(70)),
        Some(InputAction::PlaceChargingStation)
    );
}

#[test]
fn autopilot_keeps_stations_fifteen_tiles_apart() {
    let mut world = flat_world();
    let mut ai = RobotAI::new();
    let far = robot_at(150, 100);
    // A booting station 10 tiles away blocks building.
    assert!(world.place_charging_station(Position::new(150, 110)));
    assert_ne!(ai.decide_behavior(&world, &far, 0, &readings(70)), Some(InputAction::PlaceChargingStation));
    // One exactly 15 tiles away does not.
    let mut world = flat_world();
    assert!(world.place_charging_station(Position::new(150, 115)));
    assert_eq!(
        ai.decide_behavior(&world, &far, 0, &readings(70)),
        Some(InputAction::PlaceChargingStation)
    );
}

#[test]
fn memory_update_far_off_the_grid_keeps_obstacles() {
    let world = flat_world();
    let mut ai = RobotAI::new();
    ai.update_memory(&world, &robot_at(i32::MAX, i32::MIN));
    assert!(ai.known_obstacles.is_empty());
    assert!(ai.known_ice_locations.is_empty());
}

#[test]
fn autopilot_fetches_nearby_ice() {
    let mut world = flat_world();
    world.set_tile(&Position::new(50, 45), TileType::Ice);
    let mut ai = RobotAI::new();
    let settled = PilotReadings { far_from_last_station: false, ..readings(90) };
    assert_eq!(ai.decide_behavior(&world, &robot_at(50, 50), 0, &settled), Some(InputAction::MoveUp));
    assert_eq!(ai.path_target, Some(Position::new(50, 45)));
}

#[test]
fn autopilot_decision_remembers_and_tracks() {
    let mut world = flat_world();
    world.set_tile(&Position::new(52, 50), TileType::Rock);
    let mut ai = RobotAI::new();
    let settled = PilotReadings { far_from_last_station: false, ..readings(90) };
    let action = ai.decide_action(&world, &robot_at(50, 51), 0, &settled);
    assert_eq!(action, Some(InputAction::MoveRight));
    assert_eq!(ai.last_position, Position::new(50, 51));
    assert_eq!(ai.known_obstacles.get(&position_key(&Position::new(52, 50))), Some(&true));
}
