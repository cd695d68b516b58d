use sol1::types::{ChargingStationState, Position, TileType};
use sol1::world::{TileAppearance, World, BASE_X, BASE_Y, WORLD_HEIGHT, WORLD_WIDTH};

fn flat_world() -> World {
    let mut tiles = vec![vec![TileType::Regolith; WORLD_WIDTH]; WORLD_HEIGHT];
    tiles[BASE_Y][BASE_X] = TileType::Base;
    World {
        tiles,
        explored: vec![vec![false; WORLD_WIDTH]; WORLD_HEIGHT],
        charging_stations: Vec::new(),
        day_count: 1,
        base_position: Position::new(BASE_X as i32, BASE_Y as i32),
        ice_stored: 0,
    }
}

fn expected_tile(x: usize, y: usize) -> TileType {
    if x == BASE_X && y == BASE_Y {
        return TileType::Base;
    }
    let h = World::hash_coords(x, y);
    if h % 100 < 5 {
        TileType::Rock
    } else if (h / 100) % 100 < 3 {
        TileType::Ice
    } else {
        TileType::Regolith
    }
}

#[test]
fn hash_coords_exact_values() {
    assert_eq!(World::hash_coords(0, 0), 0);
    if usize::BITS == 64 {
        assert_eq!(World::hash_coords(1, 0), 477523045382779350);
        assert_eq!(World::hash_coords(0, 1), 851520598256690213);
        assert_eq!(World::hash_coords(3, 7), 7393364485510700994);
    }
}

#[test]
fn new_world_starts_at_the_base_on_day_one() {
    let world = World::new();
    assert_eq!(world.tiles.len(), WORLD_HEIGHT);
    assert!(world.tiles.iter().all(|row| row.len() == WORLD_WIDTH));
    assert_eq!(world.get_tile(&Position::new(100, 100)), Some(TileType::Base));
    assert_eq!(world.base_position, Position::new(100, 100));
    assert_eq!(world.day_count, 1);
    assert_eq!(world.ice_stored, 0);
    assert!(world.charging_stations.is_empty());
}

#[test]
fn new_world_terrain_follows_the_coordinate_hash() {
    let world = World::new();
    for y in 0..WORLD_HEIGHT {
        for x in 0..WORLD_WIDTH {
            assert_eq!(world.tiles[y][x], expected_tile(x, y));
        }
    }
    let rocks = world.tiles.iter().flatten().filter(|t| **t == TileType::Rock).count();
    let ice = world.tiles.iter().flatten().filter(|t| **t == TileType::Ice).count();
    assert!(rocks > 1000 && rocks < 3000, "about 5% rock, got {}", rocks);
    assert!(ice > 500 && ice < 2000, "about 3% ice, got {}", ice);
}

#[test]
fn new_world_known_terrain_near_the_base() {
    if usize::BITS != 64 {
        return;
    }
    let world = World::new();
    assert_eq!(world.get_tile(&Position::new(96, 99)), Some(TileType::Rock));
    assert_eq!(world.get_tile(&Position::new(103, 100)), Some(TileType::Ice));
    assert_eq!(world.get_tile(&Position::new(100, 99)), Some(TileType::Regolith));
}

#[test]
fn new_world_explores_six_tiles_around_the_base() {
    let world = World::new();
    assert!(world.is_explored(&Position::new(100, 100)));
    assert!(world.is_explored(&Position::new(100, 106)));
    assert!(!world.is_explored(&Position::new(100, 107)));
    assert!(world.is_explored(&Position::new(104, 104)));
    assert!(!world.is_explored(&Position::new(105, 104)));
    assert!(!world.is_explored(&Position::new(0, 0)));
}

#[test]
fn get_tile_off_the_grid_is_none() {
    let world = flat_world();
    assert_eq!(world.get_tile(&Position::new(-1, 0)), None);
    assert_eq!(world.get_tile(&Position::new(0, -1)), None);
    assert_eq!(world.get_tile(&Position::new(200, 0)), None);
    assert_eq!(world.get_tile(&Position::new(0, 200)), None);
    assert_eq!(world.get_tile(&Position::new(199, 199)), Some(TileType::Regolith));
}

#[test]
fn set_tile_then_get_tile_reads_it_back() {
    let mut world = flat_world();
    let p = Position::new(10, 20);
    world.set_tile(&p, TileType::Rock);
    assert_eq!(world.get_tile(&p), Some(TileType::Rock));
    assert_eq!(world.get_tile(&Position::new(20, 10)), Some(TileType::Regolith));
    world.set_tile(&Position::new(-5, 3), TileType::Ice);
    assert_eq!(world.get_tile(&Position::new(-5, 3)), None);
}

#[test]
fn mark_as_explored_is_permanent_and_ignores_off_grid() {
    let mut world = flat_world();
    let p = Position::new(3, 4);
    assert!(!world.is_explored(&p));
    world.mark_as_explored(&p);
    assert!(world.is_explored(&p));
    world.mark_as_explored(&p);
    assert!(world.is_explored(&p));
    world.mark_as_explored(&Position::new(200, 4));
    assert!(!world.is_explored(&Position::new(200, 4)));
}

#[test]
fn stations_only_on_regolith_or_ice_and_once_per_tile() {
    let mut world = flat_world();
    let p = Position::new(50, 50);
    assert!(world.can_place_charging_station(&p));
    assert!(world.place_charging_station(p));
    assert_eq!(world.get_tile(&p), Some(TileType::ChargingStation));
    assert_eq!(world.charging_stations.len(), 1);
    assert!(!world.can_place_charging_station(&p));
    assert!(!world.place_charging_station(p));
    assert_eq!(world.charging_stations.len(), 1);

    let rock = Position::new(51, 50);
    world.set_tile(&rock, TileType::Rock);
    assert!(!world.place_charging_station(rock));
    let ice = Position::new(52, 50);
    world.set_tile(&ice, TileType::Ice);
    assert!(world.place_charging_station(ice));
    assert!(!world.place_charging_station(Position::new(100, 100)));
    assert!(!world.place_charging_station(Position::new(-1, 50)));
    assert_eq!(world.charging_stations.len(), 2);
}

#[test]
fn station_boots_after_one_day() {
    let mut world = flat_world();
    let p = Position::new(60, 60);
    assert!(world.place_charging_station(p));
    let station = world.get_charging_station(&p).unwrap();
    assert_eq!(station.days_until_operational, 1);
    assert!(!world.is_charging_station_operational(&p));
    assert!(!world.is_recharge_point(&p));
    assert!(!world.start_next_day());
    assert_eq!(world.day_count, 2);
    assert!(world.is_charging_station_operational(&p));
    assert!(world.is_recharge_point(&p));
    assert!(world.get_charging_station(&Position::new(61, 60)).is_none());
}

#[test]
fn every_fifth_day_is_a_terraforming_day() {
    let mut world = flat_world();
    world.day_count = 3;
    assert!(!world.start_next_day());
    assert_eq!(world.day_count, 4);
    assert!(world.start_next_day());
    assert_eq!(world.day_count, 5);
}

#[test]
fn base_is_always_a_recharge_point() {
    let world = flat_world();
    assert!(world.is_recharge_point(&Position::new(100, 100)));
    assert!(!world.is_recharge_point(&Position::new(100, 101)));
}

#[test]
fn stored_ice_is_consumed_one_sample_at_a_time() {
    let mut world = flat_world();
    assert!(!world.consume_stored_ice());
    world.ice_stored = 2;
    assert!(world.consume_stored_ice());
    assert_eq!(world.ice_stored, 1);
    assert!(world.consume_stored_ice());
    assert!(!world.consume_stored_ice());
    assert_eq!(world.ice_stored, 0);
}

#[test]
fn appearance_of_tiles() {
    let mut world = flat_world();
    let robot = Position::new(100, 100);
    assert_eq!(world.appearance_at(&robot, &Position::new(101, 100)), TileAppearance::Unexplored);
    let near = Position::new(102, 100);
    let far = Position::new(110, 100);
    world.mark_as_explored(&near);
    world.mark_as_explored(&far);
    assert!(world.place_charging_station(near));
    assert_eq!(
        world.appearance_at(&robot, &near),
        TileAppearance::Explored { tile: TileType::ChargingStation, in_view: true, boot_days: Some(1) }
    );
    assert_eq!(
        world.appearance_at(&robot, &far),
        TileAppearance::Explored { tile: TileType::Regolith, in_view: false, boot_days: None }
    );
    world.start_next_day();
    assert_eq!(
        world.appearance_at(&robot, &near),
        TileAppearance::Explored { tile: TileType::ChargingStation, in_view: true, boot_days: None }
    );
}

#[test]
fn charging_station_state_counts_down_to_zero() {
    let mut s = ChargingStationState::new(Position::new(1, 2));
    assert_eq!(s.position, Position::new(1, 2));
    assert!(!s.is_operational());
    s.advance_day();
    assert!(s.is_operational());
    s.advance_day();
    assert_eq!(s.days_until_operational, 0);
}

#[test]
fn squared_distance_is_exact() {
    assert_eq!(Position::new(0, 0).distance_squared(&Position::new(3, 4)), 25);
    assert_eq!(Position::new(i32::MIN, 0).distance_squared(&Position::new(i32::MAX, 0)), 18446744065119617025u128);
}
