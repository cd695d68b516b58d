//! The Martian world: terrain grid, fog of war, charging stations and the
//! ice stored at the base.
use vstd::prelude::*;
use crate::types::{ChargingStationState, Position, TileType};

verus! {

/// Number of tile columns of the grid.
pub const WORLD_WIDTH: usize = 200;

/// Number of tile rows of the grid.
pub const WORLD_HEIGHT: usize = 200;

/// Column of the base, in the middle of the grid.
pub const BASE_X: usize = 100;

/// Row of the base, in the middle of the grid.
pub const BASE_Y: usize = 100;

/// Radius of the area around the base that is known from the start.
pub const START_VISION_RADIUS: i32 = 6;

/// Whether the integer coordinates `(x, y)` lie on the grid.
pub open spec fn in_bounds(x: int, y: int) -> bool {
    0 <= x < WORLD_WIDTH && 0 <= y < WORLD_HEIGHT
}

/// Whether `p` lies on the grid.
pub open spec fn pos_in_bounds(p: Position) -> bool {
    in_bounds(p.x as int, p.y as int)
}

/// The coordinate hash that drives the procedural terrain, computed with the
/// wrapping arithmetic of `usize`.
pub open spec fn hash_spec(x: usize, y: usize) -> usize {
    let h0 = x.wrapping_mul(374761393usize);
    let h1 = h0.wrapping_add(y.wrapping_mul(668265263usize));
    let h2 = h1 ^ (h1 >> 13usize);
    let h3 = h2.wrapping_mul(1274126177usize);
    h3 ^ (h3 >> 16usize)
}

/// The terrain that world generation puts at `(x, y)`: the base in the
/// middle, rock where the hash is below 5 modulo 100 (5%), ice where the
/// hundreds of the hash are below 3 modulo 100 (3%), regolith elsewhere.
pub open spec fn generated_tile(x: int, y: int) -> TileType {
    if x == BASE_X && y == BASE_Y {
        TileType::Base
    } else {
        let h = hash_spec(x as usize, y as usize);
        if h % 100 < 5 {
            TileType::Rock
        } else if (h / 100) % 100 < 3 {
            TileType::Ice
        } else {
            TileType::Regolith
        }
    }
}

/// Whether `(x, y)` lies within the starting vision radius of the base.
pub open spec fn initially_explored(x: int, y: int) -> bool {
    (x - BASE_X) * (x - BASE_X) + (y - BASE_Y) * (y - BASE_Y) <= START_VISION_RADIUS
        * START_VISION_RADIUS
}

/// How one tile looks on screen.
#[derive(Clone, Copy, PartialEq, Eq, Debug, Structural)]
pub enum TileAppearance {
    /// Never seen: drawn dark.
    Unexplored,
    /// Seen before. `in_view` tells whether the tile lies within the
    /// robot's vision radius (otherwise it is drawn under fog);
    /// `boot_days` holds the days left for a booting station in view.
    Explored { tile: TileType, in_view: bool, boot_days: Option<u32> },
}

/// A square is bounded by the square of a bound of the absolute value.
pub proof fn lemma_square_bound(a: int, b: int)
    requires
        -b <= a <= b,
    ensures
        0 <= a * a <= b * b,
{
    assert(0 <= a * a <= b * b) by (nonlinear_arith)
        requires
            -b <= a <= b,
    ;
}

/// The world: its terrain and explored flags, the charging stations, the
/// day count and the ice waiting at the base.
pub struct World {
    /// `tiles[y][x]` is the terrain at `(x, y)`.
    pub tiles: Vec<Vec<TileType>>,
    /// `explored[y][x]` tells whether the robot has seen `(x, y)`.
    pub explored: Vec<Vec<bool>>,
    /// The stations placed so far, in the order of placement.
    pub charging_stations: Vec<ChargingStationState>,
    /// The current sol, starting at 1.
    pub day_count: u32,
    /// Where the base stands.
    pub base_position: Position,
    /// Ice samples deposited at the base and not yet processed.
    pub ice_stored: u32,
}

impl World {
    /// Well-formedness: both grids are `WORLD_HEIGHT` rows of `WORLD_WIDTH`
    /// cells, and the charging stations stand on the grid, at most one per
    /// tile.
    pub open spec fn wf(self) -> bool {
        &&& self.tiles.len() == WORLD_HEIGHT
        &&& self.explored.len() == WORLD_HEIGHT
        &&& forall|y: int| 0 <= y < WORLD_HEIGHT ==> #[trigger] self.tiles@[y].len() == WORLD_WIDTH
        &&& forall|y: int|
            0 <= y < WORLD_HEIGHT ==> #[trigger] self.explored@[y].len() == WORLD_WIDTH
        &&& forall|i: int|
            0 <= i < self.charging_stations.len() ==> pos_in_bounds(
                #[trigger] self.charging_stations@[i].position,
            )
        &&& forall|i: int, j: int|
            0 <= i < j < self.charging_stations.len() ==> #[trigger] self.charging_stations@[i].position
                != #[trigger] self.charging_stations@[j].position
    }

    /// The terrain at `p`, or `None` off the grid.
    pub open spec fn tile_at(self, p: Position) -> Option<TileType> {
        if pos_in_bounds(p) {
            Some(self.tiles@[p.y as int]@[p.x as int])
        } else {
            None
        }
    }

    /// Whether `p` is on the grid and has been explored.
    pub open spec fn explored_at(self, p: Position) -> bool {
        pos_in_bounds(p) && self.explored@[p.y as int]@[p.x as int]
    }

    /// Whether a charging station stands at `p`.
    pub open spec fn has_station(self, p: Position) -> bool {
        exists|i: int|
            0 <= i < self.charging_stations.len() && #[trigger] self.charging_stations@[i].position
                == p
    }

    /// Whether an operational charging station stands at `p`.
    pub open spec fn station_operational_at(self, p: Position) -> bool {
        exists|i: int|
            0 <= i < self.charging_stations.len() && #[trigger] self.charging_stations@[i].position
                == p && self.charging_stations@[i].operational()
    }

    /// Where a new station may be built: on the grid, on regolith or ice,
    /// and not where a station already stands.
    pub open spec fn can_place(self, p: Position) -> bool {
        &&& pos_in_bounds(p)
        &&& (self.tile_at(p) == Some(TileType::Regolith) || self.tile_at(p) == Some(TileType::Ice))
        &&& !self.has_station(p)
    }

    /// Where the robot recharges: at the base or at an operational station.
    pub open spec fn recharges_at(self, p: Position) -> bool {
        p == self.base_position || self.station_operational_at(p)
    }

    /// `self` and `other` agree everywhere but in the tile grid.
    pub open spec fn same_but_tiles(self, other: World) -> bool {
        &&& self.explored == other.explored
        &&& self.charging_stations == other.charging_stations
        &&& self.day_count == other.day_count
        &&& self.base_position == other.base_position
        &&& self.ice_stored == other.ice_stored
    }

    /// The coordinate hash used by world generation.
    pub fn hash_coords(x: usize, y: usize) -> (h: usize)
        ensures
            h == hash_spec(x, y),
    {
        let mut hash = x.wrapping_mul(374761393);
        hash = hash.wrapping_add(y.wrapping_mul(668265263));
        hash ^= hash >> 13;
        hash = hash.wrapping_mul(1274126177);
        hash ^= hash >> 16;
        hash
    }

    /// Generates the world: procedural terrain around a base in the middle,
    /// the surroundings of the base explored, day 1, no stations, no ice.
    pub fn new() -> (w: Self)
        ensures
            w.wf(),
            forall|x: int, y: int|
                in_bounds(x, y) ==> #[trigger] w.tiles@[y]@[x] == generated_tile(x, y)
                    && w.explored@[y]@[x] == initially_explored(x, y),
            w.charging_stations.len() == 0,
            w.day_count == 1,
            w.base_position == (Position { x: BASE_X as i32, y: BASE_Y as i32 }),
            w.ice_stored == 0,
    {
        let mut tiles: Vec<Vec<TileType>> = Vec::new();
        let mut explored: Vec<Vec<bool>> = Vec::new();
        let mut y: usize = 0;
        while y < WORLD_HEIGHT
            invariant
                y <= WORLD_HEIGHT,
                tiles.len() == y,
                explored.len() == y,
                forall|j: int| 0 <= j < y ==> #[trigger] tiles@[j].len() == WORLD_WIDTH,
                forall|j: int| 0 <= j < y ==> #[trigger] explored@[j].len() == WORLD_WIDTH,
                forall|i: int, j: int|
                    0 <= j < y && 0 <= i < WORLD_WIDTH ==> #[trigger] tiles@[j]@[i]
                        == generated_tile(i, j) && explored@[j]@[i] == initially_explored(i, j),
            decreases WORLD_HEIGHT - y,
        {
            let mut row: Vec<TileType> = Vec::new();
            let mut seen: Vec<bool> = Vec::new();
            let mut x: usize = 0;
            while x < WORLD_WIDTH
                invariant
                    x <= WORLD_WIDTH,
                    y < WORLD_HEIGHT,
                    row.len() == x,
                    seen.len() == x,
                    forall|i: int|
                        0 <= i < x ==> #[trigger] row@[i] == generated_tile(i, y as int)
                            && seen@[i] == initially_explored(i, y as int),
                decreases WORLD_WIDTH - x,
            {
                let tile = if x == BASE_X && y == BASE_Y {
                    TileType::Base
                } else {
                    let hash = Self::hash_coords(x, y);
                    if hash % 100 < 5 {
                        TileType::Rock
                    } else if (hash / 100) % 100 < 3 {
                        TileType::Ice
                    } else {
                        TileType::Regolith
                    }
                };
                let dx: i32 = x as i32 - BASE_X as i32;
                let dy: i32 = y as i32 - BASE_Y as i32;
                proof {
                    lemma_square_bound(dx as int, 100);
                    lemma_square_bound(dy as int, 100);
                }
                row.push(tile);
                seen.push(dx * dx + dy * dy <= START_VISION_RADIUS * START_VISION_RADIUS);
                x += 1;
            }
            tiles.push(row);
            explored.push(seen);
            y += 1;
        }
        World {
            tiles,
            explored,
            charging_stations: Vec::new(),
            day_count: 1,
            base_position: Position::new(BASE_X as i32, BASE_Y as i32),
            ice_stored: 0,
        }
    }

    /// The terrain at `pos`, or `None` when `pos` is off the grid.
    pub fn get_tile(&self, pos: &Position) -> (t: Option<TileType>)
        requires
            self.wf(),
        ensures
            t == self.tile_at(*pos),
    {
        if pos.x < 0 || pos.y < 0 || pos.x >= WORLD_WIDTH as i32 || pos.y >= WORLD_HEIGHT as i32 {
            return None;
        }
        let y = pos.y as usize;
        assert(self.tiles@[y as int].len() == WORLD_WIDTH);
        Some(self.tiles[y][pos.x as usize])
    }

    /// Replaces the terrain at `pos`; does nothing off the grid.
    pub fn set_tile(&mut self, pos: &Position, tile_type: TileType)
        requires
            old(self).wf(),
        ensures
            final(self).wf(),
            final(self).same_but_tiles(*old(self)),
            forall|p: Position|
                #[trigger] final(self).tile_at(p) == if p == *pos && pos_in_bounds(*pos) {
                    Some(tile_type)
                } else {
                    old(self).tile_at(p)
                },
    {
        if pos.x >= 0 && pos.y >= 0 && pos.x < WORLD_WIDTH as i32 && pos.y < WORLD_HEIGHT as i32 {
            let y = pos.y as usize;
            let x = pos.x as usize;
            assert(self.tiles@[y as int].len() == WORLD_WIDTH);
            self.tiles[y][x] = tile_type;
            assert(self.tiles@[y as int].len() == WORLD_WIDTH);
            assert forall|p: Position| #[trigger] self.tile_at(p) == if p == *pos {
                Some(tile_type)
            } else {
                old(self).tile_at(p)
            } by {
                if pos_in_bounds(p) {
                    assert(self.tiles@[p.y as int] == old(self).tiles@[p.y as int] || p.y == pos.y);
                }
            }
        }
    }

    /// Marks `pos` as explored; does nothing off the grid.
    pub fn mark_as_explored(&mut self, pos: &Position)
        requires
            old(self).wf(),
        ensures
            final(self).wf(),
            final(self).tiles == old(self).tiles,
            final(self).charging_stations == old(self).charging_stations,
            final(self).day_count == old(self).day_count,
            final(self).base_position == old(self).base_position,
            final(self).ice_stored == old(self).ice_stored,
            forall|p: Position|
                #[trigger] final(self).explored_at(p) == (old(self).explored_at(p) || (p == *pos
                    && pos_in_bounds(*pos))),
    {
        if pos.x >= 0 && pos.y >= 0 && pos.x < WORLD_WIDTH as i32 && pos.y < WORLD_HEIGHT as i32 {
            let y = pos.y as usize;
            let x = pos.x as usize;
            assert(self.explored@[y as int].len() == WORLD_WIDTH);
            self.explored[y][x] = true;
            assert(self.explored@[y as int].len() == WORLD_WIDTH);
            assert forall|p: Position| #[trigger] self.explored_at(p) == (old(self).explored_at(p)
                || p == *pos) by {
                if pos_in_bounds(p) {
                    assert(self.explored@[p.y as int] == old(self).explored@[p.y as int] || p.y
                        == pos.y);
                }
            }
        }
    }

    /// Whether `pos` is on the grid and explored.
    pub fn is_explored(&self, pos: &Position) -> (b: bool)
        requires
            self.wf(),
        ensures
            b == self.explored_at(*pos),
    {
        if pos.x < 0 || pos.y < 0 || pos.x >= WORLD_WIDTH as i32 || pos.y >= WORLD_HEIGHT as i32 {
            return false;
        }
        let y = pos.y as usize;
        assert(self.explored@[y as int].len() == WORLD_WIDTH);
        self.explored[y][pos.x as usize]
    }

    /// Index of the station at `pos`, if one stands there.
    fn station_index(&self, pos: &Position) -> (r: Option<usize>)
        requires
            self.wf(),
        ensures
            match r {
                Some(i) => i < self.charging_stations.len() && self.charging_stations@[i as int].position
                    == *pos,
                None => !self.has_station(*pos),
            },
    {
        let mut i: usize = 0;
        while i < self.charging_stations.len()
            invariant
                i <= self.charging_stations.len(),
                forall|j: int| 0 <= j < i ==> #[trigger] self.charging_stations@[j].position != *pos,
            decreases self.charging_stations.len() - i,
        {
            if self.charging_stations[i].position == *pos {
                return Some(i);
            }
            i += 1;
        }
        None
    }

    /// Whether a station may be built at `pos`: on the grid, on regolith or
    /// ice, and where no station stands yet.
    pub fn can_place_charging_station(&self, pos: &Position) -> (b: bool)
        requires
            self.wf(),
        ensures
            b == self.can_place(*pos),
    {
        if pos.x < 0 || pos.y < 0 || pos.x >= WORLD_WIDTH as i32 || pos.y >= WORLD_HEIGHT as i32 {
            return false;
        }
        let y = pos.y as usize;
        assert(self.tiles@[y as int].len() == WORLD_WIDTH);
        let tile = self.tiles[y][pos.x as usize];
        if tile != TileType::Regolith && tile != TileType::Ice {
            return false;
        }
        if self.station_index(pos).is_some() {
            return false;
        }
        true
    }

    /// Builds a booting station at `pos` when the spot allows it, and tells
    /// whether it did.
    pub fn place_charging_station(&mut self, pos: Position) -> (placed: bool)
        requires
            old(self).wf(),
        ensures
            final(self).wf(),
            placed == old(self).can_place(pos),
            placed ==> {
                &&& final(self).charging_stations@ == old(self).charging_stations@.push(
                    ChargingStationState { position: pos, days_until_operational: 1 },
                )
                &&& final(self).explored == old(self).explored
                &&& final(self).day_count == old(self).day_count
                &&& final(self).base_position == old(self).base_position
                &&& final(self).ice_stored == old(self).ice_stored
                &&& forall|p: Position|
                    #[trigger] final(self).tile_at(p) == if p == pos {
                        Some(TileType::ChargingStation)
                    } else {
                        old(self).tile_at(p)
                    }
            },
            !placed ==> *final(self) == *old(self),
    {
        if !self.can_place_charging_station(&pos) {
            return false;
        }
        self.set_tile(&pos, TileType::ChargingStation);
        let ghost before = self.charging_stations@;
        let ghost after_set = *self;
        self.charging_stations.push(ChargingStationState::new(pos));
        assert forall|p: Position| #[trigger] self.tile_at(p) == after_set.tile_at(p) by {}
        assert forall|i: int, j: int|
            0 <= i < j < self.charging_stations.len() implies #[trigger] self.charging_stations@[i].position
            != #[trigger] self.charging_stations@[j].position by {
            if j == before.len() {
                assert(before[i].position != pos);
            }
        }
        true
    }

    /// The station at `pos`, if one stands there.
    pub fn get_charging_station(&self, pos: &Position) -> (r: Option<&ChargingStationState>)
        requires
            self.wf(),
        ensures
            match r {
                Some(s) => exists|i: int|
                    0 <= i < self.charging_stations.len() && #[trigger] self.charging_stations@[i]
                        == *s,
                None => !self.has_station(*pos),
            },
            r matches Some(s) ==> s.position == *pos,
    {
        match self.station_index(pos) {
            Some(i) => Some(&self.charging_stations[i]),
            None => None,
        }
    }

    /// Whether an operational station stands at `pos`.
    pub fn is_charging_station_operational(&self, pos: &Position) -> (b: bool)
        requires
            self.wf(),
        ensures
            b == self.station_operational_at(*pos),
    {
        match self.station_index(pos) {
            Some(i) => {
                let b = self.charging_stations[i].is_operational();
                assert(forall|j: int|
                    0 <= j < self.charging_stations.len() && #[trigger] self.charging_stations@[j].position
                        == *pos ==> j == i);
                b
            },
            None => false,
        }
    }

    /// Whether the robot recharges at `pos`: at the base or at an operational
    /// station.
    pub fn is_recharge_point(&self, pos: &Position) -> (b: bool)
        requires
            self.wf(),
        ensures
            b == self.recharges_at(*pos),
    {
        *pos == self.base_position || self.is_charging_station_operational(pos)
    }

    /// Starts the next sol: counts the day, lets every station boot one day
    /// further, and tells whether the new day count is a multiple of 5 (the
    /// days on which the climate improves a little by itself).
    pub fn start_next_day(&mut self) -> (terraform_day: bool)
        requires
            old(self).wf(),
            old(self).day_count < u32::MAX,
        ensures
            final(self).wf(),
            final(self).day_count == old(self).day_count + 1,
            terraform_day == (final(self).day_count % 5 == 0),
            final(self).tiles == old(self).tiles,
            final(self).explored == old(self).explored,
            final(self).base_position == old(self).base_position,
            final(self).ice_stored == old(self).ice_stored,
            final(self).charging_stations.len() == old(self).charging_stations.len(),
            forall|i: int|
                0 <= i < old(self).charging_stations.len() ==> #[trigger] final(self).charging_stations@[i] == old(self).charging_stations@[i].after_day(),
    {
        self.day_count += 1;
        let n = self.charging_stations.len();
        let mut i: usize = 0;
        while i < n
            invariant
                n == self.charging_stations.len() == old(self).charging_stations.len(),
                i <= n,
                self.tiles == old(self).tiles,
                self.explored == old(self).explored,
                self.base_position == old(self).base_position,
                self.ice_stored == old(self).ice_stored,
                self.day_count == old(self).day_count + 1,
                forall|j: int| 0 <= j < i ==> #[trigger] self.charging_stations@[j] == old(self).charging_stations@[j].after_day(),
                forall|j: int| i <= j < n ==> #[trigger] self.charging_stations@[j] == old(self).charging_stations@[j],
            decreases n - i,
        {
            let mut station = self.charging_stations[i];
            station.advance_day();
            self.charging_stations.set(i, station);
            i += 1;
        }
        self.day_count % 5 == 0
    }

    /// Takes one processed ice sample out of the base's store, if any is
    /// there, and tells whether it did.
    pub fn consume_stored_ice(&mut self) -> (consumed: bool)
        requires
            old(self).wf(),
        ensures
            final(self).wf(),
            consumed == (old(self).ice_stored > 0),
            final(self).ice_stored == if consumed {
                (old(self).ice_stored - 1) as u32
            } else {
                old(self).ice_stored
            },
            final(self).tiles == old(self).tiles,
            final(self).explored == old(self).explored,
            final(self).charging_stations == old(self).charging_stations,
            final(self).day_count == old(self).day_count,
            final(self).base_position == old(self).base_position,
    {
        if self.ice_stored == 0 {
            return false;
        }
        self.ice_stored -= 1;
        true
    }

    /// `a` is how the tile at `pos` looks with the robot at `robot_position`:
    /// unexplored tiles are dark; explored ones show their terrain, whether
    /// they are within the robot's starting vision radius, and, for a
    /// booting station in view, its days left.
    pub open spec fn shows(self, robot_position: Position, pos: Position, a: TileAppearance) -> bool {
        match a {
            TileAppearance::Unexplored => !self.explored_at(pos),
            TileAppearance::Explored { tile, in_view, boot_days } => {
                &&& self.explored_at(pos)
                &&& Some(tile) == self.tile_at(pos)
                &&& in_view == (robot_position.dist_sq(pos) <= START_VISION_RADIUS
                    * START_VISION_RADIUS)
                &&& (boot_days is Some <==> (tile == TileType::ChargingStation && in_view
                    && self.has_station(pos) && !self.station_operational_at(pos)))
                &&& match boot_days {
                    Some(d) => exists|i: int|
                        0 <= i < self.charging_stations.len()
                            && #[trigger] self.charging_stations@[i].position == pos
                            && self.charging_stations@[i].days_until_operational == d,
                    None => true,
                }
            },
        }
    }

    /// How the tile at `pos` looks to the player when the robot stands at
    /// `robot_position` (see `TileAppearance`).
    pub fn appearance_at(&self, robot_position: &Position, pos: &Position) -> (a: TileAppearance)
        requires
            self.wf(),
        ensures
            self.shows(*robot_position, *pos, a),
    {
        if !self.is_explored(pos) {
            return TileAppearance::Unexplored;
        }
        let in_view = robot_position.distance_squared(pos) <= (START_VISION_RADIUS
            * START_VISION_RADIUS) as u128;
        let tile = match self.get_tile(pos) {
            Some(t) => t,
            None => TileType::Regolith,
        };
        let mut boot_days: Option<u32> = None;
        if tile == TileType::ChargingStation && in_view {
            match self.station_index(pos) {
                Some(i) => {
                    let station = self.charging_stations[i];
                    assert(forall|j: int|
                        0 <= j < self.charging_stations.len()
                            && #[trigger] self.charging_stations@[j].position == *pos ==> j == i);
                    if !station.is_operational() {
                        boot_days = Some(station.days_until_operational);
                    }
                },
                None => {},
            }
        }
        TileAppearance::Explored { tile, in_view, boot_days }
    }
}

/// Law: once a station is built at `pos` (`after` as `place_charging_station`
/// leaves it), the tile shows a station, the station is still booting, and
/// no second station can be built there.
pub proof fn lemma_placement_blocks_second_station(before: World, after: World, pos: Position)
    requires
        before.wf(),
        before.can_place(pos),
        after.charging_stations@ == before.charging_stations@.push(
            ChargingStationState { position: pos, days_until_operational: 1 },
        ),
        forall|p: Position|
            #[trigger] after.tile_at(p) == if p == pos {
                Some(TileType::ChargingStation)
            } else {
                before.tile_at(p)
            },
    ensures
        after.tile_at(pos) == Some(TileType::ChargingStation),
        after.has_station(pos),
        !after.station_operational_at(pos),
        !after.can_place(pos),
{
    let n = before.charging_stations.len() as int;
    assert(after.charging_stations@[n].position == pos);
    assert forall|i: int|
        0 <= i < after.charging_stations.len() && #[trigger] after.charging_stations@[i].position == pos
            implies !after.charging_stations@[i].operational() by {
        if i < n {
            assert(after.charging_stations@[i] == before.charging_stations@[i]);
            assert(before.has_station(pos));
        }
    }
}

/// Law: a station with at most one day of boot-up left is operational once
/// the next day has begun (`after` as `start_next_day` leaves it), and the
/// robot then recharges there.
pub proof fn lemma_station_operational_next_day(before: World, after: World, i: int)
    requires
        0 <= i < before.charging_stations.len(),
        before.charging_stations@[i].days_until_operational <= 1,
        after.charging_stations.len() == before.charging_stations.len(),
        forall|j: int|
            0 <= j < before.charging_stations.len() ==> #[trigger] after.charging_stations@[j]
                == before.charging_stations@[j].after_day(),
    ensures
        after.station_operational_at(before.charging_stations@[i].position),
        after.recharges_at(before.charging_stations@[i].position),
{
    assert(after.charging_stations@[i] == before.charging_stations@[i].after_day());
    assert(after.charging_stations@[i].position == before.charging_stations@[i].position);
    assert(after.charging_stations@[i].operational());
}

/// Law: the ice deposit at `pos` is finite: once collected (`after` as
/// `collect_ice` leaves it), the tile is regolith and holds no more ice.
pub proof fn lemma_ice_collected_once(before: World, after: World, pos: Position)
    requires
        before.tile_at(pos) == Some(TileType::Ice),
        forall|p: Position|
            #[trigger] after.tile_at(p) == if p == pos {
                Some(TileType::Regolith)
            } else {
                before.tile_at(p)
            },
    ensures
        after.tile_at(pos) == Some(TileType::Regolith),
        after.tile_at(pos) != Some(TileType::Ice),
{
}

} // verus!
