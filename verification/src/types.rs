//! Core data types: tiles, grid positions and charging stations.
use vstd::prelude::*;

verus! {

/// The kind of surface that covers one tile of the Martian grid.
#[derive(Clone, Copy, PartialEq, Eq, Debug, Structural)]
pub enum TileType {
    Regolith,
    Rock,
    Ice,
    Base,
    ChargingStation,
}

/// A tile coordinate on the grid (x grows to the right, y grows downwards).
#[derive(Clone, Copy, PartialEq, Eq, Debug, Structural)]
pub struct Position {
    pub x: i32,
    pub y: i32,
}

impl Position {
    /// Builds the position `(x, y)`.
    pub fn new(x: i32, y: i32) -> (p: Self)
        ensures
            p.x == x,
            p.y == y,
    {
        Self { x, y }
    }

    /// The squared Euclidean distance between two positions, as a
    /// mathematical integer.
    pub open spec fn dist_sq(self, other: Position) -> int {
        (self.x - other.x) * (self.x - other.x) + (self.y - other.y) * (self.y - other.y)
    }

    /// The squared Euclidean distance to `other`. It orders positions by
    /// distance exactly as the Euclidean distance does, and it is exact for
    /// every pair of positions.
    pub fn distance_squared(&self, other: &Position) -> (d: u128)
        ensures
            d == self.dist_sq(*other),
    {
        let dx: i64 = self.x as i64 - other.x as i64;
        let dy: i64 = self.y as i64 - other.y as i64;
        let ax: u128 = if dx < 0 { (-dx) as u128 } else { dx as u128 };
        let ay: u128 = if dy < 0 { (-dy) as u128 } else { dy as u128 };
        proof {
            assert(ax * ax <= 0x1_0000_0000 * 0x1_0000_0000) by (nonlinear_arith)
                requires
                    ax <= 0x1_0000_0000,
            ;
            assert(ay * ay <= 0x1_0000_0000 * 0x1_0000_0000) by (nonlinear_arith)
                requires
                    ay <= 0x1_0000_0000,
            ;
            assert(ax * ax == dx * dx) by (nonlinear_arith)
                requires
                    ax == dx || ax == -dx,
            ;
            assert(ay * ay == dy * dy) by (nonlinear_arith)
                requires
                    ay == dy || ay == -dy,
            ;
        }
        ax * ax + ay * ay
    }
}

/// A charging station placed by the robot; it boots for a number of days
/// before it can recharge the robot.
#[derive(Clone, Copy, Debug)]
pub struct ChargingStationState {
    pub position: Position,
    pub days_until_operational: u32,
}

impl ChargingStationState {
    /// A freshly built station at `position`, one day away from working.
    pub fn new(position: Position) -> (s: Self)
        ensures
            s.position == position,
            s.days_until_operational == 1,
            !s.operational(),
    {
        Self { position, days_until_operational: 1 }
    }

    /// The station recharges the robot once it has finished booting.
    pub open spec fn operational(self) -> bool {
        self.days_until_operational == 0
    }

    /// The state of the station one day later.
    pub open spec fn after_day(self) -> ChargingStationState {
        ChargingStationState {
            position: self.position,
            days_until_operational: if self.days_until_operational > 0 {
                (self.days_until_operational - 1) as u32
            } else {
                0
            },
        }
    }

    /// Whether the station has finished booting.
    pub fn is_operational(&self) -> (b: bool)
        ensures
            b == self.operational(),
    {
        self.days_until_operational == 0
    }

    /// Counts one day of boot-up time down, stopping at zero.
    pub fn advance_day(&mut self)
        ensures
            *final(self) == old(self).after_day(),
    {
        if self.days_until_operational > 0 {
            self.days_until_operational -= 1;
        }
    }
}

/// Law: a new station is not operational, and exactly one day later it is;
/// once operational, it stays operational day after day.
pub proof fn lemma_station_boots_in_one_day(position: Position, s: ChargingStationState)
    ensures
        !(ChargingStationState { position, days_until_operational: 1 }).operational(),
        (ChargingStationState { position, days_until_operational: 1 }).after_day().operational(),
        s.operational() ==> s.after_day().operational() && s.after_day() == s,
{
}

} // verus!
