//! The autopilot: memory of the surroundings, path finding, and the
//! movement decisions of the robot when it explores on its own.
use std::collections::HashMap;
use std::collections::VecDeque;
use vstd::prelude::*;
use crate::input::InputAction;
use crate::types::{ChargingStationState, Position, TileType};
use crate::world::{pos_in_bounds, World};

verus! {

broadcast use vstd::std_specs::hash::group_hash_axioms;

/// What the autopilot reads of the robot: where it stands, and whether its
/// battery holds enough for one more step (1 energy).
#[derive(Clone, Copy, PartialEq, Eq, Debug, Structural)]
pub struct RobotStatus {
    pub position: Position,
    pub has_step_energy: bool,
}

/// The map key of a position: one 64-bit number per pair of coordinates.
pub open spec fn key_of(p: Position) -> u64 {
    ((p.x + 0x8000_0000) * 0x1_0000_0000 + (p.y + 0x8000_0000)) as u64
}

/// The map key of `p`.
pub fn position_key(p: &Position) -> (k: u64)
    ensures
        k == key_of(*p),
{
    let hi: u64 = (p.x as i64 + 0x8000_0000i64) as u64;
    let lo: u64 = (p.y as i64 + 0x8000_0000i64) as u64;
    hi * 0x1_0000_0000u64 + lo
}

/// Distinct positions have distinct keys.
pub proof fn lemma_key_injective(p: Position, q: Position)
    ensures
        key_of(p) == key_of(q) <==> p == q,
{
    let a = p.x + 0x8000_0000;
    let b = p.y + 0x8000_0000;
    let c = q.x + 0x8000_0000;
    let d = q.y + 0x8000_0000;
    assert(0 <= a * 0x1_0000_0000 + b < 0x1_0000_0000_0000_0000) by (nonlinear_arith)
        requires
            0 <= a < 0x1_0000_0000,
            0 <= b < 0x1_0000_0000,
    ;
    assert(0 <= c * 0x1_0000_0000 + d < 0x1_0000_0000_0000_0000) by (nonlinear_arith)
        requires
            0 <= c < 0x1_0000_0000,
            0 <= d < 0x1_0000_0000,
    ;
    if a * 0x1_0000_0000 + b == c * 0x1_0000_0000 + d {
        assert(a == c && b == d) by (nonlinear_arith)
            requires
                a * 0x1_0000_0000 + b == c * 0x1_0000_0000 + d,
                0 <= b < 0x1_0000_0000,
                0 <= d < 0x1_0000_0000,
        ;
    }
}

/// `p` can be moved by up to `margin` tiles along each axis without leaving
/// the range of `i32`.
pub open spec fn fits(p: Position, margin: int) -> bool {
    &&& i32::MIN + margin <= p.x <= i32::MAX - margin
    &&& i32::MIN + margin <= p.y <= i32::MAX - margin
}

/// The position one step `(dx, dy)` away from `p`.
pub open spec fn step_target(p: Position, dx: int, dy: int) -> Position {
    Position { x: (p.x + dx) as i32, y: (p.y + dy) as i32 }
}

/// `(dx, dy)` is one step to one of the eight neighbouring tiles.
pub open spec fn unit_step(dx: int, dy: int) -> bool {
    -1 <= dx <= 1 && -1 <= dy <= 1 && !(dx == 0 && dy == 0)
}

/// The robot may stand on `p`: on the grid and not rock.
pub open spec fn passable(world: World, p: Position) -> bool {
    world.tile_at(p) is Some && world.tile_at(p) != Some(TileType::Rock)
}

/// The robot can take the step `(dx, dy)`: it has the energy, the step is
/// not empty, and it leads onto a passable tile.
pub open spec fn step_open(world: World, robot: RobotStatus, dx: int, dy: int) -> bool {
    &&& robot.has_step_energy
    &&& !(dx == 0 && dy == 0)
    &&& passable(world, step_target(robot.position, dx, dy))
}

/// The move action for the step `(dx, dy)`: a diagonal step turns into its
/// horizontal part.
pub open spec fn direction_action(dx: int, dy: int) -> InputAction {
    if dx > 0 {
        InputAction::MoveRight
    } else if dx < 0 {
        InputAction::MoveLeft
    } else if dy < 0 {
        InputAction::MoveUp
    } else {
        InputAction::MoveDown
    }
}

/// The first of the four orthogonal steps (up, right, down, left) that is
/// open, as a move action.
pub open spec fn any_move(world: World, robot: RobotStatus) -> Option<InputAction> {
    if step_open(world, robot, 0, -1) {
        Some(InputAction::MoveUp)
    } else if step_open(world, robot, 1, 0) {
        Some(InputAction::MoveRight)
    } else if step_open(world, robot, 0, 1) {
        Some(InputAction::MoveDown)
    } else if step_open(world, robot, -1, 0) {
        Some(InputAction::MoveLeft)
    } else {
        None
    }
}

/// The sign of `v`: -1, 0 or 1.
pub open spec fn sign(v: int) -> int {
    if v > 0 {
        1
    } else if v < 0 {
        -1
    } else {
        0
    }
}

/// The steps that the greedy approach tries, in order, towards a target
/// `(dx, dy)` away: along the longer axis first, then the other axis, then
/// diagonally, then backwards along the first axis.
pub open spec fn greedy_candidates(dx: int, dy: int) -> Seq<(int, int)> {
    let sx = sign(dx);
    let sy = sign(dy);
    if (if dx < 0 { -dx } else { dx }) > (if dy < 0 { -dy } else { dy }) {
        seq![(sx, 0), (0, sy), (sx, sy), (-sx, 0)]
    } else {
        seq![(0, sy), (sx, 0), (sx, sy), (0, -sy)]
    }
}

/// The first step of `steps` that is open.
pub open spec fn first_open(world: World, robot: RobotStatus, steps: Seq<(int, int)>) -> Option<
    (int, int),
>
    decreases steps.len(),
{
    if steps.len() == 0 {
        None
    } else if step_open(world, robot, steps[0].0, steps[0].1) {
        Some(steps[0])
    } else {
        first_open(world, robot, steps.drop_first())
    }
}

/// The greedy move towards `target`: the first open candidate step, or any
/// open orthogonal step.
pub open spec fn greedy_move(world: World, robot: RobotStatus, target: Position) -> Option<
    InputAction,
> {
    match first_open(
        world,
        robot,
        greedy_candidates(target.x - robot.position.x, target.y - robot.position.y),
    ) {
        Some(d) => Some(direction_action(d.0, d.1)),
        None => any_move(world, robot),
    }
}

/// The nearest charger seen from `from` among the base and the operational
/// stations of `stations`: a station replaces the current best only when it
/// is strictly nearer, so the base wins ties, then earlier stations.
pub open spec fn nearest_charger(stations: Seq<ChargingStationState>, from: Position, base: Position) -> Position
    decreases stations.len(),
{
    if stations.len() == 0 {
        base
    } else {
        let best = nearest_charger(stations.drop_last(), from, base);
        let s = stations.last();
        if s.operational() && from.dist_sq(s.position) < from.dist_sq(best) {
            s.position
        } else {
            best
        }
    }
}

/// Law: the nearest charger is the base or an operational station, and no
/// operational station is strictly nearer to `from`, nor is the base.
pub proof fn lemma_nearest_charger_is_nearest(
    stations: Seq<ChargingStationState>,
    from: Position,
    base: Position,
)
    ensures
        ({
            let c = nearest_charger(stations, from, base);
            &&& c == base || exists|i: int|
                0 <= i < stations.len() && #[trigger] stations[i].position == c
                    && stations[i].operational()
            &&& from.dist_sq(c) <= from.dist_sq(base)
            &&& forall|i: int|
                0 <= i < stations.len() && #[trigger] stations[i].operational() ==> from.dist_sq(c)
                    <= from.dist_sq(stations[i].position)
        }),
    decreases stations.len(),
{
    if stations.len() > 0 {
        lemma_nearest_charger_is_nearest(stations.drop_last(), from, base);
        let best = nearest_charger(stations.drop_last(), from, base);
        let c = nearest_charger(stations, from, base);
        assert forall|i: int|
            0 <= i < stations.len() && #[trigger] stations[i].operational() implies from.dist_sq(c)
            <= from.dist_sq(stations[i].position) by {
            if i < stations.len() - 1 {
                assert(stations[i] == stations.drop_last()[i]);
            }
        }
        if c != base && c == best {
            let j = choose|j: int|
                0 <= j < stations.drop_last().len() && #[trigger] stations.drop_last()[j].position
                    == best && stations.drop_last()[j].operational();
            assert(stations[j] == stations.drop_last()[j]);
        }
    }
}

/// Law: the greedy step heads for `target`. Along the axis on which the
/// target is farther (the vertical one on a tie), the robot steps towards
/// it when that step is open; when it is blocked, it steps towards the
/// target along the other axis when that step is open.
pub proof fn lemma_greedy_heads_for_target(world: World, robot: RobotStatus, target: Position)
    ensures
        ({
            let dx = target.x - robot.position.x;
            let dy = target.y - robot.position.y;
            let sx: int = if dx > 0 { 1 } else if dx < 0 { -1 } else { 0 };
            let sy: int = if dy > 0 { 1 } else if dy < 0 { -1 } else { 0 };
            let horizontal_first = (if dx < 0 { -dx } else { dx }) > (if dy < 0 { -dy } else { dy });
            &&& horizontal_first && step_open(world, robot, sx, 0) ==> greedy_move(world, robot, target)
                == Some(direction_action(sx, 0))
            &&& horizontal_first && !step_open(world, robot, sx, 0) && step_open(world, robot, 0, sy)
                ==> greedy_move(world, robot, target) == Some(direction_action(0, sy))
            &&& !horizontal_first && step_open(world, robot, 0, sy) ==> greedy_move(world, robot, target)
                == Some(direction_action(0, sy))
            &&& !horizontal_first && !step_open(world, robot, 0, sy) && step_open(world, robot, sx, 0)
                ==> greedy_move(world, robot, target) == Some(direction_action(sx, 0))
        }),
{
    let dx = target.x - robot.position.x;
    let dy = target.y - robot.position.y;
    let steps = greedy_candidates(dx, dy);
    assert(steps.drop_first()[0] == steps[1]);
    reveal_with_fuel(first_open, 3);
}

/// `a` and `b` are orthogonal neighbours.
pub open spec fn adjacent(a: Position, b: Position) -> bool {
    ||| a.x == b.x && (a.y - b.y == 1 || b.y - a.y == 1)
    ||| a.y == b.y && (a.x - b.x == 1 || b.x - a.x == 1)
}

/// The rank of the step from `a` to its orthogonal neighbour `b` in the
/// order in which a path search tries steps: up 0, right 1, down 2, left 3.
pub open spec fn step_rank(a: Position, b: Position) -> int {
    if b.y < a.y {
        0
    } else if b.x > a.x {
        1
    } else if b.y > a.y {
        2
    } else {
        3
    }
}

/// Two walks from `start` agree on their first `k` tiles, and their next
/// steps differ, the step of `a` coming earlier in the search order.
pub open spec fn first_divergence(start: Position, a: Seq<Position>, b: Seq<Position>, k: int) -> bool {
    &&& 0 <= k < a.len()
    &&& k < b.len()
    &&& a.take(k) == b.take(k)
    &&& step_rank(if k == 0 { start } else { a[k - 1] }, a[k]) < step_rank(
        if k == 0 {
            start
        } else {
            a[k - 1]
        },
        b[k],
    )
}

/// The walk `a` from `start` comes before `b` in the search order: where
/// they first part, `a` takes the earlier step (up, right, down, left).
pub open spec fn walk_before(start: Position, a: Seq<Position>, b: Seq<Position>) -> bool {
    exists|k: int| #[trigger] first_divergence(start, a, b, k)
}

/// The search order is transitive on walks of one length.
proof fn lemma_before_trans(start: Position, a: Seq<Position>, b: Seq<Position>, c: Seq<Position>)
    requires
        walk_before(start, a, b),
        walk_before(start, b, c),
        a.len() == b.len(),
        b.len() == c.len(),
    ensures
        walk_before(start, a, c),
{
    let k1 = choose|k: int| #[trigger] first_divergence(start, a, b, k);
    let k2 = choose|k: int| #[trigger] first_divergence(start, b, c, k);
    if k1 < k2 {
        assert(b.take(k2)[k1] == c.take(k2)[k1]);
        assert(b.take(k1) =~= c.take(k1)) by {
            assert forall|i: int| 0 <= i < k1 implies b.take(k1)[i] == c.take(k1)[i] by {
                assert(b.take(k2)[i] == c.take(k2)[i]);
            }
        }
        if k1 > 0 {
            assert(a[k1 - 1] == a.take(k1)[k1 - 1]);
            assert(b[k1 - 1] == b.take(k1)[k1 - 1]);
        }
        assert(first_divergence(start, a, c, k1));
    } else if k2 < k1 {
        assert(a.take(k1)[k2] == b.take(k1)[k2]);
        assert(a.take(k2) =~= b.take(k2)) by {
            assert forall|i: int| 0 <= i < k2 implies a.take(k2)[i] == b.take(k2)[i] by {
                assert(a.take(k1)[i] == b.take(k1)[i]);
            }
        }
        if k2 > 0 {
            assert(a.take(k1)[k2 - 1] == b.take(k1)[k2 - 1]);
        }
        assert(first_divergence(start, a, c, k2));
    } else {
        if k1 > 0 {
            assert(a.take(k1)[k1 - 1] == b.take(k1)[k1 - 1]);
        }
        assert(first_divergence(start, a, c, k1));
    }
}

/// Two walks never come before each other.
proof fn lemma_before_asym(start: Position, a: Seq<Position>, b: Seq<Position>)
    requires
        walk_before(start, a, b),
    ensures
        !walk_before(start, b, a),
{
    if walk_before(start, b, a) {
        let k1 = choose|k: int| #[trigger] first_divergence(start, a, b, k);
        let k2 = choose|k: int| #[trigger] first_divergence(start, b, a, k);
        if k1 < k2 {
            assert(b.take(k2)[k1] == a.take(k2)[k1]);
        } else if k2 < k1 {
            assert(a.take(k1)[k2] == b.take(k1)[k2]);
        } else if k1 > 0 {
            assert(a.take(k1)[k1 - 1] == b.take(k1)[k1 - 1]);
        }
    }
}

/// Extending two ordered walks by one tile each keeps their order.
proof fn lemma_before_push(start: Position, a: Seq<Position>, b: Seq<Position>, x: Position, y: Position)
    requires
        walk_before(start, a, b),
        a.len() == b.len(),
    ensures
        walk_before(start, a.push(x), b.push(y)),
{
    let k = choose|k: int| #[trigger] first_divergence(start, a, b, k);
    assert(a.push(x).take(k) =~= a.take(k));
    assert(b.push(y).take(k) =~= b.take(k));
    assert(first_divergence(start, a.push(x), b.push(y), k));
}

/// Walks whose first step differs are ordered by that step.
proof fn lemma_before_by_step(start: Position, a: Seq<Position>, b: Seq<Position>, k: int)
    requires
        0 <= k < a.len(),
        k < b.len(),
        a.take(k) == b.take(k),
        step_rank(if k == 0 { start } else { a[k - 1] }, a[k]) < step_rank(
            if k == 0 {
                start
            } else {
                a[k - 1]
            },
            b[k],
        ),
    ensures
        walk_before(start, a, b),
{
    assert(first_divergence(start, a, b, k));
}

/// The step from the robot to `to` is one tile, orthogonal or diagonal, and
/// open.
pub open spec fn step_towards_open(world: World, robot: RobotStatus, to: Position) -> bool {
    let dx = to.x - robot.position.x;
    let dy = to.y - robot.position.y;
    -1 <= dx <= 1 && -1 <= dy <= 1 && step_open(world, robot, dx, dy)
}

/// The move action that steps from `from` towards the neighbouring `to`.
pub open spec fn step_action(from: Position, to: Position) -> InputAction {
    direction_action(to.x - from.x, to.y - from.y)
}

/// How far ahead, in tiles, the robot judges an exploration direction.
pub const EXPLORATION_RANGE: i32 = 29;

/// The eight directions the robot may explore in, in the order they are
/// judged.
pub open spec fn exploration_directions() -> Seq<(i32, i32)> {
    seq![(0i32, -1i32), (1i32, 0i32), (0i32, 1i32), (-1i32, 0i32), (1i32, -1i32), (1i32, 1i32), (-1i32, 1i32), (-1i32, -1i32)]
}

/// 5 points for every deposit of `ices` that lies ahead along `(dx, dy)`
/// seen from `from` (positive dot product).
pub open spec fn ice_bonus(ices: Seq<Position>, from: Position, dx: int, dy: int) -> int
    decreases ices.len(),
{
    if ices.len() == 0 {
        0
    } else {
        let ice = ices.last();
        ice_bonus(ices.drop_last(), from, dx, dy) + if dx * (ice.x - from.x) + dy * (ice.y - from.y)
            > 0 {
            5int
        } else {
            0int
        }
    }
}

/// The ice bonus counts 5 for each deposit ahead: it is 0 exactly when no
/// deposit lies ahead along `(dx, dy)`, and at least 5 otherwise.
proof fn lemma_ice_bonus_counts(ices: Seq<Position>, from: Position, dx: int, dy: int)
    ensures
        ice_bonus(ices, from, dx, dy) >= 0,
        ice_bonus(ices, from, dx, dy) == 0 <==> !exists|i: int|
            0 <= i < ices.len() && dx * (#[trigger] ices[i].x - from.x) + dy * (ices[i].y - from.y) > 0,
        ice_bonus(ices, from, dx, dy) != 0 ==> ice_bonus(ices, from, dx, dy) >= 5,
    decreases ices.len(),
{
    if ices.len() > 0 {
        let rest = ices.drop_last();
        lemma_ice_bonus_counts(rest, from, dx, dy);
        if exists|i: int|
            0 <= i < ices.len() && dx * (#[trigger] ices[i].x - from.x) + dy * (ices[i].y - from.y) > 0 {
            let i = choose|i: int|
                0 <= i < ices.len() && dx * (#[trigger] ices[i].x - from.x) + dy * (ices[i].y - from.y) > 0;
            if i < ices.len() - 1 {
                assert(rest[i] == ices[i]);
            }
        }
        if exists|i: int|
            0 <= i < rest.len() && dx * (#[trigger] rest[i].x - from.x) + dy * (rest[i].y - from.y) > 0 {
            let i = choose|i: int|
                0 <= i < rest.len() && dx * (#[trigger] rest[i].x - from.x) + dy * (rest[i].y - from.y) > 0;
            assert(ices[i] == rest[i]);
        }
    }
}

/// A factor of -1, 0 or 1 keeps a product within the other factor's size.
proof fn lemma_unit_times(u: int, v: int)
    requires
        -1 <= u <= 1,
    ensures
        u * v == if u == 1 { v } else if u == -1 { -v } else { 0 },
{
    if u == 1 {
        assert(u * v == v) by (nonlinear_arith)
            requires
                u == 1,
        ;
    } else if u == -1 {
        assert(u * v == -v) by (nonlinear_arith)
            requires
                u == -1,
        ;
    } else {
        assert(u * v == 0) by (nonlinear_arith)
            requires
                u == 0,
        ;
    }
}

/// The squared distance to a position offset by `(dx, dy)`.
pub proof fn lemma_offset_dist(from: Position, p: Position, dx: int, dy: int)
    requires
        p.x == from.x + dx,
        p.y == from.y + dy,
    ensures
        from.dist_sq(p) == dx * dx + dy * dy,
{
    assert(from.dist_sq(p) == dx * dx + dy * dy) by (nonlinear_arith)
        requires
            p.x == from.x + dx,
            p.y == from.y + dy,
    ;
}

/// How far around the robot, in tiles, the autopilot memorises tiles.
pub const MEMORY_RADIUS: i32 = 8;

/// From how many decisions in a row without moving the robot turns and
/// drops its path.
pub const STUCK_TURN: u32 = 3;

/// From how many decisions in a row without moving the robot picks a new
/// direction and starts counting afresh.
pub const STUCK_RESET: u32 = 6;

/// The orthogonal direction numbered `i`: 0 up, 1 right, 2 down, 3 left.
pub open spec fn orthogonal_direction(i: int) -> (i32, i32) {
    if i == 0 {
        (0i32, -1i32)
    } else if i == 1 {
        (1i32, 0i32)
    } else if i == 2 {
        (0i32, 1i32)
    } else {
        (-1i32, 0i32)
    }
}

/// A quarter turn clockwise of an orthogonal direction; any other step
/// turns to the right.
pub open spec fn quarter_turn(dir: (i32, i32)) -> (i32, i32) {
    if dir == (0i32, -1i32) {
        (1i32, 0i32)
    } else if dir == (1i32, 0i32) {
        (0i32, 1i32)
    } else if dir == (0i32, 1i32) {
        (-1i32, 0i32)
    } else if dir == (-1i32, 0i32) {
        (0i32, -1i32)
    } else {
        (1i32, 0i32)
    }
}

/// How far from the robot, in tiles, a path search may go.
pub const SEARCH_RADIUS: i32 = 80;

/// How many tiles a path search examines at most.
pub const MAX_SEARCH_ITERATIONS: u32 = 8000;

/// The autopilot's memory and plans (the integer part of its state).
pub struct RobotAI {
    /// The direction in which the robot explores, one step `(dx, dy)`.
    pub exploration_direction: (i32, i32),
    /// How many decisions in a row the robot has not moved.
    pub stuck_counter: u32,
    /// Where the robot stood at the last decision.
    pub last_position: Position,
    /// Ice deposits seen and not yet collected.
    pub known_ice_locations: Vec<Position>,
    /// Tiles seen, by key: `true` for rock, `false` for walkable ground.
    pub known_obstacles: HashMap<u64, bool>,
    /// Targets that the robot failed to reach, by key, with the number of
    /// failures.
    pub unreachable_targets: HashMap<u64, u32>,
    /// The remaining steps of the path being followed.
    pub current_path: VecDeque<Position>,
    /// The target of `current_path`.
    pub path_target: Option<Position>,
}

impl RobotAI {
    /// Well-formedness: the exploration direction is a step of at most one
    /// tile along each axis, and the robot is never counted stuck more than
    /// 6 times in a row.
    pub open spec fn wf(self) -> bool {
        &&& -1 <= self.exploration_direction.0 <= 1
        &&& -1 <= self.exploration_direction.1 <= 1
        &&& self.stuck_counter <= STUCK_RESET
    }

    /// Whether the autopilot remembers `p` as rock.
    pub open spec fn knows_rock_at(self, p: Position) -> bool {
        self.known_obstacles@.contains_key(key_of(p)) && self.known_obstacles@[key_of(p)]
    }

    /// How many times the robot failed to reach `p`.
    pub open spec fn failures_at(self, p: Position) -> u32 {
        if self.unreachable_targets@.contains_key(key_of(p)) {
            self.unreachable_targets@[key_of(p)]
        } else {
            0
        }
    }

    /// A fresh autopilot: exploring to the right, nothing remembered, no
    /// path.
    pub fn new() -> (ai: Self)
        ensures
            ai.wf(),
            ai.exploration_direction == (1i32, 0i32),
            ai.stuck_counter == 0,
            ai.last_position == (Position { x: 100, y: 100 }),
            ai.known_ice_locations@.len() == 0,
            ai.known_obstacles@ == Map::<u64, bool>::empty(),
            ai.unreachable_targets@ == Map::<u64, u32>::empty(),
            ai.current_path@.len() == 0,
            ai.path_target is None,
    {
        RobotAI {
            exploration_direction: (1, 0),
            stuck_counter: 0,
            last_position: Position::new(100, 100),
            known_ice_locations: Vec::new(),
            known_obstacles: HashMap::new(),
            unreachable_targets: HashMap::new(),
            current_path: VecDeque::new(),
            path_target: None,
        }
    }

    /// How many times the robot failed to reach `target`.
    pub fn failed_attempts(&self, target: &Position) -> (n: u32)
        ensures
            n == self.failures_at(*target),
    {
        let key = position_key(target);
        match self.unreachable_targets.get(&key) {
            Some(n) => *n,
            None => 0,
        }
    }

    /// The orthogonal direction a quarter turn clockwise from `dir`; any
    /// other step turns to the right.
    pub fn rotate_direction(&self, dir: (i32, i32)) -> (r: (i32, i32))
        ensures
            r == quarter_turn(dir),
    {
        match dir {
            (0, -1) => (1, 0),
            (1, 0) => (0, 1),
            (0, 1) => (-1, 0),
            (-1, 0) => (0, -1),
            _ => (1, 0),
        }
    }

    /// The move action for a one-tile step `(dx, dy)`; a diagonal step
    /// moves along its horizontal part.
    pub fn move_direction(&self, dx: i32, dy: i32) -> (action: Option<InputAction>)
        requires
            unit_step(dx as int, dy as int),
        ensures
            action == Some(direction_action(dx as int, dy as int)),
        decreases (if dx != 0 { 1int } else { 0int }) + (if dy != 0 { 1int } else { 0int }),
    {
        match (dx, dy) {
            (0, -1) => Some(InputAction::MoveUp),
            (0, 1) => Some(InputAction::MoveDown),
            (-1, 0) => Some(InputAction::MoveLeft),
            (1, 0) => Some(InputAction::MoveRight),
            _ => {
                if dx != 0 {
                    self.move_direction(dx, 0)
                } else {
                    self.move_direction(0, dy)
                }
            },
        }
    }

    /// Whether the robot can take the step `(dx, dy)`.
    pub fn can_move(&self, world: &World, robot: &RobotStatus, dx: i32, dy: i32) -> (b: bool)
        requires
            world.wf(),
            robot.has_step_energy && !(dx == 0 && dy == 0) ==> i32::MIN <= robot.position.x + dx
                <= i32::MAX && i32::MIN <= robot.position.y + dy <= i32::MAX,
        ensures
            b == step_open(*world, *robot, dx as int, dy as int),
    {
        if !robot.has_step_energy || dx == 0 && dy == 0 {
            return false;
        }
        let pos = Position::new(robot.position.x + dx, robot.position.y + dy);
        match world.get_tile(&pos) {
            Some(TileType::Rock) | None => false,
            _ => true,
        }
    }

    /// The first open orthogonal step (up, right, down, left), if any.
    pub fn try_any_move(&self, world: &World, robot: &RobotStatus) -> (action: Option<InputAction>)
        requires
            world.wf(),
            fits(robot.position, 1),
        ensures
            action == any_move(*world, *robot),
    {
        if self.can_move(world, robot, 0, -1) {
            return self.move_direction(0, -1);
        }
        if self.can_move(world, robot, 1, 0) {
            return self.move_direction(1, 0);
        }
        if self.can_move(world, robot, 0, 1) {
            return self.move_direction(0, 1);
        }
        if self.can_move(world, robot, -1, 0) {
            return self.move_direction(-1, 0);
        }
        None
    }

    /// A step towards `target` without a path: the first open step of the
    /// greedy candidates, or any open orthogonal step.
    pub fn greedy_move_to(&self, world: &World, robot: &RobotStatus, target: Position) -> (action:
        Option<InputAction>)
        requires
            world.wf(),
            fits(robot.position, 1),
        ensures
            action == greedy_move(*world, *robot, target),
    {
        let dx: i64 = target.x as i64 - robot.position.x as i64;
        let dy: i64 = target.y as i64 - robot.position.y as i64;
        let sx: i32 = if dx > 0 { 1 } else if dx < 0 { -1 } else { 0 };
        let sy: i32 = if dy > 0 { 1 } else if dy < 0 { -1 } else { 0 };
        let ax: i64 = if dx < 0 { -dx } else { dx };
        let ay: i64 = if dy < 0 { -dy } else { dy };
        let moves: [(i32, i32); 4] = if ax > ay {
            [(sx, 0), (0, sy), (sx, sy), (-sx, 0)]
        } else {
            [(0, sy), (sx, 0), (sx, sy), (0, -sy)]
        };
        let ghost cands = greedy_candidates(dx as int, dy as int);
        assert(cands.len() == 4);
        assert forall|k: int| 0 <= k < 4 implies (#[trigger] moves@[k]).0 == cands[k].0 && moves@[k].1
            == cands[k].1 by {}
        assert(cands.skip(0) =~= cands);
        let mut i: usize = 0;
        while i < 4
            invariant
                world.wf(),
                fits(robot.position, 1),
                i <= 4,
                cands == greedy_candidates(dx as int, dy as int),
                dx == target.x - robot.position.x,
                dy == target.y - robot.position.y,
                cands.len() == 4,
                forall|k: int| 0 <= k < 4 ==> (#[trigger] moves@[k]).0 == cands[k].0 && moves@[k].1
                    == cands[k].1,
                forall|k: int| 0 <= k < 4 ==> -1 <= (#[trigger] moves@[k]).0 <= 1 && -1 <= moves@[k].1 <= 1,
                first_open(*world, *robot, cands) == first_open(*world, *robot, cands.skip(i as int)),
            decreases 4 - i,
        {
            let (mx, my) = moves[i];
            assert(cands.skip(i as int)[0] == cands[i as int]);
            assert(cands.skip(i as int).drop_first() == cands.skip(i as int + 1));
            if mx == 0 && my == 0 {
                i += 1;
                continue;
            }
            if self.can_move(world, robot, mx, my) {
                assert(first_open(*world, *robot, cands.skip(i as int)) == Some(cands[i as int]));
                assert(cands == greedy_candidates(
                    target.x - robot.position.x,
                    target.y - robot.position.y,
                ));
                assert(greedy_move(*world, *robot, target) == Some(
                    direction_action(mx as int, my as int),
                ));
                return self.move_direction(mx, my);
            }
            i += 1;
        }
        assert(cands.skip(4).len() == 0);
        self.try_any_move(world, robot)
    }

    /// The nearest place to recharge: the base or the nearest operational
    /// station (the base wins ties, then the earliest station).
    pub fn find_nearest_charger(&self, world: &World, robot: &RobotStatus) -> (p: Position)
        requires
            world.wf(),
        ensures
            p == nearest_charger(world.charging_stations@, robot.position, world.base_position),
    {
        let mut nearest = world.base_position;
        let mut nearest_dist = robot.position.distance_squared(&world.base_position);
        let n = world.charging_stations.len();
        let mut i: usize = 0;
        while i < n
            invariant
                n == world.charging_stations.len(),
                i <= n,
                nearest == nearest_charger(
                    world.charging_stations@.take(i as int),
                    robot.position,
                    world.base_position,
                ),
                nearest_dist == robot.position.dist_sq(nearest),
            decreases n - i,
        {
            let station = world.charging_stations[i];
            assert(world.charging_stations@.take(i as int + 1).drop_last()
                == world.charging_stations@.take(i as int));
            if station.is_operational() {
                let dist = robot.position.distance_squared(&station.position);
                if dist < nearest_dist {
                    nearest = station.position;
                    nearest_dist = dist;
                }
            }
            i += 1;
        }
        assert(world.charging_stations@.take(n as int) == world.charging_stations@);
        nearest
    }

    /// A tile that a path search may use: passable, not remembered as rock,
    /// and within `SEARCH_RADIUS` of the start.
    pub open spec fn search_tile_ok(self, world: World, start: Position, p: Position) -> bool {
        &&& passable(world, p)
        &&& !self.knows_rock_at(p)
        &&& start.dist_sq(p) <= SEARCH_RADIUS * SEARCH_RADIUS
    }

    /// `path` leads from `start` (excluded) to `target` one orthogonal step
    /// at a time, over tiles that a search may use, never visiting a tile
    /// twice nor coming back to the start.
    pub open spec fn is_search_path(
        self,
        world: World,
        start: Position,
        target: Position,
        path: Seq<Position>,
    ) -> bool {
        &&& path.len() > 0 ==> adjacent(start, path[0]) && path.last() == target
        &&& forall|i: int| 0 <= i < path.len() - 1 ==> adjacent(#[trigger] path[i], path[i + 1])
        &&& forall|i: int| 0 <= i < path.len() ==> self.search_tile_ok(world, start, #[trigger] path[i])
        &&& path.no_duplicates()
        &&& !path.contains(start)
    }

    /// The search tree built so far: every tile reached has a depth, the
    /// start at depth 0; every other reached tile has a parent one step away,
    /// one level shallower, and may be used by a search.
    pub open spec fn search_tree(
        self,
        world: World,
        start: Position,
        visited: Map<u64, bool>,
        parent: Map<u64, Position>,
        depth: Map<u64, nat>,
    ) -> bool {
        &&& visited.contains_key(key_of(start))
        &&& depth.contains_key(key_of(start))
        &&& depth[key_of(start)] == 0
        &&& forall|k: u64| #[trigger] visited.contains_key(k) ==> depth.contains_key(k)
        &&& forall|p: Position|
            #[trigger] visited.contains_key(key_of(p)) && p != start ==> parent.contains_key(key_of(p))
        &&& forall|p: Position|
            #[trigger] parent.contains_key(key_of(p)) ==> {
                let q = parent[key_of(p)];
                &&& p != start
                &&& visited.contains_key(key_of(p))
                &&& visited.contains_key(key_of(q))
                &&& adjacent(q, p)
                &&& self.search_tile_ok(world, start, p)
                &&& depth[key_of(q)] + 1 == depth[key_of(p)]
            }
    }

    /// `w` leads from `start` (excluded) to `target` one orthogonal step at
    /// a time over tiles that a search may use (tiles may repeat).
    pub open spec fn is_search_walk(
        self,
        world: World,
        start: Position,
        target: Position,
        w: Seq<Position>,
    ) -> bool {
        &&& w.len() > 0
        &&& adjacent(start, w[0])
        &&& w.last() == target
        &&& forall|i: int| 0 <= i < w.len() - 1 ==> adjacent(#[trigger] w[i], w[i + 1])
        &&& forall|i: int| 0 <= i < w.len() ==> self.search_tile_ok(world, start, #[trigger] w[i])
    }

    /// No search walk from `start` to `target` is shorter than `n` steps.
    #[verifier::opaque]
    pub open spec fn no_shorter_walk(self, world: World, start: Position, target: Position, n: nat) -> bool {
        forall|w: Seq<Position>| #[trigger] self.is_search_walk(world, start, target, w) ==> n <= w.len()
    }

    /// Every expanded tile of a search has had its usable neighbours
    /// reached, at most one level deeper.
    pub open spec fn expanded(
        self,
        world: World,
        start: Position,
        visited: Map<u64, bool>,
        depth: Map<u64, nat>,
        closed: Set<u64>,
    ) -> bool {
        forall|p: Position, n: Position|
            #![trigger closed.contains(key_of(p)), adjacent(p, n)]
            closed.contains(key_of(p)) && adjacent(p, n) && self.search_tile_ok(world, start, n)
                ==> visited.contains_key(key_of(n)) && depth[key_of(n)] <= depth[key_of(p)] + 1
    }

    /// The queue of a breadth-first search at `level`: reached tiles not yet
    /// expanded, each once, by increasing depth, all at `level` or one
    /// deeper; the expanded tiles lie at `level` or shallower.
    pub open spec fn frontier(
        visited: Map<u64, bool>,
        depth: Map<u64, nat>,
        closed: Set<u64>,
        queue: Seq<Position>,
        level: nat,
    ) -> bool {
        &&& forall|i: int|
            0 <= i < queue.len() ==> visited.contains_key(key_of(#[trigger] queue[i]))
                && !closed.contains(key_of(queue[i])) && fits(queue[i], 1) && level <= depth[key_of(
                queue[i],
            )] <= level + 1
        &&& forall|i: int, j: int|
            0 <= i < j < queue.len() ==> depth[key_of(#[trigger] queue[i])] <= depth[key_of(
                #[trigger] queue[j],
            )] && queue[i] != queue[j]
        &&& forall|k: u64| #[trigger] closed.contains(k) ==> visited.contains_key(k) && depth[k] <= level
    }

    /// Breadth-first depth bounds walks: when every reached tile shallower
    /// than `level` has been expanded, the `k`-th tile of a search walk with
    /// `k <= level` has been reached at depth at most `k`.
    proof fn lemma_walk_depth(
        self,
        world: World,
        start: Position,
        visited: Map<u64, bool>,
        depth: Map<u64, nat>,
        closed: Set<u64>,
        level: nat,
        w: Seq<Position>,
        k: int,
    )
        requires
            visited.contains_key(key_of(start)),
            depth[key_of(start)] == 0,
            self.expanded(world, start, visited, depth, closed),
            forall|p: Position|
                #[trigger] visited.contains_key(key_of(p)) && depth[key_of(p)] < level
                    ==> closed.contains(key_of(p)),
            1 <= k <= w.len(),
            k <= level,
            adjacent(start, w[0]),
            forall|i: int| 0 <= i < w.len() - 1 ==> adjacent(#[trigger] w[i], w[i + 1]),
            forall|i: int| 0 <= i < w.len() ==> self.search_tile_ok(world, start, #[trigger] w[i]),
        ensures
            visited.contains_key(key_of(w[k - 1])),
            depth[key_of(w[k - 1])] <= k,
        decreases k,
    {
        if k == 1 {
            assert(closed.contains(key_of(start)));
            assert(self.search_tile_ok(world, start, w[0]));
            assert(closed.contains(key_of(start)) && adjacent(start, w[0]));
        } else {
            self.lemma_walk_depth(world, start, visited, depth, closed, level, w, k - 1);
            let u = w[k - 2];
            assert(adjacent(w[k - 2], w[k - 1]));
            assert(self.search_tile_ok(world, start, w[k - 1]));
            assert(closed.contains(key_of(u)));
            assert(closed.contains(key_of(u)) && adjacent(u, w[k - 1]));
        }
    }

    /// The search walk `w` comes before every search walk to `target` in the
    /// search order: it is shorter, or as long and earlier.
    pub open spec fn walk_precedes(self, world: World, start: Position, w: Seq<Position>, target: Position) -> bool {
        forall|v: Seq<Position>|
            #[trigger] self.is_search_walk(world, start, target, v) ==> w.len() < v.len() || (w.len()
                == v.len() && walk_before(start, w, v))
    }

    /// `p` comes before `target` in the order in which a breadth-first
    /// search examines tiles: it is the start, or its first shortest walk
    /// comes before every walk to `target`.
    pub open spec fn examined_before(self, world: World, start: Position, p: Position, target: Position) -> bool {
        p == start || exists|w: Seq<Position>|
            #[trigger] self.is_search_walk(world, start, p, w) && self.no_shorter_walk(
                world,
                start,
                p,
                w.len(),
            ) && self.first_in_order(world, start, p, w) && self.walk_precedes(world, start, w, target)
    }

    /// `s` holds the tiles that a search examined before giving up on
    /// `target`: `MAX_SEARCH_ITERATIONS` tiles other than `target`, each
    /// coming before `target` in the search order.
    pub open spec fn examined_first(
        self,
        world: World,
        start: Position,
        target: Position,
        s: Set<Position>,
    ) -> bool {
        &&& s.finite()
        &&& s.len() == MAX_SEARCH_ITERATIONS
        &&& !s.contains(target)
        &&& forall|p: Position| #[trigger] s.contains(p) ==> self.examined_before(world, start, p, target)
    }

    /// A search from `start` may find no path to `target`: no search walk
    /// leads there, or `MAX_SEARCH_ITERATIONS` other tiles come before it in
    /// the order in which the search examines tiles.
    pub open spec fn search_gives_up(self, world: World, start: Position, target: Position) -> bool {
        ||| forall|w: Seq<Position>| !#[trigger] self.is_search_walk(world, start, target, w)
        ||| exists|s: Set<Position>| #[trigger] self.examined_first(world, start, target, s)
    }

    /// An expanded tile of a search that has not reached `target` comes
    /// before `target` in the search order.
    proof fn lemma_closed_before(
        self,
        world: World,
        start: Position,
        target: Position,
        visited: Map<u64, bool>,
        parent: Map<u64, Position>,
        depth: Map<u64, nat>,
        tp: Map<u64, Seq<Position>>,
        closed: Set<u64>,
        closed_pos: Set<Position>,
        queue: Seq<Position>,
        level: nat,
        c: Position,
    )
        requires
            self.search_tree(world, start, visited, parent, depth),
            self.tree_walks(world, start, visited, parent, depth, tp),
            Self::queue_ordered(start, parent, depth, tp, closed_pos, queue, level),
            self.expanded(world, start, visited, depth, closed),
            forall|k: u64| #[trigger] closed.contains(k) ==> visited.contains_key(k) && depth[k] <= level,
            forall|p: Position|
                #[trigger] visited.contains_key(key_of(p)) && depth[key_of(p)] < level
                    ==> closed.contains(key_of(p)),
            forall|p: Position|
                #[trigger] visited.contains_key(key_of(p)) ==> closed.contains(key_of(p))
                    || queue.contains(p),
            !closed.contains(key_of(target)),
            forall|p: Position|
                #![trigger closed_pos.contains(p)]
                #![trigger closed.contains(key_of(p))]
                closed_pos.contains(p) <==> closed.contains(key_of(p)),
            closed_pos.contains(c),
            c != start,
        ensures
            self.examined_before(world, start, c, target),
    {
        reveal(RobotAI::tree_walks);
        reveal(RobotAI::queue_ordered);
        assert(closed.contains(key_of(c)));
        let w = tp[key_of(c)];
        let dc = w.len();
        assert(dc == depth[key_of(c)] && dc <= level);
        assert(self.no_shorter_walk(world, start, c, dc)) by {
            reveal(RobotAI::no_shorter_walk);
            assert forall|v: Seq<Position>| #[trigger] self.is_search_walk(world, start, c, v) implies dc
                <= v.len() by {
                if v.len() < dc {
                    self.lemma_walk_depth(world, start, visited, depth, closed, level, v, v.len() as int);
                }
            }
        }
        assert forall|v: Seq<Position>| #[trigger] self.is_search_walk(world, start, target, v) implies w.len()
            < v.len() || (w.len() == v.len() && walk_before(start, w, v)) by {
            if v.len() <= dc {
                self.lemma_walk_depth(world, start, visited, depth, closed, level, v, v.len() as int);
                assert(visited.contains_key(key_of(target)));
                assert(queue.contains(target));
                let i = choose|i: int| 0 <= i < queue.len() && queue[i] == target;
                assert(depth[key_of(queue[i])] == dc);
                assert(closed_pos.contains(c) && queue[i] == queue[i]);
                let t = tp[key_of(target)];
                assert(walk_before(start, w, t));
                assert(self.first_in_order(world, start, target, t));
                if v != t {
                    lemma_before_trans(start, w, t, v);
                }
            }
        }
        assert(self.walk_precedes(world, start, w, target));
    }

    /// A breadth-first search that reaches `target` within its budget does
    /// not give up on it: every tile before `target` in the search order has
    /// been expanded already, fewer than `MAX_SEARCH_ITERATIONS` tiles.
    proof fn lemma_found_within_budget(
        self,
        world: World,
        start: Position,
        target: Position,
        visited: Map<u64, bool>,
        parent: Map<u64, Position>,
        depth: Map<u64, nat>,
        tp: Map<u64, Seq<Position>>,
        closed: Set<u64>,
        closed_pos: Set<Position>,
        queue: Seq<Position>,
        level: nat,
    )
        requires
            self.search_tree(world, start, visited, parent, depth),
            self.tree_walks(world, start, visited, parent, depth, tp),
            Self::expansion_ordered(start, parent, depth, tp, closed_pos, queue, level, target, 0),
            self.expanded(world, start, visited, depth, closed),
            forall|p: Position|
                #[trigger] visited.contains_key(key_of(p)) ==> closed.contains(key_of(p))
                    || queue.contains(p) || p == target,
            forall|i: int|
                0 <= i < queue.len() ==> visited.contains_key(key_of(#[trigger] queue[i])) && level
                    <= depth[key_of(queue[i])],
            visited.contains_key(key_of(target)),
            depth[key_of(target)] == level,
            target != start,
            closed_pos.finite(),
            closed_pos.len() < MAX_SEARCH_ITERATIONS,
            forall|p: Position|
                #![trigger closed_pos.contains(p)]
                #![trigger closed.contains(key_of(p))]
                closed_pos.contains(p) <==> closed.contains(key_of(p)),
        ensures
            !self.search_gives_up(world, start, target),
    {
        reveal(RobotAI::tree_walks);
        reveal(RobotAI::expansion_ordered);
        let t = tp[key_of(target)];
        assert(self.is_search_walk(world, start, target, t));
        assert forall|q: Position|
            #[trigger] visited.contains_key(key_of(q)) && depth[key_of(q)] < level
                implies closed.contains(key_of(q)) by {
            if queue.contains(q) {
                let i = choose|i: int| 0 <= i < queue.len() && queue[i] == q;
                assert(level <= depth[key_of(queue[i])]);
            }
        }
        if exists|st: Set<Position>| #[trigger] self.examined_first(world, start, target, st) {
            let st = choose|st: Set<Position>| #[trigger] self.examined_first(world, start, target, st);
            assert forall|p: Position| st.contains(p) implies #[trigger] closed_pos.contains(p) by {
                assert(self.examined_before(world, start, p, target));
                if p == start {
                    assert(visited.contains_key(key_of(start)));
                } else {
                    let w = choose|w: Seq<Position>|
                        #[trigger] self.is_search_walk(world, start, p, w) && self.no_shorter_walk(
                            world,
                            start,
                            p,
                            w.len(),
                        ) && self.first_in_order(world, start, p, w) && self.walk_precedes(
                            world,
                            start,
                            w,
                            target,
                        );
                    assert(w.len() <= t.len());
                    self.lemma_walk_depth(world, start, visited, depth, closed, level, w, w.len() as int);
                    assert(visited.contains_key(key_of(p)));
                    let tpp = tp[key_of(p)];
                    assert(self.is_search_walk(world, start, p, tpp));
                    assert(w.len() <= tpp.len()) by {
                        reveal(RobotAI::no_shorter_walk);
                    }
                    if depth[key_of(p)] == level && !closed.contains(key_of(p)) {
                        assert(queue.contains(p));
                        let i = choose|i: int| 0 <= i < queue.len() && queue[i] == p;
                        assert(walk_before(start, t, tp[key_of(queue[i])]));
                        if w != tpp {
                            assert(walk_before(start, w, tpp));
                            assert(walk_before(start, tpp, w));
                            lemma_before_asym(start, w, tpp);
                        }
                        assert(walk_before(start, w, t));
                        lemma_before_asym(start, w, t);
                    }
                }
            }
            vstd::set_lib::lemma_len_subset(st, closed_pos);
        }
    }

    /// A breadth-first search that stops without reaching `target`, its
    /// queue empty or its budget spent, has given up rightly.
    proof fn lemma_search_gave_up(
        self,
        world: World,
        start: Position,
        target: Position,
        visited: Map<u64, bool>,
        parent: Map<u64, Position>,
        depth: Map<u64, nat>,
        tp: Map<u64, Seq<Position>>,
        closed: Set<u64>,
        closed_pos: Set<Position>,
        queue: Seq<Position>,
        level: nat,
    )
        requires
            self.search_tree(world, start, visited, parent, depth),
            self.tree_walks(world, start, visited, parent, depth, tp),
            Self::queue_ordered(start, parent, depth, tp, closed_pos, queue, level),
            self.expanded(world, start, visited, depth, closed),
            forall|k: u64| #[trigger] closed.contains(k) ==> visited.contains_key(k) && depth[k] <= level,
            forall|p: Position|
                #[trigger] visited.contains_key(key_of(p)) && depth[key_of(p)] < level
                    ==> closed.contains(key_of(p)),
            forall|p: Position|
                #[trigger] visited.contains_key(key_of(p)) ==> closed.contains(key_of(p))
                    || queue.contains(p),
            !closed.contains(key_of(target)),
            closed_pos.finite(),
            forall|p: Position|
                #![trigger closed_pos.contains(p)]
                #![trigger closed.contains(key_of(p))]
                closed_pos.contains(p) <==> closed.contains(key_of(p)),
            closed_pos.len() == MAX_SEARCH_ITERATIONS || forall|p: Position|
                #[trigger] visited.contains_key(key_of(p)) ==> closed.contains(key_of(p)),
        ensures
            self.search_gives_up(world, start, target),
    {
        if forall|p: Position| #[trigger] visited.contains_key(key_of(p)) ==> closed.contains(key_of(p)) {
            assert forall|w: Seq<Position>| !#[trigger] self.is_search_walk(world, start, target, w) by {
                if self.is_search_walk(world, start, target, w) {
                    self.lemma_walk_depth(world, start, visited, depth, closed, w.len(), w, w.len() as int);
                }
            }
        } else {
            assert forall|p: Position| #[trigger] closed_pos.contains(p) implies self.examined_before(
                world,
                start,
                p,
                target,
            ) by {
                if p != start {
                    self.lemma_closed_before(
                        world,
                        start,
                        target,
                        visited,
                        parent,
                        depth,
                        tp,
                        closed,
                        closed_pos,
                        queue,
                        level,
                        p,
                    );
                }
            }
            assert(!closed_pos.contains(target));
            assert(self.examined_first(world, start, target, closed_pos));
        }
    }

    /// `w` comes first in the search order among the search walks from
    /// `start` to `p` as long as `w`.
    pub open spec fn first_in_order(self, world: World, start: Position, p: Position, w: Seq<Position>) -> bool {
        forall|v: Seq<Position>|
            #[trigger] self.is_search_walk(world, start, p, v) && v.len() == w.len() ==> v == w
                || walk_before(start, w, v)
    }

    /// The walks of the search tree, `tp` by key: each reached tile's walk
    /// is as long as its depth, extends its parent's walk, and comes first in
    /// the search order among the walks as long.
    #[verifier::opaque]
    pub open spec fn tree_walks(
        self,
        world: World,
        start: Position,
        visited: Map<u64, bool>,
        parent: Map<u64, Position>,
        depth: Map<u64, nat>,
        tp: Map<u64, Seq<Position>>,
    ) -> bool {
        &&& forall|p: Position|
            #[trigger] visited.contains_key(key_of(p)) ==> {
                &&& tp.contains_key(key_of(p))
                &&& tp[key_of(p)].len() == depth[key_of(p)]
                &&& p == start ==> tp[key_of(p)] == Seq::<Position>::empty()
                &&& p != start ==> self.is_search_walk(world, start, p, tp[key_of(p)])
                    && tp[key_of(p)] == tp[key_of(parent[key_of(p)])].push(p)
                &&& self.first_in_order(world, start, p, tp[key_of(p)])
            }
    }

    /// The breadth-first queue is in search order: tiles of one depth come
    /// by the order of their walks, after every expanded tile of that depth,
    /// and the deeper tiles were reached from expanded tiles.
    #[verifier::opaque]
    pub open spec fn queue_ordered(
        start: Position,
        parent: Map<u64, Position>,
        depth: Map<u64, nat>,
        tp: Map<u64, Seq<Position>>,
        closed_pos: Set<Position>,
        queue: Seq<Position>,
        level: nat,
    ) -> bool {
        &&& forall|i: int, j: int|
            0 <= i < j < queue.len() && depth[key_of(#[trigger] queue[i])] == depth[key_of(
                #[trigger] queue[j],
            )] ==> walk_before(start, tp[key_of(queue[i])], tp[key_of(queue[j])])
        &&& forall|c: Position, i: int|
            #![trigger closed_pos.contains(c), queue[i]]
            closed_pos.contains(c) && 0 <= i < queue.len() && depth[key_of(c)] == depth[key_of(
                queue[i],
            )] ==> walk_before(start, tp[key_of(c)], tp[key_of(queue[i])])
        &&& forall|i: int|
            0 <= i < queue.len() && depth[key_of(#[trigger] queue[i])] == level + 1 ==> closed_pos.contains(
                parent[key_of(queue[i])],
            ) && depth[key_of(parent[key_of(queue[i])])] == level
    }

    /// The queue while `current` (at `level`) is expanded, its first `d`
    /// neighbours done: ordered as `queue_ordered` says, with `current`
    /// after the expanded tiles of its depth and before the queued ones,
    /// and the deeper tiles reached from expanded tiles or from `current`
    /// by one of its first `d` steps.
    #[verifier::opaque]
    pub open spec fn expansion_ordered(
        start: Position,
        parent: Map<u64, Position>,
        depth: Map<u64, nat>,
        tp: Map<u64, Seq<Position>>,
        closed_pos: Set<Position>,
        queue: Seq<Position>,
        level: nat,
        current: Position,
        d: int,
    ) -> bool {
        &&& forall|i: int, j: int|
            0 <= i < j < queue.len() && depth[key_of(#[trigger] queue[i])] == depth[key_of(
                #[trigger] queue[j],
            )] ==> walk_before(start, tp[key_of(queue[i])], tp[key_of(queue[j])])
        &&& forall|c: Position, i: int|
            #![trigger closed_pos.contains(c), queue[i]]
            closed_pos.contains(c) && 0 <= i < queue.len() && depth[key_of(c)] == depth[key_of(
                queue[i],
            )] ==> walk_before(start, tp[key_of(c)], tp[key_of(queue[i])])
        &&& forall|c: Position|
            #[trigger] closed_pos.contains(c) && depth[key_of(c)] == level ==> walk_before(
                start,
                tp[key_of(c)],
                tp[key_of(current)],
            )
        &&& forall|i: int|
            0 <= i < queue.len() && depth[key_of(#[trigger] queue[i])] == level ==> walk_before(
                start,
                tp[key_of(current)],
                tp[key_of(queue[i])],
            )
        &&& forall|i: int|
            0 <= i < queue.len() && depth[key_of(#[trigger] queue[i])] == level + 1 ==> (closed_pos.contains(
                parent[key_of(queue[i])],
            ) && depth[key_of(parent[key_of(queue[i])])] == level) || (parent[key_of(queue[i])]
                == current && step_rank(current, queue[i]) < d)
    }

    /// The search starts in order: only the start is queued, with the empty
    /// walk.
    proof fn lemma_order_start(
        self,
        world: World,
        start: Position,
        visited: Map<u64, bool>,
        parent: Map<u64, Position>,
        depth: Map<u64, nat>,
        tp: Map<u64, Seq<Position>>,
    )
        requires
            forall|p: Position| #[trigger] visited.contains_key(key_of(p)) ==> p == start,
            visited.contains_key(key_of(start)),
            depth.contains_key(key_of(start)),
            depth[key_of(start)] == 0,
            tp == Map::<u64, Seq<Position>>::empty().insert(key_of(start), Seq::<Position>::empty()),
        ensures
            self.tree_walks(world, start, visited, parent, depth, tp),
            Self::queue_ordered(start, parent, depth, tp, Set::empty(), seq![start], 0),
    {
        reveal(RobotAI::queue_ordered);
        reveal(RobotAI::tree_walks);
        assert forall|p: Position| #[trigger] visited.contains_key(key_of(p)) implies {
            &&& tp.contains_key(key_of(p))
            &&& tp[key_of(p)].len() == depth[key_of(p)]
            &&& p == start ==> tp[key_of(p)] == Seq::<Position>::empty()
            &&& p != start ==> self.is_search_walk(world, start, p, tp[key_of(p)])
                && tp[key_of(p)] == tp[key_of(parent[key_of(p)])].push(p)
            &&& self.first_in_order(world, start, p, tp[key_of(p)])
        } by {
            assert(p == start);
        }
    }

    /// Taking the head of an ordered queue starts its expansion in order.
    proof fn lemma_order_pop(
        start: Position,
        parent: Map<u64, Position>,
        depth: Map<u64, nat>,
        tp: Map<u64, Seq<Position>>,
        closed_pos: Set<Position>,
        q_before: Seq<Position>,
        old_level: nat,
        level: nat,
    )
        requires
            Self::queue_ordered(start, parent, depth, tp, closed_pos, q_before, old_level),
            q_before.len() > 0,
            level == depth[key_of(q_before[0])],
            forall|i: int|
                0 <= i < q_before.len() ==> old_level <= depth[key_of(#[trigger] q_before[i])]
                    <= old_level + 1,
            forall|i: int, j: int|
                0 <= i < j < q_before.len() ==> depth[key_of(#[trigger] q_before[i])] <= depth[key_of(
                    #[trigger] q_before[j],
                )],
        ensures
            Self::expansion_ordered(
                start,
                parent,
                depth,
                tp,
                closed_pos,
                q_before.drop_first(),
                level,
                q_before[0],
                0,
            ),
    {
        reveal(RobotAI::queue_ordered);
        reveal(RobotAI::expansion_ordered);
        let queue = q_before.drop_first();
        let current = q_before[0];
        assert forall|i: int, j: int|
            0 <= i < j < queue.len() && depth[key_of(#[trigger] queue[i])] == depth[key_of(
                #[trigger] queue[j],
            )] implies walk_before(start, tp[key_of(queue[i])], tp[key_of(queue[j])]) by {
            assert(queue[i] == q_before[i + 1] && queue[j] == q_before[j + 1]);
        }
        assert forall|c: Position, i: int|
            #![trigger closed_pos.contains(c), queue[i]]
            closed_pos.contains(c) && 0 <= i < queue.len() && depth[key_of(c)] == depth[key_of(
                queue[i],
            )] implies walk_before(start, tp[key_of(c)], tp[key_of(queue[i])]) by {
            assert(queue[i] == q_before[i + 1]);
            assert(closed_pos.contains(c) && q_before[i + 1] == q_before[i + 1]);
        }
        assert forall|c: Position|
            #[trigger] closed_pos.contains(c) && depth[key_of(c)] == level implies walk_before(
            start,
            tp[key_of(c)],
            tp[key_of(current)],
        ) by {
            assert(closed_pos.contains(c) && q_before[0] == q_before[0]);
        }
        assert forall|i: int|
            0 <= i < queue.len() && depth[key_of(#[trigger] queue[i])] == level implies walk_before(
            start,
            tp[key_of(current)],
            tp[key_of(queue[i])],
        ) by {
            assert(queue[i] == q_before[i + 1]);
        }
        assert forall|i: int|
            0 <= i < queue.len() && depth[key_of(#[trigger] queue[i])] == level + 1 implies (closed_pos.contains(
            parent[key_of(queue[i])],
        ) && depth[key_of(parent[key_of(queue[i])])] == level) || (parent[key_of(queue[i])]
            == current && step_rank(current, queue[i]) < 0) by {
            assert(queue[i] == q_before[i + 1]);
            assert(depth[key_of(q_before[0])] <= depth[key_of(q_before[i + 1])]);
        }
    }

    /// Skipping a neighbour keeps the expansion in order.
    proof fn lemma_order_skip(
        start: Position,
        parent: Map<u64, Position>,
        depth: Map<u64, nat>,
        tp: Map<u64, Seq<Position>>,
        closed_pos: Set<Position>,
        queue: Seq<Position>,
        level: nat,
        current: Position,
        d: int,
    )
        requires
            Self::expansion_ordered(start, parent, depth, tp, closed_pos, queue, level, current, d),
        ensures
            Self::expansion_ordered(start, parent, depth, tp, closed_pos, queue, level, current, d + 1),
    {
        reveal(RobotAI::expansion_ordered);
    }

    /// Queuing the neighbour `p` of `current` reached by step number `d`
    /// keeps the expansion in order.
    proof fn lemma_order_push(
        self,
        world: World,
        visited: Map<u64, bool>,
        start: Position,
        parent: Map<u64, Position>,
        depth: Map<u64, nat>,
        tp: Map<u64, Seq<Position>>,
        closed_pos: Set<Position>,
        queue: Seq<Position>,
        level: nat,
        current: Position,
        d: int,
        p: Position,
    )
        requires
            Self::expansion_ordered(start, parent, depth, tp, closed_pos, queue, level, current, d),
            step_rank(current, p) == d,
            p != current,
            !closed_pos.contains(p),
            forall|i: int| 0 <= i < queue.len() ==> #[trigger] queue[i] != p,
            depth[key_of(current)] == level,
            self.tree_walks(world, start, visited, parent, depth, tp),
            visited.contains_key(key_of(current)),
            depth[key_of(start)] == 0,
            forall|c: Position|
                #[trigger] closed_pos.contains(c) ==> visited.contains_key(key_of(c))
                    && depth[key_of(c)] <= level,
            forall|i: int| 0 <= i < queue.len() ==> visited.contains_key(key_of(#[trigger] queue[i])),
        ensures
            Self::expansion_ordered(
                start,
                parent.insert(key_of(p), current),
                depth.insert(key_of(p), level + 1),
                tp.insert(key_of(p), tp[key_of(current)].push(p)),
                closed_pos,
                queue.push(p),
                level,
                current,
                d + 1,
            ),
    {
        reveal(RobotAI::expansion_ordered);
        reveal(RobotAI::tree_walks);
        if current != start {
            assert(tp[key_of(current)].len() > 0);
        }
        assert(visited.contains_key(key_of(current)));
        let kp = key_of(p);
        let parent2 = parent.insert(kp, current);
        let depth2 = depth.insert(kp, level + 1);
        let tp_p = tp[key_of(current)].push(p);
        let tp2 = tp.insert(kp, tp_p);
        let queue2 = queue.push(p);
        let n = queue.len() as int;
        assert(queue2[n] == p);
        lemma_key_injective(current, p);
        assert forall|i: int| 0 <= i < n implies key_of(#[trigger] queue2[i]) != kp && queue2[i] == queue[i] by {
            lemma_key_injective(queue[i], p);
        }
        assert forall|c: Position| #[trigger] closed_pos.contains(c) implies key_of(c) != kp by {
            lemma_key_injective(c, p);
        }
        assert forall|i: int, j: int|
            0 <= i < j < queue2.len() && depth2[key_of(#[trigger] queue2[i])] == depth2[key_of(
                #[trigger] queue2[j],
            )] implies walk_before(start, tp2[key_of(queue2[i])], tp2[key_of(queue2[j])]) by {
            if j == n {
                let q = queue[i];
                assert(queue2[i] == q);
                let pq = parent[key_of(q)];
                assert(visited.contains_key(key_of(q)));
                if q == start {
                    assert(depth[key_of(start)] == 0);
                }
                if closed_pos.contains(pq) && depth[key_of(pq)] == level {
                    assert(visited.contains_key(key_of(pq)));
                    lemma_before_push(start, tp[key_of(pq)], tp[key_of(current)], q, p);
                } else {
                    assert(tp[key_of(current)].push(q).take(level as int) =~= tp[key_of(current)]);
                    assert(tp_p.take(level as int) =~= tp[key_of(current)]);
                    lemma_before_by_step(start, tp[key_of(current)].push(q), tp_p, level as int);
                }
            }
        }
        assert forall|c: Position, i: int|
            #![trigger closed_pos.contains(c), queue2[i]]
            closed_pos.contains(c) && 0 <= i < queue2.len() && depth2[key_of(c)] == depth2[key_of(
                queue2[i],
            )] implies walk_before(start, tp2[key_of(c)], tp2[key_of(queue2[i])]) by {
            if i < n {
                assert(closed_pos.contains(c) && queue[i] == queue[i]);
            }
        }
        assert forall|c: Position|
            #[trigger] closed_pos.contains(c) && depth2[key_of(c)] == level implies walk_before(
            start,
            tp2[key_of(c)],
            tp2[key_of(current)],
        ) by {}
        assert forall|i: int|
            0 <= i < queue2.len() && depth2[key_of(#[trigger] queue2[i])] == level implies walk_before(
            start,
            tp2[key_of(current)],
            tp2[key_of(queue2[i])],
        ) by {}
        assert forall|i: int|
            0 <= i < queue2.len() && depth2[key_of(#[trigger] queue2[i])] == level + 1 implies (closed_pos.contains(
            parent2[key_of(queue2[i])],
        ) && depth2[key_of(parent2[key_of(queue2[i])])] == level) || (parent2[key_of(queue2[i])]
            == current && step_rank(current, queue2[i]) < d + 1) by {
            if i < n {
                let pq = parent[key_of(queue[i])];
                if closed_pos.contains(pq) {
                    assert(key_of(pq) != kp);
                }
            }
        }
    }

    /// Closing `current` after its expansion leaves the queue in order.
    proof fn lemma_order_close(
        start: Position,
        parent: Map<u64, Position>,
        depth: Map<u64, nat>,
        tp: Map<u64, Seq<Position>>,
        closed_pos: Set<Position>,
        queue: Seq<Position>,
        level: nat,
        current: Position,
    )
        requires
            Self::expansion_ordered(start, parent, depth, tp, closed_pos, queue, level, current, 4),
            depth[key_of(current)] == level,
        ensures
            Self::queue_ordered(start, parent, depth, tp, closed_pos.insert(current), queue, level),
    {
        reveal(RobotAI::expansion_ordered);
        reveal(RobotAI::queue_ordered);
        let cl = closed_pos.insert(current);
        assert forall|c: Position, i: int|
            #![trigger cl.contains(c), queue[i]]
            cl.contains(c) && 0 <= i < queue.len() && depth[key_of(c)] == depth[key_of(queue[i])]
                implies walk_before(start, tp[key_of(c)], tp[key_of(queue[i])]) by {
            if c != current {
                assert(closed_pos.contains(c) && queue[i] == queue[i]);
            }
        }
    }

    /// A prefix of a search walk is a search walk to its last tile.
    proof fn lemma_walk_prefix(self, world: World, start: Position, p: Position, w: Seq<Position>, k: int)
        requires
            self.is_search_walk(world, start, p, w),
            1 <= k <= w.len(),
        ensures
            self.is_search_walk(world, start, w[k - 1], w.take(k)),
    {
        let u = w.take(k);
        assert forall|i: int| 0 <= i < u.len() - 1 implies adjacent(#[trigger] u[i], u[i + 1]) by {
            assert(u[i] == w[i] && u[i + 1] == w[i + 1]);
        }
        assert forall|i: int| 0 <= i < u.len() implies self.search_tile_ok(world, start, #[trigger] u[i]) by {
            assert(u[i] == w[i]);
        }
    }

    /// A tile first reached from `current` gets the walk of `current`
    /// extended by one step, and that walk comes first in the search order:
    /// every other walk as short passes through a tile of the current depth
    /// that the search has not expanded yet, which comes later in the order.
    proof fn lemma_discovered_first(
        self,
        world: World,
        start: Position,
        visited: Map<u64, bool>,
        parent: Map<u64, Position>,
        depth: Map<u64, nat>,
        tp: Map<u64, Seq<Position>>,
        closed: Set<u64>,
        closed_pos: Set<Position>,
        queue: Seq<Position>,
        level: nat,
        current: Position,
        d: int,
        p: Position,
    )
        requires
            self.tree_walks(world, start, visited, parent, depth, tp),
            Self::expansion_ordered(start, parent, depth, tp, closed_pos, queue, level, current, d),
            visited.contains_key(key_of(start)),
            depth[key_of(start)] == 0,
            self.expanded(world, start, visited, depth, closed),
            forall|q: Position|
                #[trigger] visited.contains_key(key_of(q)) ==> closed.contains(key_of(q))
                    || queue.contains(q) || q == current,
            forall|i: int|
                0 <= i < queue.len() ==> visited.contains_key(key_of(#[trigger] queue[i])) && level
                    <= depth[key_of(queue[i])],
            visited.contains_key(key_of(current)),
            depth[key_of(current)] == level,
            !closed.contains(key_of(current)),
            forall|q: Position|
                #[trigger] visited.contains_key(key_of(q)) && depth[key_of(q)] < level
                    ==> closed.contains(key_of(q)),
            !visited.contains_key(key_of(p)),
            adjacent(current, p),
            self.search_tile_ok(world, start, p),
        ensures
            self.first_in_order(world, start, p, tp[key_of(current)].push(p)),
    {
        reveal(RobotAI::expansion_ordered);
        reveal(RobotAI::tree_walks);
        let tc = tp[key_of(current)];
        let tpp = tc.push(p);
        assert(tc.len() == level);
        assert forall|v: Seq<Position>|
            #[trigger] self.is_search_walk(world, start, p, v) && v.len() == tpp.len() implies v == tpp
                || walk_before(start, tpp, v) by {
            if level == 0 {
                if current != start {
                    assert(self.is_search_walk(world, start, current, tc));
                }
                assert(v =~= tpp);
            } else {
                let lv = level as int;
                let u = v.take(lv);
                let q = v[lv - 1];
                self.lemma_walk_prefix(world, start, p, v, lv);
                self.lemma_walk_depth(world, start, visited, depth, closed, level, v, lv);
                assert(adjacent(v[lv - 1], v[lv]));
                assert(v[lv] == p);
                if depth[key_of(q)] < level || closed.contains(key_of(q)) {
                    assert(closed.contains(key_of(q)) && adjacent(q, p));
                }
                assert(v =~= u.push(p));
                assert(self.is_search_walk(world, start, q, u));
                assert(u.len() == tp[key_of(q)].len());
                if q == current {
                    if u != tc {
                        assert(walk_before(start, tc, u));
                        lemma_before_push(start, tc, u, p, p);
                    }
                } else {
                    assert(queue.contains(q));
                    let i = choose|i: int| 0 <= i < queue.len() && queue[i] == q;
                    assert(walk_before(start, tc, tp[key_of(queue[i])]));
                    if u != tp[key_of(q)] {
                        lemma_before_trans(start, tc, tp[key_of(q)], u);
                    }
                    lemma_before_push(start, tc, u, p, p);
                }
            }
        }
    }

    /// Reaching `p` from `current` extends the walks of the search tree.
    proof fn lemma_tree_walks_insert(
        self,
        world: World,
        start: Position,
        visited: Map<u64, bool>,
        parent: Map<u64, Position>,
        depth: Map<u64, nat>,
        tp: Map<u64, Seq<Position>>,
        current: Position,
        p: Position,
    )
        requires
            self.tree_walks(world, start, visited, parent, depth, tp),
            self.search_tree(world, start, visited, parent, depth),
            visited.contains_key(key_of(current)),
            !visited.contains_key(key_of(p)),
            adjacent(current, p),
            self.search_tile_ok(world, start, p),
            self.first_in_order(world, start, p, tp[key_of(current)].push(p)),
        ensures
            self.tree_walks(
                world,
                start,
                visited.insert(key_of(p), true),
                parent.insert(key_of(p), current),
                depth.insert(key_of(p), depth[key_of(current)] + 1),
                tp.insert(key_of(p), tp[key_of(current)].push(p)),
            ),
    {
        reveal(RobotAI::tree_walks);
        let kp = key_of(p);
        let visited2 = visited.insert(kp, true);
        let parent2 = parent.insert(kp, current);
        let depth2 = depth.insert(kp, depth[key_of(current)] + 1);
        let tc = tp[key_of(current)];
        let tp2 = tp.insert(kp, tc.push(p));
        assert(p != start);
        assert forall|x: Position| #[trigger] visited2.contains_key(key_of(x)) implies {
            &&& tp2.contains_key(key_of(x))
            &&& tp2[key_of(x)].len() == depth2[key_of(x)]
            &&& x == start ==> tp2[key_of(x)] == Seq::<Position>::empty()
            &&& x != start ==> self.is_search_walk(world, start, x, tp2[key_of(x)])
                && tp2[key_of(x)] == tp2[key_of(parent2[key_of(x)])].push(x)
            &&& self.first_in_order(world, start, x, tp2[key_of(x)])
        } by {
            lemma_key_injective(x, p);
            if x != p {
                assert(visited.contains_key(key_of(x)));
                if x != start {
                    assert(parent.contains_key(key_of(x)));
                    let px = parent[key_of(x)];
                    assert(visited.contains_key(key_of(px)));
                    lemma_key_injective(px, p);
                }
            } else {
                lemma_key_injective(current, p);
                let w = tc.push(p);
                if current == start {
                    assert(w =~= seq![p]);
                } else {
                    assert(self.is_search_walk(world, start, current, tc));
                    assert forall|i: int| 0 <= i < w.len() - 1 implies adjacent(#[trigger] w[i], w[i + 1]) by {
                        if i < w.len() - 2 {
                            assert(w[i] == tc[i] && w[i + 1] == tc[i + 1]);
                        }
                    }
                    assert forall|i: int| 0 <= i < w.len() implies self.search_tile_ok(world, start, #[trigger] w[i]) by {
                        if i < w.len() - 1 {
                            assert(w[i] == tc[i]);
                        }
                    }
                }
            }
        }
    }

    /// The four orthogonal neighbours of `p` are the steps up, right, down
    /// and left.
    proof fn lemma_neighbours(p: Position, n: Position)
        requires
            fits(p, 1),
            adjacent(p, n),
        ensures
            n == step_target(p, 0, -1) || n == step_target(p, 1, 0) || n == step_target(p, 0, 1)
                || n == step_target(p, -1, 0),
    {
    }

    /// Breadth-first search for a path from the robot to `target` over the
    /// tiles a search may use, examining at most `MAX_SEARCH_ITERATIONS`
    /// tiles. Returns the steps after the robot's tile, ending at `target`,
    /// or an empty path when none was found (or the robot is at `target`).
    /// A path found is the shortest one that comes first in the search order
    /// (steps tried up, right, down, left), and a usable neighbouring target
    /// is reached in one step. No path is found exactly when none exists or
    /// `MAX_SEARCH_ITERATIONS` tiles come before `target` in the order in
    /// which the search examines tiles.
    #[verifier::rlimit(100)]
    #[verifier::spinoff_prover]
    pub fn find_path(&self, world: &World, robot: &RobotStatus, target: Position) -> (path:
        VecDeque<Position>)
        requires
            world.wf(),
            fits(robot.position, 1),
        ensures
            self.is_search_path(*world, robot.position, target, path@),
            robot.position == target ==> path@.len() == 0,
            adjacent(robot.position, target) && self.search_tile_ok(*world, robot.position, target)
                ==> path@ == seq![target],
            self.no_shorter_walk(*world, robot.position, target, path@.len()),
            path@.len() == 0 && robot.position != target ==> self.search_gives_up(
                *world,
                robot.position,
                target,
            ),
            self.first_in_order(*world, robot.position, target, path@),
            path@.len() > 0 ==> !self.search_gives_up(*world, robot.position, target),
    {
        let start = robot.position;
        let ghost near = adjacent(start, target) && self.search_tile_ok(*world, start, target);
        let mut queue: VecDeque<Position> = VecDeque::new();
        let mut visited: HashMap<u64, bool> = HashMap::new();
        let mut parent: HashMap<u64, Position> = HashMap::new();
        queue.push_back(start);
        visited.insert(position_key(&start), true);
        let ghost mut depth: Map<u64, nat> = Map::<u64, nat>::empty().insert(key_of(start), 0);
        let ghost mut closed: Set<u64> = Set::empty();
        let ghost mut closed_pos: Set<Position> = Set::empty();
        let ghost mut level: nat = 0;
        let ghost mut tp: Map<u64, Seq<Position>> = Map::<u64, Seq<Position>>::empty().insert(
            key_of(start),
            Seq::<Position>::empty(),
        );
        let mut iterations: u32 = 0;
        let dirs: [(i32, i32); 4] = [(0, -1), (1, 0), (0, 1), (-1, 0)];
        proof {
            assert forall|p: Position| #[trigger] visited@.contains_key(key_of(p)) implies p == start by {
                lemma_key_injective(p, start);
            }
            assert(queue@[0] == start);
            self.lemma_order_start(*world, start, visited@, parent@, depth, tp);
            assert(queue@ == seq![start]);
        }
        loop
            invariant
                world.wf(),
                fits(start, 1),
                start == robot.position,
                near == (adjacent(start, target) && self.search_tile_ok(*world, start, target)),
                dirs@ == seq![(0i32, -1i32), (1i32, 0i32), (0i32, 1i32), (-1i32, 0i32)],
                iterations <= MAX_SEARCH_ITERATIONS,
                self.search_tree(*world, start, visited@, parent@, depth),
                self.expanded(*world, start, visited@, depth, closed),
                Self::frontier(visited@, depth, closed, queue@, level),
                forall|p: Position|
                    #[trigger] visited@.contains_key(key_of(p)) ==> closed.contains(key_of(p))
                        || queue@.contains(p),
                closed_pos.finite(),
                closed_pos.len() == iterations,
                forall|p: Position|
                    #![trigger closed_pos.contains(p)]
                    #![trigger closed.contains(key_of(p))]
                    closed_pos.contains(p) <==> closed.contains(key_of(p)),
                !closed.contains(key_of(target)),
                self.tree_walks(*world, start, visited@, parent@, depth, tp),
                Self::queue_ordered(start, parent@, depth, tp, closed_pos, queue@, level),
                near && iterations == 0 ==> queue@ == seq![start] && forall|p: Position|
                    #[trigger] visited@.contains_key(key_of(p)) ==> p == start,
                near && iterations >= 1 ==> parent@.contains_key(key_of(target)) && parent@[key_of(
                    target,
                )] == start && exists|idx: int|
                    0 <= idx < queue@.len() && #[trigger] queue@[idx] == target && iterations + idx
                        <= 4,
            ensures
                !near,
                iterations >= MAX_SEARCH_ITERATIONS || queue@.len() == 0,
            decreases MAX_SEARCH_ITERATIONS - iterations,
        {
            if iterations >= MAX_SEARCH_ITERATIONS {
                break;
            }
            let ghost q_before = queue@;
            let current = match queue.pop_front() {
                Some(c) => c,
                None => {
                    break;
                },
            };
            proof {
                assert(current == q_before[0]);
                assert forall|i: int| 0 <= i < queue@.len() implies queue@[i] == q_before[i + 1] by {}
                let old_level = level;
                level = depth[key_of(current)];
                Self::lemma_order_pop(start, parent@, depth, tp, closed_pos, q_before, old_level, level);
                assert(queue@ == q_before.drop_first());
                assert(Self::frontier(visited@, depth, closed, queue@, level)) by {
                    assert forall|i: int| 0 <= i < queue@.len() implies visited@.contains_key(
                        key_of(#[trigger] queue@[i]),
                    ) && !closed.contains(key_of(queue@[i])) && fits(queue@[i], 1) && level
                        <= depth[key_of(queue@[i])] <= level + 1 by {
                        assert(queue@[i] == q_before[i + 1]);
                        assert(depth[key_of(q_before[0])] <= depth[key_of(q_before[i + 1])]);
                    }
                    assert forall|i: int, j: int| 0 <= i < j < queue@.len() implies depth[key_of(
                        #[trigger] queue@[i],
                    )] <= depth[key_of(#[trigger] queue@[j])] && queue@[i] != queue@[j] by {
                        assert(queue@[i] == q_before[i + 1]);
                        assert(queue@[j] == q_before[j + 1]);
                    }
                }
                assert forall|p: Position| #[trigger] visited@.contains_key(key_of(p)) implies closed.contains(
                    key_of(p),
                ) || queue@.contains(p) || p == current by {
                    if q_before.contains(p) && p != current {
                        let i = choose|i: int| 0 <= i < q_before.len() && q_before[i] == p;
                        assert(i != 0);
                        assert(queue@[i - 1] == p);
                    }
                }
                assert(!queue@.contains(current)) by {
                    if queue@.contains(current) {
                        let i = choose|i: int| 0 <= i < queue@.len() && queue@[i] == current;
                        assert(q_before[i + 1] == q_before[0]);
                    }
                }
                if near && iterations >= 1 {
                    let idx = choose|idx: int|
                        0 <= idx < q_before.len() && #[trigger] q_before[idx] == target && iterations
                            + idx <= 4;
                    if idx > 0 {
                        assert(queue@[idx - 1] == target);
                    }
                }
            }
            iterations += 1;
            if current == target {
                proof {
                    assert forall|w: Seq<Position>|
                        #[trigger] self.is_search_walk(*world, start, target, w) implies level <= w.len() by {
                        if w.len() < level {
                            assert forall|p: Position|
                                #[trigger] visited@.contains_key(key_of(p)) && depth[key_of(p)] < level
                                    implies closed.contains(key_of(p)) by {
                                if queue@.contains(p) {
                                    let i = choose|i: int| 0 <= i < queue@.len() && queue@[i] == p;
                                    assert(level <= depth[key_of(queue@[i])]);
                                }
                            }
                            self.lemma_walk_depth(
                                *world,
                                start,
                                visited@,
                                depth,
                                closed,
                                level,
                                w,
                                w.len() as int,
                            );
                        }
                    }
                }
                let path = self.trace_back(
                    world,
                    start,
                    target,
                    &parent,
                    Ghost(visited@),
                    Ghost(depth),
                    Ghost(tp),
                );
                assert(self.first_in_order(*world, start, target, path@)) by {
                    reveal(RobotAI::tree_walks);
                }
                proof {
                    if start != target {
                        self.lemma_found_within_budget(
                            *world,
                            start,
                            target,
                            visited@,
                            parent@,
                            depth,
                            tp,
                            closed,
                            closed_pos,
                            queue@,
                            level,
                        );
                    }
                }
                assert(self.no_shorter_walk(*world, start, target, path@.len())) by {
                    reveal(RobotAI::no_shorter_walk);
                }
                return path;
            }
            assert(near && iterations == 1 ==> current == start && queue@.len() == 0);
            let mut d: usize = 0;
            while d < 4
                invariant
                    world.wf(),
                    fits(start, 1),
                    fits(current, 1),
                    start == robot.position,
                    current != target,
                    near == (adjacent(start, target) && self.search_tile_ok(*world, start, target)),
                    visited@.contains_key(key_of(current)),
                    !closed.contains(key_of(current)),
                    !queue@.contains(current),
                    level == depth[key_of(current)],
                    d <= 4,
                    dirs@ == seq![(0i32, -1i32), (1i32, 0i32), (0i32, 1i32), (-1i32, 0i32)],
                    1 <= iterations <= MAX_SEARCH_ITERATIONS,
                    closed_pos.finite(),
                    closed_pos.len() + 1 == iterations,
                    forall|p: Position|
                        #![trigger closed_pos.contains(p)]
                        #![trigger closed.contains(key_of(p))]
                        closed_pos.contains(p) <==> closed.contains(key_of(p)),
                    !closed.contains(key_of(target)),
                    self.tree_walks(*world, start, visited@, parent@, depth, tp),
                    Self::expansion_ordered(
                        start,
                        parent@,
                        depth,
                        tp,
                        closed_pos,
                        queue@,
                        level,
                        current,
                        d as int,
                    ),
                    self.search_tree(*world, start, visited@, parent@, depth),
                    self.expanded(*world, start, visited@, depth, closed),
                    Self::frontier(visited@, depth, closed, queue@, level),
                    forall|p: Position|
                        #[trigger] visited@.contains_key(key_of(p)) ==> closed.contains(key_of(p))
                            || queue@.contains(p) || p == current,
                    forall|n: Position|
                        adjacent(current, n) && #[trigger] self.search_tile_ok(*world, start, n) && (
                        (d > 0 && n == step_target(current, 0, -1)) || (d > 1 && n == step_target(
                            current,
                            1,
                            0,
                        )) || (d > 2 && n == step_target(current, 0, 1)) || (d > 3 && n
                            == step_target(current, -1, 0))) ==> visited@.contains_key(key_of(n))
                            && depth[key_of(n)] <= level + 1,
                    near && iterations == 1 ==> current == start && queue@.len() <= d,
                    near && iterations == 1 ==> forall|p: Position|
                        #[trigger] visited@.contains_key(key_of(p)) ==> p == start || (d > 0 && p
                            == step_target(start, 0, -1)) || (d > 1 && p == step_target(start, 1, 0))
                            || (d > 2 && p == step_target(start, 0, 1)) || (d > 3 && p == step_target(
                            start,
                            -1,
                            0,
                        )),
                    near && iterations == 1 && ((d > 0 && target == step_target(start, 0, -1)) || (d
                        > 1 && target == step_target(start, 1, 0)) || (d > 2 && target == step_target(
                        start,
                        0,
                        1,
                    )) || (d > 3 && target == step_target(start, -1, 0))) ==> visited@.contains_key(
                        key_of(target),
                    ),
                    near && (iterations >= 2 || visited@.contains_key(key_of(target))) ==> parent@.contains_key(
                        key_of(target),
                    ) && parent@[key_of(target)] == start && exists|idx: int|
                        0 <= idx < queue@.len() && #[trigger] queue@[idx] == target && iterations + idx
                            <= 4,
                decreases 4 - d,
            {
                let (dx, dy) = dirs[d];
                let ghost d0 = d as int;
                d += 1;
                let next = Position::new(current.x + dx, current.y + dy);
                let key = position_key(&next);
                if visited.contains_key(&key) {
                    proof {
                        if queue@.contains(next) {
                            let i = choose|i: int| 0 <= i < queue@.len() && queue@[i] == next;
                            assert(depth[key_of(queue@[i])] <= level + 1);
                        }
                    }
                    proof {
                        Self::lemma_order_skip(start, parent@, depth, tp, closed_pos, queue@, level, current, d0);
                    }
                    continue;
                }
                proof {
                    if near && iterations == 1 {
                        lemma_key_injective(next, target);
                    }
                }
                if start.distance_squared(&next) > (SEARCH_RADIUS * SEARCH_RADIUS) as u128 {
                    proof {
                        Self::lemma_order_skip(start, parent@, depth, tp, closed_pos, queue@, level, current, d0);
                    }
                    continue;
                }
                match self.known_obstacles.get(&key) {
                    Some(is_rock) => {
                        if *is_rock {
                            proof {
                                Self::lemma_order_skip(start, parent@, depth, tp, closed_pos, queue@, level, current, d0);
                            }
                            continue;
                        }
                    },
                    None => {},
                }
                match world.get_tile(&next) {
                    Some(TileType::Rock) | None => {
                        proof {
                            Self::lemma_order_skip(start, parent@, depth, tp, closed_pos, queue@, level, current, d0);
                        }
                        continue;
                    },
                    Some(_) => {},
                }
                assert(adjacent(current, next));
                proof {
                    assert(self.search_tile_ok(*world, start, next));
                    assert forall|q: Position|
                        #[trigger] visited@.contains_key(key_of(q)) && depth[key_of(q)] < level
                            implies closed.contains(key_of(q)) by {
                        if queue@.contains(q) {
                            let i = choose|i: int| 0 <= i < queue@.len() && queue@[i] == q;
                            assert(level <= depth[key_of(queue@[i])]);
                        }
                    }
                    self.lemma_discovered_first(
                        *world,
                        start,
                        visited@,
                        parent@,
                        depth,
                        tp,
                        closed,
                        closed_pos,
                        queue@,
                        level,
                        current,
                        d0,
                        next,
                    );
                    self.lemma_tree_walks_insert(*world, start, visited@, parent@, depth, tp, current, next);
                }
                let ghost old_tp = tp;
                let ghost old_visited = visited@;
                let ghost old_parent = parent@;
                let ghost old_queue = queue@;
                let ghost old_depth = depth;
                visited.insert(key, true);
                parent.insert(key, current);
                proof {
                    depth = depth.insert(key, depth[key_of(current)] + 1);
                    tp = tp.insert(key, old_tp[key_of(current)].push(next));
                    assert forall|p: Position| #[trigger] parent@.contains_key(key_of(p)) implies ({
                        let q = parent@[key_of(p)];
                        &&& p != start
                        &&& visited@.contains_key(key_of(p))
                        &&& visited@.contains_key(key_of(q))
                        &&& adjacent(q, p)
                        &&& self.search_tile_ok(*world, start, p)
                        &&& depth[key_of(q)] + 1 == depth[key_of(p)]
                    }) by {
                        lemma_key_injective(p, next);
                        lemma_key_injective(p, start);
                        if p != next {
                            assert(old_parent.contains_key(key_of(p)));
                            let q = old_parent[key_of(p)];
                            lemma_key_injective(q, next);
                        }
                    }
                    assert forall|p: Position| #[trigger] visited@.contains_key(key_of(p)) && p != start implies parent@.contains_key(
                        key_of(p),
                    ) by {
                        lemma_key_injective(p, next);
                    }
                    assert forall|k: u64| #[trigger] closed.contains(k) implies visited@.contains_key(k)
                        && depth[k] <= level by {
                        assert(old_visited.contains_key(k));
                        assert(k != key);
                    }
                    assert forall|p: Position, n: Position|
                        #![trigger closed.contains(key_of(p)), adjacent(p, n)]
                        closed.contains(key_of(p)) && adjacent(p, n) && self.search_tile_ok(*world, start, n)
                            implies visited@.contains_key(key_of(n)) && depth[key_of(n)] <= depth[key_of(p)]
                            + 1 by {
                        assert(old_visited.contains_key(key_of(n)));
                        assert(old_visited.contains_key(key_of(p)));
                        assert(key_of(n) != key);
                        assert(key_of(p) != key);
                    }
                    lemma_key_injective(start, next);
                    lemma_key_injective(target, next);
                    lemma_key_injective(current, next);
                    if near && iterations == 1 {
                        assert forall|p: Position| #[trigger] visited@.contains_key(key_of(p)) implies p
                            == start || (d > 0 && p == step_target(start, 0, -1)) || (d > 1 && p
                            == step_target(start, 1, 0)) || (d > 2 && p == step_target(start, 0, 1))
                            || (d > 3 && p == step_target(start, -1, 0)) by {
                            lemma_key_injective(p, next);
                        }
                    }
                }
                queue.push_back(next);
                assert(pos_in_bounds(next));
                proof {
                    assert(dirs@[d0] == (dx, dy));
                    assert(step_rank(current, next) == d0);
                    assert(!closed_pos.contains(next));
                    assert forall|i: int| 0 <= i < old_queue.len() implies #[trigger] old_queue[i] != next
                        && old_visited.contains_key(key_of(old_queue[i])) by {
                        assert(old_visited.contains_key(key_of(old_queue[i])));
                    }
                    assert forall|c: Position|
                        #[trigger] closed_pos.contains(c) implies old_visited.contains_key(key_of(c))
                            && old_depth[key_of(c)] <= level by {
                        assert(closed.contains(key_of(c)));
                    }
                    self.lemma_order_push(
                        *world,
                        old_visited,
                        start,
                        old_parent,
                        old_depth,
                        old_tp,
                        closed_pos,
                        old_queue,
                        level,
                        current,
                        d0,
                        next,
                    );
                    assert(queue@[queue@.len() - 1] == next);
                    assert forall|i: int| 0 <= i < queue@.len() implies visited@.contains_key(
                        key_of(#[trigger] queue@[i]),
                    ) && !closed.contains(key_of(queue@[i])) && fits(queue@[i], 1) && level
                        <= depth[key_of(queue@[i])] <= level + 1 by {
                        if i < old_queue.len() {
                            assert(queue@[i] == old_queue[i]);
                            lemma_key_injective(queue@[i], next);
                        }
                    }
                    assert forall|i: int, j: int| 0 <= i < j < queue@.len() implies depth[key_of(
                        #[trigger] queue@[i],
                    )] <= depth[key_of(#[trigger] queue@[j])] && queue@[i] != queue@[j] by {
                        assert(queue@[i] == old_queue[i]);
                        lemma_key_injective(queue@[i], next);
                        if j < old_queue.len() {
                            assert(queue@[j] == old_queue[j]);
                            lemma_key_injective(queue@[j], next);
                        }
                    }
                    assert forall|p: Position| #[trigger] visited@.contains_key(key_of(p)) implies closed.contains(
                        key_of(p),
                    ) || queue@.contains(p) || p == current by {
                        lemma_key_injective(p, next);
                        if p != next && old_queue.contains(p) {
                            let i = choose|i: int| 0 <= i < old_queue.len() && old_queue[i] == p;
                            assert(queue@[i] == p);
                        }
                    }
                    assert(!queue@.contains(current)) by {
                        if queue@.contains(current) {
                            let i = choose|i: int| 0 <= i < queue@.len() && queue@[i] == current;
                            if i < old_queue.len() {
                                assert(old_queue[i] == current);
                            }
                        }
                    }
                    assert forall|n: Position|
                        adjacent(current, n) && #[trigger] self.search_tile_ok(*world, start, n) && (
                        (d > 0 && n == step_target(current, 0, -1)) || (d > 1 && n == step_target(
                            current,
                            1,
                            0,
                        )) || (d > 2 && n == step_target(current, 0, 1)) || (d > 3 && n
                            == step_target(current, -1, 0))) implies visited@.contains_key(key_of(n))
                            && depth[key_of(n)] <= level + 1 by {
                        lemma_key_injective(n, next);
                        if n != next {
                            assert(old_visited.contains_key(key_of(n)));
                        }
                    }
                    if near && (iterations >= 2 || visited@.contains_key(key_of(target))) {
                        if next == target {
                            assert(queue@[queue@.len() - 1] == target);
                        } else {
                            let idx = choose|idx: int|
                                0 <= idx < old_queue.len() && #[trigger] old_queue[idx] == target
                                    && iterations + idx <= 4;
                            assert(queue@[idx] == target);
                        }
                    }
                }
            }
            proof {
                if near && iterations == 1 {
                    assert(target == step_target(start, 0, -1) || target == step_target(start, 1, 0)
                        || target == step_target(start, 0, 1) || target == step_target(start, -1, 0));
                }
                let ghost old_closed = closed;
                Self::lemma_order_close(start, parent@, depth, tp, closed_pos, queue@, level, current);
                closed = closed.insert(key_of(current));
                assert(!closed_pos.contains(current));
                closed_pos = closed_pos.insert(current);
                assert forall|p: Position|
                    #![trigger closed_pos.contains(p)]
                    #![trigger closed.contains(key_of(p))]
                    closed_pos.contains(p) <==> closed.contains(key_of(p)) by {
                    lemma_key_injective(p, current);
                }
                lemma_key_injective(target, current);
                assert forall|k: u64| #[trigger] closed.contains(k) implies visited@.contains_key(k)
                    && depth[k] <= level by {}
                assert forall|i: int| 0 <= i < queue@.len() implies !closed.contains(
                    key_of(#[trigger] queue@[i]),
                ) by {
                    lemma_key_injective(queue@[i], current);
                }
                assert forall|p: Position| #[trigger] visited@.contains_key(key_of(p)) implies closed.contains(
                    key_of(p),
                ) || queue@.contains(p) by {}
                assert forall|p: Position, n: Position|
                    #![trigger closed.contains(key_of(p)), adjacent(p, n)]
                    closed.contains(key_of(p)) && adjacent(p, n) && self.search_tile_ok(*world, start, n)
                        implies visited@.contains_key(key_of(n)) && depth[key_of(n)] <= depth[key_of(p)]
                        + 1 by {
                    lemma_key_injective(p, current);
                    if p == current {
                        Self::lemma_neighbours(current, n);
                    } else {
                        assert(old_closed.contains(key_of(p)) && adjacent(p, n));
                    }
                }
            }
        }
        proof {
            assert forall|p: Position|
                #[trigger] visited@.contains_key(key_of(p)) && depth[key_of(p)] < level
                    implies closed.contains(key_of(p)) by {
                if queue@.contains(p) {
                    let i = choose|i: int| 0 <= i < queue@.len() && queue@[i] == p;
                    assert(level <= depth[key_of(queue@[i])]);
                }
            }
            self.lemma_search_gave_up(
                *world,
                start,
                target,
                visited@,
                parent@,
                depth,
                tp,
                closed,
                closed_pos,
                queue@,
                level,
            );
        }
        assert(self.no_shorter_walk(*world, start, target, 0)) by {
            reveal(RobotAI::no_shorter_walk);
        }
        VecDeque::new()
    }

    /// Follows the parents of the search tree back from `target` to `start`
    /// and returns the steps from `start` (excluded) to `target`.
    #[verifier::rlimit(60)]
    #[verifier::spinoff_prover]
    fn trace_back(
        &self,
        world: &World,
        start: Position,
        target: Position,
        parent: &HashMap<u64, Position>,
        Ghost(visited): Ghost<Map<u64, bool>>,
        Ghost(depth): Ghost<Map<u64, nat>>,
        Ghost(tp): Ghost<Map<u64, Seq<Position>>>,
    ) -> (path: VecDeque<Position>)
        requires
            self.search_tree(*world, start, visited, parent@, depth),
            self.tree_walks(*world, start, visited, parent@, depth, tp),
            visited.contains_key(key_of(target)),
        ensures
            path@ == tp[key_of(target)],
            self.is_search_path(*world, start, target, path@),
            start == target ==> path@.len() == 0,
            start != target && parent@.contains_key(key_of(target)) && parent@[key_of(target)]
                == start ==> path@ == seq![target],
            path@.len() == depth[key_of(target)],
    {
        let mut path: VecDeque<Position> = VecDeque::new();
        let mut pos = target;
        while pos != start
            invariant
                start != target && parent@.contains_key(key_of(target)) && parent@[key_of(target)]
                    == start ==> (path@.len() == 0 && pos == target) || (path@ == seq![target] && pos
                    == start),
                self.search_tree(*world, start, visited, parent@, depth),
                self.tree_walks(*world, start, visited, parent@, depth, tp),
                tp[key_of(target)] == tp[key_of(pos)] + path@,
                visited.contains_key(key_of(pos)),
                path@.len() + depth[key_of(pos)] == depth[key_of(target)],
                path@.len() == 0 ==> pos == target,
                path@.len() > 0 ==> adjacent(pos, path@[0]) && path@.last() == target,
                forall|i: int| 0 <= i < path@.len() - 1 ==> adjacent(#[trigger] path@[i], path@[i + 1]),
                forall|i: int|
                    0 <= i < path@.len() ==> self.search_tile_ok(*world, start, #[trigger] path@[i]),
                forall|i: int|
                    0 <= i < path@.len() ==> visited.contains_key(key_of(#[trigger] path@[i]))
                        && depth[key_of(path@[i])] > depth[key_of(pos)],
                forall|i: int, j: int|
                    0 <= i < j < path@.len() ==> depth[key_of(#[trigger] path@[i])] < depth[key_of(
                        #[trigger] path@[j],
                    )],
            decreases depth[key_of(pos)],
        {
            let key = position_key(&pos);
            match parent.get(&key) {
                Some(prev) => {
                    let prev = *prev;
                    assert(parent@.contains_key(key_of(pos)));
                    let ghost old_path = path@;
                    path.push_front(pos);
                    assert(tp[key_of(pos)] == tp[key_of(prev)].push(pos)) by {
                        reveal(RobotAI::tree_walks);
                    }
                    assert(tp[key_of(prev)] + path@ =~= tp[key_of(pos)] + old_path);
                    assert(path@[0] == pos);
                    assert forall|i: int| 0 <= i < path@.len() - 1 implies adjacent(
                        #[trigger] path@[i],
                        path@[i + 1],
                    ) by {
                        if i > 0 {
                            assert(path@[i] == old_path[i - 1]);
                            assert(path@[i + 1] == old_path[i]);
                        }
                    }
                    assert forall|i: int| 0 <= i < path@.len() implies self.search_tile_ok(
                        *world,
                        start,
                        #[trigger] path@[i],
                    ) by {
                        if i > 0 {
                            assert(path@[i] == old_path[i - 1]);
                        }
                    }
                    assert forall|i: int, j: int| 0 <= i < j < path@.len() implies depth[key_of(
                        #[trigger] path@[i],
                    )] < depth[key_of(#[trigger] path@[j])] by {
                        assert(path@[j] == old_path[j - 1]);
                        if i > 0 {
                            assert(path@[i] == old_path[i - 1]);
                        }
                    }
                    assert forall|i: int| 0 <= i < path@.len() implies visited.contains_key(
                        key_of(#[trigger] path@[i]),
                    ) && depth[key_of(path@[i])] > depth[key_of(prev)] by {
                        if i > 0 {
                            assert(path@[i] == old_path[i - 1]);
                        }
                    }
                    pos = prev;
                },
                None => {
                    assert(parent@.contains_key(key_of(pos)));
                    return VecDeque::new();
                },
            }
        }
        proof {
            assert forall|i: int, j: int| 0 <= i < path@.len() && 0 <= j < path@.len() && i != j implies path@[i]
                != path@[j] by {
                if i < j {
                    assert(depth[key_of(path@[i])] < depth[key_of(path@[j])]);
                } else {
                    assert(depth[key_of(path@[j])] < depth[key_of(path@[i])]);
                }
            }
            assert(!path@.contains(start)) by {
                if path@.contains(start) {
                    let i = choose|i: int| 0 <= i < path@.len() && path@[i] == start;
                    assert(depth[key_of(path@[i])] > depth[key_of(start)]);
                }
            }
            assert(tp[key_of(start)] == Seq::<Position>::empty()) by {
                reveal(RobotAI::tree_walks);
            }
            assert(tp[key_of(target)] =~= path@);
        }
        path
    }

    /// What a fresh path search towards `target` returns: the search path
    /// that comes first in the search order (up, right, down, left) among
    /// the shortest ones; empty when the robot is at `target` and, otherwise,
    /// exactly when the search gives up.
    #[verifier::opaque]
    pub open spec fn search_result(
        self,
        world: World,
        robot: RobotStatus,
        target: Position,
        path: Seq<Position>,
    ) -> bool {
        &&& self.is_search_path(world, robot.position, target, path)
        &&& robot.position == target ==> path.len() == 0
        &&& adjacent(robot.position, target) && self.search_tile_ok(world, robot.position, target)
            ==> path == seq![target]
        &&& self.no_shorter_walk(world, robot.position, target, path.len())
        &&& path.len() == 0 && robot.position != target ==> self.search_gives_up(
            world,
            robot.position,
            target,
        )
        &&& path.len() > 0 ==> !self.search_gives_up(world, robot.position, target)
        &&& self.first_in_order(world, robot.position, target, path)
    }

    /// Law: a fresh path search has exactly one possible result.
    pub proof fn lemma_search_result_unique(
        self,
        world: World,
        robot: RobotStatus,
        target: Position,
        a: Seq<Position>,
        b: Seq<Position>,
    )
        requires
            self.search_result(world, robot, target, a),
            self.search_result(world, robot, target, b),
        ensures
            a == b,
    {
        reveal(RobotAI::search_result);
        reveal(RobotAI::no_shorter_walk);
        let start = robot.position;
        if a.len() > 0 && b.len() > 0 {
            assert(self.is_search_walk(world, start, target, a));
            assert(self.is_search_walk(world, start, target, b));
            assert(a.len() == b.len());
            if a != b {
                assert(walk_before(start, a, b));
                assert(walk_before(start, b, a));
                lemma_before_asym(start, a, b);
            }
        } else if a.len() == 0 && b.len() == 0 {
            assert(a =~= b);
        }
    }

    /// `self` and `other` hold the same memory and exploration state; only
    /// the path and its target may differ.
    pub open spec fn same_memory(self, other: RobotAI) -> bool {
        &&& self.exploration_direction == other.exploration_direction
        &&& self.stuck_counter == other.stuck_counter
        &&& self.last_position == other.last_position
        &&& self.known_ice_locations == other.known_ice_locations
        &&& self.known_obstacles == other.known_obstacles
        &&& self.unreachable_targets == other.unreachable_targets
    }

    /// One navigation decision towards `target`, from `self` to `next`:
    /// standing on `target` yields no move and forgets the path; else the
    /// robot follows the remembered path to `target` while its next step is
    /// open; else it follows a fresh search path whose first step is open;
    /// else it moves greedily and forgets the path. The memory is kept.
    pub open spec fn navigation(
        self,
        next: RobotAI,
        world: World,
        robot: RobotStatus,
        target: Position,
        action: Option<InputAction>,
    ) -> bool {
        &&& next.same_memory(self)
        &&& robot.position == target ==> action is None && next.current_path@.len() == 0
            && next.path_target is None
        &&& robot.position != target && self.path_target == Some(target)
            && self.current_path@.len() > 0 && step_towards_open(
            world,
            robot,
            self.current_path@[0],
        ) ==> action == Some(step_action(robot.position, self.current_path@[0]))
            && next.current_path@ == self.current_path@.drop_first() && next.path_target == Some(
            target,
        )
        &&& robot.position != target && !(self.path_target == Some(target)
            && self.current_path@.len() > 0 && step_towards_open(
            world,
            robot,
            self.current_path@[0],
        )) ==> exists|fresh: Seq<Position>|
            #[trigger] self.search_result(world, robot, target, fresh) && if fresh.len() > 0
                && step_towards_open(world, robot, fresh[0]) {
                &&& action == Some(step_action(robot.position, fresh[0]))
                &&& next.current_path@ == fresh.drop_first()
                &&& next.path_target == Some(target)
            } else {
                &&& action == greedy_move(world, robot, target)
                &&& next.current_path@.len() == 0
                &&& next.path_target is None
            }
    }

    /// Search walks, and how long they must be, depend only on the
    /// remembered obstacles of the autopilot.
    proof fn lemma_walks_depend_on_memory(self, other: RobotAI, world: World, start: Position)
        requires
            self.known_obstacles@ == other.known_obstacles@,
        ensures
            forall|q: Position, w: Seq<Position>| #[trigger]
                self.is_search_walk(world, start, q, w) == other.is_search_walk(world, start, q, w),
            forall|q: Position, n: nat| #[trigger]
                self.no_shorter_walk(world, start, q, n) == other.no_shorter_walk(world, start, q, n),
    {
        assert forall|p: Position| #[trigger]
            self.search_tile_ok(world, start, p) == other.search_tile_ok(world, start, p) by {}
        assert forall|q: Position, w: Seq<Position>| #[trigger]
            self.is_search_walk(world, start, q, w) == other.is_search_walk(world, start, q, w) by {}
        assert forall|q: Position, n: nat| #[trigger]
            self.no_shorter_walk(world, start, q, n) == other.no_shorter_walk(world, start, q, n) by {
            if self.no_shorter_walk(world, start, q, n) {
                Self::lemma_no_shorter_transfers(self, other, world, start, q, n);
            }
            if other.no_shorter_walk(world, start, q, n) {
                Self::lemma_no_shorter_transfers(other, self, world, start, q, n);
            }
        }
    }

    /// A bound on the walks to `q` carries over to an autopilot with the
    /// same search walks.
    proof fn lemma_no_shorter_transfers(
        a: RobotAI,
        b: RobotAI,
        world: World,
        start: Position,
        q: Position,
        n: nat,
    )
        requires
            a.no_shorter_walk(world, start, q, n),
            forall|w: Seq<Position>| #[trigger]
                a.is_search_walk(world, start, q, w) == b.is_search_walk(world, start, q, w),
        ensures
            b.no_shorter_walk(world, start, q, n),
    {
        reveal(RobotAI::no_shorter_walk);
        assert forall|w: Seq<Position>| #[trigger] b.is_search_walk(world, start, q, w) implies n <= w.len() by {
            assert(a.is_search_walk(world, start, q, w));
        }
    }

    /// Coming before `target` in the search order is the same for two
    /// autopilots that remember the same obstacles.
    proof fn lemma_before_depends_on_memory(
        self,
        other: RobotAI,
        world: World,
        start: Position,
        p: Position,
        target: Position,
    )
        requires
            self.known_obstacles@ == other.known_obstacles@,
            self.examined_before(world, start, p, target),
        ensures
            other.examined_before(world, start, p, target),
    {
        self.lemma_walks_depend_on_memory(other, world, start);
        if p != start {
            let w = choose|w: Seq<Position>|
                #[trigger] self.is_search_walk(world, start, p, w) && self.no_shorter_walk(
                    world,
                    start,
                    p,
                    w.len(),
                ) && self.first_in_order(world, start, p, w) && self.walk_precedes(world, start, w, target);
            assert forall|v: Seq<Position>|
                #[trigger] other.is_search_walk(world, start, p, v) && v.len() == w.len() implies v == w
                    || walk_before(start, w, v) by {
                assert(self.is_search_walk(world, start, p, v));
            }
            assert forall|v: Seq<Position>| #[trigger] other.is_search_walk(world, start, target, v) implies w.len()
                < v.len() || (w.len() == v.len() && walk_before(start, w, v)) by {
                assert(self.is_search_walk(world, start, target, v));
            }
            assert(other.is_search_walk(world, start, p, w));
            assert(other.no_shorter_walk(world, start, p, w.len()));
        }
    }

    /// The tiles a search examined before giving up are the same for two
    /// autopilots that remember the same obstacles.
    proof fn lemma_examined_depends_on_memory(
        self,
        other: RobotAI,
        world: World,
        start: Position,
        target: Position,
        st: Set<Position>,
    )
        requires
            self.known_obstacles@ == other.known_obstacles@,
            self.examined_first(world, start, target, st),
        ensures
            other.examined_first(world, start, target, st),
    {
        assert forall|p: Position| #[trigger] st.contains(p) implies other.examined_before(
            world,
            start,
            p,
            target,
        ) by {
            self.lemma_before_depends_on_memory(other, world, start, p, target);
        }
    }

    /// A fresh search sees only the remembered obstacles of the autopilot.
    proof fn lemma_search_memory(
        self,
        other: RobotAI,
        world: World,
        robot: RobotStatus,
        target: Position,
        path: Seq<Position>,
    )
        requires
            self.known_obstacles@ == other.known_obstacles@,
        ensures
            self.search_result(world, robot, target, path) == other.search_result(
                world,
                robot,
                target,
                path,
            ),
    {
        reveal(RobotAI::search_result);
        let start = robot.position;
        self.lemma_walks_depend_on_memory(other, world, start);
        assert forall|p: Position| #[trigger]
            self.search_tile_ok(world, start, p) == other.search_tile_ok(world, start, p) by {}
        assert(self.is_search_path(world, start, target, path) == other.is_search_path(
            world,
            start,
            target,
            path,
        ));
        if self.search_gives_up(world, start, target) {
            self.lemma_gives_up_depends_on_memory(other, world, start, target);
        }
        assert forall|v: Seq<Position>|
            #[trigger] other.is_search_walk(world, start, target, v) implies self.is_search_walk(
            world,
            start,
            target,
            v,
        ) by {}
        assert(self.first_in_order(world, start, target, path) == other.first_in_order(
            world,
            start,
            target,
            path,
        ));
        if other.search_gives_up(world, start, target) {
            other.lemma_gives_up_depends_on_memory(self, world, start, target);
        }
    }

    /// Giving up a search carries over to an autopilot that remembers the
    /// same obstacles.
    proof fn lemma_gives_up_depends_on_memory(
        self,
        other: RobotAI,
        world: World,
        start: Position,
        target: Position,
    )
        requires
            self.known_obstacles@ == other.known_obstacles@,
            self.search_gives_up(world, start, target),
        ensures
            other.search_gives_up(world, start, target),
    {
        self.lemma_walks_depend_on_memory(other, world, start);
        if exists|st: Set<Position>| #[trigger] self.examined_first(world, start, target, st) {
            let st = choose|st: Set<Position>| #[trigger] self.examined_first(world, start, target, st);
            self.lemma_examined_depends_on_memory(other, world, start, target, st);
        } else {
            assert forall|w: Seq<Position>| !#[trigger] other.is_search_walk(world, start, target, w) by {
                assert(!self.is_search_walk(world, start, target, w));
            }
        }
    }

    /// Searches a fresh path to `target` and takes its first step when that
    /// step is open, remembering the rest of the path; else forgets the path
    /// and moves greedily.
    #[verifier::spinoff_prover]
    fn follow_fresh_path(&mut self, world: &World, robot: &RobotStatus, target: Position) -> (action:
        Option<InputAction>)
        requires
            world.wf(),
            fits(robot.position, 1),
        ensures
            final(self).same_memory(*old(self)),
            exists|fresh: Seq<Position>|
                #[trigger] old(self).search_result(*world, *robot, target, fresh) && if fresh.len()
                    > 0 && step_towards_open(*world, *robot, fresh[0]) {
                    &&& action == Some(step_action(robot.position, fresh[0]))
                    &&& final(self).current_path@ == fresh.drop_first()
                    &&& final(self).path_target == Some(target)
                } else {
                    &&& action == greedy_move(*world, *robot, target)
                    &&& final(self).current_path@.len() == 0
                    &&& final(self).path_target is None
                },
    {
        let path = self.find_path(world, robot, target);
        let ghost fresh = path@;
        assert(old(self).search_result(*world, *robot, target, fresh)) by {
            reveal(RobotAI::search_result);
        }
        self.current_path = path;
        self.path_target = Some(target);
        if self.current_path.len() > 0 {
            let next_pos = self.current_path[0];
            let dx: i64 = next_pos.x as i64 - robot.position.x as i64;
            let dy: i64 = next_pos.y as i64 - robot.position.y as i64;
            if -1 <= dx && dx <= 1 && -1 <= dy && dy <= 1 && self.can_move(
                world,
                robot,
                dx as i32,
                dy as i32,
            ) {
                self.current_path.pop_front();
                return self.move_direction(dx as i32, dy as i32);
            }
        }
        self.current_path.clear();
        self.path_target = None;
        self.greedy_move_to(world, robot, target)
    }

    /// Moves the robot one step towards `target`: along the remembered path
    /// while it is still open, else along a freshly searched path, else
    /// greedily. Standing on `target` yields no move and forgets the path.
    pub fn navigate_to(&mut self, world: &World, robot: &RobotStatus, target: Position) -> (action:
        Option<InputAction>)
        requires
            world.wf(),
            fits(robot.position, 1),
        ensures
            old(self).navigation(*final(self), *world, *robot, target, action),
    {
        if robot.position == target {
            self.current_path.clear();
            self.path_target = None;
            return None;
        }
        let following = match self.path_target {
            Some(t) => t == target,
            None => false,
        };
        if following && self.current_path.len() > 0 {
            let next_pos = self.current_path[0];
            let dx: i64 = next_pos.x as i64 - robot.position.x as i64;
            let dy: i64 = next_pos.y as i64 - robot.position.y as i64;
            if -1 <= dx && dx <= 1 && -1 <= dy && dy <= 1 && (dx != 0 || dy != 0) {
                if self.can_move(world, robot, dx as i32, dy as i32) {
                    self.current_path.pop_front();
                    return self.move_direction(dx as i32, dy as i32);
                }
            }
        }
        // The remembered path is missing, stale or blocked: search afresh.
        let ghost mid = *self;
        let action = self.follow_fresh_path(world, robot, target);
        proof {
            let fresh = choose|fresh: Seq<Position>|
                #[trigger] mid.search_result(*world, *robot, target, fresh) && if fresh.len() > 0
                    && step_towards_open(*world, *robot, fresh[0]) {
                    &&& action == Some(step_action(robot.position, fresh[0]))
                    &&& self.current_path@ == fresh.drop_first()
                    &&& self.path_target == Some(target)
                } else {
                    &&& action == greedy_move(*world, *robot, target)
                    &&& self.current_path@.len() == 0
                    &&& self.path_target is None
                };
            mid.lemma_search_memory(*old(self), *world, *robot, target, fresh);
        }
        action
    }

    /// Moves the robot one step towards the base.
    pub fn return_to_base(&mut self, world: &World, robot: &RobotStatus) -> (action: Option<
        InputAction,
    >)
        requires
            world.wf(),
            fits(robot.position, 1),
        ensures
            old(self).navigation(*final(self), *world, *robot, world.base_position, action),
    {
        self.navigate_to(world, robot, world.base_position)
    }

    /// How promising a tile along an exploration ray is: -5 for remembered
    /// rock; otherwise 3 if unexplored plus 10 if it is ice.
    pub open spec fn ray_cell_score(self, world: World, p: Position) -> int {
        if self.knows_rock_at(p) {
            -5
        } else {
            (if !world.explored_at(p) {
                3int
            } else {
                0int
            }) + (if world.tile_at(p) == Some(TileType::Ice) {
                10int
            } else {
                0int
            })
        }
    }

    /// The score of the first `n` tiles of the ray from `from` along `(dx, dy)`.
    pub open spec fn ray_score(self, world: World, from: Position, dx: int, dy: int, n: nat) -> int
        decreases n,
    {
        if n == 0 {
            0
        } else {
            self.ray_score(world, from, dx, dy, (n - 1) as nat) + self.ray_cell_score(
                world,
                step_target(from, dx * n, dy * n),
            )
        }
    }

    /// The score of the direction `(dx, dy)` seen from `from`: the 29 tiles
    /// of its ray, plus 5 for every remembered ice deposit it heads towards.
    pub open spec fn direction_score(self, world: World, from: Position, d: (i32, i32)) -> int {
        self.ray_score(world, from, d.0 as int, d.1 as int, EXPLORATION_RANGE as nat) + ice_bonus(
            self.known_ice_locations@,
            from,
            d.0 as int,
            d.1 as int,
        )
    }

    /// The best of the first `k` exploration directions with its score:
    /// a direction wins only with a strictly higher score, starting from
    /// `fallback` with score 0.
    pub open spec fn best_direction(
        self,
        world: World,
        from: Position,
        fallback: (i32, i32),
        k: nat,
    ) -> ((i32, i32), int)
        decreases k,
    {
        if k == 0 {
            (fallback, 0)
        } else {
            let prev = self.best_direction(world, from, fallback, (k - 1) as nat);
            let d = exploration_directions()[k - 1];
            let score = self.direction_score(world, from, d);
            if score > prev.1 {
                (d, score)
            } else {
                prev
            }
        }
    }

    /// The direction to explore in: the best scoring of the eight
    /// directions; when no direction scores 5 or more, straight away from the
    /// base along the axis on which the robot is farther from it.
    pub open spec fn exploration_choice(
        self,
        world: World,
        from: Position,
        fallback: (i32, i32),
    ) -> (i32, i32) {
        let best = self.best_direction(world, from, fallback, 8);
        if best.1 < 5 {
            let away_x = from.x - world.base_position.x;
            let away_y = from.y - world.base_position.y;
            if (if away_x < 0 { -away_x } else { away_x }) > (if away_y < 0 { -away_y } else { away_y }) {
                (sign(away_x) as i32, 0i32)
            } else {
                (0i32, sign(away_y) as i32)
            }
        } else {
            best.0
        }
    }

    /// Picks the direction to explore in (see `exploration_choice`), with
    /// the current exploration direction as the fallback.
    pub fn find_best_exploration_direction(&self, world: &World, robot: &RobotStatus) -> (dir: (
        i32,
        i32,
    ))
        requires
            world.wf(),
            self.wf(),
            fits(robot.position, EXPLORATION_RANGE as int),
        ensures
            dir == self.exploration_choice(*world, robot.position, self.exploration_direction),
            -1 <= dir.0 <= 1 && -1 <= dir.1 <= 1,
    {
        let directions: [(i32, i32); 8] = [
            (0, -1),
            (1, 0),
            (0, 1),
            (-1, 0),
            (1, -1),
            (1, 1),
            (-1, 1),
            (-1, -1),
        ];
        let pos = robot.position;
        let mut best_dir = self.exploration_direction;
        let mut best_score: i128 = 0;
        let mut k: usize = 0;
        while k < 8
            invariant
                world.wf(),
                self.wf(),
                fits(pos, EXPLORATION_RANGE as int),
                pos == robot.position,
                k <= 8,
                directions@ == exploration_directions(),
                (best_dir, best_score as int) == self.best_direction(
                    *world,
                    pos,
                    self.exploration_direction,
                    k as nat,
                ),
                -1 <= best_dir.0 <= 1 && -1 <= best_dir.1 <= 1,
            decreases 8 - k,
        {
            let (dx, dy) = directions[k];
            let mut score: i128 = 0;
            let mut dist: i32 = 1;
            while dist < 30
                invariant
                    world.wf(),
                    fits(pos, EXPLORATION_RANGE as int),
                    1 <= dist <= 30,
                    -1 <= dx <= 1 && -1 <= dy <= 1,
                    score == self.ray_score(*world, pos, dx as int, dy as int, (dist - 1) as nat),
                    -5 * (dist - 1) <= score <= 13 * (dist - 1),
                decreases 30 - dist,
            {
                proof {
                    lemma_unit_times(dx as int, dist as int);
                    lemma_unit_times(dy as int, dist as int);
                }
                let check_pos = Position::new(pos.x + dx * dist, pos.y + dy * dist);
                assert(check_pos == step_target(pos, dx * dist, dy * dist));
                let key = position_key(&check_pos);
                let rock = match self.known_obstacles.get(&key) {
                    Some(is_rock) => *is_rock,
                    None => false,
                };
                if rock {
                    score -= 5;
                } else {
                    if !world.is_explored(&check_pos) {
                        score += 3;
                    }
                    if let Some(TileType::Ice) = world.get_tile(&check_pos) {
                        score += 10;
                    }
                }
                dist += 1;
            }
            let ghost ray = score;
            let n = self.known_ice_locations.len();
            let mut i: usize = 0;
            while i < n
                invariant
                    n == self.known_ice_locations.len(),
                    i <= n,
                    -1 <= dx <= 1 && -1 <= dy <= 1,
                    score == ray + ice_bonus(
                        self.known_ice_locations@.take(i as int),
                        pos,
                        dx as int,
                        dy as int,
                    ),
                    -145 <= ray <= 377,
                    ray - 0 <= score <= ray + 5 * i,
                decreases n - i,
            {
                let ice_pos = self.known_ice_locations[i];
                assert(self.known_ice_locations@.take(i as int + 1).drop_last()
                    == self.known_ice_locations@.take(i as int));
                let ice_dx: i64 = ice_pos.x as i64 - pos.x as i64;
                let ice_dy: i64 = ice_pos.y as i64 - pos.y as i64;
                proof {
                    lemma_unit_times(dx as int, ice_dx as int);
                    lemma_unit_times(dy as int, ice_dy as int);
                }
                if dx as i64 * ice_dx + dy as i64 * ice_dy > 0 {
                    score += 5;
                }
                i += 1;
            }
            assert(self.known_ice_locations@.take(n as int) == self.known_ice_locations@);
            if score > best_score {
                best_score = score;
                best_dir = (dx, dy);
            }
            k += 1;
        }
        if best_score < 5 {
            let away_x: i64 = pos.x as i64 - world.base_position.x as i64;
            let away_y: i64 = pos.y as i64 - world.base_position.y as i64;
            let abs_x: i64 = if away_x < 0 { -away_x } else { away_x };
            let abs_y: i64 = if away_y < 0 { -away_y } else { away_y };
            if abs_x > abs_y {
                best_dir = (if away_x > 0 { 1 } else if away_x < 0 { -1 } else { 0 }, 0);
            } else {
                best_dir = (0, if away_y > 0 { 1 } else if away_y < 0 { -1 } else { 0 });
            }
        }
        best_dir
    }

    /// The direction the robot explores in next (see `explore_for_ice`):
    /// re-judged when the robot has been stuck more than twice or stands on
    /// a diagonal where `x + y` is a multiple of 15.
    pub open spec fn exploration_heading(self, world: World, robot: RobotStatus) -> (i32, i32) {
        if self.stuck_counter > 2 || (robot.position.x + robot.position.y) % 15 == 0 {
            self.exploration_choice(world, robot.position, self.exploration_direction)
        } else {
            self.exploration_direction
        }
    }

    /// One exploration decision, from `self` to `next`: the robot steps
    /// along its exploration heading when that step is open; otherwise it
    /// re-judges the direction (from the heading) and takes any open
    /// orthogonal step. Only the exploration direction changes.
    pub open spec fn exploration(
        self,
        next: RobotAI,
        world: World,
        robot: RobotStatus,
        action: Option<InputAction>,
    ) -> bool {
        let heading = self.exploration_heading(world, robot);
        &&& next.stuck_counter == self.stuck_counter
        &&& next.last_position == self.last_position
        &&& next.known_ice_locations == self.known_ice_locations
        &&& next.known_obstacles == self.known_obstacles
        &&& next.unreachable_targets == self.unreachable_targets
        &&& next.current_path == self.current_path
        &&& next.path_target == self.path_target
        &&& if step_open(world, robot, heading.0 as int, heading.1 as int) {
            &&& action == Some(direction_action(heading.0 as int, heading.1 as int))
            &&& next.exploration_direction == heading
        } else {
            &&& action == any_move(world, robot)
            &&& next.exploration_direction == self.exploration_choice(world, robot.position, heading)
        }
    }

    /// Explores: steps along the exploration heading when that step is
    /// open; otherwise re-judges the direction and takes any open orthogonal
    /// step.
    pub fn explore_for_ice(&mut self, world: &World, robot: &RobotStatus) -> (action: Option<
        InputAction,
    >)
        requires
            world.wf(),
            old(self).wf(),
            fits(robot.position, EXPLORATION_RANGE as int),
        ensures
            final(self).wf(),
            old(self).exploration(*final(self), *world, *robot, action),
    {
        let diagonal_sum: i64 = robot.position.x as i64 + robot.position.y as i64;
        if self.stuck_counter > 2 || diagonal_sum % 15 == 0 {
            self.exploration_direction = self.find_best_exploration_direction(world, robot);
        }
        let (dx, dy) = self.exploration_direction;
        if self.can_move(world, robot, dx, dy) {
            return self.move_direction(dx, dy);
        } else {
            let ghost before = *self;
            self.exploration_direction = self.find_best_exploration_direction(world, robot);
            proof {
                before.lemma_choice_depends_on_memory(
                    *old(self),
                    *world,
                    robot.position,
                    (dx, dy),
                    8,
                );
                assert(before.exploration_choice(*world, robot.position, (dx, dy))
                    == old(self).exploration_choice(*world, robot.position, (dx, dy)));
            }
            return self.try_any_move(world, robot);
        }
    }

    /// The judgement of exploration directions depends only on the memory of
    /// rocks and ice deposits.
    proof fn lemma_choice_depends_on_memory(
        self,
        other: RobotAI,
        world: World,
        from: Position,
        fallback: (i32, i32),
        k: nat,
    )
        requires
            self.known_obstacles@ == other.known_obstacles@,
            self.known_ice_locations@ == other.known_ice_locations@,
        ensures
            self.best_direction(world, from, fallback, k) == other.best_direction(
                world,
                from,
                fallback,
                k,
            ),
        decreases k,
    {
        if k > 0 {
            self.lemma_choice_depends_on_memory(other, world, from, fallback, (k - 1) as nat);
            let d = exploration_directions()[k - 1];
            self.lemma_ray_depends_on_memory(other, world, from, d.0 as int, d.1 as int, EXPLORATION_RANGE as nat);
        }
    }

    /// The score of a ray depends only on the memory of rocks.
    proof fn lemma_ray_depends_on_memory(
        self,
        other: RobotAI,
        world: World,
        from: Position,
        dx: int,
        dy: int,
        n: nat,
    )
        requires
            self.known_obstacles@ == other.known_obstacles@,
        ensures
            self.ray_score(world, from, dx, dy, n) == other.ray_score(world, from, dx, dy, n),
        decreases n,
    {
        if n > 0 {
            self.lemma_ray_depends_on_memory(other, world, from, dx, dy, (n - 1) as nat);
        }
    }

    /// The tiles within reach of the rays from `from` are explored, hold no
    /// ice and are not remembered as rock.
    pub open spec fn plain_surroundings(self, world: World, from: Position) -> bool {
        forall|p: Position|
            #![trigger from.dist_sq(p)]
            from.dist_sq(p) <= 2 * EXPLORATION_RANGE * EXPLORATION_RANGE ==> world.explored_at(p)
                && world.tile_at(p) != Some(TileType::Ice) && !self.knows_rock_at(p)
    }

    /// Over plain surroundings, every ray scores nothing.
    proof fn lemma_plain_ray_scores_zero(
        self,
        world: World,
        from: Position,
        dx: int,
        dy: int,
        n: nat,
    )
        requires
            self.plain_surroundings(world, from),
            fits(from, EXPLORATION_RANGE as int),
            -1 <= dx <= 1,
            -1 <= dy <= 1,
            n <= EXPLORATION_RANGE,
        ensures
            self.ray_score(world, from, dx, dy, n) == 0,
        decreases n,
    {
        if n > 0 {
            self.lemma_plain_ray_scores_zero(world, from, dx, dy, (n - 1) as nat);
            lemma_unit_times(dx, n as int);
            lemma_unit_times(dy, n as int);
            let p = step_target(from, dx * n, dy * n);
            assert(p.x == from.x + dx * n && p.y == from.y + dy * n);
            lemma_offset_dist(from, p, dx * n, dy * n);
            crate::world::lemma_square_bound(dx * n, n as int);
            crate::world::lemma_square_bound(dy * n, n as int);
            crate::world::lemma_square_bound(n as int, EXPLORATION_RANGE as int);
            assert(from.dist_sq(p) <= 2 * EXPLORATION_RANGE * EXPLORATION_RANGE);
        }
    }

    /// The best of the first `k` directions scores at least 0 and at least
    /// as much as each of them; when it scores above 0 it is one of them,
    /// with its own score.
    proof fn lemma_best_direction_is_best(self, world: World, from: Position, fallback: (i32, i32), k: nat)
        requires
            k <= 8,
        ensures
            ({
                let best = self.best_direction(world, from, fallback, k);
                &&& best.1 >= 0
                &&& forall|j: int|
                    0 <= j < k ==> best.1 >= self.direction_score(
                        world,
                        from,
                        #[trigger] exploration_directions()[j],
                    )
                &&& best.1 > 0 ==> exists|j: int|
                    0 <= j < k && #[trigger] exploration_directions()[j] == best.0 && best.1
                        == self.direction_score(world, from, best.0)
            }),
        decreases k,
    {
        if k > 0 {
            self.lemma_best_direction_is_best(world, from, fallback, (k - 1) as nat);
        }
    }

    /// Law: remembering one more ice deposit raises by 5 the score of exactly
    /// the directions heading towards it (positive dot product) and leaves
    /// the others unchanged.
    pub proof fn lemma_ice_raises_score(
        self,
        other: RobotAI,
        world: World,
        from: Position,
        d: (i32, i32),
        ice: Position,
    )
        requires
            other.known_obstacles@ == self.known_obstacles@,
            other.known_ice_locations@ == self.known_ice_locations@.push(ice),
        ensures
            other.direction_score(world, from, d) == self.direction_score(world, from, d) + if d.0 * (
            ice.x - from.x) + d.1 * (ice.y - from.y) > 0 {
                5int
            } else {
                0int
            },
    {
        self.lemma_ray_depends_on_memory(
            other,
            world,
            from,
            d.0 as int,
            d.1 as int,
            EXPLORATION_RANGE as nat,
        );
        assert(other.known_ice_locations@.drop_last() =~= self.known_ice_locations@);
    }

    /// Law: with plain surroundings (explored, no ice, no remembered rock
    /// within reach of the rays) and a remembered deposit away from the
    /// robot, the robot explores in a direction heading towards a
    /// remembered deposit (positive dot product).
    pub proof fn lemma_exploration_heads_for_remembered_ice(
        self,
        world: World,
        from: Position,
        fallback: (i32, i32),
        i: int,
    )
        requires
            self.plain_surroundings(world, from),
            fits(from, EXPLORATION_RANGE as int),
            0 <= i < self.known_ice_locations@.len(),
            self.known_ice_locations@[i] != from,
        ensures
            ({
                let d = self.exploration_choice(world, from, fallback);
                exists|j: int|
                    0 <= j < self.known_ice_locations@.len() && d.0 * (
                    #[trigger] self.known_ice_locations@[j].x - from.x) + d.1 * (
                    self.known_ice_locations@[j].y - from.y) > 0
            }),
    {
        let ices = self.known_ice_locations@;
        let q = ices[i];
        let dirs = exploration_directions();
        assert forall|j: int| 0 <= j < 8 implies self.direction_score(world, from, #[trigger] dirs[j])
            == ice_bonus(ices, from, dirs[j].0 as int, dirs[j].1 as int) by {
            self.lemma_plain_ray_scores_zero(
                world,
                from,
                dirs[j].0 as int,
                dirs[j].1 as int,
                EXPLORATION_RANGE as nat,
            );
        }
        let j: int = if q.y < from.y {
            0
        } else if q.x > from.x {
            1
        } else if q.y > from.y {
            2
        } else {
            3
        };
        lemma_ice_bonus_counts(ices, from, dirs[j].0 as int, dirs[j].1 as int);
        lemma_unit_times(dirs[j].0 as int, ices[i].x - from.x);
        lemma_unit_times(dirs[j].1 as int, ices[i].y - from.y);
        assert(dirs[j].0 * (ices[i].x - from.x) + dirs[j].1 * (ices[i].y - from.y) > 0);
        self.lemma_best_direction_is_best(world, from, fallback, 8);
        let best = self.best_direction(world, from, fallback, 8);
        assert(best.1 >= 5);
        let jb = choose|jb: int| 0 <= jb < 8 && #[trigger] dirs[jb] == best.0 && best.1
            == self.direction_score(world, from, best.0);
        lemma_ice_bonus_counts(ices, from, dirs[jb].0 as int, dirs[jb].1 as int);
    }

    /// A remembered deposit that `find_nearest_ice` may pick: not given up on
    /// (at most 2 failed attempts), still ice, not under the robot, and
    /// within `radius`.
    pub open spec fn known_ice_candidate(
        self,
        world: World,
        from: Position,
        radius: int,
        p: Position,
    ) -> bool {
        &&& self.failures_at(p) <= 2
        &&& world.tile_at(p) == Some(TileType::Ice)
        &&& 0 < from.dist_sq(p)
        &&& 0 <= radius
        &&& from.dist_sq(p) <= radius * radius
    }

    /// A visible deposit that `find_nearest_ice` may pick: ice within
    /// `radius`, not under the robot.
    pub open spec fn visible_ice_candidate(world: World, from: Position, radius: int, p: Position) -> bool {
        &&& world.tile_at(p) == Some(TileType::Ice)
        &&& 0 <= radius
        &&& 0 < from.dist_sq(p)
        &&& from.dist_sq(p) <= radius * radius
    }

    /// Any deposit that `find_nearest_ice` may pick.
    pub open spec fn ice_candidate(self, world: World, from: Position, radius: int, p: Position) -> bool {
        ||| (self.known_ice_locations@.contains(p) && self.known_ice_candidate(world, from, radius, p))
        ||| Self::visible_ice_candidate(world, from, radius, p)
    }

    /// `p` comes no later than `c` row by row: on an earlier row, or on the
    /// same row and not to the right.
    pub open spec fn row_first(p: Position, c: Position) -> bool {
        p.y < c.y || (p.y == c.y && p.x <= c.x)
    }

    /// `p` comes before `c` row by row: on an earlier row, or on the same
    /// row and to the left.
    pub open spec fn row_before(p: Position, c: Position) -> bool {
        p.y < c.y || (p.y == c.y && p.x < c.x)
    }

    /// Among the remembered candidates at the distance of `p`, `p` is met
    /// first in the list of remembered deposits.
    pub open spec fn first_known_at_distance(
        self,
        world: World,
        from: Position,
        radius: int,
        p: Position,
    ) -> bool {
        exists|jp: int|
            0 <= jp < self.known_ice_locations@.len() && #[trigger] self.known_ice_locations@[jp]
                == p && self.known_ice_candidate(world, from, radius, p) && forall|j: int|
                0 <= j < jp && self.known_ice_candidate(
                    world,
                    from,
                    radius,
                    #[trigger] self.known_ice_locations@[j],
                ) ==> from.dist_sq(self.known_ice_locations@[j]) != from.dist_sq(p)
    }

    /// How `find_nearest_ice` breaks ties among candidates at the distance
    /// of `p`: the remembered ones come first, in the order of the list;
    /// when none is remembered, the visible one met first row by row.
    pub open spec fn nearest_ice_tie(self, world: World, from: Position, radius: int, p: Position) -> bool {
        if exists|c: Position|
            #[trigger] self.known_ice_locations@.contains(c) && self.known_ice_candidate(
                world,
                from,
                radius,
                c,
            ) && from.dist_sq(c) == from.dist_sq(p) {
            self.first_known_at_distance(world, from, radius, p)
        } else {
            &&& Self::visible_ice_candidate(world, from, radius, p)
            &&& forall|c: Position|
                #[trigger] Self::visible_ice_candidate(world, from, radius, c) && from.dist_sq(c)
                    == from.dist_sq(p) ==> Self::row_first(p, c)
        }
    }

    /// `ice` is the deposit that the robot at `from` picks within `radius`:
    /// `None` exactly when there is no candidate; otherwise a candidate at
    /// the smallest distance, ties broken as `nearest_ice_tie` says.
    pub open spec fn ice_found(self, world: World, from: Position, radius: int, ice: Option<Position>) -> bool {
        &&& ice is None <==> forall|p: Position| !#[trigger] self.ice_candidate(world, from, radius, p)
        &&& ice matches Some(p) ==> self.ice_candidate(world, from, radius, p) && forall|c: Position|
            #[trigger] self.ice_candidate(world, from, radius, c) ==> from.dist_sq(p) <= from.dist_sq(c)
        &&& ice matches Some(p) ==> self.nearest_ice_tie(world, from, radius, p)
    }

    /// The nearest ice deposit within `radius`: among the remembered
    /// deposits not given up on and the ice visible within `radius`, one at
    /// the smallest distance, a remembered one first; `None` when there is
    /// none.
    #[verifier::rlimit(60)]
    #[verifier::spinoff_prover]
    pub fn find_nearest_ice(&self, world: &World, robot: &RobotStatus, radius: i32) -> (ice: Option<
        Position,
    >)
        requires
            world.wf(),
            radius <= 32767,
            radius >= 0 ==> fits(robot.position, radius as int),
        ensures
            self.ice_found(*world, robot.position, radius as int, ice),
    {
        let pos = robot.position;
        let ghost r = radius as int;
        let ghost list = self.known_ice_locations@;
        let mut best_ice: Option<Position> = None;
        let mut best_dist: u128 = 0;
        let radius_sq: u128 = if radius >= 0 {
            proof {
                assert(0 <= r * r <= 32767 * 32767) by (nonlinear_arith)
                    requires
                        0 <= r <= 32767,
                ;
            }
            (radius as u128) * (radius as u128)
        } else {
            0
        };
        let n = self.known_ice_locations.len();
        let mut i: usize = 0;
        while i < n
            invariant
                world.wf(),
                list == self.known_ice_locations@,
                n == list.len(),
                i <= n,
                r == radius,
                r >= 0 ==> radius_sq == r * r,
                pos == robot.position,
                best_ice matches Some(b) ==> best_dist == pos.dist_sq(b)
                    && self.known_ice_candidate(*world, pos, r, b) && exists|jb: int|
                    0 <= jb < i && #[trigger] list[jb] == b && forall|j: int|
                        0 <= j < jb && self.known_ice_candidate(*world, pos, r, #[trigger] list[j])
                            ==> best_dist < pos.dist_sq(list[j]),
                forall|j: int|
                    0 <= j < i && self.known_ice_candidate(*world, pos, r, #[trigger] list[j])
                        ==> best_ice is Some && best_dist <= pos.dist_sq(list[j]),
            decreases n - i,
        {
            let ice_pos = self.known_ice_locations[i];
            let ghost old_best = best_ice;
            let ghost old_dist = best_dist;
            i += 1;
            if self.failed_attempts(&ice_pos) > 2 {
                continue;
            }
            let dist = pos.distance_squared(&ice_pos);
            let closer = match best_ice {
                Some(_) => dist < best_dist,
                None => true,
            };
            if closer && dist > 0 && radius >= 0 && dist <= radius_sq {
                if let Some(TileType::Ice) = world.get_tile(&ice_pos) {
                    best_dist = dist;
                    best_ice = Some(ice_pos);
                    proof {
                        assert(list[i - 1] == ice_pos);
                        assert forall|j: int|
                            0 <= j < i - 1 && self.known_ice_candidate(*world, pos, r, #[trigger] list[j])
                                implies best_dist < pos.dist_sq(list[j]) by {
                            assert(old_best is Some && old_dist <= pos.dist_sq(list[j]));
                        }
                    }
                }
            }
        }
        let ghost mut from_known = best_ice is Some;
        if radius < 0 {
            return best_ice;
        }
        let mut dy: i32 = -radius;
        assert forall|p: Position|
            #[trigger] Self::visible_ice_candidate(*world, pos, r, p) && p.y < pos.y + dy implies best_ice
            is Some && best_dist <= pos.dist_sq(p) by {
            crate::progress::lemma_far_axis(pos.y - p.y, pos.x - p.x, r);
        }
        while dy <= radius
            invariant
                world.wf(),
                0 <= r <= 32767,
                r == radius,
                pos == robot.position,
                fits(pos, r),
                -r <= dy <= r + 1,
                list == self.known_ice_locations@,
                best_ice matches Some(b) ==> best_dist == pos.dist_sq(b) && self.ice_candidate(
                    *world,
                    pos,
                    r,
                    b,
                ),
                forall|j: int|
                    0 <= j < list.len() && self.known_ice_candidate(*world, pos, r, #[trigger] list[j])
                        ==> best_ice is Some && best_dist <= pos.dist_sq(list[j]),
                forall|p: Position|
                    #[trigger] Self::visible_ice_candidate(*world, pos, r, p) && p.y < pos.y + dy
                        ==> best_ice is Some && best_dist <= pos.dist_sq(p),
                from_known ==> (best_ice matches Some(b) && self.known_ice_candidate(*world, pos, r, b)
                    && exists|jb: int|
                    0 <= jb < list.len() && #[trigger] list[jb] == b && forall|j: int|
                        0 <= j < jb && self.known_ice_candidate(*world, pos, r, #[trigger] list[j])
                            ==> best_dist < pos.dist_sq(list[j])),
                !from_known ==> (best_ice matches Some(b) ==> Self::visible_ice_candidate(*world, pos, r, b)
                    && b.y < pos.y + dy && (forall|j: int|
                    0 <= j < list.len() && self.known_ice_candidate(*world, pos, r, #[trigger] list[j])
                        ==> best_dist < pos.dist_sq(list[j])) && forall|p: Position|
                    #[trigger] Self::visible_ice_candidate(*world, pos, r, p) && p.y < pos.y + dy
                        && pos.dist_sq(p) == best_dist ==> Self::row_first(b, p)),
                !from_known ==> best_ice is None ==> forall|j: int|
                    0 <= j < list.len() ==> !self.known_ice_candidate(*world, pos, r, #[trigger] list[j]),
            decreases r + 1 - dy,
        {
            let mut dx: i32 = -radius;
            assert forall|p: Position|
                #[trigger] Self::visible_ice_candidate(*world, pos, r, p) && (p.y < pos.y + dy || (p.y
                    == pos.y + dy && p.x < pos.x + dx)) implies best_ice is Some && best_dist
                <= pos.dist_sq(p) by {
                if p.y == pos.y + dy {
                    crate::progress::lemma_far_axis(pos.x - p.x, pos.y - p.y, r);
                }
            }
            assert forall|p: Position|
                #[trigger] Self::visible_ice_candidate(*world, pos, r, p) && (p.y < pos.y + dy || (p.y
                    == pos.y + dy && p.x < pos.x + dx)) implies p.y < pos.y + dy by {
                if p.y == pos.y + dy {
                    crate::progress::lemma_far_axis(pos.x - p.x, pos.y - p.y, r);
                }
            }
            while dx <= radius
                invariant
                    world.wf(),
                    0 <= r <= 32767,
                    r == radius,
                    pos == robot.position,
                    fits(pos, r),
                    -r <= dy <= r,
                    -r <= dx <= r + 1,
                    list == self.known_ice_locations@,
                    best_ice matches Some(b) ==> best_dist == pos.dist_sq(b) && self.ice_candidate(
                        *world,
                        pos,
                        r,
                        b,
                    ),
                    forall|j: int|
                        0 <= j < list.len() && self.known_ice_candidate(*world, pos, r, #[trigger] list[j])
                            ==> best_ice is Some && best_dist <= pos.dist_sq(list[j]),
                    forall|p: Position|
                        #[trigger] Self::visible_ice_candidate(*world, pos, r, p) && (p.y < pos.y + dy
                            || (p.y == pos.y + dy && p.x < pos.x + dx)) ==> best_ice is Some
                            && best_dist <= pos.dist_sq(p),
                    from_known ==> (best_ice matches Some(b) && self.known_ice_candidate(*world, pos, r, b)
                        && exists|jb: int|
                        0 <= jb < list.len() && #[trigger] list[jb] == b && forall|j: int|
                            0 <= j < jb && self.known_ice_candidate(*world, pos, r, #[trigger] list[j])
                                ==> best_dist < pos.dist_sq(list[j])),
                    !from_known ==> (best_ice matches Some(b) ==> Self::visible_ice_candidate(
                        *world,
                        pos,
                        r,
                        b,
                    ) && (b.y < pos.y + dy || (b.y == pos.y + dy && b.x < pos.x + dx)) && (forall|j: int|
                        0 <= j < list.len() && self.known_ice_candidate(*world, pos, r, #[trigger] list[j])
                            ==> best_dist < pos.dist_sq(list[j])) && forall|p: Position|
                        #[trigger] Self::visible_ice_candidate(*world, pos, r, p) && (p.y < pos.y + dy
                            || (p.y == pos.y + dy && p.x < pos.x + dx)) && pos.dist_sq(p) == best_dist
                            ==> Self::row_first(b, p)),
                    !from_known ==> best_ice is None ==> forall|j: int|
                        0 <= j < list.len() ==> !self.known_ice_candidate(*world, pos, r, #[trigger] list[j]),
                decreases r + 1 - dx,
            {
                proof {
                    crate::world::lemma_square_bound(dx as int, r);
                    crate::world::lemma_square_bound(dy as int, r);
                    assert(r * r <= 32767 * 32767) by (nonlinear_arith)
                        requires
                            0 <= r <= 32767,
                    ;
                }
                let cur_dx = dx;
                let ghost old_best = best_ice;
                let ghost old_dist = best_dist;
                dx += 1;
                let ghost q = Position { x: (pos.x + cur_dx) as i32, y: (pos.y + dy) as i32 };
                proof {
                    lemma_offset_dist(pos, q, cur_dx as int, dy as int);
                }
                if cur_dx * cur_dx + dy * dy > radius * radius {
                    assert(!Self::visible_ice_candidate(*world, pos, r, q));
                    continue;
                }
                let p = Position::new(pos.x + cur_dx, pos.y + dy);
                assert(p == q);
                if let Some(TileType::Ice) = world.get_tile(&p) {
                    let dist = pos.distance_squared(&p);
                    let closer = match best_ice {
                        Some(_) => dist < best_dist,
                        None => true,
                    };
                    if closer && dist > 0 {
                        best_dist = dist;
                        best_ice = Some(p);
                        proof {
                            from_known = false;
                        }
                    } else {
                        assert(!Self::visible_ice_candidate(*world, pos, r, q) || pos.dist_sq(q)
                            >= best_dist);
                    }
                } else {
                    assert(!Self::visible_ice_candidate(*world, pos, r, q));
                }
            }
            proof {
                assert forall|p: Position|
                    #[trigger] Self::visible_ice_candidate(*world, pos, r, p) && p.y < pos.y + dy + 1
                        implies p.y < pos.y + dy || (p.y == pos.y + dy && p.x < pos.x + dx) by {
                    if p.y == pos.y + dy && p.x >= pos.x + dx {
                        crate::progress::lemma_far_axis(pos.x - p.x, pos.y - p.y, r);
                    }
                }
            }
            dy += 1;
        }
        proof {
            assert forall|p: Position| #[trigger] Self::visible_ice_candidate(*world, pos, r, p) implies p.y
                < pos.y + dy by {
                if p.y >= pos.y + dy {
                    crate::progress::lemma_far_axis(pos.y - p.y, pos.x - p.x, r);
                }
            }
            assert forall|c: Position| #[trigger] self.ice_candidate(*world, pos, r, c) implies best_ice
                is Some && best_dist <= pos.dist_sq(c) by {
                if list.contains(c) && self.known_ice_candidate(*world, pos, r, c) {
                    let j = choose|j: int| 0 <= j < list.len() && list[j] == c;
                    assert(self.known_ice_candidate(*world, pos, r, list[j]));
                }
            }
            if best_ice is Some {
                let b = best_ice.unwrap();
                if from_known {
                    let jb = choose|jb: int|
                        0 <= jb < list.len() && #[trigger] list[jb] == b && forall|j: int|
                            0 <= j < jb && self.known_ice_candidate(*world, pos, r, #[trigger] list[j])
                                ==> best_dist < pos.dist_sq(list[j]);
                    assert(list.contains(b));
                    assert(self.first_known_at_distance(*world, pos, r, b));
                } else {
                    assert(!exists|c: Position|
                        #[trigger] list.contains(c) && self.known_ice_candidate(*world, pos, r, c)
                            && pos.dist_sq(c) == pos.dist_sq(b)) by {
                        if exists|c: Position|
                            #[trigger] list.contains(c) && self.known_ice_candidate(*world, pos, r, c)
                                && pos.dist_sq(c) == pos.dist_sq(b) {
                            let c = choose|c: Position|
                                #[trigger] list.contains(c) && self.known_ice_candidate(*world, pos, r, c)
                                    && pos.dist_sq(c) == pos.dist_sq(b);
                            let j = choose|j: int| 0 <= j < list.len() && list[j] == c;
                            assert(self.known_ice_candidate(*world, pos, r, list[j]));
                        }
                    }
                }
            }
        }
        best_ice
    }

    /// The autopilot's memory of `p` in the obstacle map of `m`: `Some(true)`
    /// for rock, `Some(false)` for open ground, `None` when unknown.
    pub open spec fn obstacle_entry(m: Map<u64, bool>, p: Position) -> Option<bool> {
        if m.contains_key(key_of(p)) {
            Some(m[key_of(p)])
        } else {
            None
        }
    }

    /// The memory update of `update_memory`, from `self` to `next`: every
    /// visible tile within 8 tiles other than ice is remembered as rock or
    /// open ground; the remembered deposits are those still ice, in their
    /// order, followed by the ice first seen within 8 tiles, row by row;
    /// nothing else changes.
    pub open spec fn memory_updated(self, next: RobotAI, world: World, robot: RobotStatus) -> bool {
        &&& next.exploration_direction == self.exploration_direction
        &&& next.stuck_counter == self.stuck_counter
        &&& next.last_position == self.last_position
        &&& next.unreachable_targets == self.unreachable_targets
        &&& next.current_path == self.current_path
        &&& next.path_target == self.path_target
        &&& forall|p: Position|
                    #[trigger] Self::obstacle_entry(next.known_obstacles@, p) == if pos_in_bounds(p)
                        && robot.position.dist_sq(p) <= MEMORY_RADIUS * MEMORY_RADIUS && world.tile_at(p)
                        != Some(TileType::Ice) {
                        Some(world.tile_at(p) == Some(TileType::Rock))
                    } else {
                        Self::obstacle_entry(self.known_obstacles@, p)
                    }
        &&& forall|p: Position|
                    #[trigger] next.known_ice_locations@.contains(p) <==> world.tile_at(p) == Some(
                        TileType::Ice,
                    ) && (self.known_ice_locations@.contains(p) || robot.position.dist_sq(p)
                        <= MEMORY_RADIUS * MEMORY_RADIUS)
        &&& self.known_ice_locations@.no_duplicates()
                    ==> next.known_ice_locations@.no_duplicates()
        &&& exists|fresh: Seq<Position>|
                    next.known_ice_locations@ == self.known_ice_locations@.filter(still_ice(world))
                        + fresh && #[trigger] Self::newly_seen_ice(
                        fresh,
                        self.known_ice_locations@,
                        world,
                        robot.position,
                    )
    }

    /// `fresh` lists the ice deposits first seen from `from`: exactly the
    /// ice within 8 tiles not among the `remembered` ones, row by row.
    pub open spec fn newly_seen_ice(
        fresh: Seq<Position>,
        remembered: Seq<Position>,
        world: World,
        from: Position,
    ) -> bool {
        &&& forall|p: Position|
            #[trigger] fresh.contains(p) <==> !remembered.contains(p) && from.dist_sq(p)
                <= MEMORY_RADIUS * MEMORY_RADIUS && world.tile_at(p) == Some(TileType::Ice)
        &&& forall|i: int, j: int|
            0 <= i < j < fresh.len() ==> Self::row_before(#[trigger] fresh[i], #[trigger] fresh[j])
    }

    /// Looks around the robot (8 tiles): remembers every visible tile other
    /// than ice as rock or open ground and every visible ice deposit, then
    /// forgets the remembered deposits that are no longer ice.
    pub fn update_memory(&mut self, world: &World, robot: &RobotStatus)
        requires
            world.wf(),
        ensures
            old(self).memory_updated(*final(self), *world, *robot),
    {
        let pos = robot.position;
        let r = MEMORY_RADIUS;
        let mut dy: i32 = -r;
        let ghost mut fresh: Seq<Position> = Seq::empty();
        let in_range: bool = pos.x >= i32::MIN + 8 && pos.x <= i32::MAX - 8 && pos.y >= i32::MIN + 8
            && pos.y <= i32::MAX - 8;
        if in_range {
            proof {
                assert forall|p: Position|
                    #[trigger] Self::obstacle_entry(self.known_obstacles@, p) == if pos_in_bounds(p)
                        && pos.dist_sq(p) <= 64 && world.tile_at(p) != Some(TileType::Ice) && p.y < pos.y + dy {
                        Some(world.tile_at(p) == Some(TileType::Rock))
                    } else {
                        Self::obstacle_entry(old(self).known_obstacles@, p)
                    } by {
                    if p.y < pos.y + dy {
                        crate::progress::lemma_far_axis(pos.y - p.y, pos.x - p.x, 8);
                    }
                }
                assert forall|p: Position|
                    #[trigger] fresh.contains(p) <==> !old(self).known_ice_locations@.contains(p) && pos.dist_sq(p)
                        <= 64 && world.tile_at(p) == Some(TileType::Ice) && p.y < pos.y + dy by {
                    if p.y < pos.y + dy {
                        crate::progress::lemma_far_axis(pos.y - p.y, pos.x - p.x, 8);
                    }
                }
                assert(self.known_ice_locations@ == old(self).known_ice_locations@ + fresh);
            }
            while dy <= r
                invariant
                    world.wf(),
                    r == MEMORY_RADIUS,
                    pos == robot.position,
                    fits(pos, 8),
                    -8 <= dy <= 9,
                    self.exploration_direction == old(self).exploration_direction,
                    self.stuck_counter == old(self).stuck_counter,
                    self.last_position == old(self).last_position,
                    self.unreachable_targets == old(self).unreachable_targets,
                    self.current_path == old(self).current_path,
                    self.path_target == old(self).path_target,
                    forall|p: Position|
                        #[trigger] Self::obstacle_entry(self.known_obstacles@, p) == if pos_in_bounds(p)
                            && pos.dist_sq(p) <= 64 && world.tile_at(p) != Some(TileType::Ice) && p.y < pos.y
                            + dy {
                            Some(world.tile_at(p) == Some(TileType::Rock))
                        } else {
                            Self::obstacle_entry(old(self).known_obstacles@, p)
                        },
                    self.known_ice_locations@ == old(self).known_ice_locations@ + fresh,
                    forall|p: Position|
                        #[trigger] fresh.contains(p) <==> !old(self).known_ice_locations@.contains(p)
                            && pos.dist_sq(p) <= 64 && world.tile_at(p) == Some(TileType::Ice) && p.y < pos.y
                            + dy,
                    forall|i: int, j: int|
                        0 <= i < j < fresh.len() ==> Self::row_before(#[trigger] fresh[i], #[trigger] fresh[j]),
                decreases 9 - dy,
            {
                let mut dx: i32 = -r;
                proof {
                    assert forall|p: Position|
                        #[trigger] Self::obstacle_entry(self.known_obstacles@, p) == if pos_in_bounds(p)
                            && pos.dist_sq(p) <= 64 && world.tile_at(p) != Some(TileType::Ice) && (p.y < pos.y + dy
                            || (p.y == pos.y + dy && p.x < pos.x + dx)) {
                            Some(world.tile_at(p) == Some(TileType::Rock))
                        } else {
                            Self::obstacle_entry(old(self).known_obstacles@, p)
                        } by {
                        if p.y == pos.y + dy && p.x < pos.x + dx {
                            crate::progress::lemma_far_axis(pos.x - p.x, pos.y - p.y, 8);
                        }
                    }
                    assert forall|p: Position|
                        #[trigger] fresh.contains(p) <==> !old(self).known_ice_locations@.contains(p)
                            && pos.dist_sq(p) <= 64 && world.tile_at(p) == Some(TileType::Ice) && (p.y < pos.y
                            + dy || (p.y == pos.y + dy && p.x < pos.x + dx)) by {
                        if p.y == pos.y + dy && p.x < pos.x + dx {
                            crate::progress::lemma_far_axis(pos.x - p.x, pos.y - p.y, 8);
                        }
                    }
                }
                while dx <= r
                    invariant
                        world.wf(),
                        r == MEMORY_RADIUS,
                        pos == robot.position,
                        fits(pos, 8),
                        -8 <= dy <= 8,
                        -8 <= dx <= 9,
                        self.exploration_direction == old(self).exploration_direction,
                        self.stuck_counter == old(self).stuck_counter,
                        self.last_position == old(self).last_position,
                        self.unreachable_targets == old(self).unreachable_targets,
                        self.current_path == old(self).current_path,
                        self.path_target == old(self).path_target,
                        forall|p: Position|
                            #[trigger] Self::obstacle_entry(self.known_obstacles@, p) == if pos_in_bounds(p)
                                && pos.dist_sq(p) <= 64 && world.tile_at(p) != Some(TileType::Ice) && (p.y
                                < pos.y + dy || (p.y == pos.y + dy && p.x < pos.x + dx)) {
                                Some(world.tile_at(p) == Some(TileType::Rock))
                            } else {
                                Self::obstacle_entry(old(self).known_obstacles@, p)
                            },
                        self.known_ice_locations@ == old(self).known_ice_locations@ + fresh,
                        forall|p: Position|
                            #[trigger] fresh.contains(p) <==> !old(self).known_ice_locations@.contains(p)
                                && pos.dist_sq(p) <= 64 && world.tile_at(p) == Some(TileType::Ice) && (p.y
                                < pos.y + dy || (p.y == pos.y + dy && p.x < pos.x + dx)),
                        forall|i: int, j: int|
                            0 <= i < j < fresh.len() ==> Self::row_before(#[trigger] fresh[i], #[trigger] fresh[j]),
                    decreases 9 - dx,
                {
                    let cur_dx = dx;
                    dx += 1;
                    proof {
                        crate::world::lemma_square_bound(cur_dx as int, 8);
                        crate::world::lemma_square_bound(dy as int, 8);
                    }
                    let here = Position::new(pos.x + cur_dx, pos.y + dy);
                    proof {
                        lemma_offset_dist(pos, here, cur_dx as int, dy as int);
                    }
                    let ghost before_obstacles = self.known_obstacles@;
                    let ghost before_fresh = fresh;
                    if cur_dx * cur_dx + dy * dy <= 64 {
                        match world.get_tile(&here) {
                            Some(tile) => {
                                let key = position_key(&here);
                                match tile {
                                    TileType::Rock => {
                                        self.known_obstacles.insert(key, true);
                                    },
                                    TileType::Ice => {
                                        proof {
                                            if fresh.contains(here) {
                                                let k = choose|k: int| 0 <= k < fresh.len() && fresh[k] == here;
                                                assert(fresh.contains(fresh[k]));
                                            }
                                            assert(self.known_ice_locations@.contains(here)
                                                == old(self).known_ice_locations@.contains(here)) by {
                                                if self.known_ice_locations@.contains(here)
                                                    && !old(self).known_ice_locations@.contains(here) {
                                                    let k = choose|k: int|
                                                        0 <= k < self.known_ice_locations@.len()
                                                            && self.known_ice_locations@[k] == here;
                                                    let ol = old(self).known_ice_locations@.len();
                                                    assert(fresh[k - ol] == here);
                                                }
                                                if old(self).known_ice_locations@.contains(here) {
                                                    let k = choose|k: int|
                                                        0 <= k < old(self).known_ice_locations@.len()
                                                            && old(self).known_ice_locations@[k] == here;
                                                    assert(self.known_ice_locations@[k] == here);
                                                }
                                            }
                                        }
                                        if !contains_position(&self.known_ice_locations, &here) {
                                            self.known_ice_locations.push(here);
                                            proof {
                                                fresh = fresh.push(here);
                                            }
                                        }
                                    },
                                    _ => {
                                        self.known_obstacles.insert(key, false);
                                    },
                                }
                            },
                            None => {},
                        }
                    }
                    proof {
                        assert forall|p: Position|
                            #[trigger] Self::obstacle_entry(self.known_obstacles@, p) == if pos_in_bounds(p)
                                && pos.dist_sq(p) <= 64 && world.tile_at(p) != Some(TileType::Ice) && (p.y
                                < pos.y + dy || (p.y == pos.y + dy && p.x < pos.x + dx)) {
                                Some(world.tile_at(p) == Some(TileType::Rock))
                            } else {
                                Self::obstacle_entry(old(self).known_obstacles@, p)
                            } by {
                            lemma_key_injective(p, here);
                            assert(Self::obstacle_entry(before_obstacles, p) == if pos_in_bounds(p)
                                && pos.dist_sq(p) <= 64 && world.tile_at(p) != Some(TileType::Ice) && (p.y
                                < pos.y + dy || (p.y == pos.y + dy && p.x < pos.x + cur_dx)) {
                                Some(world.tile_at(p) == Some(TileType::Rock))
                            } else {
                                Self::obstacle_entry(old(self).known_obstacles@, p)
                            });
                        }
                        assert forall|p: Position|
                            #[trigger] fresh.contains(p) <==> !old(self).known_ice_locations@.contains(p)
                                && pos.dist_sq(p) <= 64 && world.tile_at(p) == Some(TileType::Ice) && (p.y
                                < pos.y + dy || (p.y == pos.y + dy && p.x < pos.x + dx)) by {
                            assert(before_fresh.contains(p) <==> !old(self).known_ice_locations@.contains(p)
                                && pos.dist_sq(p) <= 64 && world.tile_at(p) == Some(TileType::Ice) && (p.y
                                < pos.y + dy || (p.y == pos.y + dy && p.x < pos.x + cur_dx)));
                            if fresh != before_fresh {
                                if p != here {
                                    if fresh.contains(p) {
                                        let j = choose|j: int| 0 <= j < fresh.len() && fresh[j] == p;
                                        assert(before_fresh[j] == p);
                                    }
                                    if before_fresh.contains(p) {
                                        let j = choose|j: int| 0 <= j < before_fresh.len() && before_fresh[j] == p;
                                        assert(fresh[j] == p);
                                    }
                                } else {
                                    assert(fresh[before_fresh.len() as int] == here);
                                }
                            }
                        }
                        assert forall|i: int, j: int|
                            0 <= i < j < fresh.len() implies Self::row_before(#[trigger] fresh[i], #[trigger] fresh[j]) by {
                            if fresh != before_fresh && j == before_fresh.len() {
                                assert(fresh[i] == before_fresh[i]);
                                assert(before_fresh.contains(before_fresh[i]));
                            } else if fresh != before_fresh {
                                assert(fresh[i] == before_fresh[i]);
                                assert(fresh[j] == before_fresh[j]);
                            }
                        }
                    }
                }
                proof {
                    assert forall|p: Position|
                        #[trigger] Self::obstacle_entry(self.known_obstacles@, p) == if pos_in_bounds(p)
                            && pos.dist_sq(p) <= 64 && world.tile_at(p) != Some(TileType::Ice) && p.y < pos.y + dy
                            + 1 {
                            Some(world.tile_at(p) == Some(TileType::Rock))
                        } else {
                            Self::obstacle_entry(old(self).known_obstacles@, p)
                        } by {
                        if p.y == pos.y + dy && p.x >= pos.x + dx {
                            crate::progress::lemma_far_axis(pos.x - p.x, pos.y - p.y, 8);
                        }
                    }
                    assert forall|p: Position|
                        #[trigger] fresh.contains(p) <==> !old(self).known_ice_locations@.contains(p)
                            && pos.dist_sq(p) <= 64 && world.tile_at(p) == Some(TileType::Ice) && p.y < pos.y
                            + dy + 1 by {
                        if p.y == pos.y + dy && p.x >= pos.x + dx {
                            crate::progress::lemma_far_axis(pos.x - p.x, pos.y - p.y, 8);
                        }
                    }
                }
                dy += 1;
            }
            proof {
                assert forall|p: Position|
                    #[trigger] Self::obstacle_entry(self.known_obstacles@, p) == if pos_in_bounds(p)
                        && pos.dist_sq(p) <= 64 && world.tile_at(p) != Some(TileType::Ice) {
                        Some(world.tile_at(p) == Some(TileType::Rock))
                    } else {
                        Self::obstacle_entry(old(self).known_obstacles@, p)
                    } by {
                    if p.y >= pos.y + dy {
                        crate::progress::lemma_far_axis(pos.y - p.y, pos.x - p.x, 8);
                    }
                }
                assert forall|p: Position|
                    #[trigger] fresh.contains(p) <==> !old(self).known_ice_locations@.contains(p)
                        && pos.dist_sq(p) <= 64 && world.tile_at(p) == Some(TileType::Ice) by {
                    if p.y >= pos.y + dy {
                        crate::progress::lemma_far_axis(pos.y - p.y, pos.x - p.x, 8);
                    }
                }
            }
        } else {
            proof {
                assert forall|p: Position| pos_in_bounds(p) implies #[trigger] pos.dist_sq(p) > 64 by {
                    if pos.x < i32::MIN + 8 || pos.x > i32::MAX - 8 {
                        crate::progress::lemma_far_axis(pos.x - p.x, pos.y - p.y, 8);
                    } else {
                        crate::progress::lemma_far_axis(pos.y - p.y, pos.x - p.x, 8);
                    }
                }
                assert forall|p: Position|
                    #[trigger] fresh.contains(p) <==> !old(self).known_ice_locations@.contains(p)
                        && pos.dist_sq(p) <= 64 && world.tile_at(p) == Some(TileType::Ice) by {
                    if world.tile_at(p) == Some(TileType::Ice) {
                        assert(pos_in_bounds(p));
                    }
                }
                assert(self.known_ice_locations@ == old(self).known_ice_locations@ + fresh);
                assert forall|p: Position|
                    #[trigger] Self::obstacle_entry(self.known_obstacles@, p) == if pos_in_bounds(p)
                        && pos.dist_sq(p) <= 64 && world.tile_at(p) != Some(TileType::Ice) {
                        Some(world.tile_at(p) == Some(TileType::Rock))
                    } else {
                        Self::obstacle_entry(old(self).known_obstacles@, p)
                    } by {
                    if pos_in_bounds(p) {
                        assert(pos.dist_sq(p) > 64);
                    }
                }
            }
        }
        proof {
            let ol = old(self).known_ice_locations@;
            assert forall|p: Position|
                #[trigger] self.known_ice_locations@.contains(p) <==> ol.contains(p) || (pos.dist_sq(p)
                    <= 64 && world.tile_at(p) == Some(TileType::Ice)) by {
                if self.known_ice_locations@.contains(p) && !ol.contains(p) {
                    let k = choose|k: int| 0 <= k < self.known_ice_locations@.len()
                        && self.known_ice_locations@[k] == p;
                    assert(fresh[k - ol.len()] == p);
                }
                if ol.contains(p) {
                    let k = choose|k: int| 0 <= k < ol.len() && ol[k] == p;
                    assert(self.known_ice_locations@[k] == p);
                }
                if fresh.contains(p) {
                    let k = choose|k: int| 0 <= k < fresh.len() && fresh[k] == p;
                    assert(self.known_ice_locations@[ol.len() + k] == p);
                }
            }
            if ol.no_duplicates() {
                assert forall|i: int, j: int|
                    0 <= i < self.known_ice_locations@.len() && 0 <= j < self.known_ice_locations@.len()
                        && i != j implies self.known_ice_locations@[i] != self.known_ice_locations@[j] by {
                    let l = self.known_ice_locations@;
                    if i < ol.len() && j >= ol.len() {
                        assert(fresh.contains(fresh[j - ol.len()]));
                    } else if j < ol.len() && i >= ol.len() {
                        assert(fresh.contains(fresh[i - ol.len()]));
                    } else if i >= ol.len() && j >= ol.len() {
                        if i < j {
                            assert(Self::row_before(fresh[i - ol.len()], fresh[j - ol.len()]));
                        } else {
                            assert(Self::row_before(fresh[j - ol.len()], fresh[i - ol.len()]));
                        }
                    }
                }
            }
            assert forall|i: int| 0 <= i < fresh.len() implies still_ice(*world)(#[trigger] fresh[i]) by {
                assert(fresh.contains(fresh[i]));
            }
            lemma_filter_keeps_all(fresh, still_ice(*world));
            Seq::filter_distributes_over_add(ol, fresh, still_ice(*world));
        }
        self.forget_collected_ice(world);
        proof {
            let ol = old(self).known_ice_locations@;
            assert(self.known_ice_locations@ == ol.filter(still_ice(*world)) + fresh);
            assert(Self::newly_seen_ice(fresh, ol, *world, pos));
        }
    }

    /// Keeps only the remembered deposits that are still ice, in order.
    fn forget_collected_ice(&mut self, world: &World)
        requires
            world.wf(),
        ensures
            final(self).exploration_direction == old(self).exploration_direction,
            final(self).stuck_counter == old(self).stuck_counter,
            final(self).last_position == old(self).last_position,
            final(self).known_obstacles == old(self).known_obstacles,
            final(self).unreachable_targets == old(self).unreachable_targets,
            final(self).current_path == old(self).current_path,
            final(self).path_target == old(self).path_target,
            forall|p: Position|
                #[trigger] final(self).known_ice_locations@.contains(p) <==> old(self).known_ice_locations@.contains(p)
                    && world.tile_at(p) == Some(TileType::Ice),
            old(self).known_ice_locations@.no_duplicates()
                ==> final(self).known_ice_locations@.no_duplicates(),
            final(self).known_ice_locations@ == old(self).known_ice_locations@.filter(
                still_ice(*world),
            ),
    {
        let mut kept: Vec<Position> = Vec::new();
        let n = self.known_ice_locations.len();
        let mut i: usize = 0;
        while i < n
            invariant
                world.wf(),
                n == self.known_ice_locations.len(),
                i <= n,
                forall|p: Position|
                    #[trigger] kept@.contains(p) <==> (exists|j: int|
                        0 <= j < i && #[trigger] self.known_ice_locations@[j] == p) && world.tile_at(p)
                        == Some(TileType::Ice),
                self.known_ice_locations@.no_duplicates() ==> kept@.no_duplicates(),
                kept@ == self.known_ice_locations@.take(i as int).filter(still_ice(*world)),
            decreases n - i,
        {
            let ice_pos = self.known_ice_locations[i];
            let ghost before = kept@;
            proof {
                let list = self.known_ice_locations@;
                assert(list.take(i + 1) == list.take(i as int).push(ice_pos));
                list.take(i as int).lemma_filter_push(ice_pos, still_ice(*world));
            }
            if let Some(TileType::Ice) = world.get_tile(&ice_pos) {
                proof {
                    if self.known_ice_locations@.no_duplicates() && before.contains(ice_pos) {
                        let j = choose|j: int| 0 <= j < i && #[trigger] self.known_ice_locations@[j] == ice_pos;
                        assert(self.known_ice_locations@[i as int] == ice_pos);
                    }
                }
                kept.push(ice_pos);
                proof {
                    assert forall|p: Position| #[trigger] kept@.contains(p) <==> (exists|j: int|
                        0 <= j < i + 1 && #[trigger] self.known_ice_locations@[j] == p) && world.tile_at(p)
                        == Some(TileType::Ice) by {
                        if kept@.contains(p) && p != ice_pos {
                            let k = choose|k: int| 0 <= k < kept@.len() && kept@[k] == p;
                            assert(before[k] == p);
                        }
                        if p == ice_pos {
                            assert(kept@[before.len() as int] == p);
                            assert(self.known_ice_locations@[i as int] == p);
                        }
                        if before.contains(p) {
                            let k = choose|k: int| 0 <= k < before.len() && before[k] == p;
                            assert(kept@[k] == p);
                        }
                    }
                }
            } else {
                proof {
                    assert forall|p: Position| #[trigger] kept@.contains(p) <==> (exists|j: int|
                        0 <= j < i + 1 && #[trigger] self.known_ice_locations@[j] == p) && world.tile_at(p)
                        == Some(TileType::Ice) by {
                        if p == ice_pos {
                        } else if (exists|j: int| 0 <= j < i + 1 && #[trigger] self.known_ice_locations@[j] == p) {
                            let j = choose|j: int| 0 <= j < i + 1 && #[trigger] self.known_ice_locations@[j] == p;
                            assert(j < i);
                        }
                    }
                }
            }
            i += 1;
        }
        proof {
            assert(self.known_ice_locations@.take(n as int) == self.known_ice_locations@);
            assert forall|p: Position| #[trigger] kept@.contains(p) <==> self.known_ice_locations@.contains(p)
                && world.tile_at(p) == Some(TileType::Ice) by {
                if self.known_ice_locations@.contains(p) {
                    let j = choose|j: int| 0 <= j < n && self.known_ice_locations@[j] == p;
                    assert(exists|j: int| 0 <= j < n && #[trigger] self.known_ice_locations@[j] == p);
                }
            }
        }
        self.known_ice_locations = kept;
    }
}

impl RobotAI {
    /// What the autopilot concludes from where the robot stands now: moving
    /// resets the stuck count; standing still counts up, and from the fourth
    /// time in a row the robot turns a quarter, drops its path and counts a
    /// failed attempt at the path's target; from the seventh time it also
    /// picks a direction from its position and starts counting afresh.
    pub open spec fn progress_tracked(self, next: RobotAI, position: Position) -> bool {
        &&& next.known_ice_locations == self.known_ice_locations
        &&& next.known_obstacles == self.known_obstacles
        &&& if position != self.last_position {
            &&& next.stuck_counter == 0
            &&& next.last_position == position
            &&& next.exploration_direction == self.exploration_direction
            &&& next.unreachable_targets == self.unreachable_targets
            &&& next.current_path == self.current_path
            &&& next.path_target == self.path_target
        } else {
            let count = self.stuck_counter + 1;
            &&& next.last_position == self.last_position
            &&& if count <= STUCK_TURN {
                &&& next.stuck_counter == count
                &&& next.exploration_direction == self.exploration_direction
                &&& next.unreachable_targets == self.unreachable_targets
                &&& next.current_path == self.current_path
                &&& next.path_target == self.path_target
            } else {
                &&& next.current_path@.len() == 0
                &&& next.path_target is None
                &&& next.unreachable_targets@ == match self.path_target {
                    Some(t) => self.unreachable_targets@.insert(
                        key_of(t),
                        (self.failures_at(t) + 1) as u32,
                    ),
                    None => self.unreachable_targets@,
                }
                &&& if count <= STUCK_RESET {
                    &&& next.stuck_counter == count
                    &&& next.exploration_direction == quarter_turn(self.exploration_direction)
                } else {
                    &&& next.stuck_counter == 0
                    &&& next.exploration_direction == orthogonal_direction(
                        (position.x + position.y) % 4,
                    )
                }
            }
        }
    }

    /// Notes where the robot stands at a decision and reacts to it being
    /// stuck (see `progress_tracked`).
    pub fn track_progress(&mut self, position: Position)
        requires
            old(self).wf(),
            position == old(self).last_position && old(self).stuck_counter >= STUCK_TURN
                ==> (old(self).path_target matches Some(t) ==> old(self).failures_at(t) < u32::MAX),
        ensures
            final(self).wf(),
            old(self).progress_tracked(*final(self), position),
    {
        if position == self.last_position {
            self.stuck_counter += 1;
            if self.stuck_counter > STUCK_TURN {
                self.exploration_direction = self.rotate_direction(self.exploration_direction);
                self.current_path.clear();
                if let Some(target) = self.path_target {
                    let key = position_key(&target);
                    let count = self.failed_attempts(&target);
                    self.unreachable_targets.insert(key, count + 1);
                }
                self.path_target = None;
                if self.stuck_counter > STUCK_RESET {
                    self.stuck_counter = 0;
                    let sum: i64 = position.x as i64 + position.y as i64;
                    let rem: i64 = sum % 4;
                    let index: i64 = if rem < 0 { rem + 4 } else { rem };
                    let directions: [(i32, i32); 4] = [(0, -1), (1, 0), (0, 1), (-1, 0)];
                    assert(index == (position.x + position.y) % 4);
                    self.exploration_direction = directions[index as usize];
                }
            }
        } else {
            self.stuck_counter = 0;
            self.last_position = position;
        }
    }
}

/// The charge level (in energy points) the autopilot waits for at a
/// charger before leaving: 95 at night; by day 50 when the nearest ice is
/// at most 3 tiles away, 70 when it is at most 8 tiles away, 85 otherwise.
/// `nearest_ice_dist_sq` is the squared distance to that ice, if any.
pub fn required_charge(is_night: bool, nearest_ice_dist_sq: Option<u128>) -> (level: u32)
    ensures
        level == if is_night {
            95u32
        } else {
            match nearest_ice_dist_sq {
                Some(d) => if d <= 9 {
                    50u32
                } else if d <= 64 {
                    70u32
                } else {
                    85u32
                },
                None => 85u32,
            }
        },
{
    if is_night {
        95
    } else {
        match nearest_ice_dist_sq {
            Some(d) => {
                if d <= 9 {
                    50
                } else if d <= 64 {
                    70
                } else {
                    85
                }
            },
            None => 85,
        }
    }
}

/// Law: four quarter turns bring an orthogonal direction back to itself.
pub proof fn lemma_quarter_turns_cycle(i: int)
    requires
        0 <= i < 4,
    ensures
        quarter_turn(quarter_turn(quarter_turn(quarter_turn(orthogonal_direction(i)))))
            == orthogonal_direction(i),
        quarter_turn(orthogonal_direction(i)) == orthogonal_direction((i + 1) % 4),
{
}

/// Law: every one-tile step has a move action, which keeps the horizontal
/// part of a diagonal step; an orthogonal step moves exactly that way.
pub proof fn lemma_step_actions(dx: int, dy: int)
    requires
        unit_step(dx, dy),
    ensures
        dy == 0 ==> direction_action(dx, dy) == (if dx > 0 {
            InputAction::MoveRight
        } else {
            InputAction::MoveLeft
        }),
        dx == 0 ==> direction_action(dx, dy) == (if dy > 0 {
            InputAction::MoveDown
        } else {
            InputAction::MoveUp
        }),
        dx != 0 ==> direction_action(dx, dy) == direction_action(dx, 0),
{
}

/// What the autopilot reads of the robot's battery and of the clock, as
/// plain facts.
#[derive(Clone, Copy, PartialEq, Eq, Debug, Structural)]
pub struct PilotReadings {
    /// The night has begun (second half of the day).
    pub is_night: bool,
    /// The battery's energy, rounded down to whole points.
    pub energy_units: u32,
    /// The energy is below what the way to the nearest charger takes (1.2
    /// points per tile of distance, plus 5).
    pub energy_low: bool,
    /// The energy is above 60 points, enough to build a station.
    pub energy_for_building: bool,
    /// The robot is more than 30 tiles farther from the base than where it
    /// built its last station.
    pub far_from_last_station: bool,
}

/// The charge level the autopilot waits for at a charger when the nearest
/// ice within 12 tiles is `ice` (see `required_charge`).
pub open spec fn charge_level(is_night: bool, from: Position, ice: Option<Position>) -> u32 {
    if is_night {
        95
    } else {
        match ice {
            Some(p) => if from.dist_sq(p) <= 9 {
                50
            } else if from.dist_sq(p) <= 64 {
                70
            } else {
                85
            },
            None => 85,
        }
    }
}

impl RobotAI {
    /// The robot stands at a charger and waits there: its energy is below
    /// the charge level for the nearest ice within 12 tiles.
    pub open spec fn waits_to_charge(self, world: World, robot: RobotStatus, readings: PilotReadings) -> bool {
        &&& world.recharges_at(robot.position)
        &&& exists|ice: Option<Position>|
            #[trigger] self.ice_found(world, robot.position, 12, ice) && readings.energy_units
                < charge_level(readings.is_night, robot.position, ice)
    }

    /// The robot builds a charging station where it stands: the spot allows
    /// it, fewer than 40 stations exist, the battery holds more than 60
    /// points, the nearest charger is more than 30 tiles away, every
    /// station, booting or not, is at least 15 tiles away, the robot is
    /// more than 30 tiles beyond its last station and more than 35 tiles
    /// from the base.
    pub open spec fn builds_station(
        self,
        world: World,
        robot: RobotStatus,
        readings: PilotReadings,
        charger: Position,
    ) -> bool {
        &&& world.can_place(robot.position)
        &&& world.charging_stations.len() < 40
        &&& readings.energy_for_building
        &&& robot.position.dist_sq(charger) > 30 * 30
        &&& clear_of_stations(world, robot.position)
        &&& readings.far_from_last_station
        &&& robot.position.dist_sq(world.base_position) > 35 * 35
    }

    /// One decision of the autopilot, from `self` to `next`, by priority:
    /// collect ice underfoot; bring 3 or more samples to the base; wait at a
    /// charger until charged enough; head for the nearest charger when the
    /// energy is low; build a station; head for the nearest ice within 8
    /// tiles; explore.
    pub open spec fn behavior(
        self,
        next: RobotAI,
        world: World,
        robot: RobotStatus,
        ice_samples: u32,
        readings: PilotReadings,
        action: Option<InputAction>,
    ) -> bool {
        let charger = nearest_charger(
            world.charging_stations@,
            robot.position,
            world.base_position,
        );
        if world.tile_at(robot.position) == Some(TileType::Ice) {
            action == Some(InputAction::Collect) && next == self
        } else if ice_samples >= 3 {
            self.navigation(next, world, robot, world.base_position, action)
        } else if self.waits_to_charge(world, robot, readings) {
            action is None && next == self
        } else if readings.energy_low {
            self.navigation(next, world, robot, charger, action)
        } else if self.builds_station(world, robot, readings, charger) {
            action == Some(InputAction::PlaceChargingStation) && next == self
        } else if exists|ice: Position| #[trigger] self.ice_found(world, robot.position, 8, Some(ice)) {
            exists|ice: Position|
                #[trigger] self.ice_found(world, robot.position, 8, Some(ice)) && self.navigation(
                    next,
                    world,
                    robot,
                    ice,
                    action,
                )
        } else {
            self.exploration(next, world, robot, action)
        }
    }

    /// Law: a robot low on energy (not on ice, carrying fewer than 3
    /// samples, not waiting at a charger) heads for a place where it
    /// recharges, the base or an operational station, and for no place
    /// farther than the base or than any operational station.
    pub proof fn lemma_low_energy_heads_for_nearest_charger(
        self,
        next: RobotAI,
        world: World,
        robot: RobotStatus,
        ice_samples: u32,
        readings: PilotReadings,
        action: Option<InputAction>,
    )
        requires
            self.behavior(next, world, robot, ice_samples, readings, action),
            world.tile_at(robot.position) != Some(TileType::Ice),
            ice_samples < 3,
            !self.waits_to_charge(world, robot, readings),
            readings.energy_low,
        ensures
            exists|c: Position|
                #[trigger] self.navigation(next, world, robot, c, action) && world.recharges_at(c)
                    && robot.position.dist_sq(c) <= robot.position.dist_sq(world.base_position)
                    && forall|i: int|
                    0 <= i < world.charging_stations.len()
                        && #[trigger] world.charging_stations@[i].operational() ==> robot.position.dist_sq(
                        c,
                    ) <= robot.position.dist_sq(world.charging_stations@[i].position),
    {
        let stations = world.charging_stations@;
        let c = nearest_charger(stations, robot.position, world.base_position);
        lemma_nearest_charger_is_nearest(stations, robot.position, world.base_position);
        if c != world.base_position {
            let i = choose|i: int|
                0 <= i < stations.len() && #[trigger] stations[i].position == c
                    && stations[i].operational();
            assert(world.charging_stations@[i].position == c && world.charging_stations@[i].operational());
        }
        assert(self.navigation(next, world, robot, c, action));
    }

    /// The action of a navigation or exploration step is no move at all or
    /// a move.
    proof fn lemma_steps_only_move(
        self,
        next: RobotAI,
        world: World,
        robot: RobotStatus,
        target: Position,
        action: Option<InputAction>,
    )
        requires
            self.navigation(next, world, robot, target, action) || self.exploration(
                next,
                world,
                robot,
                action,
            ),
        ensures
            action != Some(InputAction::PlaceChargingStation),
            action != Some(InputAction::Collect),
    {
        reveal_with_fuel(first_open, 5);
    }

    /// Law: the autopilot builds a station only where one may stand, at
    /// least 15 tiles from every station, more than 30 tiles from the base
    /// and from every operational station, and more than 35 tiles from the
    /// base, with energy to spare, fewer than 40 stations, and more than 30
    /// tiles beyond its last station.
    pub proof fn lemma_builds_only_where_stations_are_far(
        self,
        next: RobotAI,
        world: World,
        robot: RobotStatus,
        ice_samples: u32,
        readings: PilotReadings,
    )
        requires
            self.behavior(
                next,
                world,
                robot,
                ice_samples,
                readings,
                Some(InputAction::PlaceChargingStation),
            ),
        ensures
            world.can_place(robot.position),
            forall|i: int|
                0 <= i < world.charging_stations.len() ==> robot.position.dist_sq(
                    #[trigger] world.charging_stations@[i].position,
                ) >= 15 * 15,
            forall|i: int|
                0 <= i < world.charging_stations.len()
                    && #[trigger] world.charging_stations@[i].operational() ==> robot.position.dist_sq(
                    world.charging_stations@[i].position,
                ) > 30 * 30,
            robot.position.dist_sq(world.base_position) > 35 * 35,
            readings.energy_for_building,
            readings.far_from_last_station,
            world.charging_stations.len() < 40,
    {
        let action = Some(InputAction::PlaceChargingStation);
        let stations = world.charging_stations@;
        let c = nearest_charger(stations, robot.position, world.base_position);
        lemma_nearest_charger_is_nearest(stations, robot.position, world.base_position);
        if world.tile_at(robot.position) != Some(TileType::Ice) && ice_samples < 3 && !self.waits_to_charge(
            world,
            robot,
            readings,
        ) && !readings.energy_low && !self.builds_station(world, robot, readings, c) {
            if exists|ice: Position| #[trigger] self.ice_found(world, robot.position, 8, Some(ice)) {
                let ice = choose|ice: Position|
                    #[trigger] self.ice_found(world, robot.position, 8, Some(ice)) && self.navigation(
                        next,
                        world,
                        robot,
                        ice,
                        action,
                    );
                self.lemma_steps_only_move(next, world, robot, ice, action);
            } else {
                self.lemma_steps_only_move(next, world, robot, c, action);
            }
        } else if world.tile_at(robot.position) != Some(TileType::Ice) && ice_samples >= 3 {
            self.lemma_steps_only_move(next, world, robot, world.base_position, action);
        } else if world.tile_at(robot.position) != Some(TileType::Ice) && ice_samples < 3
            && !self.waits_to_charge(world, robot, readings) && readings.energy_low {
            self.lemma_steps_only_move(next, world, robot, c, action);
        }
    }

    /// Law: the autopilot collects exactly when the robot stands on ice.
    pub proof fn lemma_collects_exactly_on_ice(
        self,
        next: RobotAI,
        world: World,
        robot: RobotStatus,
        ice_samples: u32,
        readings: PilotReadings,
        action: Option<InputAction>,
    )
        requires
            self.behavior(next, world, robot, ice_samples, readings, action),
        ensures
            (action == Some(InputAction::Collect)) == (world.tile_at(robot.position) == Some(
                TileType::Ice,
            )),
    {
        let stations = world.charging_stations@;
        let c = nearest_charger(stations, robot.position, world.base_position);
        if world.tile_at(robot.position) != Some(TileType::Ice) {
            if ice_samples >= 3 {
                self.lemma_steps_only_move(next, world, robot, world.base_position, action);
            } else if !self.waits_to_charge(world, robot, readings) && readings.energy_low {
                self.lemma_steps_only_move(next, world, robot, c, action);
            } else if !self.waits_to_charge(world, robot, readings) && !self.builds_station(
                world,
                robot,
                readings,
                c,
            ) {
                if exists|ice: Position| #[trigger] self.ice_found(world, robot.position, 8, Some(ice)) {
                    let ice = choose|ice: Position|
                        #[trigger] self.ice_found(world, robot.position, 8, Some(ice))
                            && self.navigation(next, world, robot, ice, action);
                    self.lemma_steps_only_move(next, world, robot, ice, action);
                } else {
                    self.lemma_steps_only_move(next, world, robot, c, action);
                }
            }
        }
    }

    /// Law: a deposit found within `radius` is ice, not under the robot, and
    /// no farther than `radius`.
    pub proof fn lemma_found_ice_within_radius(
        self,
        world: World,
        from: Position,
        radius: int,
        p: Position,
    )
        requires
            self.ice_found(world, from, radius, Some(p)),
        ensures
            world.tile_at(p) == Some(TileType::Ice),
            0 < from.dist_sq(p) <= radius * radius,
    {
    }

    /// The deposit found within a radius is unique.
    proof fn lemma_ice_found_unique(
        self,
        world: World,
        from: Position,
        radius: int,
        a: Option<Position>,
        b: Option<Position>,
    )
        requires
            self.ice_found(world, from, radius, a),
            self.ice_found(world, from, radius, b),
        ensures
            a == b,
    {
        if a is Some && b is Some {
            let p = a.unwrap();
            let q = b.unwrap();
            assert(self.ice_candidate(world, from, radius, p));
            assert(self.ice_candidate(world, from, radius, q));
            assert(from.dist_sq(p) == from.dist_sq(q));
            let list = self.known_ice_locations@;
            if exists|c: Position|
                #[trigger] list.contains(c) && self.known_ice_candidate(world, from, radius, c)
                    && from.dist_sq(c) == from.dist_sq(p) {
                let jp = choose|jp: int|
                    0 <= jp < list.len() && #[trigger] list[jp] == p && self.known_ice_candidate(
                        world,
                        from,
                        radius,
                        p,
                    ) && forall|j: int|
                        0 <= j < jp && self.known_ice_candidate(world, from, radius, #[trigger] list[j])
                            ==> from.dist_sq(list[j]) != from.dist_sq(p);
                let jq = choose|jq: int|
                    0 <= jq < list.len() && #[trigger] list[jq] == q && self.known_ice_candidate(
                        world,
                        from,
                        radius,
                        q,
                    ) && forall|j: int|
                        0 <= j < jq && self.known_ice_candidate(world, from, radius, #[trigger] list[j])
                            ==> from.dist_sq(list[j]) != from.dist_sq(q);
                if jp < jq {
                    assert(self.known_ice_candidate(world, from, radius, list[jp]));
                } else if jq < jp {
                    assert(self.known_ice_candidate(world, from, radius, list[jq]));
                }
            } else {
                assert(Self::visible_ice_candidate(world, from, radius, p));
                assert(Self::visible_ice_candidate(world, from, radius, q));
                assert(Self::row_first(p, q) && Self::row_first(q, p));
            }
        } else if a is Some {
            assert(self.ice_candidate(world, from, radius, a.unwrap()));
        } else if b is Some {
            assert(self.ice_candidate(world, from, radius, b.unwrap()));
        }
    }

    /// Decides what the autopilot does next (see `behavior`).
    pub fn decide_behavior(
        &mut self,
        world: &World,
        robot: &RobotStatus,
        ice_samples: u32,
        readings: &PilotReadings,
    ) -> (action: Option<InputAction>)
        requires
            world.wf(),
            old(self).wf(),
            fits(robot.position, EXPLORATION_RANGE as int),
        ensures
            final(self).wf(),
            old(self).behavior(*final(self), *world, *robot, ice_samples, *readings, action),
    {
        if let Some(TileType::Ice) = world.get_tile(&robot.position) {
            return Some(InputAction::Collect);
        }
        if ice_samples >= 3 {
            return self.return_to_base(world, robot);
        }
        let nearest_charger = self.find_nearest_charger(world, robot);
        if world.is_recharge_point(&robot.position) {
            let nearby_ice = self.find_nearest_ice(world, robot, 12);
            let nearby_dist = match nearby_ice {
                Some(ice) => Some(robot.position.distance_squared(&ice)),
                None => None,
            };
            let min_charge = required_charge(readings.is_night, nearby_dist);
            assert(min_charge == charge_level(readings.is_night, robot.position, nearby_ice));
            if readings.energy_units < min_charge {
                return None;
            }
            proof {
                assert forall|ice: Option<Position>| #[trigger]
                    self.ice_found(*world, robot.position, 12, ice) implies !(readings.energy_units
                    < charge_level(readings.is_night, robot.position, ice)) by {
                    self.lemma_ice_found_unique(*world, robot.position, 12, nearby_ice, ice);
                }
            }
        }
        if readings.energy_low {
            return self.navigate_to(world, robot, nearest_charger);
        }
        let should_build_station = world.can_place_charging_station(&robot.position)
            && world.charging_stations.len() < 40 && readings.energy_for_building
            && robot.position.distance_squared(&nearest_charger) > 900
            && far_from_every_station(world, &robot.position)
            && readings.far_from_last_station && robot.position.distance_squared(
            &world.base_position,
        ) > 1225;
        if should_build_station {
            return Some(InputAction::PlaceChargingStation);
        }
        match self.find_nearest_ice(world, robot, 8) {
            Some(ice_pos) => {
                return self.navigate_to(world, robot, ice_pos);
            },
            None => {
                assert(!exists|ice: Position| #[trigger] self.ice_found(*world, robot.position, 8, Some(ice))) by {
                    if exists|ice: Position| #[trigger] self.ice_found(*world, robot.position, 8, Some(ice)) {
                        let ice = choose|ice: Position| #[trigger] self.ice_found(*world, robot.position, 8, Some(ice));
                        assert(self.ice_candidate(*world, robot.position, 8, ice));
                    }
                }
            },
        }
        self.explore_for_ice(world, robot)
    }
}

impl RobotAI {
    /// One decision step of the autopilot, from `self` to `next`: it first
    /// updates its memory (`seen`), then notes whether the robot moved
    /// (`noted`), then decides by priority.
    pub open spec fn decision(
        self,
        next: RobotAI,
        world: World,
        robot: RobotStatus,
        ice_samples: u32,
        readings: PilotReadings,
        action: Option<InputAction>,
    ) -> bool {
        exists|seen: RobotAI, noted: RobotAI|
            #![trigger self.memory_updated(seen, world, robot), seen.progress_tracked(noted, robot.position)]
            self.memory_updated(seen, world, robot) && seen.progress_tracked(
                noted,
                robot.position,
            ) && noted.behavior(next, world, robot, ice_samples, readings, action)
    }

    /// Decides what the robot does next: remembers what it sees, reacts to
    /// being stuck, then follows its priorities (see `behavior`).
    pub fn decide_action(
        &mut self,
        world: &World,
        robot: &RobotStatus,
        ice_samples: u32,
        readings: &PilotReadings,
    ) -> (action: Option<InputAction>)
        requires
            world.wf(),
            old(self).wf(),
            fits(robot.position, EXPLORATION_RANGE as int),
            robot.position == old(self).last_position && old(self).stuck_counter >= STUCK_TURN
                ==> (old(self).path_target matches Some(t) ==> old(self).failures_at(t) < u32::MAX),
        ensures
            final(self).wf(),
            old(self).decision(*final(self), *world, *robot, ice_samples, *readings, action),
    {
        self.update_memory(world, robot);
        let ghost seen = *self;
        self.track_progress(robot.position);
        let ghost noted = *self;
        let action = self.decide_behavior(world, robot, ice_samples, readings);
        assert(old(self).memory_updated(seen, *world, *robot) && seen.progress_tracked(
            noted,
            robot.position,
        ));
        action
    }
}

/// Filtering keeps a sequence whose items all pass the filter.
proof fn lemma_filter_keeps_all(s: Seq<Position>, pred: spec_fn(Position) -> bool)
    requires
        forall|i: int| 0 <= i < s.len() ==> pred(#[trigger] s[i]),
    ensures
        s.filter(pred) == s,
    decreases s.len(),
{
    reveal(Seq::filter);
    if s.len() > 0 {
        lemma_filter_keeps_all(s.drop_last(), pred);
        assert(s.drop_last().push(s.last()) == s);
    }
}

/// Whether `p` is still an ice deposit in `world`.
pub open spec fn still_ice(world: World) -> spec_fn(Position) -> bool {
    |p: Position| world.tile_at(p) == Some(TileType::Ice)
}

/// How close, in tiles, the autopilot builds a station to another one at
/// the least.
pub const STATION_SPACING: i32 = 15;

/// Every charging station of `world`, booting or not, stands at least
/// `STATION_SPACING` tiles from `p`.
pub open spec fn clear_of_stations(world: World, p: Position) -> bool {
    forall|i: int|
        0 <= i < world.charging_stations.len() ==> p.dist_sq(
            #[trigger] world.charging_stations@[i].position,
        ) >= STATION_SPACING * STATION_SPACING
}

/// Whether every charging station stands at least `STATION_SPACING` tiles
/// from `p`.
fn far_from_every_station(world: &World, p: &Position) -> (b: bool)
    ensures
        b == clear_of_stations(*world, *p),
{
    let n = world.charging_stations.len();
    let mut i: usize = 0;
    while i < n
        invariant
            n == world.charging_stations.len(),
            i <= n,
            forall|j: int|
                0 <= j < i ==> p.dist_sq(#[trigger] world.charging_stations@[j].position)
                    >= STATION_SPACING * STATION_SPACING,
        decreases n - i,
    {
        if p.distance_squared(&world.charging_stations[i].position) < (STATION_SPACING
            * STATION_SPACING) as u128 {
            return false;
        }
        i += 1;
    }
    true
}

/// Whether `p` occurs in `positions`.
fn contains_position(positions: &Vec<Position>, p: &Position) -> (b: bool)
    ensures
        b == positions@.contains(*p),
{
    let mut i: usize = 0;
    while i < positions.len()
        invariant
            i <= positions.len(),
            forall|j: int| 0 <= j < i ==> positions@[j] != *p,
        decreases positions.len() - i,
    {
        if positions[i] == *p {
            assert(positions@[i as int] == *p);
            return true;
        }
        i += 1;
    }
    false
}

} // verus!
