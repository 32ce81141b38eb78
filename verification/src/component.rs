//! The attributes of a unit, and the unit that holds them.
//!
//! Lengths, coordinates and speeds are fixed-point integers (see
//! [`crate::fixed`]).
use vstd::prelude::*;
use crate::fixed::{COORD_LIMIT, RADIUS_LIMIT, SPEED_LIMIT};

verus! {

/// What a unit is doing.
#[derive(Clone, Copy, Debug, PartialEq, Eq, Structural)]
pub enum UnitState {
    /// At rest near its target.
    Idle,
    /// Steering toward its target.
    Move,
    /// Standing its ground until told otherwise.
    Hold,
}

/// The player who owns a unit or gives a command.
#[derive(Clone, Copy, Debug, PartialEq, Eq, Structural)]
pub struct Player {
    pub handle: usize,
}

/// Where a unit is.
#[derive(Clone, Copy, Debug, PartialEq, Eq, Structural)]
pub struct Position {
    pub x: i64,
    pub y: i64,
}

/// Distance covered per second.
#[derive(Clone, Copy, Debug, PartialEq, Eq, Structural)]
pub struct Velocity {
    pub x: i64,
    pub y: i64,
}

/// Where a unit wants to be.
#[derive(Clone, Copy, Debug, PartialEq, Eq, Structural)]
pub struct TargetPosition {
    pub x: i64,
    pub y: i64,
}

/// The radius of the circle a unit fills.
#[derive(Clone, Copy, Debug, PartialEq, Eq, Structural)]
pub struct Radius {
    pub value: i64,
}

/// The velocity a unit gains per step while it steers.
#[derive(Clone, Copy, Debug, PartialEq, Eq, Structural)]
pub struct MovementSpeed {
    pub value: i64,
}

/// The state-machine component of a unit.
#[derive(Clone, Copy, Debug, PartialEq, Eq, Structural)]
pub struct State {
    pub state: UnitState,
}

/// One unit of the world.
///
/// `selected` is local view state: a pick sets it for the units under the
/// cursor, the orders of a unit's owner act on the unit while it is set,
/// and the checksum that peers exchange leaves it out.
#[derive(Clone, Copy, Debug, PartialEq, Eq, Structural)]
pub struct Unit {
    pub id: u32,
    pub player: Player,
    pub position: Position,
    pub velocity: Velocity,
    pub radius: Radius,
    pub target: TargetPosition,
    pub speed: MovementSpeed,
    pub state: State,
    pub selected: bool,
}

/// `v` is a coordinate inside the world.
pub open spec fn in_world(v: int) -> bool {
    -COORD_LIMIT <= v <= COORD_LIMIT
}

impl Unit {
    /// The radius is positive, and every quantity is within its limit.
    pub open spec fn wf(self) -> bool {
        &&& 0 < self.radius.value <= RADIUS_LIMIT
        &&& 0 <= self.speed.value <= SPEED_LIMIT
        &&& in_world(self.position.x as int)
        &&& in_world(self.position.y as int)
        &&& in_world(self.velocity.x as int)
        &&& in_world(self.velocity.y as int)
        &&& in_world(self.target.x as int)
        &&& in_world(self.target.y as int)
    }

    /// An idle, unselected unit at rest at `(x, y)`, which is also its target.
    /// `None` when a quantity is outside its limit.
    pub fn new(id: u32, handle: usize, x: i64, y: i64, radius: i64, speed: i64) -> (r: Option<Unit>)
        ensures
            r is Some <==> (0 < radius <= RADIUS_LIMIT && 0 <= speed <= SPEED_LIMIT && in_world(
                x as int,
            ) && in_world(y as int)),
            r is Some ==> r->0 == (Unit {
                id,
                player: Player { handle },
                position: Position { x, y },
                velocity: Velocity { x: 0, y: 0 },
                radius: Radius { value: radius },
                target: TargetPosition { x, y },
                speed: MovementSpeed { value: speed },
                state: State { state: UnitState::Idle },
                selected: false,
            }),
            r is Some ==> (r->0).wf(),
    {
        let unit = Unit {
            id,
            player: Player { handle },
            position: Position { x, y },
            velocity: Velocity { x: 0, y: 0 },
            radius: Radius { value: radius },
            target: TargetPosition { x, y },
            speed: MovementSpeed { value: speed },
            state: State { state: UnitState::Idle },
            selected: false,
        };
        if unit.is_valid() {
            Some(unit)
        } else {
            None
        }
    }

    /// Whether the unit is well formed.
    pub fn is_valid(&self) -> (b: bool)
        ensures
            b == self.wf(),
    {
        0 < self.radius.value && self.radius.value <= RADIUS_LIMIT && 0 <= self.speed.value
            && self.speed.value <= SPEED_LIMIT && coordinate_in_world(self.position.x)
            && coordinate_in_world(self.position.y) && coordinate_in_world(self.velocity.x)
            && coordinate_in_world(self.velocity.y) && coordinate_in_world(self.target.x)
            && coordinate_in_world(self.target.y)
    }
}

/// Whether `v` is a coordinate inside the world.
pub fn coordinate_in_world(v: i64) -> (b: bool)
    ensures
        b == in_world(v as int),
{
    -COORD_LIMIT <= v && v <= COORD_LIMIT
}

} // verus!
