//! What happens to the units in one simulation step: collision, orders,
//! steering and movement.
use vstd::prelude::*;
use crate::component::{
    in_world, MovementSpeed, Player, Position, Radius, State, TargetPosition, Unit, UnitState,
    Velocity,
};
use crate::rng::{draw_indexed, session_draw};
use crate::input::{command_of, find_command, Command, CommandKind};
use crate::fixed::{
    clamp, clamp_to, div_toward_zero, isqrt, lemma_coordinate_within_length, lemma_floor_sqrt,
    lemma_normalized_bound, lemma_product_bound, lemma_trunc_div_bound, lemma_trunc_div_cancels,
    length, length_sq,
    length_squared, negated, normalized, scale_vector, scaled, trunc_div, unit_vector, Vector,
    COORD_LIMIT, RADIUS_LIMIT, SCALE, TICKS_PER_SECOND,
};

verus! {

/// Largest magnitude of a coordinate of the push that one unit gives another.
pub const PUSH_LIMIT: i64 = 2_000_000;

/// Every unit is well formed, and the ids ascend strictly.
///
/// The order of the sequence is the order in which units are processed, so
/// it is the same on every peer.
pub open spec fn units_wf(units: Seq<Unit>) -> bool {
    &&& forall|i: int| 0 <= i < units.len() ==> (#[trigger] units[i]).wf()
    &&& forall|i: int, j: int|
        0 <= i < j < units.len() ==> (#[trigger] units[i]).id < (#[trigger] units[j]).id
}

/// The pair `p` as a vector.
pub open spec fn vector_of(p: (i64, i64)) -> Vector {
    Vector { x: p.0 as int, y: p.1 as int }
}

/// The sum of two vectors.
pub open spec fn vector_sum(a: Vector, b: Vector) -> Vector {
    Vector { x: a.x + b.x, y: a.y + b.y }
}

/// The zero vector.
pub open spec fn zero_vector() -> Vector {
    Vector { x: 0, y: 0 }
}

/// The vector from the centre of `a` to the centre of `b`.
pub open spec fn offset(a: Unit, b: Unit) -> Vector {
    Vector { x: b.position.x - a.position.x, y: b.position.y - a.position.y }
}

/// The circles of `a` and `b` overlap: their centres are closer than the sum
/// of their radii.
pub open spec fn overlapping(a: Unit, b: Unit) -> bool {
    let reach = a.radius.value + b.radius.value;
    length_sq(offset(a, b)) < reach * reach
}

/// By how much the circles of `a` and `b` overlap.
pub open spec fn separation(a: Unit, b: Unit) -> int {
    a.radius.value + b.radius.value - length(offset(a, b))
}

/// The direction along which two units with the same centre part: the x axis
/// when the first has an even id, the y axis when it has an odd id.
pub open spec fn tie_break(id: u32) -> Vector {
    if id % 2 == 0 {
        Vector { x: SCALE as int, y: 0 }
    } else {
        Vector { x: 0, y: SCALE as int }
    }
}

/// The direction from `a` to `b`, of length one world unit.
pub open spec fn contact_normal(a: Unit, b: Unit) -> Vector {
    let d = offset(a, b);
    if d.x == 0 && d.y == 0 {
        tie_break(a.id)
    } else {
        normalized(d)
    }
}

/// The part of the separation that `a` takes, as a numerator over the sum of
/// the radii: its own radius, but nothing while it holds, and all of it while
/// only `b` holds.
pub open spec fn share_first(a: Unit, b: Unit) -> int {
    if a.state.state == UnitState::Hold {
        0
    } else if b.state.state == UnitState::Hold {
        a.radius.value + b.radius.value
    } else {
        a.radius.value as int
    }
}

/// The part of the separation that `b` takes, as a numerator over the sum of
/// the radii.
pub open spec fn share_second(a: Unit, b: Unit) -> int {
    if b.state.state == UnitState::Hold {
        0
    } else if a.state.state == UnitState::Hold {
        a.radius.value + b.radius.value
    } else {
        b.radius.value as int
    }
}

/// `normal * separation * share / (radius of a + radius of b)`, for a share
/// given by its numerator.
pub open spec fn correction(a: Unit, b: Unit, share: int) -> Vector {
    let n = contact_normal(a, b);
    let s = separation(a, b);
    let den = SCALE * (a.radius.value + b.radius.value);
    Vector { x: trunc_div(n.x * s * share, den), y: trunc_div(n.y * s * share, den) }
}

/// The change of velocity of `a`, the unit with the smaller id, from its
/// contact with `b`: away from `b`.
pub open spec fn push_first(a: Unit, b: Unit) -> Vector {
    if overlapping(a, b) {
        negated(correction(a, b, share_first(a, b)))
    } else {
        zero_vector()
    }
}

/// The change of velocity of `b`, the unit with the larger id, from its
/// contact with `a`: away from `a`.
pub open spec fn push_second(a: Unit, b: Unit) -> Vector {
    if overlapping(a, b) {
        correction(a, b, share_second(a, b))
    } else {
        zero_vector()
    }
}

/// The change of velocity of `units[i]` from its contact with `units[j]`.
pub open spec fn push(units: Seq<Unit>, i: int, j: int) -> Vector {
    if i < j {
        push_first(units[i], units[j])
    } else if j < i {
        push_second(units[j], units[i])
    } else {
        zero_vector()
    }
}

/// The sum of the pushes on `units[i]` from the first `n` units.
pub open spec fn total_push(units: Seq<Unit>, i: int, n: int) -> Vector
    decreases n,
{
    if n <= 0 {
        zero_vector()
    } else {
        vector_sum(total_push(units, i, n - 1), push(units, i, n - 1))
    }
}

/// `units[i]` after collision: its velocity has taken the pushes of all the
/// other units, and is held within the world's limit.
pub open spec fn collided(units: Seq<Unit>, i: int) -> Unit {
    let u = units[i];
    let p = total_push(units, i, units.len() as int);
    Unit {
        velocity: Velocity {
            x: clamp(u.velocity.x + p.x, COORD_LIMIT as int) as i64,
            y: clamp(u.velocity.y + p.y, COORD_LIMIT as int) as i64,
        },
        ..u
    }
}

/// The units after collision.
pub open spec fn collision_spec(units: Seq<Unit>) -> Seq<Unit> {
    Seq::new(units.len(), |i: int| collided(units, i))
}

/// The coordinates of a push are at most the separation, and so at most
/// `PUSH_LIMIT`.
pub proof fn lemma_correction_bound(a: Unit, b: Unit, share: int)
    requires
        a.wf(),
        b.wf(),
        overlapping(a, b),
        0 <= share <= a.radius.value + b.radius.value,
    ensures
        1 <= separation(a, b) <= a.radius.value + b.radius.value,
        -SCALE <= contact_normal(a, b).x <= SCALE,
        -SCALE <= contact_normal(a, b).y <= SCALE,
        -separation(a, b) <= correction(a, b, share).x <= separation(a, b),
        -separation(a, b) <= correction(a, b, share).y <= separation(a, b),
{
    let d = offset(a, b);
    let reach = a.radius.value + b.radius.value;
    lemma_coordinate_within_length(d);
    lemma_floor_sqrt(length_sq(d));
    let len = length(d);
    assert(len < reach) by (nonlinear_arith)
        requires
            len * len <= length_sq(d),
            length_sq(d) < reach * reach,
            0 <= len,
            0 < reach,
    ;
    lemma_normalized_bound(d);
    let n = contact_normal(a, b);
    let s = separation(a, b);
    let den = SCALE * reach;
    lemma_product_bound(n.x, s, SCALE as int, s);
    lemma_product_bound(n.y, s, SCALE as int, s);
    lemma_product_bound(n.x * s, share, SCALE * s, reach);
    lemma_product_bound(n.y * s, share, SCALE * s, reach);
    assert((SCALE * s) * reach == s * (SCALE * reach)) by (nonlinear_arith);
    lemma_trunc_div_bound(n.x * s * share, den, s);
    lemma_trunc_div_bound(n.y * s * share, den, s);
}

/// The changes of velocity that the contact of `a` and `b` gives to each,
/// where `a` is the unit with the smaller id.
pub fn pair_push(a: &Unit, b: &Unit) -> (r: ((i64, i64), (i64, i64)))
    requires
        a.wf(),
        b.wf(),
    ensures
        vector_of(r.0) == push_first(*a, *b),
        vector_of(r.1) == push_second(*a, *b),
        -PUSH_LIMIT <= r.0.0 <= PUSH_LIMIT,
        -PUSH_LIMIT <= r.0.1 <= PUSH_LIMIT,
        -PUSH_LIMIT <= r.1.0 <= PUSH_LIMIT,
        -PUSH_LIMIT <= r.1.1 <= PUSH_LIMIT,
{
    let dx: i64 = b.position.x - a.position.x;
    let dy: i64 = b.position.y - a.position.y;
    let reach: i64 = a.radius.value + b.radius.value;
    assert(0 < reach * reach <= 4_000_000_000_000) by (nonlinear_arith)
        requires
            0 < reach <= 2_000_000,
    ;
    let dist_sq: u64 = length_squared(dx, dy);
    if dist_sq >= (reach * reach) as u64 {
        return ((0, 0), (0, 0));
    }
    let dist: i64 = isqrt(dist_sq) as i64;
    let hold_a: bool = a.state.state == UnitState::Hold;
    let hold_b: bool = b.state.state == UnitState::Hold;
    let share_a: i64 = if hold_a {
        0
    } else if hold_b {
        reach
    } else {
        a.radius.value
    };
    let share_b: i64 = if hold_b {
        0
    } else if hold_a {
        reach
    } else {
        b.radius.value
    };
    proof {
        lemma_correction_bound(*a, *b, share_a as int);
        lemma_correction_bound(*a, *b, share_b as int);
    }
    let sep: i64 = reach - dist;
    let normal: (i64, i64) = if dx == 0 && dy == 0 {
        if a.id % 2 == 0 {
            (SCALE, 0)
        } else {
            (0, SCALE)
        }
    } else {
        unit_vector(dx, dy)
    };
    assert(vector_of(normal) == contact_normal(*a, *b));
    let den: i64 = SCALE * reach;
    proof {
        lemma_product_bound(normal.0 as int, sep as int, SCALE as int, PUSH_LIMIT as int);
        lemma_product_bound(normal.1 as int, sep as int, SCALE as int, PUSH_LIMIT as int);
        lemma_product_bound(
            normal.0 * sep,
            share_a as int,
            SCALE * PUSH_LIMIT,
            PUSH_LIMIT as int,
        );
        lemma_product_bound(
            normal.1 * sep,
            share_a as int,
            SCALE * PUSH_LIMIT,
            PUSH_LIMIT as int,
        );
        lemma_product_bound(
            normal.0 * sep,
            share_b as int,
            SCALE * PUSH_LIMIT,
            PUSH_LIMIT as int,
        );
        lemma_product_bound(
            normal.1 * sep,
            share_b as int,
            SCALE * PUSH_LIMIT,
            PUSH_LIMIT as int,
        );
    }
    let ax: i64 = div_toward_zero(normal.0 * sep * share_a, den);
    let ay: i64 = div_toward_zero(normal.1 * sep * share_a, den);
    let bx: i64 = div_toward_zero(normal.0 * sep * share_b, den);
    let by: i64 = div_toward_zero(normal.1 * sep * share_b, den);
    ((-ax, -ay), (bx, by))
}

/// The velocity of `units[i]` after collision.
fn collided_velocity(units: &Vec<Unit>, i: usize) -> (v: Velocity)
    requires
        units_wf(units@),
        i < units.len(),
    ensures
        v == collided(units@, i as int).velocity,
        in_world(v.x as int),
        in_world(v.y as int),
{
    let n: usize = units.len();
    let mut sum_x: i128 = 0;
    let mut sum_y: i128 = 0;
    let mut j: usize = 0;
    while j < n
        invariant
            j <= n,
            n == units.len(),
            i < n,
            units_wf(units@),
            (Vector { x: sum_x as int, y: sum_y as int }) == total_push(
                units@,
                i as int,
                j as int,
            ),
            -(j * 2_000_000) <= sum_x <= j * 2_000_000,
            -(j * 2_000_000) <= sum_y <= j * 2_000_000,
        decreases n - j,
    {
        if j < i {
            let p = pair_push(&units[j], &units[i]);
            sum_x = sum_x + p.1.0 as i128;
            sum_y = sum_y + p.1.1 as i128;
        } else if i < j {
            let p = pair_push(&units[i], &units[j]);
            sum_x = sum_x + p.0.0 as i128;
            sum_y = sum_y + p.0.1 as i128;
        }
        j = j + 1;
    }
    let u: &Unit = &units[i];
    Velocity {
        x: clamp_wide(u.velocity.x as i128 + sum_x),
        y: clamp_wide(u.velocity.y as i128 + sum_y),
    }
}

/// Saturation of a wide sum at the world's limit.
fn clamp_wide(v: i128) -> (r: i64)
    ensures
        r == clamp(v as int, COORD_LIMIT as int),
        in_world(r as int),
{
    if v < -(COORD_LIMIT as i128) {
        -COORD_LIMIT
    } else if v > COORD_LIMIT as i128 {
        COORD_LIMIT
    } else {
        v as i64
    }
}

/// Pushes overlapping units apart.
///
/// Each unit's velocity takes the sum of the pushes of all units that overlap
/// it. A pair's push runs along the line between the centres, from the unit
/// with the smaller id to the other; it is as long as the overlap, and is
/// split by radius. A unit that holds takes nothing, and the other unit then
/// takes all of it. Positions do not change here.
pub fn collision(units: &mut Vec<Unit>)
    requires
        units_wf(old(units)@),
    ensures
        final(units)@ == collision_spec(old(units)@),
        units_wf(final(units)@),
{
    let n: usize = units.len();
    let mut out: Vec<Unit> = Vec::new();
    let mut i: usize = 0;
    while i < n
        invariant
            i <= n,
            n == units.len(),
            units@ == old(units)@,
            units_wf(units@),
            out.len() == i,
            forall|k: int| 0 <= k < i ==> out@[k] == collided(units@, k),
        decreases n - i,
    {
        let v: Velocity = collided_velocity(units, i);
        let u: Unit = units[i];
        out.push(Unit { velocity: v, ..u });
        i = i + 1;
    }
    assert(out@ =~= collision_spec(units@));
    *units = out;
}

/// `u` brought to a halt where it stands.
pub open spec fn held(u: Unit) -> Unit {
    Unit {
        state: State { state: UnitState::Hold },
        velocity: Velocity { x: 0, y: 0 },
        target: TargetPosition { x: u.position.x, y: u.position.y },
        ..u
    }
}

/// `u` after the hold orders of `commands`: a selected unit whose owner
/// orders a hold is brought to a halt; any other unit is unchanged.
pub open spec fn hold_applied(u: Unit, commands: Seq<Command>) -> Unit {
    if u.selected && command_of(commands, u.player.handle) == CommandKind::Hold {
        held(u)
    } else {
        u
    }
}

/// The units after the hold orders of `commands`.
pub open spec fn hold_position_spec(units: Seq<Unit>, commands: Seq<Command>) -> Seq<Unit> {
    Seq::new(units.len(), |i: int| hold_applied(units[i], commands))
}

/// Applies the hold orders.
///
/// A selected unit whose owner orders a hold enters `Hold`, loses its
/// velocity, and takes the place where it stands as its target.
pub fn hold_position(units: &mut Vec<Unit>, commands: &Vec<Command>)
    requires
        units_wf(old(units)@),
    ensures
        final(units)@ == hold_position_spec(old(units)@, commands@),
        units_wf(final(units)@),
{
    let n: usize = units.len();
    let mut i: usize = 0;
    while i < n
        invariant
            i <= n,
            n == units.len(),
            n == old(units)@.len(),
            units_wf(units@),
            forall|k: int| 0 <= k < i ==> units@[k] == hold_applied(old(units)@[k], commands@),
            forall|k: int| i <= k < n ==> units@[k] == old(units)@[k],
        decreases n - i,
    {
        let u: Unit = units[i];
        if u.selected {
            let kind: CommandKind = find_command(commands, u.player.handle);
            if kind == CommandKind::Hold {
                let h: Unit = Unit {
                    state: State { state: UnitState::Hold },
                    velocity: Velocity { x: 0, y: 0 },
                    target: TargetPosition { x: u.position.x, y: u.position.y },
                    ..u
                };
                units.set(i, h);
            }
        }
        i = i + 1;
    }
    assert(units@ =~= hold_position_spec(old(units)@, commands@));
}

/// `u` sent toward `(x, y)`, or toward the nearest point of the world where
/// `(x, y)` lies outside it.
pub open spec fn sent(u: Unit, x: i64, y: i64) -> Unit {
    Unit {
        state: State { state: UnitState::Move },
        target: TargetPosition {
            x: clamp(x as int, COORD_LIMIT as int) as i64,
            y: clamp(y as int, COORD_LIMIT as int) as i64,
        },
        ..u
    }
}

/// `u` after the move orders of `commands`: a selected unit whose owner
/// orders a move is sent to the point; any other unit is unchanged.
pub open spec fn move_applied(u: Unit, commands: Seq<Command>) -> Unit {
    match command_of(commands, u.player.handle) {
        CommandKind::Move { x, y } => if u.selected {
            sent(u, x, y)
        } else {
            u
        },
        _ => u,
    }
}

/// The units after the move orders of `commands`.
pub open spec fn set_target_position_spec(units: Seq<Unit>, commands: Seq<Command>) -> Seq<Unit> {
    Seq::new(units.len(), |i: int| move_applied(units[i], commands))
}

/// Applies the move orders.
///
/// A selected unit whose owner orders a move enters `Move` and takes the
/// ordered point as its target.
pub fn set_target_position(units: &mut Vec<Unit>, commands: &Vec<Command>)
    requires
        units_wf(old(units)@),
    ensures
        final(units)@ == set_target_position_spec(old(units)@, commands@),
        units_wf(final(units)@),
{
    let n: usize = units.len();
    let mut i: usize = 0;
    while i < n
        invariant
            i <= n,
            n == units.len(),
            n == old(units)@.len(),
            units_wf(units@),
            forall|k: int| 0 <= k < i ==> units@[k] == move_applied(old(units)@[k], commands@),
            forall|k: int| i <= k < n ==> units@[k] == old(units)@[k],
        decreases n - i,
    {
        let u: Unit = units[i];
        if u.selected {
            let kind: CommandKind = find_command(commands, u.player.handle);
            match kind {
                CommandKind::Move { x, y } => {
                    let m: Unit = Unit {
                        state: State { state: UnitState::Move },
                        target: TargetPosition {
                            x: clamp_to(x, COORD_LIMIT),
                            y: clamp_to(y, COORD_LIMIT),
                        },
                        ..u
                    };
                    units.set(i, m);
                },
                _ => {},
            }
        }
        i = i + 1;
    }
    assert(units@ =~= set_target_position_spec(old(units)@, commands@));
}

/// The vector from `u` to its target.
pub open spec fn to_target(u: Unit) -> Vector {
    Vector { x: u.target.x - u.position.x, y: u.target.y - u.position.y }
}

/// The target of `u` is farther from its centre than its radius.
pub open spec fn beyond_reach(u: Unit) -> bool {
    length_sq(to_target(u)) > u.radius.value * u.radius.value
}

/// The velocity that `u` gains in one step of steering: its movement speed
/// along the direction to its target.
pub open spec fn acceleration(u: Unit) -> Vector {
    scaled(normalized(to_target(u)), u.speed.value as int)
}

/// `u` after steering.
///
/// A moving unit whose target is beyond its reach accelerates toward it; one
/// whose target is within reach becomes idle. An idle unit whose target is
/// beyond its reach starts to move again. A holding unit stays as it is.
pub open spec fn steered(u: Unit) -> Unit {
    match u.state.state {
        UnitState::Move => if beyond_reach(u) {
            let a = acceleration(u);
            Unit {
                velocity: Velocity {
                    x: clamp(u.velocity.x + a.x, COORD_LIMIT as int) as i64,
                    y: clamp(u.velocity.y + a.y, COORD_LIMIT as int) as i64,
                },
                ..u
            }
        } else {
            Unit { state: State { state: UnitState::Idle }, ..u }
        },
        UnitState::Idle => if beyond_reach(u) {
            Unit { state: State { state: UnitState::Move }, ..u }
        } else {
            u
        },
        UnitState::Hold => u,
    }
}

/// The units after steering.
pub open spec fn move_towards_target_spec(units: Seq<Unit>) -> Seq<Unit> {
    Seq::new(units.len(), |i: int| steered(units[i]))
}

/// Steers one unit.
pub fn steer(u: Unit) -> (r: Unit)
    requires
        u.wf(),
    ensures
        r == steered(u),
        r.wf(),
{
    match u.state.state {
        UnitState::Hold => u,
        _ => {
            let dx: i64 = u.target.x - u.position.x;
            let dy: i64 = u.target.y - u.position.y;
            let radius: i64 = u.radius.value;
            assert(0 < radius * radius <= 1_000_000_000_000) by (nonlinear_arith)
                requires
                    0 < radius <= 1_000_000,
            ;
            let far: bool = length_squared(dx, dy) > (radius * radius) as u64;
            match u.state.state {
                UnitState::Move => {
                    if far {
                        let a: (i64, i64) = scale_vector(unit_vector(dx, dy), u.speed.value);
                        Unit {
                            velocity: Velocity {
                                x: clamp_to(u.velocity.x + a.0, COORD_LIMIT),
                                y: clamp_to(u.velocity.y + a.1, COORD_LIMIT),
                            },
                            ..u
                        }
                    } else {
                        Unit { state: State { state: UnitState::Idle }, ..u }
                    }
                },
                _ => {
                    if far {
                        Unit { state: State { state: UnitState::Move }, ..u }
                    } else {
                        u
                    }
                },
            }
        },
    }
}

/// Steers every unit toward its target.
pub fn move_towards_target(units: &mut Vec<Unit>)
    requires
        units_wf(old(units)@),
    ensures
        final(units)@ == move_towards_target_spec(old(units)@),
        units_wf(final(units)@),
{
    let n: usize = units.len();
    let mut i: usize = 0;
    while i < n
        invariant
            i <= n,
            n == units.len(),
            n == old(units)@.len(),
            units_wf(units@),
            forall|k: int| 0 <= k < i ==> units@[k] == steered(old(units)@[k]),
            forall|k: int| i <= k < n ==> units@[k] == old(units)@[k],
        decreases n - i,
    {
        let s: Unit = steer(units[i]);
        units.set(i, s);
        i = i + 1;
    }
    assert(units@ =~= move_towards_target_spec(old(units)@));
}

/// Of ten parts of its velocity, a unit keeps `DAMPING_KEPT` after a step.
pub const DAMPING_KEPT: i64 = 9;

/// `u` after one step of movement: the position has advanced by the velocity
/// times the length of a step, held within the world; the velocity has
/// decayed to nine tenths.
pub open spec fn moved(u: Unit) -> Unit {
    Unit {
        position: Position {
            x: clamp(
                u.position.x + trunc_div(u.velocity.x as int, TICKS_PER_SECOND as int),
                COORD_LIMIT as int,
            ) as i64,
            y: clamp(
                u.position.y + trunc_div(u.velocity.y as int, TICKS_PER_SECOND as int),
                COORD_LIMIT as int,
            ) as i64,
        },
        velocity: Velocity {
            x: trunc_div(u.velocity.x * DAMPING_KEPT, 10) as i64,
            y: trunc_div(u.velocity.y * DAMPING_KEPT, 10) as i64,
        },
        ..u
    }
}

/// The units after one step of movement.
pub open spec fn movement_spec(units: Seq<Unit>) -> Seq<Unit> {
    Seq::new(units.len(), |i: int| moved(units[i]))
}

/// Moves one unit by one step.
pub fn advance(u: Unit) -> (r: Unit)
    requires
        u.wf(),
    ensures
        r == moved(u),
        r.wf(),
{
    proof {
        lemma_trunc_div_bound(u.velocity.x * DAMPING_KEPT, 10, COORD_LIMIT as int);
        lemma_trunc_div_bound(u.velocity.y * DAMPING_KEPT, 10, COORD_LIMIT as int);
    }
    Unit {
        position: Position {
            x: clamp_to(
                u.position.x + div_toward_zero(u.velocity.x, TICKS_PER_SECOND),
                COORD_LIMIT,
            ),
            y: clamp_to(
                u.position.y + div_toward_zero(u.velocity.y, TICKS_PER_SECOND),
                COORD_LIMIT,
            ),
        },
        velocity: Velocity {
            x: div_toward_zero(u.velocity.x * DAMPING_KEPT, 10),
            y: div_toward_zero(u.velocity.y * DAMPING_KEPT, 10),
        },
        ..u
    }
}

/// Moves every unit by one step and damps its velocity, whatever its state.
pub fn movement(units: &mut Vec<Unit>)
    requires
        units_wf(old(units)@),
    ensures
        final(units)@ == movement_spec(old(units)@),
        units_wf(final(units)@),
{
    let n: usize = units.len();
    let mut i: usize = 0;
    while i < n
        invariant
            i <= n,
            n == units.len(),
            n == old(units)@.len(),
            units_wf(units@),
            forall|k: int| 0 <= k < i ==> units@[k] == moved(old(units)@[k]),
            forall|k: int| i <= k < n ==> units@[k] == old(units)@[k],
        decreases n - i,
    {
        let m: Unit = advance(units[i]);
        units.set(i, m);
        i = i + 1;
    }
    assert(units@ =~= movement_spec(old(units)@));
}

/// The world point `cursor` lies inside the circle of `u`.
pub open spec fn under_cursor(u: Unit, cursor: Position) -> bool {
    length_sq(Vector { x: u.position.x - cursor.x, y: u.position.y - cursor.y })
        < u.radius.value * u.radius.value
}

/// `u` after a pick at `cursor`: selected if and only if the cursor is
/// inside it, whoever owns it and whether or not it was selected before.
pub open spec fn picked(u: Unit, cursor: Position) -> Unit {
    Unit { selected: under_cursor(u, cursor), ..u }
}

/// The units after a pick at `cursor`.
pub open spec fn select_spec(units: Seq<Unit>, cursor: Position) -> Seq<Unit> {
    Seq::new(units.len(), |i: int| picked(units[i], cursor))
}

/// A point outside the square around a circle is outside the circle.
proof fn lemma_outside_square(dx: int, dy: int, radius: int)
    requires
        radius > 0,
        dx >= radius || dx <= -radius || dy >= radius || dy <= -radius,
    ensures
        length_sq(Vector { x: dx, y: dy }) >= radius * radius,
{
    assert(dx * dx + dy * dy >= radius * radius) by (nonlinear_arith)
        requires
            dx >= radius || dx <= -radius || dy >= radius || dy <= -radius,
            radius > 0,
    ;
}

/// Whether the world point `cursor` lies inside the circle of `u`.
pub fn is_under_cursor(u: &Unit, cursor: Position) -> (b: bool)
    requires
        u.wf(),
    ensures
        b == under_cursor(*u, cursor),
{
    let radius: i64 = u.radius.value;
    let edge: i64 = COORD_LIMIT + RADIUS_LIMIT;
    assert(0 < radius * radius <= 1_000_000_000_000) by (nonlinear_arith)
        requires
            0 < radius <= 1_000_000,
    ;
    if cursor.x < -edge || cursor.x > edge || cursor.y < -edge || cursor.y > edge {
        proof {
            lemma_outside_square(
                u.position.x - cursor.x,
                u.position.y - cursor.y,
                radius as int,
            );
        }
        return false;
    }
    let dx: i64 = u.position.x - cursor.x;
    let dy: i64 = u.position.y - cursor.y;
    if dx >= radius || dx <= -radius || dy >= radius || dy <= -radius {
        proof {
            lemma_outside_square(dx as int, dy as int, radius as int);
        }
        return false;
    }
    length_squared(dx, dy) < (radius * radius) as u64
}

/// Replaces the selection by the units under the cursor, which is given as
/// a point of the world: afterwards a unit is selected if and only if the
/// cursor is inside its circle.
///
/// Selection is local view state: it travels in no command.
pub fn select(units: &mut Vec<Unit>, cursor: Position)
    requires
        units_wf(old(units)@),
    ensures
        final(units)@ == select_spec(old(units)@, cursor),
        units_wf(final(units)@),
{
    let n: usize = units.len();
    let mut i: usize = 0;
    while i < n
        invariant
            i <= n,
            n == units.len(),
            n == old(units)@.len(),
            units_wf(units@),
            forall|k: int| 0 <= k < i ==> units@[k] == picked(old(units)@[k], cursor),
            forall|k: int| i <= k < n ==> units@[k] == old(units)@[k],
        decreases n - i,
    {
        let u: Unit = units[i];
        let inside: bool = is_under_cursor(&u, cursor);
        units.set(i, Unit { selected: inside, ..u });
        i = i + 1;
    }
    assert(units@ =~= select_spec(old(units)@, cursor));
}

/// A pick replaces the selection: what was selected before does not matter,
/// so of two picks in a row only the second counts. A pick changes nothing
/// but the selection, and keeps well-formed units well formed.
pub proof fn lemma_pick_replaces(units: Seq<Unit>, first: Position, second: Position)
    ensures
        select_spec(select_spec(units, first), second) == select_spec(units, second),
        units_wf(units) ==> units_wf(select_spec(units, second)),
        forall|i: int|
            0 <= i < units.len() ==> (#[trigger] select_spec(units, second)[i]) == (Unit {
                selected: under_cursor(units[i], second),
                ..units[i]
            }),
{
    let once = select_spec(units, second);
    assert(select_spec(select_spec(units, first), second) =~= once);
    if units_wf(units) {
        assert forall|i: int| 0 <= i < once.len() implies (#[trigger] once[i]).wf() by {
            assert(units[i].wf());
        }
        assert forall|i: int, j: int| 0 <= i < j < once.len() implies (#[trigger] once[i]).id < (
        #[trigger] once[j]).id by {
            assert(units[i].id < units[j].id);
        }
    }
}

/// Whether every unit is well formed and the ids ascend strictly.
pub fn units_valid(units: &Vec<Unit>) -> (b: bool)
    ensures
        b == units_wf(units@),
{
    let n: usize = units.len();
    let mut i: usize = 0;
    while i < n
        invariant
            i <= n,
            n == units.len(),
            forall|k: int| 0 <= k < i ==> (#[trigger] units@[k]).wf(),
            forall|k: int, l: int|
                0 <= k < l < i ==> (#[trigger] units@[k]).id < (#[trigger] units@[l]).id,
        decreases n - i,
    {
        if !units[i].is_valid() {
            return false;
        }
        if i > 0 && units[i - 1].id >= units[i].id {
            return false;
        }
        assert forall|k: int, l: int| 0 <= k < l < i + 1 implies (#[trigger] units@[k]).id < (
        #[trigger] units@[l]).id by {
            if l == i && k < i - 1 {
                assert(units@[k].id < units@[i - 1].id);
            }
        }
        i = i + 1;
    }
    true
}

/// How many units each player starts with.
pub const UNITS_PER_PLAYER: u32 = 10;

/// The smallest radius of a spawned unit.
pub const SPAWN_RADIUS_MIN: i64 = 5_000;

/// The bound below which the radius of a spawned unit lies.
pub const SPAWN_RADIUS_MAX: i64 = 10_000;

/// Spawned units lie in the square of this half width around the origin.
pub const SPAWN_EXTENT: i64 = 10_000;

/// The movement speed of a spawned unit.
pub const SPAWN_SPEED: i64 = 10_000;

/// The unit with id `id` of a session seeded with `seed`.
///
/// Its owner is `id / UNITS_PER_PLAYER`. The radius and the two coordinates
/// are the draws `3 * id`, `3 * id + 1` and `3 * id + 2` of the session. The
/// unit is idle, at rest, unselected, and its target is where it stands.
pub open spec fn spawned(seed: u64, id: u32) -> Unit {
    let radius = session_draw(
        seed,
        3 * id,
        SPAWN_RADIUS_MIN as int,
        SPAWN_RADIUS_MAX as int,
    );
    let x = session_draw(seed, 3 * id + 1, -SPAWN_EXTENT as int, SPAWN_EXTENT as int);
    let y = session_draw(seed, 3 * id + 2, -SPAWN_EXTENT as int, SPAWN_EXTENT as int);
    Unit {
        id,
        player: Player { handle: (id / UNITS_PER_PLAYER) as usize },
        position: Position { x: x as i64, y: y as i64 },
        velocity: Velocity { x: 0, y: 0 },
        radius: Radius { value: radius as i64 },
        target: TargetPosition { x: x as i64, y: y as i64 },
        speed: MovementSpeed { value: SPAWN_SPEED },
        state: State { state: UnitState::Idle },
        selected: false,
    }
}

/// The units of a new session of `num_players` players seeded with `seed`.
pub open spec fn spawn_spec(seed: u64, num_players: usize) -> Seq<Unit> {
    Seq::new((num_players * UNITS_PER_PLAYER) as nat, |i: int| spawned(seed, i as u32))
}

/// Creates the units of a new session: `UNITS_PER_PLAYER` for each player,
/// with ids in ascending order.
///
/// The units depend on the seed and the number of players alone, so peers
/// that agree on both start from the same world. Radii lie in
/// `SPAWN_RADIUS_MIN..SPAWN_RADIUS_MAX`, coordinates in
/// `-SPAWN_EXTENT..SPAWN_EXTENT`.
pub fn spawn(seed: u64, num_players: usize) -> (units: Vec<Unit>)
    requires
        num_players * UNITS_PER_PLAYER <= u32::MAX,
    ensures
        units@ == spawn_spec(seed, num_players),
        units_wf(units@),
        forall|i: int|
            0 <= i < units.len() ==> SPAWN_RADIUS_MIN <= (#[trigger] units[i]).radius.value
                < SPAWN_RADIUS_MAX && -SPAWN_EXTENT <= units[i].position.x < SPAWN_EXTENT
                && -SPAWN_EXTENT <= units[i].position.y < SPAWN_EXTENT,
{
    let mut units: Vec<Unit> = Vec::new();
    let mut handle: usize = 0;
    while handle < num_players
        invariant
            handle <= num_players,
            num_players * UNITS_PER_PLAYER <= u32::MAX,
            units.len() == handle * UNITS_PER_PLAYER,
            forall|i: int| 0 <= i < units.len() ==> (#[trigger] units[i]) == spawned(seed, i as u32),
            forall|i: int|
                0 <= i < units.len() ==> (#[trigger] units[i]).wf() && SPAWN_RADIUS_MIN
                    <= units[i].radius.value < SPAWN_RADIUS_MAX && -SPAWN_EXTENT
                    <= units[i].position.x < SPAWN_EXTENT && -SPAWN_EXTENT
                    <= units[i].position.y < SPAWN_EXTENT,
        decreases num_players - handle,
    {
        let mut k: u32 = 0;
        while k < UNITS_PER_PLAYER
            invariant
                k <= UNITS_PER_PLAYER,
                handle < num_players,
                num_players * UNITS_PER_PLAYER <= u32::MAX,
                units.len() == handle * UNITS_PER_PLAYER + k,
                forall|i: int|
                    0 <= i < units.len() ==> (#[trigger] units[i]) == spawned(seed, i as u32),
                forall|i: int|
                    0 <= i < units.len() ==> (#[trigger] units[i]).wf() && SPAWN_RADIUS_MIN
                        <= units[i].radius.value < SPAWN_RADIUS_MAX && -SPAWN_EXTENT
                        <= units[i].position.x < SPAWN_EXTENT && -SPAWN_EXTENT
                        <= units[i].position.y < SPAWN_EXTENT,
            decreases UNITS_PER_PLAYER - k,
        {
            let id: u32 = (handle * (UNITS_PER_PLAYER as usize) + k as usize) as u32;
            let first: u64 = 3 * (id as u64);
            let radius: i64 = draw_indexed(seed, first, SPAWN_RADIUS_MIN, SPAWN_RADIUS_MAX).unwrap();
            let x: i64 = draw_indexed(seed, first + 1, -SPAWN_EXTENT, SPAWN_EXTENT).unwrap();
            let y: i64 = draw_indexed(seed, first + 2, -SPAWN_EXTENT, SPAWN_EXTENT).unwrap();
            let unit: Unit = Unit::new(id, handle, x, y, radius, SPAWN_SPEED).unwrap();
            assert(id / UNITS_PER_PLAYER == handle);
            assert(unit == spawned(seed, id));
            units.push(unit);
            k = k + 1;
        }
        handle = handle + 1;
    }
    assert(units@ =~= spawn_spec(seed, num_players));
    units
}

/// Collision symmetry: two overlapping units of equal radius, neither of
/// which holds, receive opposite pushes of equal size.
pub proof fn lemma_collision_symmetry(a: Unit, b: Unit)
    requires
        a.wf(),
        b.wf(),
        a.radius == b.radius,
        a.state.state != UnitState::Hold,
        b.state.state != UnitState::Hold,
        overlapping(a, b),
    ensures
        push_first(a, b) == negated(push_second(a, b)),
        push_second(a, b) == correction(a, b, a.radius.value as int),
{
}

/// Two units with the same centre overlap by the sum of their radii and
/// part along the tie-break direction of the first unit's id; each is pushed
/// by exactly its share, so every coordinate of the push is defined.
pub proof fn lemma_same_centre(a: Unit, b: Unit)
    requires
        a.wf(),
        b.wf(),
        a.position == b.position,
    ensures
        overlapping(a, b),
        separation(a, b) == a.radius.value + b.radius.value,
        contact_normal(a, b) == tie_break(a.id),
        a.id % 2 == 0 ==> push_first(a, b) == (Vector { x: -share_first(a, b), y: 0 })
            && push_second(a, b) == (Vector { x: share_second(a, b), y: 0 }),
        a.id % 2 != 0 ==> push_first(a, b) == (Vector { x: 0, y: -share_first(a, b) })
            && push_second(a, b) == (Vector { x: 0, y: share_second(a, b) }),
{
    let d = offset(a, b);
    let reach = a.radius.value + b.radius.value;
    lemma_coordinate_within_length(d);
    assert(length_sq(d) == 0);
    assert(0 < reach * reach) by (nonlinear_arith)
        requires
            0 < reach,
    ;
    let den = SCALE * reach;
    lemma_scaled_quotient(share_first(a, b), den);
    lemma_scaled_quotient(share_second(a, b), den);
    assert(SCALE * reach * share_first(a, b) == den * share_first(a, b));
    assert(SCALE * reach * share_second(a, b) == den * share_second(a, b));
    assert(0 * reach * share_first(a, b) == 0) by (nonlinear_arith);
    assert(0 * reach * share_second(a, b) == 0) by (nonlinear_arith);
    assert(0int / den == 0) by (nonlinear_arith)
        requires
            den > 0,
    ;
}

/// `den * k / den` is `k`.
proof fn lemma_scaled_quotient(k: int, den: int)
    requires
        0 <= k,
        0 < den,
    ensures
        trunc_div(den * k, den) == k,
{
    assert(den * k >= 0 && (den * k) / den == k) by (nonlinear_arith)
        requires
            0 <= k,
            0 < den,
    ;
}

/// A unit that holds takes no push from any other unit.
pub proof fn lemma_hold_takes_no_push(units: Seq<Unit>, i: int, n: int)
    requires
        units_wf(units),
        0 <= i < units.len(),
        0 <= n <= units.len(),
        units[i].state.state == UnitState::Hold,
    ensures
        total_push(units, i, n) == zero_vector(),
    decreases n,
{
    if n > 0 {
        lemma_hold_takes_no_push(units, i, n - 1);
        let j = n - 1;
        if i < j {
            let a = units[i];
            let b = units[j];
            let den = SCALE * (a.radius.value + b.radius.value);
            assert(contact_normal(a, b).x * separation(a, b) * 0 == 0) by (nonlinear_arith);
            assert(contact_normal(a, b).y * separation(a, b) * 0 == 0) by (nonlinear_arith);
            assert(0int / den == 0) by (nonlinear_arith)
                requires
                    den > 0,
            ;
        } else if j < i {
            let a = units[j];
            let b = units[i];
            let den = SCALE * (a.radius.value + b.radius.value);
            assert(contact_normal(a, b).x * separation(a, b) * 0 == 0) by (nonlinear_arith);
            assert(contact_normal(a, b).y * separation(a, b) * 0 == 0) by (nonlinear_arith);
            assert(0int / den == 0) by (nonlinear_arith)
                requires
                    den > 0,
            ;
        }
    }
}

/// A unit that holds leaves collision as it entered it: no push from another
/// unit changes its velocity.
pub proof fn lemma_hold_unmoved_by_collision(units: Seq<Unit>, i: int)
    requires
        units_wf(units),
        0 <= i < units.len(),
        units[i].state.state == UnitState::Hold,
    ensures
        collision_spec(units)[i] == units[i],
{
    lemma_hold_takes_no_push(units, i, units.len() as int);
}

/// Collision changes velocities only, and keeps the units well formed.
pub proof fn lemma_collision_keeps(units: Seq<Unit>)
    requires
        units_wf(units),
    ensures
        units_wf(collision_spec(units)),
        collision_spec(units).len() == units.len(),
        forall|i: int|
            0 <= i < units.len() ==> (#[trigger] collision_spec(units)[i]) == (Unit {
                velocity: collision_spec(units)[i].velocity,
                ..units[i]
            }),
{
    let after = collision_spec(units);
    assert forall|i: int| 0 <= i < after.len() implies (#[trigger] after[i]).wf() by {
        assert(units[i].wf());
    }
    assert forall|i: int, j: int| 0 <= i < j < after.len() implies (#[trigger] after[i]).id < (
    #[trigger] after[j]).id by {
        assert(units[i].id < units[j].id);
    }
}

/// Orders keep the units well formed.
pub proof fn lemma_orders_keep(units: Seq<Unit>, commands: Seq<Command>)
    requires
        units_wf(units),
    ensures
        units_wf(hold_position_spec(units, commands)),
        units_wf(set_target_position_spec(units, commands)),
{
    let held_units = hold_position_spec(units, commands);
    assert forall|i: int| 0 <= i < held_units.len() implies (#[trigger] held_units[i]).wf() by {
        assert(units[i].wf());
    }
    assert forall|i: int, j: int| 0 <= i < j < held_units.len() implies (
    #[trigger] held_units[i]).id < (#[trigger] held_units[j]).id by {
        assert(units[i].id < units[j].id);
    }
    let sent_units = set_target_position_spec(units, commands);
    assert forall|i: int| 0 <= i < sent_units.len() implies (#[trigger] sent_units[i]).wf() by {
        assert(units[i].wf());
    }
    assert forall|i: int, j: int| 0 <= i < j < sent_units.len() implies (
    #[trigger] sent_units[i]).id < (#[trigger] sent_units[j]).id by {
        assert(units[i].id < units[j].id);
    }
}

/// Damping: a step of movement shrinks each coordinate of the velocity to
/// nine tenths, rounded toward zero. The coordinate keeps its sign, never
/// grows, and shrinks unless it is zero, so a unit that nothing accelerates
/// comes to rest.
pub proof fn lemma_velocity_decays(u: Unit)
    requires
        u.wf(),
    ensures
        moved(u).velocity.x == trunc_div(u.velocity.x * 9, 10),
        moved(u).velocity.y == trunc_div(u.velocity.y * 9, 10),
        u.velocity.x > 0 ==> 0 <= moved(u).velocity.x < u.velocity.x,
        u.velocity.x < 0 ==> u.velocity.x < moved(u).velocity.x <= 0,
        u.velocity.x == 0 ==> moved(u).velocity.x == 0,
        u.velocity.y > 0 ==> 0 <= moved(u).velocity.y < u.velocity.y,
        u.velocity.y < 0 ==> u.velocity.y < moved(u).velocity.y <= 0,
        u.velocity.y == 0 ==> moved(u).velocity.y == 0,
{
    lemma_trunc_div_bound(u.velocity.x * DAMPING_KEPT, 10, COORD_LIMIT as int);
    lemma_trunc_div_bound(u.velocity.y * DAMPING_KEPT, 10, COORD_LIMIT as int);
}

/// `u` is one of `units`.
pub open spec fn found_in(units: Seq<Unit>, u: Unit) -> bool {
    exists|j: int| 0 <= j < units.len() && #[trigger] units[j] == u
}

/// The two sequences hold the same units, each once, in whatever order.
pub open spec fn same_units(first: Seq<Unit>, second: Seq<Unit>) -> bool {
    &&& first.len() == second.len()
    &&& forall|i: int| 0 <= i < first.len() ==> found_in(second, #[trigger] first[i])
    &&& forall|i: int| 0 <= i < second.len() ==> found_in(first, #[trigger] second[i])
}

/// Every unit is well formed.
pub open spec fn all_wf(units: Seq<Unit>) -> bool {
    forall|i: int| 0 <= i < units.len() ==> (#[trigger] units[i]).wf()
}

/// No two units share an id.
pub open spec fn ids_distinct(units: Seq<Unit>) -> bool {
    forall|i: int, j: int|
        0 <= i < j < units.len() ==> (#[trigger] units[i]).id != (#[trigger] units[j]).id
}

/// `u` belongs at place `at` of `units`: the units before it have smaller
/// ids, the units from there on have larger ids.
pub open spec fn belongs_at(units: Seq<Unit>, at: int, u: Unit) -> bool {
    &&& 0 <= at <= units.len()
    &&& forall|j: int| 0 <= j < at ==> (#[trigger] units[j]).id < u.id
    &&& forall|j: int| at <= j < units.len() ==> u.id < (#[trigger] units[j]).id
}

/// A unit put where it belongs keeps the sequence well formed.
proof fn lemma_insert_keeps_order(before: Seq<Unit>, at: int, u: Unit)
    requires
        units_wf(before),
        u.wf(),
        belongs_at(before, at, u),
    ensures
        units_wf(before.insert(at, u)),
{
    let after = before.insert(at, u);
    assert forall|j: int| 0 <= j < after.len() implies (#[trigger] after[j]).wf() by {
        if j < at {
            assert(after[j] == before[j]);
        } else if j > at {
            assert(after[j] == before[j - 1]);
        }
    }
    assert forall|j: int, l: int| 0 <= j < l < after.len() implies (#[trigger] after[j]).id < (
    #[trigger] after[l]).id by {
        if j < at {
            assert(after[j] == before[j]);
        } else if j > at {
            assert(after[j] == before[j - 1]);
        }
        if l < at {
            assert(after[l] == before[l]);
        } else if l > at {
            assert(after[l] == before[l - 1]);
        }
    }
}

/// After the unit at place `i` is put in, the sequence holds the first
/// `i + 1` units and no others.
proof fn lemma_insert_keeps_units(units: Seq<Unit>, i: int, before: Seq<Unit>, at: int)
    requires
        0 <= i < units.len(),
        before.len() == i,
        0 <= at <= i,
        forall|k: int| 0 <= k < i ==> found_in(before, #[trigger] units[k]),
        forall|j: int| 0 <= j < i ==> found_in(units.take(i), #[trigger] before[j]),
    ensures
        forall|k: int| 0 <= k < i + 1 ==> found_in(before.insert(at, units[i]), #[trigger] units[k]),
        forall|j: int|
            0 <= j < i + 1 ==> found_in(
                units.take(i + 1),
                #[trigger] before.insert(at, units[i])[j],
            ),
{
    let after = before.insert(at, units[i]);
    assert forall|k: int| 0 <= k < i + 1 implies found_in(after, #[trigger] units[k]) by {
        if k < i {
            let j = choose|j: int| 0 <= j < before.len() && #[trigger] before[j] == units[k];
            if j < at {
                assert(after[j] == units[k]);
            } else {
                assert(after[j + 1] == units[k]);
            }
        } else {
            assert(after[at] == units[k]);
        }
    }
    let prefix = units.take(i + 1);
    assert forall|j: int| 0 <= j < i + 1 implies found_in(prefix, #[trigger] after[j]) by {
        if j == at {
            assert(prefix[i] == after[j]);
        } else {
            let was = if j < at {
                before[j]
            } else {
                before[j - 1]
            };
            assert(after[j] == was);
            assert(found_in(units.take(i), was));
            let k = choose|k: int| 0 <= k < units.take(i).len() && #[trigger] units.take(i)[k] == was;
            assert(prefix[k] == was);
        }
    }
}

/// A unit that belongs between the units taken so far shares its id with
/// none of them.
proof fn lemma_insert_keeps_distinct(units: Seq<Unit>, i: int, before: Seq<Unit>, at: int)
    requires
        0 <= i < units.len(),
        belongs_at(before, at, units[i]),
        forall|k: int| 0 <= k < i ==> found_in(before, #[trigger] units[k]),
        forall|k: int, l: int|
            0 <= k < l < i ==> (#[trigger] units[k]).id != (#[trigger] units[l]).id,
    ensures
        forall|k: int, l: int|
            0 <= k < l < i + 1 ==> (#[trigger] units[k]).id != (#[trigger] units[l]).id,
{
    assert forall|k: int, l: int| 0 <= k < l < i + 1 implies (#[trigger] units[k]).id != (
    #[trigger] units[l]).id by {
        if l == i {
            let j = choose|j: int| 0 <= j < before.len() && #[trigger] before[j] == units[k];
            assert(before[j].id != units[i].id);
        }
    }
}

/// Puts units into processing order: ascending by id.
///
/// The units may come in any order, as an engine hands them out. `None`
/// when a unit is malformed or two units share an id. Else the result holds
/// the same units and is well formed; by `lemma_order_is_canonical` it is
/// the same for every order in which the units came.
pub fn sort_units(units: &Vec<Unit>) -> (r: Option<Vec<Unit>>)
    ensures
        r is Some <==> all_wf(units@) && ids_distinct(units@),
        r is Some ==> units_wf((r->0)@) && same_units(units@, (r->0)@),
{
    let n: usize = units.len();
    let mut out: Vec<Unit> = Vec::new();
    let mut i: usize = 0;
    while i < n
        invariant
            i <= n,
            n == units.len(),
            out.len() == i,
            units_wf(out@),
            forall|k: int| 0 <= k < i ==> (#[trigger] units@[k]).wf(),
            forall|k: int| 0 <= k < i ==> found_in(out@, #[trigger] units@[k]),
            forall|j: int| 0 <= j < i ==> found_in(units@.take(i as int), #[trigger] out@[j]),
            forall|k: int, l: int|
                0 <= k < l < i ==> (#[trigger] units@[k]).id != (#[trigger] units@[l]).id,
        decreases n - i,
    {
        let u: Unit = units[i];
        if !u.is_valid() {
            return None;
        }
        let len: usize = out.len();
        let mut at: usize = 0;
        while at < len && out[at].id < u.id
            invariant
                at <= len,
                len == out.len(),
                forall|j: int| 0 <= j < at ==> (#[trigger] out@[j]).id < u.id,
            decreases len - at,
        {
            at = at + 1;
        }
        if at < len && out[at].id == u.id {
            proof {
                let twin = out@[at as int];
                assert(found_in(units@.take(i as int), twin));
                let k = choose|k: int|
                    0 <= k < units@.take(i as int).len() && #[trigger] units@.take(i as int)[k]
                        == twin;
                assert(units@[k].id == units@[i as int].id);
            }
            return None;
        }
        let ghost before = out@;
        proof {
            assert forall|j: int| at <= j < before.len() implies u.id < (#[trigger] before[j]).id by {
                if j > at {
                    assert(before[at as int].id < before[j].id);
                }
            }
            assert(belongs_at(before, at as int, u));
        }
        out.insert(at, u);
        proof {
            lemma_insert_keeps_order(before, at as int, u);
            lemma_insert_keeps_units(units@, i as int, before, at as int);
            lemma_insert_keeps_distinct(units@, i as int, before, at as int);
        }
        i = i + 1;
    }
    proof {
        assert(units@.take(n as int) =~= units@);
    }
    Some(out)
}

/// The processing order is canonical: two well-formed sequences that hold
/// the same units are the same sequence. So the world that `sort_units`
/// builds, and with it every step, does not depend on the order in which the
/// units were stored before.
pub proof fn lemma_order_is_canonical(first: Seq<Unit>, second: Seq<Unit>)
    requires
        units_wf(first),
        units_wf(second),
        same_units(first, second),
    ensures
        first == second,
    decreases first.len(),
{
    if first.len() == 0 {
        assert(first =~= second);
    } else {
        assert(found_in(second, first[0]));
        assert(found_in(first, second[0]));
        let j = choose|j: int| 0 <= j < second.len() && #[trigger] second[j] == first[0];
        let i = choose|i: int| 0 <= i < first.len() && #[trigger] first[i] == second[0];
        if i > 0 {
            assert(first[0].id < first[i].id);
        }
        if j > 0 {
            assert(second[0].id < second[j].id);
        }
        assert(first[0] == second[0]);
        let rest_first = first.drop_first();
        let rest_second = second.drop_first();
        assert forall|k: int| 0 <= k < rest_first.len() implies found_in(
            rest_second,
            #[trigger] rest_first[k],
        ) by {
            assert(rest_first[k] == first[k + 1]);
            assert(found_in(second, first[k + 1]));
            let l = choose|l: int| 0 <= l < second.len() && #[trigger] second[l] == first[k + 1];
            assert(first[0].id < first[k + 1].id);
            assert(rest_second[l - 1] == second[l]);
        }
        assert forall|k: int| 0 <= k < rest_second.len() implies found_in(
            rest_first,
            #[trigger] rest_second[k],
        ) by {
            assert(rest_second[k] == second[k + 1]);
            assert(found_in(first, second[k + 1]));
            let l = choose|l: int| 0 <= l < first.len() && #[trigger] first[l] == second[k + 1];
            assert(second[0].id < second[k + 1].id);
            assert(rest_first[l - 1] == first[l]);
        }
        assert(units_wf(rest_first)) by {
            assert forall|k: int| 0 <= k < rest_first.len() implies (#[trigger] rest_first[k]).wf() by {
                assert(first[k + 1].wf());
            }
            assert forall|k: int, l: int| 0 <= k < l < rest_first.len() implies (
            #[trigger] rest_first[k]).id < (#[trigger] rest_first[l]).id by {
                assert(first[k + 1].id < first[l + 1].id);
            }
        }
        assert(units_wf(rest_second)) by {
            assert forall|k: int| 0 <= k < rest_second.len() implies (
            #[trigger] rest_second[k]).wf() by {
                assert(second[k + 1].wf());
            }
            assert forall|k: int, l: int| 0 <= k < l < rest_second.len() implies (
            #[trigger] rest_second[k]).id < (#[trigger] rest_second[l]).id by {
                assert(second[k + 1].id < second[l + 1].id);
            }
        }
        lemma_order_is_canonical(rest_first, rest_second);
        assert(first =~= seq![first[0]] + rest_first);
        assert(second =~= seq![second[0]] + rest_second);
    }
}

/// In a world of two units, each takes the push of the pair and nothing
/// else.
pub proof fn lemma_pushes_of_two(a: Unit, b: Unit)
    ensures
        total_push(seq![a, b], 0, 2) == push_first(a, b),
        total_push(seq![a, b], 1, 2) == push_second(a, b),
{
    reveal_with_fuel(total_push, 3);
    let units = seq![a, b];
    assert(units[0] == a && units[1] == b);
}

/// `v` plus the push `p` stays within the world's limit, so that collision
/// does not cut it.
pub open spec fn takes_whole_push(v: Velocity, p: Vector) -> bool {
    in_world(v.x + p.x) && in_world(v.y + p.y)
}

/// Collision symmetry for the velocities: in a world of two overlapping
/// units of equal radius, neither of which holds, collision changes the two
/// velocities by opposite amounts, and the change of the second is half the
/// separation along the normal. This holds where neither velocity is cut at
/// the world's limit.
pub proof fn lemma_equal_units_part_evenly(a: Unit, b: Unit)
    requires
        units_wf(seq![a, b]),
        a.radius == b.radius,
        a.state.state != UnitState::Hold,
        b.state.state != UnitState::Hold,
        overlapping(a, b),
        takes_whole_push(a.velocity, push_first(a, b)),
        takes_whole_push(b.velocity, push_second(a, b)),
    ensures
        ({
            let after = collision_spec(seq![a, b]);
            let n = contact_normal(a, b);
            let s = separation(a, b);
            &&& after[1].velocity.x - b.velocity.x == trunc_div(n.x * s, 2 * SCALE)
            &&& after[1].velocity.y - b.velocity.y == trunc_div(n.y * s, 2 * SCALE)
            &&& after[0].velocity.x - a.velocity.x == -(after[1].velocity.x - b.velocity.x)
            &&& after[0].velocity.y - a.velocity.y == -(after[1].velocity.y - b.velocity.y)
        }),
{
    let units = seq![a, b];
    assert(units[0] == a && units[1] == b);
    assert(a.wf() && b.wf());
    lemma_pushes_of_two(a, b);
    let n = contact_normal(a, b);
    let s = separation(a, b);
    let r = a.radius.value as int;
    lemma_trunc_div_cancels(n.x * s, r, 2 * SCALE);
    lemma_trunc_div_cancels(n.y * s, r, 2 * SCALE);
    assert(SCALE * (r + r) == (2 * SCALE) * r) by (nonlinear_arith);
}

/// A holding unit is immovable and the other unit takes the whole
/// separation: in a world of two overlapping units of which exactly one
/// holds, collision leaves the holding unit as it is and pushes the other
/// away from it by the separation along the normal. This holds where the
/// velocity of the free unit is not cut at the world's limit.
pub proof fn lemma_free_unit_takes_all(a: Unit, b: Unit)
    requires
        units_wf(seq![a, b]),
        overlapping(a, b),
        (a.state.state == UnitState::Hold) != (b.state.state == UnitState::Hold),
        takes_whole_push(a.velocity, push_first(a, b)),
        takes_whole_push(b.velocity, push_second(a, b)),
    ensures
        ({
            let after = collision_spec(seq![a, b]);
            let n = contact_normal(a, b);
            let s = separation(a, b);
            &&& a.state.state == UnitState::Hold ==> {
                &&& after[0] == a
                &&& after[1].velocity.x - b.velocity.x == trunc_div(n.x * s, SCALE as int)
                &&& after[1].velocity.y - b.velocity.y == trunc_div(n.y * s, SCALE as int)
                &&& after[1].state == b.state
            }
            &&& b.state.state == UnitState::Hold ==> {
                &&& after[1] == b
                &&& after[0].velocity.x - a.velocity.x == -trunc_div(n.x * s, SCALE as int)
                &&& after[0].velocity.y - a.velocity.y == -trunc_div(n.y * s, SCALE as int)
                &&& after[0].state == a.state
            }
        }),
{
    let units = seq![a, b];
    assert(units[0] == a && units[1] == b);
    assert(a.wf() && b.wf());
    lemma_pushes_of_two(a, b);
    let n = contact_normal(a, b);
    let s = separation(a, b);
    let reach = a.radius.value + b.radius.value;
    lemma_trunc_div_cancels(n.x * s, reach, SCALE as int);
    lemma_trunc_div_cancels(n.y * s, reach, SCALE as int);
    if a.state.state == UnitState::Hold {
        lemma_hold_unmoved_by_collision(units, 0);
    } else {
        lemma_hold_unmoved_by_collision(units, 1);
    }
}

} // verus!
