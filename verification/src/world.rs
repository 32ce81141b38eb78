//! The world and the simulation step.
use vstd::prelude::*;
use crate::component::{TargetPosition, Unit, UnitState};
use crate::fixed::{clamp, lemma_trunc_div_bound, length_sq, Vector, COORD_LIMIT};
use crate::input::{command_of, Command, CommandKind};
use crate::unit::{
    all_wf, ids_distinct, same_units, sort_units, beyond_reach, collision, collision_spec, hold_applied, hold_position, hold_position_spec,
    lemma_collision_keeps, lemma_hold_unmoved_by_collision, lemma_orders_keep,
    move_towards_target, move_towards_target_spec, moved, movement, movement_spec, sent,
    set_target_position, set_target_position_spec, spawn, spawn_spec, steered, units_valid,
    units_wf, UNITS_PER_PLAYER,
};

verus! {

/// A world as contracts see it: the number of the frame that is simulated
/// next, and the units in processing order.
pub struct World {
    pub frame: int,
    pub units: Seq<Unit>,
}

/// The state of the simulation between two steps.
#[derive(Debug, PartialEq, Eq)]
pub struct WorldState {
    pub frame: u32,
    pub units: Vec<Unit>,
}

impl View for WorldState {
    type V = World;

    open spec fn view(&self) -> World {
        World { frame: self.frame as int, units: self.units@ }
    }
}

/// The world after one step under the commands of the frame.
///
/// The stages run in a fixed order: hold orders, move orders, collision,
/// steering, movement; then the frame number advances.
pub open spec fn step_spec(world: World, commands: Seq<Command>) -> World {
    World {
        frame: world.frame + 1,
        units: movement_spec(
            move_towards_target_spec(
                collision_spec(
                    set_target_position_spec(
                        hold_position_spec(world.units, commands),
                        commands,
                    ),
                ),
            ),
        ),
    }
}

/// The world after one step for each command set of `history`, in order.
pub open spec fn run_spec(world: World, history: Seq<Seq<Command>>) -> World
    decreases history.len(),
{
    if history.len() == 0 {
        world
    } else {
        step_spec(run_spec(world, history.drop_last()), history.last())
    }
}

/// The command sets of `history` as sequences.
pub open spec fn history_view(history: Seq<Vec<Command>>) -> Seq<Seq<Command>> {
    Seq::new(history.len(), |i: int| history[i]@)
}

impl WorldState {
    /// The units are well formed and in ascending order of id.
    pub open spec fn wf(&self) -> bool {
        units_wf(self.units@)
    }

    /// The world at frame 0 with the given units; `None` unless the units are
    /// well formed and in ascending order of id.
    pub fn new(units: Vec<Unit>) -> (r: Option<WorldState>)
        ensures
            r is Some <==> units_wf(units@),
            r is Some ==> (r->0)@ == (World { frame: 0, units: units@ }) && (r->0).wf(),
    {
        if units_valid(&units) {
            Some(WorldState { frame: 0, units })
        } else {
            None
        }
    }

    /// The world at frame 0 with the given units, brought into processing
    /// order. `None` when a unit is malformed or two units share an id. The
    /// world is the same for every order in which the units are given.
    pub fn from_units(units: &Vec<Unit>) -> (r: Option<WorldState>)
        ensures
            r is Some <==> all_wf(units@) && ids_distinct(units@),
            r is Some ==> (r->0).wf() && (r->0).frame == 0 && same_units(
                units@,
                (r->0)@.units,
            ),
    {
        match sort_units(units) {
            Some(sorted) => Some(WorldState { frame: 0, units: sorted }),
            None => None,
        }
    }

    /// The world at frame 0 of a session of `num_players` players seeded
    /// with `seed`.
    pub fn spawn(seed: u64, num_players: usize) -> (world: WorldState)
        requires
            num_players * UNITS_PER_PLAYER <= u32::MAX,
        ensures
            world@ == (World { frame: 0, units: spawn_spec(seed, num_players) }),
            world.wf(),
    {
        WorldState { frame: 0, units: spawn(seed, num_players) }
    }

    /// Whether the world is well formed.
    pub fn is_valid(&self) -> (b: bool)
        ensures
            b == self.wf(),
    {
        units_valid(&self.units)
    }

    /// A copy of the world.
    pub fn duplicate(&self) -> (copy: WorldState)
        ensures
            copy@ == self@,
    {
        let n: usize = self.units.len();
        let mut units: Vec<Unit> = Vec::new();
        let mut i: usize = 0;
        while i < n
            invariant
                i <= n,
                n == self.units.len(),
                units.len() == i,
                forall|k: int| 0 <= k < i ==> units@[k] == self.units@[k],
            decreases n - i,
        {
            units.push(self.units[i]);
            i = i + 1;
        }
        assert(units@ =~= self.units@);
        WorldState { frame: self.frame, units }
    }

    /// Whether two worlds are the same, unit for unit.
    pub fn same_as(&self, other: &WorldState) -> (b: bool)
        ensures
            b == (self@ == other@),
    {
        if self.frame != other.frame || self.units.len() != other.units.len() {
            return false;
        }
        let n: usize = self.units.len();
        let mut i: usize = 0;
        while i < n
            invariant
                i <= n,
                n == self.units.len(),
                n == other.units.len(),
                forall|k: int| 0 <= k < i ==> self.units@[k] == other.units@[k],
            decreases n - i,
        {
            if self.units[i] != other.units[i] {
                return false;
            }
            i = i + 1;
        }
        assert(self.units@ =~= other.units@);
        true
    }

    /// Advances the world by one frame under the commands of that frame.
    ///
    /// The result depends on the world and the commands alone.
    pub fn step(&mut self, commands: &Vec<Command>)
        requires
            old(self).wf(),
            old(self).frame < u32::MAX,
        ensures
            final(self)@ == step_spec(old(self)@, commands@),
            final(self).wf(),
    {
        hold_position(&mut self.units, commands);
        set_target_position(&mut self.units, commands);
        collision(&mut self.units);
        move_towards_target(&mut self.units);
        movement(&mut self.units);
        self.frame = self.frame + 1;
    }

    /// Advances the world by one frame for each command set of `history`.
    pub fn run(&mut self, history: &Vec<Vec<Command>>)
        requires
            old(self).wf(),
            old(self).frame + history.len() <= u32::MAX,
        ensures
            final(self)@ == run_spec(old(self)@, history_view(history@)),
            final(self).wf(),
    {
        let n: usize = history.len();
        let ghost sets = history_view(history@);
        let mut i: usize = 0;
        assert(sets.take(0) =~= Seq::<Seq<Command>>::empty());
        while i < n
            invariant
                i <= n,
                n == history.len(),
                sets == history_view(history@),
                self.wf(),
                self.frame == old(self).frame + i,
                old(self).frame + n <= u32::MAX,
                self@ == run_spec(old(self)@, sets.take(i as int)),
            decreases n - i,
        {
            self.step(&history[i]);
            proof {
                let next = sets.take(i + 1);
                assert(next.drop_last() =~= sets.take(i as int));
                assert(next.last() == history@[i as int]@);
            }
            i = i + 1;
        }
        assert(sets.take(n as int) =~= sets);
    }
}

/// Determinism: equal worlds under equal commands step to equal worlds, so
/// two runs from one world under one history agree at every frame.
pub proof fn lemma_determinism(
    first: World,
    second: World,
    history_first: Seq<Seq<Command>>,
    history_second: Seq<Seq<Command>>,
    n: int,
)
    requires
        first == second,
        history_first == history_second,
        0 <= n <= history_first.len(),
    ensures
        run_spec(first, history_first.take(n)) == run_spec(second, history_second.take(n)),
{
}

/// A step keeps the units well formed and advances the frame by one.
pub proof fn lemma_step_keeps(world: World, commands: Seq<Command>)
    requires
        units_wf(world.units),
    ensures
        units_wf(step_spec(world, commands).units),
        step_spec(world, commands).units.len() == world.units.len(),
        step_spec(world, commands).frame == world.frame + 1,
{
    let held_units = hold_position_spec(world.units, commands);
    lemma_orders_keep(world.units, commands);
    let sent_units = set_target_position_spec(held_units, commands);
    lemma_orders_keep(held_units, commands);
    let pushed = collision_spec(sent_units);
    lemma_collision_keeps(sent_units);
    let turned = move_towards_target_spec(pushed);
    assert forall|i: int| 0 <= i < turned.len() implies (#[trigger] turned[i]).wf() by {
        assert(pushed[i].wf());
        lemma_steered_keeps(pushed[i]);
    }
    assert forall|i: int, j: int| 0 <= i < j < turned.len() implies (#[trigger] turned[i]).id < (
    #[trigger] turned[j]).id by {
        assert(pushed[i].id < pushed[j].id);
    }
    let after = movement_spec(turned);
    assert forall|i: int| 0 <= i < after.len() implies (#[trigger] after[i]).wf() by {
        assert(turned[i].wf());
        lemma_moved_keeps(turned[i]);
    }
    assert forall|i: int, j: int| 0 <= i < j < after.len() implies (#[trigger] after[i]).id < (
    #[trigger] after[j]).id by {
        assert(turned[i].id < turned[j].id);
    }
}

/// Steering keeps a unit well formed.
pub proof fn lemma_steered_keeps(u: Unit)
    requires
        u.wf(),
    ensures
        steered(u).wf(),
        steered(u).id == u.id,
{
}

/// Movement keeps a unit well formed.
pub proof fn lemma_moved_keeps(u: Unit)
    requires
        u.wf(),
    ensures
        moved(u).wf(),
        moved(u).id == u.id,
{
    lemma_trunc_div_bound(u.velocity.x * 9, 10, COORD_LIMIT as int);
    lemma_trunc_div_bound(u.velocity.y * 9, 10, COORD_LIMIT as int);
}

/// A run keeps the units well formed and advances the frame by its length.
pub proof fn lemma_run_keeps(world: World, history: Seq<Seq<Command>>)
    requires
        units_wf(world.units),
    ensures
        units_wf(run_spec(world, history).units),
        run_spec(world, history).frame == world.frame + history.len(),
    decreases history.len(),
{
    if history.len() > 0 {
        lemma_run_keeps(world, history.drop_last());
        lemma_step_keeps(run_spec(world, history.drop_last()), history.last());
    }
}

/// A run over a history is the run over its first part followed by the run
/// over the rest.
pub proof fn lemma_run_split(world: World, history: Seq<Seq<Command>>, f: int)
    requires
        0 <= f <= history.len(),
    ensures
        run_spec(world, history) == run_spec(run_spec(world, history.take(f)), history.skip(f)),
    decreases history.len(),
{
    if f == history.len() {
        assert(history.take(f) =~= history);
        assert(history.skip(f) =~= Seq::<Seq<Command>>::empty());
    } else {
        let shorter = history.drop_last();
        lemma_run_split(world, shorter, f);
        assert(shorter.take(f) =~= history.take(f));
        assert(shorter.skip(f) =~= history.skip(f).drop_last());
        assert(history.skip(f).last() == history.last());
    }
}

/// Resimulation equivalence: let a world run `f` frames under predicted
/// commands that were right up to frame `f`, and keep the state it reached as
/// a snapshot. Going back to that snapshot and running the frames from `f`
/// on under the corrected commands gives the world that a straight run under
/// the corrected commands gives.
pub proof fn lemma_resimulation_equivalence(
    world: World,
    predicted: Seq<Seq<Command>>,
    corrected: Seq<Seq<Command>>,
    f: int,
)
    requires
        predicted.len() == corrected.len(),
        0 <= f <= corrected.len(),
        predicted.take(f) == corrected.take(f),
    ensures
        run_spec(run_spec(world, predicted.take(f)), corrected.skip(f)) == run_spec(
            world,
            corrected,
        ),
{
    lemma_run_split(world, corrected, f);
}

/// A selected unit that is ordered to a point within its radius is idle
/// after the step, and steering has added nothing to its velocity: the unit
/// leaves the step as movement leaves the unit that collision produced.
pub proof fn lemma_short_move_ends_idle(
    world: World,
    commands: Seq<Command>,
    i: int,
    x: i64,
    y: i64,
)
    requires
        units_wf(world.units),
        0 <= i < world.units.len(),
        world.units[i].selected,
        command_of(commands, world.units[i].player.handle) == (CommandKind::Move { x, y }),
        length_sq(
            Vector { x: x - world.units[i].position.x, y: y - world.units[i].position.y },
        ) <= world.units[i].radius.value * world.units[i].radius.value,
    ensures
        step_spec(world, commands).units[i].state.state == UnitState::Idle,
        step_spec(world, commands).units[i].target == (TargetPosition {
            x: clamp(x as int, COORD_LIMIT as int) as i64,
            y: clamp(y as int, COORD_LIMIT as int) as i64,
        }),
        step_spec(world, commands).units[i].velocity == moved(
            collision_spec(
                set_target_position_spec(hold_position_spec(world.units, commands), commands),
            )[i],
        ).velocity,
{
    let u = world.units[i];
    let held_units = hold_position_spec(world.units, commands);
    lemma_orders_keep(world.units, commands);
    let sent_units = set_target_position_spec(held_units, commands);
    lemma_orders_keep(held_units, commands);
    assert(held_units[i] == u);
    assert(sent_units[i] == sent(u, x, y));
    lemma_collision_keeps(sent_units);
    let c = collision_spec(sent_units)[i];
    let cx = clamp(x as int, COORD_LIMIT as int);
    let cy = clamp(y as int, COORD_LIMIT as int);
    let px = u.position.x as int;
    let py = u.position.y as int;
    assert((cx - px) * (cx - px) <= (x - px) * (x - px)) by (nonlinear_arith)
        requires
            (0 <= cx - px <= x - px) || (x - px <= cx - px <= 0),
    ;
    assert((cy - py) * (cy - py) <= (y - py) * (y - py)) by (nonlinear_arith)
        requires
            (0 <= cy - py <= y - py) || (y - py <= cy - py <= 0),
    ;
    assert(!beyond_reach(c));
}

/// Hold is sticky: a unit that holds, and that no move order reaches, still
/// holds after the step, and no other unit has changed its velocity. It
/// leaves the step as movement leaves the unit that the hold orders produced.
pub proof fn lemma_hold_is_sticky(world: World, commands: Seq<Command>, i: int)
    requires
        units_wf(world.units),
        0 <= i < world.units.len(),
        world.units[i].state.state == UnitState::Hold,
        !world.units[i].selected || !(command_of(commands, world.units[i].player.handle) is Move),
    ensures
        step_spec(world, commands).units[i] == moved(hold_applied(world.units[i], commands)),
        step_spec(world, commands).units[i].state.state == UnitState::Hold,
        world.units[i].velocity.x == 0 && world.units[i].velocity.y == 0 ==> step_spec(
            world,
            commands,
        ).units[i] == hold_applied(world.units[i], commands),
{
    let u = world.units[i];
    let held_units = hold_position_spec(world.units, commands);
    lemma_orders_keep(world.units, commands);
    let sent_units = set_target_position_spec(held_units, commands);
    lemma_orders_keep(held_units, commands);
    assert(held_units[i] == hold_applied(u, commands));
    assert(sent_units[i] == held_units[i]);
    lemma_hold_unmoved_by_collision(sent_units, i);
    assert(0int / 60 == 0 && 0int / 10 == 0);
    assert(u.wf());
}

} // verus!
