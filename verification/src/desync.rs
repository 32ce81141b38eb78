//! Detection of peers whose worlds have drifted apart.
//!
//! Peers exchange a checksum of the world at agreed frames. The checksum is
//! a sum over the units, so it does not depend on the order in which they
//! are visited; it covers what the simulation keeps in step between peers
//! (id, position, velocity, state) and leaves the selection out.
use vstd::prelude::*;
use crate::component::{Unit, UnitState};
use crate::input::{to_word, word_of};
use crate::world::{World, WorldState};

verus! {

/// The multiplier of the mixing step.
pub const MIX_MULTIPLIER: u64 = 0x100_0000_01b3;

/// The start value of a unit's digest.
pub const MIX_START: u64 = 0xcbf2_9ce4_8422_2325;

/// One mixing step: `h * MIX_MULTIPLIER + v`, reduced to 64 bits.
pub open spec fn mixed(h: int, v: int) -> int {
    (h * MIX_MULTIPLIER + v) % 0x1_0000_0000_0000_0000
}

/// The number that stands for a state in a digest.
pub open spec fn state_code(state: UnitState) -> int {
    match state {
        UnitState::Idle => 0,
        UnitState::Move => 1,
        UnitState::Hold => 2,
    }
}

/// The digest of one unit: its id, position, velocity and state, mixed in
/// that order.
pub open spec fn unit_digest(u: Unit) -> int {
    let h0 = mixed(MIX_START as int, u.id as int);
    let h1 = mixed(h0, word_of(u.position.x));
    let h2 = mixed(h1, word_of(u.position.y));
    let h3 = mixed(h2, word_of(u.velocity.x));
    let h4 = mixed(h3, word_of(u.velocity.y));
    mixed(h4, state_code(u.state.state))
}

/// The sum of the digests of `units`.
pub open spec fn digest_sum(units: Seq<Unit>) -> int
    decreases units.len(),
{
    if units.len() == 0 {
        0
    } else {
        digest_sum(units.drop_last()) + unit_digest(units.last())
    }
}

/// The checksum of a world: the sum of the digests of its units, reduced to
/// 64 bits.
pub open spec fn checksum_spec(world: World) -> int {
    digest_sum(world.units) % 0x1_0000_0000_0000_0000
}

/// What a peer says of its world at a frame.
#[derive(Clone, Copy, Debug, PartialEq, Eq, Structural)]
pub struct DesyncReport {
    pub frame: u32,
    pub peer: usize,
    pub checksum: u64,
}

/// Reducing a sum before a term is added does not change the reduced sum.
proof fn lemma_sum_reduced(a: int, d: int)
    ensures
        (a % 0x1_0000_0000_0000_0000 + d) % 0x1_0000_0000_0000_0000 == (a + d)
            % 0x1_0000_0000_0000_0000,
{
}

/// One mixing step.
fn mix(h: u64, v: u64) -> (r: u64)
    ensures
        r == mixed(h as int, v as int),
{
    assert(h * MIX_MULTIPLIER <= 0xffff_ffff_ffff_ffff * 0x100_0000_01b3) by (nonlinear_arith)
        requires
            0 <= h <= 0xffff_ffff_ffff_ffff,
            MIX_MULTIPLIER == 0x100_0000_01b3,
    ;
    let wide: u128 = h as u128 * (MIX_MULTIPLIER as u128) + v as u128;
    (wide % 0x1_0000_0000_0000_0000) as u64
}

/// The digest of one unit.
pub fn digest(u: &Unit) -> (d: u64)
    ensures
        d == unit_digest(*u),
{
    let code: u64 = match u.state.state {
        UnitState::Idle => 0,
        UnitState::Move => 1,
        UnitState::Hold => 2,
    };
    let h0: u64 = mix(MIX_START, u.id as u64);
    let h1: u64 = mix(h0, to_word(u.position.x));
    let h2: u64 = mix(h1, to_word(u.position.y));
    let h3: u64 = mix(h2, to_word(u.velocity.x));
    let h4: u64 = mix(h3, to_word(u.velocity.y));
    mix(h4, code)
}

/// The checksum of a world.
pub fn checksum(world: &WorldState) -> (sum: u64)
    ensures
        sum == checksum_spec(world@),
{
    let n: usize = world.units.len();
    let mut sum: u64 = 0;
    let mut i: usize = 0;
    assert(world.units@.take(0) =~= Seq::<Unit>::empty());
    while i < n
        invariant
            i <= n,
            n == world.units.len(),
            sum == digest_sum(world.units@.take(i as int)) % 0x1_0000_0000_0000_0000,
        decreases n - i,
    {
        let d: u64 = digest(&world.units[i]);
        proof {
            let next = world.units@.take(i + 1);
            assert(next.drop_last() =~= world.units@.take(i as int));
            assert(next.last() == world.units@[i as int]);
            lemma_sum_reduced(digest_sum(world.units@.take(i as int)), d as int);
        }
        sum = ((sum as u128 + d as u128) % 0x1_0000_0000_0000_0000) as u64;
        i = i + 1;
    }
    assert(world.units@.take(n as int) =~= world.units@);
    sum
}

/// Whether two reports of the same frame disagree. Reports of different
/// frames say nothing of each other.
pub fn mismatch(local: &DesyncReport, remote: &DesyncReport) -> (b: bool)
    ensures
        b == (local.frame == remote.frame && local.checksum != remote.checksum),
{
    local.frame == remote.frame && local.checksum != remote.checksum
}

/// Whether peers exchange checksums at `frame`: at every multiple of a
/// positive `interval`, and never for an `interval` of zero.
pub fn check_due(frame: u32, interval: u32) -> (b: bool)
    ensures
        b == (interval > 0 && frame % interval == 0),
{
    interval > 0 && frame % interval == 0
}

/// Replacing one unit changes the sum of the digests by the difference of
/// the two digests.
pub proof fn lemma_digest_sum_update(units: Seq<Unit>, i: int, u: Unit)
    requires
        0 <= i < units.len(),
    ensures
        digest_sum(units.update(i, u)) == digest_sum(units) - unit_digest(units[i]) + unit_digest(u),
    decreases units.len(),
{
    let after = units.update(i, u);
    if i == units.len() - 1 {
        assert(after.drop_last() =~= units.drop_last());
    } else {
        lemma_digest_sum_update(units.drop_last(), i, u);
        assert(after.drop_last() =~= units.drop_last().update(i, u));
    }
}

/// The checksum does not depend on the order of the units: exchanging two
/// of them leaves it as it is.
pub proof fn lemma_checksum_order_independent(world: World, i: int, j: int)
    requires
        0 <= i < world.units.len(),
        0 <= j < world.units.len(),
    ensures
        checksum_spec(
            World {
                units: world.units.update(i, world.units[j]).update(j, world.units[i]),
                ..world
            },
        ) == checksum_spec(world),
{
    let first = world.units.update(i, world.units[j]);
    lemma_digest_sum_update(world.units, i, world.units[j]);
    lemma_digest_sum_update(first, j, world.units[i]);
}

/// The checksum covers the synchronized state only: a unit's selection and
/// the frame number do not enter it.
pub proof fn lemma_checksum_ignores_selection(world: World, i: int, selected: bool, frame: int)
    requires
        0 <= i < world.units.len(),
    ensures
        checksum_spec(
            World { frame, units: world.units.update(i, Unit { selected, ..world.units[i] }) },
        ) == checksum_spec(world),
{
    lemma_digest_sum_update(world.units, i, Unit { selected, ..world.units[i] });
}

} // verus!
