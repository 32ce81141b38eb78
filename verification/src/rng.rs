//! Seeded random draws.
//!
//! Every peer must spawn the same world, so no draw depends on anything but
//! the seed that the peers agreed on.
use rand::rngs::StdRng;
use rand::{Rng, SeedableRng};
use vstd::prelude::*;

verus! {

/// The first value that the `rand` crate's `StdRng`, seeded with `seed` by
/// `seed_from_u64`, yields for `gen_range(low..high)`.
pub uninterp spec fn seeded_draw(seed: u64, low: int, high: int) -> int;

/// Draws one value of `low..high` from a generator seeded with `seed`.
///
/// Calls `StdRng::seed_from_u64` and then `Rng::gen_range` of the `rand`
/// crate. Not proved: that the value lies in the half-open range, which
/// `gen_range` documents (it panics on an empty range, which the
/// precondition rules out), and that it depends on the seed and the bounds
/// alone, which holds because the generator is built here from the seed and
/// dropped after one draw. The algorithm behind `StdRng` may change from one
/// release of `rand` to another, so peers of one session must be built with
/// the same release.
#[verifier::external_body]
pub(crate) fn draw(seed: u64, low: i64, high: i64) -> (value: i64)
    requires
        low < high,
    ensures
        value == seeded_draw(seed, low as int, high as int),
        low <= value < high,
{
    StdRng::seed_from_u64(seed).gen_range(low..high)
}

/// The seed of the `index`-th draw of a session seeded with `seed`.
pub open spec fn stream_seed(seed: u64, index: int) -> u64 {
    ((seed + index) % 0x1_0000_0000_0000_0000) as u64
}

/// The `index`-th draw of a session seeded with `seed`, from `low..high`.
pub open spec fn session_draw(seed: u64, index: int, low: int, high: int) -> int {
    seeded_draw(stream_seed(seed, index), low, high)
}

/// Draws the `index`-th value of a session seeded with `seed` from
/// `low..high`; `None` for an empty range.
pub fn draw_indexed(seed: u64, index: u64, low: i64, high: i64) -> (r: Option<i64>)
    ensures
        r is Some <==> low < high,
        r is Some ==> r->0 == session_draw(seed, index as int, low as int, high as int),
        r is Some ==> low <= r->0 < high,
{
    if low < high {
        let wide: u128 = (seed as u128 + index as u128) % 0x1_0000_0000_0000_0000;
        Some(draw(wide as u64, low, high))
    } else {
        None
    }
}

} // verus!
