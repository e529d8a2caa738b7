use vstd::prelude::*;

verus! {

/// Multiplier of the linear-congruential generator step.
pub const RNG_MUL: u64 = 6364136223846793005;

/// Increment of the linear-congruential generator step.
pub const RNG_INC: u64 = 1442695040888963407;

/// The generator state that follows `s`: one linear-congruential step,
/// wrapping modulo 2^64.
pub open spec fn rng_next(s: u64) -> u64 {
    s.wrapping_mul(RNG_MUL).wrapping_add(RNG_INC)
}

/// The value in `[0, n)` that a generator with state `s` draws next.
pub open spec fn rng_pick(s: u64, n: int) -> int {
    rng_next(s) as int % n
}

/// Advance the generator state and draw a value below `n`.
pub(crate) fn draw_below(state: &mut u64, n: usize) -> (r: usize)
    requires
        n > 0,
    ensures
        *final(state) == rng_next(*old(state)),
        r == rng_pick(*old(state), n as int),
        r < n,
{
    let next = state.wrapping_mul(RNG_MUL).wrapping_add(RNG_INC);
    *state = next;
    let r = (next % (n as u64)) as usize;
    assert(next as int % (n as u64) as int == next as int % n as int);
    r
}

/// A draw below a positive bound lands in range.
pub proof fn lemma_rng_pick_range(s: u64, n: int)
    requires
        n > 0,
    ensures
        0 <= rng_pick(s, n) < n,
{
}

/// Relies on `rand::random`: one draw from the process-local entropy
/// source; nothing is promised of the value.
#[verifier::external_body]
pub(crate) fn entropy_seed() -> u64 {
    rand::random()
}

} // verus!
