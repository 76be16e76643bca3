//! The random numbers of rotations: no bit is lost from one to the next.
use crate::base::turboquant::{rotated, Xoshiro256};
use vstd::prelude::*;

verus! {

/// A rotation moves every bit to the left by as many places, and from the end to the start.
pub proof fn rotations_move_every_bit(x: u64, k: u64, i: u64)
    requires
        0 < k < 64,
        i < 64,
    ensures
        (rotated(x, k) >> ((i + k) % 64) as u64) & 1 == (x >> i) & 1,
{
    let r = rotated(x, k);
    let rest: u64 = (64 - k) as u64;
    let to: u64 = ((i + k) % 64) as u64;
    assert((r >> to) & 1 == (x >> i) & 1) by (bit_vector)
        requires
            0 < k < 64,
            i < 64,
            rest == 64 - k,
            to == (i + k) % 64,
            r == (x << k) | (x >> rest),
    ;
}

/// Generators in different states stay in different states: nothing of a state is lost when a
/// number is drawn.
pub proof fn different_states_stay_different(a: Xoshiro256, b: Xoshiro256)
    requires
        a.advanced() == b.advanced(),
    ensures
        a == b,
{
    let (a0, a1, a2, a3) = (a.s0, a.s1, a.s2, a.s3);
    let (b0, b1, b2, b3) = (b.s0, b.s1, b.s2, b.s3);
    let (p, q) = (a2 ^ a0, b2 ^ b0);
    let (t, u) = (a3 ^ a1, b3 ^ b1);
    assert(t == u) by (bit_vector)
        requires
            (t << 45u64) | (t >> 19u64) == (u << 45u64) | (u >> 19u64),
    ;
    assert(a0 == b0) by (bit_vector)
        requires
            a0 ^ t == b0 ^ u,
            t == u,
    ;
    assert(a1 == b1) by (bit_vector)
        requires
            a1 ^ p == b1 ^ q,
            p ^ (a1 << 17) == q ^ (b1 << 17),
    ;
    assert(a2 == b2 && a3 == b3) by (bit_vector)
        requires
            a0 == b0,
            a1 == b1,
            a1 ^ p == b1 ^ q,
            p == a2 ^ a0,
            q == b2 ^ b0,
            t == u,
            t == a3 ^ a1,
            u == b3 ^ b1,
    ;
}

} // verus!
