//! The xorshift64 generator used for seat sampling and weighted picks.

use vstd::prelude::*;

verus! {

/// One xorshift64 step (shifts 13, 7, 17).
pub open spec fn xorshift_step(x: u64) -> u64 {
    let a = x ^ (x << 13u64);
    let b = a ^ (a >> 7u64);
    b ^ (b << 17u64)
}

/// The state after `k` steps from `x`.
pub open spec fn xorshift_iter(x: u64, k: nat) -> u64
    decreases k,
{
    if k == 0 {
        x
    } else {
        xorshift_step(xorshift_iter(x, (k - 1) as nat))
    }
}

/// Advance the state by one xorshift64 step and return the new state.
pub fn xorshift64(state: &mut u64) -> (r: u64)
    ensures
        r == xorshift_step(*old(state)),
        *final(state) == r,
{
    let mut x = *state;
    x = x ^ (x << 13u64);
    x = x ^ (x >> 7u64);
    x = x ^ (x << 17u64);
    *state = x;
    x
}

/// Xorshift64 keeps the zero state at zero and never reaches zero from
/// another state.
pub proof fn lemma_xorshift_nonzero(x: u64)
    ensures
        x == 0 ==> xorshift_step(x) == 0,
        x != 0 ==> xorshift_step(x) != 0,
{
    assert(x == 0 ==> (x ^ (x << 13u64)) == 0) by (bit_vector);
    assert(x != 0 ==> (x ^ (x << 13u64)) != 0) by (bit_vector);
    let a = x ^ (x << 13u64);
    assert(a == 0 ==> (a ^ (a >> 7u64)) == 0) by (bit_vector);
    assert(a != 0 ==> (a ^ (a >> 7u64)) != 0) by (bit_vector);
    let b = a ^ (a >> 7u64);
    assert(b == 0 ==> (b ^ (b << 17u64)) == 0) by (bit_vector);
    assert(b != 0 ==> (b ^ (b << 17u64)) != 0) by (bit_vector);
}

/// From a non-zero state, every later state is non-zero.
pub proof fn lemma_xorshift_iter_nonzero(x: u64, k: nat)
    requires
        x != 0,
    ensures
        xorshift_iter(x, k) != 0,
    decreases k,
{
    if k > 0 {
        lemma_xorshift_iter_nonzero(x, (k - 1) as nat);
        lemma_xorshift_nonzero(xorshift_iter(x, (k - 1) as nat));
    }
}

} // verus!
