//! How many rounds a Swiss tournament of `n` players lasts.
use vstd::prelude::*;

verus! {

pub open spec fn pow2(k: nat) -> nat
    decreases k,
{
    if k == 0 {
        1
    } else {
        2 * pow2((k - 1) as nat)
    }
}

/// `ceil(log2(n))`, with 0 for `n <= 1`: halving, rounding up, until one
/// player is left.
pub open spec fn ceil_log2(n: nat) -> nat
    decreases n,
{
    if n <= 1 {
        0
    } else {
        1 + ceil_log2(((n + 1) / 2) as nat)
    }
}

/// `ceil_log2(n)` is the least `k` with `n <= 2^k`.
pub proof fn lemma_ceil_log2_least(n: nat)
    ensures
        n <= pow2(ceil_log2(n)),
        n >= 2 ==> pow2((ceil_log2(n) - 1) as nat) < n,
    decreases n,
{
    if n > 1 {
        let m = ((n + 1) / 2) as nat;
        lemma_ceil_log2_least(m);
        if m >= 2 {
            assert(pow2((ceil_log2(n) - 1) as nat) == pow2(ceil_log2(m)));
            assert(pow2(ceil_log2(m)) == 2 * pow2((ceil_log2(m) - 1) as nat));
        }
    }
}

/// `n <= 2^k` bounds `ceil_log2(n)` by `k`.
pub proof fn lemma_ceil_log2_at_most(n: nat, k: nat)
    requires
        n <= pow2(k),
    ensures
        ceil_log2(n) <= k,
    decreases k,
{
    if n > 1 {
        assert(k > 0);
        lemma_ceil_log2_at_most(((n + 1) / 2) as nat, (k - 1) as nat);
    }
}

proof fn lemma_pow2_64()
    ensures
        pow2(64) == 0x1_0000_0000_0000_0000,
{
    reveal_with_fuel(pow2, 65);
}

/// The number of rounds for `n` players: `ceil(log2(n))`, at most 64.
pub fn rounds_for(n: usize) -> (r: u32)
    ensures
        r == ceil_log2(n as nat),
        r <= 64,
{
    proof {
        lemma_pow2_64();
        lemma_ceil_log2_at_most(n as nat, 64);
    }
    let mut m: usize = n;
    let mut r: u32 = 0;
    while m > 1
        invariant
            r + ceil_log2(m as nat) == ceil_log2(n as nat),
            ceil_log2(n as nat) <= 64,
        decreases m,
    {
        m = m / 2 + m % 2;
        r = r + 1;
    }
    r
}

} // verus!
