use vstd::prelude::*;

verus! {

/// `2^e`.
pub open spec fn pow2(e: nat) -> nat
    decreases e,
{
    if e == 0 {
        1
    } else {
        2 * pow2((e - 1) as nat)
    }
}

/// Number of halving steps (rounding up) that take `n` down to 1.
pub open spec fn height_of(n: nat) -> nat
    decreases n,
{
    if n <= 1 {
        0
    } else {
        1 + height_of(((n + 1) / 2) as nat)
    }
}

pub proof fn lemma_pow2_positive(e: nat)
    ensures
        pow2(e) >= 1,
    decreases e,
{
    if e > 0 {
        lemma_pow2_positive((e - 1) as nat);
    }
}

pub proof fn lemma_pow2_monotone(a: nat, b: nat)
    requires
        a <= b,
    ensures
        pow2(a) <= pow2(b),
    decreases b,
{
    if b > a {
        lemma_pow2_monotone(a, (b - 1) as nat);
        lemma_pow2_positive((b - 1) as nat);
    }
}

/// The height is the least `h` with `n <= 2^h`.
pub proof fn lemma_height_bounds(n: nat)
    requires
        n >= 1,
    ensures
        n <= pow2(height_of(n)),
        height_of(n) > 0 ==> pow2((height_of(n) - 1) as nat) < n,
    decreases n,
{
    if n > 1 {
        let m = ((n + 1) / 2) as nat;
        lemma_height_bounds(m);
        lemma_pow2_positive(height_of(m));
        if height_of(m) > 0 {
            assert(pow2(height_of(m)) == 2 * pow2((height_of(m) - 1) as nat));
        }
    }
}

/// Number of times `num_leaves` is halved, rounding up, before it reaches 1
/// (`tree_height(1) == 0`, and also 0 for no leaves).
pub fn tree_height(num_leaves: u64) -> (r: u64)
    ensures
        r == height_of(num_leaves as nat),
        r <= num_leaves,
{
    let mut height: u64 = 0;
    let mut nodes: u64 = num_leaves;
    while nodes > 1
        invariant
            height + height_of(nodes as nat) == height_of(num_leaves as nat),
            height + nodes <= num_leaves || nodes == num_leaves,
            height <= num_leaves,
        decreases nodes,
    {
        height = height + 1;
        nodes = nodes / 2 + nodes % 2;
    }
    height
}

} // verus!
