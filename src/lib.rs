//! A weighted, hierarchical, hash-driven placement engine: a tree of failure domains
//! (root, rack, host, device), and for each placement group a deterministic choice of
//! devices under distinct subtrees, in proportion to their weights.
pub mod crush;
pub mod node;
pub mod path;
pub mod select;

pub use crate::crush::Crush;
pub use crate::select::SelectError;

use vstd::prelude::*;

verus! {

/// `p` is a power of two.
pub open spec fn is_pow2(p: int) -> bool
    decreases p,
{
    if p <= 0 {
        false
    } else if p == 1 {
        true
    } else {
        p % 2 == 0 && is_pow2(p / 2)
    }
}

/// Between two powers of two, the smaller is at most half the larger.
proof fn lemma_pow2_gap(p: int, m: int)
    requires
        is_pow2(p),
        is_pow2(m),
        p < m,
    ensures
        2 * p <= m,
    decreases m,
{
    if p > 1 {
        lemma_pow2_gap(p / 2, m / 2);
    }
}

/// The smallest power of two that is at least `n` (one for `n <= 1`).
pub fn find_next_power_of_2(n: u32) -> (r: u32)
    requires
        n <= 0x8000_0000,
    ensures
        is_pow2(r as int),
        r >= n,
        r == 1 || r / 2 < n,
{
    let mut p: u32 = 1;
    while p < n
        invariant
            is_pow2(p as int),
            1 <= p <= 0x8000_0000,
            p == 1 || p / 2 < n,
            n <= 0x8000_0000,
        decreases 0x8000_0000 - p,
    {
        proof {
            reveal_with_fuel(is_pow2, 33);
            assert(is_pow2(0x8000_0000));
            lemma_pow2_gap(p as int, 0x8000_0000);
        }
        p = p * 2;
    }
    p
}

} // verus!
