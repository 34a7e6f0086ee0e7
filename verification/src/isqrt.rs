//! Exact integer square roots.

use vstd::prelude::*;

verus! {

/// `root` is the floor of the square root of `n`: the one natural number
/// whose square does not exceed `n` while the square of its successor does.
pub open spec fn is_floor_sqrt(n: nat, root: nat) -> bool {
    root * root <= n < (root + 1) * (root + 1)
}

/// A number has at most one floor square root.
pub proof fn lemma_floor_sqrt_unique(n: nat, a: nat, b: nat)
    requires
        is_floor_sqrt(n, a),
        is_floor_sqrt(n, b),
    ensures
        a == b,
{
    if a < b {
        assert((a + 1) * (a + 1) <= b * b) by (nonlinear_arith)
            requires
                a + 1 <= b,
        ;
    } else if b < a {
        assert((b + 1) * (b + 1) <= a * a) by (nonlinear_arith)
            requires
                b + 1 <= a,
        ;
    }
}

/// The floor of the square root of `n`, in integer arithmetic throughout.
///
/// The root of `n` is twice the root of `n / 4`, or one more than that; the
/// square of the larger candidate decides. The recursion is as deep as half
/// the number of bits of `n`.
pub fn isqrt(n: u64) -> (root: u64)
    ensures
        is_floor_sqrt(n as nat, root as nat),
        root <= 0xffff_ffff,
    decreases n,
{
    if n < 2 {
        assert(n * n <= n < (n + 1) * (n + 1)) by (nonlinear_arith)
            requires
                n < 2,
        ;
        n
    } else {
        let quarter: u64 = n >> 2;
        assert(quarter == n / 4) by (bit_vector)
            requires
                quarter == n >> 2,
        ;
        let half_root: u64 = isqrt(quarter);
        assert(half_root < 0x8000_0000) by (nonlinear_arith)
            requires
                half_root * half_root <= quarter,
                quarter < 0x4000_0000_0000_0000,
        ;
        let small: u64 = half_root << 1;
        assert(small == 2 * half_root) by (bit_vector)
            requires
                small == half_root << 1,
                half_root < 0x8000_0000,
        ;
        let large: u64 = small + 1;
        assert(large * large <= 0xffff_ffff * 0xffff_ffff) by (nonlinear_arith)
            requires
                large <= 0xffff_ffff,
        ;
        assert(small * small == 4 * (half_root * half_root)) by (nonlinear_arith)
            requires
                small == 2 * half_root,
        ;
        assert((large + 1) * (large + 1) == 4 * ((half_root + 1) * (half_root + 1)))
            by (nonlinear_arith)
            requires
                large == 2 * half_root + 1,
        ;
        if large * large > n {
            small
        } else {
            large
        }
    }
}

} // verus!
