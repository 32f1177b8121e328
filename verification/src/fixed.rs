//! Square roots in fixed point.
//!
//! An energy is the square root of a sum of squares. It is held as a whole
//! number of sixteen-bit fractions, rounded down, so that energies add up and
//! compare exactly.

use vstd::prelude::*;

verus! {

/// Energies are whole numbers in fixed point with sixteen fractional bits:
/// this many units make one.
pub const ENERGY_ONE: u32 = 65536;

/// `root` is the square root of `square`, in units of `1 / ENERGY_ONE` and
/// rounded down.
pub open spec fn is_scaled_root(root: nat, square: nat) -> bool {
    root * root <= square * (ENERGY_ONE * ENERGY_ONE) < (root + 1) * (root + 1)
}

/// The square root of `square` in units of `1 / ENERGY_ONE`, rounded down.
pub open spec fn scaled_root(square: nat) -> nat {
    choose|root: nat| is_scaled_root(root, square)
}

/// Squaring keeps the order of natural numbers.
proof fn lemma_square_monotone(a: nat, b: nat)
    requires
        a <= b,
    ensures
        a * a <= b * b,
{
    assert(a * a <= b * b) by (nonlinear_arith)
        requires
            a <= b,
    ;
}

/// Only one number is the rounded-down scaled root of a given square.
pub proof fn lemma_scaled_root_unique(square: nat, root: nat)
    requires
        is_scaled_root(root, square),
    ensures
        scaled_root(square) == root,
{
    let other = scaled_root(square);
    assert(is_scaled_root(other, square));
    if other < root {
        lemma_square_monotone(other + 1, root);
    } else if root < other {
        lemma_square_monotone(root + 1, other);
    }
}

/// Every natural number lies between two neighbouring squares.
proof fn lemma_floor_root(target: nat) -> (root: nat)
    ensures
        root * root <= target < (root + 1) * (root + 1),
    decreases target,
{
    if target == 0 {
        let root: nat = 0;
        assert(root * root <= target < (root + 1) * (root + 1)) by (nonlinear_arith)
            requires
                root == 0,
                target == 0,
        ;
        root
    } else {
        let below = lemma_floor_root((target - 1) as nat);
        let above: nat = below + 1;
        if above * above <= target {
            assert(above * above < (above + 1) * (above + 1)) by (nonlinear_arith);
            above
        } else {
            below
        }
    }
}

/// Every square has a rounded-down scaled root, and `scaled_root` is it.
pub proof fn lemma_scaled_root_exists(square: nat)
    ensures
        is_scaled_root(scaled_root(square), square),
{
    let root = lemma_floor_root((square * (ENERGY_ONE * ENERGY_ONE)) as nat);
    assert(is_scaled_root(root, square));
}

/// The scaled root of a square that fits 32 bits fits 32 bits.
pub proof fn lemma_scaled_root_fits(square: nat)
    requires
        square <= u32::MAX,
    ensures
        scaled_root(square) <= u32::MAX,
{
    lemma_scaled_root_exists(square);
    let root = scaled_root(square);
    if root > u32::MAX {
        lemma_square_monotone(4294967296, root);
        assert(square * (ENERGY_ONE * ENERGY_ONE) < 4294967296 * 4294967296) by (nonlinear_arith)
            requires
                square <= 4294967295,
                ENERGY_ONE * ENERGY_ONE == 4294967296,
        ;
    }
}

/// The square root of `square` in fixed point, rounded down.
pub fn scaled_sqrt(square: u32) -> (root: u32)
    ensures
        is_scaled_root(root as nat, square as nat),
        root == scaled_root(square as nat),
{
    assert(square * 4294967296 <= 0xFFFF_FFFF * 4294967296) by (nonlinear_arith)
        requires
            square <= 0xFFFF_FFFF,
    ;
    let target: u64 = (square as u64) * 4294967296;
    let mut low: u64 = 0;
    let mut high: u64 = 4294967296;
    while high - low > 1
        invariant
            low < high <= 4294967296,
            low * low <= target < high * high,
            target == square * 4294967296,
        decreases high - low,
    {
        let mid: u64 = low + (high - low) / 2;
        assert(mid * mid <= 4294967295 * 4294967295) by (nonlinear_arith)
            requires
                mid <= 4294967295,
        ;
        if mid * mid <= target {
            low = mid;
        } else {
            high = mid;
        }
    }
    proof {
        assert(high == low + 1);
        lemma_scaled_root_unique(square as nat, low as nat);
    }
    low as u32
}

} // verus!
