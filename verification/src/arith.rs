//! Small integer helpers that the geometry rests on: clamping to the range of
//! a coordinate, powers of two, and the rounded-down square root.
use vstd::prelude::*;

verus! {

/// A coordinate kept within what an `i32` holds.
pub open spec fn clamp(v: int) -> i32 {
    if v < i32::MIN {
        i32::MIN
    } else if v > i32::MAX {
        i32::MAX
    } else {
        v as i32
    }
}

/// Two to the power of `n`.
pub open spec fn pow2(n: nat) -> nat
    decreases n,
{
    if n == 0 {
        1
    } else {
        2 * pow2((n - 1) as nat)
    }
}

/// A power of two is at least one.
pub proof fn lemma_pow2_positive(n: nat)
    ensures
        pow2(n) >= 1,
    decreases n,
{
    if n > 0 {
        lemma_pow2_positive((n - 1) as nat);
    }
}

/// Two to the power of 64.
pub proof fn lemma_pow2_64()
    ensures
        pow2(64) == 0x1_0000_0000_0000_0000,
{
    reveal_with_fuel(pow2, 17);
    assert(pow2(16) == 0x1_0000);
    assert(pow2(32) == 0x1_0000_0000);
    assert(pow2(48) == 0x1_0000_0000_0000);
}

/// Whether `r` is the square root of `n`, rounded down.
pub open spec fn is_sqrt(n: nat, r: nat) -> bool {
    r * r <= n < (r + 1) * (r + 1)
}

/// The square root of `n`, rounded down.
pub open spec fn sqrt(n: nat) -> nat {
    choose|r: nat| is_sqrt(n, r)
}

/// A number has one rounded-down square root at most.
pub proof fn lemma_sqrt_unique(n: nat, r: nat, s: nat)
    requires
        is_sqrt(n, r),
        is_sqrt(n, s),
    ensures
        r == s,
{
    if r < s {
        assert((r + 1) * (r + 1) <= s * s) by (nonlinear_arith)
            requires
                r + 1 <= s,
        ;
    }
    if s < r {
        assert((s + 1) * (s + 1) <= r * r) by (nonlinear_arith)
            requires
                s + 1 <= r,
        ;
    }
}

/// The square root of `n`, rounded down: found bit by bit, from the highest
/// bit that the root can have.
pub fn isqrt(n: u128) -> (r: u64)
    ensures
        is_sqrt(n as nat, r as nat),
        r == sqrt(n as nat),
{
    let mut root: u128 = 0;
    let mut span: u128 = 0x1_0000_0000_0000_0000;
    let ghost mut k: nat = 64;
    proof {
        lemma_pow2_64();
        assert(n < 0x1_0000_0000_0000_0000 * 0x1_0000_0000_0000_0000) by (nonlinear_arith)
            requires
                n <= u128::MAX,
        ;
    }
    while span > 1
        invariant
            span == pow2(k),
            k <= 64,
            span >= 1,
            root + span <= 0x1_0000_0000_0000_0000,
            root * root <= n < (root + span) * (root + span),
        decreases span,
    {
        let half = span / 2;
        let next = root + half;
        assert(next * next < 0x1_0000_0000_0000_0000 * 0x1_0000_0000_0000_0000) by (nonlinear_arith)
            requires
                0 <= next < 0x1_0000_0000_0000_0000,
        ;
        assert(k > 0 && half == pow2((k - 1) as nat));
        if next * next <= n {
            root = next;
        }
        span = half;
        proof {
            k = (k - 1) as nat;
        }
    }
    proof {
        let witness = root as nat;
        assert(is_sqrt(n as nat, witness));
        lemma_sqrt_unique(n as nat, witness, sqrt(n as nat));
    }
    root as u64
}

} // verus!
