//! Fixed-point fractions on a scale of 1024, used for every score the
//! engine computes.  Keeping the scores in integers gives the ranking a
//! total order with no non-finite values to place.

use vstd::prelude::*;

verus! {

/// The fixed-point scale: this value stands for 1.0.
pub const SCALE: u64 = 1024;

/// Decay per hop of the compactness score (stands for 0.75).
pub const COMPACT_DECAY: u64 = 768;

/// Decay base of the territory field (stands for 0.4).
pub const FIELD_DECAY: u64 = 410;

/// Weight floor for far cells when integrating the territory field
/// (stands for 0.9).
pub const MIN_DIST_SCALE: u64 = 922;

/// Penalty factor on the field contribution of a destination beside an
/// opponent trail (stands for 0.95).
pub const WALL_FACTOR: u64 = 973;

/// Penalty factor on the field contribution of a destination beside an
/// opponent head (stands for 0.85).
pub const HEAD_FACTOR: u64 = 870;

/// Hugging a trail is only discouraged while the nearest opponent head is
/// at most this many hops away.
pub const WALL_HEAD_THRESHOLD: u32 = 4;

/// `base^d` on the fixed-point scale, rounding down at every step.
pub open spec fn pow_fixed(base: u64, d: nat) -> int
    decreases d,
{
    if d == 0 {
        SCALE as int
    } else {
        pow_fixed(base, (d - 1) as nat) * base / (SCALE as int)
    }
}

/// A fixed-point power stays within [0, 1], and within [0, base] once the
/// exponent is positive.
pub proof fn lemma_pow_fixed_bounds(base: u64, d: nat)
    requires
        base <= SCALE,
    ensures
        0 <= pow_fixed(base, d) <= SCALE,
        d >= 1 ==> pow_fixed(base, d) <= base,
    decreases d,
{
    if d == 0 {
    } else {
        lemma_pow_fixed_bounds(base, (d - 1) as nat);
        let prev = pow_fixed(base, (d - 1) as nat);
        assert(0 <= prev * base <= SCALE * base) by (nonlinear_arith)
            requires
                0 <= prev <= SCALE,
                0 <= base,
        ;
        vstd::arithmetic::div_mod::lemma_div_is_ordered(prev * base, SCALE * base, SCALE as int);
        assert(SCALE * base / (SCALE as int) == base) by (nonlinear_arith)
            requires
                SCALE == 1024,
                0 <= base,
        ;
        vstd::arithmetic::div_mod::lemma_div_pos_is_pos(prev * base, SCALE as int);
    }
}

/// `base^d` computed exactly as the spec says.
pub fn pow_fixed_exec(base: u64, d: u32) -> (r: u64)
    requires
        base <= SCALE,
    ensures
        r as int == pow_fixed(base, d as nat),
{
    let mut acc: u64 = SCALE;
    let mut k: u32 = 0;
    proof {
        lemma_pow_fixed_bounds(base, 0);
    }
    while k < d
        invariant
            k <= d,
            base <= SCALE,
            acc as int == pow_fixed(base, k as nat),
            acc <= SCALE,
        decreases d - k,
    {
        proof {
            assert(acc * base <= SCALE * SCALE) by (nonlinear_arith)
                requires
                    acc <= SCALE,
                    base <= SCALE,
            ;
        }
        acc = acc * base / SCALE;
        k += 1;
        proof {
            lemma_pow_fixed_bounds(base, k as nat);
        }
    }
    acc
}

/// Fixed-point product, rounding up so that attenuating never drops a
/// positive score all the way to zero.
pub open spec fn mul_up(a: int, b: int) -> int {
    (a * b + SCALE - 1) / (SCALE as int)
}

/// Multiplying two fractions of (0, 1] leaves a fraction of (0, 1].
pub proof fn lemma_mul_up_bounds(a: int, b: int)
    requires
        1 <= a <= SCALE,
        1 <= b <= SCALE,
    ensures
        1 <= mul_up(a, b) <= SCALE,
{
    assert(1 <= a * b <= SCALE * SCALE) by (nonlinear_arith)
        requires
            1 <= a <= SCALE,
            1 <= b <= SCALE,
    ;
    vstd::arithmetic::div_mod::lemma_div_is_ordered(
        SCALE as int,
        a * b + SCALE - 1,
        SCALE as int,
    );
    vstd::arithmetic::div_mod::lemma_div_is_ordered(
        a * b + SCALE - 1,
        SCALE * SCALE + SCALE - 1,
        SCALE as int,
    );
    assert((SCALE as int) / (SCALE as int) == 1);
    assert((SCALE * SCALE + SCALE - 1) / (SCALE as int) == SCALE);
}

/// Fixed-point product of two fractions of at most 1, as the spec says.
pub fn mul_up_exec(a: u64, b: u64) -> (r: u64)
    requires
        a <= SCALE,
        b <= SCALE,
    ensures
        r as int == mul_up(a as int, b as int),
{
    proof {
        assert(a * b <= SCALE * SCALE) by (nonlinear_arith)
            requires
                a <= SCALE,
                b <= SCALE,
        ;
    }
    (a * b + (SCALE - 1)) / SCALE
}

/// The distance weighting used when integrating the territory field over a
/// region: full weight beside the entry point, falling toward the floor.
pub open spec fn scale_weight(d: u32) -> int {
    MIN_DIST_SCALE + (SCALE - MIN_DIST_SCALE) / (d + 1)
}

/// The weight of a cell `d` hops into the region, as the spec says; always
/// a fraction between the floor and 1.
pub fn scale_weight_exec(d: u32) -> (r: u64)
    ensures
        r as int == scale_weight(d),
        MIN_DIST_SCALE <= r <= SCALE,
{
    proof {
        vstd::arithmetic::div_mod::lemma_div_is_ordered(
            0,
            (SCALE - MIN_DIST_SCALE) as int,
            d + 1,
        );
        vstd::arithmetic::div_mod::lemma_div_is_ordered_by_denominator(
            (SCALE - MIN_DIST_SCALE) as int,
            1,
            d + 1,
        );
    }
    MIN_DIST_SCALE + (SCALE - MIN_DIST_SCALE) / (d as u64 + 1)
}

} // verus!
