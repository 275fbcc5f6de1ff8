//! Single-precision arithmetic on integers, stated exactly: an integer taken to single precision
//! lands on the nearest value with a 24-bit significand, ties going to the even significand.
//! Scaling by a power of two commutes with that rounding, so a fraction with a power-of-two
//! denominator is rounded by rounding its numerator.

use vstd::prelude::*;

verus! {

/// The spacing of single-precision values around a magnitude: 1 below 2^24, doubling at each
/// power of two above it.
pub open spec fn spacing(mag: nat) -> nat
    decreases mag,
{
    if mag < 0x100_0000 {
        1
    } else {
        2 * spacing(mag / 2)
    }
}

/// A magnitude rounded to the nearest multiple of its spacing, a tie going to the even multiple.
pub open spec fn round_magnitude(mag: nat) -> nat {
    let s = spacing(mag);
    let q = mag / s;
    let r = mag % s;
    if 2 * r > s || (2 * r == s && q % 2 == 1) {
        (q + 1) * s
    } else {
        q * s
    }
}

/// The single-precision value nearest an integer, itself an integer.
pub open spec fn nearest_single(x: int) -> int {
    if x >= 0 {
        round_magnitude(x as nat) as int
    } else {
        -(round_magnitude((-x) as nat) as int)
    }
}

proof fn lemma_spacing_positive(mag: nat)
    ensures
        spacing(mag) >= 1,
        spacing(mag) <= mag || mag < 0x100_0000,
    decreases mag,
{
    if mag >= 0x100_0000 {
        lemma_spacing_positive(mag / 2);
    }
}

/// The nearest single-precision value to `x`, for `|x|` below 2^100.
pub(crate) fn to_nearest_single(x: i128) -> (r: i128)
    requires
        -0x10_0000_0000_0000_0000_0000_0000 < x < 0x10_0000_0000_0000_0000_0000_0000,
    ensures
        r == nearest_single(x as int),
        x >= 0 ==> 0 <= r <= 2 * x,
        x < 0 ==> 2 * x <= r <= 0,
{
    let mag: i128 = if x >= 0 { x } else { -x };
    let mut s: i128 = 1;
    let mut m: i128 = mag;
    while m >= 0x100_0000
        invariant
            0 <= m <= mag,
            1 <= s,
            s * m <= mag,
            mag < 0x10_0000_0000_0000_0000_0000_0000,
            s * spacing(m as nat) == spacing(mag as nat),
        decreases m,
    {
        proof {
            assert(spacing(m as nat) == 2 * spacing((m / 2) as nat));
            assert(s * spacing(m as nat) == (2 * s) * spacing((m / 2) as nat)) by (nonlinear_arith)
                requires
                    spacing(m as nat) == 2 * spacing((m / 2) as nat),
            ;
            assert((2 * s) * (m / 2) <= s * m) by (nonlinear_arith)
                requires
                    s >= 1,
                    m >= 0,
            ;
            assert(2 * s <= mag) by (nonlinear_arith)
                requires
                    s >= 1,
                    m >= 0x100_0000,
                    s * m <= mag,
            ;
        }
        s = 2 * s;
        m = m / 2;
    }
    assert(s == spacing(mag as nat)) by (nonlinear_arith)
        requires
            spacing(m as nat) == 1,
            s * spacing(m as nat) == spacing(mag as nat),
    ;
    let q = mag / s;
    let rem = mag % s;
    proof {
        assert(q * s <= mag) by (nonlinear_arith)
            requires
                q == mag / s,
                s >= 1,
                mag >= 0,
        ;
        assert(s <= mag || mag < 0x100_0000) by {
            lemma_spacing_positive(mag as nat);
        }
        if mag < 0x100_0000 {
            assert(s == 1) by {
                reveal_with_fuel(spacing, 2);
            }
            assert(rem == 0);
        }
    }
    let rounded: i128 = if 2 * rem > s || (2 * rem == s && q % 2 == 1) {
        assert((q + 1) * s == q * s + s) by (nonlinear_arith);
        (q + 1) * s
    } else {
        q * s
    };
    assert(rounded == round_magnitude(mag as nat));
    if x >= 0 {
        rounded
    } else {
        -rounded
    }
}

/// Every integer of magnitude below 2^24 is held exactly, so such an extent samples back
/// unchanged.
pub proof fn lemma_small_integers_are_exact(x: int)
    requires
        -0x100_0000 < x < 0x100_0000,
    ensures
        nearest_single(x) == x,
{
    let mag: nat = if x >= 0 { x as nat } else { (-x) as nat };
    assert(spacing(mag) == 1);
    assert(mag / 1 == mag && mag % 1 == 0) by (nonlinear_arith);
}

/// The spacing is a power-of-two fraction of the magnitude: at most one part in 2^23 above 2^24.
pub proof fn lemma_spacing_bound(mag: nat)
    ensures
        spacing(mag) >= 1,
        mag >= 0x100_0000 ==> spacing(mag) * 0x80_0000 <= mag,
        mag < 0x100_0000 ==> spacing(mag) == 1,
    decreases mag,
{
    if mag >= 0x100_0000 {
        lemma_spacing_bound(mag / 2);
        let h = mag / 2;
        if h >= 0x100_0000 {
            assert(spacing(h) * 0x80_0000 <= h);
        } else {
            assert(spacing(h) == 1);
        }
        assert(spacing(mag) == 2 * spacing(h));
        assert(2 * h <= mag);
    }
}

/// Rounding moves a magnitude by less than its spacing.
pub proof fn lemma_round_close(mag: nat)
    ensures
        mag <= round_magnitude(mag) + spacing(mag),
        round_magnitude(mag) <= mag + spacing(mag),
{
    lemma_spacing_bound(mag);
    let s = spacing(mag);
    let q = mag / s;
    let r = mag % s;
    assert(mag == q * s + r && 0 <= r < s) by (nonlinear_arith)
        requires
            s >= 1,
            q == mag / s,
            r == mag % s,
    ;
    assert((q + 1) * s == q * s + s) by (nonlinear_arith);
}

} // verus!
