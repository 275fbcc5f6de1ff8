//! Integer arithmetic as the machine performs it, stated over mathematical integers.

use vstd::prelude::*;

verus! {

/// Division truncating toward zero, as Rust's `/` on signed integers.
pub open spec fn quot(a: int, b: int) -> int {
    if a >= 0 {
        if b > 0 { a / b } else { -(a / (-b)) }
    } else {
        if b > 0 { -((-a) / b) } else { (-a) / (-b) }
    }
}

/// `a / b` on 64-bit signed integers, truncating toward zero.
pub fn div_trunc(a: i64, b: i64) -> (r: i64)
    requires
        b != 0,
        a > i64::MIN,
        b > i64::MIN,
    ensures
        r == quot(a as int, b as int),
{
    if a >= 0 {
        if b > 0 {
            a / b
        } else {
            -(a / (-b))
        }
    } else {
        if b > 0 {
            -((-a) / b)
        } else {
            (-a) / (-b)
        }
    }
}

/// `a / b` on 32-bit signed integers, truncating toward zero.
pub fn div_trunc32(a: i32, b: i32) -> (r: i32)
    requires
        b != 0,
        !(a == i32::MIN && b == -1),
    ensures
        r == quot(a as int, b as int),
{
    let q = div_trunc(a as i64, b as i64);
    proof {
        let (aa, bb) = (a as int, b as int);
        if aa >= 0 {
            if bb > 0 {
                assert(0 <= aa / bb <= aa) by (nonlinear_arith) requires aa >= 0, bb > 0;
            } else {
                assert(0 <= aa / (-bb) <= aa) by (nonlinear_arith) requires aa >= 0, -bb > 0;
            }
        } else {
            if bb > 0 {
                assert(0 <= (-aa) / bb <= -aa) by (nonlinear_arith) requires -aa > 0, bb > 0;
            } else {
                assert(0 <= (-aa) / (-bb) <= -aa) by (nonlinear_arith) requires -aa > 0, -bb > 0;
                if bb == -1 {
                    assert(aa > i32::MIN);
                } else {
                    assert((-aa) / (-bb) <= (-aa) / 2) by (nonlinear_arith)
                        requires -aa > 0, -bb >= 2;
                }
            }
        }
    }
    q as i32
}

/// The product of two 32-bit values, widened so it cannot overflow.
pub fn wide_mul(a: i32, b: i32) -> (r: i64)
    ensures
        r == a * b,
        -0x4000_0000_0000_0000 <= r <= 0x4000_0000_0000_0000,
{
    proof {
        assert((a as int) * (b as int) <= 0x4000_0000_0000_0000 && (a as int) * (b as int)
            >= -0x4000_0000_0000_0000) by (nonlinear_arith)
            requires
                -0x8000_0000 <= a <= 0x7fff_ffff,
                -0x8000_0000 <= b <= 0x7fff_ffff,
        ;
    }
    a as i64 * b as i64
}

} // verus!
