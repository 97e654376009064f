//! Exact integer arithmetic helpers: the floor square root used to size an
//! initial liquidity mint, and its supporting lemmas.

use vstd::prelude::*;

verus! {

/// The smaller of two mathematical integers.
pub open spec fn min_int(x: int, y: int) -> int {
    if x < y {
        x
    } else {
        y
    }
}

/// The exact 128-bit product of two 64-bit values.
pub fn mul_u64(a: u64, b: u64) -> (r: u128)
    ensures
        r == (a as int) * (b as int),
{
    proof {
        assert((a as int) * (b as int) <= 0xffffffffffffffffint * 0xffffffffffffffffint)
            by (nonlinear_arith)
            requires
                0 <= a as int <= 0xffffffffffffffffint,
                0 <= b as int <= 0xffffffffffffffffint,
        ;
    }
    (a as u128) * (b as u128)
}

/// One Babylonian step from a candidate `z >= 1` lands at or above the floor
/// square root: `x < (step + 1)^2` for `step = (x / z + z) / 2`.
proof fn lemma_newton_step_upper(x: int, z: int)
    requires
        0 <= x,
        1 <= z,
    ensures
        x < ((x / z + z) / 2 + 1) * ((x / z + z) / 2 + 1),
{
    let q = x / z;
    let m = (q + z) / 2;
    vstd::arithmetic::div_mod::lemma_fundamental_div_mod(x, z);
    vstd::arithmetic::div_mod::lemma_mod_bound(x, z);
    assert(0 <= q) by {
        vstd::arithmetic::div_mod::lemma_div_pos_is_pos(x, z);
    }
    assert(z * q <= x < z * q + z);
    vstd::arithmetic::div_mod::lemma_fundamental_div_mod(q + z, 2);
    vstd::arithmetic::div_mod::lemma_mod_bound(q + z, 2);
    assert(2 * m + 2 > q + z);
    assert(2 * (m + 1) >= q + z + 1);
    assert((q + z + 1) * (q + z + 1) >= 4 * (z * q) + 4 * z) by (nonlinear_arith)
        requires
            0 <= q,
            1 <= z,
    ;
    assert(4 * ((m + 1) * (m + 1)) >= (q + z + 1) * (q + z + 1)) by (nonlinear_arith)
        requires
            2 * (m + 1) >= q + z + 1,
            q + z + 1 >= 0,
    ;
    assert(4 * ((m + 1) * (m + 1)) >= 4 * (z * q) + 4 * z);
    assert((m + 1) * (m + 1) >= z * q + z);
    assert(x < (m + 1) * (m + 1));
}

/// When a Babylonian step does not decrease the candidate, the candidate is
/// at or below the floor square root: `y^2 <= x`.
proof fn lemma_newton_step_exit(x: int, y: int)
    requires
        0 <= x,
        1 <= y,
        (x / y + y) / 2 >= y,
    ensures
        y * y <= x,
{
    let q = x / y;
    vstd::arithmetic::div_mod::lemma_fundamental_div_mod(q + y, 2);
    vstd::arithmetic::div_mod::lemma_mod_bound(q + y, 2);
    assert(q + y >= 2 * y);
    assert(q >= y);
    vstd::arithmetic::div_mod::lemma_fundamental_div_mod(x, y);
    vstd::arithmetic::div_mod::lemma_mod_bound(x, y);
    assert(0 <= x % y);
    assert(y * q >= y * y) by (nonlinear_arith)
        requires
            q >= y,
            y >= 1,
    ;
    assert(x >= y * q);
}

/// The floor square root of a non-negative integer, by Newton's (Babylonian)
/// iteration seeded at `(x + 1) / 2`, stopping at the first non-decreasing
/// step.
pub fn integer_sqrt(x: u128) -> (r: u64)
    ensures
        (r as int) * (r as int) <= x as int,
        (x as int) < ((r as int) + 1) * ((r as int) + 1),
{
    if x == 0 {
        return 0;
    }
    let mut z: u128 = (x - 1) / 2 + 1;
    let mut y: u128 = x;
    proof {
        vstd::arithmetic::div_mod::lemma_div_nonincreasing(x as int - 1, 2);
        assert(z <= x);
        assert((x as int) < ((x as int) + 1) * ((x as int) + 1)) by (nonlinear_arith)
            requires
                x >= 1,
        ;
        vstd::arithmetic::div_mod::lemma_fundamental_div_mod(x as int - 1, 2);
        assert(2 * (z as int) >= x as int);
        assert((x as int) < ((z as int) + 1) * ((z as int) + 1)) by (nonlinear_arith)
            requires
                2 * (z as int) >= x as int,
                z >= 1,
                x >= 1,
        ;
        assert(z as int <= 0x80000000000000000000000000000000int) by {
            vstd::arithmetic::div_mod::lemma_div_is_ordered(
                x as int - 1,
                u128::MAX as int - 1,
                2,
            );
            vstd::arithmetic::div_mod::lemma_fundamental_div_mod_converse(
                u128::MAX as int - 1,
                2,
                0x7fffffffffffffffffffffffffffffffint,
                0,
            );
        }
        if z >= y {
            if x >= 2 {
                assert((x as int - 1) / 2 < x as int - 1) by {
                    vstd::arithmetic::div_mod::lemma_div_decreases(x as int - 1, 2);
                }
                assert(false);
            }
            assert(x == 1);
        }
    }
    while z < y
        invariant
            1 <= x,
            1 <= z,
            1 <= y,
            z <= x,
            y <= x,
            z as int <= 0x80000000000000000000000000000000int,
            (x as int) < ((y as int) + 1) * ((y as int) + 1),
            (x as int) < ((z as int) + 1) * ((z as int) + 1),
            z >= y ==> (y as int) * (y as int) <= x as int,
        decreases y,
    {
        y = z;
        let q: u128 = x / z;
        proof {
            let xi = x as int;
            let yi = y as int;
            vstd::arithmetic::div_mod::lemma_div_pos_is_pos(xi, yi);
            if y >= 0x10000000000000000 {
                assert(xi < yi * 0x10000000000000000int) by (nonlinear_arith)
                    requires
                        xi < 0x100000000000000000000000000000000int,
                        yi >= 0x10000000000000000int,
                ;
                assert(xi / yi < 0x10000000000000000int) by {
                    vstd::arithmetic::div_mod::lemma_multiply_divide_lt(
                        xi,
                        yi,
                        0x10000000000000000int,
                    );
                }
            } else {
                assert(xi <= yi * yi + 2 * yi) by (nonlinear_arith)
                    requires
                        xi < (yi + 1) * (yi + 1),
                ;
                assert(xi / yi <= (yi * yi + 2 * yi) / yi) by {
                    vstd::arithmetic::div_mod::lemma_div_is_ordered(
                        xi,
                        yi * yi + 2 * yi,
                        yi,
                    );
                }
                assert(yi * yi + 2 * yi == (yi + 2) * yi) by (nonlinear_arith);
                assert((yi * yi + 2 * yi) / yi == yi + 2) by {
                    vstd::arithmetic::div_mod::lemma_fundamental_div_mod_converse(
                        yi * yi + 2 * yi,
                        yi,
                        yi + 2,
                        0,
                    );
                }
            }
            assert(q as int + z as int <= 0x80000000000000000000000000000000int
                + 0x10000000000000000int + 2);
            assert(q >= 1) by {
                vstd::arithmetic::div_mod::lemma_div_non_zero(xi, yi);
            }
            vstd::arithmetic::div_mod::lemma_div_nonincreasing(xi, yi);
        }
        let s: u128 = q + z;
        z = s / 2;
        proof {
            assert(1 <= z) by {
                vstd::arithmetic::div_mod::lemma_div_is_ordered(2, s as int, 2);
            }
            assert(z <= x) by {
                vstd::arithmetic::div_mod::lemma_div_is_ordered(s as int, 2 * (x as int), 2);
                vstd::arithmetic::div_mod::lemma_fundamental_div_mod_converse(
                    2 * (x as int),
                    2,
                    x as int,
                    0,
                );
            }
            assert(z as int <= 0x80000000000000000000000000000000int) by {
                vstd::arithmetic::div_mod::lemma_div_is_ordered(
                    s as int,
                    0x80000000000000000000000000000000int + 0x10000000000000000int + 2,
                    2,
                );
                vstd::arithmetic::div_mod::lemma_fundamental_div_mod_converse(
                    0x80000000000000000000000000000000int + 0x10000000000000000int + 2,
                    2,
                    0x40000000000000000000000000000000int + 0x8000000000000000int + 1,
                    0,
                );
            }
            lemma_newton_step_upper(x as int, y as int);
            if z >= y {
                lemma_newton_step_exit(x as int, y as int);
            }
        }
    }
    proof {
        assert(y as int <= 0xffffffffffffffffint) by (nonlinear_arith)
            requires
                (y as int) * (y as int) <= x as int,
                (x as int) < 0x100000000000000000000000000000000int,
                1 <= y,
        ;
    }
    y as u64
}

} // verus!
