//! Integer arithmetic shared by the geometry: the coordinate ranges, division
//! that rounds toward zero, and the integer square root.

use vstd::prelude::*;

verus! {

/// Largest magnitude of a coordinate, of a radius and of a velocity component
/// of a shape in its own space.
pub const LIMIT: i64 = 65536;

/// Largest magnitude of a coordinate of a shape once it is placed in the world.
pub const WORLD: i64 = 262144;

/// Largest magnitude of a coordinate that a transformation takes a point of a
/// shape to: three times `LIMIT`.
pub const REACH: i64 = 196608;

/// The fixed-point representation of one: rotations, unit normals and times are
/// counted in steps of `1 / UNIT`.
pub const UNIT: i64 = 65536;

/// `x` lies in `[-bound, bound]`.
pub open spec fn within(x: int, bound: int) -> bool {
    -bound <= x <= bound
}

/// The absolute value of `x`.
pub open spec fn magnitude(x: int) -> int {
    if x >= 0 {
        x
    } else {
        -x
    }
}

/// The quotient of `a` by a positive `b`, rounded toward zero.
pub open spec fn trunc_div(a: int, b: int) -> int {
    if a >= 0 {
        a / b
    } else {
        -((-a) / b)
    }
}

/// `r` is the largest natural number whose square does not exceed `n`.
pub open spec fn is_floor_sqrt(n: int, r: int) -> bool {
    0 <= r && r * r <= n < (r + 1) * (r + 1)
}

/// The integer square root: the largest natural number whose square does not
/// exceed `n` (for a negative `n` the value is unspecified).
pub open spec fn floor_sqrt(n: int) -> int {
    choose|r: int| is_floor_sqrt(n, r)
}

/// Squaring is strictly monotone on the natural numbers.
pub proof fn lemma_square_monotone(a: int, b: int)
    by (nonlinear_arith)
    requires
        0 <= a < b,
    ensures
        (a + 1) * (a + 1) <= b * b,
        a * a < b * b,
{
}

/// At most one number is the integer square root of `n`, so a number that
/// satisfies `is_floor_sqrt` is `floor_sqrt(n)`.
pub proof fn lemma_floor_sqrt_unique(n: int, r: int)
    requires
        is_floor_sqrt(n, r),
    ensures
        floor_sqrt(n) == r,
{
    let c = floor_sqrt(n);
    assert(is_floor_sqrt(n, c));
    if c < r {
        lemma_square_monotone(c, r);
    } else if r < c {
        lemma_square_monotone(r, c);
    }
}

/// Every natural number has an integer square root.
pub proof fn lemma_floor_sqrt_exists(n: int)
    requires
        n >= 0,
    ensures
        is_floor_sqrt(n, floor_sqrt(n)),
    decreases n,
{
    if n == 0 {
        assert(is_floor_sqrt(0, 0));
    } else {
        lemma_floor_sqrt_exists(n - 1);
        let r = floor_sqrt(n - 1);
        if n < (r + 1) * (r + 1) {
            assert(is_floor_sqrt(n, r));
        } else {
            assert((r + 2) * (r + 2) > (r + 1) * (r + 1)) by (nonlinear_arith)
                requires
                    r >= 0,
            ;
            assert(is_floor_sqrt(n, r + 1));
        }
    }
}

/// Rounding toward zero commutes with negation.
pub proof fn lemma_trunc_div_neg(a: int, b: int)
    requires
        b > 0,
    ensures
        trunc_div(-a, b) == -trunc_div(a, b),
{
    assert(0int / b == 0) by (nonlinear_arith)
        requires
            b > 0,
    ;
}

/// A quotient rounded toward zero is as small as the bound of the dividend
/// allows.
pub proof fn lemma_trunc_div_bound(a: int, b: int, k: int)
    by (nonlinear_arith)
    requires
        b > 0,
        k >= 0,
        -(k * b) <= a <= k * b,
    ensures
        -k <= trunc_div(a, b) <= k,
{
}

/// Dividing a multiple of `b` by `b` gives the multiplier back.
pub proof fn lemma_trunc_div_exact(q: int, b: int)
    by (nonlinear_arith)
    requires
        b > 0,
    ensures
        trunc_div(q * b, b) == q,
{
}

/// The product of two bounded numbers is bounded by the product of the bounds.
pub proof fn lemma_product_bound(a: int, b: int, ba: int, bb: int)
    by (nonlinear_arith)
    requires
        -ba <= a <= ba,
        -bb <= b <= bb,
    ensures
        -(ba * bb) <= a * b <= ba * bb,
{
}

/// The absolute value of a wide number.
pub fn abs_i128(x: i128) -> (r: i128)
    requires
        x > i128::MIN,
    ensures
        r == magnitude(x as int),
{
    if x >= 0 {
        x
    } else {
        -x
    }
}

/// Divides by a positive number and rounds toward zero.
pub fn div_toward_zero(a: i128, b: i128) -> (r: i128)
    requires
        b > 0,
        a > i128::MIN,
    ensures
        r == trunc_div(a as int, b as int),
{
    a / b
}

/// The remainder of `a` by a positive `m` that is not negative.
pub fn modulo(a: i64, m: i64) -> (r: i64)
    requires
        m > 0,
    ensures
        r == (a as int) % (m as int),
        0 <= r < m,
{
    if a >= 0 {
        a % m
    } else {
        let n: i64 = -(a + 1);
        let k: i64 = n % m;
        proof {
            let q = (n as int) / (m as int);
            vstd::arithmetic::div_mod::lemma_fundamental_div_mod(n as int, m as int);
            assert(a == m * (-q - 1) + (m - 1 - k)) by (nonlinear_arith)
                requires
                    n == m * q + k,
                    a == -(n + 1),
            ;
            vstd::arithmetic::div_mod::lemma_fundamental_div_mod_converse(
                a as int,
                m as int,
                -q - 1,
                (m - 1 - k) as int,
            );
        }
        m - 1 - k
    }
}

/// The integer square root of `n`.
pub fn isqrt(n: u128) -> (r: u128)
    ensures
        r == floor_sqrt(n as int),
        is_floor_sqrt(n as int, r as int),
        r < 0x1_0000_0000_0000_0000,
{
    let mut lo: u128 = 0;
    let mut hi: u128 = 0x1_0000_0000_0000_0000;
    assert(0x1_0000_0000_0000_0000int * 0x1_0000_0000_0000_0000int > n) by (nonlinear_arith)
        requires
            n <= u128::MAX,
    ;
    while hi - lo > 1
        invariant
            0 <= lo < hi <= 0x1_0000_0000_0000_0000,
            lo * lo <= n < hi * hi,
        decreases hi - lo,
    {
        let mid: u128 = lo + (hi - lo) / 2;
        assert(mid * mid <= 0xffff_ffff_ffff_ffffint * 0xffff_ffff_ffff_ffffint) by (nonlinear_arith)
            requires
                0 <= mid <= 0xffff_ffff_ffff_ffff,
        ;
        if mid * mid <= n {
            lo = mid;
        } else {
            hi = mid;
        }
    }
    proof {
        lemma_floor_sqrt_unique(n as int, lo as int);
    }
    lo
}

} // verus!
