//! Rotations from angles, by a table of sines.

use vstd::prelude::*;
use crate::scalar::{
    div_toward_zero, floor_sqrt, isqrt, lemma_product_bound, lemma_square_monotone,
    lemma_trunc_div_bound, modulo, trunc_div, within, UNIT,
};
use crate::shapes::Rotation;

verus! {

/// The angle of a full turn in steps of `1 / UNIT` of a radian, rounded to the
/// nearest whole number.
pub const FULL_TURN: i64 = 411775;

/// The sine of `k` degrees in steps of `1 / UNIT`, rounded to the nearest
/// whole number, for `k` from 0 to 46; zero for any other `k`.
pub open spec fn sine_table(k: int) -> int {
    if k == 0 {
        0
    } else if k == 1 {
        1144
    } else if k == 2 {
        2287
    } else if k == 3 {
        3430
    } else if k == 4 {
        4572
    } else if k == 5 {
        5712
    } else if k == 6 {
        6850
    } else if k == 7 {
        7987
    } else if k == 8 {
        9121
    } else if k == 9 {
        10252
    } else if k == 10 {
        11380
    } else if k == 11 {
        12505
    } else if k == 12 {
        13626
    } else if k == 13 {
        14742
    } else if k == 14 {
        15855
    } else if k == 15 {
        16962
    } else if k == 16 {
        18064
    } else if k == 17 {
        19161
    } else if k == 18 {
        20252
    } else if k == 19 {
        21336
    } else if k == 20 {
        22415
    } else if k == 21 {
        23486
    } else if k == 22 {
        24550
    } else if k == 23 {
        25607
    } else if k == 24 {
        26656
    } else if k == 25 {
        27697
    } else if k == 26 {
        28729
    } else if k == 27 {
        29753
    } else if k == 28 {
        30767
    } else if k == 29 {
        31772
    } else if k == 30 {
        32768
    } else if k == 31 {
        33754
    } else if k == 32 {
        34729
    } else if k == 33 {
        35693
    } else if k == 34 {
        36647
    } else if k == 35 {
        37590
    } else if k == 36 {
        38521
    } else if k == 37 {
        39441
    } else if k == 38 {
        40348
    } else if k == 39 {
        41243
    } else if k == 40 {
        42126
    } else if k == 41 {
        42995
    } else if k == 42 {
        43852
    } else if k == 43 {
        44695
    } else if k == 44 {
        45525
    } else if k == 45 {
        46341
    } else if k == 46 {
        47143
    } else {
        0
    }
}

/// An angle of a whole number of degrees and the fraction `rem / den` of one
/// more.
pub struct Angle {
    pub whole: int,
    pub rem: int,
    pub den: int,
}

/// The sine of the angle `a` between 0 and 46 degrees, in steps of
/// `1 / UNIT`: the entry of the table for its whole degrees, and from there
/// the part `rem / den` of the way to the next entry, rounded toward zero.
pub open spec fn sine_small(a: Angle) -> int {
    sine_table(a.whole) + trunc_div((sine_table(a.whole + 1) - sine_table(a.whole)) * a.rem, a.den)
}

/// What is left of a quarter turn after the angle `a`.
pub open spec fn complement(a: Angle) -> Angle {
    if a.rem == 0 {
        Angle { whole: 90 - a.whole, rem: 0, den: a.den }
    } else {
        Angle { whole: 89 - a.whole, rem: a.den - a.rem, den: a.den }
    }
}

/// The other of cosine and sine, where one of them is `small`: the largest
/// whole number whose square, with that of `small`, does not exceed the
/// square of `UNIT`.
pub open spec fn partner(small: int) -> int {
    floor_sqrt(UNIT * UNIT - small * small)
}

/// The rotation by the angle `a` of less than a quarter turn. The smaller of
/// cosine and sine is read from the table of sines, and the larger is its
/// partner.
pub open spec fn quarter(a: Angle) -> Rotation {
    if a.whole < 45 || (a.whole == 45 && a.rem == 0) {
        let s = sine_small(a);
        Rotation { c: partner(s) as i64, s: s as i64 }
    } else {
        let c = sine_small(complement(a));
        Rotation { c: c as i64, s: partner(c) as i64 }
    }
}

/// The rotation by the angle `a` of less than a full turn: that by what is
/// left of it after its whole quarter turns, turned by those.
pub open spec fn rotation_of(a: Angle) -> Rotation {
    let q = a.whole / 90;
    let r = quarter(Angle { whole: a.whole % 90, rem: a.rem, den: a.den });
    if q == 0 {
        r
    } else if q == 1 {
        Rotation { c: (-r.s) as i64, s: r.c }
    } else if q == 2 {
        Rotation { c: (-r.c) as i64, s: (-r.s) as i64 }
    } else {
        Rotation { c: r.s, s: (-r.c) as i64 }
    }
}

/// The angle of `degrees`, less its full turns.
pub open spec fn angle_of_degrees(degrees: int) -> Angle {
    Angle { whole: degrees % 360, rem: 0, den: 1 }
}

/// The angle of `radians`, counted in steps of `1 / UNIT`, less its full
/// turns, where a full turn is `FULL_TURN` steps.
pub open spec fn angle_of_radians(radians: int) -> Angle {
    let part = (radians % (FULL_TURN as int)) * 360;
    Angle { whole: part / (FULL_TURN as int), rem: part % (FULL_TURN as int), den: FULL_TURN as int }
}

/// The entry of the table of sines for `k` degrees.
fn sine_entry(k: i64) -> (r: i64)
    requires
        0 <= k <= 46,
    ensures
        r == sine_table(k as int),
        0 <= r <= 47143,
{
    match k {
        0 => 0,
        1 => 1144,
        2 => 2287,
        3 => 3430,
        4 => 4572,
        5 => 5712,
        6 => 6850,
        7 => 7987,
        8 => 9121,
        9 => 10252,
        10 => 11380,
        11 => 12505,
        12 => 13626,
        13 => 14742,
        14 => 15855,
        15 => 16962,
        16 => 18064,
        17 => 19161,
        18 => 20252,
        19 => 21336,
        20 => 22415,
        21 => 23486,
        22 => 24550,
        23 => 25607,
        24 => 26656,
        25 => 27697,
        26 => 28729,
        27 => 29753,
        28 => 30767,
        29 => 31772,
        30 => 32768,
        31 => 33754,
        32 => 34729,
        33 => 35693,
        34 => 36647,
        35 => 37590,
        36 => 38521,
        37 => 39441,
        38 => 40348,
        39 => 41243,
        40 => 42126,
        41 => 42995,
        42 => 43852,
        43 => 44695,
        44 => 45525,
        45 => 46341,
        46 => 47143,
        _ => 0,
    }
}

/// The sine of an angle between 0 and 46 degrees.
fn sine_of(whole: i64, rem: i64, den: i64) -> (r: i64)
    requires
        0 <= whole <= 45,
        0 <= rem < den <= FULL_TURN,
    ensures
        r == sine_small(Angle { whole: whole as int, rem: rem as int, den: den as int }),
        0 <= r <= 47143,
{
    let lo = sine_entry(whole);
    let hi = sine_entry(whole + 1);
    proof {
        lemma_entries_rise(whole as int);
        lemma_product_bound((hi - lo) as int, rem as int, 47143, FULL_TURN as int);
        assert(0 <= (hi - lo) * rem <= (hi - lo) * den) by (nonlinear_arith)
            requires
                0 <= hi - lo,
                0 <= rem < den,
        ;
        lemma_trunc_div_bound((hi - lo) * rem, den as int, (hi - lo) as int);
    }
    let step = div_toward_zero(((hi - lo) as i128) * (rem as i128), den as i128);
    lo + step as i64
}

/// The table of sines rises from each entry to the next.
proof fn lemma_entries_rise(k: int)
    requires
        0 <= k <= 45,
    ensures
        sine_table(k) <= sine_table(k + 1),
{
}

/// The partner of one of cosine and sine.
fn partner_of(small: i64) -> (r: i64)
    requires
        0 <= small <= 47143,
    ensures
        r == partner(small as int),
        0 <= r <= UNIT,
        within(r * r + small * small - UNIT * UNIT, 2 * UNIT + 1),
{
    proof {
        lemma_product_bound(small as int, small as int, 47143, 47143);
    }
    let q: i128 = (UNIT as i128) * (UNIT as i128) - (small as i128) * (small as i128);
    let r = isqrt(q as u128);
    proof {
        if r > UNIT {
            lemma_square_monotone(UNIT as int, r as int);
        }
        assert((r + 1) * (r + 1) == r * r + 2 * r + 1) by (nonlinear_arith);
    }
    r as i64
}

/// The rotation by an angle of less than a quarter turn.
fn quarter_rotation(whole: i64, rem: i64, den: i64) -> (r: Rotation)
    requires
        0 <= whole < 90,
        0 <= rem < den <= FULL_TURN,
    ensures
        r == quarter(Angle { whole: whole as int, rem: rem as int, den: den as int }),
        r.wf(),
        r.c >= 0,
        r.s >= 0,
{
    if whole < 45 || (whole == 45 && rem == 0) {
        let s = sine_of(whole, rem, den);
        let c = partner_of(s);
        Rotation { c, s }
    } else {
        let c = if rem == 0 {
            sine_of(90 - whole, 0, den)
        } else {
            sine_of(89 - whole, den - rem, den)
        };
        let s = partner_of(c);
        Rotation { c, s }
    }
}

/// The rotation by an angle of less than a full turn.
fn rotation_from(whole: i64, rem: i64, den: i64) -> (r: Rotation)
    requires
        0 <= whole < 360,
        0 <= rem < den <= FULL_TURN,
    ensures
        r == rotation_of(Angle { whole: whole as int, rem: rem as int, den: den as int }),
        r.wf(),
{
    let q = whole / 90;
    let r = quarter_rotation(whole % 90, rem, den);
    proof {
        assert((-r.s) * (-r.s) == r.s * r.s) by (nonlinear_arith);
        assert((-r.c) * (-r.c) == r.c * r.c) by (nonlinear_arith);
    }
    if q == 0 {
        r
    } else if q == 1 {
        Rotation { c: -r.s, s: r.c }
    } else if q == 2 {
        Rotation { c: -r.c, s: -r.s }
    } else {
        Rotation { c: r.s, s: -r.c }
    }
}

impl Rotation {
    /// Rotation in radians, counted in steps of `1 / UNIT`: `UNIT` stands for
    /// one radian, and `FULL_TURN` for a full turn.
    pub fn radians(radians: i64) -> (r: Rotation)
        ensures
            r == rotation_of(angle_of_radians(radians as int)),
            r.wf(),
    {
        let part: i64 = modulo(radians, FULL_TURN) * 360;
        rotation_from(part / FULL_TURN, part % FULL_TURN, FULL_TURN)
    }

    /// Rotation in degrees
    pub fn degrees(degrees: i64) -> (r: Rotation)
        ensures
            r == rotation_of(angle_of_degrees(degrees as int)),
            r.wf(),
    {
        rotation_from(modulo(degrees, 360), 0, 1)
    }
}

} // verus!
