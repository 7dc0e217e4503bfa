//! From the ground to the paper.
//!
//! A ground position is scaled by the combined scale factor, turned by the
//! grivation, divided by the scale of the map and rounded to a thousandth of
//! a millimetre on paper. A map file holds paper positions in 32 bits.

use crate::coord::Coord;
use crate::geodetic::Direction;
use crate::{OmapError, OmapResult, Scale};
use vstd::prelude::*;

verus! {

/// The value that stands for a direction cosine of one.
pub const UNIT: i32 = 0x4000_0000;

/// The value that stands for a scale factor of one: factors are in parts
/// per thousand million.
pub const FACTOR_ONE: u64 = 1_000_000_000;

/// `m / d` rounded to the nearest whole number, halves upwards, for `m` that
/// is not negative.
pub open spec fn rounded_size(m: int, d: int) -> int {
    m / d + if 2 * (m % d) >= d {
        1int
    } else {
        0int
    }
}

/// `num / den` rounded to the nearest whole number, halves away from zero.
pub open spec fn rounded(num: int, den: int) -> int {
    if num >= 0 {
        rounded_size(num, den)
    } else {
        -rounded_size(-num, den)
    }
}

/// What a paper position is divided by: a direction cosine of one, a scale
/// factor of one and the scale, for ground millimetres into paper
/// thousandths.
pub open spec fn divisor(scale: Scale) -> int {
    UNIT * 1_000_000 * scale.spec_denominator()
}

/// The easting of a ground position on paper, before it is checked against
/// the range of a map file.
pub open spec fn paper_x(c: Coord, scale: Scale, grivation: Direction, factor: u64) -> int {
    rounded((grivation.cos * c.x - grivation.sin * c.y) * factor, divisor(scale))
}

/// The northing of a ground position on paper, before it is checked against
/// the range of a map file.
pub open spec fn paper_y(c: Coord, scale: Scale, grivation: Direction, factor: u64) -> int {
    rounded((grivation.sin * c.x + grivation.cos * c.y) * factor, divisor(scale))
}

/// Whether a map file can hold a paper coordinate.
pub open spec fn representable(v: int) -> bool {
    i32::MIN <= v <= i32::MAX
}

/// The paper position of a ground position, where a map file can hold it.
pub open spec fn projected(c: Coord, scale: Scale, grivation: Direction, factor: u64) -> Option<(i32, i32)> {
    let x = paper_x(c, scale, grivation, factor);
    let y = paper_y(c, scale, grivation, factor);
    if representable(x) && representable(y) {
        Some((x as i32, y as i32))
    } else {
        None
    }
}

/// `num / den` rounded to the nearest whole number, halves away from zero,
/// where 32 bits hold it.
pub fn round_to_paper(num: i128, den: u128) -> (r: Option<i32>)
    requires
        den > 0,
        den < 0x1_0000_0000_0000_0000_0000,
        -0x7fff_ffff_ffff_ffff_ffff_ffff_ffff_ffff <= num,
    ensures
        match r {
            Some(v) => v == rounded(num as int, den as int),
            None => !representable(rounded(num as int, den as int)),
        },
{
    let negative = num < 0;
    let m: u128 = if negative {
        (-num) as u128
    } else {
        num as u128
    };
    let q: u128 = m / den;
    let r: u128 = m % den;
    let up: bool = 2 * r >= den;
    if q >= 0x8000_0001 {
        return None;
    }
    let size: u128 = if up {
        q + 1
    } else {
        q
    };
    if negative {
        if size > 0x8000_0000 {
            None
        } else {
            Some((-(size as i64)) as i32)
        }
    } else {
        if size > 0x7fff_ffff {
            None
        } else {
            Some(size as i32)
        }
    }
}

/// The paper position of a ground position on a map of the given scale,
/// turned by the grivation and scaled by the combined scale factor, which is
/// given in parts per thousand million. Where the position falls outside
/// what a map file can hold, that is an error; a coordinate is never cut down
/// to fit.
pub fn to_map_coordinates(c: Coord, scale: Scale, grivation: &Direction, combined_scale_factor: u64) -> (r:
    OmapResult<(i32, i32)>)
    ensures
        match r {
            Ok(p) => projected(c, scale, *grivation, combined_scale_factor) == Some(p),
            Err(e) => e == OmapError::MapCoordinateOverflow && projected(
                c,
                scale,
                *grivation,
                combined_scale_factor,
            ).is_none(),
        },
{
    let cos = grivation.cos as i128;
    let sin = grivation.sin as i128;
    let x = c.x as i128;
    let y = c.y as i128;
    assert(-0x4000_0000_0000_0000_0000_0000 <= cos * x <= 0x4000_0000_0000_0000_0000_0000 && 
        -0x4000_0000_0000_0000_0000_0000 <= sin * y <= 0x4000_0000_0000_0000_0000_0000 && 
        -0x4000_0000_0000_0000_0000_0000 <= sin * x <= 0x4000_0000_0000_0000_0000_0000 && 
        -0x4000_0000_0000_0000_0000_0000 <= cos * y <= 0x4000_0000_0000_0000_0000_0000)
        by (nonlinear_arith)
        requires
            -0x8000_0000 <= cos <= 0x7fff_ffff,
            -0x8000_0000 <= sin <= 0x7fff_ffff,
            -0x8000_0000_0000_0000 <= x <= 0x7fff_ffff_ffff_ffff,
            -0x8000_0000_0000_0000 <= y <= 0x7fff_ffff_ffff_ffff,
    ;
    let gx: i128 = cos * x - sin * y;
    let gy: i128 = sin * x + cos * y;
    let den: u128 = 0x4000_0000u128 * 1_000_000u128 * (scale.denominator() as u128);
    assert(den == divisor(scale));
    match stretch_to_paper(gx, combined_scale_factor, den) {
        None => Err(OmapError::MapCoordinateOverflow),
        Some(px) => match stretch_to_paper(gy, combined_scale_factor, den) {
            None => Err(OmapError::MapCoordinateOverflow),
            Some(py) => Ok((px, py)),
        },
    }
}

/// `g * factor / den` rounded to the nearest whole number, halves away from
/// zero, where 32 bits hold it. A product that leaves 128 bits is far beyond
/// what 32 bits hold after the division.
fn stretch_to_paper(g: i128, factor: u64, den: u128) -> (r: Option<i32>)
    requires
        -0x1_0000_0000_0000_0000_0000_0000 <= g <= 0x1_0000_0000_0000_0000_0000_0000,
        0 < den < 0x1_0000_0000_0000_0000,
    ensures
        match r {
            Some(v) => v == rounded(g * factor, den as int),
            None => !representable(rounded(g * factor, den as int)),
        },
{
    if factor == 0 {
        assert(g * factor == 0) by (nonlinear_arith)
            requires
                factor == 0,
        ;
        return round_to_paper(0, den);
    }
    let size: u128 = if g < 0 {
        (-g) as u128
    } else {
        g as u128
    };
    let f = factor as u128;
    let most: u128 = 0x1_0000_0000_0000_0000_0000_0000u128 / f;
    proof {
        vstd::arithmetic::div_mod::lemma_fundamental_div_mod(0x1_0000_0000_0000_0000_0000_0000, f as int);
        vstd::arithmetic::div_mod::lemma_mod_bound(0x1_0000_0000_0000_0000_0000_0000, f as int);
        assert(most * f == f * most) by (nonlinear_arith);
    }
    if size > most {
        proof {
            let m = size * f;
            assert(m > 0x1_0000_0000_0000_0000_0000_0000) by (nonlinear_arith)
                requires
                    m == size * f,
                    size >= most + 1,
                    0x1_0000_0000_0000_0000_0000_0000 == f * most + (0x1_0000_0000_0000_0000_0000_0000int
                        % (f as int)),
                    0 <= (0x1_0000_0000_0000_0000_0000_0000int % (f as int)) < f,
                    f > 0,
            ;
            lemma_far_off_paper(m as int, den as int);
            assert(g * factor == m || g * factor == -m) by (nonlinear_arith)
                requires
                    m == size * f,
                    f == factor,
                    size == g || size == -g,
            ;
        }
        return None;
    }
    assert(-0x1_0000_0000_0000_0000_0000_0000 <= g * f <= 0x1_0000_0000_0000_0000_0000_0000)
        by (nonlinear_arith)
        requires
            size <= most,
            most * f <= 0x1_0000_0000_0000_0000_0000_0000,
            size == g || size == -g,
            f > 0,
    ;
    round_to_paper(g * (f as i128), den)
}

/// A number beyond 2^96 over a divisor below 2^64 is beyond what 32 bits
/// hold, whatever its sign.
proof fn lemma_far_off_paper(m: int, den: int)
    requires
        m > 0x1_0000_0000_0000_0000_0000_0000,
        0 < den < 0x1_0000_0000_0000_0000,
    ensures
        !representable(rounded(m, den)),
        !representable(rounded(-m, den)),
{
    vstd::arithmetic::div_mod::lemma_fundamental_div_mod(m, den);
    vstd::arithmetic::div_mod::lemma_mod_bound(m, den);
    let q = m / den;
    assert(q >= 0x1_0000_0000) by (nonlinear_arith)
        requires
            m == den * q + m % den,
            0 <= m % den < den,
            m > 0x1_0000_0000_0000_0000_0000_0000,
            0 < den < 0x1_0000_0000_0000_0000,
    ;
}

/// Without grivation and with a scale factor of one, a paper coordinate is
/// the ground coordinate over the scale: a thousand paper units to the
/// ground millimetre, divided by the denominator and rounded.
pub proof fn lemma_plain_projection(c: Coord, scale: Scale)
    ensures
        paper_x(c, scale, Direction::spec_zero(), FACTOR_ONE) == rounded(
            1000 * c.x,
            scale.spec_denominator(),
        ),
        paper_y(c, scale, Direction::spec_zero(), FACTOR_ONE) == rounded(
            1000 * c.y,
            scale.spec_denominator(),
        ),
{
    let d = scale.spec_denominator();
    let k: int = UNIT as int * 1_000_000;
    assert(divisor(scale) == k * d);
    let (u, f, x, y) = (UNIT as int, FACTOR_ONE as int, c.x as int, c.y as int);
    assert((u * x - 0 * y) * f == k * (1000 * x) && (0 * x + u * y) * f == k * (1000 * y))
        by (nonlinear_arith)
        requires
            u == 0x4000_0000,
            f == 1_000_000_000,
            k == u * 1_000_000,
    ;
    lemma_rounded_cancel(1000 * c.x, d, k);
    lemma_rounded_cancel(1000 * c.y, d, k);
}

proof fn lemma_rounded_cancel(a: int, d: int, k: int)
    requires
        d > 0,
        k > 0,
    ensures
        rounded(k * a, k * d) == rounded(a, d),
{
    if a >= 0 {
        lemma_size_cancel(a, d, k);
        assert(k * a >= 0) by (nonlinear_arith)
            requires
                k > 0,
                a >= 0,
        ;
    } else {
        lemma_size_cancel(-a, d, k);
        assert(k * a < 0 && -(k * a) == k * (-a)) by (nonlinear_arith)
            requires
                k > 0,
                a < 0,
        ;
    }
}

proof fn lemma_size_cancel(m: int, d: int, k: int)
    requires
        m >= 0,
        d > 0,
        k > 0,
    ensures
        rounded_size(k * m, k * d) == rounded_size(m, d),
{
    vstd::arithmetic::div_mod::lemma_fundamental_div_mod(m, d);
    vstd::arithmetic::div_mod::lemma_mod_bound(m, d);
    let q = m / d;
    let r = m % d;
    assert(k * m == q * (k * d) + k * r && 0 <= k * r < k * d) by (nonlinear_arith)
        requires
            m == d * q + r,
            0 <= r < d,
            k > 0,
    ;
    vstd::arithmetic::div_mod::lemma_fundamental_div_mod_converse(k * m, k * d, q, k * r);
    assert((2 * (k * r) >= k * d) == (2 * r >= d)) by (nonlinear_arith)
        requires
            k > 0,
    ;
}

} // verus!
