//! What ties a map to the ground: its scale, its reference point, and the
//! turn and stretch between true ground and the magnetic grid of the paper.

use crate::coord::Coord;
use crate::map_coord::{representable, round_to_paper, rounded, FACTOR_ONE, UNIT};
use crate::{OmapError, OmapResult, Scale};
use vstd::prelude::*;

verus! {

/// A direction: the cosine and the sine of an angle, in units of 2^-30. The
/// library does no trigonometry; a direction comes from outside or from
/// other directions. The parts of a direction are at most one in size and
/// their squares come to one, give or take the rounding: `is_direction` and
/// `is_short` say as much as the library needs of that.
#[derive(Clone, Copy, Debug, PartialEq, Eq, Structural)]
pub struct Direction {
    pub cos: i32,
    pub sin: i32,
}

impl Direction {
    /// No turn at all.
    pub open spec fn spec_zero() -> Direction {
        Direction { cos: UNIT, sin: 0 }
    }

    /// No turn at all.
    pub fn zero() -> (d: Direction)
        ensures
            d == Self::spec_zero(),
    {
        Direction { cos: UNIT, sin: 0 }
    }
}

/// An angle with its direction: the measure in millionths of a degree, which
/// is what a map file shows, and the direction, which is what turns the map.
/// Whoever makes an angle supplies both.
#[derive(Clone, Copy, Debug, PartialEq, Eq, Structural)]
pub struct Angle {
    pub microdegrees: i64,
    pub direction: Direction,
}

impl Angle {
    /// No turn at all.
    pub open spec fn spec_zero() -> Angle {
        Angle { microdegrees: 0, direction: Direction::spec_zero() }
    }

    /// No turn at all.
    pub fn zero() -> (a: Angle)
        ensures
            a == Self::spec_zero(),
    {
        Angle { microdegrees: 0, direction: Direction::zero() }
    }
}

/// A position on the grid of a coordinate reference system, in thousandths
/// of a millimetre.
#[derive(Clone, Copy, Debug, PartialEq, Eq, Structural)]
pub struct GridPoint {
    pub easting: i64,
    pub northing: i64,
}

/// Where the projection puts the four ends of a cross on the ellipsoid: the
/// cross is centred on the reference point, and its arms reach 500 metres to
/// the east, the north, the west and the south.
#[derive(Clone, Copy, Debug, PartialEq, Eq, Structural)]
pub struct GridCross {
    pub east: GridPoint,
    pub north: GridPoint,
    pub west: GridPoint,
    pub south: GridPoint,
}

/// What the grid does to the ground at the reference point: how much longer
/// grid distances are than ground distances, in parts per thousand million,
/// and the direction of the convergence, the angle from true north to grid
/// north.
#[derive(Clone, Copy, Debug, PartialEq, Eq, Structural)]
pub struct GridReport {
    pub grid_scale_factor: u64,
    pub convergence: Direction,
}

/// The georeferencing of a map. A map without a coordinate reference system
/// is local: no declination, no grivation, scale factors of one.
#[derive(Clone, Copy, Debug, PartialEq, Eq, Structural)]
pub struct GeodeticParameters {
    pub scale: Scale,
    pub ref_point: Coord,
    pub epsg: Option<u16>,
    pub declination: Angle,
    pub grivation: Direction,
    pub elevation_scale_factor: u64,
    pub combined_scale_factor: u64,
}

/// The largest derivative of the grid that the arithmetic of the library
/// holds: 2^62 parts per thousand million. With derivatives beyond it the
/// products that the grid report is made of leave 128 bits.
pub const MAX_DERIVATIVE: i64 = 0x4000_0000_0000_0000;

/// The least determinant of the grid's derivatives that is trusted: a
/// hundredth. Below it the projection is taken to have broken down at the
/// reference point. The determinant is in units of 10^-18.
pub const MIN_DETERMINANT: i128 = 10_000_000_000_000_000;

/// The derivatives of the grid along the arms of the cross, in parts per
/// thousand million. The arms are a thousand metres from end to end, so a
/// derivative is the difference of two grid coordinates in thousandths of a
/// millimetre.
pub struct Derivatives {
    pub easting_dx: int,
    pub northing_dx: int,
    pub easting_dy: int,
    pub northing_dy: int,
}

/// The derivatives that a cross shows.
pub open spec fn derivatives(cross: GridCross) -> Derivatives {
    Derivatives {
        easting_dx: cross.east.easting - cross.west.easting,
        northing_dx: cross.east.northing - cross.west.northing,
        easting_dy: cross.north.easting - cross.south.easting,
        northing_dy: cross.north.northing - cross.south.northing,
    }
}

impl Derivatives {
    /// Whether each derivative is at most `MAX_DERIVATIVE` in size.
    pub open spec fn bounded(self) -> bool {
        &&& -MAX_DERIVATIVE <= self.easting_dx <= MAX_DERIVATIVE
        &&& -MAX_DERIVATIVE <= self.northing_dx <= MAX_DERIVATIVE
        &&& -MAX_DERIVATIVE <= self.easting_dy <= MAX_DERIVATIVE
        &&& -MAX_DERIVATIVE <= self.northing_dy <= MAX_DERIVATIVE
    }

    /// The determinant of the derivatives.
    pub open spec fn determinant(self) -> int {
        self.easting_dx * self.northing_dy - self.northing_dx * self.easting_dy
    }

    /// What the sine of the convergence is in proportion to.
    pub open spec fn across(self) -> int {
        self.northing_dx - self.easting_dy
    }

    /// What the cosine of the convergence is in proportion to.
    pub open spec fn along(self) -> int {
        self.easting_dx + self.northing_dy
    }
}

/// The whole part of the square root of a number.
pub open spec fn sqrt_floor(v: nat) -> nat
    decreases v,
{
    if v == 0 {
        0
    } else {
        let r = 2 * sqrt_floor(v / 4);
        if (r + 1) * (r + 1) <= v {
            r + 1
        } else {
            r
        }
    }
}

/// `sqrt_floor` is the whole part of the square root: the largest number
/// whose square is at most `v`.
pub proof fn lemma_sqrt_floor(v: nat)
    ensures
        sqrt_floor(v) * sqrt_floor(v) <= v < (sqrt_floor(v) + 1) * (sqrt_floor(v) + 1),
    decreases v,
{
    if v > 0 {
        let q = v / 4;
        let s = sqrt_floor(q);
        lemma_sqrt_floor(q);
        let r = 2 * s;
        assert(4 * q <= v < 4 * q + 4);
        assert(r * r <= v && v < (r + 2) * (r + 2)) by (nonlinear_arith)
            requires
                s * s <= q < (s + 1) * (s + 1),
                4 * q <= v < 4 * q + 4,
                r == 2 * s,
        ;
        let t = sqrt_floor(v);
        if (r + 1) * (r + 1) <= v {
            assert(t == r + 1);
            assert(t * t <= v && v < (t + 1) * (t + 1)) by (nonlinear_arith)
                requires
                    t == r + 1,
                    (r + 1) * (r + 1) <= v,
                    v < (r + 2) * (r + 2),
            ;
        } else {
            assert(t == r);
            assert(t * t <= v && v < (t + 1) * (t + 1)) by (nonlinear_arith)
                requires
                    t == r,
                    r * r <= v,
                    v < (r + 1) * (r + 1),
            ;
        }
    } else {
        let t = sqrt_floor(v);
        assert(t == 0);
        assert(t * t <= v && v < (t + 1) * (t + 1)) by (nonlinear_arith)
            requires
                t == 0,
                v == 0,
        ;
    }
}

/// What a cross tells of the grid, where it can be trusted.
///
/// The grid scale factor is the square root of the determinant of the
/// derivatives, and the convergence is the direction of `(along, across)`.
/// The cross is not trusted where the determinant is below
/// `MIN_DETERMINANT`. A cross with a derivative beyond `MAX_DERIVATIVE`
/// is refused too: the arithmetic does not hold it.
pub open spec fn grid_report_of(cross: GridCross) -> OmapResult<GridReport> {
    let d = derivatives(cross);
    if !d.bounded() || d.determinant() < MIN_DETERMINANT {
        Err(OmapError::Proj)
    } else {
        let length = sqrt_floor((d.along() * d.along() + d.across() * d.across()) as nat);
        Ok(
            GridReport {
                grid_scale_factor: sqrt_floor(d.determinant() as nat) as u64,
                convergence: Direction {
                    cos: rounded(d.along() * UNIT, length as int) as i32,
                    sin: rounded(d.across() * UNIT, length as int) as i32,
                },
            },
        )
    }
}

/// Whether the cosine and the sine of a direction are at most one in size.
pub open spec fn is_direction(d: Direction) -> bool {
    -UNIT <= d.cos <= UNIT && -UNIT <= d.sin <= UNIT
}

/// A number over a length that is at least its size is at most one in size.
proof fn lemma_direction_bounded(a: int, length: int)
    requires
        length > 0,
        -length <= a <= length,
    ensures
        -UNIT <= rounded(a * UNIT, length) <= UNIT,
{
    let unit = UNIT as int;
    let m = if a >= 0 {
        a * unit
    } else {
        -(a * unit)
    };
    assert(0 <= m <= length * unit) by (nonlinear_arith)
        requires
            -length <= a <= length,
            unit == 0x4000_0000,
            m == if a >= 0 {
                a * unit
            } else {
                -(a * unit)
            },
    ;
    vstd::arithmetic::div_mod::lemma_fundamental_div_mod(m, length);
    vstd::arithmetic::div_mod::lemma_mod_bound(m, length);
    let q = m / length;
    let r = m % length;
    assert(q <= unit && (q == unit ==> r == 0)) by (nonlinear_arith)
        requires
            m == length * q + r,
            0 <= r < length,
            m <= length * unit,
            length > 0,
    ;
    assert(crate::map_coord::rounded_size(m, length) <= unit);
    assert(crate::map_coord::rounded_size(m, length) >= 0) by (nonlinear_arith)
        requires
            m == length * q + r,
            0 <= r < length,
            m >= 0,
            length > 0,
            crate::map_coord::rounded_size(m, length) == q + if 2 * r >= length {
                1int
            } else {
                0int
            },
    ;
    if a >= 0 {
        assert(a * unit >= 0) by (nonlinear_arith)
            requires
                a >= 0,
                unit == 0x4000_0000,
        ;
    } else {
        assert(a * unit < 0) by (nonlinear_arith)
            requires
                a < 0,
                unit == 0x4000_0000,
        ;
    }
}

/// A number is at most as large as the whole part of the square root of
/// anything that its square is part of.
proof fn lemma_within_length(a: int, square: nat)
    requires
        a * a <= square,
    ensures
        -sqrt_floor(square) <= a <= sqrt_floor(square),
{
    lemma_sqrt_floor(square);
    let length = sqrt_floor(square) as int;
    assert(-length <= a <= length) by (nonlinear_arith)
        requires
            a * a <= square,
            square < (length + 1) * (length + 1),
            length >= 0,
    ;
}

/// A trusted cross gives a direction whose cosine and sine are at most one in
/// size.
pub proof fn lemma_grid_report_direction(cross: GridCross)
    requires
        grid_report_of(cross).is_ok(),
    ensures
        is_direction(grid_report_of(cross).unwrap().convergence),
        ({
            let d = derivatives(cross);
            let length = sqrt_floor((d.along() * d.along() + d.across() * d.across()) as nat) as int;
            &&& length > 0
            &&& -UNIT <= rounded(d.along() * UNIT, length) <= UNIT
            &&& -UNIT <= rounded(d.across() * UNIT, length) <= UNIT
        }),
{
    let d = derivatives(cross);
    let (along, across) = (d.along(), d.across());
    let square = along * along + across * across;
    assert(along * along >= 0 && across * across >= 0 && square >= 2 * d.determinant())
        by (nonlinear_arith)
        requires
            along == d.easting_dx + d.northing_dy,
            across == d.northing_dx - d.easting_dy,
            square == along * along + across * across,
            d.determinant() == d.easting_dx * d.northing_dy - d.northing_dx * d.easting_dy,
    ;
    lemma_sqrt_floor(square as nat);
    let length = sqrt_floor(square as nat) as int;
    assert(length > 0) by (nonlinear_arith)
        requires
            square < (length + 1) * (length + 1),
            square >= 1,
            length >= 0,
    ;
    lemma_within_length(along, square as nat);
    lemma_within_length(across, square as nat);
    lemma_direction_bounded(along, length);
    lemma_direction_bounded(across, length);
}

/// The square root of a square is the number itself.
pub proof fn lemma_sqrt_of_square(k: nat)
    ensures
        sqrt_floor(k * k) == k,
{
    lemma_sqrt_floor(k * k);
    let r = sqrt_floor(k * k);
    assert(r == k) by (nonlinear_arith)
        requires
            r * r <= k * k,
            k * k < (r + 1) * (r + 1),
    ;
}

/// A cross that the grid stretches evenly, by `k` parts per thousand
/// million, and does not turn, tells just that: a grid scale factor of `k`
/// and no convergence, for every `k` from a tenth up to what the arithmetic
/// holds. The true cross has a factor of one.
pub proof fn lemma_stretched_cross(cross: GridCross, k: int)
    requires
        100_000_000 <= k <= MAX_DERIVATIVE,
        derivatives(cross) == (Derivatives { easting_dx: k, northing_dx: 0, easting_dy: 0, northing_dy: k }),
    ensures
        grid_report_of(cross) == Ok::<GridReport, OmapError>(
            GridReport { grid_scale_factor: k as u64, convergence: Direction::spec_zero() },
        ),
{
    let d = derivatives(cross);
    assert(d.determinant() == k * k);
    assert(k * k >= MIN_DETERMINANT) by (nonlinear_arith)
        requires
            k >= 100_000_000,
    ;
    lemma_sqrt_of_square(k as nat);
    assert(d.along() == 2 * k && d.across() == 0);
    assert(d.along() * d.along() + d.across() * d.across() == (2 * k) * (2 * k)) by (nonlinear_arith)
        requires
            d.along() == 2 * k,
            d.across() == 0,
    ;
    lemma_sqrt_of_square((2 * k) as nat);
    let length = 2 * k;
    let unit = UNIT as int;
    assert(rounded(d.along() * UNIT, length) == unit) by {
        let m = d.along() * unit;
        assert(m == length * unit && m >= 0) by (nonlinear_arith)
            requires
                m == d.along() * unit,
                d.along() == length,
                length > 0,
                unit == 0x4000_0000,
        ;
        vstd::arithmetic::div_mod::lemma_fundamental_div_mod_converse(m, length, unit, 0);
    }
    assert(d.across() * UNIT == 0);
    assert(rounded(0, length) == 0) by {
        vstd::arithmetic::div_mod::lemma_fundamental_div_mod_converse(0, length, 0, 0);
    }
}

/// Whether a direction is short: the squares of its parts come to less than
/// two. Every cosine and sine of one angle make a short direction, however
/// they were rounded.
pub open spec fn is_short(d: Direction) -> bool {
    d.cos * d.cos + d.sin * d.sin <= 0x1fff_ffff_8000_0000
}

/// A short direction turned back by a direction whose parts are at most one
/// in size can be held. The convergence that a cross tells is such a
/// direction, so the grivation fails for no declination that is a direction.
pub proof fn lemma_directions_subtract(a: Direction, b: Direction)
    requires
        is_short(a),
        is_direction(b),
    ensures
        can_subtract(a, b),
{
    let (ac, asn, bc, bs) = (a.cos as int, a.sin as int, b.cos as int, b.sin as int);
    let unit = UNIT as int;
    let ca = if ac >= 0 {
        ac
    } else {
        -ac
    };
    let sa = if asn >= 0 {
        asn
    } else {
        -asn
    };
    let sum = ca + sa;
    assert(ca * ca == ac * ac && sa * sa == asn * asn) by (nonlinear_arith)
        requires
            ca == ac || ca == -ac,
            sa == asn || sa == -asn,
    ;
    assert(sum * sum <= 2 * (ca * ca + sa * sa)) by (nonlinear_arith)
        requires
            sum == ca + sa,
    ;
    assert(sum <= 0x7fff_ffff) by (nonlinear_arith)
        requires
            sum * sum <= 2 * 0x1fff_ffff_8000_0000,
            sum >= 0,
    ;
    let (x1, x2, x3, x4) = (ac * bc, asn * bs, asn * bc, ac * bs);
    assert(-(ca * unit) <= x1 <= ca * unit && -(ca * unit) <= x4 <= ca * unit) by (nonlinear_arith)
        requires
            x1 == ac * bc,
            x4 == ac * bs,
            ca == ac || ca == -ac,
            ca >= 0,
            -unit <= bc <= unit,
            -unit <= bs <= unit,
    ;
    assert(-(sa * unit) <= x2 <= sa * unit && -(sa * unit) <= x3 <= sa * unit) by (nonlinear_arith)
        requires
            x2 == asn * bs,
            x3 == asn * bc,
            sa == asn || sa == -asn,
            sa >= 0,
            -unit <= bc <= unit,
            -unit <= bs <= unit,
    ;
    assert(ca * unit + sa * unit == sum * unit && sum * unit <= 0x7fff_ffff * unit) by (nonlinear_arith)
        requires
            sum == ca + sa,
            sum <= 0x7fff_ffff,
            unit == 0x4000_0000,
    ;
    lemma_rounded_within(x1 + x2);
    lemma_rounded_within(x3 - x4);
}

proof fn lemma_rounded_within(p: int)
    requires
        -0x1fff_ffff_c000_0000 <= p <= 0x1fff_ffff_c000_0000,
    ensures
        representable(unit_rounded(p)),
{
    let unit = UNIT as int;
    let m = if p >= 0 {
        p
    } else {
        -p
    };
    vstd::arithmetic::div_mod::lemma_fundamental_div_mod(m, unit);
    vstd::arithmetic::div_mod::lemma_mod_bound(m, unit);
    assert(0 <= m / unit <= 0x7fff_ffff);
    assert(m / unit == 0x7fff_ffff ==> m % unit == 0);
}

/// The whole part of the square root of a number.
pub fn int_sqrt(v: u128) -> (r: u128)
    ensures
        r == sqrt_floor(v as nat),
        r < 0x1_0000_0000_0000_0000,
    decreases v,
{
    if v == 0 {
        return 0;
    }
    let half = int_sqrt(v / 4);
    proof {
        lemma_sqrt_floor((v / 4) as nat);
        assert(half < 0x8000_0000_0000_0000) by (nonlinear_arith)
            requires
                half * half <= v / 4,
                v / 4 < 0x4000_0000_0000_0000_0000_0000_0000_0000,
        ;
    }
    let r = 2 * half;
    assert((r + 1) * (r + 1) <= 0xffff_ffff_ffff_ffff_ffff_ffff_ffff_ffff) by (nonlinear_arith)
        requires
            r + 1 <= 0xffff_ffff_ffff_ffff,
    ;
    if (r + 1) * (r + 1) <= v {
        r + 1
    } else {
        r
    }
}

/// How far a number is from zero.
fn size_of_wide(v: i128) -> (m: u128)
    requires
        -0x7fff_ffff_ffff_ffff_ffff_ffff_ffff_ffff <= v,
    ensures
        m == if v < 0 {
            -v
        } else {
            v as int
        },
{
    if v < 0 {
        (-v) as u128
    } else {
        v as u128
    }
}

/// What a cross tells of the grid: see `grid_report_of`. The direction of
/// the convergence is at most one in size.
pub fn grid_report(cross: &GridCross) -> (r: OmapResult<GridReport>)
    ensures
        r == grid_report_of(*cross),
        r.is_ok() ==> is_direction(r.unwrap().convergence),
{
    let easting_dx: i128 = cross.east.easting as i128 - cross.west.easting as i128;
    let northing_dx: i128 = cross.east.northing as i128 - cross.west.northing as i128;
    let easting_dy: i128 = cross.north.easting as i128 - cross.south.easting as i128;
    let northing_dy: i128 = cross.north.northing as i128 - cross.south.northing as i128;
    let limit: i128 = MAX_DERIVATIVE as i128;
    if easting_dx < -limit || easting_dx > limit || northing_dx < -limit || northing_dx > limit
        || easting_dy < -limit || easting_dy > limit || northing_dy < -limit || northing_dy > limit {
        return Err(OmapError::Proj);
    }
    assert(-0x1000_0000_0000_0000_0000_0000_0000_0000 <= easting_dx * northing_dy
        <= 0x1000_0000_0000_0000_0000_0000_0000_0000 && -0x1000_0000_0000_0000_0000_0000_0000_0000
        <= northing_dx * easting_dy <= 0x1000_0000_0000_0000_0000_0000_0000_0000) by (nonlinear_arith)
        requires
            -0x4000_0000_0000_0000 <= easting_dx <= 0x4000_0000_0000_0000,
            -0x4000_0000_0000_0000 <= northing_dx <= 0x4000_0000_0000_0000,
            -0x4000_0000_0000_0000 <= easting_dy <= 0x4000_0000_0000_0000,
            -0x4000_0000_0000_0000 <= northing_dy <= 0x4000_0000_0000_0000,
    ;
    let determinant: i128 = easting_dx * northing_dy - northing_dx * easting_dy;
    if determinant < MIN_DETERMINANT {
        return Err(OmapError::Proj);
    }
    let factor = int_sqrt(determinant as u128);
    let along: i128 = easting_dx + northing_dy;
    let across: i128 = northing_dx - easting_dy;
    let along_size = size_of_wide(along);
    let across_size = size_of_wide(across);
    assert(along_size * along_size == along * along && across_size * across_size == across * across
        && along_size * along_size <= 0x4000_0000_0000_0000_0000_0000_0000_0000 && across_size
        * across_size <= 0x4000_0000_0000_0000_0000_0000_0000_0000) by (nonlinear_arith)
        requires
            along_size <= 0x8000_0000_0000_0000,
            across_size <= 0x8000_0000_0000_0000,
            along_size == along || along_size == -along,
            across_size == across || across_size == -across,
    ;
    let square: u128 = along_size * along_size + across_size * across_size;
    assert(square >= 2 * determinant) by (nonlinear_arith)
        requires
            square == along * along + across * across,
            along == easting_dx + northing_dy,
            across == northing_dx - easting_dy,
            determinant == easting_dx * northing_dy - northing_dx * easting_dy,
    ;
    let length = int_sqrt(square);
    proof {
        lemma_grid_report_direction(*cross);
    }
    let unit: i128 = UNIT as i128;
    let cos = round_to_paper(along * unit, length);
    let sin = round_to_paper(across * unit, length);
    match (cos, sin) {
        (Some(c), Some(s)) => Ok(
            GridReport { grid_scale_factor: factor as u64, convergence: Direction { cos: c, sin: s } },
        ),
        _ => Err(OmapError::Proj),
    }
}

/// `a * b / FACTOR_ONE`, the product of two scale factors.
pub open spec fn factor_product(a: u64, b: u64) -> int {
    (a * b) / (FACTOR_ONE as int)
}

/// `num / UNIT` rounded to the nearest whole number, halves away from zero.
pub open spec fn unit_rounded(num: int) -> int {
    rounded(num, UNIT as int)
}

/// The cosine of the difference of two directions.
pub open spec fn difference_cos(a: Direction, b: Direction) -> int {
    unit_rounded(a.cos * b.cos + a.sin * b.sin)
}

/// The sine of the difference of two directions.
pub open spec fn difference_sin(a: Direction, b: Direction) -> int {
    unit_rounded(a.sin * b.cos - a.cos * b.sin)
}

/// Whether the direction `a` turned back by `b` can be held.
pub open spec fn can_subtract(a: Direction, b: Direction) -> bool {
    representable(difference_cos(a, b)) && representable(difference_sin(a, b))
}

/// The direction `a` turned back by `b`: the direction of the difference of
/// their angles.
pub open spec fn difference(a: Direction, b: Direction) -> Direction {
    Direction { cos: difference_cos(a, b) as i32, sin: difference_sin(a, b) as i32 }
}

/// The direction `a` turned back by `b`, where it can be held.
pub fn subtract(a: &Direction, b: &Direction) -> (r: Option<Direction>)
    ensures
        r == if can_subtract(*a, *b) {
            Some(difference(*a, *b))
        } else {
            None::<Direction>
        },
{
    let (ac, asn, bc, bs) = (a.cos as i128, a.sin as i128, b.cos as i128, b.sin as i128);
    assert(-0x4000_0000_0000_0000 <= ac * bc <= 0x4000_0000_0000_0000 && -0x4000_0000_0000_0000 <= asn
        * bs <= 0x4000_0000_0000_0000 && -0x4000_0000_0000_0000 <= asn * bc <= 0x4000_0000_0000_0000
        && -0x4000_0000_0000_0000 <= ac * bs <= 0x4000_0000_0000_0000) by (nonlinear_arith)
        requires
            -0x8000_0000 <= ac <= 0x7fff_ffff,
            -0x8000_0000 <= asn <= 0x7fff_ffff,
            -0x8000_0000 <= bc <= 0x7fff_ffff,
            -0x8000_0000 <= bs <= 0x7fff_ffff,
    ;
    let c = round_to_paper(ac * bc + asn * bs, 0x4000_0000);
    let s = round_to_paper(asn * bc - ac * bs, 0x4000_0000);
    match (c, s) {
        (Some(cos), Some(sin)) => Some(Direction { cos, sin }),
        _ => None,
    }
}

impl GeodeticParameters {
    /// The parameters of a local map.
    pub open spec fn spec_local(ref_point: Coord, scale: Scale) -> GeodeticParameters {
        GeodeticParameters {
            scale,
            ref_point,
            epsg: None,
            declination: Angle::spec_zero(),
            grivation: Direction::spec_zero(),
            elevation_scale_factor: FACTOR_ONE,
            combined_scale_factor: FACTOR_ONE,
        }
    }

    /// The parameters that follow from what the geomagnetic model and the
    /// projection reported, where they reported anything.
    ///
    /// Without a coordinate reference system the map is local and the
    /// reports count for nothing. With one, a missing declination counts as
    /// zero, the grivation is the declination less the convergence, and the
    /// combined scale factor is the grid scale factor times the elevation
    /// scale factor, which is one. A missing cross is an error, and so are a
    /// cross that cannot be trusted and a grivation that cannot be held; the
    /// last happens for no declination that is a direction
    /// (`lemma_compose_succeeds`).
    pub open spec fn spec_compose(
        ref_point: Coord,
        epsg: Option<u16>,
        scale: Scale,
        declination: Option<Angle>,
        cross: Option<GridCross>,
    ) -> OmapResult<GeodeticParameters> {
        if epsg.is_none() {
            Ok(Self::spec_local(ref_point, scale))
        } else if cross.is_none() || grid_report_of(cross.unwrap()).is_err() {
            Err(OmapError::Proj)
        } else {
            let grid = grid_report_of(cross.unwrap()).unwrap();
            let d = match declination {
                Some(a) => a,
                None => Angle::spec_zero(),
            };
            if can_subtract(d.direction, grid.convergence) {
                Ok(
                    GeodeticParameters {
                        scale,
                        ref_point,
                        epsg,
                        declination: d,
                        grivation: difference(d.direction, grid.convergence),
                        elevation_scale_factor: FACTOR_ONE,
                        combined_scale_factor: factor_product(grid.grid_scale_factor, FACTOR_ONE) as u64,
                    },
                )
            } else {
                Err(OmapError::Proj)
            }
        }
    }

    /// The parameters of a local map: no declination, no grivation, scale
    /// factors of one.
    pub fn local(ref_point: Coord, scale: Scale) -> (p: GeodeticParameters)
        ensures
            p == Self::spec_local(ref_point, scale),
    {
        GeodeticParameters {
            scale,
            ref_point,
            epsg: None,
            declination: Angle::zero(),
            grivation: Direction::zero(),
            elevation_scale_factor: FACTOR_ONE,
            combined_scale_factor: FACTOR_ONE,
        }
    }

    /// Composes the parameters of a map from what the geomagnetic model and
    /// the projection reported: see `spec_compose`.
    pub fn compose(
        ref_point: Coord,
        epsg: Option<u16>,
        scale: Scale,
        declination: Option<Angle>,
        cross: Option<GridCross>,
    ) -> (r: OmapResult<GeodeticParameters>)
        ensures
            r == Self::spec_compose(ref_point, epsg, scale, declination, cross),
    {
        if epsg.is_none() {
            return Ok(Self::local(ref_point, scale));
        }
        let report = match cross {
            Some(c) => match grid_report(&c) {
                Ok(report) => report,
                Err(_) => {
                    return Err(OmapError::Proj);
                },
            },
            None => {
                return Err(OmapError::Proj);
            },
        };
        let d = match declination {
            Some(a) => a,
            None => Angle::zero(),
        };
        match subtract(&d.direction, &report.convergence) {
            Some(grivation) => {
                let product: u128 = report.grid_scale_factor as u128 * FACTOR_ONE as u128;
                assert(product == report.grid_scale_factor * FACTOR_ONE && product / 1_000_000_000
                    == report.grid_scale_factor) by (nonlinear_arith)
                    requires
                        product == (report.grid_scale_factor as u128 * FACTOR_ONE as u128) as u128,
                        report.grid_scale_factor <= 0xffff_ffff_ffff_ffff,
                        FACTOR_ONE == 1_000_000_000,
                ;
                let combined = (product / FACTOR_ONE as u128) as u64;
                Ok(
                    GeodeticParameters {
                        scale,
                        ref_point,
                        epsg,
                        declination: d,
                        grivation,
                        elevation_scale_factor: FACTOR_ONE,
                        combined_scale_factor: combined,
                    },
                )
            },
            None => Err(OmapError::Proj),
        }
    }
}


/// With a coordinate reference system, a map can be made exactly where the
/// projection reported a cross that can be trusted, as long as the
/// declination is a direction: a missing declination counts as zero, and the
/// combined scale factor is the grid scale factor.
pub proof fn lemma_compose_succeeds(
    ref_point: Coord,
    epsg: u16,
    scale: Scale,
    declination: Option<Angle>,
    cross: GridCross,
)
    requires
        declination.is_some() ==> is_short(declination.unwrap().direction),
    ensures
        GeodeticParameters::spec_compose(ref_point, Some(epsg), scale, declination, Some(cross)).is_ok()
            == grid_report_of(cross).is_ok(),
        grid_report_of(cross).is_ok() ==> GeodeticParameters::spec_compose(
            ref_point,
            Some(epsg),
            scale,
            declination,
            Some(cross),
        ).unwrap().combined_scale_factor == grid_report_of(cross).unwrap().grid_scale_factor,
{
    if grid_report_of(cross).is_ok() {
        let grid = grid_report_of(cross).unwrap();
        lemma_grid_report_direction(cross);
        let d = match declination {
            Some(a) => a,
            None => Angle::spec_zero(),
        };
        assert(is_short(Direction::spec_zero())) by (nonlinear_arith)
            requires
                Direction::spec_zero().cos == 0x4000_0000,
                Direction::spec_zero().sin == 0,
        ;
        lemma_directions_subtract(d.direction, grid.convergence);
        let g = grid.grid_scale_factor as int;
        assert((g * 1_000_000_000) / 1_000_000_000 == g) by (nonlinear_arith);
    }
}

} // verus!
