//! Orienteering maps as data: features grouped by symbol, line fragments
//! merged into continuous lines, depressions told from hills, and the whole
//! written in the map file's coordinate grammar.
//!
//! Every quantity is an integer. Ground positions are millimetres relative to
//! the map's reference point, paper positions are thousandths of a
//! millimetre, directions are cosines and sines in units of 2^-30, scale
//! factors are in parts per thousand million.

pub mod area_object;
pub mod assembly;
pub mod calendar;
pub mod coord;
pub mod decimal;
pub mod depression;
pub mod document;
pub mod elevation;
pub mod geodetic;
pub mod height;
pub mod line_merger;
pub mod line_object;
pub mod links;
pub mod map_coord;
pub mod map_object;
pub mod merge;
pub mod omap;
pub mod point_object;
pub mod symbol;
pub mod tag;
pub mod text;

pub use self::area_object::AreaObject;
pub use self::coord::Coord;
pub use self::line_object::LineObject;
pub use self::map_object::MapObject;
pub use self::omap::Omap;
pub use self::point_object::PointObject;
pub use self::symbol::Symbol;
pub use self::tag::Tag;

use vstd::prelude::*;

verus! {

/// The scale of the printed map, named by its denominator.
#[derive(Clone, Copy, Debug, PartialEq, Eq, Structural)]
pub enum Scale {
    S10_000,
    S15_000,
}

impl Scale {
    /// The denominator of the scale as a mathematical integer.
    pub open spec fn spec_denominator(self) -> int {
        match self {
            Scale::S10_000 => 10_000,
            Scale::S15_000 => 15_000,
        }
    }

    /// The denominator of the scale: one unit on paper is this many on the ground.
    pub fn denominator(self) -> (d: u32)
        ensures
            d == self.spec_denominator(),
    {
        match self {
            Scale::S10_000 => 10_000,
            Scale::S15_000 => 15_000,
        }
    }

    /// The denominator of the scale in decimal, as a map file names it.
    pub fn to_text(self) -> (s: String)
        ensures
            s@ == crate::decimal::digits_text(self.spec_denominator() as nat),
    {
        let mut s = String::new();
        crate::decimal::push_nat(&mut s, self.denominator() as u128);
        s
    }
}

/// Why a map could not be built or written. The library itself reports the
/// first three. The last two name what can go wrong around it, where the
/// map file is written and the geomagnetic model is asked.
#[derive(Clone, Copy, Debug, PartialEq, Eq, Structural)]
pub enum OmapError {
    /// A position falls outside the paper coordinates a map file can hold.
    MapCoordinateOverflow,
    /// A feature's geometry is not of the kind its symbol stands for, or its
    /// curves do not fit it.
    MismatchedGeometry,
    /// The projection gave nothing usable: no scale factor and convergence,
    /// or no place on the globe for the reference point.
    Proj,
    /// The map file could not be written.
    IO,
    /// The geomagnetic model gave no declination.
    GeoMagnetic,
}

impl OmapError {
    /// What went wrong, in words.
    pub open spec fn spec_message(self) -> Seq<char> {
        match self {
            OmapError::MapCoordinateOverflow =>
                "map coordinate overflow: check that all positions lie in one area and share one coordinate reference system"@,
            OmapError::MismatchedGeometry => "the geometry of a feature does not fit its symbol"@,
            OmapError::Proj => "the projection failed at the reference point"@,
            OmapError::IO => "the map file could not be written"@,
            OmapError::GeoMagnetic => "the geomagnetic model gave no declination"@,
        }
    }

    /// What went wrong, in words.
    pub fn message(&self) -> (m: &'static str)
        ensures
            m@ == self.spec_message(),
    {
        match self {
            OmapError::MapCoordinateOverflow =>
                "map coordinate overflow: check that all positions lie in one area and share one coordinate reference system",
            OmapError::MismatchedGeometry => "the geometry of a feature does not fit its symbol",
            OmapError::Proj => "the projection failed at the reference point",
            OmapError::IO => "the map file could not be written",
            OmapError::GeoMagnetic => "the geomagnetic model gave no declination",
        }
    }
}

pub type OmapResult<T> = Result<T, OmapError>;

} // verus!
