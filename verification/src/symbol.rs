use vstd::prelude::*;

verus! {

/// The kind of geometry that a symbol draws.
#[derive(Clone, Copy, Debug, PartialEq, Eq, Structural)]
pub enum Geometry {
    Point,
    Line,
    Area,
}

/// A class of map features: the code under which the symbol catalogue of the
/// map file lists it, and the kind of geometry it draws. Two symbols are
/// equal when they have the same code.
#[derive(Clone, Copy, Debug)]
pub struct Symbol {
    pub code: u16,
    pub geometry: Geometry,
}

impl PartialEq for Symbol {
    fn eq(&self, other: &Symbol) -> (r: bool) {
        self.code == other.code
    }
}

impl Eq for Symbol {

}

impl vstd::std_specs::cmp::PartialEqSpecImpl for Symbol {
    open spec fn obeys_eq_spec() -> bool {
        true
    }

    open spec fn eq_spec(&self, other: &Symbol) -> bool {
        self.code == other.code
    }
}

/// The code of the contour lines of a base map.
pub const BASEMAP_CONTOUR: u16 = 2;

/// The code of the base map contours that run round a depression.
pub const NEG_BASEMAP_CONTOUR: u16 = 3;

impl Symbol {
    /// The symbol with a given code and geometry.
    pub fn new(code: u16, geometry: Geometry) -> (s: Symbol)
        ensures
            s == (Symbol { code, geometry }),
    {
        Symbol { code, geometry }
    }

    /// The symbol of a base map contour.
    pub open spec fn spec_basemap_contour() -> Symbol {
        Symbol { code: BASEMAP_CONTOUR, geometry: Geometry::Line }
    }

    /// The symbol of a base map contour round a depression.
    pub open spec fn spec_neg_basemap_contour() -> Symbol {
        Symbol { code: NEG_BASEMAP_CONTOUR, geometry: Geometry::Line }
    }

    /// The symbol of a base map contour.
    pub fn basemap_contour() -> (s: Symbol)
        ensures
            s == Self::spec_basemap_contour(),
    {
        Symbol { code: BASEMAP_CONTOUR, geometry: Geometry::Line }
    }

    /// The symbol of a base map contour round a depression.
    pub fn neg_basemap_contour() -> (s: Symbol)
        ensures
            s == Self::spec_neg_basemap_contour(),
    {
        Symbol { code: NEG_BASEMAP_CONTOUR, geometry: Geometry::Line }
    }

    /// The code that the map file writes for this symbol.
    pub fn id(&self) -> (c: u16)
        ensures
            c == self.code,
    {
        self.code
    }

    /// Whether the symbol draws lines.
    pub fn is_line_symbol(&self) -> (r: bool)
        ensures
            r == (self.geometry == Geometry::Line),
    {
        match self.geometry {
            Geometry::Line => true,
            _ => false,
        }
    }

    /// Whether the symbol draws areas.
    pub fn is_area_symbol(&self) -> (r: bool)
        ensures
            r == (self.geometry == Geometry::Area),
    {
        match self.geometry {
            Geometry::Area => true,
            _ => false,
        }
    }

    /// Whether the symbol draws points.
    pub fn is_point_symbol(&self) -> (r: bool)
        ensures
            r == (self.geometry == Geometry::Point),
    {
        match self.geometry {
            Geometry::Point => true,
            _ => false,
        }
    }
}

} // verus!
