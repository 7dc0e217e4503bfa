use crate::area_object::{fit_views, AreaObject, AreaView};
use crate::coord::Coord;
use crate::line_object::{LineObject, LineView};
use crate::point_object::{PointObject, PointView};
use crate::symbol::Symbol;
use crate::text::{Layout, Segment};
use crate::{OmapError, OmapResult};
use vstd::prelude::*;

verus! {

/// A feature of a map: a point, a line or an area.
#[derive(Debug)]
pub enum MapObject {
    LineObject(LineObject),
    PointObject(PointObject),
    AreaObject(AreaObject),
}

/// What a feature holds.
pub enum MapObjectView {
    Line(LineView),
    Point(PointView),
    Area(AreaView),
}

impl View for MapObject {
    type V = MapObjectView;

    open spec fn view(&self) -> MapObjectView {
        match self {
            MapObject::LineObject(l) => MapObjectView::Line(l@),
            MapObject::PointObject(p) => MapObjectView::Point(p@),
            MapObject::AreaObject(a) => MapObjectView::Area(a@),
        }
    }
}

impl MapObjectView {
    /// The symbol of the feature.
    pub open spec fn symbol(self) -> Symbol {
        match self {
            MapObjectView::Line(l) => l.symbol,
            MapObjectView::Point(p) => p.symbol,
            MapObjectView::Area(a) => a.symbol,
        }
    }

    /// The lines of the feature to which curves can be fitted: a line
    /// itself, the rings of an area, and nothing of a point.
    pub open spec fn outlines(self) -> Seq<Seq<Coord>> {
        match self {
            MapObjectView::Line(l) => seq![l.line],
            MapObjectView::Point(_) => Seq::empty(),
            MapObjectView::Area(a) => a.rings,
        }
    }

    /// The feature as it is written. `fits`, where given, holds one curve
    /// for each of the feature's outlines, in their order.
    #[verifier::opaque]
    pub open spec fn text(self, fits: Option<Seq<Seq<Segment>>>, layout: Layout) -> OmapResult<Seq<char>> {
        match self {
            MapObjectView::Line(l) => match fits {
                None => l.text(None, layout),
                Some(f) => if f.len() == 1 {
                    l.text(Some(f[0]), layout)
                } else {
                    Err(OmapError::MismatchedGeometry)
                },
            },
            MapObjectView::Point(p) => p.text(layout),
            MapObjectView::Area(a) => a.text(fits, layout),
        }
    }
}

impl MapObject {
    /// The symbol of the feature.
    pub fn symbol(&self) -> (s: Symbol)
        ensures
            s == self@.symbol(),
    {
        match self {
            MapObject::LineObject(l) => l.symbol,
            MapObject::PointObject(p) => p.symbol,
            MapObject::AreaObject(a) => a.symbol,
        }
    }

    /// Gives the tag `k` the value `v`.
    pub fn add_tag(&mut self, k: &str, v: &str)
        ensures
            final(self)@.symbol() == old(self)@.symbol(),
            final(self)@.outlines() == old(self)@.outlines(),
            match (old(self)@, final(self)@) {
                (MapObjectView::Line(a), MapObjectView::Line(b)) => b.tags == crate::tag::with_tag(
                    a.tags,
                    k@,
                    v@,
                ),
                (MapObjectView::Point(a), MapObjectView::Point(b)) => b.tags == crate::tag::with_tag(
                    a.tags,
                    k@,
                    v@,
                ) && b.point == a.point && b.rotation == a.rotation,
                (MapObjectView::Area(a), MapObjectView::Area(b)) => b.tags == crate::tag::with_tag(
                    a.tags,
                    k@,
                    v@,
                ),
                _ => false,
            },
    {
        match self {
            MapObject::LineObject(l) => l.add_tag(k, v),
            MapObject::PointObject(p) => p.add_tag(k, v),
            MapObject::AreaObject(a) => a.add_tag(k, v),
        }
    }

    /// The number of the feature's outlines, where a machine word holds it.
    pub fn outline_count(&self) -> (r: Option<usize>)
        ensures
            match r {
                Some(n) => n == self@.outlines().len(),
                None => self@.outlines().len() > usize::MAX,
            },
    {
        match self {
            MapObject::LineObject(_) => Some(1),
            MapObject::PointObject(_) => Some(0),
            MapObject::AreaObject(a) => if a.interiors.len() == usize::MAX {
                None
            } else {
                Some(a.interiors.len() + 1)
            },
        }
    }

    /// Writes the feature. `fits`, where given, holds one curve for each of
    /// the feature's outlines, in their order. Nothing is written on an
    /// error.
    pub fn write_to_map(&self, out: &mut String, fits: Option<&Vec<Vec<Segment>>>, layout: &Layout) -> (r:
        OmapResult<()>)
        ensures
            match r {
                Ok(_) => self@.text(crate::area_object::fits_view(fits), *layout).is_ok() && final(out)@
                    == old(out)@ + self@.text(crate::area_object::fits_view(fits), *layout).unwrap(),
                Err(e) => self@.text(crate::area_object::fits_view(fits), *layout) == Err::<
                    Seq<char>,
                    OmapError,
                >(e) && final(out)@ == old(out)@,
            },
    {
        reveal(MapObjectView::text);
        match self {
            MapObject::LineObject(l) => match fits {
                None => l.write_to_map(out, None, layout),
                Some(f) => {
                    if f.len() == 1 {
                        assert(fit_views(f@)[0] == f@[0]@);
                        l.write_to_map(out, Some(&f[0]), layout)
                    } else {
                        Err(OmapError::MismatchedGeometry)
                    }
                },
            },
            MapObject::PointObject(p) => p.write_to_map(out, layout),
            MapObject::AreaObject(a) => a.write_to_map(out, fits, layout),
        }
    }
}

} // verus!
