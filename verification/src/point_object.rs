use crate::coord::Coord;
use crate::decimal::{digits_text, fixed_text, push_fixed, push_nat};
use crate::symbol::{Geometry, Symbol};
use crate::tag::{set_tag, tag_views, Tag, TagView};
use crate::text::{coords_text, project, push_coords, push_tags, push_vertex, tags_text, vertex_text, Layout};
use crate::map_coord::projected;
use crate::{OmapError, OmapResult};
use vstd::prelude::*;
use vstd::string::*;

verus! {

/// A point feature: one position, the symbol that is drawn there, how far
/// the symbol is turned, and tags. The turn is counter-clockwise, in
/// millionths of a radian.
#[derive(Debug)]
pub struct PointObject {
    pub point: Coord,
    pub symbol: Symbol,
    pub rotation: i64,
    pub tags: Vec<Tag>,
}

/// What a point feature holds.
pub struct PointView {
    pub point: Coord,
    pub symbol: Symbol,
    pub rotation: i64,
    pub tags: Seq<TagView>,
}

impl View for PointObject {
    type V = PointView;

    open spec fn view(&self) -> PointView {
        PointView {
            point: self.point,
            symbol: self.symbol,
            rotation: self.rotation,
            tags: tag_views(self.tags@),
        }
    }
}

impl PointView {
    /// The position of the point as it is written.
    pub open spec fn coords(self, layout: Layout) -> OmapResult<Seq<char>> {
        if self.symbol.geometry != Geometry::Point {
            Err(OmapError::MismatchedGeometry)
        } else {
            match projected(self.point, layout.scale, layout.grivation, layout.combined_scale_factor) {
                Some(p) => Ok(coords_text(1, vertex_text(p, None))),
                None => Err(OmapError::MapCoordinateOverflow),
            }
        }
    }

    /// The feature as it is written: its symbol, its turn in radians, its
    /// tags, its position.
    pub open spec fn text(self, layout: Layout) -> OmapResult<Seq<char>> {
        match self.coords(layout) {
            Ok(coords) => Ok(
                "<object type=\"0\" symbol=\""@ + digits_text(self.symbol.code as nat)
                    + "\" rotation=\""@ + fixed_text(self.rotation as int, 6) + "\">"@ + tags_text(
                    self.tags,
                ) + coords + "</object>\n"@,
            ),
            Err(e) => Err(e),
        }
    }
}

impl PointObject {
    /// A point feature under `symbol` at `point`, turned by `rotation`,
    /// without tags.
    pub fn from_point(point: Coord, symbol: Symbol, rotation: i64) -> (r: PointObject)
        ensures
            r@ == (PointView { point, symbol, rotation, tags: Seq::empty() }),
    {
        let r = PointObject { point, symbol, rotation, tags: Vec::new() };
        assert(tag_views(r.tags@) =~= Seq::empty());
        r
    }

    /// Gives the tag `k` the value `v`.
    pub fn add_tag(&mut self, k: &str, v: &str)
        ensures
            final(self)@ == (PointView {
                tags: crate::tag::with_tag(old(self)@.tags, k@, v@),
                ..old(self)@
            }),
    {
        set_tag(&mut self.tags, k, v);
    }

    /// Writes the position of the point. Nothing is written on an error.
    pub fn write_coords(&self, out: &mut String, layout: &Layout) -> (r: OmapResult<()>)
        ensures
            match r {
                Ok(_) => self@.coords(*layout).is_ok() && final(out)@ == old(out)@ + self@.coords(
                    *layout,
                ).unwrap(),
                Err(e) => self@.coords(*layout) == Err::<Seq<char>, OmapError>(e) && final(out)@ == old(
                    out,
                )@,
            },
    {
        if !self.symbol.is_point_symbol() {
            return Err(OmapError::MismatchedGeometry);
        }
        let p = project(self.point, layout)?;
        let mut body = String::new();
        push_vertex(&mut body, p, None);
        assert(body@ =~= vertex_text(p, None));
        push_coords(out, 1, body.as_str());
        Ok(())
    }

    /// Writes the tags of the point, where it has any.
    pub fn write_tags(&self, out: &mut String)
        ensures
            final(out)@ == old(out)@ + tags_text(self@.tags),
    {
        push_tags(out, &self.tags);
    }

    /// Writes the feature: its symbol, its turn, its tags, its position.
    /// Nothing is written on an error.
    pub fn write_to_map(&self, out: &mut String, layout: &Layout) -> (r: OmapResult<()>)
        ensures
            match r {
                Ok(_) => self@.text(*layout).is_ok() && final(out)@ == old(out)@ + self@.text(
                    *layout,
                ).unwrap(),
                Err(e) => self@.text(*layout) == Err::<Seq<char>, OmapError>(e) && final(out)@ == old(
                    out,
                )@,
            },
    {
        let mut coords = String::new();
        self.write_coords(&mut coords, layout)?;
        out.append("<object type=\"0\" symbol=\"");
        push_nat(out, self.symbol.id() as u128);
        out.append("\" rotation=\"");
        push_fixed(out, self.rotation, 6);
        out.append("\">");
        self.write_tags(out);
        out.append(coords.as_str());
        out.append("</object>\n");
        proof {
            assert(coords@ =~= self@.coords(*layout).unwrap());
            assert(out@ =~= old(out)@ + self@.text(*layout).unwrap());
        }
        Ok(())
    }
}

} // verus!
