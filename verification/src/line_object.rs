use crate::coord::{copy_line, is_closed, line_is_closed, Coord};
use crate::decimal::{digits_text, push_nat};
use crate::symbol::{Geometry, Symbol};
use crate::tag::{copy_tags, set_tag, tag_views, Tag, TagView};
use crate::text::{
    coords_text, count_curve, curve_count, curve_text, polyline_text, project_line, project_segments,
    projected_all, projected_segments, push_coords, push_curve, push_polyline, push_tags, tags_text,
    Layout, Segment,
};
use crate::{OmapError, OmapResult};
use vstd::prelude::*;
use vstd::string::*;

verus! {

/// A line feature: positions in order, the symbol that draws them, and tags.
/// The line is open or closed; it is closed when it ends where it starts.
#[derive(Debug)]
pub struct LineObject {
    pub symbol: Symbol,
    pub tags: Vec<Tag>,
    pub line: Vec<Coord>,
}

/// What a line feature holds.
pub struct LineView {
    pub symbol: Symbol,
    pub tags: Seq<TagView>,
    pub line: Seq<Coord>,
}

impl View for LineObject {
    type V = LineView;

    open spec fn view(&self) -> LineView {
        LineView { symbol: self.symbol, tags: tag_views(self.tags@), line: self.line@ }
    }
}

impl Clone for LineObject {
    fn clone(&self) -> (r: LineObject)
        ensures
            r@ == self@,
    {
        LineObject { symbol: self.symbol, tags: copy_tags(&self.tags), line: copy_line(&self.line) }
    }
}

impl LineObject {
    /// A line feature under `symbol` along `line`, without tags.
    pub fn from_symbol(symbol: Symbol, line: Vec<Coord>) -> (r: LineObject)
        ensures
            r@ == (LineView { symbol, tags: Seq::empty(), line: line@ }),
            r.line == line,
    {
        let r = LineObject { symbol, tags: Vec::new(), line };
        assert(tag_views(r.tags@) =~= Seq::empty());
        r
    }

    /// Gives the tag `k` the value `v`.
    pub fn add_tag(&mut self, k: &str, v: &str)
        ensures
            final(self)@ == (LineView {
                tags: crate::tag::with_tag(old(self)@.tags, k@, v@),
                ..old(self)@
            }),
    {
        set_tag(&mut self.tags, k, v);
    }
}

impl LineView {
    /// Whether the feature is a line: its symbol draws lines and it has two
    /// positions at least.
    pub open spec fn is_line(self) -> bool {
        self.symbol.geometry == Geometry::Line && self.line.len() >= 2
    }

    /// The positions of the line as they are written, one by one.
    pub open spec fn polyline(self, layout: Layout) -> OmapResult<Seq<char>> {
        if !self.is_line() {
            Err(OmapError::MismatchedGeometry)
        } else {
            match projected_all(self.line, layout) {
                Some(points) => Ok(
                    coords_text(points.len(), polyline_text(points, is_closed(self.line))),
                ),
                None => Err(OmapError::MapCoordinateOverflow),
            }
        }
    }

    /// The positions of the line as they are written for the curve `fit`
    /// that was fitted to it.
    pub open spec fn bezier(self, fit: Seq<Segment>, layout: Layout) -> OmapResult<Seq<char>> {
        if !self.is_line() || fit.len() == 0 {
            Err(OmapError::MismatchedGeometry)
        } else {
            match projected_segments(fit, layout) {
                Some(pieces) => if curve_count(pieces) <= usize::MAX {
                    Ok(coords_text(curve_count(pieces), curve_text(pieces, is_closed(self.line))))
                } else {
                    Err(OmapError::MismatchedGeometry)
                },
                None => Err(OmapError::MapCoordinateOverflow),
            }
        }
    }

    /// The positions of the line as they are written: for the fitted curve
    /// where one is given, else one by one.
    pub open spec fn coords(self, fit: Option<Seq<Segment>>, layout: Layout) -> OmapResult<Seq<char>> {
        match fit {
            Some(f) => self.bezier(f, layout),
            None => self.polyline(layout),
        }
    }

    /// The feature as it is written: its symbol, its tags, its positions.
    pub open spec fn text(self, fit: Option<Seq<Segment>>, layout: Layout) -> OmapResult<Seq<char>> {
        match self.coords(fit, layout) {
            Ok(coords) => Ok(
                "<object type=\"1\" symbol=\""@ + digits_text(self.symbol.code as nat) + "\">"@
                    + tags_text(self.tags) + coords + "</object>\n"@,
            ),
            Err(e) => Err(e),
        }
    }
}

/// The curve fitted to a line, where there is one, as a sequence.
pub open spec fn fit_view(fit: Option<&Vec<Segment>>) -> Option<Seq<Segment>> {
    match fit {
        Some(f) => Some(f@),
        None => None,
    }
}

impl LineObject {
    /// Whether the feature is a line: its symbol draws lines and it has two
    /// positions at least.
    pub fn is_line(&self) -> (r: bool)
        ensures
            r == self@.is_line(),
    {
        self.symbol.is_line_symbol() && self.line.len() >= 2
    }

    /// Writes the positions of the line one by one, the last with the
    /// closing flag where the line is closed. Nothing is written on an error.
    pub fn write_polyline(&self, out: &mut String, layout: &Layout) -> (r: OmapResult<()>)
        ensures
            match r {
                Ok(_) => self@.polyline(*layout).is_ok() && final(out)@ == old(out)@ + self@.polyline(
                    *layout,
                ).unwrap(),
                Err(e) => self@.polyline(*layout) == Err::<Seq<char>, OmapError>(e) && final(out)@
                    == old(out)@,
            },
    {
        if !self.is_line() {
            return Err(OmapError::MismatchedGeometry);
        }
        let points = project_line(&self.line, layout)?;
        let mut body = String::new();
        push_polyline(&mut body, &points, line_is_closed(&self.line));
        push_coords(out, points.len(), body.as_str());
        proof {
            assert(body@ =~= polyline_text(points@, is_closed(self.line@)));
        }
        Ok(())
    }

    /// Writes the positions of the line for the curve `fit` that was fitted
    /// to it: each piece of the curve, then the end of the last piece, with
    /// the closing flag where the line is closed. Nothing is written on an
    /// error.
    pub fn write_bezier(&self, out: &mut String, fit: &Vec<Segment>, layout: &Layout) -> (r: OmapResult<
        (),
    >)
        ensures
            match r {
                Ok(_) => self@.bezier(fit@, *layout).is_ok() && final(out)@ == old(out)@ + self@.bezier(
                    fit@,
                    *layout,
                ).unwrap(),
                Err(e) => self@.bezier(fit@, *layout) == Err::<Seq<char>, OmapError>(e) && final(out)@
                    == old(out)@,
            },
    {
        if !self.is_line() || fit.len() == 0 {
            return Err(OmapError::MismatchedGeometry);
        }
        let pieces = project_segments(fit, layout)?;
        let count = match count_curve(&pieces) {
            Some(c) => c,
            None => {
                return Err(OmapError::MismatchedGeometry);
            },
        };
        let mut body = String::new();
        push_curve(&mut body, &pieces, line_is_closed(&self.line));
        push_coords(out, count, body.as_str());
        proof {
            assert(body@ =~= curve_text(pieces@, is_closed(self.line@)));
        }
        Ok(())
    }

    /// Writes the positions of the line: for the fitted curve where one is
    /// given, else one by one. Nothing is written on an error.
    pub fn write_coords(&self, out: &mut String, fit: Option<&Vec<Segment>>, layout: &Layout) -> (r:
        OmapResult<()>)
        ensures
            match r {
                Ok(_) => self@.coords(fit_view(fit), *layout).is_ok() && final(out)@ == old(out)@
                    + self@.coords(fit_view(fit), *layout).unwrap(),
                Err(e) => self@.coords(fit_view(fit), *layout) == Err::<Seq<char>, OmapError>(e)
                    && final(out)@ == old(out)@,
            },
    {
        match fit {
            Some(f) => self.write_bezier(out, f, layout),
            None => self.write_polyline(out, layout),
        }
    }

    /// Writes the tags of the line, where it has any.
    pub fn write_tags(&self, out: &mut String)
        ensures
            final(out)@ == old(out)@ + tags_text(self@.tags),
    {
        push_tags(out, &self.tags);
    }

    /// Writes the feature: its symbol, its tags, its positions. Nothing is
    /// written on an error.
    pub fn write_to_map(&self, out: &mut String, fit: Option<&Vec<Segment>>, layout: &Layout) -> (r:
        OmapResult<()>)
        ensures
            match r {
                Ok(_) => self@.text(fit_view(fit), *layout).is_ok() && final(out)@ == old(out)@
                    + self@.text(fit_view(fit), *layout).unwrap(),
                Err(e) => self@.text(fit_view(fit), *layout) == Err::<Seq<char>, OmapError>(e)
                    && final(out)@ == old(out)@,
            },
    {
        let mut coords = String::new();
        self.write_coords(&mut coords, fit, layout)?;
        out.append("<object type=\"1\" symbol=\"");
        push_nat(out, self.symbol.id() as u128);
        out.append("\">");
        self.write_tags(out);
        out.append(coords.as_str());
        out.append("</object>\n");
        proof {
            assert(coords@ =~= self@.coords(fit_view(fit), *layout).unwrap());
            assert(out@ =~= old(out)@ + self@.text(fit_view(fit), *layout).unwrap());
        }
        Ok(())
    }
}

} // verus!
