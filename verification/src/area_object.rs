use crate::coord::{close_line, closed, Coord};
use crate::decimal::{digits_text, push_nat};
use crate::line_object::fit_view;
use crate::symbol::{Geometry, Symbol};
use crate::tag::{set_tag, tag_views, Tag, TagView};
use crate::text::{
    coords_text, count_curve, curve_count, curve_text, polyline_text, project_line, project_segments,
    projected_all, projected_segments, push_coords, push_curve, push_polyline, push_tags, tags_text,
    Layout, Segment,
};
use crate::{OmapError, OmapResult};
use vstd::prelude::*;
use vstd::string::*;

verus! {

/// An area feature: an outer ring, inner rings that cut holes into it, the
/// symbol that fills it, and tags. Every ring is closed.
#[derive(Debug)]
pub struct AreaObject {
    pub symbol: Symbol,
    pub tags: Vec<Tag>,
    pub exterior: Vec<Coord>,
    pub interiors: Vec<Vec<Coord>>,
}

/// What an area feature holds. The first ring is the outer one.
pub struct AreaView {
    pub symbol: Symbol,
    pub tags: Seq<TagView>,
    pub rings: Seq<Seq<Coord>>,
}

/// The views of a list of rings.
pub open spec fn ring_views(rings: Seq<Vec<Coord>>) -> Seq<Seq<Coord>> {
    rings.map_values(|r: Vec<Coord>| r@)
}

impl View for AreaObject {
    type V = AreaView;

    open spec fn view(&self) -> AreaView {
        AreaView {
            symbol: self.symbol,
            tags: tag_views(self.tags@),
            rings: seq![self.exterior@] + ring_views(self.interiors@),
        }
    }
}

/// The count of the positions written so far, and their text.
pub struct Written {
    pub count: nat,
    pub body: Seq<char>,
}

/// Rings as they are written one position after the other: each ring ends
/// with the closing flag. The first ring that a map file cannot hold fails
/// them all.
pub open spec fn direct_rings(rings: Seq<Seq<Coord>>, layout: Layout) -> OmapResult<Written>
    decreases rings.len(),
{
    if rings.len() == 0 {
        Ok(Written { count: 0, body: Seq::empty() })
    } else {
        match direct_rings(rings.drop_last(), layout) {
            Err(e) => Err(e),
            Ok(w) => match projected_all(rings.last(), layout) {
                None => Err(OmapError::MapCoordinateOverflow),
                Some(points) => Ok(
                    Written {
                        count: w.count + points.len(),
                        body: w.body + polyline_text(points, true),
                    },
                ),
            },
        }
    }
}

/// Rings as they are written for the curves fitted to them, each curve by
/// itself and each ending with the closing flag. The first curve that is
/// empty, or that a map file cannot hold, fails them all.
pub open spec fn curve_rings(fits: Seq<Seq<Segment>>, layout: Layout) -> OmapResult<Written>
    decreases fits.len(),
{
    if fits.len() == 0 {
        Ok(Written { count: 0, body: Seq::empty() })
    } else {
        match curve_rings(fits.drop_last(), layout) {
            Err(e) => Err(e),
            Ok(w) => if fits.last().len() == 0 {
                Err(OmapError::MismatchedGeometry)
            } else {
                match projected_segments(fits.last(), layout) {
                    None => Err(OmapError::MapCoordinateOverflow),
                    Some(pieces) => Ok(
                        Written {
                            count: w.count + curve_count(pieces),
                            body: w.body + curve_text(pieces, true),
                        },
                    ),
                }
            },
        }
    }
}

/// The element of the positions, where their count fits a machine word.
pub open spec fn counted(w: OmapResult<Written>) -> OmapResult<Seq<char>> {
    match w {
        Err(e) => Err(e),
        Ok(w) => if w.count <= usize::MAX {
            Ok(coords_text(w.count, w.body))
        } else {
            Err(OmapError::MismatchedGeometry)
        },
    }
}

/// The views of the curves fitted to a list of rings.
pub open spec fn fit_views(fits: Seq<Vec<Segment>>) -> Seq<Seq<Segment>> {
    fits.map_values(|f: Vec<Segment>| f@)
}

/// The curves fitted to the rings of an area, where there are any, as
/// sequences.
pub open spec fn fits_view(fits: Option<&Vec<Vec<Segment>>>) -> Option<Seq<Seq<Segment>>> {
    match fits {
        Some(f) => Some(fit_views(f@)),
        None => None,
    }
}

impl AreaView {
    /// Whether the feature is an area: its symbol draws areas, none of its
    /// rings is empty, and a machine word can count them.
    pub open spec fn is_area(self) -> bool {
        self.symbol.geometry == Geometry::Area && self.rings.len() <= usize::MAX && forall|k: int|
            0 <= k < self.rings.len() ==> (#[trigger] self.rings[k]).len() >= 1
    }

    /// The positions of the area as they are written, ring by ring.
    pub open spec fn polyline(self, layout: Layout) -> OmapResult<Seq<char>> {
        if !self.is_area() {
            Err(OmapError::MismatchedGeometry)
        } else {
            counted(direct_rings(self.rings, layout))
        }
    }

    /// The positions of the area as they are written for the curves `fits`
    /// that were fitted to its rings, one curve to each ring in order.
    pub open spec fn bezier(self, fits: Seq<Seq<Segment>>, layout: Layout) -> OmapResult<Seq<char>> {
        if !self.is_area() || fits.len() != self.rings.len() {
            Err(OmapError::MismatchedGeometry)
        } else {
            counted(curve_rings(fits, layout))
        }
    }

    /// The positions of the area as they are written: for the fitted curves
    /// where they are given, else ring by ring.
    pub open spec fn coords(self, fits: Option<Seq<Seq<Segment>>>, layout: Layout) -> OmapResult<
        Seq<char>,
    > {
        match fits {
            Some(f) => self.bezier(f, layout),
            None => self.polyline(layout),
        }
    }

    /// The feature as it is written: its symbol, its tags, its positions.
    pub open spec fn text(self, fits: Option<Seq<Seq<Segment>>>, layout: Layout) -> OmapResult<
        Seq<char>,
    > {
        match self.coords(fits, layout) {
            Ok(coords) => Ok(
                "<object type=\"1\" symbol=\""@ + digits_text(self.symbol.code as nat) + "\">"@
                    + tags_text(self.tags) + coords + "</object>\n"@,
            ),
            Err(e) => Err(e),
        }
    }
}

proof fn lemma_direct_rings_fail(rings: Seq<Seq<Coord>>, layout: Layout, k: int, e: OmapError)
    requires
        0 <= k <= rings.len(),
        direct_rings(rings.take(k), layout) == Err::<Written, OmapError>(e),
    ensures
        direct_rings(rings, layout) == Err::<Written, OmapError>(e),
    decreases rings.len() - k,
{
    if k < rings.len() {
        assert(rings.take(k + 1).drop_last() =~= rings.take(k));
        lemma_direct_rings_fail(rings, layout, k + 1, e);
    } else {
        assert(rings.take(k) =~= rings);
    }
}

proof fn lemma_curve_rings_fail(fits: Seq<Seq<Segment>>, layout: Layout, k: int, e: OmapError)
    requires
        0 <= k <= fits.len(),
        curve_rings(fits.take(k), layout) == Err::<Written, OmapError>(e),
    ensures
        curve_rings(fits, layout) == Err::<Written, OmapError>(e),
    decreases fits.len() - k,
{
    if k < fits.len() {
        assert(fits.take(k + 1).drop_last() =~= fits.take(k));
        lemma_curve_rings_fail(fits, layout, k + 1, e);
    } else {
        assert(fits.take(k) =~= fits);
    }
}

proof fn lemma_direct_rings_count(rings: Seq<Seq<Coord>>, layout: Layout, k: int)
    requires
        0 <= k <= rings.len(),
        direct_rings(rings, layout).is_ok(),
    ensures
        direct_rings(rings.take(k), layout).is_ok(),
        direct_rings(rings.take(k), layout).unwrap().count <= direct_rings(rings, layout).unwrap().count,
    decreases rings.len() - k,
{
    if k < rings.len() {
        assert(rings.take(k + 1).drop_last() =~= rings.take(k));
        lemma_direct_rings_count(rings, layout, k + 1);
    } else {
        assert(rings.take(k) =~= rings);
    }
}

proof fn lemma_curve_rings_count(fits: Seq<Seq<Segment>>, layout: Layout, k: int)
    requires
        0 <= k <= fits.len(),
        curve_rings(fits, layout).is_ok(),
    ensures
        curve_rings(fits.take(k), layout).is_ok(),
        curve_rings(fits.take(k), layout).unwrap().count <= curve_rings(fits, layout).unwrap().count,
    decreases fits.len() - k,
{
    if k < fits.len() {
        assert(fits.take(k + 1).drop_last() =~= fits.take(k));
        lemma_curve_rings_count(fits, layout, k + 1);
    } else {
        assert(fits.take(k) =~= fits);
    }
}

impl AreaObject {
    /// An area feature under `symbol` with the given outer ring and inner
    /// rings, without tags. A ring that is not closed is closed.
    pub fn from_polygon(symbol: Symbol, exterior: Vec<Coord>, interiors: Vec<Vec<Coord>>) -> (r:
        AreaObject)
        ensures
            r@.symbol == symbol,
            r@.tags == Seq::<TagView>::empty(),
            r@.rings.len() == 1 + interiors.len(),
            r@.rings[0] == closed(exterior@),
            forall|k: int| 0 <= k < interiors.len() ==> r@.rings[k + 1] == closed(#[trigger] interiors[k]@),
    {
        let mut exterior = exterior;
        close_line(&mut exterior);
        let mut rings: Vec<Vec<Coord>> = Vec::new();
        let mut k: usize = 0;
        while k < interiors.len()
            invariant
                k <= interiors.len(),
                rings.len() == k,
                forall|j: int| 0 <= j < k ==> (#[trigger] rings[j])@ == closed(interiors[j]@),
            decreases interiors.len() - k,
        {
            let mut ring = crate::coord::copy_line(&interiors[k]);
            close_line(&mut ring);
            rings.push(ring);
            k += 1;
        }
        let r = AreaObject { symbol, tags: Vec::new(), exterior, interiors: rings };
        assert(tag_views(r.tags@) =~= Seq::empty());
        r
    }

    /// Gives the tag `k` the value `v`.
    pub fn add_tag(&mut self, k: &str, v: &str)
        ensures
            final(self)@ == (AreaView {
                tags: crate::tag::with_tag(old(self)@.tags, k@, v@),
                ..old(self)@
            }),
    {
        set_tag(&mut self.tags, k, v);
    }

    /// The ring numbered `k`; the outer ring is numbered 0.
    pub fn ring(&self, k: usize) -> (r: &Vec<Coord>)
        requires
            k <= self.interiors.len(),
        ensures
            r@ == self@.rings[k as int],
    {
        if k == 0 {
            &self.exterior
        } else {
            &self.interiors[k - 1]
        }
    }

    /// Whether the feature is an area: its symbol draws areas, none of its
    /// rings is empty, and a machine word can count them.
    pub fn is_area(&self) -> (r: bool)
        ensures
            r == self@.is_area(),
    {
        if !self.symbol.is_area_symbol() || self.exterior.len() == 0 || self.interiors.len()
            == usize::MAX {
            assert(self@.rings[0] == self.exterior@);
            return false;
        }
        let mut k: usize = 0;
        while k < self.interiors.len()
            invariant
                k <= self.interiors.len(),
                self.exterior.len() >= 1,
                forall|j: int| 0 <= j < k + 1 ==> (#[trigger] self@.rings[j]).len() >= 1,
            decreases self.interiors.len() - k,
        {
            if self.interiors[k].len() == 0 {
                assert(self@.rings[k + 1] == self.interiors[k as int]@);
                return false;
            }
            assert(self@.rings[k + 1] == self.interiors[k as int]@);
            k += 1;
        }
        true
    }

    /// Writes the positions of the area ring by ring, the outer ring first,
    /// each ring with the closing flag at its end, under one count. Nothing
    /// is written on an error.
    pub fn write_polyline(&self, out: &mut String, layout: &Layout) -> (r: OmapResult<()>)
        ensures
            match r {
                Ok(_) => self@.polyline(*layout).is_ok() && final(out)@ == old(out)@ + self@.polyline(
                    *layout,
                ).unwrap(),
                Err(e) => self@.polyline(*layout) == Err::<Seq<char>, OmapError>(e) && final(out)@
                    == old(out)@,
            },
    {
        if !self.is_area() {
            return Err(OmapError::MismatchedGeometry);
        }
        let ghost rings = self@.rings;
        let n = self.interiors.len() + 1;
        let mut body = String::new();
        let mut count: usize = 0;
        let mut full = false;
        let mut k: usize = 0;
        assert(rings.take(0) =~= Seq::empty());
        while k < n
            invariant
                k <= n,
                n == self.interiors.len() + 1,
                rings == self@.rings,
                rings.len() == n,
                self@.is_area(),
                out@ == old(out)@,
                direct_rings(rings.take(k as int), *layout).is_ok(),
                body@ == direct_rings(rings.take(k as int), *layout).unwrap().body,
                !full ==> count == direct_rings(rings.take(k as int), *layout).unwrap().count,
                full ==> direct_rings(rings.take(k as int), *layout).unwrap().count > usize::MAX,
            decreases n - k,
        {
            let ghost longer = rings.take(k + 1);
            assert(longer.drop_last() =~= rings.take(k as int));
            assert(longer.last() == rings[k as int]);
            let ring = self.ring(k);
            match project_line(ring, layout) {
                Ok(points) => {
                    push_polyline(&mut body, &points, true);
                    if full || count > usize::MAX - points.len() {
                        full = true;
                    } else {
                        count = count + points.len();
                    }
                },
                Err(e) => {
                    proof {
                        lemma_direct_rings_fail(rings, *layout, k + 1, e);
                    }
                    return Err(e);
                },
            }
            k += 1;
        }
        proof {
            assert(rings.take(n as int) =~= rings);
        }
        if full {
            return Err(OmapError::MismatchedGeometry);
        }
        push_coords(out, count, body.as_str());
        Ok(())
    }

    /// Writes the positions of the area for the curves `fits` that were
    /// fitted to its rings, one curve to each ring, the outer ring first: the
    /// curves one after the other, each with the closing flag at its end,
    /// under one count. Nothing is written on an error.
    pub fn write_bezier(&self, out: &mut String, fits: &Vec<Vec<Segment>>, layout: &Layout) -> (r:
        OmapResult<()>)
        ensures
            match r {
                Ok(_) => self@.bezier(fit_views(fits@), *layout).is_ok() && final(out)@ == old(out)@
                    + self@.bezier(fit_views(fits@), *layout).unwrap(),
                Err(e) => self@.bezier(fit_views(fits@), *layout) == Err::<Seq<char>, OmapError>(e)
                    && final(out)@ == old(out)@,
            },
    {
        if !self.is_area() || fits.len() != self.interiors.len() + 1 {
            return Err(OmapError::MismatchedGeometry);
        }
        let ghost views = fit_views(fits@);
        let mut body = String::new();
        let mut count: usize = 0;
        let mut full = false;
        let mut k: usize = 0;
        assert(views.take(0) =~= Seq::empty());
        while k < fits.len()
            invariant
                k <= fits.len(),
                views == fit_views(fits@),
                views.len() == self@.rings.len(),
                self@.is_area(),
                out@ == old(out)@,
                curve_rings(views.take(k as int), *layout).is_ok(),
                body@ == curve_rings(views.take(k as int), *layout).unwrap().body,
                !full ==> count == curve_rings(views.take(k as int), *layout).unwrap().count,
                full ==> curve_rings(views.take(k as int), *layout).unwrap().count > usize::MAX,
            decreases fits.len() - k,
        {
            let ghost longer = views.take(k + 1);
            assert(longer.drop_last() =~= views.take(k as int));
            assert(longer.last() == fits@[k as int]@);
            if fits[k].len() == 0 {
                proof {
                    lemma_curve_rings_fail(views, *layout, k + 1, OmapError::MismatchedGeometry);
                }
                return Err(OmapError::MismatchedGeometry);
            }
            match project_segments(&fits[k], layout) {
                Ok(pieces) => {
                    push_curve(&mut body, &pieces, true);
                    match count_curve(&pieces) {
                        Some(c) => {
                            if full || count > usize::MAX - c {
                                full = true;
                            } else {
                                count = count + c;
                            }
                        },
                        None => {
                            full = true;
                        },
                    }
                },
                Err(e) => {
                    proof {
                        lemma_curve_rings_fail(views, *layout, k + 1, e);
                    }
                    return Err(e);
                },
            }
            k += 1;
        }
        proof {
            assert(views.take(fits.len() as int) =~= views);
        }
        if full {
            return Err(OmapError::MismatchedGeometry);
        }
        push_coords(out, count, body.as_str());
        Ok(())
    }

    /// Writes the positions of the area: for the fitted curves where they
    /// are given, else ring by ring. Nothing is written on an error.
    pub fn write_coords(&self, out: &mut String, fits: Option<&Vec<Vec<Segment>>>, layout: &Layout) -> (r:
        OmapResult<()>)
        ensures
            match r {
                Ok(_) => self@.coords(fits_view(fits), *layout).is_ok() && final(out)@ == old(out)@
                    + self@.coords(fits_view(fits), *layout).unwrap(),
                Err(e) => self@.coords(fits_view(fits), *layout) == Err::<Seq<char>, OmapError>(e)
                    && final(out)@ == old(out)@,
            },
    {
        match fits {
            Some(f) => self.write_bezier(out, f, layout),
            None => self.write_polyline(out, layout),
        }
    }

    /// Writes the tags of the area, where it has any.
    pub fn write_tags(&self, out: &mut String)
        ensures
            final(out)@ == old(out)@ + tags_text(self@.tags),
    {
        push_tags(out, &self.tags);
    }

    /// Writes the feature: its symbol, its tags, its positions. Nothing is
    /// written on an error.
    pub fn write_to_map(&self, out: &mut String, fits: Option<&Vec<Vec<Segment>>>, layout: &Layout) -> (r:
        OmapResult<()>)
        ensures
            match r {
                Ok(_) => self@.text(fits_view(fits), *layout).is_ok() && final(out)@ == old(out)@
                    + self@.text(fits_view(fits), *layout).unwrap(),
                Err(e) => self@.text(fits_view(fits), *layout) == Err::<Seq<char>, OmapError>(e)
                    && final(out)@ == old(out)@,
            },
    {
        let mut coords = String::new();
        self.write_coords(&mut coords, fits, layout)?;
        out.append("<object type=\"1\" symbol=\"");
        push_nat(out, self.symbol.id() as u128);
        out.append("\">");
        self.write_tags(out);
        out.append(coords.as_str());
        out.append("</object>\n");
        proof {
            assert(coords@ =~= self@.coords(fits_view(fits), *layout).unwrap());
            assert(out@ =~= old(out)@ + self@.text(fits_view(fits), *layout).unwrap());
        }
        Ok(())
    }
}

} // verus!
