//! The map: its georeferencing and its features, kept by symbol.

use crate::area_object::{fits_view, ring_views};
use crate::coord::Coord;
use crate::depression::{mark_depressions, marked_buckets};
use crate::document::{document, document_text, flat, outlines, Catalog, GeoPoint};
use crate::geodetic::{Angle, GeodeticParameters, GridCross};
use crate::line_merger::{
    endpoint_views, merge_buckets, merged_buckets, nearest_views, plan_buckets, planned, Endpoints,
};
use crate::map_object::{MapObject, MapObjectView};
use crate::symbol::Symbol;
use crate::text::Segment;
use crate::{OmapError, OmapResult, Scale};
use vstd::prelude::*;

verus! {

/// The features of one symbol, in the order in which they were added.
#[derive(Debug)]
pub struct Bucket {
    pub symbol: Symbol,
    pub objects: Vec<MapObject>,
}

/// What a bucket holds.
pub struct BucketView {
    pub symbol: Symbol,
    pub objects: Seq<MapObjectView>,
}

/// The views of a list of features.
pub open spec fn object_views(objects: Seq<MapObject>) -> Seq<MapObjectView> {
    objects.map_values(|o: MapObject| o@)
}

impl View for Bucket {
    type V = BucketView;

    open spec fn view(&self) -> BucketView {
        BucketView { symbol: self.symbol, objects: object_views(self.objects@) }
    }
}

/// The views of a list of buckets.
pub open spec fn bucket_views(buckets: Seq<Bucket>) -> Seq<BucketView> {
    buckets.map_values(|b: Bucket| b@)
}

/// Every feature of a bucket has the code of the bucket's symbol, and no two
/// buckets have the same code.
pub open spec fn well_kept(buckets: Seq<BucketView>) -> bool {
    &&& forall|i: int, j: int|
        0 <= i < buckets.len() && 0 <= j < buckets[i].objects.len() ==> (
        #[trigger] buckets[i].objects[j]).symbol().code == buckets[i].symbol.code
    &&& forall|i: int, j: int|
        0 <= i < j < buckets.len() ==> (#[trigger] buckets[i]).symbol.code != (
        #[trigger] buckets[j]).symbol.code
}

/// Where the bucket with a code stands, if there is one.
pub open spec fn bucket_of(buckets: Seq<BucketView>, code: u16) -> Option<int>
    decreases buckets.len(),
{
    if buckets.len() == 0 {
        None
    } else if buckets.last().symbol.code == code {
        Some(buckets.len() - 1)
    } else {
        bucket_of(buckets.drop_last(), code)
    }
}

/// The buckets after a feature has been added: to the end of the bucket of
/// its symbol, or as the first of a new bucket behind all others.
pub open spec fn with_object(buckets: Seq<BucketView>, obj: MapObjectView) -> Seq<BucketView> {
    match bucket_of(buckets, obj.symbol().code) {
        Some(i) => buckets.update(
            i,
            BucketView { symbol: buckets[i].symbol, objects: buckets[i].objects.push(obj) },
        ),
        None => buckets.push(BucketView { symbol: obj.symbol(), objects: seq![obj] }),
    }
}

/// The buckets after room has been made for a symbol: they are as before,
/// with an empty bucket behind them where the symbol had none.
pub open spec fn with_bucket(buckets: Seq<BucketView>, symbol: Symbol) -> Seq<BucketView> {
    match bucket_of(buckets, symbol.code) {
        Some(i) => buckets,
        None => buckets.push(BucketView { symbol, objects: Seq::empty() }),
    }
}

/// `bucket_of` finds the bucket of a code, and finds none only where there
/// is none.
pub proof fn lemma_bucket_of(buckets: Seq<BucketView>, code: u16)
    ensures
        match bucket_of(buckets, code) {
            Some(i) => 0 <= i < buckets.len() && buckets[i].symbol.code == code,
            None => forall|j: int| 0 <= j < buckets.len() ==> (#[trigger] buckets[j]).symbol.code != code,
        },
    decreases buckets.len(),
{
    if buckets.len() > 0 && buckets.last().symbol.code != code {
        let init = buckets.drop_last();
        lemma_bucket_of(init, code);
        match bucket_of(init, code) {
            Some(i) => {},
            None => {
                assert forall|j: int| 0 <= j < buckets.len() implies (
                #[trigger] buckets[j]).symbol.code != code by {
                    if j < init.len() {
                        assert(init[j] == buckets[j]);
                    }
                }
            },
        }
    }
}

/// An orienteering map: how it lies on the ground, and its features by
/// symbol. Positions are relative to the reference point.
pub struct Omap {
    params: GeodeticParameters,
    buckets: Vec<Bucket>,
}

/// What a map holds.
pub struct OmapView {
    pub params: GeodeticParameters,
    pub buckets: Seq<BucketView>,
}

impl View for Omap {
    type V = OmapView;

    closed spec fn view(&self) -> OmapView {
        OmapView { params: self.params, buckets: bucket_views(self.buckets@) }
    }
}

impl Omap {
    #[verifier::type_invariant]
    spec fn kept(self) -> bool {
        well_kept(bucket_views(self.buckets@))
    }

    /// A map without features. The georeferencing is composed from what the
    /// geomagnetic model and the projection reported for the reference
    /// point, the declination and the cross on the grid: see
    /// `GeodeticParameters::spec_compose`. A local map needs neither.
    pub fn new(
        georef_point: Coord,
        epsg_crs: Option<u16>,
        scale: Scale,
        declination: Option<Angle>,
        cross: Option<GridCross>,
    ) -> (r: OmapResult<Omap>)
        ensures
            match r {
                Ok(map) => GeodeticParameters::spec_compose(
                    georef_point,
                    epsg_crs,
                    scale,
                    declination,
                    cross,
                ) == Ok::<GeodeticParameters, OmapError>(map@.params) && map@.buckets == Seq::<
                    BucketView,
                >::empty(),
                Err(e) => GeodeticParameters::spec_compose(
                    georef_point,
                    epsg_crs,
                    scale,
                    declination,
                    cross,
                ) == Err::<GeodeticParameters, OmapError>(e),
            },
    {
        let params = GeodeticParameters::compose(georef_point, epsg_crs, scale, declination, cross)?;
        let map = Omap { params, buckets: Vec::new() };
        assert(map@.buckets =~= Seq::empty());
        Ok(map)
    }

    /// The georeferencing of the map.
    pub fn parameters(&self) -> (p: GeodeticParameters)
        ensures
            p == self@.params,
    {
        self.params
    }

    /// The code of the coordinate reference system, where the map has one.
    pub fn get_crs(&self) -> (c: Option<u16>)
        ensures
            c == self@.params.epsg,
    {
        self.params.epsg
    }

    /// The reference point of the map.
    pub fn get_ref_point(&self) -> (p: Coord)
        ensures
            p == self@.params.ref_point,
    {
        self.params.ref_point
    }

    /// The number of buckets. The buckets of a map are always well kept.
    pub fn bucket_count(&self) -> (n: usize)
        ensures
            n == self@.buckets.len(),
            well_kept(self@.buckets),
    {
        proof {
            use_type_invariant(self);
        }
        self.buckets.len()
    }

    /// The bucket numbered `i`.
    pub fn bucket(&self, i: usize) -> (b: &Bucket)
        requires
            i < self@.buckets.len(),
        ensures
            b@ == self@.buckets[i as int],
    {
        &self.buckets[i]
    }

    /// Makes room for `cap` more features of a symbol. A symbol without a
    /// bucket gets an empty one.
    pub fn reserve_capacity(&mut self, symbol: Symbol, cap: usize)
        ensures
            final(self)@.params == old(self)@.params,
            final(self)@.buckets == with_bucket(old(self)@.buckets, symbol),
            well_kept(final(self)@.buckets),
    {
        proof {
            use_type_invariant(&*self);
        }
        let mut buckets: Vec<Bucket> = Vec::new();
        assert(bucket_views(buckets@) =~= Seq::empty());
        std::mem::swap(&mut self.buckets, &mut buckets);
        reserve_bucket(&mut buckets, symbol, cap);
        std::mem::swap(&mut self.buckets, &mut buckets);
    }

    /// Adds a feature to the map: to the end of the bucket of its symbol.
    pub fn add_object(&mut self, obj: MapObject)
        ensures
            final(self)@.params == old(self)@.params,
            final(self)@.buckets == with_object(old(self)@.buckets, obj@),
            well_kept(final(self)@.buckets),
    {
        proof {
            use_type_invariant(&*self);
        }
        let mut buckets: Vec<Bucket> = Vec::new();
        assert(bucket_views(buckets@) =~= Seq::empty());
        std::mem::swap(&mut self.buckets, &mut buckets);
        put_object(&mut buckets, obj);
        std::mem::swap(&mut self.buckets, &mut buckets);
    }

    /// The ends of the fragments that `merge_lines` will try to join, group
    /// by group: in the order of the buckets whose symbol draws lines, and
    /// within a bucket in the order of its groups. An index of the `heads` of
    /// a group answers, for each of its `tails`, which head lies nearest.
    pub fn merge_plan(&self) -> (plan: Vec<Endpoints>)
        ensures
            endpoint_views(plan@) == planned(self@.buckets, self@.buckets.len()),
    {
        plan_buckets(&self.buckets)
    }

    /// Merges the open lines of every symbol that draws lines.
    ///
    /// The open lines of a bucket are grouped by the height that their
    /// "Elevation" tags give, all in one group where a line gives none; what
    /// counts as a height is told in `height`: a number in decimal, with an
    /// exponent or without. In
    /// each group a fragment's start is joined to the end that `nearest`
    /// reports for it, where that end lies within `delta`; that the reported
    /// end is the nearest, as `merge::is_nearest` says it, is left to whoever
    /// reports. `nearest[g][t]` is
    /// the number, within the group numbered `g` by `merge_plan`, of the
    /// fragment whose end lies nearest to the start of fragment `t`. Closed
    /// lines and other features stay as they are, and the merged lines stand
    /// behind them.
    pub fn merge_lines(&mut self, delta: u64, nearest: &Vec<Vec<usize>>)
        ensures
            final(self)@.params == old(self)@.params,
            final(self)@.buckets == merged_buckets(old(self)@.buckets, nearest_views(nearest@), delta),
            well_kept(final(self)@.buckets),
    {
        proof {
            use_type_invariant(&*self);
        }
        let mut buckets: Vec<Bucket> = Vec::new();
        assert(bucket_views(buckets@) =~= Seq::empty());
        std::mem::swap(&mut self.buckets, &mut buckets);
        let mut merged = merge_buckets(buckets, delta, nearest);
        std::mem::swap(&mut self.buckets, &mut merged);
    }

    /// Tells depressions from hills among the contours of the base map:
    /// every closed line under the base map contour symbol whose signed area
    /// is negative moves, under the symbol for depressions, to the end of
    /// that symbol's bucket. Open lines, rings whose area is not negative
    /// and features that are no lines stay where they are, in their order.
    pub fn mark_basemap_depressions(&mut self)
        ensures
            final(self)@.params == old(self)@.params,
            final(self)@.buckets == marked_buckets(old(self)@.buckets),
            well_kept(final(self)@.buckets),
    {
        proof {
            use_type_invariant(&*self);
        }
        let mut buckets: Vec<Bucket> = Vec::new();
        assert(bucket_views(buckets@) =~= Seq::empty());
        std::mem::swap(&mut self.buckets, &mut buckets);
        mark_depressions(&mut buckets);
        std::mem::swap(&mut self.buckets, &mut buckets);
    }

    /// The lines to which curves are fitted before the map is written as
    /// curves: each line, and each ring of each area, in the order in which
    /// the features are written.
    pub fn curve_requests(&self) -> (lines: Vec<Vec<Coord>>)
        ensures
            ring_views(lines@) == outlines(
                flat(self@.buckets, self@.buckets.len()),
                flat(self@.buckets, self@.buckets.len()).len(),
            ),
    {
        let objects = crate::document::all_objects(&self.buckets);
        crate::document::curve_requests(&objects)
    }

    /// The map as the text of a map file, which ends the map: header,
    /// georeferencing, catalogue, the features bucket after bucket, and the
    /// closing part.
    ///
    /// Without `fits` every line is written position by position. With
    /// `fits`, which holds one fitted curve for each line that
    /// `curve_requests` lists, lines and areas are written as curves. `place`
    /// is the reference point on the globe; a map with a coordinate reference
    /// system cannot be written without it. The first part that cannot be
    /// written fails the whole map with its error: a position outside what a
    /// map file can hold, a feature whose geometry does not fit its symbol or
    /// its curves, or a missing place.
    pub fn into_text(
        self,
        fits: Option<&Vec<Vec<Segment>>>,
        catalog: &Catalog,
        place: Option<GeoPoint>,
    ) -> (r: OmapResult<String>)
        ensures
            match r {
                Ok(text) => document_text(self@.params, self@.buckets, fits_view(fits), catalog@, place)
                    == Ok::<Seq<char>, OmapError>(text@),
                Err(e) => document_text(self@.params, self@.buckets, fits_view(fits), catalog@, place)
                    == Err::<Seq<char>, OmapError>(e),
            },
    {
        document(&self.params, &self.buckets, fits, catalog, place)
    }
}

/// Where the bucket with a code stands.
pub fn find_bucket(buckets: &Vec<Bucket>, code: u16) -> (r: Option<usize>)
    ensures
        match r {
            Some(i) => i < buckets.len() && bucket_of(bucket_views(buckets@), code) == Some(i as int),
            None => bucket_of(bucket_views(buckets@), code).is_none(),
        },
{
    let ghost views = bucket_views(buckets@);
    let mut i: usize = buckets.len();
    assert(views.take(i as int) =~= views);
    while i > 0
        invariant
            i <= buckets.len(),
            views == bucket_views(buckets@),
            bucket_of(views, code) == bucket_of(views.take(i as int), code),
        decreases i,
    {
        i -= 1;
        let ghost longer = views.take(i + 1);
        assert(longer.last() == buckets[i as int]@);
        assert(longer.drop_last() =~= views.take(i as int));
        if buckets[i].symbol.code == code {
            return Some(i);
        }
    }
    assert(views.take(0) =~= Seq::empty());
    None
}

/// Adding a feature or a bucket keeps the buckets well kept.
pub proof fn lemma_with_object_well_kept(buckets: Seq<BucketView>, obj: MapObjectView)
    requires
        well_kept(buckets),
    ensures
        well_kept(with_object(buckets, obj)),
        well_kept(with_bucket(buckets, obj.symbol())),
{
    lemma_bucket_of(buckets, obj.symbol().code);
    let after = with_object(buckets, obj);
    match bucket_of(buckets, obj.symbol().code) {
        Some(k) => {
            assert forall|i: int, j: int|
                0 <= i < after.len() && 0 <= j < after[i].objects.len() implies (
            #[trigger] after[i].objects[j]).symbol().code == after[i].symbol.code by {
                if i == k && j < buckets[k].objects.len() {
                    assert(buckets[i].objects[j].symbol().code == buckets[i].symbol.code);
                } else if i != k {
                    assert(buckets[i].objects[j].symbol().code == buckets[i].symbol.code);
                }
            }
            assert forall|i: int, j: int| 0 <= i < j < after.len() implies (
            #[trigger] after[i]).symbol.code != (#[trigger] after[j]).symbol.code by {
                assert(buckets[i].symbol.code != buckets[j].symbol.code);
            }
        },
        None => {
            assert forall|i: int, j: int|
                0 <= i < after.len() && 0 <= j < after[i].objects.len() implies (
            #[trigger] after[i].objects[j]).symbol().code == after[i].symbol.code by {
                if i < buckets.len() {
                    assert(buckets[i].objects[j].symbol().code == buckets[i].symbol.code);
                }
            }
            assert forall|i: int, j: int| 0 <= i < j < after.len() implies (
            #[trigger] after[i]).symbol.code != (#[trigger] after[j]).symbol.code by {
                if j < buckets.len() {
                    assert(buckets[i].symbol.code != buckets[j].symbol.code);
                } else {
                    assert(buckets[i].symbol.code != obj.symbol().code);
                }
            }
            let more = with_bucket(buckets, obj.symbol());
            assert forall|i: int, j: int|
                0 <= i < more.len() && 0 <= j < more[i].objects.len() implies (
            #[trigger] more[i].objects[j]).symbol().code == more[i].symbol.code by {
                if i < buckets.len() {
                    assert(buckets[i].objects[j].symbol().code == buckets[i].symbol.code);
                }
            }
            assert forall|i: int, j: int| 0 <= i < j < more.len() implies (
            #[trigger] more[i]).symbol.code != (#[trigger] more[j]).symbol.code by {
                if j < buckets.len() {
                    assert(buckets[i].symbol.code != buckets[j].symbol.code);
                } else {
                    assert(buckets[i].symbol.code != obj.symbol().code);
                }
            }
        },
    }
}

/// Makes room for `cap` more features of a symbol.
fn reserve_bucket(buckets: &mut Vec<Bucket>, symbol: Symbol, cap: usize)
    requires
        well_kept(bucket_views(old(buckets)@)),
    ensures
        bucket_views(final(buckets)@) == with_bucket(bucket_views(old(buckets)@), symbol),
        well_kept(bucket_views(final(buckets)@)),
{
    let ghost before = bucket_views(buckets@);
    proof {
        lemma_bucket_of(before, symbol.code);
    }
    match find_bucket(buckets, symbol.code) {
        Some(i) => {
            let mut bucket = buckets.remove(i);
            bucket.objects.reserve(cap);
            buckets.insert(i, bucket);
            assert(bucket_views(buckets@) =~= before);
        },
        None => {
            let bucket = Bucket { symbol, objects: Vec::with_capacity(cap) };
            assert(bucket@.objects =~= Seq::empty());
            buckets.push(bucket);
            assert(bucket_views(buckets@) =~= with_bucket(before, symbol));
            proof {
                let probe = MapObjectView::Line(
                    crate::line_object::LineView { symbol, tags: Seq::empty(), line: Seq::empty() },
                );
                lemma_with_object_well_kept(before, probe);
            }
        },
    }
}

/// Adds a feature to the end of the bucket of its symbol.
pub fn put_object(buckets: &mut Vec<Bucket>, obj: MapObject)
    requires
        well_kept(bucket_views(old(buckets)@)),
    ensures
        bucket_views(final(buckets)@) == with_object(bucket_views(old(buckets)@), obj@),
        well_kept(bucket_views(final(buckets)@)),
{
    let ghost before = bucket_views(buckets@);
    proof {
        lemma_bucket_of(before, obj@.symbol().code);
        lemma_with_object_well_kept(before, obj@);
    }
    match find_bucket(buckets, obj.symbol().code) {
        Some(i) => {
            let mut bucket = buckets.remove(i);
            bucket.objects.push(obj);
            assert(bucket@.objects =~= before[i as int].objects.push(obj@));
            buckets.insert(i, bucket);
            assert(bucket_views(buckets@) =~= with_object(before, obj@));
        },
        None => {
            let symbol = obj.symbol();
            let mut objects: Vec<MapObject> = Vec::new();
            objects.push(obj);
            let bucket = Bucket { symbol, objects };
            assert(bucket@.objects =~= seq![obj@]);
            buckets.push(bucket);
            assert(bucket_views(buckets@) =~= with_object(before, obj@));
        },
    }
}

} // verus!
