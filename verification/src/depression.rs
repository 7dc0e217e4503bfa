//! Depressions among the contours of the base map.
//!
//! A contour that closes round a hill runs counter-clockwise and encloses a
//! positive area; one that closes round a depression runs clockwise and
//! encloses a negative one.

use crate::coord::{double_area, is_closed, line_is_closed, line_string_signed_area};
use crate::line_merger::line_in;
use crate::line_object::{LineObject, LineView};
use crate::map_object::{MapObject, MapObjectView};
use crate::omap::{
    bucket_of, bucket_views, find_bucket, lemma_bucket_of, object_views, put_object, well_kept,
    with_object, Bucket, BucketView,
};
use crate::symbol::{Symbol, BASEMAP_CONTOUR};
use vstd::prelude::*;

verus! {

/// Whether a feature is a depression: a closed line whose signed area is
/// negative.
pub open spec fn is_depression(o: MapObjectView) -> bool {
    match o {
        MapObjectView::Line(l) => is_closed(l.line) && double_area(l.line) < 0,
        _ => false,
    }
}

/// A line under another symbol.
pub open spec fn relabelled(o: MapObjectView, symbol: Symbol) -> MapObjectView {
    MapObjectView::Line(LineView { symbol, ..line_in(o) })
}

/// Those of the first `k` features that are no depressions, in order.
pub open spec fn staying(objects: Seq<MapObjectView>, k: nat) -> Seq<MapObjectView>
    decreases k,
{
    if k == 0 {
        Seq::empty()
    } else {
        let before = staying(objects, (k - 1) as nat);
        if is_depression(objects[k - 1]) {
            before
        } else {
            before.push(objects[k - 1])
        }
    }
}

/// The depressions among the first `k` features, in order, under the symbol
/// for depressions.
pub open spec fn leaving(objects: Seq<MapObjectView>, k: nat) -> Seq<MapObjectView>
    decreases k,
{
    if k == 0 {
        Seq::empty()
    } else {
        let before = leaving(objects, (k - 1) as nat);
        if is_depression(objects[k - 1]) {
            before.push(relabelled(objects[k - 1], Symbol::spec_neg_basemap_contour()))
        } else {
            before
        }
    }
}

/// The buckets after the first `k` of some features have been added, one
/// after the other.
pub open spec fn with_objects(buckets: Seq<BucketView>, objects: Seq<MapObjectView>, k: nat) -> Seq<
    BucketView,
>
    decreases k,
{
    if k == 0 {
        buckets
    } else {
        with_object(with_objects(buckets, objects, (k - 1) as nat), objects[k - 1])
    }
}

/// The buckets after depressions have been told from hills: the bucket of
/// the base map contours keeps what is no depression, and the depressions
/// are added under their own symbol. Without such a bucket nothing changes.
pub open spec fn marked_buckets(buckets: Seq<BucketView>) -> Seq<BucketView> {
    match bucket_of(buckets, BASEMAP_CONTOUR) {
        None => buckets,
        Some(b) => {
            let objects = buckets[b].objects;
            with_objects(
                buckets.update(
                    b,
                    BucketView { symbol: buckets[b].symbol, objects: staying(objects, objects.len()) },
                ),
                leaving(objects, objects.len()),
                leaving(objects, objects.len()).len(),
            )
        },
    }
}

/// For a closed ring, being a depression is having a negative signed area;
/// an open line is never one.
pub proof fn lemma_depression_rule(l: LineView)
    ensures
        is_closed(l.line) ==> (is_depression(MapObjectView::Line(l)) <==> double_area(l.line) < 0),
        !is_closed(l.line) ==> !is_depression(MapObjectView::Line(l)),
        !is_closed(l.line) ==> double_area(l.line) == 0,
{
}

proof fn lemma_staying_code(objects: Seq<MapObjectView>, k: nat, c: u16)
    requires
        k <= objects.len(),
        forall|i: int| 0 <= i < objects.len() ==> (#[trigger] objects[i]).symbol().code == c,
    ensures
        forall|j: int|
            0 <= j < staying(objects, k).len() ==> (#[trigger] staying(objects, k)[j]).symbol().code == c,
    decreases k,
{
    if k > 0 {
        lemma_staying_code(objects, (k - 1) as nat, c);
        assert(objects[k - 1].symbol().code == c);
    }
}

/// Parts the features of a bucket: the depressions, under the symbol for
/// depressions, and all others.
fn split_depressions(objects: Vec<MapObject>) -> (r: (Vec<MapObject>, Vec<MapObject>))
    ensures
        object_views(r.0@) == staying(object_views(objects@), objects.len() as nat),
        object_views(r.1@) == leaving(object_views(objects@), objects.len() as nat),
{
    let ghost views = object_views(objects@);
    let ghost all = objects@;
    let mut stay: Vec<MapObject> = Vec::new();
    let mut leave: Vec<MapObject> = Vec::new();
    assert(object_views(stay@) =~= staying(views, 0));
    assert(object_views(leave@) =~= leaving(views, 0));
    for obj in it: objects
        invariant
            it.seq() == all,
            views == object_views(all),
            object_views(stay@) == staying(views, it.index() as nat),
            object_views(leave@) == leaving(views, it.index() as nat),
    {
        assert(views[it.index() as int] == obj@);
        let ghost stay_before = stay@;
        let ghost leave_before = leave@;
        match obj {
            MapObject::LineObject(l) => {
                if line_is_closed(&l.line) && line_string_signed_area(&l.line) < 0 {
                    let moved = MapObject::LineObject(
                        LineObject { symbol: Symbol::neg_basemap_contour(), tags: l.tags, line: l.line },
                    );
                    leave.push(moved);
                    assert(object_views(leave@) =~= object_views(leave_before).push(moved@));
                } else {
                    let back = MapObject::LineObject(l);
                    stay.push(back);
                    assert(object_views(stay@) =~= object_views(stay_before).push(back@));
                }
            },
            other => {
                stay.push(other);
                assert(object_views(stay@) =~= object_views(stay_before).push(other@));
            },
        }
    }
    (stay, leave)
}

/// Tells depressions from hills in a list of buckets.
pub fn mark_depressions(buckets: &mut Vec<Bucket>)
    requires
        well_kept(bucket_views(old(buckets)@)),
    ensures
        bucket_views(final(buckets)@) == marked_buckets(bucket_views(old(buckets)@)),
        well_kept(bucket_views(final(buckets)@)),
{
    let ghost before = bucket_views(buckets@);
    proof {
        lemma_bucket_of(before, BASEMAP_CONTOUR);
    }
    let b = match find_bucket(buckets, BASEMAP_CONTOUR) {
        Some(b) => b,
        None => {
            return ;
        },
    };
    let bucket = buckets.remove(b);
    let symbol = bucket.symbol;
    let ghost objects = bucket@.objects;
    assert(bucket@ == before[b as int]);
    let (stay, leave) = split_depressions(bucket.objects);
    buckets.insert(b, Bucket { symbol, objects: stay });
    let ghost kept = before.update(
        b as int,
        BucketView { symbol, objects: staying(objects, objects.len()) },
    );
    let ghost gone = leaving(objects, objects.len());
    proof {
        assert(bucket_views(buckets@) =~= kept);
        assert forall|i: int| 0 <= i < objects.len() implies (#[trigger] objects[i]).symbol().code
            == symbol.code by {
            assert(before[b as int].objects[i].symbol().code == before[b as int].symbol.code);
        }
        lemma_staying_code(objects, objects.len(), symbol.code);
        assert forall|i: int, j: int| 0 <= i < kept.len() && 0 <= j < kept[i].objects.len() implies (
        #[trigger] kept[i].objects[j]).symbol().code == kept[i].symbol.code by {
            if i != b {
                assert(before[i].objects[j].symbol().code == before[i].symbol.code);
            }
        }
        assert forall|i: int, j: int| 0 <= i < j < kept.len() implies (#[trigger] kept[i]).symbol.code != (
        #[trigger] kept[j]).symbol.code by {
            assert(before[i].symbol.code != before[j].symbol.code);
        }
    }
    for obj in it: leave
        invariant
            object_views(it.seq()) == gone,
            well_kept(bucket_views(buckets@)),
            bucket_views(buckets@) == with_objects(kept, gone, it.index() as nat),
    {
        assert(gone[it.index() as int] == obj@);
        put_object(buckets, obj);
    }
}

} // verus!
