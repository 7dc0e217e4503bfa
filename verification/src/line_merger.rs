//! Merging the open lines of a map.
//!
//! Each bucket whose symbol draws lines is parted into its open lines and
//! the rest. The open lines are grouped by height and merged group by group;
//! what they become takes their place behind the rest. The groups are
//! numbered through all buckets, and the index of line ends reports on each
//! group under its number.

use crate::coord::{is_closed, line_is_closed, Coord};
use crate::elevation::{group_by_elevation, group_views, groups};
use crate::line_object::{LineObject, LineView};
use crate::map_object::{MapObject, MapObjectView};
use crate::merge::{line_views, merge_fragments, merged};
use crate::omap::{bucket_views, object_views, well_kept, Bucket, BucketView};
use crate::symbol::Geometry;
use vstd::prelude::*;

verus! {

/// Whether a feature is a line that is open.
pub open spec fn is_open_line(o: MapObjectView) -> bool {
    match o {
        MapObjectView::Line(l) => !is_closed(l.line),
        _ => false,
    }
}

/// The line that a feature is, where it is one.
pub open spec fn line_in(o: MapObjectView) -> LineView {
    match o {
        MapObjectView::Line(l) => l,
        _ => arbitrary(),
    }
}

/// The open lines among the first `k` features, in order.
pub open spec fn open_lines(objects: Seq<MapObjectView>, k: nat) -> Seq<LineView>
    decreases k,
{
    if k == 0 {
        Seq::empty()
    } else {
        let before = open_lines(objects, (k - 1) as nat);
        if is_open_line(objects[k - 1]) {
            before.push(line_in(objects[k - 1]))
        } else {
            before
        }
    }
}

/// Those of the first `k` features that are no open lines, in order.
pub open spec fn other_objects(objects: Seq<MapObjectView>, k: nat) -> Seq<MapObjectView>
    decreases k,
{
    if k == 0 {
        Seq::empty()
    } else {
        let before = other_objects(objects, (k - 1) as nat);
        if is_open_line(objects[k - 1]) {
            before
        } else {
            before.push(objects[k - 1])
        }
    }
}

/// Lines as features.
pub open spec fn as_objects(lines: Seq<LineView>) -> Seq<MapObjectView> {
    lines.map_values(|l: LineView| MapObjectView::Line(l))
}

/// What the index of ends reported for the group numbered `i`: for each
/// fragment of the group, the number of the fragment whose end lies nearest
/// to its start. A group without a report has an empty one.
pub open spec fn answer(nearest: Seq<Seq<usize>>, i: int) -> Seq<usize> {
    if 0 <= i < nearest.len() {
        nearest[i]
    } else {
        Seq::empty()
    }
}

/// The lines that the first `k` groups become, group after group. The
/// groups are numbered from `first` on.
pub open spec fn merged_groups(
    groups: Seq<Seq<LineView>>,
    nearest: Seq<Seq<usize>>,
    first: int,
    delta: u64,
    k: nat,
) -> Seq<LineView>
    decreases k,
{
    if k == 0 {
        Seq::empty()
    } else {
        merged_groups(groups, nearest, first, delta, (k - 1) as nat) + merged(
            groups[k - 1],
            answer(nearest, first + k - 1),
            delta,
        )
    }
}

/// The open lines of a bucket in their groups: by the height that their
/// "Elevation" tags give, or in one group where a line gives none.
pub open spec fn fragment_groups(objects: Seq<MapObjectView>) -> Seq<Seq<LineView>> {
    groups(open_lines(objects, objects.len()))
}

/// The features of a bucket of lines after merging: those that are no open
/// lines, and behind them the lines that the open lines have become.
pub open spec fn merged_objects(
    objects: Seq<MapObjectView>,
    nearest: Seq<Seq<usize>>,
    first: int,
    delta: u64,
) -> Seq<MapObjectView> {
    other_objects(objects, objects.len()) + as_objects(
        merged_groups(
            fragment_groups(objects),
            nearest,
            first,
            delta,
            fragment_groups(objects).len(),
        ),
    )
}

/// The number of groups that a bucket has: none unless its symbol draws
/// lines.
pub open spec fn group_count(b: BucketView) -> nat {
    if b.symbol.geometry == Geometry::Line {
        fragment_groups(b.objects).len()
    } else {
        0
    }
}

/// The number of groups in the first `k` buckets, or the largest number
/// that a machine word holds where there are more.
pub open spec fn groups_before(buckets: Seq<BucketView>, k: nat) -> nat
    decreases k,
{
    if k == 0 {
        0
    } else {
        let sum = groups_before(buckets, (k - 1) as nat) + group_count(buckets[k - 1]);
        if sum <= usize::MAX {
            sum
        } else {
            usize::MAX as nat
        }
    }
}

/// A bucket after merging, where its groups are numbered from `first` on. A
/// bucket whose symbol does not draw lines stays as it is.
pub open spec fn merged_bucket(b: BucketView, nearest: Seq<Seq<usize>>, first: int, delta: u64) -> BucketView {
    if b.symbol.geometry == Geometry::Line {
        BucketView { symbol: b.symbol, objects: merged_objects(b.objects, nearest, first, delta) }
    } else {
        b
    }
}

/// The buckets after merging. The groups are numbered through all buckets,
/// in the order of the buckets.
pub open spec fn merged_buckets(buckets: Seq<BucketView>, nearest: Seq<Seq<usize>>, delta: u64) -> Seq<
    BucketView,
> {
    Seq::new(
        buckets.len(),
        |k: int| merged_bucket(buckets[k], nearest, groups_before(buckets, k as nat) as int, delta),
    )
}

/// Parts the features of a bucket: the open lines, and all others.
fn split_objects(objects: Vec<MapObject>) -> (r: (Vec<MapObject>, Vec<LineObject>))
    ensures
        object_views(r.0@) == other_objects(object_views(objects@), objects.len() as nat),
        line_views(r.1@) == open_lines(object_views(objects@), objects.len() as nat),
{
    let ghost views = object_views(objects@);
    let ghost all = objects@;
    let mut others: Vec<MapObject> = Vec::new();
    let mut open: Vec<LineObject> = Vec::new();
    assert(object_views(others@) =~= other_objects(views, 0));
    assert(line_views(open@) =~= open_lines(views, 0));
    for obj in it: objects
        invariant
            it.seq() == all,
            views == object_views(all),
            object_views(others@) == other_objects(views, it.index() as nat),
            line_views(open@) == open_lines(views, it.index() as nat),
    {
        assert(views[it.index() as int] == obj@);
        let ghost others_before = others@;
        let ghost open_before = open@;
        match obj {
            MapObject::LineObject(l) => {
                if line_is_closed(&l.line) {
                    let back = MapObject::LineObject(l);
                    others.push(back);
                    assert(object_views(others@) =~= object_views(others_before).push(back@));
                } else {
                    open.push(l);
                    assert(line_views(open@) =~= line_views(open_before).push(l@));
                }
            },
            other => {
                others.push(other);
                assert(object_views(others@) =~= object_views(others_before).push(other@));
            },
        }
    }
    (others, open)
}

/// Merges the open lines of a bucket of lines, group by group, and puts the
/// lines that result behind the bucket's other features. Returns the
/// features and the number of groups.
fn merge_objects(objects: Vec<MapObject>, nearest: &Vec<Vec<usize>>, first: usize, delta: u64) -> (r: (
    Vec<MapObject>,
    usize,
))
    ensures
        object_views(r.0@) == merged_objects(
            object_views(objects@),
            nearest_views(nearest@),
            first as int,
            delta,
        ),
        r.1 == fragment_groups(object_views(objects@)).len(),
{
    let ghost views = object_views(objects@);
    let (mut others, open) = split_objects(objects);
    let groups = group_by_elevation(&open);
    let ghost gv = group_views(groups@);
    let ghost nv = nearest_views(nearest@);
    let ghost base = object_views(others@);
    let empty: Vec<usize> = Vec::new();
    let mut g: usize = 0;
    assert(base + as_objects(Seq::empty()) =~= base);
    while g < groups.len()
        invariant
            g <= groups.len(),
            gv == group_views(groups@),
            gv == fragment_groups(views),
            nv == nearest_views(nearest@),
            empty@.len() == 0,
            object_views(others@) == base + as_objects(
                merged_groups(gv, nv, first as int, delta, g as nat),
            ),
        decreases groups.len() - g,
    {
        let report: &Vec<usize> = if first <= usize::MAX - g && first + g < nearest.len() {
            &nearest[first + g]
        } else {
            &empty
        };
        proof {
            if first + g < nearest.len() {
                assert(nv[first + g] == nearest@[first + g]@);
            } else {
                assert(report@ =~= Seq::empty());
            }
            assert(report@ == answer(nv, first + g));
        }
        assert(gv[g as int] == line_views(groups[g as int]@));
        let lines = merge_fragments(&groups[g], report, delta);
        let ghost before = object_views(others@);
        let ghost made = line_views(lines@);
        assert(before + as_objects(made.take(0)) =~= before);
        for line in it: lines
            invariant
                line_views(it.seq()) == made,
                object_views(others@) == before + as_objects(made.take(it.index() as int)),
        {
            let ghost sofar = others@;
            assert(made[it.index() as int] == line@);
            let obj = MapObject::LineObject(line);
            others.push(obj);
            assert(object_views(others@) =~= before + as_objects(made.take(it.index() + 1))) by {
                assert(object_views(others@) =~= object_views(sofar).push(obj@));
                assert(made.take(it.index() + 1) =~= made.take(it.index() as int).push(line@));
            }
        }
        proof {
            assert(made.take(made.len() as int) =~= made);
            let sofar = merged_groups(gv, nv, first as int, delta, g as nat);
            assert(merged_groups(gv, nv, first as int, delta, (g + 1) as nat) == sofar + made);
            assert(as_objects(sofar + made) =~= as_objects(sofar) + as_objects(made));
            assert(base + as_objects(sofar) + as_objects(made) =~= base + (as_objects(sofar) + as_objects(
                made,
            )));
        }
        g += 1;
    }
    (others, groups.len())
}

/// The reports of the index of ends as sequences.
pub open spec fn nearest_views(nearest: Seq<Vec<usize>>) -> Seq<Seq<usize>> {
    nearest.map_values(|r: Vec<usize>| r@)
}

proof fn lemma_open_lines_code(objects: Seq<MapObjectView>, k: nat, c: u16)
    requires
        k <= objects.len(),
        forall|i: int| 0 <= i < objects.len() ==> (#[trigger] objects[i]).symbol().code == c,
    ensures
        forall|j: int|
            0 <= j < open_lines(objects, k).len() ==> (#[trigger] open_lines(objects, k)[j]).symbol.code
                == c,
        forall|j: int|
            0 <= j < other_objects(objects, k).len() ==> (#[trigger] other_objects(
                objects,
                k,
            )[j]).symbol().code == c,
        open_lines(objects, k).len() <= k,
    decreases k,
{
    if k > 0 {
        lemma_open_lines_code(objects, (k - 1) as nat, c);
        assert(objects[k - 1].symbol().code == c);
    }
}

proof fn lemma_merged_groups_code(
    groups: Seq<Seq<LineView>>,
    nearest: Seq<Seq<usize>>,
    first: int,
    delta: u64,
    k: nat,
    c: u16,
)
    requires
        k <= groups.len(),
        forall|g: int, i: int|
            0 <= g < groups.len() && 0 <= i < groups[g].len() ==> (#[trigger] groups[g][i]).symbol.code
                == c,
        forall|g: int| 0 <= g < groups.len() ==> (#[trigger] groups[g]).len() <= usize::MAX,
    ensures
        forall|j: int|
            0 <= j < merged_groups(groups, nearest, first, delta, k).len() ==> (#[trigger] merged_groups(
                groups,
                nearest,
                first,
                delta,
                k,
            )[j]).symbol.code == c,
    decreases k,
{
    if k > 0 {
        lemma_merged_groups_code(groups, nearest, first, delta, (k - 1) as nat, c);
        let group = groups[k - 1];
        assert forall|i: int| 0 <= i < group.len() implies (#[trigger] group[i]).symbol.code == c by {
            assert(groups[k - 1][i].symbol.code == c);
        }
        crate::merge::lemma_merged_code(group, answer(nearest, first + k - 1), delta, c);
    }
}

/// Merging keeps every feature under the code of its bucket.
pub proof fn lemma_merged_objects_code(
    objects: Seq<MapObjectView>,
    nearest: Seq<Seq<usize>>,
    first: int,
    delta: u64,
    c: u16,
)
    requires
        objects.len() <= usize::MAX,
        forall|i: int| 0 <= i < objects.len() ==> (#[trigger] objects[i]).symbol().code == c,
    ensures
        forall|j: int|
            0 <= j < merged_objects(objects, nearest, first, delta).len() ==> (#[trigger] merged_objects(
                objects,
                nearest,
                first,
                delta,
            )[j]).symbol().code == c,
{
    let n = objects.len();
    let open = open_lines(objects, n);
    let groups = fragment_groups(objects);
    lemma_open_lines_code(objects, n, c);
    assert forall|g: int, i: int| 0 <= g < groups.len() && 0 <= i < groups[g].len() implies (
    #[trigger] groups[g][i]).symbol.code == c by {
        let keys = crate::elevation::group_keys(open, open.len());
        crate::elevation::lemma_group_members(open, keys[g], open.len(), i);
    }
    assert forall|g: int| 0 <= g < groups.len() implies (#[trigger] groups[g]).len() <= usize::MAX by {
        let keys = crate::elevation::group_keys(open, open.len());
        crate::elevation::lemma_group_size(open, keys[g], open.len());
    }
    lemma_merged_groups_code(groups, nearest, first, delta, groups.len(), c);
}

/// The ends of the fragments of one group: `heads[i]` is the last position
/// of fragment `i`, `tails[i]` its first.
#[derive(Debug)]
pub struct Endpoints {
    pub heads: Vec<Coord>,
    pub tails: Vec<Coord>,
}

/// The ends of the fragments of one group, as sequences.
pub struct EndpointsView {
    pub heads: Seq<Coord>,
    pub tails: Seq<Coord>,
}

impl View for Endpoints {
    type V = EndpointsView;

    open spec fn view(&self) -> EndpointsView {
        EndpointsView { heads: self.heads@, tails: self.tails@ }
    }
}

/// The views of a list of ends.
pub open spec fn endpoint_views(plan: Seq<Endpoints>) -> Seq<EndpointsView> {
    plan.map_values(|e: Endpoints| e@)
}

/// The ends of the fragments of a group.
pub open spec fn endpoints_of(group: Seq<LineView>) -> EndpointsView {
    EndpointsView {
        heads: Seq::new(group.len(), |i: int| group[i].line.last()),
        tails: Seq::new(group.len(), |i: int| group[i].line.first()),
    }
}

/// The ends of the groups of a bucket.
pub open spec fn planned_bucket(objects: Seq<MapObjectView>) -> Seq<EndpointsView> {
    fragment_groups(objects).map_values(|g: Seq<LineView>| endpoints_of(g))
}

/// The ends of the groups of the first `k` buckets, in the order of the
/// buckets and of their groups.
pub open spec fn planned(buckets: Seq<BucketView>, k: nat) -> Seq<EndpointsView>
    decreases k,
{
    if k == 0 {
        Seq::empty()
    } else {
        planned(buckets, (k - 1) as nat) + if buckets[k - 1].symbol.geometry == Geometry::Line {
            planned_bucket(buckets[k - 1].objects)
        } else {
            Seq::empty()
        }
    }
}

proof fn lemma_plan_length(buckets: Seq<BucketView>, m: nat)
    requires
        m <= buckets.len(),
    ensures
        groups_before(buckets, m) == if planned(buckets, m).len() <= usize::MAX {
            planned(buckets, m).len()
        } else {
            usize::MAX as nat
        },
    decreases m,
{
    if m > 0 {
        lemma_plan_length(buckets, (m - 1) as nat);
    }
}

proof fn lemma_plan_prefix(buckets: Seq<BucketView>, k: nat, m: nat, i: int)
    requires
        k <= m <= buckets.len(),
        0 <= i < planned(buckets, k).len(),
    ensures
        i < planned(buckets, m).len(),
        planned(buckets, m)[i] == planned(buckets, k)[i],
    decreases m,
{
    if m > k {
        lemma_plan_prefix(buckets, k, (m - 1) as nat, i);
    }
}

/// The plan and the merging number the groups alike: the group numbered `g`
/// of the bucket numbered `k` stands in the plan where `merge_lines` looks
/// for its report, as long as a machine word can count the groups.
pub proof fn lemma_plan_index(buckets: Seq<BucketView>, k: int, g: int)
    requires
        0 <= k < buckets.len(),
        buckets[k].symbol.geometry == Geometry::Line,
        0 <= g < fragment_groups(buckets[k].objects).len(),
        planned(buckets, (k + 1) as nat).len() <= usize::MAX,
    ensures
        groups_before(buckets, k as nat) + g < planned(buckets, buckets.len()).len(),
        planned(buckets, buckets.len())[groups_before(buckets, k as nat) + g] == endpoints_of(
            fragment_groups(buckets[k].objects)[g],
        ),
{
    lemma_plan_length(buckets, k as nat);
    let at = groups_before(buckets, k as nat) + g;
    assert(planned(buckets, (k + 1) as nat) == planned(buckets, k as nat) + planned_bucket(
        buckets[k].objects,
    ));
    assert(planned(buckets, (k + 1) as nat)[at] == planned_bucket(buckets[k].objects)[g]);
    lemma_plan_prefix(buckets, (k + 1) as nat, buckets.len(), at);
}

/// Every open line has a first and a last position.
proof fn lemma_open_lines_have_ends(objects: Seq<MapObjectView>, k: nat)
    requires
        k <= objects.len(),
    ensures
        forall|j: int|
            0 <= j < open_lines(objects, k).len() ==> (#[trigger] open_lines(objects, k)[j]).line.len()
                >= 2,
    decreases k,
{
    if k > 0 {
        lemma_open_lines_have_ends(objects, (k - 1) as nat);
    }
}

/// Copies of the open lines of a bucket.
fn copy_open_lines(objects: &Vec<MapObject>) -> (open: Vec<LineObject>)
    ensures
        line_views(open@) == open_lines(object_views(objects@), objects.len() as nat),
{
    let ghost views = object_views(objects@);
    let mut open: Vec<LineObject> = Vec::new();
    let mut i: usize = 0;
    assert(line_views(open@) =~= open_lines(views, 0));
    while i < objects.len()
        invariant
            i <= objects.len(),
            views == object_views(objects@),
            line_views(open@) == open_lines(views, i as nat),
        decreases objects.len() - i,
    {
        assert(views[i as int] == objects[i as int]@);
        let ghost before = open@;
        match &objects[i] {
            MapObject::LineObject(l) => {
                if !line_is_closed(&l.line) {
                    let copy = l.clone();
                    open.push(copy);
                    assert(line_views(open@) =~= line_views(before).push(copy@));
                }
            },
            _ => {},
        }
        i += 1;
    }
    open
}

/// Adds the ends of the groups of a bucket to a plan.
fn plan_bucket(objects: &Vec<MapObject>, plan: &mut Vec<Endpoints>)
    ensures
        endpoint_views(final(plan)@) == endpoint_views(old(plan)@) + planned_bucket(object_views(objects@)),
{
    let ghost views = object_views(objects@);
    let open = copy_open_lines(objects);
    let groups = group_by_elevation(&open);
    let ghost gv = group_views(groups@);
    let ghost before = endpoint_views(plan@);
    let ghost target = planned_bucket(views);
    proof {
        lemma_open_lines_have_ends(views, views.len());
    }
    let mut g: usize = 0;
    assert(before + target.take(0) =~= before);
    while g < groups.len()
        invariant
            g <= groups.len(),
            gv == group_views(groups@),
            gv == fragment_groups(views),
            target == planned_bucket(views),
            line_views(open@) == open_lines(views, views.len()),
            forall|j: int| 0 <= j < open.len() ==> (#[trigger] line_views(open@)[j]).line.len() >= 2,
            endpoint_views(plan@) == before + target.take(g as int),
        decreases groups.len() - g,
    {
        let group = &groups[g];
        assert(gv[g as int] == line_views(group@));
        let mut heads: Vec<Coord> = Vec::new();
        let mut tails: Vec<Coord> = Vec::new();
        let mut i: usize = 0;
        while i < group.len()
            invariant
                i <= group.len(),
                g < groups.len(),
                gv == group_views(groups@),
                gv == fragment_groups(views),
                gv[g as int] == line_views(group@),
                line_views(open@) == open_lines(views, views.len()),
                forall|j: int| 0 <= j < open.len() ==> (#[trigger] line_views(open@)[j]).line.len() >= 2,
                heads.len() == i,
                tails.len() == i,
                forall|j: int| 0 <= j < i ==> heads[j] == (#[trigger] group[j])@.line.last(),
                forall|j: int| 0 <= j < i ==> tails[j] == (#[trigger] group[j])@.line.first(),
            decreases group.len() - i,
        {
            proof {
                let lines = line_views(open@);
                let keys = crate::elevation::group_keys(lines, lines.len());
                assert(gv.len() == keys.len());
                assert(gv[g as int] == crate::elevation::group_members(lines, keys[g as int], lines.len()));
                assert(line_views(group@)[i as int] == group[i as int]@);
                crate::elevation::lemma_group_members(lines, keys[g as int], lines.len(), i as int);
                let at = choose|at: int|
                    0 <= at < lines.len() && #[trigger] lines[at] == crate::elevation::group_members(
                        lines,
                        keys[g as int],
                        lines.len(),
                    )[i as int] && crate::elevation::group_key(lines, at) == keys[g as int];
                assert(lines[at].line.len() >= 2);
            }
            let line = &group[i].line;
            heads.push(line[line.len() - 1]);
            tails.push(line[0]);
            i += 1;
        }
        let ends = Endpoints { heads, tails };
        let ghost sofar = plan@;
        assert(ends@.heads =~= endpoints_of(line_views(group@)).heads);
        assert(ends@.tails =~= endpoints_of(line_views(group@)).tails);
        plan.push(ends);
        assert(endpoint_views(plan@) =~= before + target.take(g + 1)) by {
            assert(endpoint_views(plan@) =~= endpoint_views(sofar).push(ends@));
            assert(target.take(g + 1) =~= target.take(g as int).push(target[g as int]));
        }
        g += 1;
    }
    assert(target.take(groups.len() as int) =~= target);
}

/// Merging keeps the buckets well kept.
pub proof fn lemma_merged_buckets_well_kept(buckets: Seq<BucketView>, nearest: Seq<Seq<usize>>, delta: u64)
    requires
        well_kept(buckets),
        forall|i: int| 0 <= i < buckets.len() ==> (#[trigger] buckets[i]).objects.len() <= usize::MAX,
    ensures
        well_kept(merged_buckets(buckets, nearest, delta)),
{
    let after = merged_buckets(buckets, nearest, delta);
    assert forall|i: int, j: int| 0 <= i < after.len() && 0 <= j < after[i].objects.len() implies (
    #[trigger] after[i].objects[j]).symbol().code == after[i].symbol.code by {
        let b = buckets[i];
        assert forall|x: int| 0 <= x < b.objects.len() implies (#[trigger] b.objects[x]).symbol().code
            == b.symbol.code by {
            assert(buckets[i].objects[x].symbol().code == buckets[i].symbol.code);
        }
        if b.symbol.geometry == Geometry::Line {
            lemma_merged_objects_code(
                b.objects,
                nearest,
                groups_before(buckets, i as nat) as int,
                delta,
                b.symbol.code,
            );
        }
    }
    assert forall|i: int, j: int| 0 <= i < j < after.len() implies (#[trigger] after[i]).symbol.code != (
    #[trigger] after[j]).symbol.code by {
        assert(buckets[i].symbol.code != buckets[j].symbol.code);
    }
}

/// The ends of the fragments that merging will try to join, group by group:
/// in the order of the buckets whose symbol draws lines, and within a bucket
/// in the order of its groups.
pub fn plan_buckets(buckets: &Vec<Bucket>) -> (plan: Vec<Endpoints>)
    ensures
        endpoint_views(plan@) == planned(bucket_views(buckets@), buckets.len() as nat),
{
    let ghost views = bucket_views(buckets@);
    let mut plan: Vec<Endpoints> = Vec::new();
    let mut k: usize = 0;
    assert(endpoint_views(plan@) =~= planned(views, 0));
    while k < buckets.len()
        invariant
            k <= buckets.len(),
            views == bucket_views(buckets@),
            endpoint_views(plan@) == planned(views, k as nat),
        decreases buckets.len() - k,
    {
        assert(views[k as int] == buckets[k as int]@);
        if buckets[k].symbol.is_line_symbol() {
            plan_bucket(&buckets[k].objects, &mut plan);
        }
        k += 1;
    }
    plan
}

/// Merges the open lines of every bucket whose symbol draws lines.
pub fn merge_buckets(buckets: Vec<Bucket>, delta: u64, nearest: &Vec<Vec<usize>>) -> (done: Vec<Bucket>)
    requires
        well_kept(bucket_views(buckets@)),
    ensures
        bucket_views(done@) == merged_buckets(bucket_views(buckets@), nearest_views(nearest@), delta),
        well_kept(bucket_views(done@)),
{
    let ghost before = bucket_views(buckets@);
    let ghost nv = nearest_views(nearest@);
    let ghost after = merged_buckets(before, nv, delta);
    let mut done: Vec<Bucket> = Vec::new();
    let mut first: usize = 0;
    assert(bucket_views(done@) =~= after.take(0));
    assert forall|i: int| 0 <= i < before.len() implies (#[trigger] before[i]).objects.len()
        <= usize::MAX by {
        assert(before[i] == buckets[i]@);
        assert(before[i].objects.len() == buckets[i].objects.len());
    }
    for bucket in it: buckets
        invariant
            bucket_views(it.seq()) == before,
            well_kept(before),
            forall|i: int| 0 <= i < before.len() ==> (#[trigger] before[i]).objects.len() <= usize::MAX,
            nv == nearest_views(nearest@),
            after == merged_buckets(before, nv, delta),
            first == groups_before(before, it.index() as nat),
            bucket_views(done@) == after.take(it.index() as int),
    {
        let ghost k = it.index() as int;
        let ghost sofar = done@;
        assert(before[k] == bucket@);
        let symbol = bucket.symbol;
        let merged = if symbol.is_line_symbol() {
            let (objects, count) = merge_objects(bucket.objects, nearest, first, delta);
            first = if first <= usize::MAX - count {
                first + count
            } else {
                usize::MAX
            };
            Bucket { symbol, objects }
        } else {
            bucket
        };
        assert(merged@ == after[k]);
        done.push(merged);
        assert(bucket_views(done@) =~= after.take(k + 1)) by {
            assert(bucket_views(done@) =~= bucket_views(sofar).push(merged@));
        }
    }
    proof {
        assert(after.take(before.len() as int) =~= after);
        lemma_merged_buckets_well_kept(before, nv, delta);
    }
    done
}


proof fn lemma_merged_groups_hold(
    groups: Seq<Seq<LineView>>,
    nearest: Seq<Seq<usize>>,
    first: int,
    delta: u64,
    k: nat,
    g: int,
    j: int,
)
    requires
        0 <= g < k <= groups.len(),
        0 <= j < merged(groups[g], answer(nearest, first + g), delta).len(),
    ensures
        merged_groups(groups, nearest, first, delta, k).contains(
            merged(groups[g], answer(nearest, first + g), delta)[j],
        ),
    decreases k,
{
    let before = merged_groups(groups, nearest, first, delta, (k - 1) as nat);
    let last = merged(groups[k - 1], answer(nearest, first + k - 1), delta);
    let x = merged(groups[g], answer(nearest, first + g), delta)[j];
    if g == k - 1 {
        assert((before + last)[before.len() + j] == x);
    } else {
        lemma_merged_groups_hold(groups, nearest, first, delta, (k - 1) as nat, g, j);
        let i = choose|i: int| 0 <= i < before.len() && before[i] == x;
        assert((before + last)[i] == x);
    }
}

proof fn lemma_merged_groups_from(
    groups: Seq<Seq<LineView>>,
    nearest: Seq<Seq<usize>>,
    first: int,
    delta: u64,
    k: nat,
    i: int,
)
    requires
        k <= groups.len(),
        0 <= i < merged_groups(groups, nearest, first, delta, k).len(),
    ensures
        exists|g: int, j: int|
            0 <= g < k && 0 <= j < merged(groups[g], answer(nearest, first + g), delta).len()
                && merged_groups(groups, nearest, first, delta, k)[i] == #[trigger] merged(
                groups[g],
                answer(nearest, first + g),
                delta,
            )[j],
    decreases k,
{
    let before = merged_groups(groups, nearest, first, delta, (k - 1) as nat);
    let last = merged(groups[k - 1], answer(nearest, first + k - 1), delta);
    if i < before.len() {
        lemma_merged_groups_from(groups, nearest, first, delta, (k - 1) as nat, i);
        let (g, j) = choose|g: int, j: int|
            0 <= g < k - 1 && 0 <= j < merged(groups[g], answer(nearest, first + g), delta).len()
                && before[i] == #[trigger] merged(groups[g], answer(nearest, first + g), delta)[j];
        assert(0 <= g < k && (before + last)[i] == merged(groups[g], answer(nearest, first + g), delta)[j]);
    } else {
        let g = k - 1;
        let j = i - before.len();
        assert((before + last)[i] == merged(groups[g], answer(nearest, first + g), delta)[j]);
    }
}

/// What merging does to a group it does to the map: in the bucket numbered
/// `k`, whose symbol draws lines, every line that the group numbered `g`
/// becomes stands in the bucket after merging, and every feature of the
/// bucket after merging is one that was no open line before, or a line that
/// one of the bucket's groups has become. So what holds of every line that
/// a group becomes holds of every merged line of the map.
pub proof fn lemma_buckets_hold_group_lines(
    buckets: Seq<BucketView>,
    nearest: Seq<Seq<usize>>,
    delta: u64,
    k: int,
)
    requires
        0 <= k < buckets.len(),
        buckets[k].symbol.geometry == Geometry::Line,
    ensures
        ({
            let groups = fragment_groups(buckets[k].objects);
            let first = groups_before(buckets, k as nat) as int;
            let after = merged_buckets(buckets, nearest, delta)[k].objects;
            &&& forall|g: int, j: int|
                0 <= g < groups.len() && 0 <= j < merged(groups[g], answer(nearest, first + g), delta).len()
                    ==> after.contains(
                    MapObjectView::Line(#[trigger] merged(groups[g], answer(nearest, first + g), delta)[j]),
                )
            &&& forall|i: int|
                0 <= i < after.len() ==> other_objects(buckets[k].objects, buckets[k].objects.len()).contains(
                    #[trigger] after[i],
                ) || exists|g: int, j: int|
                    0 <= g < groups.len() && 0 <= j < merged(
                        groups[g],
                        answer(nearest, first + g),
                        delta,
                    ).len() && after[i] == MapObjectView::Line(
                        #[trigger] merged(groups[g], answer(nearest, first + g), delta)[j],
                    )
        }),
{
    let objects = buckets[k].objects;
    let groups = fragment_groups(objects);
    let first = groups_before(buckets, k as nat) as int;
    let after = merged_buckets(buckets, nearest, delta)[k].objects;
    let others = other_objects(objects, objects.len());
    let lines = merged_groups(groups, nearest, first, delta, groups.len());
    assert(after == others + as_objects(lines));
    assert forall|g: int, j: int|
        0 <= g < groups.len() && 0 <= j < merged(
            groups[g],
            answer(nearest, first + g),
            delta,
        ).len() implies after.contains(
        MapObjectView::Line(#[trigger] merged(groups[g], answer(nearest, first + g), delta)[j]),
    ) by {
        lemma_merged_groups_hold(groups, nearest, first, delta, groups.len(), g, j);
        let x = merged(groups[g], answer(nearest, first + g), delta)[j];
        let i = choose|i: int| 0 <= i < lines.len() && lines[i] == x;
        assert(after[others.len() + i] == MapObjectView::Line(x));
    }
    assert forall|i: int| 0 <= i < after.len() implies others.contains(#[trigger] after[i]) || exists|
        g: int,
        j: int,
    |
        0 <= g < groups.len() && 0 <= j < merged(groups[g], answer(nearest, first + g), delta).len()
            && after[i] == MapObjectView::Line(
            #[trigger] merged(groups[g], answer(nearest, first + g), delta)[j],
        ) by {
        if i < others.len() {
            assert(others[i] == after[i]);
        } else {
            lemma_merged_groups_from(groups, nearest, first, delta, groups.len(), i - others.len());
            let (g, j) = choose|g: int, j: int|
                0 <= g < groups.len() && 0 <= j < merged(
                    groups[g],
                    answer(nearest, first + g),
                    delta,
                ).len() && lines[i - others.len()] == #[trigger] merged(
                    groups[g],
                    answer(nearest, first + g),
                    delta,
                )[j];
            assert(after[i] == MapObjectView::Line(
                merged(groups[g], answer(nearest, first + g), delta)[j],
            ));
        }
    }
}

} // verus!
