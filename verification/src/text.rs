//! The coordinate grammar of a map file.
//!
//! A position is written as its two paper coordinates with a blank between
//! them, then a blank and a flag where it has one, then a semicolon. The flag
//! 18 closes a ring; the flag 1 starts a curve, and the two positions after
//! it are the curve's handles.

use crate::coord::Coord;
use crate::decimal::{decimal_text, push_int, push_nat, digits_text};
use crate::geodetic::Direction;
use crate::map_coord::{projected, to_map_coordinates};
use crate::tag::{tag_views, Tag, TagView};
use crate::{OmapError, OmapResult, Scale};
use vstd::prelude::*;
use vstd::string::*;

verus! {

/// The flag of the position that closes a ring.
pub const CLOSING: u8 = 18;

/// The flag of the position that starts a curve.
pub const CURVE_START: u8 = 1;

/// One piece of a fitted curve, on the ground: a straight piece from `start`
/// to `end`, or a cubic curve between them with two handles.
#[derive(Clone, Copy, Debug, PartialEq, Eq, Structural)]
pub enum Segment {
    Line { start: Coord, end: Coord },
    Bezier { start: Coord, handle1: Coord, handle2: Coord, end: Coord },
}

/// One piece of a fitted curve, on paper.
#[derive(Clone, Copy, Debug)]
pub enum PaperSegment {
    Line { start: (i32, i32), end: (i32, i32) },
    Bezier { start: (i32, i32), handle1: (i32, i32), handle2: (i32, i32), end: (i32, i32) },
}

impl PaperSegment {
    /// Where the piece ends.
    pub open spec fn end(self) -> (i32, i32) {
        match self {
            PaperSegment::Line { end, .. } => end,
            PaperSegment::Bezier { end, .. } => end,
        }
    }

    /// The number of positions that the piece writes, its end not counted.
    pub open spec fn count(self) -> nat {
        match self {
            PaperSegment::Line { .. } => 1,
            PaperSegment::Bezier { .. } => 3,
        }
    }
}

/// How a map is laid on paper: its scale, its grivation and its combined
/// scale factor in parts per thousand million.
#[derive(Clone, Copy, Debug, PartialEq, Eq, Structural)]
pub struct Layout {
    pub scale: Scale,
    pub grivation: Direction,
    pub combined_scale_factor: u64,
}

/// A position as text.
pub open spec fn vertex_text(p: (i32, i32), flag: Option<u8>) -> Seq<char> {
    decimal_text(p.0 as int) + " "@ + decimal_text(p.1 as int) + match flag {
        Some(f) => " "@ + digits_text(f as nat),
        None => Seq::<char>::empty(),
    } + ";"@
}

/// Positions as text, none with a flag.
pub open spec fn plain_text(points: Seq<(i32, i32)>) -> Seq<char>
    decreases points.len(),
{
    if points.len() == 0 {
        Seq::empty()
    } else {
        plain_text(points.drop_last()) + vertex_text(points.last(), None)
    }
}

/// The flag of the last position of a line.
pub open spec fn closing_flag(closed: bool) -> Option<u8> {
    if closed {
        Some(CLOSING)
    } else {
        None
    }
}

/// A line as text: every position plain, but the last with the closing flag
/// where the line is closed.
pub open spec fn polyline_text(points: Seq<(i32, i32)>, closed: bool) -> Seq<char> {
    if points.len() == 0 {
        Seq::empty()
    } else {
        plain_text(points.drop_last()) + vertex_text(points.last(), closing_flag(closed))
    }
}

/// A piece of a curve as text, its end left out: a straight piece is its
/// start; a curve is its start with the curve flag, then its two handles.
pub open spec fn segment_text(seg: PaperSegment) -> Seq<char> {
    match seg {
        PaperSegment::Line { start, .. } => vertex_text(start, None),
        PaperSegment::Bezier { start, handle1, handle2, .. } => vertex_text(
            start,
            Some(CURVE_START),
        ) + vertex_text(handle1, None) + vertex_text(handle2, None),
    }
}

/// The pieces of a curve as text, each without its end.
pub open spec fn segments_text(segs: Seq<PaperSegment>) -> Seq<char>
    decreases segs.len(),
{
    if segs.len() == 0 {
        Seq::empty()
    } else {
        segments_text(segs.drop_last()) + segment_text(segs.last())
    }
}

/// The number of positions that the pieces of a curve write, ends left out.
pub open spec fn segments_count(segs: Seq<PaperSegment>) -> nat
    decreases segs.len(),
{
    if segs.len() == 0 {
        0
    } else {
        segments_count(segs.drop_last()) + segs.last().count()
    }
}

/// A fitted curve as text: its pieces, then the end of the last piece, with
/// the closing flag where the line it was fitted to is closed.
pub open spec fn curve_text(segs: Seq<PaperSegment>, closed: bool) -> Seq<char> {
    if segs.len() == 0 {
        Seq::empty()
    } else {
        segments_text(segs) + vertex_text(segs.last().end(), closing_flag(closed))
    }
}

/// The number of positions that a fitted curve writes.
pub open spec fn curve_count(segs: Seq<PaperSegment>) -> nat {
    if segs.len() == 0 {
        0
    } else {
        segments_count(segs) + 1
    }
}

/// The element that holds the positions of a feature.
pub open spec fn coords_text(count: nat, body: Seq<char>) -> Seq<char> {
    "<coords count=\""@ + digits_text(count) + "\">"@ + body + "</coords>"@
}

/// One tag as text.
pub open spec fn tag_text(t: TagView) -> Seq<char> {
    "<t k=\""@ + t.key + "\">"@ + t.value + "</t>"@
}

/// Tags as text, one after the other.
pub open spec fn tag_list_text(tags: Seq<TagView>) -> Seq<char>
    decreases tags.len(),
{
    if tags.len() == 0 {
        Seq::empty()
    } else {
        tag_list_text(tags.drop_last()) + tag_text(tags.last())
    }
}

/// The element that holds the tags of a feature; a feature without tags has
/// none.
pub open spec fn tags_text(tags: Seq<TagView>) -> Seq<char> {
    if tags.len() == 0 {
        Seq::empty()
    } else {
        "<tags>"@ + tag_list_text(tags) + "</tags>"@
    }
}

/// The paper positions of ground positions, where a map file can hold them
/// all.
pub open spec fn projected_all(line: Seq<Coord>, layout: Layout) -> Option<Seq<(i32, i32)>>
    decreases line.len(),
{
    if line.len() == 0 {
        Some(Seq::empty())
    } else {
        match (
            projected_all(line.drop_last(), layout),
            projected(line.last(), layout.scale, layout.grivation, layout.combined_scale_factor),
        ) {
            (Some(before), Some(p)) => Some(before.push(p)),
            _ => None,
        }
    }
}

/// A piece of a curve on paper, where a map file can hold its positions.
pub open spec fn projected_segment(seg: Segment, layout: Layout) -> Option<PaperSegment> {
    let on_paper = |c: Coord| projected(c, layout.scale, layout.grivation, layout.combined_scale_factor);
    match seg {
        Segment::Line { start, end } => match (on_paper(start), on_paper(end)) {
            (Some(s), Some(e)) => Some(PaperSegment::Line { start: s, end: e }),
            _ => None,
        },
        Segment::Bezier { start, handle1, handle2, end } => match (
            on_paper(start),
            on_paper(handle1),
            on_paper(handle2),
            on_paper(end),
        ) {
            (Some(s), Some(h1), Some(h2), Some(e)) => Some(
                PaperSegment::Bezier { start: s, handle1: h1, handle2: h2, end: e },
            ),
            _ => None,
        },
    }
}

/// The pieces of a curve on paper, where a map file can hold them all.
pub open spec fn projected_segments(segs: Seq<Segment>, layout: Layout) -> Option<Seq<PaperSegment>>
    decreases segs.len(),
{
    if segs.len() == 0 {
        Some(Seq::empty())
    } else {
        match (projected_segments(segs.drop_last(), layout), projected_segment(segs.last(), layout)) {
            (Some(before), Some(p)) => Some(before.push(p)),
            _ => None,
        }
    }
}

/// The paper positions of a line are those of its positions, one for one,
/// and a line has them exactly where each of its positions has one.
pub proof fn lemma_projected_all(line: Seq<Coord>, layout: Layout)
    ensures
        match projected_all(line, layout) {
            Some(points) => points.len() == line.len() && forall|i: int|
                0 <= i < line.len() ==> projected(
                    #[trigger] line[i],
                    layout.scale,
                    layout.grivation,
                    layout.combined_scale_factor,
                ) == Some(points[i]),
            None => exists|i: int|
                0 <= i < line.len() && projected(
                    #[trigger] line[i],
                    layout.scale,
                    layout.grivation,
                    layout.combined_scale_factor,
                ).is_none(),
        },
    decreases line.len(),
{
    if line.len() > 0 {
        let init = line.drop_last();
        lemma_projected_all(init, layout);
        let last = projected(line.last(), layout.scale, layout.grivation, layout.combined_scale_factor);
        match projected_all(init, layout) {
            Some(before) => {
                match last {
                    Some(p) => {
                        let points = before.push(p);
                        assert forall|i: int| 0 <= i < line.len() implies projected(
                            #[trigger] line[i],
                            layout.scale,
                            layout.grivation,
                            layout.combined_scale_factor,
                        ) == Some(points[i]) by {
                            if i < init.len() {
                                assert(init[i] == line[i]);
                            }
                        }
                    },
                    None => {
                        assert(projected(
                            line[line.len() - 1],
                            layout.scale,
                            layout.grivation,
                            layout.combined_scale_factor,
                        ).is_none());
                    },
                }
            },
            None => {
                let i = choose|i: int|
                    0 <= i < init.len() && projected(
                        #[trigger] init[i],
                        layout.scale,
                        layout.grivation,
                        layout.combined_scale_factor,
                    ).is_none();
                assert(line[i] == init[i]);
            },
        }
    }
}

/// The paper position of a ground position.
pub fn project(c: Coord, layout: &Layout) -> (r: OmapResult<(i32, i32)>)
    ensures
        match r {
            Ok(p) => projected(c, layout.scale, layout.grivation, layout.combined_scale_factor)
                == Some(p),
            Err(e) => e == OmapError::MapCoordinateOverflow && projected(
                c,
                layout.scale,
                layout.grivation,
                layout.combined_scale_factor,
            ).is_none(),
        },
{
    to_map_coordinates(c, layout.scale, &layout.grivation, layout.combined_scale_factor)
}

/// The paper positions of a line. One position that a map file cannot hold
/// fails the whole line.
pub fn project_line(line: &Vec<Coord>, layout: &Layout) -> (r: OmapResult<Vec<(i32, i32)>>)
    ensures
        match r {
            Ok(points) => projected_all(line@, *layout) == Some(points@),
            Err(e) => e == OmapError::MapCoordinateOverflow && projected_all(line@, *layout).is_none(),
        },
{
    let mut points: Vec<(i32, i32)> = Vec::new();
    let mut i: usize = 0;
    while i < line.len()
        invariant
            i <= line.len(),
            projected_all(line@.take(i as int), *layout) == Some(points@),
        decreases line.len() - i,
    {
        let ghost longer = line@.take(i + 1);
        assert(longer.drop_last() =~= line@.take(i as int));
        assert(longer.last() == line@[i as int]);
        match project(line[i], layout) {
            Ok(p) => {
                points.push(p);
            },
            Err(e) => {
                proof {
                    lemma_projected_all_fails(line@, *layout, i + 1);
                }
                return Err(e);
            },
        }
        i += 1;
    }
    assert(line@.take(line.len() as int) =~= line@);
    Ok(points)
}

proof fn lemma_projected_all_fails(line: Seq<Coord>, layout: Layout, k: int)
    requires
        0 <= k <= line.len(),
        projected_all(line.take(k), layout).is_none(),
    ensures
        projected_all(line, layout).is_none(),
    decreases line.len() - k,
{
    if k < line.len() {
        assert(line.take(k + 1).drop_last() =~= line.take(k));
        lemma_projected_all_fails(line, layout, k + 1);
    } else {
        assert(line.take(k) =~= line);
    }
}

/// A piece of a curve on paper.
pub fn project_segment(seg: &Segment, layout: &Layout) -> (r: OmapResult<PaperSegment>)
    ensures
        match r {
            Ok(p) => projected_segment(*seg, *layout) == Some(p),
            Err(e) => e == OmapError::MapCoordinateOverflow && projected_segment(*seg, *layout).is_none(),
        },
{
    match seg {
        Segment::Line { start, end } => {
            let s = project(*start, layout)?;
            let e = project(*end, layout)?;
            Ok(PaperSegment::Line { start: s, end: e })
        },
        Segment::Bezier { start, handle1, handle2, end } => {
            let s = project(*start, layout)?;
            let h1 = project(*handle1, layout)?;
            let h2 = project(*handle2, layout)?;
            let e = project(*end, layout)?;
            Ok(PaperSegment::Bezier { start: s, handle1: h1, handle2: h2, end: e })
        },
    }
}

proof fn lemma_projected_segments_fails(segs: Seq<Segment>, layout: Layout, k: int)
    requires
        0 <= k <= segs.len(),
        projected_segments(segs.take(k), layout).is_none(),
    ensures
        projected_segments(segs, layout).is_none(),
    decreases segs.len() - k,
{
    if k < segs.len() {
        assert(segs.take(k + 1).drop_last() =~= segs.take(k));
        lemma_projected_segments_fails(segs, layout, k + 1);
    } else {
        assert(segs.take(k) =~= segs);
    }
}

/// The pieces of a curve on paper. One position that a map file cannot hold
/// fails the whole curve.
pub fn project_segments(segs: &Vec<Segment>, layout: &Layout) -> (r: OmapResult<Vec<PaperSegment>>)
    ensures
        match r {
            Ok(pieces) => projected_segments(segs@, *layout) == Some(pieces@),
            Err(e) => e == OmapError::MapCoordinateOverflow && projected_segments(segs@, *layout).is_none(),
        },
{
    let mut pieces: Vec<PaperSegment> = Vec::new();
    let mut i: usize = 0;
    while i < segs.len()
        invariant
            i <= segs.len(),
            projected_segments(segs@.take(i as int), *layout) == Some(pieces@),
        decreases segs.len() - i,
    {
        let ghost longer = segs@.take(i + 1);
        assert(longer.drop_last() =~= segs@.take(i as int));
        assert(longer.last() == segs@[i as int]);
        match project_segment(&segs[i], layout) {
            Ok(p) => {
                pieces.push(p);
            },
            Err(e) => {
                proof {
                    lemma_projected_segments_fails(segs@, *layout, i + 1);
                }
                return Err(e);
            },
        }
        i += 1;
    }
    assert(segs@.take(segs.len() as int) =~= segs@);
    Ok(pieces)
}

/// Writes a position.
pub fn push_vertex(out: &mut String, p: (i32, i32), flag: Option<u8>)
    ensures
        final(out)@ == old(out)@ + vertex_text(p, flag),
{
    push_int(out, p.0 as i64);
    out.append(" ");
    push_int(out, p.1 as i64);
    match flag {
        Some(f) => {
            out.append(" ");
            push_nat(out, f as u128);
        },
        None => {},
    }
    out.append(";");
    assert(out@ =~= old(out)@ + vertex_text(p, flag));
}

/// Writes positions, none with a flag.
pub fn push_plain(out: &mut String, points: &Vec<(i32, i32)>, upto: usize)
    requires
        upto <= points.len(),
    ensures
        final(out)@ == old(out)@ + plain_text(points@.take(upto as int)),
{
    let mut i: usize = 0;
    assert(points@.take(0) =~= Seq::empty());
    assert(out@ =~= old(out)@ + plain_text(points@.take(0)));
    while i < upto
        invariant
            i <= upto <= points.len(),
            out@ == old(out)@ + plain_text(points@.take(i as int)),
        decreases upto - i,
    {
        let ghost longer = points@.take(i + 1);
        assert(longer.drop_last() =~= points@.take(i as int));
        assert(longer.last() == points@[i as int]);
        push_vertex(out, points[i], None);
        assert(out@ =~= old(out)@ + plain_text(longer));
        i += 1;
    }
}

/// Writes a line: every position plain, but the last with the closing flag
/// where `closed` says so.
pub fn push_polyline(out: &mut String, points: &Vec<(i32, i32)>, closed: bool)
    ensures
        final(out)@ == old(out)@ + polyline_text(points@, closed),
{
    let n = points.len();
    if n == 0 {
        assert(out@ =~= old(out)@ + polyline_text(points@, closed));
        return ;
    }
    push_plain(out, points, n - 1);
    assert(points@.take(n - 1) =~= points@.drop_last());
    let flag = if closed {
        Some(CLOSING)
    } else {
        None
    };
    push_vertex(out, points[n - 1], flag);
    assert(out@ =~= old(out)@ + polyline_text(points@, closed));
}

/// Where a piece of a curve ends.
pub fn segment_end(seg: &PaperSegment) -> (p: (i32, i32))
    ensures
        p == seg.end(),
{
    match seg {
        PaperSegment::Line { end, .. } => *end,
        PaperSegment::Bezier { end, .. } => *end,
    }
}

/// Writes a piece of a curve without its end.
pub fn push_segment(out: &mut String, seg: &PaperSegment)
    ensures
        final(out)@ == old(out)@ + segment_text(*seg),
{
    match seg {
        PaperSegment::Line { start, .. } => {
            push_vertex(out, *start, None);
        },
        PaperSegment::Bezier { start, handle1, handle2, .. } => {
            push_vertex(out, *start, Some(CURVE_START));
            push_vertex(out, *handle1, None);
            push_vertex(out, *handle2, None);
            assert(out@ =~= old(out)@ + segment_text(*seg));
        },
    }
}

/// Writes a fitted curve: its pieces, then the end of the last piece, with
/// the closing flag where `closed` says so.
pub fn push_curve(out: &mut String, segs: &Vec<PaperSegment>, closed: bool)
    ensures
        final(out)@ == old(out)@ + curve_text(segs@, closed),
{
    let n = segs.len();
    if n == 0 {
        assert(out@ =~= old(out)@ + curve_text(segs@, closed));
        return ;
    }
    let mut i: usize = 0;
    assert(segs@.take(0) =~= Seq::empty());
    assert(out@ =~= old(out)@ + segments_text(segs@.take(0)));
    while i < n
        invariant
            i <= n,
            n == segs.len(),
            out@ == old(out)@ + segments_text(segs@.take(i as int)),
        decreases n - i,
    {
        let ghost longer = segs@.take(i + 1);
        assert(longer.drop_last() =~= segs@.take(i as int));
        assert(longer.last() == segs@[i as int]);
        push_segment(out, &segs[i]);
        assert(out@ =~= old(out)@ + segments_text(longer));
        i += 1;
    }
    assert(segs@.take(n as int) =~= segs@);
    let flag = if closed {
        Some(CLOSING)
    } else {
        None
    };
    push_vertex(out, segment_end(&segs[n - 1]), flag);
    assert(out@ =~= old(out)@ + curve_text(segs@, closed));
}

/// The number of positions that a fitted curve writes, where a machine word
/// holds it.
pub fn count_curve(segs: &Vec<PaperSegment>) -> (r: Option<usize>)
    ensures
        match r {
            Some(c) => c == curve_count(segs@),
            None => curve_count(segs@) > usize::MAX,
        },
{
    let n = segs.len();
    if n == 0 {
        return Some(0);
    }
    let mut count: usize = 0;
    let mut i: usize = 0;
    assert(segs@.take(0) =~= Seq::empty());
    while i < n
        invariant
            i <= n,
            n == segs.len(),
            count == segments_count(segs@.take(i as int)),
        decreases n - i,
    {
        let ghost longer = segs@.take(i + 1);
        assert(longer.drop_last() =~= segs@.take(i as int));
        assert(longer.last() == segs@[i as int]);
        let add: usize = match segs[i] {
            PaperSegment::Line { .. } => 1,
            PaperSegment::Bezier { .. } => 3,
        };
        if count > usize::MAX - add {
            proof {
                lemma_segments_count_grows(segs@, i + 1);
            }
            return None;
        }
        count = count + add;
        i += 1;
    }
    assert(segs@.take(n as int) =~= segs@);
    if count == usize::MAX {
        None
    } else {
        Some(count + 1)
    }
}

proof fn lemma_segments_count_grows(segs: Seq<PaperSegment>, k: int)
    requires
        0 <= k <= segs.len(),
    ensures
        segments_count(segs.take(k)) <= segments_count(segs),
    decreases segs.len() - k,
{
    if k < segs.len() {
        assert(segs.take(k + 1).drop_last() =~= segs.take(k));
        lemma_segments_count_grows(segs, k + 1);
    } else {
        assert(segs.take(k) =~= segs);
    }
}

/// Writes the element that holds the positions of a feature.
pub fn push_coords(out: &mut String, count: usize, body: &str)
    ensures
        final(out)@ == old(out)@ + coords_text(count as nat, body@),
{
    out.append("<coords count=\"");
    push_nat(out, count as u128);
    out.append("\">");
    out.append(body);
    out.append("</coords>");
    assert(out@ =~= old(out)@ + coords_text(count as nat, body@));
}

/// Writes the element that holds the tags of a feature, where it has any.
pub fn push_tags(out: &mut String, tags: &Vec<Tag>)
    ensures
        final(out)@ == old(out)@ + tags_text(tag_views(tags@)),
{
    let ghost views = tag_views(tags@);
    if tags.len() == 0 {
        assert(out@ =~= old(out)@ + tags_text(views));
        return ;
    }
    out.append("<tags>");
    let mut i: usize = 0;
    assert(views.take(0) =~= Seq::empty());
    assert(out@ =~= old(out)@ + "<tags>"@ + tag_list_text(views.take(0)));
    while i < tags.len()
        invariant
            i <= tags.len(),
            views == tag_views(tags@),
            out@ == old(out)@ + "<tags>"@ + tag_list_text(views.take(i as int)),
        decreases tags.len() - i,
    {
        let ghost longer = views.take(i + 1);
        assert(longer.drop_last() =~= views.take(i as int));
        assert(longer.last() == tags@[i as int]@);
        out.append("<t k=\"");
        out.append(tags[i].key.as_str());
        out.append("\">");
        out.append(tags[i].value.as_str());
        out.append("</t>");
        assert(out@ =~= old(out)@ + "<tags>"@ + tag_list_text(longer));
        i += 1;
    }
    assert(views.take(tags.len() as int) =~= views);
    out.append("</tags>");
    assert(out@ =~= old(out)@ + tags_text(views));
}

} // verus!
