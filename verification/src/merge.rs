//! Joining line fragments end to end.
//!
//! A fragment is an open line. Its start is its first position and its end
//! its last. Where the start of one fragment lies within a tolerance of the
//! end of another, the two are joined into one line; where a line's start
//! meets its own end, the line is closed into a ring.

use crate::assembly::assemble;
use crate::coord::{closed, dist_sq, is_closed, within, Coord};
use crate::line_object::{LineObject, LineView};
use crate::links::{
    conflict_free, lemma_link_order_irrelevant, lemma_linked_all_conflict_free, Links, LinksView,
};
use vstd::prelude::*;

verus! {

/// The views of a list of line features, in order.
pub open spec fn line_views(lines: Seq<LineObject>) -> Seq<LineView> {
    lines.map_values(|l: LineObject| l@)
}

/// A line without its first position.
pub open spec fn rest(line: Seq<Coord>) -> Seq<Coord> {
    if line.len() == 0 {
        line
    } else {
        line.drop_first()
    }
}

/// The fragments met from `s` on by following `f`, `s` included, up to the
/// fragment that `f` leads nowhere from, or leads to `stop` from. `fuel`
/// bounds the number of steps.
pub open spec fn walk(f: Seq<usize>, s: usize, stop: usize, fuel: nat) -> Seq<usize>
    decreases fuel,
{
    if fuel == 0 || s >= f.len() || f[s as int] >= f.len() || f[s as int] == stop {
        seq![s]
    } else {
        seq![s] + walk(f, f[s as int], stop, (fuel - 1) as nat)
    }
}

/// The positions of the fragments `ids` laid end to end: the first fragment
/// whole, each later one without its first position, which repeats the end of
/// the one before.
pub open spec fn joined(frags: Seq<LineView>, ids: Seq<usize>) -> Seq<Coord>
    decreases ids.len(),
{
    if ids.len() == 0 {
        Seq::empty()
    } else if ids.len() == 1 {
        frags[ids[0] as int].line
    } else {
        joined(frags, ids.drop_last()) + rest(frags[ids.last() as int].line)
    }
}

/// The fragments of the open chain that ends with `e`, first to last.
pub open spec fn chain_ids(l: LinksView, e: usize) -> Seq<usize> {
    walk(l.prev, e, l.len() as usize, l.len()).reverse()
}

/// The fragments of the ring through `s`, from `s` on.
pub open spec fn ring_ids(l: LinksView, s: usize) -> Seq<usize> {
    walk(l.next, s, s, l.len())
}

/// The line that a list of fragments becomes: their positions laid end to
/// end, under the symbol and the tags of the first.
pub open spec fn line_of(frags: Seq<LineView>, ids: Seq<usize>, ring: bool) -> LineView {
    LineView {
        symbol: frags[ids[0] as int].symbol,
        tags: frags[ids[0] as int].tags,
        line: if ring {
            closed(joined(frags, ids))
        } else {
            joined(frags, ids)
        },
    }
}

/// Whether fragment `i` belongs to an open chain whose last fragment is
/// numbered below `k`.
pub open spec fn on_chain_below(l: LinksView, i: usize, k: nat) -> bool {
    exists|e: usize|
        e < k && e < l.len() && l.next[e as int] == l.len() && (#[trigger] walk(
            l.prev,
            e,
            l.len() as usize,
            l.len(),
        )).contains(i)
}

/// Whether fragment `i` belongs to an open chain.
pub open spec fn on_chain(l: LinksView, i: usize) -> bool {
    on_chain_below(l, i, l.len())
}

/// Whether fragment `i` belongs to a ring that is led by a fragment numbered
/// below `k`.
pub open spec fn in_ring_below(l: LinksView, i: usize, k: nat) -> bool
    decreases k, 0nat,
{
    exists|r: usize| r < k && leads_ring(l, r) && (#[trigger] ring_ids(l, r)).contains(i)
}

/// Whether a ring is written from fragment `s` on: `s` is on no open chain
/// and in no ring led by a fragment with a lower number.
pub open spec fn leads_ring(l: LinksView, s: usize) -> bool
    decreases s, 1nat,
{
    s < l.len() && !on_chain(l, s) && !in_ring_below(l, s, s as nat)
}

/// The open chains whose last fragment is numbered below `k`, as lines, in
/// the order of those last fragments.
pub open spec fn chain_lines(frags: Seq<LineView>, l: LinksView, k: nat) -> Seq<LineView>
    decreases k,
{
    if k == 0 {
        Seq::empty()
    } else {
        let e = (k - 1) as usize;
        let before = chain_lines(frags, l, (k - 1) as nat);
        if e < l.len() && l.next[e as int] == l.len() {
            before.push(line_of(frags, chain_ids(l, e), false))
        } else {
            before
        }
    }
}

/// The rings led by a fragment numbered below `k`, as closed lines, in the
/// order of their leaders.
pub open spec fn ring_lines(frags: Seq<LineView>, l: LinksView, k: nat) -> Seq<LineView>
    decreases k,
{
    if k == 0 {
        Seq::empty()
    } else {
        let s = (k - 1) as usize;
        let before = ring_lines(frags, l, (k - 1) as nat);
        if leads_ring(l, s) {
            before.push(line_of(frags, ring_ids(l, s), true))
        } else {
            before
        }
    }
}

/// The lines that linked fragments become: first the open chains, then the
/// rings.
pub open spec fn assembled(frags: Seq<LineView>, l: LinksView) -> Seq<LineView> {
    chain_lines(frags, l, l.len()) + ring_lines(frags, l, l.len())
}

/// The number of positions in a list of lines.
pub open spec fn total_vertices(lines: Seq<LineView>) -> int
    decreases lines.len(),
{
    if lines.len() == 0 {
        0
    } else {
        total_vertices(lines.drop_last()) + lines.last().line.len()
    }
}

/// The number of rings, among those led by a fragment numbered below `k`,
/// that end away from where they start and so gain a closing position.
pub open spec fn closing_vertices(frags: Seq<LineView>, l: LinksView, k: nat) -> int
    decreases k,
{
    if k == 0 {
        0
    } else {
        let s = (k - 1) as usize;
        closing_vertices(frags, l, (k - 1) as nat) + if leads_ring(l, s) && !is_closed(
            joined(frags, ring_ids(l, s)),
        ) {
            1int
        } else {
            0int
        }
    }
}

/// The number of fragments in the open chains whose last fragment is
/// numbered below `k`, chain by chain.
pub open spec fn chain_parts(l: LinksView, k: nat) -> int
    decreases k,
{
    if k == 0 {
        0
    } else {
        let e = (k - 1) as usize;
        chain_parts(l, (k - 1) as nat) + if e < l.len() && l.next[e as int] == l.len() {
            chain_ids(l, e).len() as int
        } else {
            0int
        }
    }
}

/// The number of fragments in the rings led by a fragment numbered below
/// `k`, ring by ring.
pub open spec fn ring_parts(l: LinksView, k: nat) -> int
    decreases k,
{
    if k == 0 {
        0
    } else {
        let s = (k - 1) as usize;
        ring_parts(l, (k - 1) as nat) + if leads_ring(l, s) {
            ring_ids(l, s).len() as int
        } else {
            0int
        }
    }
}

/// Whether fragment `i` is part of one of the lines: of an open chain, or of
/// a ring.
pub open spec fn placed(l: LinksView, i: usize) -> bool {
    on_chain(l, i) || in_ring_below(l, i, l.len())
}

/// No fragment is used twice: an open chain holds no fragment of a chain
/// before it, a ring holds no fragment of a chain or of a ring before it, and
/// neither holds a fragment twice.
pub open spec fn lines_apart(l: LinksView) -> bool {
    &&& forall|e: usize, i: usize|
        e < l.len() && l.next[e as int] == l.len() && (#[trigger] chain_ids(l, e).contains(i))
            ==> !on_chain_below(l, i, e as nat)
    &&& forall|e: usize|
        e < l.len() && l.next[e as int] == l.len() ==> (#[trigger] chain_ids(l, e)).no_duplicates()
    &&& forall|s: usize, i: usize|
        leads_ring(l, s) && (#[trigger] ring_ids(l, s).contains(i)) ==> !on_chain(l, i)
            && !in_ring_below(l, i, s as nat)
    &&& forall|s: usize| leads_ring(l, s) ==> (#[trigger] ring_ids(l, s)).no_duplicates()
}

/// Every fragment holds at least one position.
pub open spec fn all_nonempty(frags: Seq<LineView>) -> bool {
    forall|i: int| 0 <= i < frags.len() ==> (#[trigger] frags[i]).line.len() >= 1
}

/// Whether the start of fragment `t` may be joined to the end that was
/// reported as nearest to it: the report names a fragment, and that
/// fragment's end lies within `delta` of the start of `t`.
pub open spec fn is_candidate(frags: Seq<LineView>, nearest: Seq<usize>, delta: u64, t: int) -> bool {
    &&& 0 <= t < frags.len()
    &&& t < nearest.len()
    &&& nearest[t] < frags.len()
    &&& frags[t].line.len() >= 1
    &&& frags[nearest[t] as int].line.len() >= 1
    &&& dist_sq(frags[t].line[0], frags[nearest[t] as int].line.last()) <= delta * delta
}

/// The joins to try among the first `k` fragments, in the order of the
/// fragments: `(t, nearest[t])` for each `t` that `is_candidate` admits.
pub open spec fn candidates(frags: Seq<LineView>, nearest: Seq<usize>, delta: u64, k: nat) -> Seq<
    (usize, usize),
>
    decreases k,
{
    if k == 0 {
        Seq::empty()
    } else {
        let before = candidates(frags, nearest, delta, (k - 1) as nat);
        if is_candidate(frags, nearest, delta, k - 1) {
            before.push(((k - 1) as usize, nearest[k - 1]))
        } else {
            before
        }
    }
}

/// Whether the report for fragment `t` is right: it names a fragment of the
/// group, and no end of the group lies nearer to the start of `t` than the
/// end of that fragment.
pub open spec fn is_nearest(frags: Seq<LineView>, nearest: Seq<usize>, t: int) -> bool {
    &&& 0 <= t < frags.len()
    &&& t < nearest.len()
    &&& nearest[t] < frags.len()
    &&& frags[t].line.len() >= 1
    &&& frags[nearest[t] as int].line.len() >= 1
    &&& forall|h: int|
        0 <= h < frags.len() && (#[trigger] frags[h]).line.len() >= 1 ==> dist_sq(
            frags[t].line[0],
            frags[nearest[t] as int].line.last(),
        ) <= dist_sq(frags[t].line[0], frags[h].line.last())
}

/// Whether some end of the group lies within the tolerance of the start of
/// fragment `t`.
pub open spec fn has_end_within(frags: Seq<LineView>, delta: u64, t: int) -> bool {
    exists|h: int|
        0 <= h < frags.len() && (#[trigger] frags[h]).line.len() >= 1 && dist_sq(
            frags[t].line[0],
            frags[h].line.last(),
        ) <= delta * delta
}

/// Under a right report a start is up for a join exactly where some end of
/// the group lies within the tolerance of it, and the end that it is joined
/// to is one than which none lies nearer.
pub proof fn lemma_right_report(frags: Seq<LineView>, nearest: Seq<usize>, delta: u64, t: int)
    requires
        is_nearest(frags, nearest, t),
    ensures
        is_candidate(frags, nearest, delta, t) <==> has_end_within(frags, delta, t),
{
    if has_end_within(frags, delta, t) {
        let h = choose|h: int|
            0 <= h < frags.len() && (#[trigger] frags[h]).line.len() >= 1 && dist_sq(
                frags[t].line[0],
                frags[h].line.last(),
            ) <= delta * delta;
        assert(dist_sq(frags[t].line[0], frags[nearest[t] as int].line.last()) <= dist_sq(
            frags[t].line[0],
            frags[h].line.last(),
        ));
    }
    if is_candidate(frags, nearest, delta, t) {
        let h = nearest[t] as int;
        assert(frags[h].line.len() >= 1);
    }
}

/// The lines that a group of fragments becomes, given for each fragment the
/// end that lies nearest to its start: the joins are tried from the last
/// fragment down, and a join is made where the start and the end it names
/// are both still free.
pub open spec fn merged(frags: Seq<LineView>, nearest: Seq<usize>, delta: u64) -> Seq<LineView> {
    assembled(
        frags,
        LinksView::unlinked(frags.len()).linked_all(candidates(frags, nearest, delta, frags.len())),
    )
}

/// The joins to try in a group of fragments. `nearest[t]` is the number of
/// the fragment whose end was reported as nearest to the start of fragment
/// `t`. The distance is measured again here, so no start is ever joined to an
/// end beyond the tolerance. Whether the reported end is the nearest is not
/// tested: a wrong report can cost a join, and it can join a start to an end
/// that lies within the tolerance though another lies nearer. What a right
/// report is, `is_nearest` says.
pub fn find_merges(frags: &Vec<LineObject>, nearest: &Vec<usize>, delta: u64) -> (queue: Vec<
    (usize, usize),
>)
    ensures
        queue@ == candidates(line_views(frags@), nearest@, delta, frags.len() as nat),
{
    let ghost views = line_views(frags@);
    let mut queue: Vec<(usize, usize)> = Vec::new();
    let mut t: usize = 0;
    while t < frags.len()
        invariant
            t <= frags.len(),
            views == line_views(frags@),
            queue@ == candidates(views, nearest@, delta, t as nat),
        decreases frags.len() - t,
    {
        assert(views[t as int] == frags[t as int]@);
        if t < nearest.len() && nearest[t] < frags.len() {
            let h = nearest[t];
            assert(views[h as int] == frags[h as int]@);
            let tail = &frags[t].line;
            let head = &frags[h].line;
            if tail.len() >= 1 && head.len() >= 1 && within(tail[0], head[head.len() - 1], delta) {
                queue.push((t, h));
            }
        }
        t += 1;
    }
    queue
}

/// Merges a group of fragments: joins each fragment's start to the end that
/// `nearest` reports for it where that end lies within `delta`, and returns
/// the lines that result, open chains first and closed rings after them.
///
/// Every join drops one position, the start that repeats the end it was
/// joined to, and every ring that ends away from its start gains one: the
/// lines hold as many positions as the fragments did where as many rings
/// gained a position as joins dropped one. No fragment is lost and none is
/// used twice.
pub fn merge_fragments(frags: &Vec<LineObject>, nearest: &Vec<usize>, delta: u64) -> (out: Vec<
    LineObject,
>)
    ensures
        line_views(out@) == merged(line_views(frags@), nearest@, delta),
        all_nonempty(line_views(frags@)) ==> total_vertices(line_views(out@)) + frags.len()
            == total_vertices(line_views(frags@)) + out.len() + closing_vertices(
            line_views(frags@),
            LinksView::unlinked(frags.len() as nat).linked_all(
                candidates(line_views(frags@), nearest@, delta, frags.len() as nat),
            ),
            frags.len() as nat,
        ),
        all_nonempty(line_views(frags@)) && frags.len() - out.len() == closing_vertices(
            line_views(frags@),
            LinksView::unlinked(frags.len() as nat).linked_all(
                candidates(line_views(frags@), nearest@, delta, frags.len() as nat),
            ),
            frags.len() as nat,
        ) ==> total_vertices(line_views(out@)) == total_vertices(line_views(frags@)),
        forall|i: usize|
            i < frags.len() ==> #[trigger] placed(
                LinksView::unlinked(frags.len() as nat).linked_all(
                    candidates(line_views(frags@), nearest@, delta, frags.len() as nat),
                ),
                i,
            ),
        lines_apart(
            LinksView::unlinked(frags.len() as nat).linked_all(
                candidates(line_views(frags@), nearest@, delta, frags.len() as nat),
            ),
        ),
{
    let queue = find_merges(frags, nearest, delta);
    let links = Links::link_all(frags.len(), &queue);
    assemble(frags, &links)
}

/// The order of the queue does not matter where no two joins are in each
/// other's way: two queues that hold the same joins, neither with two joins
/// for one start or for one end, give the same lines. A ring is always
/// written from its lowest-numbered fragment on.
pub proof fn lemma_merge_order_irrelevant(
    frags: Seq<LineView>,
    a: Seq<(usize, usize)>,
    b: Seq<(usize, usize)>,
)
    requires
        frags.len() <= usize::MAX,
        a.to_multiset() == b.to_multiset(),
        conflict_free(frags.len(), a),
        conflict_free(frags.len(), b),
    ensures
        assembled(frags, LinksView::unlinked(frags.len()).linked_all(a)) == assembled(
            frags,
            LinksView::unlinked(frags.len()).linked_all(b),
        ),
        assembled(frags, LinksView::unlinked(frags.len()).linked_all(a)).to_multiset() == assembled(
            frags,
            LinksView::unlinked(frags.len()).linked_all(b),
        ).to_multiset(),
{
    lemma_link_order_irrelevant(frags.len(), a, b);
}

proof fn lemma_walk_meets_loop(f: Seq<usize>, g: Seq<usize>, s: usize, stop: usize, fuel: nat, t: usize)
    requires
        (LinksView { next: f, prev: g }).wf(),
        t < f.len(),
        g[t as int] == t,
        walk(f, s, stop, fuel).contains(t),
    ensures
        s == t,
    decreases fuel,
{
    if !(fuel == 0 || s >= f.len() || f[s as int] >= f.len() || f[s as int] == stop) {
        if s != t {
            let w = walk(f, f[s as int], stop, (fuel - 1) as nat);
            let j = choose|j: int| 0 <= j < (seq![s] + w).len() && (seq![s] + w)[j] == t;
            assert(w[j - 1] == t);
            lemma_walk_meets_loop(f, g, f[s as int], stop, (fuel - 1) as nat, t);
            assert(f[s as int] == t);
            assert(g[f[s as int] as int] == s);
        }
    }
}

proof fn lemma_ring_lines_hold(frags: Seq<LineView>, l: LinksView, k: nat, s: usize)
    requires
        s < k,
        leads_ring(l, s),
    ensures
        ring_lines(frags, l, k).contains(line_of(frags, ring_ids(l, s), true)),
    decreases k,
{
    let before = ring_lines(frags, l, (k - 1) as nat);
    if s == k - 1 {
        let x = line_of(frags, ring_ids(l, s), true);
        assert(before.push(x)[before.len() as int] == x);
    } else {
        lemma_ring_lines_hold(frags, l, (k - 1) as nat, s);
        let x = line_of(frags, ring_ids(l, s), true);
        let j = choose|j: int| 0 <= j < before.len() && before[j] == x;
        assert(ring_lines(frags, l, k)[j] == x);
    }
}

/// A fragment whose start is joined to its own end becomes a closed ring by
/// itself: the lines hold the fragment's positions, closed, under its symbol
/// and tags, and the fragment is part of no other chain and no other ring.
pub proof fn lemma_self_join_closes(frags: Seq<LineView>, l: LinksView, t: usize)
    requires
        l.wf(),
        l.len() == frags.len(),
        t < l.len(),
        l.next[t as int] == t,
    ensures
        leads_ring(l, t),
        ring_ids(l, t) == seq![t],
        assembled(frags, l).contains(
            LineView {
                symbol: frags[t as int].symbol,
                tags: frags[t as int].tags,
                line: closed(frags[t as int].line),
            },
        ),
        is_closed(closed(frags[t as int].line)),
        forall|e: usize|
            e < l.len() && l.next[e as int] == l.len() ==> !(#[trigger] chain_ids(l, e)).contains(t),
        forall|r: usize| r != t ==> !(#[trigger] ring_ids(l, r)).contains(t),
{
    let n = l.len();
    assert(l.prev[l.next[t as int] as int] == t);
    assert((LinksView { next: l.prev, prev: l.next }).wf());
    assert forall|e: usize| e < l.len() && l.next[e as int] == l.len() implies !(#[trigger] chain_ids(
        l,
        e,
    )).contains(t) by {
        let back = walk(l.prev, e, n as usize, n);
        if chain_ids(l, e).contains(t) {
            let j = choose|j: int| 0 <= j < back.reverse().len() && back.reverse()[j] == t;
            assert(back[back.len() - 1 - j] == t);
            lemma_walk_meets_loop(l.prev, l.next, e, n as usize, n, t);
        }
    }
    assert forall|r: usize| r != t implies !(#[trigger] ring_ids(l, r)).contains(t) by {
        if ring_ids(l, r).contains(t) {
            lemma_walk_meets_loop(l.next, l.prev, r, r, n, t);
        }
    }
    if on_chain(l, t) {
        let e = choose|e: usize|
            e < n && e < l.len() && l.next[e as int] == l.len() && (#[trigger] walk(
                l.prev,
                e,
                l.len() as usize,
                l.len(),
            )).contains(t);
        lemma_walk_meets_loop(l.prev, l.next, e, n as usize, n, t);
    }
    if in_ring_below(l, t, t as nat) {
        let r = choose|r: usize| r < t && leads_ring(l, r) && (#[trigger] ring_ids(l, r)).contains(t);
        lemma_walk_meets_loop(l.next, l.prev, r, r, n, t);
    }
    assert(ring_ids(l, t) =~= seq![t]);
    lemma_ring_lines_hold(frags, l, n, t);
    let x = line_of(frags, ring_ids(l, t), true);
    let rings = ring_lines(frags, l, n);
    let chains = chain_lines(frags, l, n);
    let j = choose|j: int| 0 <= j < rings.len() && rings[j] == x;
    assert((chains + rings)[chains.len() + j] == x);
    assert(seq![t].drop_last() =~= Seq::<usize>::empty());
    assert(joined(frags, seq![t]) == frags[t as int].line);
}

/// A queue in which no two joins are in each other's way, and which joins
/// the start of fragment `t` to its own end, turns that fragment into a
/// closed ring by itself.
pub proof fn lemma_queued_self_join_closes(frags: Seq<LineView>, queue: Seq<(usize, usize)>, t: usize)
    requires
        frags.len() <= usize::MAX,
        conflict_free(frags.len(), queue),
        queue.contains((t, t)),
    ensures
        assembled(frags, LinksView::unlinked(frags.len()).linked_all(queue)).contains(
            LineView {
                symbol: frags[t as int].symbol,
                tags: frags[t as int].tags,
                line: closed(frags[t as int].line),
            },
        ),
        is_closed(closed(frags[t as int].line)),
{
    let l0 = LinksView::unlinked(frags.len());
    assert(l0.wf());
    lemma_linked_all_conflict_free(l0, queue);
    crate::links::lemma_linked_all_wf(l0, queue);
    let i = choose|i: int| 0 <= i < queue.len() && queue[i] == (t, t);
    assert(l0.linked_all(queue).next[queue[i].1 as int] == queue[i].0);
    lemma_self_join_closes(frags, l0.linked_all(queue), t);
}

proof fn lemma_walk_valid(f: Seq<usize>, s: usize, stop: usize, fuel: nat)
    requires
        s < f.len(),
    ensures
        walk(f, s, stop, fuel).len() >= 1,
        forall|j: int| 0 <= j < walk(f, s, stop, fuel).len() ==> (#[trigger] walk(f, s, stop, fuel)[j])
            < f.len(),
    decreases fuel,
{
    if !(fuel == 0 || s >= f.len() || f[s as int] >= f.len() || f[s as int] == stop) {
        lemma_walk_valid(f, f[s as int], stop, (fuel - 1) as nat);
    }
}

/// Whether a line has the symbol and the tags of one of the fragments.
pub open spec fn headed(frags: Seq<LineView>, line: LineView) -> bool {
    exists|i: int|
        0 <= i < frags.len() && (#[trigger] frags[i]).symbol == line.symbol && frags[i].tags == line.tags
}

/// Every line that linked fragments become has the symbol and the tags of
/// one of the fragments.
pub proof fn lemma_assembled_heads(frags: Seq<LineView>, l: LinksView)
    requires
        frags.len() <= usize::MAX,
        l.len() == frags.len(),
        l.prev.len() == l.next.len(),
    ensures
        forall|k: int| 0 <= k < assembled(frags, l).len() ==> headed(frags, #[trigger] assembled(frags, l)[k]),
{
    lemma_chain_lines_heads(frags, l, l.len());
    lemma_ring_lines_heads(frags, l, l.len());
}

proof fn lemma_chain_lines_heads(frags: Seq<LineView>, l: LinksView, k: nat)
    requires
        frags.len() <= usize::MAX,
        l.len() == frags.len(),
        l.prev.len() == l.next.len(),
        k <= l.len(),
    ensures
        forall|j: int|
            0 <= j < chain_lines(frags, l, k).len() ==> headed(frags, #[trigger] chain_lines(frags, l, k)[j]),
    decreases k,
{
    if k > 0 {
        lemma_chain_lines_heads(frags, l, (k - 1) as nat);
        let e = (k - 1) as usize;
        let before = chain_lines(frags, l, (k - 1) as nat);
        if l.next[e as int] == l.len() {
            let back = walk(l.prev, e, l.len() as usize, l.len());
            lemma_walk_valid(l.prev, e, l.len() as usize, l.len());
            assert(chain_ids(l, e)[0] == back[back.len() - 1]);
            let first = chain_ids(l, e)[0] as int;
            assert(frags[first].symbol == line_of(frags, chain_ids(l, e), false).symbol);
            assert(headed(frags, line_of(frags, chain_ids(l, e), false)));
        }
        assert forall|j: int| 0 <= j < chain_lines(frags, l, k).len() implies headed(
            frags,
            #[trigger] chain_lines(frags, l, k)[j],
        ) by {
            if j < before.len() {
                assert(headed(frags, before[j]));
            }
        }
    }
}

proof fn lemma_ring_lines_heads(frags: Seq<LineView>, l: LinksView, k: nat)
    requires
        frags.len() <= usize::MAX,
        l.len() == frags.len(),
        k <= l.len(),
    ensures
        forall|j: int|
            0 <= j < ring_lines(frags, l, k).len() ==> headed(frags, #[trigger] ring_lines(frags, l, k)[j]),
    decreases k,
{
    if k > 0 {
        lemma_ring_lines_heads(frags, l, (k - 1) as nat);
        let s = (k - 1) as usize;
        let before = ring_lines(frags, l, (k - 1) as nat);
        lemma_walk_valid(l.next, s, s, l.len());
        let first = ring_ids(l, s)[0] as int;
        assert(frags[first].symbol == line_of(frags, ring_ids(l, s), true).symbol);
        assert(headed(frags, line_of(frags, ring_ids(l, s), true)));
        assert forall|j: int| 0 <= j < ring_lines(frags, l, k).len() implies headed(
            frags,
            #[trigger] ring_lines(frags, l, k)[j],
        ) by {
            if j < before.len() {
                assert(headed(frags, before[j]));
            }
        }
    }
}

/// Every line that linked fragments become has the symbol of one of the
/// fragments: where all fragments have one code, so have all lines.
pub proof fn lemma_assembled_code(frags: Seq<LineView>, l: LinksView, c: u16)
    requires
        frags.len() <= usize::MAX,
        l.len() == frags.len(),
        l.prev.len() == l.next.len(),
        forall|i: int| 0 <= i < frags.len() ==> (#[trigger] frags[i]).symbol.code == c,
    ensures
        forall|k: int|
            0 <= k < assembled(frags, l).len() ==> (#[trigger] assembled(frags, l)[k]).symbol.code == c,
{
    lemma_assembled_heads(frags, l);
    assert forall|k: int| 0 <= k < assembled(frags, l).len() implies (#[trigger] assembled(
        frags,
        l,
    )[k]).symbol.code == c by {
        assert(headed(frags, assembled(frags, l)[k]));
    }
}

/// Every line that a group of fragments becomes has the symbol and the tags
/// of one of the fragments.
pub proof fn lemma_merged_heads(frags: Seq<LineView>, nearest: Seq<usize>, delta: u64)
    requires
        frags.len() <= usize::MAX,
    ensures
        forall|k: int|
            0 <= k < merged(frags, nearest, delta).len() ==> headed(
                frags,
                #[trigger] merged(frags, nearest, delta)[k],
            ),
{
    let l0 = LinksView::unlinked(frags.len());
    assert(l0.wf());
    crate::links::lemma_linked_all_wf(l0, candidates(frags, nearest, delta, frags.len()));
    lemma_assembled_heads(frags, l0.linked_all(candidates(frags, nearest, delta, frags.len())));
}

/// Every line that a group of fragments becomes has the symbol of one of
/// the fragments: where all fragments have one code, so have all lines.
pub proof fn lemma_merged_code(frags: Seq<LineView>, nearest: Seq<usize>, delta: u64, c: u16)
    requires
        frags.len() <= usize::MAX,
        forall|i: int| 0 <= i < frags.len() ==> (#[trigger] frags[i]).symbol.code == c,
    ensures
        forall|k: int|
            0 <= k < merged(frags, nearest, delta).len() ==> (#[trigger] merged(
                frags,
                nearest,
                delta,
            )[k]).symbol.code == c,
{
    let l0 = LinksView::unlinked(frags.len());
    assert(l0.wf());
    crate::links::lemma_linked_all_wf(l0, candidates(frags, nearest, delta, frags.len()));
    lemma_assembled_code(frags, l0.linked_all(candidates(frags, nearest, delta, frags.len())), c);
}

proof fn lemma_unlinked_chains(frags: Seq<LineView>, k: nat)
    requires
        k <= frags.len() <= usize::MAX,
    ensures
        chain_lines(frags, LinksView::unlinked(frags.len()), k) == frags.take(k as int),
        forall|i: usize| i < k ==> on_chain_below(LinksView::unlinked(frags.len()), i, k),
    decreases k,
{
    let l = LinksView::unlinked(frags.len());
    if k == 0 {
        assert(frags.take(0) =~= Seq::empty());
    } else {
        lemma_unlinked_chains(frags, (k - 1) as nat);
        let e = (k - 1) as usize;
        let back = walk(l.prev, e, l.len() as usize, l.len());
        assert(back =~= seq![e]);
        assert(chain_ids(l, e) =~= seq![e]);
        assert(seq![e].drop_last() =~= Seq::<usize>::empty());
        assert(joined(frags, seq![e]) == frags[e as int].line);
        assert(line_of(frags, chain_ids(l, e), false) == frags[e as int]);
        assert(frags.take(k as int) =~= frags.take(k - 1).push(frags[e as int]));
        assert forall|i: usize| i < k implies on_chain_below(l, i, k) by {
            if i < k - 1 {
                assert(on_chain_below(l, i, (k - 1) as nat));
                let w = choose|w: usize|
                    w < k - 1 && w < l.len() && l.next[w as int] == l.len() && (#[trigger] walk(
                        l.prev,
                        w,
                        l.len() as usize,
                        l.len(),
                    )).contains(i);
                assert(w < k && walk(l.prev, w, l.len() as usize, l.len()).contains(i));
            } else {
                assert(back[0] == i);
                assert(back.contains(i));
            }
        }
    }
}

proof fn lemma_unlinked_rings(frags: Seq<LineView>, k: nat)
    requires
        k <= frags.len() <= usize::MAX,
    ensures
        ring_lines(frags, LinksView::unlinked(frags.len()), k) == Seq::<LineView>::empty(),
    decreases k,
{
    if k > 0 {
        lemma_unlinked_rings(frags, (k - 1) as nat);
        lemma_unlinked_chains(frags, frags.len());
        assert(on_chain(LinksView::unlinked(frags.len()), (k - 1) as usize));
    }
}

/// Fragments of which none is joined to any other stay as they are: the
/// lines are the fragments, in their order.
pub proof fn lemma_unlinked_unchanged(frags: Seq<LineView>)
    requires
        frags.len() <= usize::MAX,
    ensures
        assembled(frags, LinksView::unlinked(frags.len())) == frags,
{
    lemma_unlinked_chains(frags, frags.len());
    lemma_unlinked_rings(frags, frags.len());
    assert(frags.take(frags.len() as int) =~= frags);
    assert(frags + Seq::<LineView>::empty() =~= frags);
}

proof fn lemma_no_candidates(frags: Seq<LineView>, nearest: Seq<usize>, delta: u64, k: nat)
    requires
        forall|t: int| 0 <= t < k ==> !is_candidate(frags, nearest, delta, t),
    ensures
        candidates(frags, nearest, delta, k) == Seq::<(usize, usize)>::empty(),
    decreases k,
{
    if k > 0 {
        lemma_no_candidates(frags, nearest, delta, (k - 1) as nat);
    }
}

/// Where no start lies within the tolerance of the end reported for it,
/// merging changes nothing: the lines are the fragments, in their order, and
/// hold as many positions as before.
pub proof fn lemma_nothing_to_merge(frags: Seq<LineView>, nearest: Seq<usize>, delta: u64)
    requires
        frags.len() <= usize::MAX,
        forall|t: int| 0 <= t < frags.len() ==> !is_candidate(frags, nearest, delta, t),
    ensures
        merged(frags, nearest, delta) == frags,
        total_vertices(merged(frags, nearest, delta)) == total_vertices(frags),
{
    lemma_no_candidates(frags, nearest, delta, frags.len());
    lemma_unlinked_unchanged(frags);
}

proof fn lemma_linked_all_keeps(l: LinksView, queue: Seq<(usize, usize)>, h: usize)
    requires
        l.wf(),
        h < l.len(),
        l.next[h as int] < l.len(),
    ensures
        l.linked_all(queue).next[h as int] == l.next[h as int],
    decreases queue.len(),
{
    if queue.len() > 0 {
        let m = l.linked(queue.last().0, queue.last().1);
        crate::links::lemma_linked_wf(l, queue.last().0, queue.last().1);
        lemma_linked_all_keeps(m, queue.drop_last(), h);
    }
}

proof fn lemma_self_candidate_links(
    frags: Seq<LineView>,
    nearest: Seq<usize>,
    delta: u64,
    t: usize,
    k: nat,
    l: LinksView,
)
    requires
        l.wf(),
        l.len() == frags.len(),
        t < k <= frags.len(),
        l.next[t as int] == l.len(),
        l.prev[t as int] == l.len(),
        is_candidate(frags, nearest, delta, t as int),
        nearest[t as int] == t,
        forall|u: int| t < u < frags.len() && is_candidate(frags, nearest, delta, u) ==> nearest[u] != t,
    ensures
        l.linked_all(candidates(frags, nearest, delta, k)).next[t as int] == t,
    decreases k,
{
    let queue = candidates(frags, nearest, delta, k);
    let before = candidates(frags, nearest, delta, (k - 1) as nat);
    if k == t + 1 {
        assert(queue == before.push((t, t)));
        assert(queue.drop_last() =~= before);
        let m = l.linked(t, t);
        crate::links::lemma_linked_wf(l, t, t);
        lemma_linked_all_keeps(m, before, t);
    } else if is_candidate(frags, nearest, delta, k - 1) {
        let join = ((k - 1) as usize, nearest[k - 1]);
        assert(queue == before.push(join));
        assert(queue.drop_last() =~= before);
        let m = l.linked(join.0, join.1);
        crate::links::lemma_linked_wf(l, join.0, join.1);
        lemma_self_candidate_links(frags, nearest, delta, t, (k - 1) as nat, m);
    } else {
        lemma_self_candidate_links(frags, nearest, delta, t, (k - 1) as nat, l);
    }
}

/// A fragment whose start lies within the tolerance of its own end, and
/// whose end is the nearest to that start and reported so, is closed into a
/// ring by
/// itself, unless a later fragment of the group is joined to that end first:
/// the lines then hold the fragment's positions, closed, under its symbol and
/// tags, and the fragment is part of that ring alone: of no open chain and of
/// no other ring.
pub proof fn lemma_self_meeting_closes(frags: Seq<LineView>, nearest: Seq<usize>, delta: u64, t: usize)
    requires
        frags.len() <= usize::MAX,
        is_nearest(frags, nearest, t as int),
        is_candidate(frags, nearest, delta, t as int),
        nearest[t as int] == t,
        forall|u: int| t < u < frags.len() && is_candidate(frags, nearest, delta, u) ==> nearest[u] != t,
    ensures
        merged(frags, nearest, delta).contains(
            LineView {
                symbol: frags[t as int].symbol,
                tags: frags[t as int].tags,
                line: closed(frags[t as int].line),
            },
        ),
        is_closed(closed(frags[t as int].line)),
        closed(frags[t as int].line).first() == closed(frags[t as int].line).last(),
        ({
            let l = LinksView::unlinked(frags.len()).linked_all(
                candidates(frags, nearest, delta, frags.len()),
            );
            &&& leads_ring(l, t)
            &&& ring_ids(l, t) == seq![t]
            &&& forall|e: usize|
                e < l.len() && l.next[e as int] == l.len() ==> !(#[trigger] chain_ids(l, e)).contains(t)
            &&& forall|r: usize| r != t ==> !(#[trigger] ring_ids(l, r)).contains(t)
        }),
{
    let l0 = LinksView::unlinked(frags.len());
    let queue = candidates(frags, nearest, delta, frags.len());
    assert(l0.wf());
    lemma_self_candidate_links(frags, nearest, delta, t, frags.len(), l0);
    crate::links::lemma_linked_all_wf(l0, queue);
    lemma_self_join_closes(frags, l0.linked_all(queue), t);
}


/// Whether a line is made of fragments of a group and of nothing else: it is
/// what some of the fragments become, laid end to end.
pub open spec fn made_of(frags: Seq<LineView>, line: LineView) -> bool {
    exists|ids: Seq<usize>, ring: bool|
        ids.len() >= 1 && (forall|j: int| 0 <= j < ids.len() ==> ids[j] < frags.len()) && line
            == #[trigger] line_of(frags, ids, ring)
}

proof fn lemma_chain_lines_made(frags: Seq<LineView>, l: LinksView, k: nat)
    requires
        frags.len() <= usize::MAX,
        l.len() == frags.len(),
        l.prev.len() == l.next.len(),
        k <= l.len(),
    ensures
        forall|j: int|
            0 <= j < chain_lines(frags, l, k).len() ==> made_of(frags, #[trigger] chain_lines(frags, l, k)[j]),
    decreases k,
{
    if k > 0 {
        lemma_chain_lines_made(frags, l, (k - 1) as nat);
        let e = (k - 1) as usize;
        let before = chain_lines(frags, l, (k - 1) as nat);
        if l.next[e as int] == l.len() {
            let back = walk(l.prev, e, l.len() as usize, l.len());
            lemma_walk_valid(l.prev, e, l.len() as usize, l.len());
            let ids = chain_ids(l, e);
            assert forall|j: int| 0 <= j < ids.len() implies ids[j] < frags.len() by {
                assert(ids[j] == back[back.len() - 1 - j]);
            }
            assert(made_of(frags, line_of(frags, ids, false)));
        }
        assert forall|j: int| 0 <= j < chain_lines(frags, l, k).len() implies made_of(
            frags,
            #[trigger] chain_lines(frags, l, k)[j],
        ) by {
            if j < before.len() {
                assert(made_of(frags, before[j]));
            }
        }
    }
}

proof fn lemma_ring_lines_made(frags: Seq<LineView>, l: LinksView, k: nat)
    requires
        frags.len() <= usize::MAX,
        l.len() == frags.len(),
        k <= l.len(),
    ensures
        forall|j: int|
            0 <= j < ring_lines(frags, l, k).len() ==> made_of(frags, #[trigger] ring_lines(frags, l, k)[j]),
    decreases k,
{
    if k > 0 {
        lemma_ring_lines_made(frags, l, (k - 1) as nat);
        let s = (k - 1) as usize;
        let before = ring_lines(frags, l, (k - 1) as nat);
        lemma_walk_valid(l.next, s, s, l.len());
        assert(made_of(frags, line_of(frags, ring_ids(l, s), true)));
        assert forall|j: int| 0 <= j < ring_lines(frags, l, k).len() implies made_of(
            frags,
            #[trigger] ring_lines(frags, l, k)[j],
        ) by {
            if j < before.len() {
                assert(made_of(frags, before[j]));
            }
        }
    }
}

/// Every line that a group of fragments becomes is made of fragments of
/// that group and of nothing else.
pub proof fn lemma_merged_made_of(frags: Seq<LineView>, nearest: Seq<usize>, delta: u64)
    requires
        frags.len() <= usize::MAX,
    ensures
        forall|k: int|
            0 <= k < merged(frags, nearest, delta).len() ==> made_of(
                frags,
                #[trigger] merged(frags, nearest, delta)[k],
            ),
{
    let l0 = LinksView::unlinked(frags.len());
    assert(l0.wf());
    let l = l0.linked_all(candidates(frags, nearest, delta, frags.len()));
    crate::links::lemma_linked_all_wf(l0, candidates(frags, nearest, delta, frags.len()));
    lemma_chain_lines_made(frags, l, l.len());
    lemma_ring_lines_made(frags, l, l.len());
}

proof fn lemma_chain_lines_hold(frags: Seq<LineView>, l: LinksView, k: nat, e: usize)
    requires
        e < k,
        e < l.len(),
        l.next[e as int] == l.len(),
    ensures
        chain_lines(frags, l, k).contains(line_of(frags, chain_ids(l, e), false)),
    decreases k,
{
    let before = chain_lines(frags, l, (k - 1) as nat);
    let x = line_of(frags, chain_ids(l, e), false);
    if e == k - 1 {
        assert(before.push(x)[before.len() as int] == x);
    } else {
        lemma_chain_lines_hold(frags, l, (k - 1) as nat, e);
        let j = choose|j: int| 0 <= j < before.len() && before[j] == x;
        assert(chain_lines(frags, l, k)[j] == x);
    }
}

proof fn lemma_links_untouched(
    frags: Seq<LineView>,
    nearest: Seq<usize>,
    delta: u64,
    x: usize,
    k: nat,
    l: LinksView,
)
    requires
        l.wf(),
        l.len() == frags.len(),
        k <= frags.len() <= usize::MAX,
        x < frags.len(),
    ensures
        (forall|u: int| 0 <= u < k && is_candidate(frags, nearest, delta, u) ==> nearest[u] != x)
            ==> l.linked_all(candidates(frags, nearest, delta, k)).next[x as int] == l.next[x as int],
        (forall|u: int| 0 <= u < k && is_candidate(frags, nearest, delta, u) ==> u != x) ==> l.linked_all(
            candidates(frags, nearest, delta, k),
        ).prev[x as int] == l.prev[x as int],
    decreases k,
{
    if k > 0 {
        let queue = candidates(frags, nearest, delta, k);
        let before = candidates(frags, nearest, delta, (k - 1) as nat);
        if is_candidate(frags, nearest, delta, k - 1) {
            let join = ((k - 1) as usize, nearest[k - 1]);
            assert(queue == before.push(join));
            assert(queue.drop_last() =~= before);
            let m = l.linked(join.0, join.1);
            crate::links::lemma_linked_wf(l, join.0, join.1);
            lemma_links_untouched(frags, nearest, delta, x, (k - 1) as nat, m);
        } else {
            lemma_links_untouched(frags, nearest, delta, x, (k - 1) as nat, l);
        }
    }
}

/// Whoever is met on a walk after its start comes from one who is met on
/// the walk too.
proof fn lemma_walk_back(f: Seq<usize>, g: Seq<usize>, s: usize, stop: usize, fuel: nat, x: usize)
    requires
        (LinksView { next: f, prev: g }).wf(),
        walk(f, s, stop, fuel).contains(x),
    ensures
        x != s ==> x < f.len() && g[x as int] < f.len() && walk(f, s, stop, fuel).contains(g[x as int]),
    decreases fuel,
{
    if !(fuel == 0 || s >= f.len() || f[s as int] >= f.len() || f[s as int] == stop) {
        if x != s {
            let next = f[s as int];
            let w = walk(f, next, stop, (fuel - 1) as nat);
            let whole = seq![s] + w;
            let j = choose|j: int| 0 <= j < whole.len() && whole[j] == x;
            assert(w[j - 1] == x);
            assert(g[next as int] == s);
            if x == next {
                assert(whole[0] == s);
            } else {
                lemma_walk_back(f, g, next, stop, (fuel - 1) as nat, x);
                let i = choose|i: int| 0 <= i < w.len() && w[i] == g[x as int];
                assert(whole[i + 1] == g[x as int]);
            }
        }
    }
}

/// Whether nothing but the join of `t` to `h` has a part for either of the
/// two: no other start is up for a join to the end of `h` or of `t`, and the
/// start of `h` is up for none.
pub open spec fn pair_alone(frags: Seq<LineView>, nearest: Seq<usize>, delta: u64, t: usize, h: usize) -> bool {
    forall|u: int|
        0 <= u < frags.len() && u != t && #[trigger] is_candidate(frags, nearest, delta, u) ==> u != h
            && nearest[u] != t && nearest[u] != h
}

proof fn lemma_pair_links(
    frags: Seq<LineView>,
    nearest: Seq<usize>,
    delta: u64,
    t: usize,
    h: usize,
    k: nat,
    l: LinksView,
)
    requires
        l.wf(),
        l.len() == frags.len(),
        t < k <= frags.len() <= usize::MAX,
        t != h,
        is_candidate(frags, nearest, delta, t as int),
        nearest[t as int] == h,
        pair_alone(frags, nearest, delta, t, h),
        l.next[h as int] == l.len(),
        l.prev[t as int] == l.len(),
        l.next[t as int] == l.len(),
        l.prev[h as int] == l.len(),
    ensures
        l.linked_all(candidates(frags, nearest, delta, k)).next[h as int] == t,
        l.linked_all(candidates(frags, nearest, delta, k)).prev[t as int] == h,
        l.linked_all(candidates(frags, nearest, delta, k)).next[t as int] == l.len(),
        l.linked_all(candidates(frags, nearest, delta, k)).prev[h as int] == l.len(),
    decreases k,
{
    let queue = candidates(frags, nearest, delta, k);
    let before = candidates(frags, nearest, delta, (k - 1) as nat);
    if k == t + 1 {
        assert(queue == before.push((t, h)));
        assert(queue.drop_last() =~= before);
        let m = l.linked(t, h);
        crate::links::lemma_linked_wf(l, t, h);
        assert forall|u: int| 0 <= u < t && is_candidate(frags, nearest, delta, u) implies u != h
            && nearest[u] != t && nearest[u] != h by {}
        lemma_links_untouched(frags, nearest, delta, h, t as nat, m);
        lemma_links_untouched(frags, nearest, delta, t, t as nat, m);
    } else if is_candidate(frags, nearest, delta, k - 1) {
        let join = ((k - 1) as usize, nearest[k - 1]);
        assert(queue == before.push(join));
        assert(queue.drop_last() =~= before);
        let m = l.linked(join.0, join.1);
        crate::links::lemma_linked_wf(l, join.0, join.1);
        lemma_pair_links(frags, nearest, delta, t, h, (k - 1) as nat, m);
    } else {
        lemma_pair_links(frags, nearest, delta, t, h, (k - 1) as nat, l);
    }
}

/// Two fragments of which the one starts within the tolerance of the end of
/// the other, that end being the nearest and reported so, become one line
/// where neither has a part in another join: the positions of the first,
/// then those of the second without its start, under the symbol and the tags
/// of the first. The tags of the second are dropped. Whatever else is joined
/// in the group, the two are parts of that line alone: of no other open
/// chain and of no ring.
pub proof fn lemma_pair_joins(frags: Seq<LineView>, nearest: Seq<usize>, delta: u64, t: usize, h: usize)
    requires
        frags.len() <= usize::MAX,
        t != h,
        is_nearest(frags, nearest, t as int),
        is_candidate(frags, nearest, delta, t as int),
        nearest[t as int] == h,
        pair_alone(frags, nearest, delta, t, h),
    ensures
        merged(frags, nearest, delta).contains(
            LineView {
                symbol: frags[h as int].symbol,
                tags: frags[h as int].tags,
                line: frags[h as int].line + rest(frags[t as int].line),
            },
        ),
        ({
            let l = LinksView::unlinked(frags.len()).linked_all(
                candidates(frags, nearest, delta, frags.len()),
            );
            &&& l.next[t as int] == l.len()
            &&& chain_ids(l, t) == seq![h, t]
            &&& forall|e: usize|
                e < l.len() && l.next[e as int] == l.len() && e != t ==> !(#[trigger] chain_ids(
                    l,
                    e,
                )).contains(t) && !chain_ids(l, e).contains(h)
            &&& forall|r: usize|
                leads_ring(l, r) ==> !(#[trigger] ring_ids(l, r)).contains(t) && !ring_ids(l, r).contains(
                    h,
                )
        }),
{
    let n = frags.len();
    let l0 = LinksView::unlinked(n);
    let queue = candidates(frags, nearest, delta, n);
    assert(l0.wf());
    lemma_pair_links(frags, nearest, delta, t, h, n, l0);
    crate::links::lemma_linked_all_wf(l0, queue);
    let l = l0.linked_all(queue);
    assert((LinksView { next: l.prev, prev: l.next }).wf());
    assert forall|e: usize| e < l.len() && l.next[e as int] == l.len() && e != t implies !(
    #[trigger] chain_ids(l, e)).contains(t) && !chain_ids(l, e).contains(h) by {
        let w = walk(l.prev, e, n as usize, n);
        if chain_ids(l, e).contains(t) {
            let j = choose|j: int| 0 <= j < w.reverse().len() && w.reverse()[j] == t;
            assert(w[w.len() - 1 - j] == t);
            lemma_walk_back(l.prev, l.next, e, n as usize, n, t);
        }
        if chain_ids(l, e).contains(h) {
            let j = choose|j: int| 0 <= j < w.reverse().len() && w.reverse()[j] == h;
            assert(w[w.len() - 1 - j] == h);
            lemma_walk_back(l.prev, l.next, e, n as usize, n, h);
            lemma_walk_back(l.prev, l.next, e, n as usize, n, t);
        }
    }
    assert(walk(l.prev, t, n as usize, n).contains(h) && walk(l.prev, t, n as usize, n).contains(t)) by {
        reveal_with_fuel(walk, 3);
        let w = walk(l.prev, t, n as usize, n);
        assert(w =~= seq![t, h]);
        assert(w[0] == t && w[1] == h);
    }
    assert(on_chain(l, t) && on_chain(l, h));
    assert forall|r: usize| leads_ring(l, r) implies !(#[trigger] ring_ids(l, r)).contains(t)
        && !ring_ids(l, r).contains(h) by {
        if ring_ids(l, r).contains(h) {
            lemma_walk_back(l.next, l.prev, r, r, n, h);
        }
        if ring_ids(l, r).contains(t) {
            lemma_walk_back(l.next, l.prev, r, r, n, t);
            lemma_walk_back(l.next, l.prev, r, r, n, h);
        }
    }
    let back = walk(l.prev, t, n as usize, n);
    reveal_with_fuel(walk, 3);
    assert(n >= 2);
    assert(back =~= seq![t, h]);
    let ids = chain_ids(l, t);
    assert(ids =~= seq![h, t]);
    assert(ids.drop_last() =~= seq![h]);
    assert(seq![h].drop_last() =~= Seq::<usize>::empty());
    assert(joined(frags, seq![h]) == frags[h as int].line);
    assert(joined(frags, ids) == frags[h as int].line + rest(frags[t as int].line));
    lemma_chain_lines_hold(frags, l, n, t);
    let chains = chain_lines(frags, l, n);
    let x = line_of(frags, ids, false);
    let j = choose|j: int| 0 <= j < chains.len() && chains[j] == x;
    assert((chains + ring_lines(frags, l, n))[j] == x);
}

} // verus!
