//! From links to lines.
//!
//! The fragments are gone through twice. The first pass takes each fragment
//! that ends an open chain and walks back to the chain's start; the second
//! takes each fragment that is still left, which then lies on a ring, and
//! walks round the ring. A flag for each fragment tells whether a walk has
//! taken it, and the sums of the flagged tell how much has been written.

use crate::coord::{close_line, copy_line, is_closed, Coord};
use crate::line_object::{LineObject, LineView};
use crate::links::{Links, LinksView};
use crate::merge::{
    all_nonempty, assembled, chain_ids, chain_lines, chain_parts, closing_vertices, in_ring_below,
    joined, leads_ring, line_of, line_views, lines_apart, on_chain, on_chain_below, placed, rest,
    ring_ids, ring_lines, ring_parts, total_vertices, walk,
};
use crate::tag::copy_tags;
use vstd::prelude::*;

verus! {

/// The sum of the weights `w` of the flagged numbers.
spec fn weight(flags: Seq<bool>, w: Seq<int>) -> int
    decreases flags.len(),
{
    if flags.len() == 0 {
        0
    } else {
        weight(flags.drop_last(), w) + if flags.last() {
            w[flags.len() - 1]
        } else {
            0
        }
    }
}

/// The sum of the weights `w` of the numbers `ids`.
spec fn ids_weight(ids: Seq<usize>, w: Seq<int>) -> int
    decreases ids.len(),
{
    if ids.len() == 0 {
        0
    } else {
        ids_weight(ids.drop_last(), w) + w[ids.last() as int]
    }
}

/// The weight one for each of `n` numbers.
spec fn ones(n: nat) -> Seq<int> {
    Seq::new(n, |i: int| 1int)
}

/// The number of positions of each fragment.
spec fn lens(frags: Seq<LineView>) -> Seq<int> {
    Seq::new(frags.len(), |i: int| frags[i].line.len() as int)
}

proof fn lemma_weight_update(flags: Seq<bool>, w: Seq<int>, j: int)
    requires
        0 <= j < flags.len(),
        !flags[j],
    ensures
        weight(flags.update(j, true), w) == weight(flags, w) + w[j],
    decreases flags.len(),
{
    let after = flags.update(j, true);
    if j == flags.len() - 1 {
        assert(after.drop_last() =~= flags.drop_last());
    } else {
        assert(after.drop_last() =~= flags.drop_last().update(j, true));
        lemma_weight_update(flags.drop_last(), w, j);
    }
}

proof fn lemma_count_bound(flags: Seq<bool>, n: nat)
    requires
        flags.len() <= n,
    ensures
        0 <= weight(flags, ones(n)) <= flags.len(),
    decreases flags.len(),
{
    if flags.len() > 0 {
        lemma_count_bound(flags.drop_last(), n);
    }
}

proof fn lemma_weight_none(flags: Seq<bool>, w: Seq<int>)
    requires
        forall|i: int| 0 <= i < flags.len() ==> !flags[i],
    ensures
        weight(flags, w) == 0,
    decreases flags.len(),
{
    if flags.len() > 0 {
        lemma_weight_none(flags.drop_last(), w);
    }
}

proof fn lemma_weight_all(frags: Seq<LineView>, flags: Seq<bool>, k: nat)
    requires
        k <= frags.len(),
        flags.len() == k,
        forall|i: int| 0 <= i < k ==> flags[i],
    ensures
        weight(flags, lens(frags)) == total_vertices(frags.take(k as int)),
        weight(flags, ones(frags.len())) == k,
    decreases k,
{
    if k > 0 {
        lemma_weight_all(frags, flags.drop_last(), (k - 1) as nat);
        assert(frags.take(k as int).drop_last() =~= frags.take(k - 1));
    }
}

proof fn lemma_ids_weight_add(a: Seq<usize>, b: Seq<usize>, w: Seq<int>)
    ensures
        ids_weight(a + b, w) == ids_weight(a, w) + ids_weight(b, w),
    decreases b.len(),
{
    if b.len() == 0 {
        assert(a + b =~= a);
    } else {
        assert((a + b).drop_last() =~= a + b.drop_last());
        lemma_ids_weight_add(a, b.drop_last(), w);
    }
}

proof fn lemma_ids_weight_reverse(ids: Seq<usize>, w: Seq<int>)
    ensures
        ids_weight(ids.reverse(), w) == ids_weight(ids, w),
    decreases ids.len(),
{
    if ids.len() > 0 {
        let init = ids.drop_last();
        let x = ids.last();
        assert(ids.reverse() =~= seq![x] + init.reverse());
        lemma_ids_weight_add(seq![x], init.reverse(), w);
        lemma_ids_weight_reverse(init, w);
        assert(seq![x].drop_last() =~= Seq::<usize>::empty());
        assert(seq![x].last() == x);
        assert(ids_weight(Seq::<usize>::empty(), w) == 0);
        assert(ids_weight(seq![x], w) == ids_weight(seq![x].drop_last(), w) + w[x as int]);
    }
}

/// Fragments laid end to end hold the positions of all of them but one for
/// each joint.
proof fn lemma_joined_len(frags: Seq<LineView>, ids: Seq<usize>)
    requires
        all_nonempty(frags),
        ids.len() >= 1,
        forall|j: int| 0 <= j < ids.len() ==> ids[j] < frags.len(),
    ensures
        joined(frags, ids).len() == ids_weight(ids, lens(frags)) - (ids.len() - 1),
    decreases ids.len(),
{
    if ids.len() == 1 {
        assert(ids.drop_last() =~= Seq::<usize>::empty());
        assert(ids_weight(ids.drop_last(), lens(frags)) == 0);
    } else {
        lemma_joined_len(frags, ids.drop_last());
        assert(frags[ids.last() as int].line.len() >= 1);
    }
}

/// The numbers `ids` the other way round.
fn reverse_ids(ids: &Vec<usize>) -> (r: Vec<usize>)
    ensures
        r@ == ids@.reverse(),
{
    let mut r: Vec<usize> = Vec::new();
    let mut k: usize = ids.len();
    while k > 0
        invariant
            k <= ids.len(),
            r.len() == ids.len() - k,
            forall|j: int| 0 <= j < r.len() ==> r[j] == ids[ids.len() - 1 - j],
        decreases k,
    {
        k -= 1;
        r.push(ids[k]);
    }
    assert(r@ =~= ids@.reverse());
    r
}

/// Lays the fragments `ids` end to end.
fn join(frags: &Vec<LineObject>, ids: &Vec<usize>) -> (line: Vec<Coord>)
    requires
        ids.len() >= 1,
        forall|j: int| 0 <= j < ids.len() ==> ids[j] < frags.len(),
    ensures
        line@ == joined(line_views(frags@), ids@),
{
    let ghost views = line_views(frags@);
    let mut line: Vec<Coord> = copy_line(&frags[ids[0]].line);
    assert(ids@.take(1).drop_last() =~= Seq::<usize>::empty());
    let mut j: usize = 1;
    while j < ids.len()
        invariant
            1 <= j <= ids.len(),
            views == line_views(frags@),
            forall|j: int| 0 <= j < ids.len() ==> ids[j] < frags.len(),
            line@ == joined(views, ids@.take(j as int)),
        decreases ids.len() - j,
    {
        let part = &frags[ids[j]].line;
        let ghost before = line@;
        let mut k: usize = 1;
        while k < part.len()
            invariant
                1 <= k,
                part.len() >= 1 ==> k <= part.len(),
                part.len() >= 1 ==> line@ == before + part@.subrange(1, k as int),
                part.len() == 0 ==> line@ == before,
            decreases part.len() - k,
        {
            line.push(part[k]);
            k += 1;
        }
        proof {
            let next = ids@.take(j + 1);
            assert(next.drop_last() =~= ids@.take(j as int));
            assert(next.last() == ids[j as int]);
            assert(views[ids[j as int] as int].line == part@);
            if part.len() >= 1 {
                assert(part@.subrange(1, part.len() as int) =~= part@.drop_first());
            } else {
                assert(before + rest(part@) =~= before);
            }
        }
        j += 1;
    }
    assert(ids@.take(ids.len() as int) =~= ids@);
    line
}

/// The flags after each of `ids` has been flagged.
spec fn mark_all(flags: Seq<bool>, ids: Seq<usize>) -> Seq<bool>
    decreases ids.len(),
{
    if ids.len() == 0 {
        flags
    } else {
        mark_all(flags, ids.drop_last()).update(ids.last() as int, true)
    }
}

/// Each of `ids` is a number that neither the flags nor an earlier one of
/// `ids` has flagged.
spec fn fresh(flags: Seq<bool>, ids: Seq<usize>) -> bool
    decreases ids.len(),
{
    ids.len() == 0 || (fresh(flags, ids.drop_last()) && ids.last() < flags.len() && !mark_all(
        flags,
        ids.drop_last(),
    )[ids.last() as int])
}

/// Whoever is flagged and has a `g`, has a flagged `g`; `except` is exempt.
#[verifier::opaque]
spec fn closed_under(flags: Seq<bool>, g: Seq<usize>, except: int) -> bool {
    forall|i: int|
        0 <= i < flags.len() && i != except && flags[i] && (#[trigger] g[i]) < flags.len()
            ==> flags[g[i] as int]
}

proof fn lemma_mark_all_len(flags: Seq<bool>, ids: Seq<usize>)
    requires
        fresh(flags, ids),
    ensures
        mark_all(flags, ids).len() == flags.len(),
    decreases ids.len(),
{
    if ids.len() > 0 {
        lemma_mark_all_len(flags, ids.drop_last());
    }
}

proof fn lemma_mark_all_at(flags: Seq<bool>, ids: Seq<usize>, i: int)
    requires
        0 <= i < flags.len() <= usize::MAX,
        fresh(flags, ids),
    ensures
        mark_all(flags, ids)[i] == (flags[i] || ids.contains(i as usize)),
    decreases ids.len(),
{
    if ids.len() > 0 {
        let init = ids.drop_last();
        lemma_mark_all_len(flags, init);
        lemma_mark_all_at(flags, init, i);
        if init.contains(i as usize) {
            let j = choose|j: int| 0 <= j < init.len() && init[j] == i;
            assert(ids[j] == i);
        }
        if ids.contains(i as usize) && ids.last() != i {
            let j = choose|j: int| 0 <= j < ids.len() && ids[j] == i;
            assert(init[j] == i);
        }
        if ids.last() == i {
            assert(ids[ids.len() - 1] == i);
        }
    }
}

proof fn lemma_fresh_at(flags: Seq<bool>, ids: Seq<usize>, j: int)
    requires
        flags.len() <= usize::MAX,
        fresh(flags, ids),
        0 <= j < ids.len(),
    ensures
        ids[j] < flags.len(),
        !flags[ids[j] as int],
    decreases ids.len(),
{
    let init = ids.drop_last();
    if j < ids.len() - 1 {
        lemma_fresh_at(flags, init, j);
    } else {
        lemma_mark_all_at(flags, init, ids.last() as int);
    }
}

proof fn lemma_mark_all_weight(flags: Seq<bool>, ids: Seq<usize>, w: Seq<int>)
    requires
        fresh(flags, ids),
    ensures
        weight(mark_all(flags, ids), w) == weight(flags, w) + ids_weight(ids, w),
    decreases ids.len(),
{
    if ids.len() > 0 {
        let init = ids.drop_last();
        lemma_mark_all_weight(flags, init, w);
        lemma_mark_all_len(flags, init);
        lemma_weight_update(mark_all(flags, init), w, ids.last() as int);
    }
}

proof fn lemma_closed_step_back(flags: Seq<bool>, g: Seq<usize>, s: int, cur: int, step: int)
    requires
        closed_under(flags, g, s),
        0 <= cur < flags.len(),
        0 <= step < flags.len(),
        g.len() == flags.len(),
        flags[cur],
        g[step] == cur,
    ensures
        closed_under(flags.update(step, true), g, s),
{
    reveal(closed_under);
    let after = flags.update(step, true);
    assert forall|i: int|
        0 <= i < after.len() && i != s && after[i] && (#[trigger] g[i]) < after.len()
        implies after[g[i] as int] by {
        if i != step {
            assert(flags[g[i] as int]);
        }
    }
}

proof fn lemma_closed_step_on(flags: Seq<bool>, f: Seq<usize>, cur: int, step: int)
    requires
        closed_under(flags, f, cur),
        0 <= cur < flags.len(),
        0 <= step < flags.len(),
        f.len() == flags.len(),
        f[cur] == step,
    ensures
        closed_under(flags.update(step, true), f, step),
{
    reveal(closed_under);
    let after = flags.update(step, true);
    assert forall|i: int|
        0 <= i < after.len() && i != step && after[i] && (#[trigger] f[i]) < after.len()
        implies after[f[i] as int] by {
        if i != cur {
            assert(flags[f[i] as int]);
        }
    }
}

proof fn lemma_closed_first(flags: Seq<bool>, g: Seq<usize>, s: int)
    requires
        closed_under(flags, g, -1),
        0 <= s < flags.len(),
    ensures
        closed_under(flags.update(s, true), g, s),
{
    reveal(closed_under);
    let after = flags.update(s, true);
    assert forall|i: int|
        0 <= i < after.len() && i != s && after[i] && (#[trigger] g[i]) < after.len()
        implies after[g[i] as int] by {
        assert(flags[g[i] as int]);
    }
}

proof fn lemma_closed_last(flags: Seq<bool>, f: Seq<usize>, cur: int)
    requires
        closed_under(flags, f, cur),
        0 <= cur < flags.len(),
        f.len() == flags.len(),
        f[cur] >= flags.len() || flags[f[cur] as int],
    ensures
        closed_under(flags, f, -1),
{
    reveal(closed_under);
}

/// The fragment after `step` on a walk has not been flagged: whoever is
/// flagged has a flagged `g`, and the `g` of that fragment is `step`.
proof fn lemma_ahead_is_free(
    f: Seq<usize>,
    g: Seq<usize>,
    flags: Seq<bool>,
    s: usize,
    stop: usize,
    step: usize,
)
    requires
        (LinksView { next: f, prev: g }).wf(),
        flags.len() == f.len(),
        s < f.len(),
        step < f.len(),
        stop == s || (stop == f.len() && g[s as int] == f.len()),
        closed_under(flags, g, s as int),
        !flags[step as int],
        flags[s as int],
        f[step as int] < f.len(),
        f[step as int] != stop,
        f[step as int] != step,
    ensures
        !flags[f[step as int] as int],
{
    reveal(closed_under);
    let then = f[step as int];
    assert(g[then as int] == step);
    if flags[then as int] {
        if then == s {
            assert(stop == f.len());
        } else {
            assert(flags[g[then as int] as int]);
        }
    }
}

/// Follows `f` from the fragment `s` and flags each fragment on the way.
/// `g` is `f` backwards.
fn collect(f: &Vec<usize>, g: &Vec<usize>, s: usize, stop: usize, flags: &mut Vec<bool>) -> (ids:
    Vec<usize>)
    requires
        (LinksView { next: f@, prev: g@ }).wf(),
        old(flags).len() == f.len(),
        s < f.len(),
        stop == s || (stop == f.len() && g[s as int] == f.len()),
        !old(flags)[s as int],
        closed_under(old(flags)@, g@, -1),
    ensures
        ids@ == walk(f@, s, stop, f.len() as nat),
        ids.len() >= 1,
        ids[0] == s,
        final(flags)@ == mark_all(old(flags)@, ids@),
        final(flags).len() == f.len(),
        fresh(old(flags)@, ids@),
        f[ids[ids.len() - 1] as int] >= f.len() || f[ids[ids.len() - 1] as int] == stop,
        forall|j: int| 1 <= j < ids.len() ==> g[(#[trigger] ids[j]) as int] == ids[j - 1],
        closed_under(final(flags)@, g@, s as int),
        closed_under(old(flags)@, f@, -1) ==> closed_under(final(flags)@, f@, -1),
{
    let n = f.len();
    let ghost closed_f = closed_under(old(flags)@, f@, -1);
    let mut ids: Vec<usize> = Vec::new();
    let mut cur: usize = s;
    flags.set(s, true);
    ids.push(s);
    proof {
        assert(ids@.drop_last() =~= Seq::<usize>::empty());
        assert(ids@.last() == s);
        assert(flags@ == old(flags)@.update(s as int, true));
        assert(mark_all(old(flags)@, ids@.drop_last()) == old(flags)@);
        assert(fresh(old(flags)@, ids@.drop_last()));
        lemma_mark_all_weight(old(flags)@, ids@, ones(n as nat));
        lemma_ids_weight_one(ids@, s, n as nat);
        lemma_count_bound(flags@, n as nat);
        lemma_count_bound(old(flags)@, n as nat);
        assert(ids@.drop_last() + walk(f@, cur, stop, n as nat) =~= walk(f@, s, stop, n as nat));
        lemma_closed_first(old(flags)@, g@, s as int);
        if closed_f {
            reveal(closed_under);
            assert(closed_under(flags@, f@, s as int));
        }
        if f[s as int] < n && f[s as int] != stop {
            assert(g[f[s as int] as int] == s);
            if f[s as int] != s && old(flags)[f[s as int] as int] {
                reveal(closed_under);
                assert(old(flags)[g[f[s as int] as int] as int]);
            }
        }
    }
    while f[cur] < n && f[cur] != stop
        invariant
            n == f.len(),
            flags.len() == n,
            old(flags).len() == n,
            (LinksView { next: f@, prev: g@ }).wf(),
            s < n,
            cur < n,
            stop == s || (stop == n && g[s as int] == n),
            ids.len() >= 1,
            ids[0] == s,
            ids[ids.len() - 1] == cur,
            flags[cur as int],
            flags[s as int],
            flags@ == mark_all(old(flags)@, ids@),
            fresh(old(flags)@, ids@),
            ids.len() + weight(old(flags)@, ones(n as nat)) == weight(flags@, ones(n as nat)),
            0 <= weight(old(flags)@, ones(n as nat)),
            weight(flags@, ones(n as nat)) <= n,
            walk(f@, s, stop, n as nat) == ids@.drop_last() + walk(
                f@,
                cur,
                stop,
                (n - (ids.len() - 1)) as nat,
            ),
            forall|j: int| 1 <= j < ids.len() ==> g[(#[trigger] ids[j]) as int] == ids[j - 1],
            f[cur as int] < n && f[cur as int] != stop ==> !flags[f[cur as int] as int],
            closed_under(flags@, g@, s as int),
            closed_f ==> closed_under(flags@, f@, cur as int),
        decreases n - weight(flags@, ones(n as nat)),
    {
        let step = f[cur];
        let ghost flags_before = flags@;
        let ghost ids_before = ids@;
        flags.set(step, true);
        ids.push(step);
        proof {
            assert(ids@.drop_last() =~= ids_before);
            assert(ids@.last() == step);
            assert(flags@ == flags_before.update(step as int, true));
            assert(g[step as int] == cur);
            lemma_weight_update(flags_before, ones(n as nat), step as int);
            lemma_count_bound(flags@, n as nat);
            assert(ids_before.drop_last() + walk(f@, cur, stop, (n - (ids_before.len() - 1)) as nat)
                =~= ids@.drop_last() + walk(f@, step, stop, (n - (ids@.len() - 1)) as nat));
            lemma_closed_step_back(flags_before, g@, s as int, cur as int, step as int);
            if closed_f {
                lemma_closed_step_on(flags_before, f@, cur as int, step as int);
            }
            let then = f[step as int];
            if then < n && then != stop {
                if then == step {
                    assert(g[step as int] == step);
                } else {
                    lemma_ahead_is_free(f@, g@, flags_before, s, stop, step);
                }
            }
        }
        cur = step;
    }
    proof {
        assert(walk(f@, cur, stop, (n - (ids.len() - 1)) as nat) =~= seq![cur]);
        assert(ids@.drop_last() + seq![cur] =~= ids@);
        if closed_f {
            lemma_closed_last(flags@, f@, cur as int);
        }
    }
    ids
}

proof fn lemma_ids_weight_one(ids: Seq<usize>, s: usize, n: nat)
    requires
        ids.len() == 1,
        ids[0] == s,
        s < n,
    ensures
        ids_weight(ids, ones(n)) == 1,
{
    assert(ids.drop_last() =~= Seq::<usize>::empty());
    assert(ids_weight(ids.drop_last(), ones(n)) == 0);
}

proof fn lemma_ids_weight_ones(ids: Seq<usize>, n: nat)
    requires
        forall|j: int| 0 <= j < ids.len() ==> ids[j] < n,
    ensures
        ids_weight(ids, ones(n)) == ids.len(),
    decreases ids.len(),
{
    if ids.len() > 0 {
        lemma_ids_weight_ones(ids.drop_last(), n);
    }
}

proof fn lemma_total_push(lines: Seq<LineView>, x: LineView)
    ensures
        total_vertices(lines.push(x)) == total_vertices(lines) + x.line.len(),
{
    assert(lines.push(x).drop_last() =~= lines);
}

/// The line that the fragments `ids` become.
fn line_from(frags: &Vec<LineObject>, ids: &Vec<usize>, ring: bool) -> (r: LineObject)
    requires
        ids.len() >= 1,
        forall|j: int| 0 <= j < ids.len() ==> ids[j] < frags.len(),
    ensures
        r@ == line_of(line_views(frags@), ids@, ring),
{
    let mut line = join(frags, ids);
    if ring {
        close_line(&mut line);
    }
    let first = &frags[ids[0]];
    assert(line_views(frags@)[ids[0] as int] == first@);
    LineObject { symbol: first.symbol, tags: copy_tags(&first.tags), line }
}

/// The flags say which fragments are on an open chain that ends below `e`.
#[verifier::opaque]
spec fn flags_show_chains(flags: Seq<bool>, l: LinksView, e: nat) -> bool {
    forall|i: int| 0 <= i < flags.len() ==> (#[trigger] flags[i]) == on_chain_below(l, i as usize, e)
}

/// The flags say which fragments are on an open chain or in a ring led from
/// below `s`.
#[verifier::opaque]
spec fn flags_show_rings(flags: Seq<bool>, l: LinksView, s: nat) -> bool {
    forall|i: int|
        0 <= i < flags.len() ==> (#[trigger] flags[i]) == (on_chain(l, i as usize) || in_ring_below(
            l,
            i as usize,
            s,
        ))
}

/// Every flagged fragment that ends a chain is numbered below `e`, and each
/// such fragment below `e` is flagged.
#[verifier::opaque]
spec fn ends_flagged_below(flags: Seq<bool>, next: Seq<usize>, e: int) -> bool {
    forall|i: int|
        0 <= i < flags.len() && (#[trigger] next[i]) == flags.len() ==> (flags[i] <==> i < e)
}

proof fn lemma_on_chain_step(l: LinksView, i: usize, e: usize)
    ensures
        on_chain_below(l, i, (e + 1) as nat) <==> (on_chain_below(l, i, e as nat) || (e < l.len()
            && l.next[e as int] == l.len() && walk(l.prev, e, l.len() as usize, l.len()).contains(i))),
{
    if on_chain_below(l, i, (e + 1) as nat) {
        let x = choose|x: usize|
            x < e + 1 && x < l.len() && l.next[x as int] == l.len() && (#[trigger] walk(
                l.prev,
                x,
                l.len() as usize,
                l.len(),
            )).contains(i);
        if x != e {
            assert(on_chain_below(l, i, e as nat));
        }
    }
}

proof fn lemma_in_ring_step(l: LinksView, i: usize, s: usize)
    ensures
        in_ring_below(l, i, (s + 1) as nat) <==> (in_ring_below(l, i, s as nat) || (leads_ring(l, s)
            && ring_ids(l, s).contains(i))),
{
    if in_ring_below(l, i, (s + 1) as nat) {
        let r = choose|r: usize|
            r < s + 1 && leads_ring(l, r) && (#[trigger] ring_ids(l, r)).contains(i);
        if r != s {
            assert(in_ring_below(l, i, s as nat));
        }
    }
    if in_ring_below(l, i, s as nat) {
        let r = choose|r: usize| r < s && leads_ring(l, r) && (#[trigger] ring_ids(l, r)).contains(i);
        assert(r < s + 1 && leads_ring(l, r) && ring_ids(l, r).contains(i));
    }
    if leads_ring(l, s) && ring_ids(l, s).contains(i) {
        assert(s < s + 1 && leads_ring(l, s) && ring_ids(l, s).contains(i));
    }
}

proof fn lemma_chain_flags_skip(flags: Seq<bool>, l: LinksView, e: usize)
    requires
        flags_show_chains(flags, l, e as nat),
        !(e < l.len() && l.next[e as int] == l.len()),
    ensures
        flags_show_chains(flags, l, (e + 1) as nat),
{
    reveal(flags_show_chains);
    assert forall|i: int| 0 <= i < flags.len() implies (#[trigger] flags[i]) == on_chain_below(
        l,
        i as usize,
        (e + 1) as nat,
    ) by {
        lemma_on_chain_step(l, i as usize, e);
    }
}

proof fn lemma_chain_flags_step(flags: Seq<bool>, l: LinksView, e: usize, back: Seq<usize>)
    requires
        flags.len() <= usize::MAX,
        flags_show_chains(flags, l, e as nat),
        e < l.len(),
        flags.len() == l.len(),
        l.next[e as int] == l.len(),
        back == walk(l.prev, e, l.len() as usize, l.len()),
        fresh(flags, back),
    ensures
        flags_show_chains(mark_all(flags, back), l, (e + 1) as nat),
{
    reveal(flags_show_chains);
    let after = mark_all(flags, back);
    lemma_mark_all_len(flags, back);
    assert forall|i: int| 0 <= i < after.len() implies (#[trigger] after[i]) == on_chain_below(
        l,
        i as usize,
        (e + 1) as nat,
    ) by {
        lemma_on_chain_step(l, i as usize, e);
        lemma_mark_all_at(flags, back, i);
        assert(flags[i] == on_chain_below(l, i as usize, e as nat));
    }
}

proof fn lemma_ends_step(flags: Seq<bool>, l: LinksView, e: usize, back: Seq<usize>)
    requires
        flags.len() <= usize::MAX,
        l.wf(),
        ends_flagged_below(flags, l.next, e as int),
        e < l.len(),
        flags.len() == l.len(),
        l.next[e as int] == l.len(),
        fresh(flags, back),
        back.len() >= 1,
        back[0] == e,
        forall|j: int| 1 <= j < back.len() ==> l.next[(#[trigger] back[j]) as int] == back[j - 1],
    ensures
        ends_flagged_below(mark_all(flags, back), l.next, e + 1),
{
    reveal(ends_flagged_below);
    let after = mark_all(flags, back);
    lemma_mark_all_len(flags, back);
    assert forall|i: int| 0 <= i < after.len() && (#[trigger] l.next[i]) == after.len() implies (
    after[i] <==> i < e + 1) by {
        lemma_mark_all_at(flags, back, i);
        if back.contains(i as usize) {
            let j = choose|j: int| 0 <= j < back.len() && back[j] == i;
            if j >= 1 {
                lemma_fresh_at(flags, back, j - 1);
                assert(l.next[back[j] as int] == back[j - 1]);
            }
        }
        if i == e {
            assert(back[0] == i);
        }
    }
}

proof fn lemma_ends_skip(flags: Seq<bool>, next: Seq<usize>, e: usize)
    requires
        ends_flagged_below(flags, next, e as int),
        !(e < flags.len() && next[e as int] == flags.len()),
    ensures
        ends_flagged_below(flags, next, e + 1),
{
    reveal(ends_flagged_below);
}

proof fn lemma_ring_flags_skip(flags: Seq<bool>, l: LinksView, s: usize)
    requires
        flags_show_rings(flags, l, s as nat),
        s < flags.len(),
        flags.len() == l.len(),
        flags[s as int],
    ensures
        !leads_ring(l, s),
        flags_show_rings(flags, l, (s + 1) as nat),
{
    reveal(flags_show_rings);
    assert(flags[s as int] == (on_chain(l, s) || in_ring_below(l, s, s as nat)));
    assert forall|i: int| 0 <= i < flags.len() implies (#[trigger] flags[i]) == (on_chain(
        l,
        i as usize,
    ) || in_ring_below(l, i as usize, (s + 1) as nat)) by {
        lemma_in_ring_step(l, i as usize, s);
    }
}

proof fn lemma_ring_flags_step(flags: Seq<bool>, l: LinksView, s: usize, ids: Seq<usize>)
    requires
        flags.len() <= usize::MAX,
        flags_show_rings(flags, l, s as nat),
        s < flags.len(),
        flags.len() == l.len(),
        !flags[s as int],
        ids == ring_ids(l, s),
        fresh(flags, ids),
    ensures
        leads_ring(l, s),
        flags_show_rings(mark_all(flags, ids), l, (s + 1) as nat),
{
    reveal(flags_show_rings);
    assert(flags[s as int] == (on_chain(l, s) || in_ring_below(l, s, s as nat)));
    let after = mark_all(flags, ids);
    lemma_mark_all_len(flags, ids);
    assert forall|i: int| 0 <= i < after.len() implies (#[trigger] after[i]) == (on_chain(
        l,
        i as usize,
    ) || in_ring_below(l, i as usize, (s + 1) as nat)) by {
        lemma_in_ring_step(l, i as usize, s);
        lemma_mark_all_at(flags, ids, i);
        assert(flags[i] == (on_chain(l, i as usize) || in_ring_below(l, i as usize, s as nat)));
    }
}

/// The open chains that end below `e` are apart from each other.
#[verifier::opaque]
spec fn chains_apart(l: LinksView, e: nat) -> bool {
    &&& forall|x: usize, i: usize|
        x < e && x < l.len() && l.next[x as int] == l.len() && (#[trigger] chain_ids(l, x).contains(i))
            ==> !on_chain_below(l, i, x as nat)
    &&& forall|x: usize|
        x < e && x < l.len() && l.next[x as int] == l.len() ==> (#[trigger] chain_ids(
            l,
            x,
        )).no_duplicates()
}

/// The rings led from below `s` are apart from the open chains and from
/// each other.
#[verifier::opaque]
spec fn rings_apart(l: LinksView, s: nat) -> bool {
    &&& forall|r: usize, i: usize|
        r < s && leads_ring(l, r) && (#[trigger] ring_ids(l, r).contains(i)) ==> !on_chain(l, i)
            && !in_ring_below(l, i, r as nat)
    &&& forall|r: usize| r < s && leads_ring(l, r) ==> (#[trigger] ring_ids(l, r)).no_duplicates()
}

proof fn lemma_fresh_distinct(flags: Seq<bool>, ids: Seq<usize>)
    requires
        flags.len() <= usize::MAX,
        fresh(flags, ids),
    ensures
        ids.no_duplicates(),
    decreases ids.len(),
{
    if ids.len() > 0 {
        let init = ids.drop_last();
        lemma_fresh_distinct(flags, init);
        assert forall|a: int, b: int| 0 <= a < ids.len() && 0 <= b < ids.len() && a != b implies ids[a]
            != ids[b] by {
            let (lo, hi) = if a < b {
                (a, b)
            } else {
                (b, a)
            };
            if hi == ids.len() - 1 {
                lemma_fresh_at(flags, init, lo);
                lemma_mark_all_at(flags, init, init[lo] as int);
                assert(init.contains(init[lo]));
            } else {
                assert(init[a] != init[b]);
            }
        }
    }
}

proof fn lemma_reverse_same(ids: Seq<usize>)
    ensures
        forall|i: usize| ids.reverse().contains(i) <==> ids.contains(i),
        ids.no_duplicates() ==> ids.reverse().no_duplicates(),
{
    let r = ids.reverse();
    assert forall|i: usize| r.contains(i) <==> ids.contains(i) by {
        if r.contains(i) {
            let j = choose|j: int| 0 <= j < r.len() && r[j] == i;
            assert(ids[ids.len() - 1 - j] == i);
        }
        if ids.contains(i) {
            let j = choose|j: int| 0 <= j < ids.len() && ids[j] == i;
            assert(r[ids.len() - 1 - j] == i);
        }
    }
    if ids.no_duplicates() {
        assert forall|a: int, b: int| 0 <= a < r.len() && 0 <= b < r.len() && a != b implies r[a]
            != r[b] by {
            assert(ids[ids.len() - 1 - a] != ids[ids.len() - 1 - b]);
        }
    }
}

proof fn lemma_chains_apart_skip(l: LinksView, e: usize)
    requires
        chains_apart(l, e as nat),
        !(e < l.len() && l.next[e as int] == l.len()),
    ensures
        chains_apart(l, (e + 1) as nat),
{
    reveal(chains_apart);
}

proof fn lemma_chains_apart_step(flags: Seq<bool>, l: LinksView, e: usize, back: Seq<usize>)
    requires
        flags.len() <= usize::MAX,
        flags.len() == l.len(),
        chains_apart(l, e as nat),
        flags_show_chains(flags, l, e as nat),
        e < l.len(),
        back == walk(l.prev, e, l.len() as usize, l.len()),
        fresh(flags, back),
    ensures
        chains_apart(l, (e + 1) as nat),
{
    reveal(chains_apart);
    reveal(flags_show_chains);
    lemma_fresh_distinct(flags, back);
    lemma_reverse_same(back);
    assert forall|x: usize, i: usize|
        x < e + 1 && x < l.len() && l.next[x as int] == l.len() && (#[trigger] chain_ids(l, x).contains(
            i,
        )) implies !on_chain_below(l, i, x as nat) by {
        if x == e {
            let j = choose|j: int| 0 <= j < back.len() && back[j] == i;
            lemma_fresh_at(flags, back, j);
            assert(flags[i as int] == on_chain_below(l, i, e as nat));
        }
    }
}

proof fn lemma_rings_apart_skip(l: LinksView, s: usize)
    requires
        rings_apart(l, s as nat),
        !leads_ring(l, s),
    ensures
        rings_apart(l, (s + 1) as nat),
{
    reveal(rings_apart);
}

proof fn lemma_rings_apart_step(flags: Seq<bool>, l: LinksView, s: usize, ids: Seq<usize>)
    requires
        flags.len() <= usize::MAX,
        flags.len() == l.len(),
        rings_apart(l, s as nat),
        flags_show_rings(flags, l, s as nat),
        s < l.len(),
        ids == ring_ids(l, s),
        fresh(flags, ids),
    ensures
        rings_apart(l, (s + 1) as nat),
{
    reveal(rings_apart);
    reveal(flags_show_rings);
    lemma_fresh_distinct(flags, ids);
    assert forall|r: usize, i: usize|
        r < s + 1 && leads_ring(l, r) && (#[trigger] ring_ids(l, r).contains(i)) implies !on_chain(l, i)
        && !in_ring_below(l, i, r as nat) by {
        if r == s {
            let j = choose|j: int| 0 <= j < ids.len() && ids[j] == i;
            lemma_fresh_at(flags, ids, j);
            assert(flags[i as int] == (on_chain(l, i) || in_ring_below(l, i, s as nat)));
        }
    }
}

proof fn lemma_lines_apart(l: LinksView)
    requires
        chains_apart(l, l.len()),
        rings_apart(l, l.len()),
    ensures
        lines_apart(l),
{
    reveal(chains_apart);
    reveal(rings_apart);
}

/// What the lines written so far hold: the positions of the flagged
/// fragments, less one for each joint, plus `extra`.
spec fn balance(out: Seq<LineView>, flags: Seq<bool>, frags: Seq<LineView>, extra: int) -> bool {
    all_nonempty(frags) ==> total_vertices(out) == weight(flags, lens(frags)) - weight(
        flags,
        ones(frags.len()),
    ) + out.len() + extra
}

proof fn lemma_balance_step(
    out: Seq<LineView>,
    flags: Seq<bool>,
    frags: Seq<LineView>,
    extra: int,
    ids: Seq<usize>,
    order: Seq<usize>,
    line: LineView,
    gain: int,
)
    requires
        flags.len() <= usize::MAX,
        balance(out, flags, frags, extra),
        flags.len() == frags.len(),
        fresh(flags, ids),
        ids.len() >= 1,
        order == ids || order == ids.reverse(),
        all_nonempty(frags) ==> line.line.len() == joined(frags, order).len() + gain,
    ensures
        balance(out.push(line), mark_all(flags, ids), frags, extra + gain),
{
    if all_nonempty(frags) {
        let n = frags.len();
        lemma_total_push(out, line);
        assert forall|j: int| 0 <= j < ids.len() implies ids[j] < n by {
            lemma_fresh_at(flags, ids, j);
        }
        assert forall|j: int| 0 <= j < order.len() implies order[j] < n by {
            if order != ids {
                assert(order[j] == ids[ids.len() - 1 - j]);
            }
        }
        lemma_joined_len(frags, order);
        lemma_ids_weight_reverse(ids, lens(frags));
        lemma_ids_weight_ones(ids, n);
        lemma_mark_all_weight(flags, ids, lens(frags));
        lemma_mark_all_weight(flags, ids, ones(n));
    }
}

proof fn lemma_parts_step(flags: Seq<bool>, ids: Seq<usize>)
    requires
        flags.len() <= usize::MAX,
        fresh(flags, ids),
    ensures
        weight(mark_all(flags, ids), ones(flags.len())) == weight(flags, ones(flags.len())) + ids.len(),
        ids.reverse().len() == ids.len(),
{
    assert forall|j: int| 0 <= j < ids.len() implies ids[j] < flags.len() by {
        lemma_fresh_at(flags, ids, j);
    }
    lemma_ids_weight_ones(ids, flags.len());
    lemma_mark_all_weight(flags, ids, ones(flags.len()));
}

/// Writes each open chain as one line, in the order of the chains' last
/// fragments, and flags the fragments written.
fn emit_chains(frags: &Vec<LineObject>, links: &Links, flags: &mut Vec<bool>, out: &mut Vec<LineObject>)
    requires
        links@.wf(),
        links@.len() == frags.len(),
        old(flags).len() == frags.len(),
        forall|i: int| 0 <= i < old(flags).len() ==> !old(flags)[i],
        old(out).len() == 0,
    ensures
        final(flags).len() == frags.len(),
        line_views(final(out)@) == chain_lines(line_views(frags@), links@, frags.len() as nat),
        flags_show_chains(final(flags)@, links@, frags.len() as nat),
        closed_under(final(flags)@, links@.prev, -1),
        ends_flagged_below(final(flags)@, links@.next, frags.len() as int),
        balance(line_views(final(out)@), final(flags)@, line_views(frags@), 0),
        chain_parts(links@, frags.len() as nat) == weight(final(flags)@, ones(frags.len() as nat)),
        chains_apart(links@, frags.len() as nat),
{
    let n = frags.len();
    let ghost views = line_views(frags@);
    let ghost l = links@;
    proof {
        lemma_weight_none(flags@, lens(views));
        lemma_weight_none(flags@, ones(n as nat));
        assert(line_views(out@) =~= chain_lines(views, l, 0));
        assert((LinksView { next: l.prev, prev: l.next }).wf());
        reveal(flags_show_chains);
        reveal(closed_under);
        reveal(ends_flagged_below);
        reveal(chains_apart);
    }
    let mut e: usize = 0;
    while e < n
        invariant
            e <= n,
            n == frags.len(),
            flags.len() == n,
            views == line_views(frags@),
            l == links@,
            l.wf(),
            l.len() == n,
            (LinksView { next: l.prev, prev: l.next }).wf(),
            flags_show_chains(flags@, l, e as nat),
            closed_under(flags@, l.next, -1),
            closed_under(flags@, l.prev, -1),
            ends_flagged_below(flags@, l.next, e as int),
            line_views(out@) == chain_lines(views, l, e as nat),
            balance(line_views(out@), flags@, views, 0),
            chain_parts(l, e as nat) == weight(flags@, ones(n as nat)),
            chains_apart(l, e as nat),
        decreases n - e,
    {
        let ghost flags_before = flags@;
        let ghost out_before = out@;
        if links.next[e] == n {
            proof {
                reveal(ends_flagged_below);
                assert(l.next[e as int] == n);
                assert(!flags[e as int]);
            }
            let back = collect(&links.prev, &links.next, e, n, flags);
            let ids = reverse_ids(&back);
            proof {
                assert forall|j: int| 0 <= j < ids.len() implies ids[j] < frags.len() by {
                    lemma_fresh_at(flags_before, back@, ids.len() - 1 - j);
                }
            }
            let line = line_from(frags, &ids, false);
            out.push(line);
            proof {
                assert(ids@ == chain_ids(l, e));
                assert(line_views(out@) =~= line_views(out_before).push(line@));
                lemma_chains_apart_step(flags_before, l, e, back@);
                lemma_chain_flags_step(flags_before, l, e, back@);
                lemma_ends_step(flags_before, l, e, back@);
                lemma_closed_last(flags@, l.next, e as int);
                lemma_balance_step(line_views(out_before), flags_before, views, 0, back@, ids@, line@, 0);
                lemma_parts_step(flags_before, back@);
            }
        } else {
            proof {
                lemma_chains_apart_skip(l, e);
                lemma_chain_flags_skip(flags@, l, e);
                lemma_ends_skip(flags@, l.next, e);
            }
        }
        e += 1;
    }
}

/// Writes each ring as one closed line, from its lowest-numbered fragment
/// on, in the order of those fragments.
fn emit_rings(frags: &Vec<LineObject>, links: &Links, flags: &mut Vec<bool>, out: &mut Vec<LineObject>)
    requires
        links@.wf(),
        links@.len() == frags.len(),
        old(flags).len() == frags.len(),
        flags_show_chains(old(flags)@, links@, frags.len() as nat),
        closed_under(old(flags)@, links@.prev, -1),
        ends_flagged_below(old(flags)@, links@.next, frags.len() as int),
        balance(line_views(old(out)@), old(flags)@, line_views(frags@), 0),
        chain_parts(links@, frags.len() as nat) == weight(old(flags)@, ones(frags.len() as nat)),
    ensures
        final(flags).len() == frags.len(),
        forall|i: int| 0 <= i < final(flags).len() ==> final(flags)[i],
        flags_show_rings(final(flags)@, links@, frags.len() as nat),
        rings_apart(links@, frags.len() as nat),
        chain_parts(links@, frags.len() as nat) + ring_parts(links@, frags.len() as nat) == weight(
            final(flags)@,
            ones(frags.len() as nat),
        ),
        line_views(final(out)@) == line_views(old(out)@) + ring_lines(
            line_views(frags@),
            links@,
            frags.len() as nat,
        ),
        balance(
            line_views(final(out)@),
            final(flags)@,
            line_views(frags@),
            closing_vertices(line_views(frags@), links@, frags.len() as nat),
        ),
{
    let n = frags.len();
    let ghost views = line_views(frags@);
    let ghost l = links@;
    let ghost chains = line_views(out@);
    proof {
        assert(line_views(out@) =~= chains + ring_lines(views, l, 0));
        reveal(flags_show_chains);
        reveal(flags_show_rings);
        reveal(ends_flagged_below);
        reveal(rings_apart);
        assert(flags_show_rings(flags@, l, 0));
    }
    let mut s: usize = 0;
    while s < n
        invariant
            s <= n,
            n == frags.len(),
            flags.len() == n,
            views == line_views(frags@),
            l == links@,
            l.wf(),
            l.len() == n,
            flags_show_rings(flags@, l, s as nat),
            closed_under(flags@, l.prev, -1),
            forall|i: int| 0 <= i < n && (#[trigger] l.next[i]) == n ==> flags[i],
            forall|i: int| 0 <= i < s ==> #[trigger] flags[i],
            line_views(out@) == chains + ring_lines(views, l, s as nat),
            balance(line_views(out@), flags@, views, closing_vertices(views, l, s as nat)),
            chain_parts(l, n as nat) + ring_parts(l, s as nat) == weight(flags@, ones(n as nat)),
            rings_apart(l, s as nat),
        decreases n - s,
    {
        let ghost flags_before = flags@;
        let ghost out_before = out@;
        if !flags[s] {
            let ids = collect(&links.next, &links.prev, s, s, flags);
            proof {
                assert forall|j: int| 0 <= j < ids.len() implies ids[j] < frags.len() by {
                    lemma_fresh_at(flags_before, ids@, j);
                }
            }
            let line = line_from(frags, &ids, true);
            out.push(line);
            proof {
                let last = ids[ids.len() - 1];
                lemma_fresh_at(flags_before, ids@, ids.len() - 1);
                assert(l.next[last as int] != n);
                assert(l.next[last as int] == s);
                assert(l.prev[s as int] == last);
                lemma_mark_all_at(flags_before, ids@, last as int);
                assert(ids@[ids.len() - 1] == last);
                assert(flags[last as int]);
                lemma_closed_last(flags@, l.prev, s as int);
                assert(ids@ == ring_ids(l, s));
                lemma_rings_apart_step(flags_before, l, s, ids@);
                lemma_ring_flags_step(flags_before, l, s, ids@);
                assert(line_views(out@) =~= line_views(out_before).push(line@));
                assert(line_views(out@) =~= chains + ring_lines(views, l, (s + 1) as nat));
                let gain = if is_closed(joined(views, ids@)) {
                    0int
                } else {
                    1int
                };
                lemma_balance_step(
                    line_views(out_before),
                    flags_before,
                    views,
                    closing_vertices(views, l, s as nat),
                    ids@,
                    ids@,
                    line@,
                    gain,
                );
                lemma_parts_step(flags_before, ids@);
                assert forall|i: int| 0 <= i < n && (#[trigger] l.next[i]) == n implies flags[i] by {
                    lemma_mark_all_at(flags_before, ids@, i);
                }
                assert forall|i: int| 0 <= i < s + 1 implies #[trigger] flags[i] by {
                    lemma_mark_all_at(flags_before, ids@, i);
                    if i == s {
                        assert(ids@[0] == s);
                    }
                }
            }
        } else {
            proof {
                lemma_ring_flags_skip(flags@, l, s);
                lemma_rings_apart_skip(l, s);
            }
        }
        s += 1;
    }
}

/// Turns linked fragments into lines: each open chain into one line, each
/// ring into one closed line. A line has the symbol and the tags of its first
/// fragment.
///
/// No fragment is lost and none is used twice: every fragment is part of a
/// line, and the lines have as many parts as there are fragments. Every joint
/// drops one position, the start that repeats the end before it, and every
/// ring that ends away from its start gains one.
pub fn assemble(frags: &Vec<LineObject>, links: &Links) -> (out: Vec<LineObject>)
    requires
        links@.wf(),
        links@.len() == frags.len(),
    ensures
        line_views(out@) == assembled(line_views(frags@), links@),
        all_nonempty(line_views(frags@)) ==> total_vertices(line_views(out@)) + frags.len()
            == total_vertices(line_views(frags@)) + out.len() + closing_vertices(
            line_views(frags@),
            links@,
            frags.len() as nat,
        ),
        forall|i: usize| i < frags.len() ==> #[trigger] placed(links@, i),
        chain_parts(links@, frags.len() as nat) + ring_parts(links@, frags.len() as nat) == frags.len(),
        lines_apart(links@),
{
    let n = frags.len();
    let mut out: Vec<LineObject> = Vec::new();
    let mut flags: Vec<bool> = Vec::new();
    let mut i: usize = 0;
    while i < n
        invariant
            i <= n,
            flags.len() == i,
            forall|j: int| 0 <= j < i ==> !flags[j],
        decreases n - i,
    {
        flags.push(false);
        i += 1;
    }
    emit_chains(frags, links, &mut flags, &mut out);
    emit_rings(frags, links, &mut flags, &mut out);
    proof {
        let views = line_views(frags@);
        lemma_weight_all(views, flags@, n as nat);
        assert(views.take(n as int) =~= views);
        reveal(flags_show_rings);
        assert forall|i: usize| i < frags.len() implies #[trigger] placed(links@, i) by {
            assert(flags[i as int]);
        }
        lemma_lines_apart(links@);
    }
    out
}

} // verus!
