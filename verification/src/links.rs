//! How line fragments follow one another once their ends have been joined.
//!
//! Fragments are numbered from 0. A link from `h` to `t` says that fragment
//! `t` continues where fragment `h` stops. Each fragment has at most one
//! fragment after it and at most one before it, so the links form open
//! chains and closed rings.

use vstd::prelude::*;

verus! {

/// The links among `len()` fragments. `next[h] == t` links `h` to `t`, and
/// then `prev[t] == h`; the number of fragments stands for "none".
#[derive(Debug)]
pub struct Links {
    pub next: Vec<usize>,
    pub prev: Vec<usize>,
}

/// The links as sequences.
pub struct LinksView {
    pub next: Seq<usize>,
    pub prev: Seq<usize>,
}

impl View for Links {
    type V = LinksView;

    open spec fn view(&self) -> LinksView {
        LinksView { next: self.next@, prev: self.prev@ }
    }
}

impl LinksView {
    /// The number of fragments.
    pub open spec fn len(self) -> nat {
        self.next.len()
    }

    /// `next` and `prev` are inverse to each other wherever they are set.
    pub open spec fn wf(self) -> bool {
        &&& self.prev.len() == self.next.len()
        &&& forall|i: int|
            0 <= i < self.next.len() ==> (#[trigger] self.next[i]) <= self.next.len()
        &&& forall|i: int|
            0 <= i < self.next.len() ==> (#[trigger] self.prev[i]) <= self.next.len()
        &&& forall|i: int|
            0 <= i < self.next.len() && (#[trigger] self.next[i]) < self.next.len()
                ==> self.prev[self.next[i] as int] == i
        &&& forall|i: int|
            0 <= i < self.next.len() && (#[trigger] self.prev[i]) < self.next.len()
                ==> self.next[self.prev[i] as int] == i
    }

    /// No fragment linked to any other.
    pub open spec fn unlinked(n: nat) -> LinksView {
        LinksView { next: Seq::new(n, |i: int| n as usize), prev: Seq::new(n, |i: int| n as usize) }
    }

    /// Whether the start of `t` can still be joined to the end of `h`: both
    /// exist, nothing follows `h` yet and nothing precedes `t`.
    pub open spec fn can_link(self, t: usize, h: usize) -> bool {
        &&& t < self.len()
        &&& h < self.len()
        &&& self.next[h as int] == self.len()
        &&& self.prev[t as int] == self.len()
    }

    /// The links after the start of `t` has been joined to the end of `h`, or
    /// the same links where that cannot be done.
    pub open spec fn linked(self, t: usize, h: usize) -> LinksView {
        if self.can_link(t, h) {
            LinksView { next: self.next.update(h as int, t), prev: self.prev.update(t as int, h) }
        } else {
            self
        }
    }

    /// The links after every join of a queue has been tried, the last of the
    /// queue first. A join is `(t, h)`: the start of `t` to the end of `h`.
    pub open spec fn linked_all(self, queue: Seq<(usize, usize)>) -> LinksView
        decreases queue.len(),
    {
        if queue.len() == 0 {
            self
        } else {
            self.linked(queue.last().0, queue.last().1).linked_all(queue.drop_last())
        }
    }
}

/// No two joins of a queue want the same start or the same end, and each
/// names fragments that exist.
pub open spec fn conflict_free(n: nat, queue: Seq<(usize, usize)>) -> bool {
    &&& forall|i: int| 0 <= i < queue.len() ==> (#[trigger] queue[i]).0 < n && queue[i].1 < n
    &&& forall|i: int, j: int|
        0 <= i < j < queue.len() ==> (#[trigger] queue[i]).0 != (#[trigger] queue[j]).0
    &&& forall|i: int, j: int|
        0 <= i < j < queue.len() ==> (#[trigger] queue[i]).1 != (#[trigger] queue[j]).1
}

/// Joining keeps the links well formed and their number.
pub proof fn lemma_linked_wf(l: LinksView, t: usize, h: usize)
    requires
        l.wf(),
    ensures
        l.linked(t, h).wf(),
        l.linked(t, h).len() == l.len(),
{
    if l.can_link(t, h) {
        let r = l.linked(t, h);
        let n = l.len();
        assert forall|i: int| 0 <= i < n && (#[trigger] r.next[i]) < n implies r.prev[r.next[i] as int]
            == i by {
            if i != h {
                assert(l.next[i] < n);
                assert(l.prev[l.next[i] as int] == i);
            }
        }
        assert forall|i: int| 0 <= i < n && (#[trigger] r.prev[i]) < n implies r.next[r.prev[i] as int]
            == i by {
            if i != t {
                assert(l.prev[i] < n);
                assert(l.next[l.prev[i] as int] == i);
            }
        }
    }
}

/// Trying a whole queue keeps the links well formed and their number.
pub proof fn lemma_linked_all_wf(l: LinksView, queue: Seq<(usize, usize)>)
    requires
        l.wf(),
    ensures
        l.linked_all(queue).wf(),
        l.linked_all(queue).len() == l.len(),
    decreases queue.len(),
{
    if queue.len() > 0 {
        lemma_linked_wf(l, queue.last().0, queue.last().1);
        lemma_linked_all_wf(l.linked(queue.last().0, queue.last().1), queue.drop_last());
    }
}

/// Where no two joins of a queue are in each other's way, and none is in the
/// way of the links already there, every join of the queue is made: a
/// fragment is followed by `t` exactly if the queue joins `t` to it, or the
/// links said so before.
pub proof fn lemma_linked_all_conflict_free(l: LinksView, queue: Seq<(usize, usize)>)
    requires
        l.wf(),
        conflict_free(l.len(), queue),
        forall|i: int| 0 <= i < queue.len() ==> l.can_link((#[trigger] queue[i]).0, queue[i].1),
    ensures
        l.linked_all(queue).len() == l.len(),
        l.linked_all(queue).prev.len() == l.len(),
        forall|i: int|
            0 <= i < queue.len() ==> l.linked_all(queue).next[(#[trigger] queue[i]).1 as int]
                == queue[i].0,
        forall|i: int|
            0 <= i < queue.len() ==> l.linked_all(queue).prev[(#[trigger] queue[i]).0 as int]
                == queue[i].1,
        forall|h: int|
            0 <= h < l.len() && (forall|i: int| 0 <= i < queue.len() ==> (#[trigger] queue[i]).1 != h)
                ==> l.linked_all(queue).next[h] == l.next[h],
        forall|t: int|
            0 <= t < l.len() && (forall|i: int| 0 <= i < queue.len() ==> (#[trigger] queue[i]).0 != t)
                ==> l.linked_all(queue).prev[t] == l.prev[t],
    decreases queue.len(),
{
    if queue.len() > 0 {
        let last = queue.last();
        let rest = queue.drop_last();
        let m = l.linked(last.0, last.1);
        let r = l.linked_all(queue);
        assert(l.can_link(last.0, last.1));
        lemma_linked_wf(l, last.0, last.1);
        assert forall|i: int| 0 <= i < rest.len() implies m.can_link(
            (#[trigger] rest[i]).0,
            rest[i].1,
        ) by {
            assert(rest[i] == queue[i]);
            assert(l.can_link(queue[i].0, queue[i].1));
            assert(queue[i].0 != queue[queue.len() - 1].0);
            assert(queue[i].1 != queue[queue.len() - 1].1);
        }
        assert(conflict_free(m.len(), rest)) by {
            assert forall|i: int| 0 <= i < rest.len() implies (#[trigger] rest[i]).0 < m.len()
                && rest[i].1 < m.len() by {
                assert(rest[i] == queue[i]);
            }
            assert forall|i: int, j: int| 0 <= i < j < rest.len() implies (#[trigger] rest[i]).0 != (
            #[trigger] rest[j]).0 by {
                assert(rest[i] == queue[i] && rest[j] == queue[j]);
            }
            assert forall|i: int, j: int| 0 <= i < j < rest.len() implies (#[trigger] rest[i]).1 != (
            #[trigger] rest[j]).1 by {
                assert(rest[i] == queue[i] && rest[j] == queue[j]);
            }
        }
        lemma_linked_all_conflict_free(m, rest);
        assert(r == m.linked_all(rest));
        assert(m.next[last.1 as int] == last.0 && m.prev[last.0 as int] == last.1);
        assert forall|i: int| 0 <= i < queue.len() implies r.next[(#[trigger] queue[i]).1 as int]
            == queue[i].0 by {
            if i < rest.len() {
                assert(rest[i] == queue[i]);
            } else {
                assert forall|k: int| 0 <= k < rest.len() implies (#[trigger] rest[k]).1
                    != last.1 as int by {
                    assert(rest[k] == queue[k]);
                    assert(queue[k].1 != queue[queue.len() - 1].1);
                }
                assert(queue[i] == last);
                assert(r.next[last.1 as int] == m.next[last.1 as int]);
            }
        }
        assert forall|i: int| 0 <= i < queue.len() implies r.prev[(#[trigger] queue[i]).0 as int]
            == queue[i].1 by {
            if i < rest.len() {
                assert(rest[i] == queue[i]);
            } else {
                assert forall|k: int| 0 <= k < rest.len() implies (#[trigger] rest[k]).0
                    != last.0 as int by {
                    assert(rest[k] == queue[k]);
                    assert(queue[k].0 != queue[queue.len() - 1].0);
                }
                assert(queue[i] == last);
                assert(r.prev[last.0 as int] == m.prev[last.0 as int]);
            }
        }
        assert forall|h: int|
            0 <= h < l.len() && (forall|i: int|
                0 <= i < queue.len() ==> (#[trigger] queue[i]).1 != h) implies r.next[h]
            == l.next[h] by {
            assert(queue[queue.len() - 1].1 != h);
            assert forall|k: int| 0 <= k < rest.len() implies (#[trigger] rest[k]).1 != h by {
                assert(rest[k] == queue[k]);
            }
            assert(r.next[h] == m.next[h]);
            assert(m.next[h] == l.next[h]);
        }
        assert forall|t: int|
            0 <= t < l.len() && (forall|i: int|
                0 <= i < queue.len() ==> (#[trigger] queue[i]).0 != t) implies r.prev[t]
            == l.prev[t] by {
            assert(queue[queue.len() - 1].0 != t);
            assert forall|k: int| 0 <= k < rest.len() implies (#[trigger] rest[k]).0 != t by {
                assert(rest[k] == queue[k]);
            }
            assert(r.prev[t] == m.prev[t]);
            assert(m.prev[t] == l.prev[t]);
        }
    }
}

/// The order in which joins are tried does not matter where none is in
/// another's way: two queues that hold the same joins, each without two joins
/// for one start or one end, leave the same links.
pub proof fn lemma_link_order_irrelevant(n: nat, a: Seq<(usize, usize)>, b: Seq<(usize, usize)>)
    requires
        n <= usize::MAX,
        a.to_multiset() == b.to_multiset(),
        conflict_free(n, a),
        conflict_free(n, b),
    ensures
        LinksView::unlinked(n).linked_all(a) == LinksView::unlinked(n).linked_all(b),
{
    let l = LinksView::unlinked(n);
    a.to_multiset_ensures();
    b.to_multiset_ensures();
    assert(l.wf());
    lemma_linked_all_conflict_free(l, a);
    lemma_linked_all_conflict_free(l, b);
    let ra = l.linked_all(a);
    let rb = l.linked_all(b);
    assert forall|h: int| 0 <= h < n implies ra.next[h] == rb.next[h] by {
        if exists|i: int| 0 <= i < a.len() && (#[trigger] a[i]).1 == h {
            let i = choose|i: int| 0 <= i < a.len() && (#[trigger] a[i]).1 == h;
            assert(a.contains(a[i]));
            assert(b.to_multiset().count(a[i]) > 0);
            assert(b.contains(a[i]));
            let j = choose|j: int| 0 <= j < b.len() && b[j] == a[i];
            assert(rb.next[b[j].1 as int] == b[j].0);
        } else if exists|j: int| 0 <= j < b.len() && (#[trigger] b[j]).1 == h {
            let j = choose|j: int| 0 <= j < b.len() && (#[trigger] b[j]).1 == h;
            assert(b.contains(b[j]));
            assert(a.to_multiset().count(b[j]) > 0);
            assert(a.contains(b[j]));
            let i = choose|i: int| 0 <= i < a.len() && a[i] == b[j];
            assert(a[i].1 == h);
        } else {
            assert(ra.next[h] == l.next[h]);
            assert(rb.next[h] == l.next[h]);
        }
    }
    assert forall|t: int| 0 <= t < n implies ra.prev[t] == rb.prev[t] by {
        if exists|i: int| 0 <= i < a.len() && (#[trigger] a[i]).0 == t {
            let i = choose|i: int| 0 <= i < a.len() && (#[trigger] a[i]).0 == t;
            assert(a.contains(a[i]));
            assert(b.to_multiset().count(a[i]) > 0);
            assert(b.contains(a[i]));
            let j = choose|j: int| 0 <= j < b.len() && b[j] == a[i];
            assert(rb.prev[b[j].0 as int] == b[j].1);
        } else if exists|j: int| 0 <= j < b.len() && (#[trigger] b[j]).0 == t {
            let j = choose|j: int| 0 <= j < b.len() && (#[trigger] b[j]).0 == t;
            assert(b.contains(b[j]));
            assert(a.to_multiset().count(b[j]) > 0);
            assert(a.contains(b[j]));
            let i = choose|i: int| 0 <= i < a.len() && a[i] == b[j];
            assert(a[i].0 == t);
        } else {
            assert(ra.prev[t] == l.prev[t]);
            assert(rb.prev[t] == l.prev[t]);
        }
    }
    assert(ra.next =~= rb.next);
    assert(ra.prev =~= rb.prev);
}

impl Links {
    /// `n` fragments, none linked.
    pub fn new(n: usize) -> (l: Links)
        ensures
            l@ == LinksView::unlinked(n as nat),
            l@.wf(),
    {
        let mut next: Vec<usize> = Vec::new();
        let mut prev: Vec<usize> = Vec::new();
        let mut i: usize = 0;
        while i < n
            invariant
                i <= n,
                next.len() == i,
                prev.len() == i,
                forall|j: int| 0 <= j < i ==> next[j] == n && prev[j] == n,
            decreases n - i,
        {
            next.push(n);
            prev.push(n);
            i += 1;
        }
        let l = Links { next, prev };
        assert(l@.next =~= LinksView::unlinked(n as nat).next);
        assert(l@.prev =~= LinksView::unlinked(n as nat).prev);
        l
    }

    /// Joins the start of `t` to the end of `h` where both are still free,
    /// and says whether it did.
    pub fn link(&mut self, t: usize, h: usize) -> (done: bool)
        requires
            old(self)@.wf(),
        ensures
            final(self)@ == old(self)@.linked(t, h),
            done == old(self)@.can_link(t, h),
            final(self)@.wf(),
    {
        proof {
            lemma_linked_wf(self@, t, h);
        }
        let n = self.next.len();
        if t < n && h < n && self.next[h] == n && self.prev[t] == n {
            self.next.set(h, t);
            self.prev.set(t, h);
            true
        } else {
            false
        }
    }

    /// The links among `n` fragments after every join of `queue` has been
    /// tried, the last of the queue first.
    pub fn link_all(n: usize, queue: &Vec<(usize, usize)>) -> (l: Links)
        ensures
            l@ == LinksView::unlinked(n as nat).linked_all(queue@),
            l@.wf(),
            l@.len() == n,
    {
        let mut l = Links::new(n);
        let mut k: usize = queue.len();
        assert(queue@.take(k as int) =~= queue@);
        while k > 0
            invariant
                k <= queue.len(),
                l@.wf(),
                l@.len() == n,
                LinksView::unlinked(n as nat).linked_all(queue@) == l@.linked_all(
                    queue@.take(k as int),
                ),
            decreases k,
        {
            k -= 1;
            let (t, h) = queue[k];
            proof {
                let q = queue@.take(k + 1);
                assert(q.last() == queue@[k as int]);
                assert(q.drop_last() =~= queue@.take(k as int));
            }
            l.link(t, h);
        }
        assert(queue@.take(0) =~= Seq::empty());
        l
    }
}

} // verus!
