use vstd::prelude::*;
use crate::borrows::lemma_conflict_symmetric;
use crate::executor::{Executor, active_in, at, edge, present};

verus! {

/// Systems `i` and `j` are both present and may not run concurrently.
pub open spec fn clash<S>(e: Executor<S>, i: int, j: int) -> bool {
    present(e.slots(), i) && present(e.slots(), j) && e.conflict(i, j)
}

/// Candidate `c` may start: none of the systems it depends on is still
/// pending, and it clashes with no busy system nor with an earlier candidate
/// that was held back.
pub open spec fn admissible<S>(e: Executor<S>, pending: Seq<usize>, busy: Seq<usize>, kept: Seq<usize>, c: usize) -> bool {
    &&& forall|j: int| #[trigger] edge(e.slots(), j, c as int) ==> !pending.contains(j as usize)
    &&& forall|p: int| 0 <= p < busy.len() ==> !clash(e, c as int, #[trigger] busy[p] as int)
    &&& forall|p: int| 0 <= p < kept.len() ==> !clash(e, c as int, #[trigger] kept[p] as int)
}

/// One admission pass over `cands` in order: the systems started, and those
/// held back.
pub open spec fn admit_split<S>(e: Executor<S>, pending: Seq<usize>, running: Seq<usize>, cands: Seq<usize>) -> (Seq<usize>, Seq<usize>)
    decreases cands.len(),
{
    if cands.len() == 0 {
        (Seq::empty(), Seq::empty())
    } else {
        let (started, kept) = admit_split(e, pending, running, cands.drop_last());
        let c = cands.last();
        if admissible(e, pending, running + started, kept, c) {
            (started.push(c), kept)
        } else {
            (started, kept.push(c))
        }
    }
}

/// The systems that `active_in` keeps come from the order, once each.
pub proof fn lemma_active_in<S>(slots: Seq<Option<crate::executor::SystemContainer<S>>>, s: Seq<usize>)
    requires
        s.no_duplicates(),
    ensures
        active_in(slots, s).no_duplicates(),
        forall|x: usize| active_in(slots, s).contains(x) ==> s.contains(x),
    decreases s.len(),
{
    if s.len() > 0 {
        let init = s.drop_last();
        lemma_active_in(slots, init);
        assert forall|x: usize| init.contains(x) implies s.contains(x) by {
            let q = choose|q: int| 0 <= q < init.len() && init[q] == x;
            assert(s[q] == x);
        }
        let r = active_in(slots, init);
        if at(slots, s.last() as int).active {
            assert(!init.contains(s.last())) by {
                if init.contains(s.last()) {
                    let q = choose|q: int| 0 <= q < init.len() && init[q] == s.last();
                    assert(s[q] == s[s.len() - 1]);
                }
            }
            assert forall|x: usize| r.push(s.last()).contains(x) implies s.contains(x) by {
                if x != s.last() {
                    let q = choose|q: int| 0 <= q < r.len() + 1 && r.push(s.last())[q] == x;
                    assert(r.contains(x));
                }
            }
        }
    }
}

/// No system of `s` depends on itself or on a system listed after it.
pub open spec fn forward<S>(slots: Seq<Option<crate::executor::SystemContainer<S>>>, s: Seq<usize>) -> bool {
    forall|a: int, b: int| 0 <= a <= b < s.len() ==> !#[trigger] edge(slots, s[b] as int, s[a] as int)
}

/// Keeping the active systems of a forward order keeps it forward.
pub proof fn lemma_active_in_forward<S>(slots: Seq<Option<crate::executor::SystemContainer<S>>>, s: Seq<usize>)
    requires
        s.no_duplicates(),
        forward(slots, s),
    ensures
        forward(slots, active_in(slots, s)),
    decreases s.len(),
{
    if s.len() > 0 {
        let init = s.drop_last();
        assert(forward(slots, init)) by {
            assert forall|a: int, b: int| 0 <= a <= b < init.len() implies !#[trigger] edge(slots, init[b] as int, init[a] as int) by {
                assert(init[a] == s[a] && init[b] == s[b]);
            }
        }
        assert(init.no_duplicates());
        lemma_active_in_forward(slots, init);
        lemma_active_in(slots, init);
        let r = active_in(slots, init);
        let last = s.last();
        if at(slots, last as int).active {
            let r2 = r.push(last);
            assert forall|a: int, b: int| 0 <= a <= b < r2.len() implies !#[trigger] edge(slots, r2[b] as int, r2[a] as int) by {
                if b == r.len() {
                    if a == r.len() {
                        assert(!edge(slots, s[s.len() - 1] as int, s[s.len() - 1] as int));
                    } else {
                        assert(r.contains(r[a]));
                        assert(init.contains(r[a]));
                        let p = choose|p: int| 0 <= p < init.len() && init[p] == r[a];
                        assert(!edge(slots, s[s.len() - 1] as int, s[p] as int));
                    }
                } else {
                    assert(r2[a] == r[a] && r2[b] == r[b]);
                }
            }
        }
    }
}

/// Clash is symmetric.
pub proof fn lemma_clash_symmetric<S>(e: Executor<S>, i: int, j: int)
    ensures
        clash(e, i, j) == clash(e, j, i),
{
    lemma_conflict_symmetric(at(e.slots(), i).borrows, at(e.slots(), j).borrows);
}

proof fn lemma_first_admitted<S>(e: Executor<S>, pending: Seq<usize>, running: Seq<usize>, t: Seq<usize>, k: int)
    requires
        e.wf(),
        1 <= k <= t.len(),
        running.len() == 0,
        pending == t,
        forward(e.slots(), t),
    ensures
        admit_split(e, pending, running, t.take(k)).0.len() > 0,
    decreases k,
{
    assert(t.take(k).drop_last() == t.take(k - 1));
    if k == 1 {
        let c = t[0];
        assert(t.take(1).last() == c);
        assert forall|j: int| #[trigger] edge(e.slots(), j, c as int) implies !pending.contains(j as usize) by {
            assert(present(e.slots(), j));
            if pending.contains(j as usize) {
                let b = choose|b: int| 0 <= b < t.len() && t[b] == j as usize;
                assert(t[b] as int == j);
                assert(!edge(e.slots(), t[b] as int, t[0] as int));
            }
        }
        assert(running + Seq::<usize>::empty() == Seq::<usize>::empty());
        assert(admissible(e, pending, running + Seq::<usize>::empty(), Seq::<usize>::empty(), c));
        assert(t.take(0) == Seq::<usize>::empty());
        assert(admit_split(e, pending, running, t.take(0)) == (Seq::<usize>::empty(), Seq::<usize>::empty()));
        assert(admit_split(e, pending, running, t.take(1)).0 == Seq::<usize>::empty().push(c));
    } else {
        lemma_first_admitted(e, pending, running, t, k - 1);
        let prev = admit_split(e, pending, running, t.take(k - 1));
        assert(t.take(k).len() > 0);
        assert(admit_split(e, pending, running, t.take(k)).0.len() >= prev.0.len());
    }
}

/// When systems wait and none runs, an admission pass starts at least one:
/// a run of a well-formed executor never stalls.
pub proof fn lemma_admission_progress<S>(d: Dispatch, e: Executor<S>)
    requires
        e.wf(),
        d.wf(e),
        d.to_run().len() > 0,
        d.running().len() == 0,
    ensures
        admit_split(e, d.to_run() + d.running(), d.running(), d.to_run()).0.len() > 0,
{
    assert(d.to_run() + d.running() == d.to_run());
    lemma_first_admitted(e, d.to_run(), d.running(), d.to_run(), d.to_run().len() as int);
    assert(d.to_run().take(d.to_run().len() as int) == d.to_run());
}

/// The state of one parallel run: systems still to start, systems running,
/// and systems that have finished.
pub struct Dispatch {
    to_run: Vec<usize>,
    running: Vec<usize>,
    finished: Vec<usize>,
}

impl Dispatch {
    pub closed spec fn to_run(self) -> Seq<usize> {
        self.to_run@
    }

    pub closed spec fn running(self) -> Seq<usize> {
        self.running@
    }

    pub closed spec fn finished(self) -> Seq<usize> {
        self.finished@
    }

    /// No two running systems clash.
    pub open spec fn conflict_free<S>(self, e: Executor<S>) -> bool {
        forall|p: int, q: int| 0 <= p < self.running().len() && 0 <= q < self.running().len() && p != q
            ==> !clash(e, #[trigger] self.running()[p] as int, #[trigger] self.running()[q] as int)
    }

    /// Every system that started has none of its dependencies still pending.
    pub open spec fn dependencies_observed<S>(self, e: Executor<S>) -> bool {
        forall|x: usize, j: int|
            (self.running().contains(x) || self.finished().contains(x)) && #[trigger] edge(e.slots(), j, x as int)
            ==> !self.to_run().contains(j as usize) && !self.running().contains(j as usize)
    }

    /// The invariant of a run against executor `e`.
    pub open spec fn wf<S>(self, e: Executor<S>) -> bool {
        &&& self.conflict_free(e)
        &&& self.dependencies_observed(e)
        &&& self.running().no_duplicates()
        &&& self.to_run().no_duplicates()
        &&& forall|x: usize| self.to_run().contains(x) ==> !self.running().contains(x)
        &&& forward(e.slots(), self.to_run())
    }

    /// A run of the active systems of `e`, in run order, none started yet.
    pub fn start<S>(e: &Executor<S>) -> (r: Self)
        requires
            e.wf(),
        ensures
            r.wf(*e),
            r.to_run() == active_in(e.slots(), e.sorted()),
            r.running().len() == 0,
            r.finished().len() == 0,
    {
        let order = e.run_order();
        proof {
            lemma_active_in(e.slots(), e.sorted());
            let s = e.sorted();
            assert forall|a: int, b: int| 0 <= a <= b < s.len() implies !#[trigger] edge(e.slots(), s[b] as int, s[a] as int) by {}
            lemma_active_in_forward(e.slots(), e.sorted());
        }
        Dispatch { to_run: order, running: Vec::new(), finished: Vec::new() }
    }

    /// Whether every system of the run has finished.
    pub fn is_done(&self) -> (r: bool)
        ensures
            r == (self.to_run().len() == 0 && self.running().len() == 0),
    {
        self.to_run.len() == 0 && self.running.len() == 0
    }

    /// Whether systems are waiting to start while none runs.
    pub fn is_stalled(&self) -> (r: bool)
        ensures
            r == (self.to_run().len() > 0 && self.running().len() == 0),
    {
        self.to_run.len() > 0 && self.running.len() == 0
    }

    /// Records that running system `index` has finished; `false`, with nothing
    /// changed, when it is not running.
    pub fn finish<S>(&mut self, e: &Executor<S>, index: usize) -> (r: bool)
        requires
            old(self).wf(*e),
        ensures
            final(self).wf(*e),
            r == old(self).running().contains(index),
            final(self).to_run() == old(self).to_run(),
            !r ==> final(self).running() == old(self).running() && final(self).finished() == old(self).finished(),
            r ==> final(self).finished() == old(self).finished().push(index) && exists|pos: int|
                0 <= pos < old(self).running().len() && old(self).running()[pos] == index
                && final(self).running() == old(self).running().remove(pos),
    {
        let mut pos: usize = 0;
        while pos < self.running.len() && self.running[pos] != index
            invariant
                pos <= self.running@.len(),
                forall|q: int| 0 <= q < pos ==> self.running@[q] != index,
            decreases self.running@.len() - pos,
        {
            pos += 1;
        }
        if pos == self.running.len() {
            return false;
        }
        let ghost pre = *self;
        self.running.remove(pos);
        self.finished.push(index);
        proof {
            let before = pre.running@;
            let after = self.running@;
            assert forall|a: int, b: int| 0 <= a < after.len() && 0 <= b < after.len() && a != b
                implies !clash(*e, #[trigger] after[a] as int, #[trigger] after[b] as int) by {
                let aa = if a < pos { a } else { a + 1 };
                let bb = if b < pos { b } else { b + 1 };
                assert(after[a] == before[aa] && after[b] == before[bb]);
            }
            assert forall|x: usize| after.contains(x) implies before.contains(x) by {
                let q = choose|q: int| 0 <= q < after.len() && after[q] == x;
                let qq = if q < pos { q } else { q + 1 };
                assert(before[qq] == x);
            }
            assert forall|x: usize| self.finished@.contains(x) implies pre.finished@.contains(x) || x == index by {
                let q = choose|q: int| 0 <= q < self.finished@.len() && self.finished@[q] == x;
                if q < pre.finished@.len() {
                    assert(pre.finished@[q] == x);
                }
            }
            assert(before.contains(index)) by {
                assert(before[pos as int] == index);
            }
            assert(after.no_duplicates()) by {
                assert forall|a: int, b: int| 0 <= a < after.len() && 0 <= b < after.len() && a != b
                    implies after[a] != after[b] by {
                    let aa = if a < pos { a } else { a + 1 };
                    let bb = if b < pos { b } else { b + 1 };
                    assert(after[a] == before[aa] && after[b] == before[bb]);
                }
            }
        }
        true
    }

    /// Starts, in order, every waiting system that may start now, and returns them.
    pub fn admit_ready<S>(&mut self, e: &Executor<S>) -> (r: Vec<usize>)
        requires
            e.wf(),
            old(self).wf(*e),
        ensures
            final(self).wf(*e),
            ({
                let (started, kept) = admit_split(*e, old(self).to_run() + old(self).running(), old(self).running(), old(self).to_run());
                &&& r@ == started
                &&& final(self).to_run() == kept
                &&& final(self).running() == old(self).running() + started
            }),
            final(self).finished() == old(self).finished(),
    {
        let ghost pending = self.to_run@ + self.running@;
        let mut started: Vec<usize> = Vec::new();
        let mut kept: Vec<usize> = Vec::new();
        let mut p: usize = 0;
        while p < self.to_run.len()
            invariant
                e.wf(),
                self.wf(*e),
                pending == self.to_run@ + self.running@,
                p <= self.to_run@.len(),
                (started@, kept@) == admit_split(*e, pending, self.running@, self.to_run@.take(p as int)),
                forall|a: int, b: int| 0 <= a < (self.running@ + started@).len() && 0 <= b < (self.running@ + started@).len() && a != b
                    ==> !clash(*e, #[trigger] (self.running@ + started@)[a] as int, #[trigger] (self.running@ + started@)[b] as int),
                forall|x: usize, j: int| started@.contains(x) && #[trigger] edge(e.slots(), j, x as int)
                    ==> !pending.contains(j as usize),
                (self.running@ + started@).no_duplicates(),
                forall|q: int| 0 <= q < started@.len() ==> self.to_run@.take(p as int).contains(#[trigger] started@[q]),
                forall|q: int| 0 <= q < kept@.len() ==> self.to_run@.take(p as int).contains(#[trigger] kept@[q]),
                kept@.no_duplicates(),
                forall|x: usize| kept@.contains(x) ==> !started@.contains(x),
                forward(e.slots(), kept@),
            decreases self.to_run@.len() - p,
        {
            let c = self.to_run[p];
            assert(self.to_run@.take(p as int + 1).drop_last() == self.to_run@.take(p as int));
            let free = e.dependencies_clear(c, &self.to_run, &self.running)
                && !clashes_with_any(e, c, &self.running)
                && !clashes_with_any(e, c, &started)
                && !clashes_with_any(e, c, &kept);
            let ghost busy = self.running@ + started@;
            proof {
                if free {
                    assert forall|q: int| 0 <= q < busy.len() implies !clash(*e, c as int, #[trigger] busy[q] as int) by {
                        if q < self.running@.len() {
                            assert(busy[q] == self.running@[q]);
                        } else {
                            assert(busy[q] == started@[q - self.running@.len()]);
                        }
                    }
                    assert(admissible(*e, pending, busy, kept@, c));
                } else {
                    if admissible(*e, pending, busy, kept@, c) {
                        assert forall|q: int| 0 <= q < self.running@.len() implies !clash(*e, c as int, #[trigger] self.running@[q] as int) by {
                            assert(busy[q] == self.running@[q]);
                        }
                        assert forall|q: int| 0 <= q < started@.len() implies !clash(*e, c as int, #[trigger] started@[q] as int) by {
                            assert(busy[q + self.running@.len()] == started@[q]);
                        }
                        assert forall|j: int| #[trigger] edge(e.slots(), j, c as int)
                            implies !self.to_run@.contains(j as usize) && !self.running@.contains(j as usize) by {
                            assert(!pending.contains(j as usize));
                            if self.to_run@.contains(j as usize) {
                                let q = choose|q: int| 0 <= q < self.to_run@.len() && self.to_run@[q] == j as usize;
                                assert(pending[q] == j as usize);
                            }
                            if self.running@.contains(j as usize) {
                                let q = choose|q: int| 0 <= q < self.running@.len() && self.running@[q] == j as usize;
                                assert(pending[q + self.to_run@.len()] == j as usize);
                            }
                        }
                    }
                }
            }
            if free {
                let ghost before = self.running@ + started@;
                started.push(c);
                proof {
                    let after = self.running@ + started@;
                    assert(after == before.push(c));
                    assert forall|a: int, b: int| 0 <= a < after.len() && 0 <= b < after.len() && a != b
                        implies !clash(*e, #[trigger] after[a] as int, #[trigger] after[b] as int) by {
                        if a == before.len() {
                            assert(!clash(*e, c as int, before[b] as int));
                        } else if b == before.len() {
                            assert(!clash(*e, c as int, before[a] as int));
                            lemma_clash_symmetric(*e, c as int, before[a] as int);
                        } else {
                            assert(after[a] == before[a] && after[b] == before[b]);
                        }
                    }
                    assert forall|j: int| #[trigger] edge(e.slots(), j, c as int) implies !pending.contains(j as usize) by {
                        if pending.contains(j as usize) {
                            let q = choose|q: int| 0 <= q < pending.len() && pending[q] == j as usize;
                            if q < self.to_run@.len() {
                                assert(self.to_run@.contains(j as usize));
                            } else {
                                assert(self.running@[q - self.to_run@.len()] == j as usize);
                                assert(self.running@.contains(j as usize));
                            }
                        }
                    }
                    assert(!before.contains(c)) by {
                        if before.contains(c) {
                            let q = choose|q: int| 0 <= q < before.len() && before[q] == c;
                            if q < self.running@.len() {
                                assert(self.running@[q] == c);
                                assert(pending[q + self.to_run@.len()] == c);
                                assert(self.to_run@.contains(c));
                            } else {
                                let s = started@[q - self.running@.len()];
                                assert(self.to_run@.take(p as int).contains(s));
                                let w = choose|w: int| 0 <= w < p && self.to_run@.take(p as int)[w] == s;
                                assert(self.to_run@[w] == self.to_run@[p as int]);
                            }
                        }
                    }
                    assert forall|x: usize, j: int| started@.contains(x) && #[trigger] edge(e.slots(), j, x as int)
                        implies !pending.contains(j as usize) by {
                        if x != c {
                            let q = choose|q: int| 0 <= q < started@.len() && started@[q] == x;
                            assert(started@.drop_last()[q] == x);
                        }
                    }
                    assert forall|q: int| 0 <= q < kept@.len() implies self.to_run@.take(p as int + 1).contains(#[trigger] kept@[q]) by {
                        let w = choose|w: int| 0 <= w < p && self.to_run@.take(p as int)[w] == kept@[q];
                        assert(self.to_run@.take(p as int + 1)[w] == kept@[q]);
                    }
                    assert forall|x: usize| kept@.contains(x) implies !started@.contains(x) by {
                        if x == c {
                            let q = choose|q: int| 0 <= q < kept@.len() && kept@[q] == x;
                            let w = choose|w: int| 0 <= w < p && self.to_run@.take(p as int)[w] == kept@[q];
                            assert(self.to_run@[w] == self.to_run@[p as int]);
                        } else if started@.contains(x) {
                            let q = choose|q: int| 0 <= q < started@.len() && started@[q] == x;
                            assert(started@.drop_last()[q] == x);
                        }
                    }
                    assert forall|q: int| 0 <= q < started@.len() implies self.to_run@.take(p as int + 1).contains(#[trigger] started@[q]) by {
                        if q < started@.len() - 1 {
                            assert(self.to_run@.take(p as int).contains(started@[q]));
                            let w = choose|w: int| 0 <= w < p && self.to_run@.take(p as int)[w] == started@[q];
                            assert(self.to_run@.take(p as int + 1)[w] == started@[q]);
                        } else {
                            assert(self.to_run@.take(p as int + 1)[p as int] == c);
                        }
                    }
                }
            } else {
                let ghost kept_before = kept@;
                proof {
                    assert(!kept_before.contains(c)) by {
                        if kept_before.contains(c) {
                            let q = choose|q: int| 0 <= q < kept_before.len() && kept_before[q] == c;
                            let w = choose|w: int| 0 <= w < p && self.to_run@.take(p as int)[w] == kept_before[q];
                            assert(self.to_run@[w] == self.to_run@[p as int]);
                        }
                    }
                    assert(!started@.contains(c)) by {
                        if started@.contains(c) {
                            let q = choose|q: int| 0 <= q < started@.len() && started@[q] == c;
                            let w = choose|w: int| 0 <= w < p && self.to_run@.take(p as int)[w] == started@[q];
                            assert(self.to_run@[w] == self.to_run@[p as int]);
                        }
                    }
                }
                kept.push(c);
                proof {
                    assert forall|a: int, b: int| 0 <= a <= b < kept@.len() implies !#[trigger] edge(e.slots(), kept@[b] as int, kept@[a] as int) by {
                        if b == kept@.len() - 1 {
                            if a == b {
                                assert(!edge(e.slots(), self.to_run@[p as int] as int, self.to_run@[p as int] as int));
                            } else {
                                let w = choose|w: int| 0 <= w < p && self.to_run@.take(p as int)[w] == kept_before[a];
                                assert(!edge(e.slots(), self.to_run@[p as int] as int, self.to_run@[w] as int));
                            }
                        } else {
                            assert(kept@[a] == kept_before[a] && kept@[b] == kept_before[b]);
                        }
                    }
                    assert forall|q: int| 0 <= q < kept@.len() implies self.to_run@.take(p as int + 1).contains(#[trigger] kept@[q]) by {
                        if q < kept@.len() - 1 {
                            let w = choose|w: int| 0 <= w < p && self.to_run@.take(p as int)[w] == kept_before[q];
                            assert(self.to_run@.take(p as int + 1)[w] == kept@[q]);
                        } else {
                            assert(self.to_run@.take(p as int + 1)[p as int] == c);
                        }
                    }
                    assert forall|x: usize| kept@.contains(x) implies !started@.contains(x) by {
                        if x != c {
                            let q = choose|q: int| 0 <= q < kept@.len() && kept@[q] == x;
                            assert(kept_before[q] == x);
                        }
                    }
                    assert forall|q: int| 0 <= q < started@.len() implies self.to_run@.take(p as int + 1).contains(#[trigger] started@[q]) by {
                        let w = choose|w: int| 0 <= w < p && self.to_run@.take(p as int)[w] == started@[q];
                        assert(self.to_run@.take(p as int + 1)[w] == started@[q]);
                    }
                }
            }
            p += 1;
        }
        proof {
            assert(self.to_run@.take(p as int) == self.to_run@);
        }
        let mut out: Vec<usize> = Vec::new();
        let mut q: usize = 0;
        while q < started.len()
            invariant
                q <= started@.len(),
                out@ == started@.take(q as int),
            decreases started@.len() - q,
        {
            out.push(started[q]);
            assert(started@.take(q as int + 1) == started@.take(q as int).push(started@[q as int]));
            q += 1;
        }
        assert(started@.take(started@.len() as int) == started@);
        let ghost old_run = self.running@;
        let ghost old_to_run = self.to_run@;
        self.running.append(&mut started);
        self.to_run = kept;
        proof {
            assert(self.running@ == old_run + out@);
            assert forall|x: usize| self.to_run@.contains(x) implies !self.running@.contains(x) by {
                let q = choose|q: int| 0 <= q < self.to_run@.len() && self.to_run@[q] == x;
                let w = choose|w: int| 0 <= w < old_to_run.len() && old_to_run.take(old_to_run.len() as int)[w] == x;
                assert(old_to_run.contains(x));
                assert(!old_run.contains(x));
                assert(!out@.contains(x));
            }
            assert forall|x: usize, j: int|
                (self.running@.contains(x) || self.finished@.contains(x)) && #[trigger] edge(e.slots(), j, x as int)
                implies !self.to_run@.contains(j as usize) && !self.running@.contains(j as usize) by {
                let jj = j as usize;
                let in_pending = old_to_run.contains(jj) || old_run.contains(jj);
                if self.to_run@.contains(jj) {
                    let q = choose|q: int| 0 <= q < self.to_run@.len() && self.to_run@[q] == jj;
                    let w = choose|w: int| 0 <= w < old_to_run.len() && old_to_run.take(old_to_run.len() as int)[w] == jj;
                    assert(old_to_run.contains(jj));
                }
                if self.running@.contains(jj) {
                    let q = choose|q: int| 0 <= q < self.running@.len() && self.running@[q] == jj;
                    if q < old_run.len() {
                        assert(old_run.contains(jj));
                    } else {
                        let w = choose|w: int| 0 <= w < old_to_run.len() && old_to_run.take(old_to_run.len() as int)[w] == out@[q - old_run.len()];
                        assert(old_to_run.contains(jj));
                    }
                }
                if in_pending {
                    if out@.contains(x) {
                        assert(pending.contains(jj)) by {
                            if old_to_run.contains(jj) {
                                let q = choose|q: int| 0 <= q < old_to_run.len() && old_to_run[q] == jj;
                                assert(pending[q] == jj);
                            } else {
                                let q = choose|q: int| 0 <= q < old_run.len() && old_run[q] == jj;
                                assert(pending[q + old_to_run.len()] == jj);
                            }
                        }
                    } else if self.running@.contains(x) {
                        let q = choose|q: int| 0 <= q < self.running@.len() && self.running@[q] == x;
                        if q >= old_run.len() {
                            assert(out@[q - old_run.len()] == x);
                        }
                        assert(old_run.contains(x));
                    }
                }
            }
        }
        out
    }
}

/// Whether system `c` clashes with some system of `v`.
fn clashes_with_any<S>(e: &Executor<S>, c: usize, v: &Vec<usize>) -> (r: bool)
    requires
        e.wf(),
    ensures
        r == exists|p: int| 0 <= p < v@.len() && clash(*e, c as int, #[trigger] v@[p] as int),
{
    let mut p: usize = 0;
    while p < v.len()
        invariant
            e.wf(),
            p <= v@.len(),
            forall|q: int| 0 <= q < p ==> !clash(*e, c as int, #[trigger] v@[q] as int),
        decreases v@.len() - p,
    {
        if e.conflicting(c, v[p]) {
            return true;
        }
        p += 1;
    }
    false
}

} // verus!
