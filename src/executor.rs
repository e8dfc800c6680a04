use vstd::prelude::*;
use crate::borrows::{SystemBorrows, borrows_conflict};
use crate::error::{CantInsertSystem, NoSuchSystem};

verus! {

/// A registered system with its handle, its handle-level dependencies,
/// its execution flag and its declared borrows.
pub struct SystemContainer<S> {
    pub system: S,
    pub handle: Option<u64>,
    pub dependencies: Vec<u64>,
    pub active: bool,
    pub borrows: SystemBorrows,
}

/// Slot `i` holds a system.
pub open spec fn present<S>(slots: Seq<Option<SystemContainer<S>>>, i: int) -> bool {
    0 <= i < slots.len() && slots[i] is Some
}

/// The system in slot `i`.
pub open spec fn at<S>(slots: Seq<Option<SystemContainer<S>>>, i: int) -> SystemContainer<S> {
    slots[i]->Some_0
}

/// Slot `i` holds a system registered under handle `h`.
pub open spec fn handle_at<S>(slots: Seq<Option<SystemContainer<S>>>, i: int, h: u64) -> bool {
    present(slots, i) && at(slots, i).handle == Some(h)
}

/// Some slot holds a system registered under `h`.
pub open spec fn bound<S>(slots: Seq<Option<SystemContainer<S>>>, h: u64) -> bool {
    exists|i: int| handle_at(slots, i, h)
}

/// Dependency edge `j -> i`: a dependency of system `i` resolves to system `j`.
pub open spec fn edge<S>(slots: Seq<Option<SystemContainer<S>>>, j: int, i: int) -> bool {
    present(slots, i) && exists|k: int|
        0 <= k < at(slots, i).dependencies@.len() && handle_at(slots, j, #[trigger] at(slots, i).dependencies@[k])
}

/// `order` lists every present system exactly once, each after all the systems it depends on.
pub open spec fn valid_order<S>(slots: Seq<Option<SystemContainer<S>>>, order: Seq<usize>) -> bool {
    &&& order.no_duplicates()
    &&& forall|p: int| 0 <= p < order.len() ==> present(slots, #[trigger] order[p] as int)
    &&& forall|i: int| present(slots, i) ==> order.contains(i as usize)
    &&& forall|p: int, q: int|
        0 <= p < order.len() && 0 <= q < order.len() && #[trigger] edge(slots, order[q] as int, order[p] as int)
            ==> q < p
}

/// The dependency graph admits a topological order.
pub open spec fn acyclic<S>(slots: Seq<Option<SystemContainer<S>>>) -> bool {
    exists|order: Seq<usize>| valid_order(slots, order)
}

/// Every system that some dependency of `i` resolves to is marked in `placed`.
pub open spec fn ready<S>(slots: Seq<Option<SystemContainer<S>>>, placed: Seq<bool>, i: int) -> bool {
    forall|j: int| #[trigger] edge(slots, j, i) ==> placed[j]
}

/// A distinct sequence of indices below `n` has at most `n` elements.
pub proof fn lemma_distinct_bounded(s: Seq<usize>, n: usize)
    requires
        s.no_duplicates(),
        forall|p: int| 0 <= p < s.len() ==> #[trigger] s[p] < n,
    ensures
        s.len() <= n,
{
    s.unique_seq_to_set();
    vstd::set_lib::range_set_properties::<usize>(0, n);
    assert(s.to_set().subset_of(<usize as vstd::set_lib::FiniteRange>::range_set(0, n)));
    vstd::set_lib::lemma_len_subset(s.to_set(), <usize as vstd::set_lib::FiniteRange>::range_set(0, n));
}

/// When every unplaced system waits on another unplaced one, every topological
/// order would list placed systems only, up to any length.
proof fn lemma_prefix_placed<S>(slots: Seq<Option<SystemContainer<S>>>, placed: Seq<bool>, order: Seq<usize>, k: int)
    requires
        valid_order(slots, order),
        placed.len() == slots.len(),
        slots.len() <= usize::MAX,
        0 <= k <= order.len(),
        forall|i: int| present(slots, i) && !placed[i] ==> !ready(slots, placed, i),
    ensures
        forall|p: int| 0 <= p < k ==> placed[#[trigger] order[p] as int],
    decreases k,
{
    if k > 0 {
        lemma_prefix_placed(slots, placed, order, k - 1);
        let x = order[k - 1] as int;
        assert(present(slots, x));
        if !placed[x] {
            let j = choose|j: int| #[trigger] edge(slots, j, x) && !placed[j];
            let kk = choose|kk: int| 0 <= kk < at(slots, x).dependencies@.len()
                && handle_at(slots, j, #[trigger] at(slots, x).dependencies@[kk]);
            assert(present(slots, j));
            assert(order.contains(j as usize));
            let q = choose|q: int| 0 <= q < order.len() && order[q] == j as usize;
            assert(edge(slots, order[q] as int, order[k - 1] as int));
        }
    }
}

/// When every unplaced system waits on another unplaced one, and some system
/// is unplaced, the dependency graph has a cycle.
proof fn lemma_stuck_cyclic<S>(slots: Seq<Option<SystemContainer<S>>>, placed: Seq<bool>, u: int)
    requires
        placed.len() == slots.len(),
        slots.len() <= usize::MAX,
        present(slots, u),
        !placed[u],
        forall|i: int| present(slots, i) && !placed[i] ==> !ready(slots, placed, i),
    ensures
        !acyclic(slots),
{
    assert forall|order: Seq<usize>| !valid_order(slots, order) by {
        if valid_order(slots, order) {
            lemma_prefix_placed(slots, placed, order, order.len() as int);
            assert(order.contains(u as usize));
            let p = choose|p: int| 0 <= p < order.len() && order[p] == u as usize;
            assert(placed[order[p] as int]);
        }
    }
}

/// Some present system lists `h` among its dependencies.
pub open spec fn depended<S>(slots: Seq<Option<SystemContainer<S>>>, h: u64) -> bool {
    exists|i: int, k: int|
        present(slots, i) && 0 <= k < at(slots, i).dependencies@.len() && at(slots, i).dependencies@[k] == h
}

/// Dependency `d` names a present system, or the handle being inserted.
pub open spec fn resolvable<S>(slots: Seq<Option<SystemContainer<S>>>, handle: Option<u64>, d: u64) -> bool {
    bound(slots, d) || handle == Some(d)
}

/// `deps[k]` is the first dependency that does not resolve.
pub open spec fn first_missing<S>(slots: Seq<Option<SystemContainer<S>>>, handle: Option<u64>, deps: Seq<u64>, k: int) -> bool {
    &&& 0 <= k < deps.len()
    &&& !resolvable(slots, handle, deps[k])
    &&& forall|kk: int| 0 <= kk < k ==> resolvable(slots, handle, #[trigger] deps[kk])
}

/// `post` is `pre` with `c` placed in slot `t`, a present slot holding
/// `c`'s handle or a slot that holds nothing.
pub open spec fn placed_in<S>(pre: Seq<Option<SystemContainer<S>>>, post: Seq<Option<SystemContainer<S>>>, t: int, c: SystemContainer<S>) -> bool {
    &&& 0 <= t <= pre.len()
    &&& post == (if t < pre.len() { pre.update(t, Some(c)) } else { pre.push(Some(c)) })
    &&& present(pre, t) ==> c.handle is Some && handle_at(pre, t, c.handle->Some_0)
    &&& !present(pre, t) ==> (c.handle matches Some(h) ==> !bound(pre, h))
}

proof fn lemma_install_unique<S>(pre: Seq<Option<SystemContainer<S>>>, post: Seq<Option<SystemContainer<S>>>, t: int, c: SystemContainer<S>)
    requires
        handles_unique(pre),
        placed_in(pre, post, t, c),
    ensures
        handles_unique(post),
{
    assert forall|i: int, j: int, h: u64| handle_at(post, i, h) && handle_at(post, j, h) implies i == j by {
        if i != t && j != t {
            assert(handle_at(pre, i, h) && handle_at(pre, j, h));
        } else if i == t && j != t {
            assert(handle_at(pre, j, h));
            if present(pre, t) {
                assert(handle_at(pre, t, h));
            }
        } else if j == t && i != t {
            assert(handle_at(pre, i, h));
            if present(pre, t) {
                assert(handle_at(pre, t, h));
            }
        }
    }
}

/// A system without dependencies placed in slot `t` adds no edge into `t`,
/// and edges out of `t` only from systems that name its fresh handle.
proof fn lemma_install_edges<S>(pre: Seq<Option<SystemContainer<S>>>, post: Seq<Option<SystemContainer<S>>>, t: int, c: SystemContainer<S>)
    requires
        placed_in(pre, post, t, c),
        c.dependencies@.len() == 0,
    ensures
        forall|j: int, i: int| #[trigger] edge(post, j, i) ==> i != t && (edge(pre, j, i) || (j == t
            && !present(pre, t) && c.handle is Some && depended(pre, c.handle->Some_0))),
{
    assert forall|j: int, i: int| #[trigger] edge(post, j, i) implies i != t && (edge(pre, j, i) || (j == t
        && !present(pre, t) && c.handle is Some && depended(pre, c.handle->Some_0))) by {
        let k = choose|k: int| 0 <= k < at(post, i).dependencies@.len()
            && handle_at(post, j, #[trigger] at(post, i).dependencies@[k]);
        assert(i != t);
        assert(at(post, i) == at(pre, i));
        if j != t {
            assert(handle_at(pre, j, at(pre, i).dependencies@[k]));
        } else if present(pre, t) {
            assert(handle_at(pre, t, at(pre, i).dependencies@[k]));
        }
    }
}

/// `post` differs from `pre` at most in what each present system holds
/// besides its handle and dependencies.
pub open spec fn same_graph<S>(pre: Seq<Option<SystemContainer<S>>>, post: Seq<Option<SystemContainer<S>>>) -> bool {
    &&& pre.len() == post.len()
    &&& forall|i: int| #[trigger] present(post, i) == present(pre, i)
    &&& forall|i: int| present(pre, i) ==> #[trigger] at(post, i).handle == at(pre, i).handle
        && at(post, i).dependencies@ == at(pre, i).dependencies@
}

proof fn lemma_same_graph<S>(pre: Seq<Option<SystemContainer<S>>>, post: Seq<Option<SystemContainer<S>>>, order: Seq<usize>)
    requires
        same_graph(pre, post),
        handles_unique(pre),
        valid_order(pre, order),
    ensures
        handles_unique(post),
        valid_order(post, order),
{
    assert forall|j: int, i: int| #[trigger] edge(post, j, i) implies edge(pre, j, i) by {
        let k = choose|k: int| 0 <= k < at(post, i).dependencies@.len()
            && handle_at(post, j, #[trigger] at(post, i).dependencies@[k]);
        assert(present(pre, i));
        assert(at(post, i).handle == at(pre, i).handle);
        assert(at(post, i).dependencies@ == at(pre, i).dependencies@);
        assert(present(pre, j));
        assert(at(post, j).handle == at(pre, j).handle);
        assert(handle_at(pre, j, at(pre, i).dependencies@[k]));
    }
    assert forall|i: int, j: int, h: u64| handle_at(post, i, h) && handle_at(post, j, h) implies i == j by {
        assert(present(pre, i) && present(pre, j));
        assert(at(post, j).handle == at(pre, j).handle);
        assert(at(post, i).handle == at(pre, i).handle);
        assert(handle_at(pre, i, h) && handle_at(pre, j, h));
    }
    assert forall|p: int| 0 <= p < order.len() implies present(post, #[trigger] order[p] as int) by {
        assert(present(pre, order[p] as int));
    }
    assert forall|i: int| present(post, i) implies order.contains(i as usize) by {
        assert(present(pre, i));
    }
}

/// The systems of `order` whose slot is marked active, in order.
pub open spec fn active_in<S>(slots: Seq<Option<SystemContainer<S>>>, order: Seq<usize>) -> Seq<usize>
    decreases order.len(),
{
    if order.len() == 0 {
        Seq::empty()
    } else {
        let rest = active_in(slots, order.drop_last());
        if at(slots, order.last() as int).active {
            rest.push(order.last())
        } else {
            rest
        }
    }
}

/// Whether `i` is listed in `v`.
pub fn listed(v: &Vec<usize>, i: usize) -> (r: bool)
    ensures
        r == v@.contains(i),
{
    let mut p: usize = 0;
    while p < v.len()
        invariant
            p <= v@.len(),
            forall|q: int| 0 <= q < p ==> v@[q] != i,
        decreases v@.len() - p,
    {
        if v[p] == i {
            return true;
        }
        p += 1;
    }
    false
}

/// No two systems share a handle.
pub open spec fn handles_unique<S>(slots: Seq<Option<SystemContainer<S>>>) -> bool {
    forall|i: int, j: int, h: u64| handle_at(slots, i, h) && handle_at(slots, j, h) ==> i == j
}

/// Systems registered under handles, with a topological order kept up to date,
/// a free list of recycled indices and a precomputed conflict matrix.
pub struct Executor<S> {
    slots: Vec<Option<SystemContainer<S>>>,
    free_indices: Vec<usize>,
    systems_sorted: Vec<usize>,
    conflicts: Vec<Vec<bool>>,
    archetypes_generation: Option<u64>,
}

impl<S> Executor<S> {
    /// The registry: slot `i` holds the system of index `i`, if any.
    pub closed spec fn slots(self) -> Seq<Option<SystemContainer<S>>> {
        self.slots@
    }

    /// Indices of removed systems, reused from the end.
    pub closed spec fn free(self) -> Seq<usize> {
        self.free_indices@
    }

    /// The order in which systems run.
    pub closed spec fn sorted(self) -> Seq<usize> {
        self.systems_sorted@
    }

    /// The archetype generation the borrows were last refreshed for.
    pub closed spec fn generation(self) -> Option<u64> {
        self.archetypes_generation
    }

    /// Systems `i` and `j` may not run concurrently.
    pub open spec fn conflict(self, i: int, j: int) -> bool {
        borrows_conflict(at(self.slots(), i).borrows, at(self.slots(), j).borrows)
    }

    /// The index that the next insertion of a new system takes.
    pub open spec fn next_index(self) -> usize {
        if self.free().len() > 0 {
            self.free().last()
        } else {
            self.slots().len() as usize
        }
    }

    /// The index of the system registered under `h`.
    pub open spec fn index_of(self, h: u64) -> int {
        choose|i: int| handle_at(self.slots(), i, h)
    }

    /// The slot an insertion under `handle` fills: the slot of the system it
    /// replaces, else the next free index.
    pub open spec fn target(self, handle: Option<u64>) -> int {
        match handle {
            Some(h) => if bound(self.slots(), h) { self.index_of(h) } else { self.next_index() as int },
            None => self.next_index() as int,
        }
    }

    /// An insertion under `handle` replaces a present system.
    pub open spec fn replaces(self, handle: Option<u64>) -> bool {
        handle matches Some(h) && bound(self.slots(), h)
    }

    /// The registry with `c` placed in slot `t`.
    pub open spec fn installed(self, t: int, c: SystemContainer<S>) -> Seq<Option<SystemContainer<S>>> {
        if t < self.slots().len() {
            self.slots().update(t, Some(c))
        } else {
            self.slots().push(Some(c))
        }
    }

    /// What an insertion of `c` does, from `self` to `post`, returning `r`.
    pub open spec fn inserted(self, post: Self, c: SystemContainer<S>, r: Result<Option<(Vec<u64>, S)>, CantInsertSystem>) -> bool {
        let deps = c.dependencies@;
        let t = self.target(c.handle);
        let missing = exists|k: int| first_missing(self.slots(), c.handle, deps, k);
        &&& post.wf()
        &&& post.generation() == self.generation()
        &&& (r matches Err(CantInsertSystem::DependencyNotFound(_)) <==> missing)
        &&& (r matches Err(CantInsertSystem::DependencyNotFound(d)) ==> exists|k: int|
            first_missing(self.slots(), c.handle, deps, k) && deps[k] == d)
        &&& (r matches Err(CantInsertSystem::CyclicDependency) <==> !missing && !acyclic(self.installed(t, c)))
        &&& (r is Err ==> post.slots() == self.slots() && post.free() == self.free() && post.sorted() == self.sorted())
        &&& (r is Ok ==> post.slots() == self.installed(t, c))
        &&& (r is Ok ==> post.free() == if !self.replaces(c.handle) && self.free().len() > 0 {
            self.free().drop_last()
        } else {
            self.free()
        })
        &&& (r matches Ok(prev) ==> (prev is Some <==> self.replaces(c.handle)))
        &&& (r matches Ok(Some(p)) ==> p.0@ == at(self.slots(), t).dependencies@ && p.1 == at(self.slots(), t).system)
        &&& (deps.len() == 0 ==> r is Ok)
        &&& (r is Ok && deps.len() == 0 && self.replaces(c.handle) ==> post.sorted() == self.sorted())
        &&& (r is Ok && deps.len() == 0 && !self.replaces(c.handle) && !(c.handle matches Some(h) && depended(self.slots(), h))
            ==> post.sorted() == self.sorted().push(t as usize))
    }

    /// The matrix holds the conflict relation over present systems.
    pub closed spec fn matrix_ok(self) -> bool {
        &&& self.conflicts@.len() == self.slots@.len()
        &&& forall|i: int| 0 <= i < self.conflicts@.len() ==> #[trigger] self.conflicts@[i]@.len() == self.slots@.len()
        &&& forall|i: int, j: int|
            0 <= i < self.slots@.len() && 0 <= j < self.slots@.len() ==> #[trigger] self.conflicts@[i]@[j] == (
                present(self.slots@, i) && present(self.slots@, j) && self.conflict(i, j))
    }

    /// The free list holds exactly the empty slots, once each.
    pub open spec fn free_ok(self) -> bool {
        &&& self.free().no_duplicates()
        &&& forall|k: int| 0 <= k < self.free().len() ==> {
            let f = #[trigger] self.free()[k] as int;
            0 <= f < self.slots().len() && !present(self.slots(), f)
        }
        &&& forall|i: int| 0 <= i < self.slots().len() && !present(self.slots(), i)
            ==> self.free().contains(i as usize)
    }

    /// Well-formedness: the invariant every operation keeps.
    pub open spec fn wf(self) -> bool {
        &&& self.free_ok()
        &&& handles_unique(self.slots())
        &&& valid_order(self.slots(), self.sorted())
        &&& self.matrix_ok()
        &&& self.slots().len() < usize::MAX
    }

    /// An executor with no systems.
    pub fn new() -> (r: Self)
        ensures
            r.wf(),
            r.slots().len() == 0,
            r.free().len() == 0,
            r.sorted().len() == 0,
            r.generation() is None,
    {
        Executor {
            slots: Vec::new(),
            free_indices: Vec::new(),
            systems_sorted: Vec::new(),
            conflicts: Vec::new(),
            archetypes_generation: None,
        }
    }

    /// Looks up the index of the system registered under `handle`.
    pub fn resolve_handle(&self, handle: u64) -> (r: Result<usize, NoSuchSystem>)
        requires
            handles_unique(self.slots()),
        ensures
            r is Ok <==> bound(self.slots(), handle),
            r matches Ok(i) ==> handle_at(self.slots(), i as int, handle) && i == self.index_of(handle),
    {
        let mut i: usize = 0;
        while i < self.slots.len()
            invariant
                handles_unique(self.slots()),
                i <= self.slots@.len(),
                forall|j: int| 0 <= j < i ==> !handle_at(self.slots@, j, handle),
            decreases self.slots@.len() - i,
        {
            match &self.slots[i] {
                Some(c) => {
                    if c.handle == Some(handle) {
                        assert(handle_at(self.slots(), i as int, handle));
                        assert(handle_at(self.slots(), self.index_of(handle), handle));
                        return Ok(i);
                    }
                },
                None => {},
            }
            i += 1;
        }
        Err(NoSuchSystem)
    }

    /// Whether a system is registered under `handle`.
    pub fn contains(&self, handle: u64) -> (r: bool)
        requires
            self.wf(),
        ensures
            r == bound(self.slots(), handle),
    {
        self.resolve_handle(handle).is_ok()
    }

    /// Whether the system registered under `handle` takes part in runs.
    pub fn is_active(&self, handle: u64) -> (r: Result<bool, NoSuchSystem>)
        requires
            self.wf(),
        ensures
            r is Ok <==> bound(self.slots(), handle),
            r matches Ok(a) ==> a == at(self.slots(), self.index_of(handle)).active,
    {
        let i = self.resolve_handle(handle)?;
        match &self.slots[i] {
            Some(c) => Ok(c.active),
            None => Err(NoSuchSystem),
        }
    }

    /// Whether every system that a dependency of system `i` resolves to is placed.
    fn dependencies_placed(&self, i: usize, placed: &Vec<bool>) -> (r: bool)
        requires
            handles_unique(self.slots()),
            present(self.slots(), i as int),
            placed@.len() == self.slots().len(),
        ensures
            r == ready(self.slots(), placed@, i as int),
    {
        let c = match &self.slots[i] {
            Some(c) => c,
            None => return true,
        };
        let mut k: usize = 0;
        while k < c.dependencies.len()
            invariant
                handles_unique(self.slots()),
                present(self.slots(), i as int),
                at(self.slots(), i as int) == *c,
                placed@.len() == self.slots().len(),
                k <= c.dependencies@.len(),
                forall|kk: int, j: int| 0 <= kk < k && handle_at(self.slots(), j, c.dependencies@[kk]) ==> placed@[j],
            decreases c.dependencies@.len() - k,
        {
            match self.resolve_handle(c.dependencies[k]) {
                Ok(j) => {
                    if !placed[j] {
                        assert(edge(self.slots(), j as int, i as int));
                        return false;
                    }
                },
                Err(_) => {},
            }
            k += 1;
        }
        assert forall|j: int| #[trigger] edge(self.slots(), j, i as int) implies placed@[j] by {
            let kk = choose|kk: int| 0 <= kk < at(self.slots(), i as int).dependencies@.len()
                && handle_at(self.slots(), j, #[trigger] at(self.slots(), i as int).dependencies@[kk]);
            assert(handle_at(self.slots(), j, c.dependencies@[kk]));
        }
        true
    }

    /// A topological order of the present systems, found by repeated scans in
    /// index order; `None` when the dependencies form a cycle.
    fn sort_systems(&self) -> (r: Option<Vec<usize>>)
        requires
            handles_unique(self.slots()),
            self.slots().len() < usize::MAX,
        ensures
            r matches Some(order) ==> valid_order(self.slots(), order@),
            r is None ==> !acyclic(self.slots()),
    {
        let n = self.slots.len();
        let mut placed: Vec<bool> = Vec::new();
        while placed.len() < n
            invariant
                placed@.len() <= n,
                forall|j: int| 0 <= j < placed@.len() ==> !placed@[j],
            decreases n - placed@.len(),
        {
            placed.push(false);
        }
        let mut order: Vec<usize> = Vec::new();
        let mut progress = true;
        while progress
            invariant
                handles_unique(self.slots()),
                n == self.slots().len(),
                n < usize::MAX,
                placed@.len() == n,
                order@.no_duplicates(),
                forall|p: int| 0 <= p < order@.len() ==> present(self.slots(), #[trigger] order@[p] as int),
                forall|j: int| 0 <= j < n ==> (placed@[j] <==> order@.contains(j as usize)),
                forall|p: int, j: int| 0 <= p < order@.len() && #[trigger] edge(self.slots(), j, order@[p] as int)
                    ==> placed@[j],
                forall|p: int, q: int|
                    0 <= p < order@.len() && 0 <= q < order@.len() && #[trigger] edge(self.slots(), order@[q] as int, order@[p] as int)
                        ==> q < p,
                order@.len() <= n,
                !progress ==> forall|j: int| present(self.slots(), j) && !placed@[j] ==> !ready(self.slots(), placed@, j),
            decreases (n - order@.len()) + (if progress { 1int } else { 0int }),
        {
            proof {
                lemma_distinct_bounded(order@, n);
            }
            let ghost start = order@.len();
            progress = false;
            let mut i: usize = 0;
            while i < n
                invariant
                    handles_unique(self.slots()),
                    n == self.slots().len(),
                    n < usize::MAX,
                    placed@.len() == n,
                    i <= n,
                    order@.no_duplicates(),
                    forall|p: int| 0 <= p < order@.len() ==> present(self.slots(), #[trigger] order@[p] as int),
                    forall|j: int| 0 <= j < n ==> (placed@[j] <==> order@.contains(j as usize)),
                    forall|p: int, j: int| 0 <= p < order@.len() && #[trigger] edge(self.slots(), j, order@[p] as int)
                        ==> placed@[j],
                    forall|p: int, q: int|
                        0 <= p < order@.len() && 0 <= q < order@.len() && #[trigger] edge(self.slots(), order@[q] as int, order@[p] as int)
                            ==> q < p,
                    progress ==> order@.len() > start,
                    !progress ==> order@.len() == start,
                    !progress ==> forall|j: int| 0 <= j < i && present(self.slots(), j) && !placed@[j]
                        ==> !ready(self.slots(), placed@, j),
                decreases n - i,
            {
                let is_present = match &self.slots[i] {
                    Some(_) => true,
                    None => false,
                };
                if is_present && !placed[i] && self.dependencies_placed(i, &placed) {
                    let ghost old_order = order@;
                    let ghost old_placed = placed@;
                    order.push(i);
                    placed.set(i, true);
                    progress = true;
                    assert forall|j: int| 0 <= j < n implies (placed@[j] <==> order@.contains(j as usize)) by {
                        if j != i as int {
                            assert(old_placed[j] <==> old_order.contains(j as usize));
                            if order@.contains(j as usize) {
                                let p = choose|p: int| 0 <= p < order@.len() && order@[p] == j as usize;
                                assert(p < old_order.len());
                                assert(old_order.contains(j as usize));
                            }
                            if old_order.contains(j as usize) {
                                let p = choose|p: int| 0 <= p < old_order.len() && old_order[p] == j as usize;
                                assert(order@[p] == j as usize);
                            }
                        } else {
                            assert(order@[old_order.len() as int] == i);
                        }
                    }
                    assert forall|p: int, q: int|
                        0 <= p < order@.len() && 0 <= q < order@.len() && #[trigger] edge(self.slots(), order@[q] as int, order@[p] as int)
                            implies q < p by {
                        if q == old_order.len() {
                            if p < old_order.len() {
                                assert(edge(self.slots(), i as int, old_order[p] as int));
                                assert(old_placed[i as int]);
                            }
                        }
                    }
                }
                i += 1;
            }
            proof {
                lemma_distinct_bounded(order@, n);
            }
        }
        let mut i: usize = 0;
        while i < n
            invariant
                n == self.slots().len(),
                n < usize::MAX,
                placed@.len() == n,
                i <= n,
                order@.no_duplicates(),
                forall|p: int| 0 <= p < order@.len() ==> present(self.slots(), #[trigger] order@[p] as int),
                forall|j: int| 0 <= j < n ==> (placed@[j] <==> order@.contains(j as usize)),
                forall|p: int, q: int|
                    0 <= p < order@.len() && 0 <= q < order@.len() && #[trigger] edge(self.slots(), order@[q] as int, order@[p] as int)
                        ==> q < p,
                forall|j: int| present(self.slots(), j) && !placed@[j] ==> !ready(self.slots(), placed@, j),
                forall|j: int| 0 <= j < i && present(self.slots(), j) ==> placed@[j],
            decreases n - i,
        {
            let is_present = match &self.slots[i] {
                Some(_) => true,
                None => false,
            };
            if is_present && !placed[i] {
                proof {
                    lemma_stuck_cyclic(self.slots(), placed@, i as int);
                }
                return None;
            }
            i += 1;
        }
        assert forall|j: int| present(self.slots(), j) implies order@.contains(j as usize) by {
            assert(placed@[j]);
        }
        Some(order)
    }

    /// Whether some present system lists `h` among its dependencies.
    fn depended_on(&self, h: u64) -> (r: bool)
        ensures
            r == depended(self.slots(), h),
    {
        let mut i: usize = 0;
        while i < self.slots.len()
            invariant
                i <= self.slots@.len(),
                forall|j: int, k: int| 0 <= j < i && present(self.slots(), j) && 0 <= k < at(self.slots(), j).dependencies@.len()
                    ==> at(self.slots(), j).dependencies@[k] != h,
            decreases self.slots@.len() - i,
        {
            match &self.slots[i] {
                Some(c) => {
                    let mut k: usize = 0;
                    while k < c.dependencies.len()
                        invariant
                            i < self.slots@.len(),
                            at(self.slots(), i as int) == *c,
                            present(self.slots(), i as int),
                            k <= c.dependencies@.len(),
                            forall|kk: int| 0 <= kk < k ==> c.dependencies@[kk] != h,
                        decreases c.dependencies@.len() - k,
                    {
                        if c.dependencies[k] == h {
                            return true;
                        }
                        k += 1;
                    }
                },
                None => {},
            }
            i += 1;
        }
        false
    }

    /// What an insertion without dependencies does: it always succeeds.
    pub open spec fn inserted_free(self, post: Self, system: S, borrows: SystemBorrows, handle: Option<u64>,
        r: Result<Option<(Vec<u64>, S)>, CantInsertSystem>) -> bool {
        exists|d: Vec<u64>| d@.len() == 0
            && self.inserted(post, (SystemContainer { system, handle, dependencies: d, active: true, borrows }), r)
    }

    /// Inserts a system without handle or dependencies; it runs after every
    /// system already present.
    pub fn insert(&mut self, system: S, borrows: SystemBorrows) -> (r: Result<Option<(Vec<u64>, S)>, CantInsertSystem>)
        requires
            old(self).wf(),
            old(self).slots().len() + 1 < usize::MAX,
        ensures
            r == Ok::<Option<(Vec<u64>, S)>, CantInsertSystem>(None),
            old(self).inserted_free(*final(self), system, borrows, None, r),
    {
        let d: Vec<u64> = Vec::new();
        let ghost dg = d;
        let r = self.insert_inner(system, borrows, None, d);
        proof {
            assert(old(self).inserted(*self, (SystemContainer { system, handle: None, dependencies: dg, active: true, borrows }), r));
        }
        r
    }

    /// Inserts a system under `handle`, replacing and handing back any system
    /// registered under it before.
    pub fn insert_with_handle(&mut self, system: S, borrows: SystemBorrows, handle: u64) -> (r: Result<Option<(Vec<u64>, S)>, CantInsertSystem>)
        requires
            old(self).wf(),
            old(self).slots().len() + 1 < usize::MAX,
        ensures
            r is Ok,
            old(self).inserted_free(*final(self), system, borrows, Some(handle), r),
    {
        let d: Vec<u64> = Vec::new();
        let ghost dg = d;
        let r = self.insert_inner(system, borrows, Some(handle), d);
        proof {
            assert(old(self).inserted(*self, (SystemContainer { system, handle: Some(handle), dependencies: dg, active: true, borrows }), r));
        }
        r
    }

    /// Inserts a system without handle that runs after the systems its
    /// dependencies name.
    pub fn insert_with_deps(&mut self, system: S, borrows: SystemBorrows, dependencies: Vec<u64>) -> (r: Result<Option<(Vec<u64>, S)>, CantInsertSystem>)
        requires
            old(self).wf(),
            old(self).slots().len() + 1 < usize::MAX,
        ensures
            old(self).inserted(*final(self), (SystemContainer { system, handle: None, dependencies, active: true, borrows }), r),
    {
        self.insert_inner(system, borrows, None, dependencies)
    }

    /// Inserts a system under `handle` that runs after the systems its
    /// dependencies name, replacing any system registered under `handle`.
    pub fn insert_with_handle_and_deps(&mut self, system: S, borrows: SystemBorrows, handle: u64, dependencies: Vec<u64>) -> (r: Result<Option<(Vec<u64>, S)>, CantInsertSystem>)
        requires
            old(self).wf(),
            old(self).slots().len() + 1 < usize::MAX,
        ensures
            old(self).inserted(*final(self), (SystemContainer { system, handle: Some(handle), dependencies, active: true, borrows }), r),
    {
        self.insert_inner(system, borrows, Some(handle), dependencies)
    }

    /// Inserts `system` under an optional handle, after the systems its
    /// dependencies name; on error the executor is left as it was.
    fn insert_inner(
        &mut self,
        system: S,
        borrows: SystemBorrows,
        handle: Option<u64>,
        dependencies: Vec<u64>,
    ) -> (r: Result<Option<(Vec<u64>, S)>, CantInsertSystem>)
        requires
            old(self).wf(),
            old(self).slots().len() + 1 < usize::MAX,
        ensures
            old(self).inserted(*final(self), (SystemContainer { system, handle, dependencies, active: true, borrows }), r),
    {
        let mut k: usize = 0;
        while k < dependencies.len()
            invariant
                self.wf(),
                k <= dependencies@.len(),
                forall|kk: int| 0 <= kk < k ==> resolvable(self.slots(), handle, #[trigger] dependencies@[kk]),
            decreases dependencies@.len() - k,
        {
            let d = dependencies[k];
            if handle != Some(d) && self.resolve_handle(d).is_err() {
                assert(first_missing(self.slots(), handle, dependencies@, k as int));
                let ghost c = SystemContainer { system, handle, dependencies, active: true, borrows };
                let ghost r: Result<Option<(Vec<u64>, S)>, CantInsertSystem> = Err(CantInsertSystem::DependencyNotFound(d));
                assert(c.dependencies@ == dependencies@);
                assert(r matches Err(CantInsertSystem::DependencyNotFound(d)) ==> exists|k: int|
                    first_missing(self.slots(), c.handle, c.dependencies@, k) && c.dependencies@[k] == d);
                assert(self.wf());
                return Err(CantInsertSystem::DependencyNotFound(d));
            }
            k += 1;
        }
        let existing: Option<usize> = match handle {
            Some(h) => match self.resolve_handle(h) {
                Ok(i) => Some(i),
                Err(_) => None,
            },
            None => None,
        };
        let depended = match handle {
            Some(h) => self.depended_on(h),
            None => false,
        };
        let has_dependencies = dependencies.len() > 0;
        let ghost pre = *self;
        let ghost c = SystemContainer { system, handle, dependencies, active: true, borrows };
        let mut slot = Some(SystemContainer { system, handle, dependencies, active: true, borrows });
        let t: usize;
        let mut from_free = false;
        match existing {
            Some(i) => {
                t = i;
                self.slots.set_and_swap(i, &mut slot);
            },
            None => match self.free_indices.pop() {
                Some(f) => {
                    t = f;
                    from_free = true;
                    self.slots.set(f, slot);
                    slot = None;
                },
                None => {
                    t = self.slots.len();
                    self.slots.push(slot);
                    slot = None;
                },
            },
        }
        proof {
            if existing is None && from_free {
                assert(pre.free()[pre.free().len() - 1] == t);
            }
            assert(t == pre.target(handle));
            assert(placed_in(pre.slots(), self.slots(), t as int, c));
            lemma_install_unique(pre.slots(), self.slots(), t as int, c);
            assert forall|kk: int| !first_missing(pre.slots(), handle, dependencies@, kk) by {
                if 0 <= kk < dependencies@.len() {
                    assert(resolvable(pre.slots(), handle, dependencies@[kk]));
                }
            }
        }
        if has_dependencies {
            match self.sort_systems() {
                Some(order) => {
                    self.systems_sorted = order;
                },
                None => {
                    match existing {
                        Some(i) => {
                            self.slots.set_and_swap(i, &mut slot);
                        },
                        None => {
                            if from_free {
                                self.slots.set(t, None);
                                self.free_indices.push(t);
                            } else {
                                self.slots.pop();
                            }
                        },
                    }
                    assert(self.slots() =~= pre.slots());
                    assert(self.free() =~= pre.free());
                    return Err(CantInsertSystem::CyclicDependency);
                },
            }
        } else {
            proof {
                lemma_install_edges(pre.slots(), self.slots(), t as int, c);
            }
            if existing.is_none() {
                let ghost before = self.systems_sorted@;
                assert(before == pre.sorted());
                assert(!before.contains(t));
                if depended {
                    self.systems_sorted.insert(0, t);
                    assert forall|p: int, q: int|
                        0 <= p < self.sorted().len() && 0 <= q < self.sorted().len()
                        && #[trigger] edge(self.slots(), self.sorted()[q] as int, self.sorted()[p] as int)
                            implies q < p by {
                        if q > 0 && p > 0 {
                            assert(edge(pre.slots(), before[q - 1] as int, before[p - 1] as int));
                        }
                    }
                    assert forall|i: int| present(self.slots(), i) implies self.sorted().contains(i as usize) by {
                        if i != t as int {
                            assert(present(pre.slots(), i));
                            assert(before.contains(i as usize));
                            let p = choose|p: int| 0 <= p < before.len() && before[p] == i as usize;
                            assert(self.sorted()[p + 1] == i as usize);
                        } else {
                            assert(self.sorted()[0] == t);
                        }
                    }
                } else {
                    self.systems_sorted.push(t);
                    assert forall|p: int, q: int|
                        0 <= p < self.sorted().len() && 0 <= q < self.sorted().len()
                        && #[trigger] edge(self.slots(), self.sorted()[q] as int, self.sorted()[p] as int)
                            implies q < p by {
                        assert(p < before.len());
                        if q == before.len() {
                            assert(edge(pre.slots(), t as int, before[p] as int));
                        } else {
                            assert(edge(pre.slots(), before[q] as int, before[p] as int));
                        }
                    }
                    assert forall|i: int| present(self.slots(), i) implies self.sorted().contains(i as usize) by {
                        if i != t as int {
                            assert(present(pre.slots(), i));
                            assert(before.contains(i as usize));
                            let p = choose|p: int| 0 <= p < before.len() && before[p] == i as usize;
                            assert(self.sorted()[p] == i as usize);
                        } else {
                            assert(self.sorted()[before.len() as int] == t);
                        }
                    }
                }
            } else {
                assert forall|p: int, q: int|
                    0 <= p < self.sorted().len() && 0 <= q < self.sorted().len()
                    && #[trigger] edge(self.slots(), self.sorted()[q] as int, self.sorted()[p] as int)
                        implies q < p by {
                    assert(edge(pre.slots(), self.sorted()[q] as int, self.sorted()[p] as int));
                }
                assert forall|i: int| present(self.slots(), i) implies self.sorted().contains(i as usize) by {
                    assert(present(pre.slots(), i));
                }
                assert forall|p: int| 0 <= p < self.sorted().len() implies present(self.slots(), #[trigger] self.sorted()[p] as int) by {
                    assert(present(pre.slots(), self.sorted()[p] as int));
                }
            }
            assert(valid_order(self.slots(), self.sorted()));
        }
        assert(acyclic(self.slots()));
        self.condense_borrows();
        let result = match slot {
            Some(prev) => Ok(Some((prev.dependencies, prev.system))),
            None => Ok(None),
        };
        proof {
            let fr = self.free();
            assert forall|kk: int| 0 <= kk < fr.len() implies ({
                let f = #[trigger] fr[kk] as int;
                0 <= f < self.slots().len() && !present(self.slots(), f)
            }) by {
                assert(fr[kk] == pre.free()[kk]);
                if existing is None && from_free {
                    assert(pre.free()[pre.free().len() - 1] == t);
                    assert(fr[kk] != t);
                }
            }
            assert forall|i: int| 0 <= i < self.slots().len() && !present(self.slots(), i)
                implies fr.contains(i as usize) by {
                assert(i != t as int);
                assert(!present(pre.slots(), i));
                assert(pre.free().contains(i as usize));
                let kk = choose|kk: int| 0 <= kk < pre.free().len() && pre.free()[kk] == i as usize;
                if existing is None && from_free {
                    assert(kk < pre.free().len() - 1);
                    assert(fr[kk] == i as usize);
                }
            }
            assert(self.free_ok());
            assert(self.wf());
            assert(self.slots() == pre.installed(t as int, c));
            assert(result matches Ok(prev) ==> (prev is Some <==> pre.replaces(c.handle)));
            assert(result matches Ok(Some(p)) ==> p.0@ == at(pre.slots(), t as int).dependencies@ && p.1 == at(pre.slots(), t as int).system);
            assert(self.free() == if !pre.replaces(c.handle) && pre.free().len() > 0 {
                pre.free().drop_last()
            } else {
                pre.free()
            });
        }
        result
    }

    /// Turns the system registered under `handle` on or off for runs.
    pub fn set_active(&mut self, handle: u64, active: bool) -> (r: Result<(), NoSuchSystem>)
        requires
            old(self).wf(),
        ensures
            final(self).wf(),
            r is Ok <==> bound(old(self).slots(), handle),
            r is Err ==> final(self).slots() == old(self).slots(),
            r is Ok ==> final(self).slots() == old(self).slots().update(old(self).index_of(handle),
                Some(SystemContainer { active, ..at(old(self).slots(), old(self).index_of(handle)) })),
            final(self).free() == old(self).free(),
            final(self).sorted() == old(self).sorted(),
            final(self).generation() == old(self).generation(),
    {
        let i = self.resolve_handle(handle)?;
        let ghost pre = *self;
        let mut slot: Option<SystemContainer<S>> = None;
        self.slots.set_and_swap(i, &mut slot);
        match slot {
            Some(c) => {
                let mut c = c;
                c.active = active;
                let mut back = Some(c);
                self.slots.set_and_swap(i, &mut back);
            },
            None => {},
        }
        proof {
            assert(self.slots() =~= pre.slots().update(i as int,
                Some(SystemContainer { active, ..at(pre.slots(), i as int) })));
            lemma_same_graph(pre.slots(), self.slots(), self.sorted());
            assert forall|a: int, b: int| 0 <= a < self.slots().len() && 0 <= b < self.slots().len()
                implies self.conflict(a, b) == pre.conflict(a, b) by {
                assert(at(self.slots(), a).borrows == at(pre.slots(), a).borrows);
                assert(at(self.slots(), b).borrows == at(pre.slots(), b).borrows);
            }
            assert forall|a: int| #[trigger] present(self.slots(), a) == present(pre.slots(), a) by {}
            assert(self.free_ok());
            assert(self.matrix_ok());
        }
        Ok(())
    }

    /// Removes the system registered under `handle`, releasing its index to
    /// the free list, and hands back its dependencies and the system.
    pub fn remove(&mut self, handle: u64) -> (r: Option<(Vec<u64>, S)>)
        requires
            old(self).wf(),
        ensures
            final(self).wf(),
            final(self).generation() == old(self).generation(),
            r is Some <==> bound(old(self).slots(), handle),
            r is None ==> final(self).slots() == old(self).slots() && final(self).free() == old(self).free()
                && final(self).sorted() == old(self).sorted(),
            r matches Some(p) ==> {
                let i = old(self).index_of(handle);
                &&& p.0@ == at(old(self).slots(), i).dependencies@
                &&& p.1 == at(old(self).slots(), i).system
                &&& final(self).slots() == old(self).slots().update(i, None)
                &&& final(self).free() == old(self).free().push(i as usize)
                &&& exists|pos: int| 0 <= pos < old(self).sorted().len() && old(self).sorted()[pos] == i as usize
                    && final(self).sorted() == old(self).sorted().remove(pos)
            },
    {
        let i = match self.resolve_handle(handle) {
            Ok(i) => i,
            Err(_) => return None,
        };
        let ghost pre = *self;
        proof {
            lemma_distinct_bounded(self.free(), self.slots@.len() as usize);
        }
        let mut slot: Option<SystemContainer<S>> = None;
        self.slots.set_and_swap(i, &mut slot);
        let mut pos: usize = 0;
        while pos < self.systems_sorted.len() && self.systems_sorted[pos] != i
            invariant
                pos <= self.systems_sorted@.len(),
                forall|p: int| 0 <= p < pos ==> self.systems_sorted@[p] != i,
            decreases self.systems_sorted@.len() - pos,
        {
            pos += 1;
        }
        proof {
            assert(present(pre.slots(), i as int));
            assert(pre.sorted().contains(i));
            if pos == self.systems_sorted@.len() {
                let p = choose|p: int| 0 <= p < pre.sorted().len() && pre.sorted()[p] == i;
                assert(false);
            }
        }
        self.systems_sorted.remove(pos);
        self.free_indices.push(i);
        proof {
            let post = self.slots();
            let before = pre.sorted();
            let after = self.sorted();
            assert(post =~= pre.slots().update(i as int, None));
            assert forall|j: int, k: int| #[trigger] edge(post, j, k) implies edge(pre.slots(), j, k) by {
                let kk = choose|kk: int| 0 <= kk < at(post, k).dependencies@.len()
                    && handle_at(post, j, #[trigger] at(post, k).dependencies@[kk]);
                assert(handle_at(pre.slots(), j, at(pre.slots(), k).dependencies@[kk]));
            }
            assert forall|a: int, b: int, h: u64| handle_at(post, a, h) && handle_at(post, b, h) implies a == b by {
                assert(handle_at(pre.slots(), a, h) && handle_at(pre.slots(), b, h));
            }
            assert forall|p: int, q: int|
                0 <= p < after.len() && 0 <= q < after.len() && #[trigger] edge(post, after[q] as int, after[p] as int)
                    implies q < p by {
                let pp = if p < pos { p } else { p + 1 };
                let qq = if q < pos { q } else { q + 1 };
                assert(edge(pre.slots(), before[qq] as int, before[pp] as int));
            }
            assert forall|p: int| 0 <= p < after.len() implies present(post, #[trigger] after[p] as int) by {
                let pp = if p < pos { p } else { p + 1 };
                assert(after[p] == before[pp]);
                assert(present(pre.slots(), before[pp] as int));
                assert(before[pp] != i);
            }
            assert forall|k: int| present(post, k) implies after.contains(k as usize) by {
                assert(present(pre.slots(), k));
                assert(before.contains(k as usize));
                let pp = choose|pp: int| 0 <= pp < before.len() && before[pp] == k as usize;
                if pp < pos {
                    assert(after[pp] == k as usize);
                } else {
                    assert(pp != pos);
                    assert(after[pp - 1] == k as usize);
                }
            }
            assert(after.no_duplicates());
            let fr = self.free();
            assert(!pre.free().contains(i));
            assert forall|kk: int| 0 <= kk < fr.len() implies ({
                let f = #[trigger] fr[kk] as int;
                0 <= f < post.len() && !present(post, f)
            }) by {
                if kk < pre.free().len() {
                    assert(fr[kk] == pre.free()[kk]);
                }
            }
            assert forall|k: int| 0 <= k < post.len() && !present(post, k) implies fr.contains(k as usize) by {
                if k == i as int {
                    assert(fr[pre.free().len() as int] == i);
                } else {
                    assert(!present(pre.slots(), k));
                    assert(pre.free().contains(k as usize));
                    let kk = choose|kk: int| 0 <= kk < pre.free().len() && pre.free()[kk] == k as usize;
                    assert(fr[kk] == k as usize);
                }
            }
        }
        self.condense_borrows();
        match slot {
            Some(c) => Some((c.dependencies, c.system)),
            None => None,
        }
    }

    /// The system of index `i`.
    pub fn system(&self, i: usize) -> (r: Option<&S>)
        ensures
            r is Some <==> present(self.slots(), i as int),
            r matches Some(s) ==> *s == at(self.slots(), i as int).system,
    {
        if i >= self.slots.len() {
            return None;
        }
        match &self.slots[i] {
            Some(c) => Some(&c.system),
            None => None,
        }
    }

    /// A mutable view of the system of index `i`.
    pub fn system_mut(&mut self, i: usize) -> (r: Option<&mut S>)
        requires
            old(self).wf(),
        ensures
            r is Some <==> present(old(self).slots(), i as int),
            r is None ==> *final(self) == *old(self),
            r matches Some(s) ==> *s == at(old(self).slots(), i as int).system
                && final(self).slots() == old(self).slots().update(i as int,
                    Some(SystemContainer { system: *final(s), ..at(old(self).slots(), i as int) })),
            final(self).free() == old(self).free(),
            final(self).sorted() == old(self).sorted(),
            final(self).generation() == old(self).generation(),
            final(self).wf(),
    {
        if i >= self.slots.len() {
            return None;
        }
        match &self.slots[i] {
            Some(_) => {},
            None => return None,
        }
        let ghost pre = *self;
        proof {
            assert forall|post: Self| #[trigger] post.slots() == pre.slots().update(i as int,
                Some(SystemContainer { system: at(post.slots(), i as int).system, ..at(pre.slots(), i as int) }))
                && present(pre.slots(), i as int)
                && post.free() == pre.free() && post.sorted() == pre.sorted() && post.conflicts == pre.conflicts
                implies post.wf() by {
                lemma_same_graph(pre.slots(), post.slots(), post.sorted());
                assert forall|a: int, b: int| 0 <= a < post.slots().len() && 0 <= b < post.slots().len()
                    implies post.conflict(a, b) == pre.conflict(a, b) by {
                    assert(at(post.slots(), a).borrows == at(pre.slots(), a).borrows);
                    assert(at(post.slots(), b).borrows == at(pre.slots(), b).borrows);
                }
                assert forall|a: int| #[trigger] present(post.slots(), a) == present(pre.slots(), a) by {}
                assert(post.free_ok());
                assert(post.matrix_ok());
            }
        }
        match &mut self.slots[i] {
            Some(c) => Some(&mut c.system),
            None => None,
        }
    }

    /// A mutable view of the system registered under `handle`.
    pub fn get_mut(&mut self, handle: u64) -> (r: Result<&mut S, NoSuchSystem>)
        requires
            old(self).wf(),
        ensures
            r is Ok <==> bound(old(self).slots(), handle),
            r is Err ==> *final(self) == *old(self),
            r matches Ok(s) ==> *s == at(old(self).slots(), old(self).index_of(handle)).system
                && final(self).slots() == old(self).slots().update(old(self).index_of(handle),
                    Some(SystemContainer { system: *final(s), ..at(old(self).slots(), old(self).index_of(handle)) })),
            final(self).free() == old(self).free(),
            final(self).sorted() == old(self).sorted(),
            final(self).generation() == old(self).generation(),
            final(self).wf(),
    {
        let i = self.resolve_handle(handle)?;
        match self.system_mut(i) {
            Some(s) => Ok(s),
            None => Err(NoSuchSystem),
        }
    }

    /// Whether systems `i` and `j` may not run concurrently, read from the
    /// conflict matrix.
    pub fn conflicting(&self, i: usize, j: usize) -> (r: bool)
        requires
            self.wf(),
        ensures
            r == (present(self.slots(), i as int) && present(self.slots(), j as int) && self.conflict(i as int, j as int)),
    {
        if i < self.conflicts.len() && j < self.conflicts.len() {
            self.conflicts[i][j]
        } else {
            false
        }
    }

    /// Whether no system that a dependency of system `i` resolves to is listed
    /// in `a` or `b`.
    pub fn dependencies_clear(&self, i: usize, a: &Vec<usize>, b: &Vec<usize>) -> (r: bool)
        requires
            self.wf(),
        ensures
            r == forall|j: int| #[trigger] edge(self.slots(), j, i as int)
                ==> !a@.contains(j as usize) && !b@.contains(j as usize),
    {
        if i >= self.slots.len() {
            return true;
        }
        let c = match &self.slots[i] {
            Some(c) => c,
            None => return true,
        };
        let mut k: usize = 0;
        while k < c.dependencies.len()
            invariant
                self.wf(),
                present(self.slots(), i as int),
                at(self.slots(), i as int) == *c,
                k <= c.dependencies@.len(),
                forall|kk: int, j: int| 0 <= kk < k && handle_at(self.slots(), j, c.dependencies@[kk])
                    ==> !a@.contains(j as usize) && !b@.contains(j as usize),
            decreases c.dependencies@.len() - k,
        {
            match self.resolve_handle(c.dependencies[k]) {
                Ok(j) => {
                    if listed(a, j) || listed(b, j) {
                        assert(edge(self.slots(), j as int, i as int));
                        return false;
                    }
                },
                Err(_) => {},
            }
            k += 1;
        }
        assert forall|j: int| #[trigger] edge(self.slots(), j, i as int)
            implies !a@.contains(j as usize) && !b@.contains(j as usize) by {
            let kk = choose|kk: int| 0 <= kk < at(self.slots(), i as int).dependencies@.len()
                && handle_at(self.slots(), j, #[trigger] at(self.slots(), i as int).dependencies@[kk]);
            assert(handle_at(self.slots(), j, c.dependencies@[kk]));
        }
        true
    }

    /// The indices of all systems, in run order.
    pub fn systems_sorted(&self) -> (r: Vec<usize>)
        ensures
            r@ == self.sorted(),
    {
        let mut out: Vec<usize> = Vec::new();
        let mut p: usize = 0;
        while p < self.systems_sorted.len()
            invariant
                p <= self.sorted().len(),
                out@ == self.sorted().take(p as int),
            decreases self.sorted().len() - p,
        {
            out.push(self.systems_sorted[p]);
            assert(self.sorted().take(p as int + 1) == self.sorted().take(p as int).push(self.sorted()[p as int]));
            p += 1;
        }
        assert(self.sorted().take(p as int) == self.sorted());
        out
    }

    /// The active systems in run order.
    pub fn run_order(&self) -> (r: Vec<usize>)
        requires
            self.wf(),
        ensures
            r@ == active_in(self.slots(), self.sorted()),
    {
        let mut out: Vec<usize> = Vec::new();
        let mut p: usize = 0;
        while p < self.systems_sorted.len()
            invariant
                self.wf(),
                p <= self.sorted().len(),
                out@ == active_in(self.slots(), self.sorted().take(p as int)),
            decreases self.sorted().len() - p,
        {
            let i = self.systems_sorted[p];
            assert(self.sorted().take(p as int + 1).drop_last() == self.sorted().take(p as int));
            let active = match &self.slots[i] {
                Some(c) => c.active,
                None => false,
            };
            assert(present(self.slots(), self.sorted()[p as int] as int));
            if active {
                out.push(i);
            }
            p += 1;
        }
        assert(self.sorted().take(p as int) == self.sorted());
        out
    }

    /// Whether the archetype access of the systems was computed for another
    /// archetype generation than `generation`, or never.
    pub fn archetypes_outdated(&self, generation: u64) -> (r: bool)
        ensures
            r == (self.generation() != Some(generation)),
    {
        match self.archetypes_generation {
            Some(g) => g != generation,
            None => true,
        }
    }

    /// Records that the archetype access is now that of `generation`.
    pub fn mark_archetypes(&mut self, generation: u64)
        requires
            old(self).wf(),
        ensures
            final(self).wf(),
            final(self).generation() == Some(generation),
            final(self).slots() == old(self).slots(),
            final(self).free() == old(self).free(),
            final(self).sorted() == old(self).sorted(),
    {
        self.archetypes_generation = Some(generation);
    }

    /// Replaces the archetypes that system `i` touches and rebuilds the
    /// conflict matrix; `false`, with nothing changed, when `i` holds no system.
    pub fn set_archetypes(&mut self, i: usize, archetypes: Vec<u64>) -> (r: bool)
        requires
            old(self).wf(),
        ensures
            final(self).wf(),
            r == present(old(self).slots(), i as int),
            !r ==> final(self).slots() == old(self).slots(),
            r ==> final(self).slots() == old(self).slots().update(i as int, Some(SystemContainer {
                borrows: SystemBorrows { archetypes, ..at(old(self).slots(), i as int).borrows },
                ..at(old(self).slots(), i as int)
            })),
            final(self).free() == old(self).free(),
            final(self).sorted() == old(self).sorted(),
            final(self).generation() == old(self).generation(),
    {
        if i >= self.slots.len() {
            return false;
        }
        let ghost pre = *self;
        let mut slot: Option<SystemContainer<S>> = None;
        self.slots.set_and_swap(i, &mut slot);
        match slot {
            Some(c) => {
                let mut c = c;
                c.borrows.archetypes = archetypes;
                let mut back = Some(c);
                self.slots.set_and_swap(i, &mut back);
                proof {
                    lemma_same_graph(pre.slots(), self.slots(), self.sorted());
                    assert forall|a: int| #[trigger] present(self.slots(), a) == present(pre.slots(), a) by {}
                    assert(self.free_ok());
                }
                self.condense_borrows();
                true
            },
            None => {
                self.slots.set_and_swap(i, &mut slot);
                assert(self.slots() =~= pre.slots());
                false
            },
        }
    }

    /// Rebuilds the conflict matrix from the borrows of the present systems.
    fn condense_borrows(&mut self)
        ensures
            final(self).slots() == old(self).slots(),
            final(self).free() == old(self).free(),
            final(self).sorted() == old(self).sorted(),
            final(self).generation() == old(self).generation(),
            final(self).matrix_ok(),
    {
        let n = self.slots.len();
        let mut matrix: Vec<Vec<bool>> = Vec::new();
        let mut i: usize = 0;
        while i < n
            invariant
                n == self.slots@.len(),
                i <= n,
                matrix@.len() == i,
                forall|a: int| 0 <= a < i ==> #[trigger] matrix@[a]@.len() == n,
                forall|a: int, b: int| 0 <= a < i && 0 <= b < n ==> #[trigger] matrix@[a]@[b] == (
                    present(self.slots@, a) && present(self.slots@, b) && self.conflict(a, b)),
            decreases n - i,
        {
            let mut row: Vec<bool> = Vec::new();
            let mut j: usize = 0;
            while j < n
                invariant
                    n == self.slots@.len(),
                    i < n,
                    j <= n,
                    row@.len() == j,
                    forall|b: int| 0 <= b < j ==> #[trigger] row@[b] == (
                        present(self.slots@, i as int) && present(self.slots@, b) && self.conflict(i as int, b)),
                decreases n - j,
            {
                let c = match (&self.slots[i], &self.slots[j]) {
                    (Some(a), Some(b)) => a.borrows.conflicts_with(&b.borrows),
                    _ => false,
                };
                row.push(c);
                j += 1;
            }
            matrix.push(row);
            i += 1;
        }
        self.conflicts = matrix;
    }
}

} // verus!
