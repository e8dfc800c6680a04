use vstd::prelude::*;
use crate::dispatch::{Dispatch, clash};
use crate::error::CantInsertSystem;
use crate::executor::{Executor, SystemContainer, bound, edge, handle_at, valid_order};

verus! {

/// In every well-formed executor, which every insertion and removal leaves
/// behind, the run order lists each present system exactly once, and every
/// system after all the systems its dependencies resolve to.
pub proof fn lemma_sorted_is_topological<S>(e: Executor<S>)
    requires
        e.wf(),
    ensures
        valid_order(e.slots(), e.sorted()),
        e.sorted().no_duplicates(),
        forall|p: int, q: int|
            0 <= p < e.sorted().len() && 0 <= q < e.sorted().len()
            && #[trigger] edge(e.slots(), e.sorted()[q] as int, e.sorted()[p] as int) ==> q < p,
{
}

/// A failed insertion leaves the registry, the free list and the run order
/// as they were.
pub proof fn lemma_failed_insert_rolls_back<S>(
    e: Executor<S>,
    post: Executor<S>,
    c: SystemContainer<S>,
    r: Result<Option<(Vec<u64>, S)>, CantInsertSystem>,
)
    requires
        e.inserted(post, c, r),
        r is Err,
    ensures
        post.slots() == e.slots(),
        post.free() == e.free(),
        post.sorted() == e.sorted(),
        post.generation() == e.generation(),
{
}

/// Inserting under a handle that is already registered puts the new system
/// at the index of the old one, and leaves the free list alone.
pub proof fn lemma_replacement_keeps_index<S>(
    e: Executor<S>,
    post: Executor<S>,
    c: SystemContainer<S>,
    r: Result<Option<(Vec<u64>, S)>, CantInsertSystem>,
    h: u64,
)
    requires
        e.wf(),
        e.inserted(post, c, r),
        c.handle == Some(h),
        bound(e.slots(), h),
        r is Ok,
    ensures
        handle_at(post.slots(), e.index_of(h), h),
        post.index_of(h) == e.index_of(h),
        post.free() == e.free(),
        post.slots()[e.index_of(h)] == Some(c),
{
    let i = e.index_of(h);
    assert(handle_at(e.slots(), i, h));
    assert(post.slots() == e.slots().update(i, Some(c)));
    assert(handle_at(post.slots(), i, h));
    assert(handle_at(post.slots(), post.index_of(h), h));
}

/// A new system takes the most recently freed index when there is one, and
/// the next index past the registry otherwise.
pub proof fn lemma_insert_reuses_free_index<S>(
    e: Executor<S>,
    post: Executor<S>,
    c: SystemContainer<S>,
    r: Result<Option<(Vec<u64>, S)>, CantInsertSystem>,
)
    requires
        e.wf(),
        e.inserted(post, c, r),
        !e.replaces(c.handle),
        r is Ok,
    ensures
        e.free().len() > 0 ==> post.slots()[e.free().last() as int] == Some(c)
            && post.free() == e.free().drop_last()
            && post.slots().len() == e.slots().len(),
        e.free().len() == 0 ==> post.slots() == e.slots().push(Some(c)) && post.free() == e.free(),
{
    if e.free().len() > 0 {
        let k = e.free().len() - 1;
        assert(e.free()[k] < e.slots().len());
    }
}

/// While a run is in progress, no two running systems clash, and no system
/// has started while a system it depends on was still waiting or running.
pub proof fn lemma_run_is_sound<S>(d: Dispatch, e: Executor<S>)
    requires
        d.wf(e),
    ensures
        forall|p: int, q: int| 0 <= p < d.running().len() && 0 <= q < d.running().len() && p != q
            ==> !clash(e, #[trigger] d.running()[p] as int, #[trigger] d.running()[q] as int),
        forall|x: usize, j: int|
            (d.running().contains(x) || d.finished().contains(x)) && #[trigger] edge(e.slots(), j, x as int)
            ==> !d.to_run().contains(j as usize) && !d.running().contains(j as usize),
{
}

} // verus!
