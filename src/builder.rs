use vstd::prelude::*;
use crate::borrows::SystemBorrows;
use crate::executor::{Executor, SystemContainer, acyclic, first_missing};

verus! {

/// Chained construction of an executor whose dependency graph is known to be
/// sound: each step is an insertion that must succeed.
pub struct ExecutorBuilder<S> {
    executor: Executor<S>,
}

impl<S> ExecutorBuilder<S> {
    /// The executor built so far.
    pub closed spec fn executor(self) -> Executor<S> {
        self.executor
    }

    /// An insertion of `c` into the executor built so far would succeed.
    pub open spec fn accepts(self, c: SystemContainer<S>) -> bool {
        &&& self.executor().slots().len() + 1 < usize::MAX
        &&& forall|k: int| !first_missing(self.executor().slots(), c.handle, c.dependencies@, k)
        &&& acyclic(self.executor().installed(self.executor().target(c.handle), c))
    }

    /// A builder around an empty executor.
    pub fn new() -> (r: Self)
        ensures
            r.executor().wf(),
            r.executor().slots().len() == 0,
    {
        ExecutorBuilder { executor: Executor::new() }
    }

    /// Adds a system without handle or dependencies.
    pub fn system(self, system: S, borrows: SystemBorrows) -> (r: Self)
        requires
            self.executor().wf(),
            self.executor().slots().len() + 1 < usize::MAX,
        ensures
            self.executor().inserted_free(r.executor(), system, borrows, None, Ok(None)),
    {
        let mut executor = self.executor;
        let _ = executor.insert(system, borrows);
        ExecutorBuilder { executor }
    }

    /// Adds a system under `handle`, replacing any system registered under it.
    pub fn system_with_handle(self, system: S, borrows: SystemBorrows, handle: u64) -> (r: Self)
        requires
            self.executor().wf(),
            self.executor().slots().len() + 1 < usize::MAX,
        ensures
            exists|prev| self.executor().inserted_free(r.executor(), system, borrows, Some(handle), Ok(prev)),
    {
        let ghost pre = self.executor();
        let mut executor = self.executor;
        let res = executor.insert_with_handle(system, borrows, handle);
        let r = ExecutorBuilder { executor };
        match res {
            Ok(prev) => {
                assert(pre.inserted_free(r.executor(), system, borrows, Some(handle), Ok(prev)));
            },
            Err(_) => {},
        }
        r
    }

    /// Adds a system without handle that runs after the systems its
    /// dependencies name.
    pub fn system_with_deps(self, system: S, borrows: SystemBorrows, dependencies: Vec<u64>) -> (r: Self)
        requires
            self.executor().wf(),
            self.accepts((SystemContainer { system, handle: None, dependencies, active: true, borrows })),
        ensures
            exists|prev| self.executor().inserted(r.executor(),
                (SystemContainer { system, handle: None, dependencies, active: true, borrows }), Ok(prev)),
    {
        let ghost pre = self.executor();
        let mut executor = self.executor;
        let ghost c = SystemContainer { system, handle: None, dependencies, active: true, borrows };
        let res = executor.insert_with_deps(system, borrows, dependencies);
        let r = ExecutorBuilder { executor };
        match res {
            Ok(prev) => {
                assert(pre.inserted(r.executor(), c, Ok(prev)));
            },
            Err(_) => {},
        }
        r
    }

    /// Adds a system under `handle` that runs after the systems its
    /// dependencies name, replacing any system registered under `handle`.
    pub fn system_with_handle_and_deps(self, system: S, borrows: SystemBorrows, handle: u64, dependencies: Vec<u64>) -> (r: Self)
        requires
            self.executor().wf(),
            self.accepts((SystemContainer { system, handle: Some(handle), dependencies, active: true, borrows })),
        ensures
            exists|prev| self.executor().inserted(r.executor(),
                (SystemContainer { system, handle: Some(handle), dependencies, active: true, borrows }), Ok(prev)),
    {
        let ghost pre = self.executor();
        let mut executor = self.executor;
        let ghost c = SystemContainer { system, handle: Some(handle), dependencies, active: true, borrows };
        let res = executor.insert_with_handle_and_deps(system, borrows, handle, dependencies);
        let r = ExecutorBuilder { executor };
        match res {
            Ok(prev) => {
                assert(pre.inserted(r.executor(), c, Ok(prev)));
            },
            Err(_) => {},
        }
        r
    }

    /// The executor built.
    pub fn build(self) -> (r: Executor<S>)
        ensures
            r == self.executor(),
    {
        self.executor
    }
}

impl<S> Executor<S> {
    /// A builder for an executor.
    pub fn builder() -> (r: ExecutorBuilder<S>)
        ensures
            r.executor().wf(),
            r.executor().slots().len() == 0,
    {
        ExecutorBuilder::new()
    }
}

} // verus!
