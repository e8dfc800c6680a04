use vstd::prelude::*;

verus! {

/// The handle does not name a system of the executor.
#[derive(Debug, Clone, Copy, PartialEq, Eq, Structural)]
pub struct NoSuchSystem;

impl NoSuchSystem {
    /// A human-readable description of the error.
    pub fn message(&self) -> (r: &'static str)
        ensures
            r@ == "no such system"@,
    {
        "no such system"
    }
}

/// Why an insertion was refused; the executor is left as it was.
#[derive(Debug, Clone, Copy, PartialEq, Eq, Structural)]
pub enum CantInsertSystem {
    /// A dependency of the inserted system names no system.
    DependencyNotFound(u64),
    /// The inserted system would close a cycle of dependencies.
    CyclicDependency,
}

impl CantInsertSystem {
    /// A human-readable description of the error kind.
    pub fn message(&self) -> (r: &'static str)
        ensures
            self is CyclicDependency ==> r@ == "adding the system would create an unresolvable cycle"@,
            self is DependencyNotFound ==> r@ == "dependency not found"@,
    {
        match self {
            CantInsertSystem::DependencyNotFound(_) => "dependency not found",
            CantInsertSystem::CyclicDependency => "adding the system would create an unresolvable cycle",
        }
    }
}

} // verus!
