use vstd::prelude::*;

verus! {

/// Whether two lists of type identifiers share an element.
pub open spec fn overlap(a: Seq<u64>, b: Seq<u64>) -> bool {
    exists|x: u64| a.contains(x) && b.contains(x)
}

/// The typed borrows a system declares: resource and component type identifiers
/// it reads and writes, and the archetypes its queries touch.
#[derive(Debug)]
pub struct SystemBorrows {
    pub resources_read: Vec<u64>,
    pub resources_written: Vec<u64>,
    pub components_read: Vec<u64>,
    pub components_written: Vec<u64>,
    pub archetypes: Vec<u64>,
}

/// A pair of access lists collides when one side writes what the other reads or writes.
pub open spec fn collide(read_a: Seq<u64>, write_a: Seq<u64>, read_b: Seq<u64>, write_b: Seq<u64>) -> bool {
    overlap(write_a, read_b) || overlap(write_a, write_b) || overlap(read_a, write_b)
}

/// Two borrow sets forbid concurrent execution: a resource collision, or a
/// component collision on an archetype both systems touch.
pub open spec fn borrows_conflict(a: SystemBorrows, b: SystemBorrows) -> bool {
    collide(a.resources_read@, a.resources_written@, b.resources_read@, b.resources_written@)
    || (collide(a.components_read@, a.components_written@, b.components_read@, b.components_written@)
        && overlap(a.archetypes@, b.archetypes@))
}

/// Conflict is symmetric.
pub proof fn lemma_conflict_symmetric(a: SystemBorrows, b: SystemBorrows)
    ensures
        borrows_conflict(a, b) == borrows_conflict(b, a),
{
}

/// Shared access never conflicts: two systems that write nothing never conflict.
pub proof fn lemma_readers_never_conflict(a: SystemBorrows, b: SystemBorrows)
    requires
        a.resources_written@.len() == 0,
        a.components_written@.len() == 0,
        b.resources_written@.len() == 0,
        b.components_written@.len() == 0,
    ensures
        !borrows_conflict(a, b),
{
}

/// A system that holds no borrows conflicts with nothing.
pub proof fn lemma_empty_never_conflicts(a: SystemBorrows, b: SystemBorrows)
    requires
        a.resources_read@.len() == 0,
        a.resources_written@.len() == 0,
        a.components_read@.len() == 0,
        a.components_written@.len() == 0,
    ensures
        !borrows_conflict(a, b),
        !borrows_conflict(b, a),
{
}

/// Whether the two lists share an element.
pub fn overlaps(a: &Vec<u64>, b: &Vec<u64>) -> (r: bool)
    ensures
        r == overlap(a@, b@),
{
    let mut i: usize = 0;
    while i < a.len()
        invariant
            i <= a.len(),
            forall|k: int, l: int| 0 <= k < i && 0 <= l < b.len() ==> a@[k] != b@[l],
        decreases a.len() - i,
    {
        let mut j: usize = 0;
        while j < b.len()
            invariant
                i < a.len(),
                j <= b.len(),
                forall|l: int| 0 <= l < j ==> a@[i as int] != b@[l],
            decreases b.len() - j,
        {
            if a[i] == b[j] {
                assert(a@.contains(a@[i as int]) && b@.contains(b@[j as int]));
                return true;
            }
            j += 1;
        }
        i += 1;
    }
    assert forall|x: u64| !(a@.contains(x) && b@.contains(x)) by {
        if a@.contains(x) && b@.contains(x) {
            let k = choose|k: int| 0 <= k < a@.len() && a@[k] == x;
            let l = choose|l: int| 0 <= l < b@.len() && b@[l] == x;
            assert(a@[k] != b@[l]);
        }
    }
    false
}

impl SystemBorrows {
    /// A descriptor that borrows nothing and touches no archetype.
    pub fn new() -> (r: Self)
        ensures
            r.resources_read@.len() == 0,
            r.resources_written@.len() == 0,
            r.components_read@.len() == 0,
            r.components_written@.len() == 0,
            r.archetypes@.len() == 0,
    {
        SystemBorrows {
            resources_read: Vec::new(),
            resources_written: Vec::new(),
            components_read: Vec::new(),
            components_written: Vec::new(),
            archetypes: Vec::new(),
        }
    }

    /// A descriptor from the types a system reads and writes, touching no
    /// archetype yet; `None` when some type is both read and written.
    pub fn from_lists(
        resources_read: Vec<u64>,
        resources_written: Vec<u64>,
        components_read: Vec<u64>,
        components_written: Vec<u64>,
    ) -> (r: Option<Self>)
        ensures
            r is Some <==> !overlap(resources_read@, resources_written@) && !overlap(components_read@, components_written@),
            r matches Some(b) ==> b.resources_read@ == resources_read@ && b.resources_written@ == resources_written@
                && b.components_read@ == components_read@ && b.components_written@ == components_written@
                && b.archetypes@.len() == 0,
    {
        if overlaps(&resources_read, &resources_written) || overlaps(&components_read, &components_written) {
            return None;
        }
        Some(SystemBorrows { resources_read, resources_written, components_read, components_written, archetypes: Vec::new() })
    }

    /// Whether this system and `other` may not run concurrently.
    pub fn conflicts_with(&self, other: &SystemBorrows) -> (r: bool)
        ensures
            r == borrows_conflict(*self, *other),
    {
        if overlaps(&self.resources_written, &other.resources_read)
            || overlaps(&self.resources_written, &other.resources_written)
            || overlaps(&self.resources_read, &other.resources_written)
        {
            return true;
        }
        (overlaps(&self.components_written, &other.components_read)
            || overlaps(&self.components_written, &other.components_written)
            || overlaps(&self.components_read, &other.components_written))
            && overlaps(&self.archetypes, &other.archetypes)
    }
}

} // verus!
