use yaks_core::borrows::SystemBorrows;
use yaks_core::dispatch::Dispatch;
use yaks_core::error::{CantInsertSystem, NoSuchSystem};
use yaks_core::executor::Executor;

const A: u64 = 1;
const B: u64 = 2;
const C: u64 = 3;
const D: u64 = 4;
const X: u64 = 24;
const Y: u64 = 25;
const R: u64 = 100;

fn none() -> SystemBorrows {
    SystemBorrows::new()
}

fn reads(resource: u64) -> SystemBorrows {
    let mut b = SystemBorrows::new();
    b.resources_read.push(resource);
    b
}

fn writes(resource: u64) -> SystemBorrows {
    let mut b = SystemBorrows::new();
    b.resources_written.push(resource);
    b
}

fn index(e: &Executor<&'static str>, h: u64) -> usize {
    e.resolve_handle(h).unwrap()
}

/// Runs a whole dispatch, returning the batches that were started together.
fn dispatch_batches(e: &Executor<&'static str>) -> Vec<Vec<usize>> {
    let mut d = Dispatch::start(e);
    let mut batches = Vec::new();
    while !d.is_done() {
        let started = d.admit_ready(e);
        assert!(!(started.is_empty() && d.is_stalled()));
        for &i in &started {
            assert!(d.finish(e, i));
        }
        if !started.is_empty() {
            batches.push(started);
        }
    }
    batches
}

#[test]
fn linear_chain() {
    let mut e = Executor::new();
    assert!(e.insert_with_handle("a", none(), A).is_ok());
    assert!(e.insert_with_handle_and_deps("b", none(), B, vec![A]).is_ok());
    assert!(e.insert_with_handle_and_deps("c", none(), C, vec![B]).is_ok());
    let order = vec![index(&e, A), index(&e, B), index(&e, C)];
    assert_eq!(e.systems_sorted(), order);

    let mut d = Dispatch::start(&e);
    assert_eq!(d.admit_ready(&e), vec![index(&e, A)]);
    assert!(d.admit_ready(&e).is_empty());
    assert!(d.finish(&e, index(&e, A)));
    assert_eq!(d.admit_ready(&e), vec![index(&e, B)]);
    assert!(d.finish(&e, index(&e, B)));
    assert_eq!(d.admit_ready(&e), vec![index(&e, C)]);
    assert!(d.finish(&e, index(&e, C)));
    assert!(d.is_done());
}

#[test]
fn diamond_serializes_on_shared_resource() {
    let mut e = Executor::new();
    assert!(e.insert_with_handle("a", none(), A).is_ok());
    assert!(e.insert_with_handle_and_deps("b", writes(R), B, vec![A]).is_ok());
    assert!(e.insert_with_handle_and_deps("c", reads(R), C, vec![A]).is_ok());
    assert!(e.insert_with_handle_and_deps("d", none(), D, vec![B, C]).is_ok());
    let sorted = e.systems_sorted();
    assert_eq!(sorted[0], index(&e, A));
    assert_eq!(sorted[3], index(&e, D));
    assert!(e.conflicting(index(&e, B), index(&e, C)));
    let batches = dispatch_batches(&e);
    assert_eq!(
        batches,
        vec![vec![index(&e, A)], vec![index(&e, B)], vec![index(&e, C)], vec![index(&e, D)]]
    );
}

#[test]
fn diamond_overlaps_without_conflict() {
    let mut e = Executor::new();
    assert!(e.insert_with_handle("a", none(), A).is_ok());
    assert!(e.insert_with_handle_and_deps("b", reads(R), B, vec![A]).is_ok());
    assert!(e.insert_with_handle_and_deps("c", reads(R), C, vec![A]).is_ok());
    assert!(e.insert_with_handle_and_deps("d", none(), D, vec![B, C]).is_ok());
    assert!(!e.conflicting(index(&e, B), index(&e, C)));
    let batches = dispatch_batches(&e);
    assert_eq!(batches.len(), 3);
    assert_eq!(batches[0], vec![index(&e, A)]);
    assert_eq!(batches[1].len(), 2);
    assert_eq!(batches[2], vec![index(&e, D)]);
}

#[test]
fn cycle_rejection() {
    let mut e = Executor::new();
    assert!(e.insert_with_handle("a", none(), A).is_ok());
    assert!(e.insert_with_handle_and_deps("b", none(), B, vec![A]).is_ok());
    let before = e.systems_sorted();
    let r = e.insert_with_handle_and_deps("a2", none(), A, vec![B]);
    assert_eq!(r.err(), Some(CantInsertSystem::CyclicDependency));
    assert_eq!(e.systems_sorted(), before);
    assert_eq!(e.run_order(), before);
    assert_eq!(*e.get_mut(A).unwrap(), "a");
    assert!(e.contains(A) && e.contains(B));
}

#[test]
fn dangling_dependency() {
    let mut e: Executor<&'static str> = Executor::new();
    let r = e.insert_with_handle_and_deps("x", none(), X, vec![Y]);
    assert_eq!(r.err(), Some(CantInsertSystem::DependencyNotFound(Y)));
    assert!(!e.contains(X));
    assert!(e.systems_sorted().is_empty());
}

#[test]
fn inactive_skip() {
    let mut e = Executor::new();
    assert!(e.insert_with_handle("a", writes(R), A).is_ok());
    assert!(e.insert_with_handle("b", writes(R), B).is_ok());
    assert_eq!(e.set_active(B, false), Ok(()));
    assert_eq!(e.is_active(B), Ok(false));
    assert_eq!(e.run_order(), vec![index(&e, A)]);
    assert_eq!(e.systems_sorted().len(), 2);
    assert!(e.conflicting(index(&e, A), index(&e, B)));
    assert_eq!(dispatch_batches(&e), vec![vec![index(&e, A)]]);
}

#[test]
fn remove_during_session() {
    let mut e = Executor::new();
    assert!(e.insert_with_handle("a", none(), A).is_ok());
    assert!(e.insert_with_handle_and_deps("b", none(), B, vec![A]).is_ok());
    let removed = e.remove(A).unwrap();
    assert!(removed.0.is_empty());
    assert_eq!(removed.1, "a");
    assert_eq!(e.systems_sorted(), vec![index(&e, B)]);
    assert!(e.insert_with_handle_and_deps("c", none(), C, vec![B]).is_ok());
    let r = e.insert_with_handle_and_deps("d", none(), D, vec![A]);
    assert_eq!(r.err(), Some(CantInsertSystem::DependencyNotFound(A)));
}

#[test]
fn sort_is_topological_after_each_change() {
    let mut e = Executor::new();
    assert!(e.insert_with_handle_and_deps("c", none(), C, vec![]).is_ok());
    assert!(e.insert_with_handle("b", none(), B).is_ok());
    assert!(e.insert_with_handle_and_deps("c", none(), C, vec![B]).is_ok());
    assert!(e.insert_with_handle_and_deps("a", none(), A, vec![C, B]).is_ok());
    let pos = |e: &Executor<&'static str>, h: u64| {
        e.systems_sorted().iter().position(|&i| i == index(e, h)).unwrap()
    };
    assert!(pos(&e, B) < pos(&e, C));
    assert!(pos(&e, C) < pos(&e, A));
    assert!(e.remove(C).is_some());
    assert_eq!(e.systems_sorted().len(), 2);
    assert!(pos(&e, B) < pos(&e, A));
}

#[test]
fn failed_insert_keeps_free_list() {
    let mut e = Executor::new();
    assert!(e.insert_with_handle("a", none(), A).is_ok());
    assert!(e.insert_with_handle("b", none(), B).is_ok());
    assert!(e.remove(A).is_some());
    let r = e.insert_with_handle_and_deps("x", none(), X, vec![Y]);
    assert!(r.is_err());
    assert!(e.insert_with_handle("c", none(), C).is_ok());
    assert_eq!(index(&e, C), 0);
}

#[test]
fn replacement_preserves_index() {
    let mut e = Executor::new();
    assert!(e.insert_with_handle("a", none(), A).is_ok());
    assert!(e.insert_with_handle("b", none(), B).is_ok());
    let before = index(&e, A);
    let r = e.insert_with_handle("a2", none(), A).unwrap();
    assert_eq!(r.map(|p| p.1), Some("a"));
    assert_eq!(index(&e, A), before);
    assert_eq!(e.systems_sorted().len(), 2);
    assert!(e.insert("c", none()).is_ok());
    assert_eq!(e.systems_sorted(), vec![0, 1, 2]);
}

#[test]
fn index_reuse() {
    let mut e = Executor::new();
    assert!(e.insert_with_handle("a", none(), A).is_ok());
    assert!(e.insert_with_handle("b", none(), B).is_ok());
    assert!(e.insert_with_handle("c", none(), C).is_ok());
    let freed = index(&e, B);
    assert!(e.remove(B).is_some());
    assert!(e.insert("d", none()).is_ok());
    assert_eq!(e.systems_sorted(), vec![0, 2, freed]);
    assert!(e.insert("e", none()).is_ok());
    assert_eq!(e.systems_sorted(), vec![0, 2, 1, 3]);
}

#[test]
fn handle_queries() {
    let mut e = Executor::new();
    assert!(e.insert_with_handle("a", none(), A).is_ok());
    assert!(e.contains(A));
    assert!(!e.contains(B));
    assert_eq!(e.is_active(A), Ok(true));
    assert_eq!(e.is_active(B), Err(NoSuchSystem));
    assert_eq!(e.set_active(B, true), Err(NoSuchSystem));
    *e.get_mut(A).unwrap() = "changed";
    assert_eq!(*e.get_mut(A).unwrap(), "changed");
    assert!(e.get_mut(B).is_err());
    assert!(e.remove(B).is_none());
    assert_eq!(NoSuchSystem.message(), "no such system");
    assert_eq!(
        CantInsertSystem::CyclicDependency.message(),
        "adding the system would create an unresolvable cycle"
    );
}

#[test]
fn late_handle_runs_before_its_dependents() {
    let mut e = Executor::new();
    assert!(e.insert_with_handle("a", none(), A).is_ok());
    assert!(e.insert_with_handle_and_deps("b", none(), B, vec![A]).is_ok());
    assert!(e.remove(A).is_some());
    assert!(e.insert_with_handle("a2", none(), A).is_ok());
    assert_eq!(e.systems_sorted(), vec![index(&e, A), index(&e, B)]);
}

#[test]
fn builder_chains_insertions() {
    let e = Executor::builder()
        .system_with_handle("a", none(), A)
        .system_with_handle_and_deps("b", none(), B, vec![A])
        .system_with_deps("c", none(), vec![B])
        .system("d", none())
        .build();
    assert_eq!(e.systems_sorted(), vec![0, 1, 2, 3]);
}

#[test]
fn conflict_rules() {
    assert!(writes(R).conflicts_with(&reads(R)));
    assert!(reads(R).conflicts_with(&writes(R)));
    assert!(writes(R).conflicts_with(&writes(R)));
    assert!(!reads(R).conflicts_with(&reads(R)));
    assert!(!writes(R).conflicts_with(&writes(R + 1)));
    assert!(!none().conflicts_with(&writes(R)));

    let mut a = SystemBorrows::new();
    a.components_written.push(7);
    a.archetypes.push(0);
    let mut b = SystemBorrows::new();
    b.components_read.push(7);
    b.archetypes.push(1);
    assert!(!a.conflicts_with(&b));
    b.archetypes.push(0);
    assert!(a.conflicts_with(&b));
}

#[test]
fn archetype_refresh_rebuilds_conflicts() {
    let mut e = Executor::new();
    let mut a = SystemBorrows::new();
    a.components_written.push(7);
    let mut b = SystemBorrows::new();
    b.components_read.push(7);
    assert!(e.insert_with_handle("a", a, A).is_ok());
    assert!(e.insert_with_handle("b", b, B).is_ok());
    assert!(e.archetypes_outdated(1));
    assert!(!e.conflicting(0, 1));
    assert!(e.set_archetypes(0, vec![3]));
    assert!(e.set_archetypes(1, vec![3, 4]));
    assert!(!e.set_archetypes(5, vec![3]));
    e.mark_archetypes(1);
    assert!(!e.archetypes_outdated(1));
    assert!(e.archetypes_outdated(2));
    assert!(e.conflicting(0, 1));
    assert_eq!(dispatch_batches(&e), vec![vec![0], vec![1]]);
}

#[test]
fn descriptor_rejects_read_and_write_of_one_type() {
    assert!(SystemBorrows::from_lists(vec![R], vec![R], vec![], vec![]).is_none());
    assert!(SystemBorrows::from_lists(vec![], vec![], vec![7], vec![7]).is_none());
    let b = SystemBorrows::from_lists(vec![R], vec![R + 1], vec![7], vec![8]).unwrap();
    assert_eq!(b.resources_read, vec![R]);
    assert_eq!(b.components_written, vec![8]);
    assert!(b.archetypes.is_empty());
}
