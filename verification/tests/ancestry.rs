use tmpmemstore::process_tree::client_is_descendant;
use tmpmemstore::process_tree::is_descendant;
use tmpmemstore::snapshot::ProcessSnapshot;

fn snap(pairs: &[(u32, u32)]) -> ProcessSnapshot {
    let entries: Vec<(u32, Option<u32>)> = pairs.iter().map(|&(p, pp)| (p, Some(pp))).collect();
    ProcessSnapshot::from_entries(&entries)
}

#[test]
fn self_match_is_descendant() {
    let s = snap(&[(1001, 1000)]);
    assert!(is_descendant(&s, 1000, 1000));
    // Self match holds even for a pid the snapshot does not list.
    assert!(is_descendant(&s, 7777, 7777));
    let empty = snap(&[]);
    assert!(is_descendant(&empty, 42, 42));
}

#[test]
fn direct_child_is_descendant() {
    let s = snap(&[(1001, 1000)]);
    assert!(is_descendant(&s, 1001, 1000));
}

#[test]
fn chain_depths_up_to_five() {
    // 100 -> 101 -> 102 -> 103 -> 104 -> 105, ancestor 100.
    let s = snap(&[(101, 100), (102, 101), (103, 102), (104, 103), (105, 104)]);
    assert!(is_descendant(&s, 101, 100));
    assert!(is_descendant(&s, 102, 100));
    assert!(is_descendant(&s, 103, 100));
    assert!(is_descendant(&s, 104, 100));
    assert!(is_descendant(&s, 105, 100));
    // Walking from an intermediate node also reaches its own ancestors.
    assert!(is_descendant(&s, 105, 103));
    // But never the other way around.
    assert!(!is_descendant(&s, 100, 105));
}

#[test]
fn chain_to_init_without_ancestor_is_rejected() {
    // 2000 -> 300 -> 1 reaches init without passing through 1000.
    let s = snap(&[(1001, 1000), (2000, 300), (300, 1)]);
    assert!(!is_descendant(&s, 2000, 1000));
}

#[test]
fn unlisted_pid_is_rejected() {
    let s = snap(&[(1001, 1000)]);
    assert!(!is_descendant(&s, 555, 1000));
}

#[test]
fn unlisted_parent_is_rejected() {
    // 2000's parent 1999 is not itself listed, so the walk dies out there.
    let s = snap(&[(2000, 1999)]);
    assert!(!is_descendant(&s, 2000, 1000));
}

#[test]
fn parent_at_or_below_init_is_rejected() {
    let s = snap(&[(200, 1), (201, 0)]);
    assert!(!is_descendant(&s, 200, 1000));
    assert!(!is_descendant(&s, 201, 1000));
    // A parent equal to the ancestor still loses when it is at or below init:
    // the walk refuses parents <= 1 before matching them.
    assert!(!is_descendant(&s, 200, 1));
}

#[test]
fn self_parent_snapshot_terminates_false() {
    // A malformed snapshot lists a pid as its own parent; the capped walk
    // must still terminate, answering false.
    let s = snap(&[(5, 5)]);
    assert!(!is_descendant(&s, 5, 3));
}

#[test]
fn cyclic_snapshot_terminates_false() {
    // 10 -> 11 -> 12 -> 10 is a cycle that never reaches 9.
    let s = snap(&[(10, 11), (11, 12), (12, 10)]);
    assert!(!is_descendant(&s, 10, 9));
    assert!(!is_descendant(&s, 11, 9));
    // A pid inside the cycle is still an ancestor of the others.
    assert!(is_descendant(&s, 11, 10));
}

#[test]
fn live_snapshot_self_match() {
    // Whatever the machine's process table holds, a pid always descends from
    // itself.
    let (_snap, verdict) = client_is_descendant(321, 321);
    assert!(verdict);
}

#[test]
fn live_snapshot_has_no_max_pid() {
    let s = tmpmemstore::snapshot::capture_snapshot();
    assert_eq!(s.lookup(u32::MAX), None);
}
