use tmpmemstore::snapshot::ProcessSnapshot;

#[test]
fn lookup_finds_recorded_parent() {
    let entries: Vec<(u32, Option<u32>)> = vec![(10, Some(2)), (11, Some(10)), (12, Some(11))];
    let s = ProcessSnapshot::from_entries(&entries);
    assert_eq!(s.lookup(10), Some(2));
    assert_eq!(s.lookup(11), Some(10));
    assert_eq!(s.lookup(12), Some(11));
    assert_eq!(s.lookup(13), None);
    assert_eq!(s.len(), 3);
}

#[test]
fn unknown_parent_entries_are_absent() {
    let entries: Vec<(u32, Option<u32>)> = vec![(10, Some(2)), (11, None)];
    let s = ProcessSnapshot::from_entries(&entries);
    assert_eq!(s.lookup(11), None);
    assert_eq!(s.len(), 1);
}

#[test]
fn duplicate_pid_first_entry_wins() {
    let entries: Vec<(u32, Option<u32>)> = vec![(10, Some(2)), (10, Some(3)), (10, None)];
    let s = ProcessSnapshot::from_entries(&entries);
    assert_eq!(s.lookup(10), Some(2));
    assert_eq!(s.len(), 1);
}

#[test]
fn empty_enumeration_gives_empty_snapshot() {
    let entries: Vec<(u32, Option<u32>)> = Vec::new();
    let s = ProcessSnapshot::from_entries(&entries);
    assert_eq!(s.len(), 0);
    assert_eq!(s.lookup(1), None);
}
