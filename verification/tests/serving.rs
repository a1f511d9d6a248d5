use tmpmemstore::serve::connection_response;
use tmpmemstore::serve::decide_connection;
use tmpmemstore::serve::ConnectionOutcome;
use tmpmemstore::snapshot::ProcessSnapshot;

fn snap(pairs: &[(u32, u32)]) -> ProcessSnapshot {
    let entries: Vec<(u32, Option<u32>)> = pairs.iter().map(|&(p, pp)| (p, Some(pp))).collect();
    ProcessSnapshot::from_entries(&entries)
}

#[test]
fn grandchild_is_served_full_secret_sibling_gets_nothing() {
    // Server pid 1000 spawned child 1001, which spawned grandchild 1002;
    // 2000 is an unrelated sibling hanging off init.
    let secret: Vec<u8> = b"s3kret".to_vec();
    let s = snap(&[(1001, 1000), (1002, 1001), (2000, 1)]);

    let served = connection_response(&secret, &s, Some(1002), 1000);
    assert_eq!(served, Some(b"s3kret".to_vec()));

    let rejected = connection_response(&secret, &s, Some(2000), 1000);
    assert_eq!(rejected, None);
}

#[test]
fn child_and_ancestor_itself_are_served() {
    let secret: Vec<u8> = vec![0, 155, 255, 7];
    let s = snap(&[(1001, 1000)]);
    assert_eq!(connection_response(&secret, &s, Some(1001), 1000), Some(vec![0, 155, 255, 7]));
    assert_eq!(connection_response(&secret, &s, Some(1000), 1000), Some(vec![0, 155, 255, 7]));
}

#[test]
fn identity_failure_gets_nothing() {
    let secret: Vec<u8> = b"s3kret".to_vec();
    let s = snap(&[(1001, 1000)]);
    assert_eq!(connection_response(&secret, &s, None, 1000), None);
}

#[test]
fn empty_secret_is_served_empty() {
    let secret: Vec<u8> = Vec::new();
    let s = snap(&[(1001, 1000)]);
    assert_eq!(connection_response(&secret, &s, Some(1001), 1000), Some(Vec::new()));
}

#[test]
fn outcome_distinguishes_failure_from_rejection() {
    let s = snap(&[(1001, 1000), (2000, 1)]);
    assert_eq!(decide_connection(&s, Some(1002), 1000), ConnectionOutcome::RejectedUnauthorized);
    assert_eq!(decide_connection(&s, Some(2000), 1000), ConnectionOutcome::RejectedUnauthorized);
    assert_eq!(decide_connection(&s, None, 1000), ConnectionOutcome::RejectedIdentityFailed);
    assert_eq!(decide_connection(&s, Some(1001), 1000), ConnectionOutcome::Served);
}
