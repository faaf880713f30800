use std::time::SystemTime;

use wt_store::lease::{is_lease_expired, lease_path, WorktreeLease};

#[test]
fn lease_serialization_and_parsing_round_trip() {
    let lease = WorktreeLease::new(
        "scratch-abc12345".to_string(),
        "/tmp/wt-worktrees/repo-scratch-abc12345".to_string(),
        "/tmp/repo/.git/worktrees/scratch-abc12345".to_string(),
        12345,
        67890,
        1800000000,
    );
    let serialized = lease.serialize();
    assert!(serialized.starts_with("v1\tlease\t"));
    let parsed = WorktreeLease::parse("scratch-abc12345", &serialized).expect("parse lease");
    assert_eq!(parsed, lease);
}

#[test]
fn lease_serialization_round_trips_weird_paths() {
    let lease = WorktreeLease::new(
        "scratch-weird".to_string(),
        "/tmp/wt-worktrees/repo\tscratch\nweird %25".to_string(),
        "/tmp/repo/.git/worktrees/scratch\rweird".to_string(),
        9999,
        1111,
        2222,
    );
    let serialized = lease.serialize();
    assert!(!serialized.contains('\r'));
    let parsed = WorktreeLease::parse("scratch-weird", &serialized).expect("parse weird lease");
    assert_eq!(parsed, lease);
}

#[test]
fn lease_expiration_check() {
    let now = SystemTime::now()
        .duration_since(SystemTime::UNIX_EPOCH)
        .unwrap()
        .as_secs();

    let active_lease = WorktreeLease::new(
        "active".to_string(),
        "/tmp/w1".to_string(),
        "/tmp/g1".to_string(),
        1,
        1,
        now + 3600,
    );
    assert!(!is_lease_expired(&active_lease, now));

    let expired_lease = WorktreeLease::new(
        "expired".to_string(),
        "/tmp/w2".to_string(),
        "/tmp/g2".to_string(),
        1,
        1,
        now - 10,
    );
    assert!(is_lease_expired(&expired_lease, now));
}

#[test]
fn lease_without_expiry_never_expires() {
    let l = WorktreeLease::new("x".to_string(), "/w".to_string(), "/g".to_string(), 1, 1, 0);
    assert!(!is_lease_expired(&l, u64::MAX));
    let l = WorktreeLease::new("x".to_string(), "/w".to_string(), "/g".to_string(), 1, 1, 50);
    assert!(is_lease_expired(&l, 50));
    assert!(!is_lease_expired(&l, 49));
}

#[test]
fn lease_parse_rejects_bad_input() {
    assert!(WorktreeLease::parse("x", "").is_err());
    assert!(WorktreeLease::parse("x", "v1\tlease\t/w\t/g\t1\t2\n").is_err());
    assert!(WorktreeLease::parse("x", "v2\tlease\t/w\t/g\t1\t2\t3\n").is_err());
    assert!(WorktreeLease::parse("x", "v1\tlease\t\t/g\t1\t2\t3\n").is_err());
    assert!(WorktreeLease::parse("x", "v1\tlease\t/w\t\t1\t2\t3\n").is_err());
    assert!(WorktreeLease::parse("x", "v1\tlease\t/w\t/g\t4294967296\t2\t3\n").is_err());
    assert!(WorktreeLease::parse("x", "v1\tlease\t/w\t/g\t1\tx\t3\n").is_err());
    assert!(WorktreeLease::parse("x", "v1\tlease\t%41\t/g\t1\t2\t3\n").is_err());
    let ok = WorktreeLease::parse("x", "v1\tlease\t/w\t/g\t1\t2\t3\r\nignored").unwrap();
    assert_eq!(ok.expires_at, 3);
    assert_eq!(ok.id, "x");
}

#[test]
fn lease_path_adds_the_scratch_prefix_once() {
    assert_eq!(lease_path("/s", "abc"), "/s/worktrees/scratch-abc.lease");
    assert_eq!(lease_path("/s", "scratch-abc"), "/s/worktrees/scratch-abc.lease");
}

#[test]
fn proc_stat_start_time_is_the_twentieth_field_after_the_command() {
    let stat = "1234 (my (odd) cmd) S 1 1234 1234 0 -1 4194560 100 0 0 0 1 2 0 0 20 0 1 0 987654 1000 10";
    assert_eq!(wt_store::lease::start_time_from_stat(stat), Some(987654));
    assert_eq!(wt_store::lease::start_time_from_stat("1234 (cmd) S 1 2"), None);
    assert_eq!(wt_store::lease::start_time_from_stat("no paren"), None);
}

#[test]
fn process_liveness_decisions() {
    assert!(!wt_store::lease::process_alive(0, false, 0, None));
    assert!(!wt_store::lease::process_alive(10, true, 0, None));
    assert!(!wt_store::lease::process_alive(10, false, 5, Some(6)));
    assert!(wt_store::lease::process_alive(10, false, 5, Some(5)));
    assert!(wt_store::lease::process_alive(10, false, 5, None));
    assert!(wt_store::lease::process_alive(10, false, 0, Some(6)));
}

#[test]
fn lease_number_complaints_carry_the_parse_error() {
    assert_eq!(
        WorktreeLease::parse("x", "v1\tlease\t/w\t/g\tpid\t2\t3\n").unwrap_err(),
        "bad pid: invalid digit found in string"
    );
    assert_eq!(
        WorktreeLease::parse("x", "v1\tlease\t/w\t/g\t1\t\t3\n").unwrap_err(),
        "bad start_time: cannot parse integer from empty string"
    );
    assert_eq!(
        WorktreeLease::parse("x", "v1\tlease\t/w\t/g\t1\t2\t99999999999999999999\n").unwrap_err(),
        "bad expires_at: number too large to fit in target type"
    );
    assert_eq!(
        WorktreeLease::parse("x", "v1\tlease\t/w\n").unwrap_err(),
        "bad v1 lease header: \"v1\\tlease\\t/w\""
    );
    let ok = WorktreeLease::parse("x", "v1\tlease\t/w\t/g\t+7\t2\t3\n").unwrap();
    assert_eq!(ok.pid, 7);
}
