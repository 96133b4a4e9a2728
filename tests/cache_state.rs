use stasis::cache::State;

const MS: u64 = 1_000_000;

fn bytes(s: &str) -> Vec<u8> {
    s.as_bytes().to_vec()
}

#[test]
fn short_ttl_entry_is_purged_after_its_deadline() {
    let mut state = State::new();
    state.set("a".to_string(), bytes("1"), Some(50 * MS), 0);
    assert_eq!(state.get("a"), Some(bytes("1")));
    assert_eq!(state.evict_expired_keys(80 * MS), None);
    assert_eq!(state.get("a"), None);
}

#[test]
fn overwrite_without_ttl_outlives_old_deadline() {
    let mut state = State::new();
    state.set("a".to_string(), bytes("1"), Some(1000 * MS), 0);
    state.set("a".to_string(), bytes("2"), None, 0);
    assert_eq!(state.pending_expirations(), 0);
    assert_eq!(state.evict_expired_keys(1100 * MS), None);
    assert_eq!(state.get("a"), Some(bytes("2")));
}

#[test]
fn only_due_keys_are_purged() {
    let mut state = State::new();
    state.set("x".to_string(), bytes("1"), Some(10 * MS), 0);
    state.set("y".to_string(), bytes("1"), Some(5000 * MS), 0);
    assert_eq!(state.evict_expired_keys(30 * MS), Some(5000 * MS));
    assert_eq!(state.get("x"), None);
    assert_eq!(state.get("y"), Some(bytes("1")));
    assert_eq!(state.pending_expirations(), 1);
}

#[test]
fn value_without_ttl_survives_every_purge() {
    let mut state = State::new();
    state.set("k".to_string(), bytes("v"), None, 7);
    for t in [0u64, 1, 1000, u64::MAX / 2, u64::MAX] {
        assert_eq!(state.evict_expired_keys(t), None);
        assert_eq!(state.get("k"), Some(bytes("v")));
    }
}

#[test]
fn ttl_value_is_readable_until_its_deadline() {
    let mut state = State::new();
    state.set("k".to_string(), bytes("v"), Some(100), 1000);
    assert_eq!(state.get("k"), Some(bytes("v")));
    assert_eq!(state.evict_expired_keys(1099), Some(1100));
    assert_eq!(state.get("k"), Some(bytes("v")));
    assert_eq!(state.evict_expired_keys(1101), None);
    assert_eq!(state.get("k"), None);
}

#[test]
fn deadline_equal_to_now_is_due() {
    let mut state = State::new();
    state.set("k".to_string(), bytes("v"), Some(100), 1000);
    assert_eq!(state.evict_expired_keys(1100), None);
    assert_eq!(state.get("k"), None);
}

#[test]
fn overwrite_replaces_the_old_record() {
    let mut state = State::new();
    state.set("k".to_string(), bytes("a"), Some(10), 0);
    state.set("k".to_string(), bytes("b"), Some(500), 0);
    assert_eq!(state.pending_expirations(), 1);
    assert_eq!(state.next_expiration(), Some(500));
    assert_eq!(state.evict_expired_keys(20), Some(500));
    assert_eq!(state.get("k"), Some(bytes("b")));
}

#[test]
fn equal_deadlines_leave_in_write_order() {
    let mut state = State::new();
    state.set("zeta".to_string(), bytes("1"), Some(50), 0);
    state.set("alpha".to_string(), bytes("2"), Some(40), 10);
    assert_eq!(state.next_expiration(), Some(50));
    assert_eq!(state.pop_expired(60), Some("zeta".to_string()));
    assert_eq!(state.get("alpha"), Some(bytes("2")));
    assert_eq!(state.pop_expired(60), Some("alpha".to_string()));
    assert_eq!(state.pop_expired(60), None);
}

#[test]
fn pop_leaves_entries_that_are_not_due() {
    let mut state = State::new();
    state.set("k".to_string(), bytes("1"), Some(50), 0);
    assert_eq!(state.pop_expired(49), None);
    assert_eq!(state.get("k"), Some(bytes("1")));
    assert_eq!(state.pending_expirations(), 1);
}

#[test]
fn shorter_deadline_wakes_the_worker() {
    let mut state = State::new();
    assert!(state.set("long".to_string(), bytes("1"), Some(5000), 0));
    assert!(!state.set("later".to_string(), bytes("1"), Some(6000), 0));
    assert!(!state.set("plain".to_string(), bytes("1"), None, 0));
    assert!(state.set("short".to_string(), bytes("1"), Some(10), 0));
    assert_eq!(state.next_expiration(), Some(10));
    assert_eq!(state.evict_expired_keys(10), Some(5000));
    assert_eq!(state.get("short"), None);
    assert_eq!(state.get("long"), Some(bytes("1")));
}

#[test]
fn equal_deadline_does_not_wake_the_worker() {
    let mut state = State::new();
    assert!(state.set("a".to_string(), bytes("1"), Some(100), 0));
    assert!(!state.set("b".to_string(), bytes("1"), Some(100), 0));
}

#[test]
fn shutdown_is_idempotent_and_stops_purging() {
    let mut state = State::new();
    state.set("k".to_string(), bytes("1"), Some(10), 0);
    assert!(!state.is_shutdown());
    state.shutdown();
    state.shutdown();
    assert!(state.is_shutdown());
    assert_eq!(state.evict_expired_keys(1000), None);
    assert_eq!(state.get("k"), Some(bytes("1")));
    state.set("j".to_string(), bytes("2"), None, 1000);
    assert_eq!(state.get("j"), Some(bytes("2")));
    assert_eq!(state.pending_expirations(), 1);
}

#[test]
fn deadline_past_the_clock_range_is_held_at_its_end() {
    let mut state = State::new();
    state.set("k".to_string(), bytes("1"), Some(u64::MAX), 10);
    assert_eq!(state.next_expiration(), Some(u64::MAX));
    assert_eq!(state.evict_expired_keys(u64::MAX - 1), Some(u64::MAX));
    assert_eq!(state.get("k"), Some(bytes("1")));
}

#[test]
fn every_write_takes_a_new_id() {
    let mut state = State::new();
    assert_eq!(state.next_id(), 0);
    state.set("a".to_string(), bytes("1"), None, 0);
    state.set("a".to_string(), bytes("2"), Some(5), 0);
    assert_eq!(state.next_id(), 2);
}

#[test]
fn empty_table_has_nothing_scheduled() {
    let mut state = State::new();
    assert_eq!(state.get(""), None);
    assert_eq!(state.next_expiration(), None);
    assert_eq!(state.evict_expired_keys(0), None);
    assert_eq!(state.pending_expirations(), 0);
}
