use kvcache::cache::Cache;
use kvcache::commands::Command;
use kvcache::datastore::DataStore;

fn put(key: &str, value: &str) -> Command {
    Command::Put { key: key.to_string(), value: value.to_string() }
}

fn get(key: &str) -> Command {
    Command::Get { key: key.to_string() }
}

fn keys(pattern: &str) -> Command {
    Command::Keys { pattern: pattern.to_string() }
}

#[test]
fn set_get_delete() {
    let mut ds = DataStore::new(10);
    assert_eq!(ds.execute_at(put("k", "v"), 0), Some("OK".to_string()));
    assert_eq!(ds.execute_at(get("k"), 0), Some("v".to_string()));
    assert_eq!(ds.execute_at(get("missing"), 0), None);
    assert_eq!(
        ds.execute_at(Command::Delete { key: "k".to_string() }, 0),
        Some("Deleted".to_string())
    );
    assert_eq!(ds.execute_at(get("k"), 0), None);
    assert_eq!(
        ds.execute_at(Command::Delete { key: "k".to_string() }, 0),
        Some("Not Found".to_string())
    );
}

#[test]
fn set_overwrites() {
    let mut ds = DataStore::new(10);
    ds.execute_at(put("k", "old"), 0);
    assert_eq!(ds.execute_at(put("k", "new"), 0), Some("OK".to_string()));
    assert_eq!(ds.execute_at(get("k"), 0), Some("new".to_string()));
}

#[test]
fn capacity_is_never_exceeded() {
    let mut ds = DataStore::new(2);
    ds.execute_at(put("a", "1"), 0);
    ds.execute_at(put("b", "2"), 0);
    ds.execute_at(put("c", "3"), 0);
    ds.execute_at(put("d", "4"), 0);
    // only the two most recently touched keys survive
    assert_eq!(
        ds.execute_at(keys("*"), 0),
        Some("[\"d\", \"c\"]".to_string())
    );
    assert_eq!(ds.execute_at(get("a"), 0), None);
    assert_eq!(ds.execute_at(get("b"), 0), None);
}

#[test]
fn lru_eviction_takes_least_recently_used() {
    let mut ds = DataStore::new(2);
    ds.execute_at(put("a", "1"), 0);
    ds.execute_at(put("b", "2"), 0);
    assert_eq!(ds.execute_at(get("a"), 0), Some("1".to_string()));
    ds.execute_at(put("c", "3"), 0);
    // "b" was least recently used and must be the one evicted
    assert_eq!(ds.execute_at(get("b"), 0), None);
    assert_eq!(ds.execute_at(get("a"), 0), Some("1".to_string()));
    assert_eq!(ds.execute_at(get("c"), 0), Some("3".to_string()));
}

#[test]
fn expire_then_get_is_absent() {
    let mut ds = DataStore::new(10);
    ds.execute_at(put("k", "v"), 0);
    assert_eq!(
        ds.execute_at(Command::Expire { key: "k".to_string(), seconds: 0 }, 5),
        Some("OK".to_string())
    );
    assert_eq!(ds.execute_at(get("k"), 5), None);
    assert_eq!(ds.execute_at(keys("*"), 5), Some("[]".to_string()));
}

#[test]
fn expired_key_is_not_enumerated_even_before_any_get() {
    let mut ds = DataStore::new(10);
    ds.execute_at(put("k", "v"), 0);
    ds.execute_at(Command::Expire { key: "k".to_string(), seconds: 0 }, 5);
    assert_eq!(ds.execute_at(keys("*"), 6), Some("[]".to_string()));
}

#[test]
fn expire_in_the_future_keeps_the_key_until_then() {
    let mut ds = DataStore::new(10);
    ds.execute_at(put("k", "v"), 0);
    assert_eq!(
        ds.execute_at(Command::Expire { key: "k".to_string(), seconds: 10 }, 0),
        Some("OK".to_string())
    );
    assert_eq!(ds.execute_at(get("k"), 9), Some("v".to_string()));
    assert_eq!(ds.execute_at(get("k"), 10), None);
}

#[test]
fn expire_absent_key_is_not_found() {
    let mut ds = DataStore::new(10);
    assert_eq!(
        ds.execute_at(Command::Expire { key: "k".to_string(), seconds: 1 }, 0),
        Some("Not Found".to_string())
    );
}

#[test]
fn set_clears_a_pending_expiration() {
    let mut ds = DataStore::new(10);
    ds.execute_at(put("k", "v"), 0);
    ds.execute_at(Command::Expire { key: "k".to_string(), seconds: 1 }, 0);
    ds.execute_at(put("k", "w"), 0);
    // the fresh write removed the TTL: the key outlives the old deadline
    assert_eq!(ds.execute_at(get("k"), 100), Some("w".to_string()));
}

#[test]
fn incr_seeds_absent_keys_at_zero() {
    let mut ds = DataStore::new(10);
    assert_eq!(
        ds.execute_at(Command::Incr { key: "counter".to_string() }, 0),
        Some("1".to_string())
    );
    for _ in 0..5 {
        ds.execute_at(Command::Incr { key: "counter".to_string() }, 0);
    }
    assert_eq!(ds.execute_at(get("counter"), 0), Some("6".to_string()));
}

#[test]
fn decr_treats_non_numeric_as_zero() {
    let mut ds = DataStore::new(10);
    ds.execute_at(put("x", "abc"), 0);
    assert_eq!(
        ds.execute_at(Command::Decr { key: "x".to_string() }, 0),
        Some("-1".to_string())
    );
}

#[test]
fn incr_parses_the_stored_value() {
    let mut ds = DataStore::new(10);
    ds.execute_at(put("n", "41"), 0);
    assert_eq!(
        ds.execute_at(Command::Incr { key: "n".to_string() }, 0),
        Some("42".to_string())
    );
    ds.execute_at(put("m", "-3"), 0);
    assert_eq!(
        ds.execute_at(Command::Decr { key: "m".to_string() }, 0),
        Some("-4".to_string())
    );
}

#[test]
fn keys_matches_the_glob_pattern() {
    let mut ds = DataStore::new(10);
    ds.execute_at(put("foo", "1"), 0);
    ds.execute_at(put("foobar", "2"), 0);
    ds.execute_at(put("bar", "3"), 0);
    // recency order: bar, foobar, foo; only the foo-prefixed ones match
    assert_eq!(
        ds.execute_at(keys("foo*"), 0),
        Some("[\"foobar\", \"foo\"]".to_string())
    );
    assert_eq!(
        ds.execute_at(keys("*"), 0),
        Some("[\"bar\", \"foobar\", \"foo\"]".to_string())
    );
}

#[test]
fn keys_pattern_keeps_regex_metacharacters() {
    let mut ds = DataStore::new(10);
    ds.execute_at(put("axb", "1"), 0);
    // the dot is passed through to the regex engine and matches any char
    assert_eq!(ds.execute_at(keys("a.b"), 0), Some("[\"axb\"]".to_string()));
}

#[test]
fn keys_invalid_pattern_is_reported_in_the_reply() {
    let mut ds = DataStore::new(10);
    ds.execute_at(put("k", "v"), 0);
    assert_eq!(
        ds.execute_at(keys("("), 0),
        Some("Invalid pattern".to_string())
    );
}

#[test]
fn keys_does_not_touch_recency() {
    let mut ds = DataStore::new(2);
    ds.execute_at(put("a", "1"), 0);
    ds.execute_at(put("b", "2"), 0);
    // enumerating must not promote "a"; "a" stays least recently used
    ds.execute_at(keys("a"), 0);
    ds.execute_at(put("c", "3"), 0);
    assert_eq!(ds.execute_at(get("a"), 0), None);
    assert_eq!(ds.execute_at(get("b"), 0), Some("2".to_string()));
}

#[test]
fn sweep_removes_every_expired_key_at_once() {
    let mut ds = DataStore::new(10);
    ds.execute_at(put("a", "1"), 0);
    ds.execute_at(put("b", "2"), 0);
    ds.execute_at(put("c", "3"), 0);
    ds.execute_at(Command::Expire { key: "a".to_string(), seconds: 0 }, 0);
    ds.execute_at(Command::Expire { key: "b".to_string(), seconds: 100 }, 0);
    ds.remove_expired_at(1);
    // "a" is gone from the table and the queue; delete confirms no trace
    assert_eq!(ds.execute_at(keys("*"), 1), Some("[\"b\", \"c\"]".to_string()));
    assert_eq!(
        ds.execute_at(Command::Delete { key: "a".to_string() }, 1),
        Some("Not Found".to_string())
    );
    // "b" survived with its deadline intact
    assert_eq!(ds.execute_at(get("b"), 99), Some("2".to_string()));
}

#[test]
fn capacity_zero_stores_nothing() {
    let mut ds = DataStore::new(0);
    assert_eq!(ds.execute_at(put("k", "v"), 0), Some("OK".to_string()));
    assert_eq!(ds.execute_at(get("k"), 0), None);
    assert_eq!(ds.execute_at(keys("*"), 0), Some("[]".to_string()));
}

#[test]
fn facade_serialized_increments_lose_no_update() {
    let n: u64 = 100;
    let mut cache = Cache::new(10);
    for _ in 0..n {
        cache.handle_command_at(Command::Incr { key: "shared".to_string() }, 0);
    }
    assert_eq!(
        cache.handle_command_at(get("shared"), 0),
        Some(n.to_string())
    );
}

#[test]
fn facade_counts_commands() {
    let mut cache = Cache::new(10);
    assert_eq!(cache.total_commands(), 0);
    cache.handle_command_at(put("k", "v"), 0);
    cache.handle_command_at(get("k"), 0);
    cache.handle_command_at(get("missing"), 0);
    assert_eq!(cache.total_commands(), 3);
}

#[test]
fn facade_cleanup_sweeps_expired_keys() {
    let mut cache = Cache::new(10);
    cache.handle_command_at(put("k", "v"), 0);
    cache.handle_command_at(Command::Expire { key: "k".to_string(), seconds: 0 }, 0);
    cache.cleanup_expired_at(1);
    assert_eq!(cache.handle_command_at(keys("*"), 1), Some("[]".to_string()));
    assert_eq!(
        cache.handle_command_at(Command::Delete { key: "k".to_string() }, 1),
        Some("Not Found".to_string())
    );
}

#[test]
fn wall_clock_entry_points_run() {
    // the clock-driven paths: a TTL far in the future survives them
    let mut cache = Cache::new(10);
    assert_eq!(cache.handle_command(put("k", "v")), Some("OK".to_string()));
    assert_eq!(
        cache.handle_command(Command::Expire { key: "k".to_string(), seconds: 1000000 }),
        Some("OK".to_string())
    );
    cache.cleanup_expired_keys();
    assert_eq!(cache.handle_command(get("k")), Some("v".to_string()));
    let mut ds = DataStore::new(10);
    assert_eq!(ds.execute_command(put("a", "b")), Some("OK".to_string()));
    ds.remove_expired_keys();
    assert_eq!(ds.execute_command(get("a")), Some("b".to_string()));
}
