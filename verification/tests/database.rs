//! The store: set, get, delete, list operations and expiry.
//!
//! Expiry times are milliseconds since the Unix epoch; a key whose time has
//! passed is given a time in the past.

use std::time::{SystemTime, UNIX_EPOCH};

use ember::database::store::{DbError, RedisObject, DB};

fn now_ms() -> u64 {
    SystemTime::now().duration_since(UNIX_EPOCH).unwrap().as_millis() as u64
}

// An in-memory store with a few helpers.
struct TestDb {
    db: DB,
}

impl TestDb {
    fn new() -> Self {
        TestDb { db: DB::new_in_memory() }
    }

    fn set(&mut self, key: &str, value: &str) {
        self.db
            .set(key.to_string(), RedisObject::String(value.to_string()), None)
            .unwrap_or_else(|e| panic!("set({key:?}, {value:?}) failed: {e:?}"));
    }

    fn get_string(&mut self, key: &str) -> String {
        match self.db.get(key.to_string()).unwrap_or_else(|e| panic!("get({key:?}) failed: {e:?}")) {
            RedisObject::String(s) => s,
            other => panic!("expected RedisObject::String for {key:?}, got {other:?}"),
        }
    }
}

fn text(s: &str) -> RedisObject {
    RedisObject::String(s.to_string())
}

#[test]
fn set_and_get_string() {
    let mut t = TestDb::new();
    t.set("name", "ember");
    assert_eq!(t.get_string("name"), "ember");
}

#[test]
fn get_missing_key_returns_nil() {
    let mut t = TestDb::new();
    assert_eq!(t.get_string("no_such_key"), "nil");
}

#[test]
fn set_overwrites_previous_value() {
    let mut t = TestDb::new();
    t.set("key", "first");
    t.set("key", "second");
    assert_eq!(t.get_string("key"), "second");
}

#[test]
fn delete_removes_key() {
    let mut t = TestDb::new();
    t.set("key", "value");
    t.db.delete("key".into()).unwrap();
    assert_eq!(t.get_string("key"), "nil");
}

#[test]
fn delete_nonexistent_key_is_ok() {
    let mut t = TestDb::new();
    assert!(t.db.delete("ghost".into()).is_ok());
}

#[test]
fn get_returns_nil_for_expired_key() {
    let mut t = TestDb::new();
    let past = now_ms() - 100;
    t.db.set("key".into(), text("val"), Some(past)).unwrap();
    assert_eq!(t.get_string("key"), "nil");
}

#[test]
fn set_overwrites_clears_old_expiry() {
    let mut t = TestDb::new();
    let past = now_ms() - 100;
    t.db.set("key".into(), text("old"), Some(past)).unwrap();
    t.set("key", "new");
    assert_eq!(t.get_string("key"), "new");
}

#[test]
fn lpush_creates_list_on_new_key() {
    let mut t = TestDb::new();
    t.db.lpush("list".into(), vec![text("a")]).unwrap();
    if let RedisObject::List(items) = t.db.lrange("list".into(), 0, -1).unwrap() {
        assert_eq!(items.len(), 1);
    } else {
        panic!("expected List");
    }
}

#[test]
fn lpush_prepends_to_existing_list() {
    let mut t = TestDb::new();
    t.db.lpush("list".into(), vec![text("b")]).unwrap();
    t.db.lpush("list".into(), vec![text("a")]).unwrap();
    if let RedisObject::List(items) = t.db.lrange("list".into(), 0, -1).unwrap() {
        assert_eq!(items[0], text("a"));
        assert_eq!(items[1], text("b"));
    } else {
        panic!("expected List");
    }
}

#[test]
fn rpush_appends_to_list() {
    let mut t = TestDb::new();
    t.db.rpush("list".into(), vec![text("x")]).unwrap();
    t.db.rpush("list".into(), vec![text("y")]).unwrap();
    if let RedisObject::List(items) = t.db.lrange("list".into(), 0, -1).unwrap() {
        assert_eq!(items[0], text("x"));
        assert_eq!(items[1], text("y"));
    } else {
        panic!("expected List");
    }
}

#[test]
fn lrange_subset() {
    let mut t = TestDb::new();
    for v in ["a", "b", "c", "d"] {
        t.db.rpush("list".into(), vec![text(v)]).unwrap();
    }
    if let RedisObject::List(items) = t.db.lrange("list".into(), 1, 2).unwrap() {
        assert_eq!(items.len(), 2);
        assert_eq!(items[0], text("b"));
        assert_eq!(items[1], text("c"));
    } else {
        panic!("expected List");
    }
}

#[test]
fn lrange_negative_index() {
    let mut t = TestDb::new();
    for v in ["a", "b", "c"] {
        t.db.rpush("list".into(), vec![text(v)]).unwrap();
    }
    if let RedisObject::List(items) = t.db.lrange("list".into(), -1, -1).unwrap() {
        assert_eq!(items[0], text("c"));
    } else {
        panic!("expected List");
    }
}

#[test]
fn expire_nx_sets_when_no_expiry_exists() {
    let mut t = TestDb::new();
    t.set("key", "val");
    let future = now_ms() + 60_000;
    t.db.expire("key".into(), future, Some("NX".into())).unwrap();
    assert_eq!(t.get_string("key"), "val");
}

#[test]
fn expire_nx_does_not_overwrite_existing_expiry() {
    let mut t = TestDb::new();
    let first_expiry = now_ms() + 100_000;
    t.db.set("key".into(), text("v"), Some(first_expiry)).unwrap();
    let second_expiry = now_ms() + 200_000;
    t.db.expire("key".into(), second_expiry, Some("NX".into())).unwrap();
    assert_eq!(t.get_string("key"), "v");
}

#[test]
fn expire_xx_only_sets_when_expiry_exists() {
    let mut t = TestDb::new();
    t.set("key", "val");
    let future = now_ms() + 60_000;
    t.db.expire("key".into(), future, Some("XX".into())).unwrap();
    assert_eq!(t.get_string("key"), "val");
}

#[test]
fn expire_gt_updates_when_new_is_greater() {
    let mut t = TestDb::new();
    let initial = now_ms() + 10_000;
    t.db.set("key".into(), text("v"), Some(initial)).unwrap();
    let later = now_ms() + 100_000;
    t.db.expire("key".into(), later, Some("GT".into())).unwrap();
    assert_eq!(t.get_string("key"), "v");
}

#[test]
fn expire_lt_updates_when_new_is_lesser() {
    let mut t = TestDb::new();
    let initial = now_ms() + 100_000;
    t.db.set("key".into(), text("v"), Some(initial)).unwrap();
    let sooner = now_ms() + 10_000;
    t.db.expire("key".into(), sooner, Some("LT".into())).unwrap();
    assert_eq!(t.get_string("key"), "v");
}

#[test]
fn expire_on_missing_key_returns_error() {
    let mut t = TestDb::new();
    let future = now_ms() + 30_000;
    assert!(t.db.expire("ghost".into(), future, None).is_err());
}

// The expiry options, observed at fixed times.

#[test]
fn expire_options_at_fixed_times() {
    let mut db = DB::new_in_memory();
    db.set("k".into(), text("v"), Some(1_000)).unwrap();
    // GT with an earlier time: unchanged, so the key is gone at 1_500.
    db.expire("k".into(), 500, Some("GT".into())).unwrap();
    assert_eq!(db.get_at("k".into(), 999).unwrap(), text("v"));
    // LT with an earlier time: the key is gone after 500.
    db.expire("k".into(), 500, Some("LT".into())).unwrap();
    assert_eq!(db.get_at("k".into(), 501).unwrap(), text("nil"));
    // The key was dropped, so a later EXPIRE fails.
    assert_eq!(db.expire("k".into(), 10, None), Err(DbError::EntryNotFound));
}

#[test]
fn expire_with_unknown_option_is_an_error() {
    let mut db = DB::new_in_memory();
    db.set("k".into(), text("v"), None).unwrap();
    assert_eq!(db.expire("k".into(), 10, Some("ZZ".into())), Err(DbError::InvalidExpireOption));
    assert_eq!(DbError::InvalidExpireOption.message(), "Invalid option for expire command.");
}

#[test]
fn expiry_is_strictly_before_now() {
    let mut db = DB::new_in_memory();
    db.set("k".into(), text("v"), Some(100)).unwrap();
    assert_eq!(db.get_at("k".into(), 100).unwrap(), text("v"));
    assert_eq!(db.get_at("k".into(), 101).unwrap(), text("nil"));
    // Dropped: even an earlier read now finds nothing.
    assert_eq!(db.get_at("k".into(), 50).unwrap(), text("nil"));
}

#[test]
fn push_onto_a_string_fails() {
    let mut db = DB::new_in_memory();
    db.set("s".into(), text("v"), None).unwrap();
    assert_eq!(db.lpush("s".into(), vec![text("a")]), Err(DbError::ExpectedListGotString));
    assert_eq!(db.rpush("s".into(), vec![text("a")]), Err(DbError::ExpectedListGotString));
    assert_eq!(db.get_at("s".into(), 0).unwrap(), text("v"));
}

#[test]
fn lrange_of_a_string_fails() {
    let mut db = DB::new_in_memory();
    db.set("s".into(), text("v"), None).unwrap();
    assert_eq!(db.lrange_at("s".into(), 0, -1, 0), Err(DbError::ExpectedList));
    assert_eq!(DbError::ExpectedList.message(), "Wrong type. Expected list.");
}

#[test]
fn lrange_of_missing_or_expired_key_is_nil() {
    let mut db = DB::new_in_memory();
    assert_eq!(db.lrange_at("none".into(), 0, -1, 0).unwrap(), text("nil"));
    db.rpush("l".into(), vec![text("a")]).unwrap();
    db.expire("l".into(), 10, None).unwrap();
    assert_eq!(db.lrange_at("l".into(), 0, -1, 11).unwrap(), text("nil"));
}

#[test]
fn lpush_keeps_the_order_of_its_values() {
    let mut db = DB::new_in_memory();
    db.rpush("l".into(), vec![text("c")]).unwrap();
    db.lpush("l".into(), vec![text("a"), text("b")]).unwrap();
    assert_eq!(
        db.lrange_at("l".into(), 0, -1, 0).unwrap(),
        RedisObject::List(vec![text("a"), text("b"), text("c")])
    );
}

#[test]
fn lrange_bounds() {
    let mut db = DB::new_in_memory();
    db.rpush("l".into(), vec![text("a"), text("b"), text("c")]).unwrap();
    // Past the end: cut to the list.
    assert_eq!(db.lrange_at("l".into(), 1, 100, 0).unwrap(), RedisObject::List(vec![text("b"), text("c")]));
    // Start after stop: empty.
    assert_eq!(db.lrange_at("l".into(), 2, 1, 0).unwrap(), RedisObject::List(vec![]));
    // -2 counts from the end.
    assert_eq!(db.lrange_at("l".into(), -2, -1, 0).unwrap(), RedisObject::List(vec![text("b"), text("c")]));
    // A start before the beginning is the beginning.
    assert_eq!(db.lrange_at("l".into(), -10, 1, 0).unwrap(), RedisObject::List(vec![text("a"), text("b")]));
    // A stop before the beginning selects nothing.
    assert_eq!(db.lrange_at("l".into(), 0, -10, 0).unwrap(), RedisObject::List(vec![]));
    // A start past the end selects nothing.
    assert_eq!(db.lrange_at("l".into(), 3, 10, 0).unwrap(), RedisObject::List(vec![]));
}

#[test]
fn new_inserts_in_order() {
    let data = vec![("a".to_string(), text("1")), ("b".to_string(), text("2")), ("a".to_string(), text("3"))];
    let exps = vec![("b".to_string(), 5u64)];
    let mut db = DB::new(data, exps);
    assert_eq!(db.get_at("a".into(), 10).unwrap(), text("3"));
    assert_eq!(db.get_at("b".into(), 4).unwrap(), text("2"));
    assert_eq!(db.get_at("b".into(), 6).unwrap(), text("nil"));
}

#[test]
fn expire_sampled_drops_only_expired_keys() {
    let mut db = DB::new_in_memory();
    db.set("old".into(), text("1"), Some(10)).unwrap();
    db.set("new".into(), text("2"), Some(1_000)).unwrap();
    db.set("plain".into(), text("3"), None).unwrap();
    let keys = vec!["old".to_string(), "new".to_string(), "plain".to_string(), "missing".to_string()];
    assert_eq!(db.expire_sampled(&keys, 100), 1);
    assert_eq!(db.get_at("old".into(), 0).unwrap(), text("nil"));
    assert_eq!(db.get_at("new".into(), 100).unwrap(), text("2"));
    assert_eq!(db.get_at("plain".into(), 100).unwrap(), text("3"));
}

#[test]
fn active_expiration_cycle_drops_expired_keys() {
    let mut db = DB::new_in_memory();
    for i in 0..10 {
        db.set(format!("gone{i}"), text("x"), Some(1)).unwrap();
    }
    db.set("kept".into(), text("y"), None).unwrap();
    db.active_expiration_cycle();
    // Every key with an expiry has expired, so every round is wholly
    // expired and the rounds go on until none is left.
    for i in 0..10 {
        assert_eq!(db.get_at(format!("gone{i}"), 0).unwrap(), text("nil"));
    }
    assert_eq!(db.get_at("kept".into(), 0).unwrap(), text("y"));
}

#[test]
fn error_messages() {
    assert_eq!(DbError::ExpectedListGotString.message(), "Wrong data type. Expected List, got String.");
    assert_eq!(DbError::EntryNotFound.message(), "Entry not found.");
}

#[test]
fn lrange_start_below_minus_length_is_clamped() {
    let mut db = DB::new_in_memory();
    db.rpush("key".into(), vec![text("a"), text("b")]).unwrap();
    assert_eq!(db.lrange_at("key".into(), -5, 1, 0).unwrap(), RedisObject::List(vec![text("a"), text("b")]));
}

#[test]
fn the_store_clock_does_not_go_back() {
    let db = DB::new_in_memory();
    let a = db.now();
    let b = db.now();
    assert!(b >= a);
    assert!(a + 1_000 >= now_ms() && now_ms() + 1_000 >= a);
}
