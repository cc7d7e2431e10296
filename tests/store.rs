use redis_starter_rust::{Database, Mode};

#[test]
fn set_then_get() {
    let mut db = Database::new();
    assert!(db.set("foo", "bar", None).is_none());
    assert_eq!(db.get("foo").unwrap().value, "bar");
    assert!(db.get("missing").is_none());
    let previous = db.set("foo", "baz", None).unwrap();
    assert_eq!(previous.value, "bar");
    assert_eq!(db.get("foo").unwrap().value, "baz");
}

#[test]
fn ttl_expires_after_its_time() {
    let mut db = Database::new();
    db.set_at("k", "v", Some(100), 1_000);
    assert_eq!(db.get_at("k", 1_000).unwrap().value, "v");
    assert_eq!(db.get_at("k", 1_099).unwrap().value, "v");
    assert!(db.get_at("k", 1_100).is_none());
    assert!(db.get_at("k", 5_000).is_none());
    assert_eq!(db.get_at("k", 1_000).unwrap().duration, Some(1_100));
}

#[test]
fn ttl_with_the_clock() {
    let mut db = Database::new();
    db.set("k", "v", Some(100_000));
    assert_eq!(db.get("k").unwrap().value, "v");
    db.set("gone", "v", Some(0));
    assert!(db.get("gone").is_none());
}

#[test]
fn expired_entries_are_absent_but_can_be_rewritten() {
    let mut db = Database::new();
    db.set_at("k", "old", Some(10), 0);
    assert!(db.get_at("k", 10).is_none());
    let previous = db.set_at("k", "new", None, 20).unwrap();
    assert_eq!(previous.value, "old");
    assert_eq!(db.get_at("k", u64::MAX).unwrap().value, "new");
}

#[test]
fn expiry_saturates_at_the_end_of_the_clock() {
    let mut db = Database::new();
    db.set_at("k", "v", Some(u64::MAX), 5);
    assert_eq!(db.get_at("k", 5).unwrap().duration, Some(u64::MAX));
}

#[test]
fn toggles_to_replica() {
    let mut db = Database::new();
    assert_eq!(db.mode, Mode::Master);
    db.set("a", "1", None);
    db.toggle_slave_mode(vec!["127.0.0.1".to_string(), "6379".to_string()]);
    assert_eq!(db.mode, Mode::Slave);
    assert_eq!(db.replicaof, Some(vec!["127.0.0.1".to_string(), "6379".to_string()]));
    assert_eq!(db.get("a").unwrap().value, "1");
}

#[test]
fn mode_names() {
    assert_eq!(Mode::Master.to_string(), "master");
    assert_eq!(Mode::Slave.to_string(), "slave");
    assert_eq!(Mode::default(), Mode::Master);
}

#[test]
fn ttl_in_real_time() {
    let mut db = Database::new();
    db.set("k", "v", Some(100));
    assert_eq!(db.get("k").unwrap().value, "v");
    let start = std::time::Instant::now();
    while start.elapsed() < std::time::Duration::from_millis(100) {}
    assert!(db.get("k").is_none());
}

#[test]
fn clones_and_defaults() {
    let mut db = Database::new();
    db.set("k", "v", None);
    let copy = db.clone();
    db.set("k", "w", None);
    assert_eq!(copy.get("k").unwrap().value, "v");
    let server = redis_starter_rust::Server::default();
    assert_eq!(server.mode, Mode::Master);
    assert_eq!(server.master_repl_offset, 0);
    assert!(server.master_replid.is_none());
}
