use redis_starter_rust::{
    encode, execute, failure, process_command, Database, Failure, Mode, RedisValueRef, Server,
    REPLID_LEN,
};

fn command(words: &[&str]) -> RedisValueRef {
    RedisValueRef::Array(words.iter().map(|w| RedisValueRef::BulkString(w.as_bytes().to_vec())).collect())
}

fn master() -> Server {
    Server::new("127.0.0.1".to_string(), "6379".to_string(), Mode::Master, 0, None)
}

fn error_text(r: &RedisValueRef) -> String {
    match r {
        RedisValueRef::Error(b) => String::from_utf8(b.clone()).unwrap(),
        other => panic!("not an error reply: {:?}", other),
    }
}

#[test]
fn set_and_get_basic() {
    let mut db = Database::new();
    let server = master();
    let r = process_command(&command(&["SET", "foo", "bar"]), &mut db, &server);
    assert_eq!(encode(&r), b"+OK\r\n".to_vec());
    let r = process_command(&command(&["GET", "foo"]), &mut db, &server);
    assert_eq!(encode(&r), b"$3\r\nbar\r\n".to_vec());
    let r = process_command(&command(&["GET", "missing"]), &mut db, &server);
    assert_eq!(encode(&r), b"$-1\r\n".to_vec());
}

#[test]
fn set_with_px_zero_is_gone_at_once() {
    let mut db = Database::new();
    let server = master();
    let r = process_command(&command(&["SET", "foo", "bar", "PX", "0"]), &mut db, &server);
    assert_eq!(r, RedisValueRef::SimpleString(b"OK".to_vec()));
    let r = process_command(&command(&["GET", "foo"]), &mut db, &server);
    assert_eq!(r, RedisValueRef::NullBulkString);
}

#[test]
fn set_with_px_at_given_times() {
    let mut db = Database::new();
    let server = master();
    execute(&command(&["set", "k", "v", "px", "100"]), &mut db, &server, 500);
    assert_eq!(execute(&command(&["get", "k"]), &mut db, &server, 599), RedisValueRef::BulkString(b"v".to_vec()));
    assert_eq!(execute(&command(&["get", "k"]), &mut db, &server, 600), RedisValueRef::NullBulkString);
}

#[test]
fn info_as_master() {
    let mut db = Database::new();
    let server = master();
    let r = process_command(&command(&["INFO"]), &mut db, &server);
    let text = match r {
        RedisValueRef::BulkString(b) => String::from_utf8(b).unwrap(),
        other => panic!("not a bulk string: {:?}", other),
    };
    let lines: Vec<&str> = text.split("\r\n").collect();
    assert_eq!(lines.len(), 3);
    assert_eq!(lines[0], "role:master");
    let id = lines[1].strip_prefix("master_replid:").unwrap();
    assert_eq!(id.len(), 40);
    assert!(id.chars().all(|c| c.is_ascii_alphanumeric()));
    assert_eq!(lines[2], "master_repl_offset:0");
}

#[test]
fn info_as_replica() {
    let mut db = Database::new();
    let server = Server::new("h".to_string(), "1".to_string(), Mode::Slave, 0, Some(vec!["a".to_string(), "2".to_string()]));
    let r = process_command(&command(&["info", "replication"]), &mut db, &server);
    assert_eq!(r, RedisValueRef::BulkString(b"role:slave".to_vec()));
}

#[test]
fn replication_id_is_forty_alphanumerics() {
    let a = master();
    let b = master();
    let id = a.master_replid.clone().unwrap();
    assert_eq!(id.len(), REPLID_LEN);
    assert!(id.chars().all(|c| c.is_ascii_alphanumeric()));
    assert_ne!(a.master_replid, b.master_replid);
    assert_eq!(a.port, "6379");
    assert_eq!(a.master_repl_offset, 0);
}

#[test]
fn unknown_command_changes_nothing() {
    let mut db = Database::new();
    let server = master();
    execute(&command(&["SET", "k", "v"]), &mut db, &server, 0);
    let r = execute(&command(&["FLUSHALL", "k"]), &mut db, &server, 0);
    assert_eq!(error_text(&r), "ERR unknown command");
    assert_eq!(db.get_at("k", 0).unwrap().value, "v");
    let r = execute(&command(&["PING"]), &mut db, &server, 0);
    assert_eq!(r, RedisValueRef::SimpleString(b"PONG".to_vec()));
}

#[test]
fn ping_echo_replconf() {
    let mut db = Database::new();
    let server = master();
    assert_eq!(execute(&command(&["pInG"]), &mut db, &server, 0), RedisValueRef::SimpleString(b"PONG".to_vec()));
    assert_eq!(execute(&command(&["ECHO", "hey"]), &mut db, &server, 0), RedisValueRef::BulkString(b"hey".to_vec()));
    assert_eq!(
        execute(&command(&["REPLCONF", "listening-port", "6380"]), &mut db, &server, 0),
        RedisValueRef::SimpleString(b"OK".to_vec())
    );
}

#[test]
fn wrong_arity() {
    let mut db = Database::new();
    let server = master();
    for words in [&["ECHO"][..], &["ECHO", "a", "b"], &["GET"], &["SET", "k"], &["SET", "k", "v", "PX"], &["PING", "x"]] {
        let r = execute(&command(words), &mut db, &server, 0);
        assert_eq!(r, failure(Failure::WrongArity), "{:?}", words);
    }
}

#[test]
fn malformed_set_stores_nothing() {
    let mut db = Database::new();
    let server = master();
    let r = execute(&command(&["SET", "k", "v", "EX", "10"]), &mut db, &server, 0);
    assert_eq!(error_text(&r), "ERR syntax error");
    let r = execute(&command(&["SET", "k", "v", "PX", "soon"]), &mut db, &server, 0);
    assert_eq!(error_text(&r), "ERR value is not an integer or out of range");
    let r = execute(&command(&["SET", "k", "v", "PX", "-5"]), &mut db, &server, 0);
    assert_eq!(r, failure(Failure::NotInteger));
    let bad_key = RedisValueRef::Array(vec![
        RedisValueRef::BulkString(b"SET".to_vec()),
        RedisValueRef::BulkString(vec![0xff, 0xfe]),
        RedisValueRef::BulkString(b"v".to_vec()),
    ]);
    assert_eq!(execute(&bad_key, &mut db, &server, 0), failure(Failure::NotText));
    assert!(db.get_at("k", 0).is_none());
}

#[test]
fn utf8_text_round_trips() {
    let mut db = Database::new();
    let server = master();
    execute(&command(&["SET", "clé", "välue"]), &mut db, &server, 0);
    assert_eq!(db.get_at("clé", 0).unwrap().value, "välue");
    assert_eq!(
        execute(&command(&["GET", "clé"]), &mut db, &server, 0),
        RedisValueRef::BulkString("välue".as_bytes().to_vec())
    );
}

#[test]
fn requests_of_the_wrong_shape() {
    let mut db = Database::new();
    let server = master();
    let protocol = failure(Failure::Protocol);
    assert_eq!(execute(&RedisValueRef::Int(3), &mut db, &server, 0), protocol);
    assert_eq!(execute(&RedisValueRef::Array(vec![]), &mut db, &server, 0), protocol);
    let mixed = RedisValueRef::Array(vec![RedisValueRef::BulkString(b"GET".to_vec()), RedisValueRef::Int(1)]);
    assert_eq!(execute(&mixed, &mut db, &server, 0), protocol);
    assert_eq!(error_text(&protocol), "ERR protocol error");
}
