use redis_starter_rust::{encode, handshake_step, HandshakeEvent, HandshakeState, RedisValueRef};

fn request(words: &[&str]) -> Vec<u8> {
    encode(&RedisValueRef::Array(words.iter().map(|w| RedisValueRef::BulkString(w.as_bytes().to_vec())).collect()))
}

fn reply(text: &str) -> HandshakeEvent {
    HandshakeEvent::Reply(RedisValueRef::SimpleString(text.as_bytes().to_vec()))
}

#[test]
fn handshake_runs_to_the_end() {
    let port = b"6380";
    let (s, sent) = handshake_step(HandshakeState::Init, &HandshakeEvent::Start, port);
    assert_eq!(s, HandshakeState::AwaitingPingReply);
    assert_eq!(sent, Some(request(&["PING"])));
    assert_eq!(sent.unwrap(), b"*1\r\n$4\r\nPING\r\n".to_vec());
    let (s, sent) = handshake_step(s, &reply("PONG"), port);
    assert_eq!(s, HandshakeState::ReplconfPortSent);
    assert_eq!(sent, Some(request(&["REPLCONF", "listening-port", "6380"])));
    let (s, sent) = handshake_step(s, &reply("OK"), port);
    assert_eq!(s, HandshakeState::ReplconfCapaSent);
    assert_eq!(sent, Some(request(&["REPLCONF", "capa", "psync2"])));
    let (s, sent) = handshake_step(s, &reply("OK"), port);
    assert_eq!(s, HandshakeState::PsyncSent);
    assert_eq!(sent, Some(request(&["PSYNC", "?", "-1"])));
    let (s, sent) = handshake_step(s, &reply("FULLRESYNC 0123 0"), port);
    assert_eq!(s, HandshakeState::Negotiated);
    assert_eq!(sent, None);
    let (s, sent) = handshake_step(s, &reply("more"), port);
    assert_eq!(s, HandshakeState::Negotiated);
    assert_eq!(sent, None);
}

#[test]
fn missing_reply_fails_the_handshake() {
    let (s, _) = handshake_step(HandshakeState::Init, &HandshakeEvent::Start, b"1");
    let (s, _) = handshake_step(s, &reply("PONG"), b"1");
    let (s, sent) = handshake_step(s, &HandshakeEvent::Closed, b"1");
    assert_eq!(s, HandshakeState::Failed);
    assert_eq!(sent, None);
    let (s, sent) = handshake_step(s, &reply("OK"), b"1");
    assert_eq!(s, HandshakeState::Failed);
    assert_eq!(sent, None);
}

#[test]
fn garbage_or_early_replies_fail_the_handshake() {
    assert_eq!(handshake_step(HandshakeState::ReplconfPortSent, &HandshakeEvent::Closed, b"1").0, HandshakeState::Failed);
    assert_eq!(handshake_step(HandshakeState::PsyncSent, &HandshakeEvent::Malformed, b"1").0, HandshakeState::Failed);
    assert_eq!(handshake_step(HandshakeState::Init, &reply("PONG"), b"1").0, HandshakeState::Failed);
    assert_eq!(handshake_step(HandshakeState::AwaitingPingReply, &HandshakeEvent::Start, b"1").0, HandshakeState::Failed);
}

#[test]
fn an_error_reply_still_moves_the_handshake_on() {
    let err = HandshakeEvent::Reply(RedisValueRef::Error(b"ERR unknown command".to_vec()));
    let (s, sent) = handshake_step(HandshakeState::AwaitingPingReply, &err, b"6380");
    assert_eq!(s, HandshakeState::ReplconfPortSent);
    assert_eq!(sent, Some(request(&["REPLCONF", "listening-port", "6380"])));
    let (s, _) = handshake_step(HandshakeState::PsyncSent, &err, b"6380");
    assert_eq!(s, HandshakeState::Negotiated);
}
