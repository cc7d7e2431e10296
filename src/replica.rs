use vstd::prelude::*;
use crate::handlers::{bytes_of, text_bytes};
use crate::resp::{encode, encoding, lemma_values_of, RedisValueRef, Resp};

verus! {

/// How far a replica has come in its handshake with the master.
#[derive(Clone, Copy, Debug, PartialEq, Eq, Structural)]
pub enum HandshakeState {
    Init,
    AwaitingPingReply,
    ReplconfPortSent,
    ReplconfCapaSent,
    PsyncSent,
    Negotiated,
    Failed,
}

/// What happened on the connection to the master.
#[derive(Debug)]
pub enum HandshakeEvent {
    /// The handshake is to begin.
    Start,
    /// The master's reply to the last request.
    Reply(RedisValueRef),
    /// The connection closed, or could not be used, before a reply came.
    Closed,
    /// The master's bytes could not be decoded.
    Malformed,
}

/// The handshake is waiting for a reply from the master.
pub open spec fn is_waiting(s: HandshakeState) -> bool {
    ||| s == HandshakeState::AwaitingPingReply
    ||| s == HandshakeState::ReplconfPortSent
    ||| s == HandshakeState::ReplconfCapaSent
    ||| s == HandshakeState::PsyncSent
}

/// A request as an array of bulk strings.
pub open spec fn request(words: Seq<Seq<u8>>) -> Resp {
    Resp::Array(words.map_values(|w: Seq<u8>| Resp::Bulk(w)))
}

/// The request that the handshake sends on entering `s`, if any; `port` is the port
/// this replica listens on.
pub open spec fn request_for(s: HandshakeState, port: Seq<u8>) -> Option<Seq<u8>> {
    match s {
        HandshakeState::AwaitingPingReply => Some(encoding(request(seq![bytes_of("PING")]))),
        HandshakeState::ReplconfPortSent => Some(
            encoding(request(seq![bytes_of("REPLCONF"), bytes_of("listening-port"), port])),
        ),
        HandshakeState::ReplconfCapaSent => Some(
            encoding(request(seq![bytes_of("REPLCONF"), bytes_of("capa"), bytes_of("psync2")])),
        ),
        HandshakeState::PsyncSent => Some(
            encoding(request(seq![bytes_of("PSYNC"), bytes_of("?"), bytes_of("-1")])),
        ),
        _ => None,
    }
}

/// The state after a successful reply in state `s`.
pub open spec fn advance(s: HandshakeState) -> HandshakeState {
    match s {
        HandshakeState::AwaitingPingReply => HandshakeState::ReplconfPortSent,
        HandshakeState::ReplconfPortSent => HandshakeState::ReplconfCapaSent,
        HandshakeState::ReplconfCapaSent => HandshakeState::PsyncSent,
        HandshakeState::PsyncSent => HandshakeState::Negotiated,
        other => other,
    }
}

/// The state after `event` in state `s`. The handshake starts from `Init` only; any
/// decoded reply moves a waiting handshake one step on; a closed connection or
/// undecodable bytes while waiting, or an early reply, fail it; a finished handshake
/// stays as it is.
pub open spec fn next_state(s: HandshakeState, event: HandshakeEvent) -> HandshakeState {
    match s {
        HandshakeState::Negotiated => s,
        HandshakeState::Failed => s,
        HandshakeState::Init => match event {
            HandshakeEvent::Start => HandshakeState::AwaitingPingReply,
            _ => HandshakeState::Failed,
        },
        _ => match event {
            HandshakeEvent::Reply(_) => advance(s),
            _ => HandshakeState::Failed,
        },
    }
}

/// The bytes of a request of bulk strings.
fn send_request(words: Vec<Vec<u8>>) -> (r: Vec<u8>)
    ensures
        forall|ws: Seq<Seq<u8>>|
            ws.len() == words@.len() && (forall|k: int| 0 <= k < ws.len() ==> ws[k] == words@[k]@)
                ==> r@ == #[trigger] encoding(request(ws)),
{
    let mut items: Vec<RedisValueRef> = Vec::new();
    let mut i: usize = 0;
    let ghost ws = words@.map_values(|w: Vec<u8>| w@);
    while i < words.len()
        invariant
            i <= words@.len(),
            ws == words@.map_values(|w: Vec<u8>| w@),
            items@.len() == i,
            forall|k: int| 0 <= k < i ==> (#[trigger] items@[k])@ == Resp::Bulk(ws[k]),
        decreases words.len() - i,
    {
        items.push(RedisValueRef::BulkString(words[i].clone()));
        i = i + 1;
    }
    let value = RedisValueRef::Array(items);
    proof {
        lemma_values_of(items@);
        assert(value@ == request(ws)) by {
            assert(value@->Array_0 =~= ws.map_values(|w: Seq<u8>| Resp::Bulk(w)));
        }
        assert forall|xs: Seq<Seq<u8>>|
            xs.len() == words@.len() && (forall|k: int| 0 <= k < xs.len() ==> xs[k] == words@[k]@)
                implies request(xs) == request(ws) by {
            assert(xs =~= ws);
        }
    }
    encode(&value)
}

/// Takes the handshake one step: the state after `event`, and the request to send
/// to the master, if any. `port` is the port this replica listens on.
pub fn handshake_step(state: HandshakeState, event: &HandshakeEvent, port: &[u8]) -> (r: (
    HandshakeState,
    Option<Vec<u8>>,
))
    ensures
        r.0 == next_state(state, *event),
        match r.1 {
            Some(b) => r.0 != state && request_for(r.0, port@) == Some(b@),
            None => r.0 == state || request_for(r.0, port@) is None,
        },
{
    let next = match state {
        HandshakeState::Negotiated => state,
        HandshakeState::Failed => state,
        HandshakeState::Init => match event {
            HandshakeEvent::Start => HandshakeState::AwaitingPingReply,
            _ => HandshakeState::Failed,
        },
        _ => match event {
            HandshakeEvent::Reply(_) => match state {
                HandshakeState::AwaitingPingReply => HandshakeState::ReplconfPortSent,
                HandshakeState::ReplconfPortSent => HandshakeState::ReplconfCapaSent,
                HandshakeState::ReplconfCapaSent => HandshakeState::PsyncSent,
                _ => HandshakeState::Negotiated,
            },
            _ => HandshakeState::Failed,
        },
    };
    if next == state {
        return (next, None);
    }
    let message = match next {
        HandshakeState::AwaitingPingReply => Some(send_request(vec![text_bytes("PING")])),
        HandshakeState::ReplconfPortSent => Some(
            send_request(
                vec![
                    text_bytes("REPLCONF"),
                    text_bytes("listening-port"),
                    vstd::slice::slice_to_vec(port),
                ],
            ),
        ),
        HandshakeState::ReplconfCapaSent => Some(
            send_request(vec![text_bytes("REPLCONF"), text_bytes("capa"), text_bytes("psync2")]),
        ),
        HandshakeState::PsyncSent => Some(
            send_request(vec![text_bytes("PSYNC"), text_bytes("?"), text_bytes("-1")]),
        ),
        _ => None,
    };
    (next, message)
}

/// A master that answers each of the four requests, whatever the replies hold, takes the
/// handshake from its start to `Negotiated`; on the way the replica sends PING,
/// REPLCONF listening-port, REPLCONF capa psync2 and PSYNC ? -1, in that order.
pub proof fn lemma_handshake_completes(
    port: Seq<u8>,
    r1: RedisValueRef,
    r2: RedisValueRef,
    r3: RedisValueRef,
    r4: RedisValueRef,
)
    ensures
        ({
            let s1 = next_state(HandshakeState::Init, HandshakeEvent::Start);
            let s2 = next_state(s1, HandshakeEvent::Reply(r1));
            let s3 = next_state(s2, HandshakeEvent::Reply(r2));
            let s4 = next_state(s3, HandshakeEvent::Reply(r3));
            let s5 = next_state(s4, HandshakeEvent::Reply(r4));
            &&& request_for(s1, port) == Some(encoding(request(seq![bytes_of("PING")])))
            &&& request_for(s2, port) == Some(
                encoding(request(seq![bytes_of("REPLCONF"), bytes_of("listening-port"), port])),
            )
            &&& request_for(s3, port) == Some(
                encoding(request(seq![bytes_of("REPLCONF"), bytes_of("capa"), bytes_of("psync2")])),
            )
            &&& request_for(s4, port) == Some(
                encoding(request(seq![bytes_of("PSYNC"), bytes_of("?"), bytes_of("-1")])),
            )
            &&& s5 == HandshakeState::Negotiated
        }),
{
}

/// A waiting handshake never stays where it is: a decoded reply moves it on, and a
/// closed connection or undecodable bytes fail it.
pub proof fn lemma_handshake_never_stalls(s: HandshakeState, event: HandshakeEvent)
    requires
        is_waiting(s),
    ensures
        next_state(s, event) != s,
        next_state(s, event) == HandshakeState::Failed <==> !(event is Reply),
{
}

} // verus!
