use vstd::prelude::*;
use vstd::utf8::{
    decode_utf8, decode_utf8_encode_utf8, encode_utf8, is_ascii_chars, is_ascii_chars_encode_utf8,
    valid_utf8,
};
use crate::config::{is_alphanumeric, is_replid, Mode, Server, REPLID_LEN};
use crate::db::{expiry, is_live, Database, StoreModel};
use crate::number::{nat_digits, parse_u64, push_nat, u64_value};
use crate::resp::{lemma_values_of, push_bytes, values_of, RedisValueRef, Resp};

verus! {

/// Relies on `std::str::from_utf8`: it accepts exactly the valid UTF-8 byte strings,
/// and the text is then the characters that they encode.
#[verifier::external_body]
fn utf8_text(b: &[u8]) -> (r: Option<String>)
    ensures
        match r {
            Some(s) => valid_utf8(b@) && s@ == decode_utf8(b@),
            None => !valid_utf8(b@),
        },
{
    match std::str::from_utf8(b) {
        Ok(s) => Some(s.to_owned()),
        Err(_) => None,
    }
}

/// The UTF-8 bytes of a text.
pub open spec fn bytes_of(s: &str) -> Seq<u8> {
    encode_utf8(s@)
}

/// The UTF-8 bytes of a text, owned.
pub(crate) fn text_bytes(s: &str) -> (r: Vec<u8>)
    ensures
        r@ == bytes_of(s),
{
    vstd::slice::slice_to_vec(s.as_bytes())
}

/// The text that `b` holds, when it is valid UTF-8.
pub open spec fn text_of(b: Seq<u8>) -> Option<Seq<char>> {
    if valid_utf8(b) {
        Some(decode_utf8(b))
    } else {
        None
    }
}

/// Why a command is refused.
#[derive(Clone, Copy, Debug, PartialEq, Eq, Structural)]
pub enum Failure {
    /// The request is not an array of bulk strings with a command name.
    Protocol,
    UnknownCommand,
    WrongArity,
    /// A SET option other than PX.
    Syntax,
    NotInteger,
    /// A key or value that is not valid UTF-8.
    NotText,
}

/// The message of the error reply for a failure.
pub open spec fn failure_text(f: Failure) -> Seq<u8> {
    match f {
        Failure::Protocol => bytes_of("ERR protocol error"),
        Failure::UnknownCommand => bytes_of("ERR unknown command"),
        Failure::WrongArity => bytes_of("ERR wrong number of arguments"),
        Failure::Syntax => bytes_of("ERR syntax error"),
        Failure::NotInteger => bytes_of("ERR value is not an integer or out of range"),
        Failure::NotText => bytes_of("ERR invalid text"),
    }
}

/// The error reply for a failure.
pub open spec fn failure_reply(f: Failure) -> Resp {
    Resp::Error(failure_text(f))
}

/// The error reply for a failure.
pub fn failure(f: Failure) -> (r: RedisValueRef)
    ensures
        r@ == failure_reply(f),
{
    let text = match f {
        Failure::Protocol => text_bytes("ERR protocol error"),
        Failure::UnknownCommand => text_bytes("ERR unknown command"),
        Failure::WrongArity => text_bytes("ERR wrong number of arguments"),
        Failure::Syntax => text_bytes("ERR syntax error"),
        Failure::NotInteger => text_bytes("ERR value is not an integer or out of range"),
        Failure::NotText => text_bytes("ERR invalid text"),
    };
    RedisValueRef::Error(text)
}

/// The simple string reply `OK`.
pub open spec fn ok_reply() -> Resp {
    Resp::Simple(bytes_of("OK"))
}

fn ok() -> (r: RedisValueRef)
    ensures
        r@ == ok_reply(),
{
    RedisValueRef::SimpleString(text_bytes("OK"))
}

/// A byte in lower case, when it is an ASCII letter.
pub open spec fn ascii_lower(b: u8) -> u8 {
    if 65 <= b <= 90 {
        (b + 32) as u8
    } else {
        b
    }
}

/// `name` spells the lower-case `word`, in any mix of ASCII case.
pub open spec fn names(name: Seq<u8>, word: Seq<u8>) -> bool {
    &&& name.len() == word.len()
    &&& forall|i: int| 0 <= i < name.len() ==> ascii_lower(name[i]) == word[i]
}

/// Whether `name` spells the lower-case `word`, in any mix of ASCII case.
pub fn names_command(name: &[u8], word: &str) -> (r: bool)
    ensures
        r == names(name@, bytes_of(word)),
{
    let w = word.as_bytes();
    if name.len() != w.len() {
        return false;
    }
    let mut i: usize = 0;
    while i < name.len()
        invariant
            i <= name@.len(),
            name@.len() == w@.len(),
            w@ == bytes_of(word),
            forall|k: int| 0 <= k < i ==> ascii_lower(name@[k]) == w@[k],
        decreases name.len() - i,
    {
        let b = name[i];
        let lower = if 65 <= b && b <= 90 {
            b + 32
        } else {
            b
        };
        if lower != w[i] {
            return false;
        }
        i = i + 1;
    }
    true
}

/// A request: an array of one or more bulk strings.
pub open spec fn is_request(cmd: Resp) -> bool {
    &&& cmd is Array
    &&& cmd->Array_0.len() >= 1
    &&& forall|i: int| 0 <= i < cmd->Array_0.len() ==> (#[trigger] cmd->Array_0[i]) is Bulk
}

/// The words of a request: the bytes of each of its bulk strings.
pub open spec fn request_words(cmd: Resp) -> Seq<Seq<u8>> {
    cmd->Array_0.map_values(|v: Resp| v->Bulk_0)
}

/// The bytes of each word.
pub open spec fn word_views(words: Seq<&[u8]>) -> Seq<Seq<u8>> {
    words.map_values(|w: &[u8]| w@)
}

/// The role, replication id and offset, as INFO lists them.
pub open spec fn info_text(server: Server) -> Seq<u8> {
    match server.mode {
        Mode::Master => bytes_of("role:master\r\nmaster_replid:") + replid_bytes(
            server.master_replid,
        ) + bytes_of("\r\nmaster_repl_offset:") + nat_digits(server.master_repl_offset as nat),
        Mode::Slave => bytes_of("role:slave"),
    }
}

/// The bytes of a replication id; none when there is no id.
pub open spec fn replid_bytes(id: Option<String>) -> Seq<u8> {
    match id {
        Some(s) => encode_utf8(s@),
        None => Seq::empty(),
    }
}

/// The reply to GET with the words `ws`.
pub open spec fn get_reply(ws: Seq<Seq<u8>>, store: StoreModel, now: u64) -> Resp {
    if ws.len() != 2 {
        failure_reply(Failure::WrongArity)
    } else {
        match text_of(ws[1]) {
            None => failure_reply(Failure::NotText),
            Some(k) => if is_live(store, k, now) {
                Resp::Bulk(encode_utf8(store[k].0))
            } else {
                Resp::NullBulk
            },
        }
    }
}

/// The store after SET with the words `ws`, and the reply.
pub open spec fn set_outcome(ws: Seq<Seq<u8>>, store: StoreModel, now: u64) -> (StoreModel, Resp) {
    if ws.len() != 3 && ws.len() != 5 {
        (store, failure_reply(Failure::WrongArity))
    } else if text_of(ws[1]) is None || text_of(ws[2]) is None {
        (store, failure_reply(Failure::NotText))
    } else if ws.len() == 3 {
        (store.insert(text_of(ws[1])->0, (text_of(ws[2])->0, None)), ok_reply())
    } else if !names(ws[3], bytes_of("px")) {
        (store, failure_reply(Failure::Syntax))
    } else {
        match u64_value(ws[4]) {
            None => (store, failure_reply(Failure::NotInteger)),
            Some(ms) => (
                store.insert(text_of(ws[1])->0, (text_of(ws[2])->0, expiry(Some(ms), now))),
                ok_reply(),
            ),
        }
    }
}

/// The store after the command with the words `ws`, and the reply; the first word
/// names the command.
pub open spec fn command_outcome(ws: Seq<Seq<u8>>, store: StoreModel, server: Server, now: u64) -> (
    StoreModel,
    Resp,
) {
    let name = ws[0];
    if names(name, bytes_of("ping")) {
        (
            store,
            if ws.len() == 1 {
                Resp::Simple(bytes_of("PONG"))
            } else {
                failure_reply(Failure::WrongArity)
            },
        )
    } else if names(name, bytes_of("echo")) {
        (
            store,
            if ws.len() == 2 {
                Resp::Bulk(ws[1])
            } else {
                failure_reply(Failure::WrongArity)
            },
        )
    } else if names(name, bytes_of("get")) {
        (store, get_reply(ws, store, now))
    } else if names(name, bytes_of("set")) {
        set_outcome(ws, store, now)
    } else if names(name, bytes_of("info")) {
        (store, Resp::Bulk(info_text(server)))
    } else if names(name, bytes_of("replconf")) {
        (store, ok_reply())
    } else {
        (store, failure_reply(Failure::UnknownCommand))
    }
}

/// The store after the request `cmd` at `now`, and the reply.
pub open spec fn outcome_of(cmd: Resp, store: StoreModel, server: Server, now: u64) -> (
    StoreModel,
    Resp,
) {
    if is_request(cmd) {
        command_outcome(request_words(cmd), store, server, now)
    } else {
        (store, failure_reply(Failure::Protocol))
    }
}

/// The bytes of each item, when every item is a bulk string and there is one or more.
fn words_of<'a>(items: &'a Vec<RedisValueRef>) -> (r: Option<Vec<&'a [u8]>>)
    ensures
        r is Some <==> is_request(Resp::Array(values_of(items@))),
        r matches Some(words) ==> word_views(words@) == request_words(
            Resp::Array(values_of(items@)),
        ) && words@.len() == items@.len() && words@.len() >= 1,
{
    proof {
        lemma_values_of(items@);
    }
    let ghost vs = values_of(items@);
    if items.len() == 0 {
        return None;
    }
    let mut words: Vec<&'a [u8]> = Vec::new();
    let mut i: usize = 0;
    while i < items.len()
        invariant
            i <= items@.len(),
            vs == values_of(items@),
            vs.len() == items@.len(),
            forall|k: int| 0 <= k < items@.len() ==> #[trigger] vs[k] == items@[k]@,
            words@.len() == i,
            forall|k: int| 0 <= k < i ==> (#[trigger] vs[k]) is Bulk && vs[k]->Bulk_0 == words@[k]@,
        decreases items.len() - i,
    {
        match &items[i] {
            RedisValueRef::BulkString(b) => {
                words.push(b.as_slice());
            },
            _ => {
                assert(!(vs[i as int] is Bulk));
                return None;
            },
        }
        i = i + 1;
    }
    assert(word_views(words@) =~= request_words(Resp::Array(vs)));
    Some(words)
}

/// The reply to PING.
fn handle_ping(words: &Vec<&[u8]>) -> (r: RedisValueRef)
    ensures
        r@ == (if words@.len() == 1 {
            Resp::Simple(bytes_of("PONG"))
        } else {
            failure_reply(Failure::WrongArity)
        }),
{
    if words.len() == 1 {
        RedisValueRef::SimpleString(text_bytes("PONG"))
    } else {
        failure(Failure::WrongArity)
    }
}

/// The reply to ECHO.
fn handle_echo(words: &Vec<&[u8]>) -> (r: RedisValueRef)
    ensures
        r@ == (if words@.len() == 2 {
            Resp::Bulk(words@[1]@)
        } else {
            failure_reply(Failure::WrongArity)
        }),
{
    if words.len() == 2 {
        RedisValueRef::BulkString(vstd::slice::slice_to_vec(words[1]))
    } else {
        failure(Failure::WrongArity)
    }
}

/// The reply to GET, at `now`.
fn handle_get(words: &Vec<&[u8]>, store: &Database, now: u64) -> (r: RedisValueRef)
    ensures
        r@ == get_reply(word_views(words@), store@, now),
{
    if words.len() != 2 {
        return failure(Failure::WrongArity);
    }
    match utf8_text(words[1]) {
        None => failure(Failure::NotText),
        Some(key) => match store.get_at(key.as_str(), now) {
            Some(entry) => RedisValueRef::BulkString(
                vstd::slice::slice_to_vec(entry.value.as_str().as_bytes()),
            ),
            None => RedisValueRef::NullBulkString,
        },
    }
}

/// SET, at `now`: stores the value unless the command is malformed.
fn handle_set(words: &Vec<&[u8]>, store: &mut Database, now: u64) -> (r: RedisValueRef)
    ensures
        (final(store)@, r@) == set_outcome(word_views(words@), old(store)@, now),
        final(store).mode == old(store).mode,
        final(store).replicaof == old(store).replicaof,
        old(store).wf() ==> final(store).wf(),
{
    let ghost ws = word_views(words@);
    if words.len() != 3 && words.len() != 5 {
        return failure(Failure::WrongArity);
    }
    let key = utf8_text(words[1]);
    let value = utf8_text(words[2]);
    match (key, value) {
        (Some(key), Some(value)) => {
            if words.len() == 3 {
                let _previous = store.set_at(key.as_str(), value.as_str(), None, now);
                ok()
            } else if !names_command(words[3], "px") {
                failure(Failure::Syntax)
            } else {
                match parse_u64(words[4]) {
                    None => failure(Failure::NotInteger),
                    Some(ms) => {
                        let _previous = store.set_at(key.as_str(), value.as_str(), Some(ms), now);
                        ok()
                    },
                }
            }
        },
        _ => failure(Failure::NotText),
    }
}

/// The reply to INFO.
fn handle_info(server: &Server) -> (r: RedisValueRef)
    ensures
        r@ == Resp::Bulk(info_text(*server)),
{
    match server.mode {
        Mode::Master => {
            let mut out = text_bytes("role:master\r\nmaster_replid:");
            match &server.master_replid {
                Some(id) => push_bytes(&mut out, id.as_str().as_bytes()),
                None => {},
            }
            let middle = text_bytes("\r\nmaster_repl_offset:");
            push_bytes(&mut out, middle.as_slice());
            push_nat(&mut out, server.master_repl_offset as u64);
            RedisValueRef::BulkString(out)
        },
        Mode::Slave => RedisValueRef::BulkString(text_bytes("role:slave")),
    }
}

/// Runs one request against the store at `now` and gives the reply. Commands are
/// named case-insensitively: PING, ECHO, GET, SET (with an optional PX), INFO and
/// REPLCONF; anything else is answered with an error and changes nothing.
pub fn execute(command: &RedisValueRef, store: &mut Database, server: &Server, now: u64) -> (r:
    RedisValueRef)
    ensures
        (final(store)@, r@) == outcome_of(command@, old(store)@, *server, now),
        final(store).mode == old(store).mode,
        final(store).replicaof == old(store).replicaof,
        old(store).wf() ==> final(store).wf(),
{
    let words = match command {
        RedisValueRef::Array(items) => match words_of(items) {
            Some(words) => words,
            None => {
                return failure(Failure::Protocol);
            },
        },
        _ => {
            return failure(Failure::Protocol);
        },
    };
    let ghost ws = word_views(words@);
    assert(ws[0] == words@[0]@);
    let name = words[0];
    if names_command(name, "ping") {
        handle_ping(&words)
    } else if names_command(name, "echo") {
        proof {
            if words@.len() == 2 {
                assert(ws[1] == words@[1]@);
            }
        }
        handle_echo(&words)
    } else if names_command(name, "get") {
        handle_get(&words, store, now)
    } else if names_command(name, "set") {
        handle_set(&words, store, now)
    } else if names_command(name, "info") {
        handle_info(server)
    } else if names_command(name, "replconf") {
        ok()
    } else {
        failure(Failure::UnknownCommand)
    }
}

/// Runs one request against the store, by the store's clock, and gives the reply.
/// Whatever the clock reads, the reply and the new store are those of `execute` at
/// some moment.
pub fn process_command(command: &RedisValueRef, store: &mut Database, server: &Server) -> (r:
    RedisValueRef)
    ensures
        exists|now: u64| (final(store)@, r@) == outcome_of(command@, old(store)@, *server, now),
        final(store).mode == old(store).mode,
        final(store).replicaof == old(store).replicaof,
        old(store).wf() ==> final(store).wf(),
{
    let now = store.now();
    execute(command, store, server, now)
}

/// `name` is one of the commands that this server knows.
pub open spec fn is_known_command(name: Seq<u8>) -> bool {
    ||| names(name, bytes_of("ping"))
    ||| names(name, bytes_of("echo"))
    ||| names(name, bytes_of("get"))
    ||| names(name, bytes_of("set"))
    ||| names(name, bytes_of("info"))
    ||| names(name, bytes_of("replconf"))
}

/// A request that names no known command, or that is no request at all, leaves the
/// store as it was and is answered with an error reply, so the connection goes on.
pub proof fn lemma_unknown_command(cmd: Resp, store: StoreModel, server: Server, now: u64)
    requires
        !is_request(cmd) || !is_known_command(request_words(cmd)[0]),
    ensures
        outcome_of(cmd, store, server, now).0 == store,
        outcome_of(cmd, store, server, now).1 is Error,
{
}

/// A master's INFO reply right after startup: `role:master`, the replication id of
/// forty ASCII letters and digits, and an offset of 0.
pub proof fn lemma_info_fresh_master(server: Server)
    requires
        server.mode == Mode::Master,
        server.master_replid matches Some(id) && is_replid(id@),
        server.master_repl_offset == 0,
    ensures
        info_text(server) == bytes_of("role:master") + bytes_of("\r\nmaster_replid:") + replid_bytes(
            server.master_replid,
        ) + bytes_of("\r\nmaster_repl_offset:") + seq![48u8],
        replid_bytes(server.master_replid).len() == REPLID_LEN,
        forall|i: int|
            0 <= i < REPLID_LEN ==> is_alphanumeric(
                (#[trigger] replid_bytes(server.master_replid)[i]) as char,
            ),
{
    let id = server.master_replid->0;
    assert(is_ascii_chars(id@));
    is_ascii_chars_encode_utf8(id@);
    reveal_strlit("role:master\r\nmaster_replid:");
    reveal_strlit("role:master");
    reveal_strlit("\r\nmaster_replid:");
    is_ascii_chars_encode_utf8("role:master\r\nmaster_replid:"@);
    is_ascii_chars_encode_utf8("role:master"@);
    is_ascii_chars_encode_utf8("\r\nmaster_replid:"@);
    assert(bytes_of("role:master\r\nmaster_replid:") =~= bytes_of("role:master") + bytes_of(
        "\r\nmaster_replid:",
    ));
    assert(nat_digits(0) == seq![48u8]);
    assert forall|i: int| 0 <= i < REPLID_LEN implies is_alphanumeric(
        (#[trigger] replid_bytes(server.master_replid)[i]) as char,
    ) by {
        assert(is_alphanumeric(id@[i]));
        assert(replid_bytes(server.master_replid)[i] == id@[i] as u8);
    }
}

proof fn lemma_command_words()
    ensures
        bytes_of("ping") == seq![112u8, 105u8, 110u8, 103u8],
        bytes_of("echo") == seq![101u8, 99u8, 104u8, 111u8],
        bytes_of("get") == seq![103u8, 101u8, 116u8],
        bytes_of("set") == seq![115u8, 101u8, 116u8],
{
    reveal_strlit("ping");
    reveal_strlit("echo");
    reveal_strlit("get");
    reveal_strlit("set");
    is_ascii_chars_encode_utf8("ping"@);
    is_ascii_chars_encode_utf8("echo"@);
    is_ascii_chars_encode_utf8("get"@);
    is_ascii_chars_encode_utf8("set"@);
    assert(bytes_of("ping") =~= seq![112u8, 105u8, 110u8, 103u8]);
    assert(bytes_of("echo") =~= seq![101u8, 99u8, 104u8, 111u8]);
    assert(bytes_of("get") =~= seq![103u8, 101u8, 116u8]);
    assert(bytes_of("set") =~= seq![115u8, 101u8, 116u8]);
}

/// SET of a text key and a text value, with the command named in any case, answers
/// OK; a GET of that key afterwards answers with the value; and a GET of a key that
/// the store does not hold answers with the null bulk string.
pub proof fn lemma_set_then_get(
    set: Seq<u8>,
    get: Seq<u8>,
    key: Seq<u8>,
    value: Seq<u8>,
    store: StoreModel,
    server: Server,
    t0: u64,
    t1: u64,
)
    requires
        names(set, bytes_of("set")),
        names(get, bytes_of("get")),
        valid_utf8(key),
        valid_utf8(value),
    ensures
        command_outcome(seq![set, key, value], store, server, t0).1 == ok_reply(),
        command_outcome(
            seq![get, key],
            command_outcome(seq![set, key, value], store, server, t0).0,
            server,
            t1,
        ).1 == Resp::Bulk(value),
        !store.contains_key(decode_utf8(key)) ==> command_outcome(seq![get, key], store, server, t1).1
            == Resp::NullBulk,
{
    lemma_command_words();
    assert(ascii_lower(set[0]) == 115u8);
    assert(ascii_lower(get[0]) == 103u8);
    decode_utf8_encode_utf8(value);
}

} // verus!
