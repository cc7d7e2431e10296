//! An in-memory key-value server's core: the wire codec, the store with per-key
//! expiry, the command dispatcher, and the replica's handshake with a master.

pub mod config;
pub mod db;
pub mod framing;
pub mod handlers;
pub mod number;
pub mod parser;
pub mod replica;
pub mod resp;

pub use config::{Mode, Server, REPLID_LEN};
pub use db::{Database, SetObject};
pub use handlers::{execute, failure, names_command, process_command, Failure};
pub use number::{parse_i64, parse_u64, push_int, push_nat};
pub use parser::{BufSplit, RESPError, RedisBufSplit, RedisParser, RedisResult};
pub use replica::{handshake_step, HandshakeEvent, HandshakeState};
pub use resp::{encode, encode_into, RedisValueRef};
