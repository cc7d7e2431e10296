use vstd::prelude::*;
use rand::distributions::Alphanumeric;
use rand::Rng;

verus! {

/// The role of this node.
#[derive(Clone, Copy, Debug, PartialEq, Eq, Structural)]
pub enum Mode {
    Master,
    Slave,
}

/// The name of a role as it stands in replies.
pub open spec fn mode_name(m: Mode) -> Seq<char> {
    match m {
        Mode::Master => "master"@,
        Mode::Slave => "slave"@,
    }
}

impl Mode {
    /// The name of the role.
    pub fn to_string(&self) -> (r: String)
        ensures
            r@ == mode_name(*self),
    {
        match self {
            Mode::Master => "master".to_owned(),
            Mode::Slave => "slave".to_owned(),
        }
    }
}

impl Default for Mode {
    fn default() -> (r: Self)
        ensures
            r == Mode::Master,
    {
        Mode::Master
    }
}

/// An ASCII letter or digit.
pub open spec fn is_alphanumeric(c: char) -> bool {
    ('0' <= c <= '9') || ('A' <= c <= 'Z') || ('a' <= c <= 'z')
}

/// Relies on rand's `Alphanumeric` distribution, sampled from `thread_rng`: each
/// sample is an ASCII letter or digit, and `take` keeps `len` of them.
#[verifier::external_body]
fn random_alphanumeric(len: usize) -> (r: String)
    ensures
        r@.len() == len,
        forall|i: int| 0 <= i < len ==> is_alphanumeric(#[trigger] r@[i]),
{
    rand::thread_rng().sample_iter(&Alphanumeric).take(len).map(char::from).collect()
}

/// The length of a replication id.
pub const REPLID_LEN: usize = 40;

/// What this node is and where it stands in replication.
#[derive(Clone, Debug)]
pub struct Server {
    pub host: String,
    pub port: String,
    pub mode: Mode,
    pub master_replid: Option<String>,
    pub master_repl_offset: usize,
    pub replicaof: Option<Vec<String>>,
}

/// `id` can serve as a replication id: forty ASCII letters and digits.
pub open spec fn is_replid(id: Seq<char>) -> bool {
    &&& id.len() == REPLID_LEN
    &&& forall|i: int| 0 <= i < id.len() ==> is_alphanumeric(#[trigger] id[i])
}

impl Server {
    /// A node with the given settings and a fresh random replication id.
    pub fn new(
        host: String,
        port: String,
        mode: Mode,
        master_repl_offset: usize,
        replicaof: Option<Vec<String>>,
    ) -> (r: Server)
        ensures
            r.host == host,
            r.port == port,
            r.mode == mode,
            r.master_repl_offset == master_repl_offset,
            r.replicaof == replicaof,
            r.master_replid matches Some(id) && is_replid(id@),
    {
        let master_replid = random_alphanumeric(REPLID_LEN);
        Server {
            host,
            port,
            mode,
            master_repl_offset,
            replicaof,
            master_replid: Some(master_replid),
        }
    }
}

impl Default for Server {
    /// A master on no address yet, with no replication id and offset 0.
    fn default() -> (r: Self)
        ensures
            r.host@ == Seq::<char>::empty(),
            r.port@ == Seq::<char>::empty(),
            r.mode == Mode::Master,
            r.master_replid is None,
            r.master_repl_offset == 0,
            r.replicaof is None,
    {
        Server {
            host: String::new(),
            port: String::new(),
            mode: Mode::Master,
            master_replid: None,
            master_repl_offset: 0,
            replicaof: None,
        }
    }
}

} // verus!
