//! The configuration that the server runs with.

use crate::bytes::{bytes_of, text, COLON, DIGIT_0, DIGIT_9, LOWER_A, LOWER_F, SPACE};
use vstd::prelude::*;
use vstd::string::{is_ascii, is_ascii_spec_bytes};

verus! {

/// The role of the server in replication: `Master` is the primary, which
/// takes writes from clients; `Slave` is a secondary, which mirrors one.
#[derive(Debug, Clone, Copy, PartialEq, Eq, Structural)]
pub enum Role {
    Slave,
    Master,
}

/// Why a set of options is no configuration.
#[derive(Debug, Clone, Copy, PartialEq, Eq, Structural)]
pub enum ConfigError {
    /// Only one of the snapshot's directory and file name is given.
    SnapshotOptionUnpaired,
    /// A secondary without an upstream, or a primary with one.
    UpstreamMismatch,
}

/// The port on which the server listens where none is given.
pub const DEFAULT_PORT: u32 = 6379;

/// The byte is a hexadecimal digit, small letters only.
pub open spec fn is_lower_hex(b: u8) -> bool {
    (DIGIT_0 <= b <= DIGIT_9) || (LOWER_A <= b <= LOWER_F)
}

/// A replication id: 40 hexadecimal digits.
pub open spec fn is_repl_id(id: Seq<u8>) -> bool {
    id.len() == 40 && forall|i: int| 0 <= i < 40 ==> is_lower_hex(#[trigger] id[i])
}

/// The replication id of this server, as text.
pub const REPL_ID: &'static str = "8371b4fb1155b71f4a04d3e1bc3e18c4a990aeeb";

/// The replication id of this server.
pub open spec fn repl_id() -> Seq<u8> {
    text(REPL_ID)
}

/// The replication id of this server is one.
pub proof fn lemma_repl_id()
    ensures
        is_repl_id(repl_id()),
{
    let s = REPL_ID;
    reveal_strlit("8371b4fb1155b71f4a04d3e1bc3e18c4a990aeeb");
    assert(s@.len() == 40);
    assert(is_ascii(s));
    is_ascii_spec_bytes(s);
    let id = repl_id();
    assert(id.len() == 40);
    assert forall|i: int| 0 <= i < 40 implies is_lower_hex(#[trigger] id[i]) by {
        assert(id[i] == s@[i] as u8);
    }
}

/// What the server is started with. It does not change while the server runs.
#[derive(Debug, Clone, PartialEq, Eq)]
pub struct Config {
    /// The directory of the snapshot file.
    pub dir: Option<Vec<u8>>,
    /// The name of the snapshot file.
    pub dbfilename: Option<Vec<u8>>,
    pub role: Role,
    /// The port on which the server listens.
    pub port: u32,
    /// The replication id.
    pub repl_id: Vec<u8>,
    /// The primary that a secondary mirrors: its host, a space, its port.
    pub replicaof: Option<Vec<u8>>,
}

/// What is wrong with these options, if anything: the snapshot's directory
/// and file name must come together, and an upstream exactly with the role of
/// a secondary.
pub open spec fn options_error(
    dir: Option<Vec<u8>>,
    dbfilename: Option<Vec<u8>>,
    role: Role,
    replicaof: Option<Vec<u8>>,
) -> Option<ConfigError> {
    if (dir is Some) != (dbfilename is Some) {
        Some(ConfigError::SnapshotOptionUnpaired)
    } else if (replicaof is Some) != (role == Role::Slave) {
        Some(ConfigError::UpstreamMismatch)
    } else {
        None
    }
}

/// The role that the options ask for: a secondary where an upstream is named.
pub open spec fn role_for(replicaof: Option<Vec<u8>>) -> Role {
    if replicaof is Some {
        Role::Slave
    } else {
        Role::Master
    }
}

impl Config {
    /// The configuration is consistent: the snapshot's directory and file name
    /// are both given or both absent, an upstream is given exactly to a
    /// secondary, and the replication id is one.
    pub open spec fn wf(&self) -> bool {
        &&& self.dir is Some <==> self.dbfilename is Some
        &&& self.replicaof is Some <==> self.role == Role::Slave
        &&& is_repl_id(self.repl_id@)
    }

    /// The configuration of these options, with this server's replication id,
    /// or the reason why they are inconsistent.
    pub fn new(
        dir: Option<Vec<u8>>,
        dbfilename: Option<Vec<u8>>,
        role: Role,
        port: u32,
        replicaof: Option<Vec<u8>>,
    ) -> (r: Result<Config, ConfigError>)
        ensures
            match options_error(dir, dbfilename, role, replicaof) {
                Some(e) => r == Err::<Config, ConfigError>(e),
                None => (r matches Ok(c) && c.wf() && c.dir == dir && c.dbfilename == dbfilename
                    && c.role == role && c.port == port && c.replicaof == replicaof && c.repl_id@
                    == repl_id()),
            },
    {
        if dir.is_some() != dbfilename.is_some() {
            return Err(ConfigError::SnapshotOptionUnpaired);
        }
        let secondary = match role {
            Role::Slave => true,
            Role::Master => false,
        };
        if replicaof.is_some() != secondary {
            return Err(ConfigError::UpstreamMismatch);
        }
        proof {
            lemma_repl_id();
        }
        Ok(
            Config {
                dir,
                dbfilename,
                role,
                port,
                repl_id: bytes_of(REPL_ID),
                replicaof,
            },
        )
    }

    /// The configuration that the command line's options ask for: a secondary
    /// where an upstream is named and a primary where none is, on the default
    /// port where none is given.
    pub fn from_options(
        dir: Option<Vec<u8>>,
        dbfilename: Option<Vec<u8>>,
        port: Option<u32>,
        replicaof: Option<Vec<u8>>,
    ) -> (r: Result<Config, ConfigError>)
        ensures
            r matches Ok(c) ==> c.port == port.unwrap_or(DEFAULT_PORT),
            match options_error(dir, dbfilename, role_for(replicaof), replicaof) {
                Some(e) => r == Err::<Config, ConfigError>(e),
                None => (r matches Ok(c) && c.wf() && c.dir == dir && c.dbfilename == dbfilename
                    && c.role == role_for(replicaof) && c.replicaof == replicaof && c.repl_id@
                    == repl_id()),
            },
    {
        let role = if replicaof.is_some() {
            Role::Slave
        } else {
            Role::Master
        };
        let port = match port {
            Some(p) => p,
            None => DEFAULT_PORT,
        };
        Config::new(dir, dbfilename, role, port, replicaof)
    }
}

/// The address of the upstream as a host, a colon and a port: `replicaof`
/// with a colon for each space.
pub open spec fn endpoint_of(replicaof: Seq<u8>) -> Seq<u8> {
    Seq::new(
        replicaof.len(),
        |i: int|
            if replicaof[i] == SPACE {
                COLON
            } else {
                replicaof[i]
            },
    )
}

/// The address to which a secondary connects.
pub fn upstream_endpoint(replicaof: &[u8]) -> (r: Vec<u8>)
    ensures
        r@ == endpoint_of(replicaof@),
{
    let mut out: Vec<u8> = Vec::new();
    let mut i: usize = 0;
    while i < replicaof.len()
        invariant
            0 <= i <= replicaof.len(),
            out@.len() == i,
            forall|j: int| 0 <= j < i ==> out@[j] == endpoint_of(replicaof@)[j],
        decreases replicaof.len() - i,
    {
        let b: u8 = replicaof[i];
        if b == SPACE {
            out.push(COLON);
        } else {
            out.push(b);
        }
        i = i + 1;
    }
    assert(out@ =~= endpoint_of(replicaof@));
    out
}

} // verus!
