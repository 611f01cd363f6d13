//! What a server knows of itself.
use vstd::prelude::*;

verus! {

/// Why the server could not go on.
#[derive(Debug)]
pub enum NetworkingError {
    NotValidAddr(String),
    InvalidSlave,
    MasterDisconnected,
    HandshakeUnfinished,
}

impl NetworkingError {
    pub open spec fn text(self) -> Seq<char> {
        match self {
            NetworkingError::NotValidAddr(addr) => addr@ + " - should be valid IPv4 or IPv6"@,
            NetworkingError::InvalidSlave => "slave has invalid state"@,
            NetworkingError::MasterDisconnected => "master disconnected"@,
            NetworkingError::HandshakeUnfinished => "Handshake unfinished"@,
        }
    }

    pub fn message(&self) -> (r: String)
        ensures
            r@ == self.text(),
    {
        match self {
            NetworkingError::NotValidAddr(addr) => addr.as_str().to_owned().concat(
                " - should be valid IPv4 or IPv6",
            ),
            NetworkingError::InvalidSlave => "slave has invalid state".to_owned(),
            NetworkingError::MasterDisconnected => "master disconnected".to_owned(),
            NetworkingError::HandshakeUnfinished => "Handshake unfinished".to_owned(),
        }
    }
}

/// Whether a server takes writes itself or repeats those of another.
#[derive(Debug, PartialEq, Eq, Structural, Copy, Clone)]
pub enum ServerRole {
    Master,
    Slave,
}

impl ServerRole {
    pub open spec fn text(self) -> Seq<char> {
        match self {
            ServerRole::Master => "master"@,
            ServerRole::Slave => "slave"@,
        }
    }

    pub fn as_str(&self) -> (r: &'static str)
        ensures
            r@ == self.text(),
    {
        match self {
            ServerRole::Master => "master",
            ServerRole::Slave => "slave",
        }
    }
}

/// The server's identity and its place in replication.
pub struct ServerInfo {
    role: ServerRole,
    connected_slaves: u32,
    master_replid: String,
    master_repl_offset: i64,
    get_ack_from_slaves: bool,
    replica_of: Option<String>,
    dir: String,
    dbfilename: String,
}

/// A [`ServerInfo`] with its strings as character sequences.
#[verifier::ext_equal]
pub struct InfoView {
    pub role: ServerRole,
    pub connected_slaves: u32,
    pub master_replid: Seq<char>,
    pub master_repl_offset: i64,
    pub get_ack_from_slaves: bool,
    pub replica_of: Option<Seq<char>>,
    pub dir: Seq<char>,
    pub dbfilename: Seq<char>,
}

impl View for ServerInfo {
    type V = InfoView;

    closed spec fn view(&self) -> InfoView {
        InfoView {
            role: self.role,
            connected_slaves: self.connected_slaves,
            master_replid: self.master_replid@,
            master_repl_offset: self.master_repl_offset,
            get_ack_from_slaves: self.get_ack_from_slaves,
            replica_of: match self.replica_of {
                Some(addr) => Some(addr@),
                None => None,
            },
            dir: self.dir@,
            dbfilename: self.dbfilename@,
        }
    }
}

/// The replication offset after `count` more bytes.
pub open spec fn advanced(offset: i64, count: usize) -> i64 {
    offset.wrapping_add(count as i64)
}

impl ServerInfo {
    pub fn new(
        role: ServerRole,
        connected_slaves: u32,
        master_replid: String,
        master_repl_offset: i64,
        get_ack_from_slaves: bool,
        replica_of: Option<String>,
        dir: String,
        dbfilename: String,
    ) -> (r: Self)
        ensures
            r@ == (InfoView {
                role,
                connected_slaves,
                master_replid: master_replid@,
                master_repl_offset,
                get_ack_from_slaves,
                replica_of: match replica_of {
                    Some(addr) => Some(addr@),
                    None => None,
                },
                dir: dir@,
                dbfilename: dbfilename@,
            }),
    {
        Self {
            role,
            connected_slaves,
            master_replid,
            master_repl_offset,
            get_ack_from_slaves,
            replica_of,
            dir,
            dbfilename,
        }
    }

    /// Asks the replicas for their offsets at the next opportunity.
    pub fn repl_request_ack_from_slaves(&mut self)
        ensures
            final(self)@ == (InfoView { get_ack_from_slaves: true, ..old(self)@ }),
    {
        self.get_ack_from_slaves = true;
    }

    /// The replicas have been asked, or there are none.
    pub fn ack_request_done(&mut self)
        ensures
            final(self)@ == (InfoView { get_ack_from_slaves: false, ..old(self)@ }),
    {
        self.get_ack_from_slaves = false;
    }

    pub fn wants_acks(&self) -> (r: bool)
        ensures
            r == self@.get_ack_from_slaves,
    {
        self.get_ack_from_slaves
    }

    pub fn role(&self) -> (r: ServerRole)
        ensures
            r == self@.role,
    {
        self.role
    }

    pub fn connected_slaves(&self) -> (r: u32)
        ensures
            r == self@.connected_slaves,
    {
        self.connected_slaves
    }

    pub fn set_connected_slaves(&mut self, count: u32)
        ensures
            final(self)@ == (InfoView { connected_slaves: count, ..old(self)@ }),
    {
        self.connected_slaves = count;
    }

    pub fn master_replid(&self) -> (r: String)
        ensures
            r@ == self@.master_replid,
    {
        self.master_replid.as_str().to_owned()
    }

    pub fn master_repl_offset(&self) -> (r: i64)
        ensures
            r == self@.master_repl_offset,
    {
        self.master_repl_offset
    }

    /// Counts bytes of the replication stream.
    pub fn incr_repl_offset(&mut self, consumed: usize)
        ensures
            final(self)@ == (InfoView {
                master_repl_offset: advanced(old(self)@.master_repl_offset, consumed),
                ..old(self)@
            }),
    {
        self.master_repl_offset = self.master_repl_offset.wrapping_add(consumed as i64);
    }

    /// The address of the master, if this server is a replica.
    pub fn replica_of(&self) -> (r: Option<&str>)
        ensures
            match r {
                Some(addr) => self@.replica_of == Some(addr@),
                None => self@.replica_of is None,
            },
    {
        match &self.replica_of {
            Some(addr) => Some(addr.as_str()),
            None => None,
        }
    }

    pub fn dir(&self) -> (r: &str)
        ensures
            r@ == self@.dir,
    {
        self.dir.as_str()
    }

    pub fn dbfilename(&self) -> (r: &str)
        ensures
            r@ == self@.dbfilename,
    {
        self.dbfilename.as_str()
    }
}

/// How the server keeps house.
#[derive(Debug, Clone, Copy)]
pub struct ServerConfig {
    pub hz: u32,
    pub active_expire_enabled: bool,
    pub active_expire_percent: u32,
    pub active_expire_keys_per_round: usize,
    pub client_timeout_s: u32,
    pub client_timeout_check_hz: u32,
}

impl ServerConfig {
    pub open spec fn spec_init() -> Self {
        Self {
            hz: 10,
            active_expire_enabled: true,
            active_expire_percent: 25,
            active_expire_keys_per_round: 20,
            client_timeout_s: 300,
            client_timeout_check_hz: 10,
        }
    }

    pub fn init() -> (r: Self)
        ensures
            r == Self::spec_init(),
    {
        Self {
            hz: 10,
            active_expire_enabled: true,
            active_expire_percent: 25,
            active_expire_keys_per_round: 20,
            client_timeout_s: 300,
            client_timeout_check_hz: 10,
        }
    }
}

} // verus!
