//! The server's decisions: what it does with its connections, and between them.
use vstd::prelude::*;
use vstd::utf8::*;
use crate::cli;
use crate::cli::{Cli, CliError, CliErrorView};
use crate::client;
use crate::client::{
    Client, ClientId, Disposition, Flush, FlushStep, PeerRole, ReadEvent, ReadStep, WriteEvent,
};
use crate::client::model::ClientView;
use crate::db;
use crate::db::Db;
use crate::db::model::DbView;
use crate::db::table;
use crate::db::table::Table;
use crate::networking::info::{InfoView, ServerConfig, ServerInfo, ServerRole};
use crate::networking::model;
use crate::networking::model::ServerView;
use crate::resp;
use crate::resp::{RespBody, RespView};
use crate::text;
use crate::time;
use crate::time::Duration;

verus! {

/// A server, without its sockets.
pub struct Server {
    clients: Table<ClientId, Client>,
    slaves: Vec<ClientId>,
    master_link: Option<Client>,
    db: Db,
    info: ServerInfo,
    config: ServerConfig,
    next_client_id: usize,
    cronloops: u64,
}

pub open spec fn clients_view(clients: Map<ClientId, Client>) -> Map<ClientId, ClientView> {
    clients.map_values(|client: Client| client@)
}

impl View for Server {
    type V = ServerView;

    closed spec fn view(&self) -> ServerView {
        ServerView {
            clients: clients_view(self.clients@),
            slaves: self.slaves@,
            master: match self.master_link {
                Some(client) => Some(client@),
                None => None,
            },
            db: self.db@,
            info: self.info@,
            last_id: self.next_client_id,
            cronloops: self.cronloops,
        }
    }
}

/// The identity under which a master knows the history of its writes.
pub open spec fn replication_id() -> Seq<char> {
    "8371b4fb1155b71f4a04d3e1bc3e18c4a990aeeb"@
}

/// What a server knows of itself when it starts.
pub open spec fn first_info(cli: Cli, master: Option<(Seq<char>, u16)>) -> InfoView {
    InfoView {
        role: if master is Some {
            ServerRole::Slave
        } else {
            ServerRole::Master
        },
        connected_slaves: 0,
        master_replid: replication_id(),
        master_repl_offset: 0,
        get_ack_from_slaves: false,
        replica_of: match master {
            Some((host, port)) => Some(
                host + ":"@ + text::ascii_chars(text::decimal(port as nat)),
            ),
            None => None,
        },
        dir: cli.spec_dir(),
        dbfilename: cli.spec_dbfilename(),
    }
}

impl Server {
    /// Each connection is known by its own id, which is none that is still to be
    /// given, each replica is counted once, and the count that INFO shows is right.
    /// The server keeps house as it was set up to.
    pub closed spec fn wf(self) -> bool {
        &&& self.clients.wf()
        &&& self.db.wf()
        &&& self.config == ServerConfig::spec_init()
        &&& self.slaves@.no_duplicates()
        &&& self.info@.connected_slaves == self.slaves@.len() as u32
        &&& self.master_link matches Some(client) ==> client.wf()
        &&& forall|id: ClientId| #[trigger]
            self.clients@.contains_key(id) ==> self.clients@[id].wf() && self.clients@[id]@.id
                == id && 1 < id.spec_get() <= self.next_client_id
        &&& forall|id: ClientId| #[trigger]
            self.slaves@.contains(id) ==> 1 < id.spec_get() <= self.next_client_id
        &&& 1 <= self.next_client_id
    }

    /// A server that has no connections yet.
    pub fn new(cli: &Cli, now: Duration) -> (r: Result<Self, CliError>)
        ensures
            match r {
                Ok(server) => {
                    &&& server.wf()
                    &&& cli::master_of(cli.spec_replicaof()) matches Ok(master) && server@ == (
                    ServerView {
                        clients: Map::empty(),
                        slaves: Seq::empty(),
                        master: None,
                        db: DbView::fresh(now),
                        info: first_info(*cli, master),
                        last_id: 1,
                        cronloops: 0,
                    })
                },
                Err(e) => cli::master_of(cli.spec_replicaof()) == Err::<
                    Option<(Seq<char>, u16)>,
                    CliErrorView,
                >(e@),
            },
    {
        let mut role = ServerRole::Master;
        let mut replica_of: Option<String> = None;
        if let Some((host, port)) = cli.parse_replicaof()? {
            role = ServerRole::Slave;
            let port: String = text::decimal_string(port as u64);
            replica_of = Some(host.concat(":").concat(port.as_str()));
        }
        let info = ServerInfo::new(
            role,
            0,
            "8371b4fb1155b71f4a04d3e1bc3e18c4a990aeeb".to_owned(),
            0,
            false,
            replica_of,
            cli.dir().to_owned(),
            cli.dbfilename().to_owned(),
        );
        let server = Self {
            clients: Table::new(),
            slaves: Vec::new(),
            master_link: None,
            db: Db::create(now),
            info,
            config: ServerConfig::init(),
            next_client_id: 1,
            cronloops: 0,
        };
        assert(server@.clients =~= Map::empty());
        assert(server@.slaves =~= Seq::empty());
        Ok(server)
    }

    pub fn info(&self) -> (r: &ServerInfo)
        ensures
            r@ == self@.info,
    {
        &self.info
    }

    /// The clock has moved on.
    pub fn set_current_time(&mut self, now: Duration)
        requires
            old(self).wf(),
        ensures
            final(self).wf(),
            final(self)@ == (ServerView { db: DbView { now, ..old(self)@.db }, ..old(self)@ }),
    {
        self.db.update_time(now);
        assert(self@ =~= ServerView { db: DbView { now, ..old(self)@.db }, ..old(self)@ });
    }

    // ---------------------------------------------------------------
    // Connections
    // ---------------------------------------------------------------

    /// The next id, unless they are used up.
    fn get_increased_id(&mut self) -> (r: Option<usize>)
        requires
            old(self).wf(),
        ensures
            final(self).wf(),
            match r {
                Some(id) => {
                    &&& id == old(self)@.last_id + 1
                    &&& final(self)@ == (ServerView { last_id: id, ..old(self)@ })
                },
                None => old(self)@.last_id == usize::MAX && final(self)@ == old(self)@,
            },
            final(self).clients == old(self).clients,
    {
        match self.next_client_id.checked_add(1) {
            Some(id) => {
                self.next_client_id = id;
                Some(id)
            },
            None => None,
        }
    }

    /// A client has connected. It gets an id that no connection had before.
    pub fn accept_client(&mut self) -> (r: Option<ClientId>)
        requires
            old(self).wf(),
        ensures
            final(self).wf(),
            match r {
                Some(id) => {
                    &&& id.spec_get() == old(self)@.last_id + 1
                    &&& id.spec_get() > 1
                    &&& !old(self)@.clients.contains_key(id)
                    &&& !old(self)@.slaves.contains(id)
                    &&& final(self)@ == (ServerView {
                        last_id: id.spec_get(),
                        clients: old(self)@.clients.insert(
                            id,
                            client::model::fresh(id, PeerRole::Normal),
                        ),
                        ..old(self)@
                    })
                },
                None => old(self)@.last_id == usize::MAX && final(self)@ == old(self)@,
            },
    {
        let id = match self.get_increased_id() {
            Some(id) => ClientId::new(id),
            None => {
                return None;
            },
        };
        self.clients.insert(id, Client::new(id, PeerRole::Normal));
        assert(self@.clients =~= old(self)@.clients.insert(
            id,
            client::model::fresh(id, PeerRole::Normal),
        ));
        Some(id)
    }

    /// A connection, if it is still there.
    pub fn client(&self, id: ClientId) -> (r: Option<&Client>)
        requires
            self.wf(),
        ensures
            match r {
                Some(client) => {
                    &&& self@.clients.contains_key(id)
                    &&& client.wf()
                    &&& client@ == self@.clients[id]
                },
                None => !self@.clients.contains_key(id),
            },
    {
        self.clients.get(&id)
    }

    /// A connection was readable. Returns what to do next, and the writes that
    /// need to reach the replicas.
    pub fn read_client(&mut self, id: ClientId, event: ReadEvent) -> (r: Option<
        (ReadStep, Vec<RespBody>),
    >)
        requires
            old(self).wf(),
        ensures
            final(self).wf(),
            match r {
                None => !old(self)@.clients.contains_key(id) && final(self)@ == old(self)@,
                Some((step, forwards)) => {
                    &&& old(self)@.clients.contains_key(id)
                    &&& match event {
                        ReadEvent::Data(data) => {
                            let client = old(self)@.clients[id];
                            let run = client::model::consume(
                                ClientView { inbuf: client.inbuf + data@, ..client },
                                old(self)@.db,
                                old(self)@.info,
                            );
                            &&& step == ReadStep::Flush
                            &&& resp::resp_views(forwards@) == run.forwards
                            &&& final(self)@ == (ServerView {
                                clients: old(self)@.clients.insert(id, run.client),
                                db: run.db,
                                info: run.server,
                                ..old(self)@
                            })
                        },
                        _ => {
                            &&& step == ReadStep::Done(
                                if event is NotReady {
                                    Disposition::Keep
                                } else {
                                    Disposition::Drop
                                },
                            )
                            &&& forwards@.len() == 0
                            &&& final(self)@ == old(self)@
                        },
                    }
                },
            },
    {
        match self.clients.get_mut(&id) {
            None => None,
            Some(client) => {
                proof {
                    client::model::lemma_consume_keeps(
                        ClientView { inbuf: client@.inbuf + event->Data_0@, ..client@ },
                        self.db@,
                        self.info@,
                    );
                }
                let r = client.on_readable(&mut self.db, &mut self.info, event);
                assert(event is Data || self@ =~= old(self)@);
                Some(r)
            },
        }
    }

    /// A write to a connection has returned.
    pub fn flush_client(&mut self, id: ClientId, flush: &mut Flush, event: WriteEvent) -> (r:
        FlushStep)
        requires
            old(self).wf(),
            old(self)@.clients.contains_key(id),
            old(flush).sent() < old(self)@.clients[id].outbuf.len(),
            event matches WriteEvent::Wrote(n) ==> old(flush).sent() + n
                <= old(self)@.clients[id].outbuf.len(),
        ensures
            final(self).wf(),
            ({
                let before = old(self)@.clients[id];
                let after = ClientView { outbuf: final(self)@.clients[id].outbuf, ..before };
                &&& final(self)@ == (ServerView {
                    clients: old(self)@.clients.insert(id, after),
                    ..old(self)@
                })
                &&& client::model::flushed(
                    before.outbuf,
                    old(flush).sent(),
                    event,
                    after.outbuf,
                    final(flush).sent(),
                    r,
                )
            }),
    {
        match self.clients.get_mut(&id) {
            None => FlushStep::Done(Disposition::Drop),
            Some(client) => client.flush_step(flush, event),
        }
    }

    /// Whether a connection is counted as a replica.
    fn is_slave(&self, id: ClientId) -> (r: bool)
        ensures
            r == self@.slaves.contains(id),
    {
        let mut i: usize = 0;
        while i < self.slaves.len()
            invariant
                i <= self.slaves@.len(),
                forall|j: int| 0 <= j < i ==> #[trigger] self.slaves@[j] != id,
            decreases self.slaves@.len() - i,
        {
            if self.slaves[i] == id {
                return true;
            }
            i += 1;
        }
        false
    }

    fn drop_client(&mut self, id: ClientId)
        requires
            old(self).wf(),
            old(self)@.clients.contains_key(id),
        ensures
            final(self).wf(),
            final(self)@ == model::dropped(old(self)@, id),
    {
        let was_slave: bool = match self.clients.get(&id) {
            Some(client) => client.peer_role() == PeerRole::Slave,
            None => false,
        };
        let counted: bool = self.is_slave(id);
        self.db.remove_watcher(id);
        self.clients.remove(&id);
        assert(self@.clients =~= old(self)@.clients.remove(id));
        if was_slave && counted {
            self.forget_slave(id);
        }
    }

    fn forget_slave(&mut self, id: ClientId)
        requires
            old(self).wf(),
        ensures
            final(self).wf(),
            final(self)@ == model::with_slaves(old(self)@, model::without(old(self)@.slaves, id)),
    {
        let mut left: Vec<ClientId> = Vec::new();
        let ghost all = self.slaves@;
        let ghost keep = model::other_than(id);
        let mut i: usize = 0;
        proof {
            reveal(Seq::filter);
            assert(all.take(0) =~= Seq::empty());
            assert(left@ =~= all.take(0).filter(keep));
        }
        while i < self.slaves.len()
            invariant
                *self == *old(self),
                all == self.slaves@,
                i <= all.len(),
                keep == model::other_than(id),
                left@ == all.take(i as int).filter(keep),
            decreases all.len() - i,
        {
            proof {
                reveal(Seq::filter);
                let next = all.take(i + 1);
                assert(next.drop_last() =~= all.take(i as int));
                assert(next.last() == all[i as int]);
            }
            if self.slaves[i] != id {
                left.push(self.slaves[i]);
            }
            i += 1;
        }
        proof {
            assert(all.take(i as int) =~= all);
            lemma_filter_no_duplicates(all, keep);
        }
        self.info.set_connected_slaves(left.len() as u32);
        self.slaves = left;
    }

    fn attach_slave(&mut self, id: ClientId)
        requires
            old(self).wf(),
            old(self)@.clients.contains_key(id),
        ensures
            final(self).wf(),
            final(self)@ == model::attached(old(self)@, id),
    {
        let is_replica: bool = match self.clients.get(&id) {
            Some(client) => client.peer_role() == PeerRole::Slave,
            None => false,
        };
        if is_replica && !self.is_slave(id) {
            self.slaves.push(id);
            self.info.set_connected_slaves(self.slaves.len() as u32);
            proof {
                let before = old(self)@.slaves;
                assert forall|j: int, k: int|
                    0 <= j < self.slaves@.len() && 0 <= k < self.slaves@.len() && j != k implies
                    self.slaves@[j] != self.slaves@[k] by {
                    if j < before.len() {
                        assert(before.contains(before[j]));
                    }
                    if k < before.len() {
                        assert(before.contains(before[k]));
                    }
                }
                assert forall|other: ClientId| #[trigger]
                    self.slaves@.contains(other) implies 1 < other.spec_get()
                    <= self.next_client_id by {
                    lemma_pushed(before, id, other);
                }
            }
        }
    }

    /// Sends bytes to every replica.
    fn tell_slaves(&mut self, bytes: &[u8])
        requires
            old(self).wf(),
        ensures
            final(self).wf(),
            final(self)@ == (ServerView {
                clients: model::told(old(self)@.clients, old(self)@.slaves, bytes@),
                ..old(self)@
            }),
    {
        let ghost start = self@.clients;
        let ghost all = self.slaves@;
        let mut i: usize = 0;
        assert(self@.clients =~= model::told(start, all.take(0), bytes@));
        while i < self.slaves.len()
            invariant
                self.wf(),
                all == self.slaves@,
                all.no_duplicates(),
                i <= all.len(),
                start == old(self)@.clients,
                self@ == (ServerView {
                    clients: model::told(start, all.take(i as int), bytes@),
                    ..old(self)@
                }),
            decreases all.len() - i,
        {
            let id = self.slaves[i];
            let ghost before = self@.clients;
            let ghost first = all.take(i as int);
            let ghost next = all.take(i + 1);
            match self.clients.get_mut(&id) {
                Some(client) => {
                    client.write_out_buffer(bytes);
                },
                None => {},
            }
            proof {
                assert(!first.contains(id)) by {
                    if first.contains(id) {
                        let j = choose|j: int| 0 <= j < first.len() && first[j] == id;
                        assert(all[j] == all[i as int]);
                    }
                }
                assert forall|other: ClientId| #[trigger]
                    next.contains(other) == (first.contains(other) || other == id) by {
                    if first.contains(other) {
                        let j = choose|j: int| 0 <= j < first.len() && first[j] == other;
                        assert(next[j] == other);
                    }
                    if next.contains(other) {
                        let j = choose|j: int| 0 <= j < next.len() && next[j] == other;
                        if j < i {
                            assert(first[j] == other);
                        }
                    }
                    assert(next[i as int] == id);
                }
                let want = model::told(start, next, bytes@);
                assert forall|other: ClientId| #[trigger] self@.clients.contains_key(other) implies
                    self@.clients[other] == want[other] by {
                    assert(before.contains_key(other));
                    if other != id {
                        assert(self@.clients[other] == before[other]);
                        assert(next.contains(other) == first.contains(other));
                    } else {
                        assert(before[id] == start[id]);
                        assert(next.contains(id));
                    }
                }
                assert forall|other: ClientId| #[trigger]
                    self@.clients.contains_key(other) == want.contains_key(other) by {
                    assert(before.contains_key(other) == start.contains_key(other));
                }
                assert(self@.clients =~= want);
                assert(self@ =~= ServerView {
                    clients: model::told(start, next, bytes@),
                    ..old(self)@
                });
            }
            i += 1;
        }
        assert(all.take(i as int) =~= all);
    }

    /// Sends a request on to every replica.
    fn propagate(&mut self, body: &RespBody)
        requires
            old(self).wf(),
        ensures
            final(self).wf(),
            final(self)@ == model::propagated(old(self)@, body@),
    {
        let mut bytes: Vec<u8> = Vec::new();
        body.encode(&mut bytes);
        assert(bytes@ =~= resp::encoded(body@));
        self.tell_slaves(bytes.as_slice());
        self.info.incr_repl_offset(bytes.len());
    }

    /// A connection was serviced, and its output flushed. It is dropped, or what
    /// it wrote goes on to the replicas, which have to be flushed.
    pub fn service_client(
        &mut self,
        id: ClientId,
        disposition: Disposition,
        to_propagate: &Vec<RespBody>,
    )
        requires
            old(self).wf(),
        ensures
            final(self).wf(),
            final(self)@ == model::serviced(
                old(self)@,
                id,
                disposition,
                resp::resp_views(to_propagate@),
            ),
    {
        if !self.clients.contains_key(&id) {
            return ;
        }
        if disposition == Disposition::Drop {
            self.drop_client(id);
            return ;
        }
        self.attach_slave(id);
        let ghost start = self@;
        let ghost bodies = resp::resp_views(to_propagate@);
        let mut i: usize = 0;
        assert(bodies.skip(0) =~= bodies);
        while i < to_propagate.len()
            invariant
                self.wf(),
                i <= to_propagate@.len(),
                bodies == resp::resp_views(to_propagate@),
                model::propagated_all(self@, bodies.skip(i as int)) == model::propagated_all(
                    start,
                    bodies,
                ),
            decreases to_propagate@.len() - i,
        {
            assert(bodies.skip(i as int)[0] == to_propagate@[i as int]@);
            assert(bodies.skip(i as int).drop_first() =~= bodies.skip(i + 1));
            self.propagate(&to_propagate[i]);
            i += 1;
        }
    }

    /// The replicas that are still connected, in order.
    pub fn slaves(&self) -> (r: &Vec<ClientId>)
        ensures
            r@ == self@.slaves,
    {
        &self.slaves
    }

    // ---------------------------------------------------------------
    // Housekeeping
    // ---------------------------------------------------------------

    /// Another turn of the event loop begins.
    pub fn before_sleep(&mut self)
        requires
            old(self).wf(),
        ensures
            final(self).wf(),
            final(self)@ == (ServerView {
                cronloops: old(self)@.cronloops.wrapping_add(1),
                ..old(self)@
            }),
    {
        self.cronloops = self.cronloops.wrapping_add(1);
    }

    /// One round of removing keys whose time is over, unless `elapsed_ms` has
    /// used up the time that there is for it. Returns whether another round is due.
    pub fn active_expire_cron(&mut self, elapsed_ms: u64) -> (r: bool)
        requires
            old(self).wf(),
        ensures
            final(self).wf(),
            ({
                let config = ServerConfig::spec_init();
                let budget = (1000u32 / config.hz) / 4;
                let limit = config.active_expire_keys_per_round as nat;
                if !config.active_expire_enabled || elapsed_ms >= budget {
                    !r && final(self)@ == old(self)@
                } else {
                    exists|keys: Seq<Seq<u8>>|
                        {
                            &&& #[trigger] db::model::is_sweep(old(self)@.db, keys, limit)
                            &&& final(self)@ == (ServerView {
                                db: db::model::removed_all(old(self)@.db, keys),
                                ..old(self)@
                            })
                            &&& r == ((keys.len() * 100) / limit >= config.active_expire_percent)
                        }
                }
            }),
    {
        let budget: u32 = (1000 / self.config.hz) / 4;
        if !self.config.active_expire_enabled || elapsed_ms >= budget as u64 {
            return false;
        }
        let limit: usize = self.config.active_expire_keys_per_round;
        let ghost before = self.db@;
        let expired: u32 = self.db.active_sweep(limit);
        let percent: u64 = (expired as u64 * 100) / limit as u64;
        proof {
            let keys = choose|keys: Seq<Seq<u8>>|
                {
                    &&& #[trigger] db::model::is_sweep(before, keys, limit as nat)
                    &&& self.db@ == db::model::removed_all(before, keys)
                    &&& expired == keys.len() as u32
                };
            assert(limit == 20);
            assert(self.config.active_expire_percent == 25);
            assert(ServerConfig::spec_init().active_expire_keys_per_round as nat == 20);
            assert(budget == (1000u32 / ServerConfig::spec_init().hz) / 4);
            assert(db::model::is_sweep(old(self)@.db, keys, 20));
            assert(percent == (keys.len() * 100) / 20);
            assert(db::model::is_sweep(before, keys, limit as nat));
            assert(expired == keys.len());
            assert(self@ =~= ServerView {
                db: db::model::removed_all(before, keys),
                ..old(self)@
            });
        }
        percent >= self.config.active_expire_percent as u64
    }

    /// Asks the replicas for their offsets, where somebody waits for that: one
    /// question for all who do. Returns whether they were asked, and have to be
    /// flushed.
    pub fn get_ack_from_slaves_cron(&mut self) -> (r: bool)
        requires
            old(self).wf(),
        ensures
            final(self).wf(),
            final(self)@ == model::asked_for_acks(old(self)@),
            r == (old(self)@.info.get_ack_from_slaves && old(self)@.info.role
                == ServerRole::Master && old(self)@.slaves.len() > 0),
    {
        if !self.info.wants_acks() || self.info.role() != ServerRole::Master {
            return false;
        }
        if self.slaves.len() == 0 {
            self.info.ack_request_done();
            return false;
        }
        let mut words: Vec<Vec<u8>> = Vec::new();
        words.push(vstd::slice::slice_to_vec("REPLCONF".as_bytes()));
        words.push(vstd::slice::slice_to_vec("GETACK".as_bytes()));
        words.push(vstd::slice::slice_to_vec("*".as_bytes()));
        assert(text::arg_views(words@) =~= seq![
            encode_utf8("REPLCONF"@),
            encode_utf8("GETACK"@),
            encode_utf8("*"@),
        ]);
        self.propagate(&resp::bulk_request(words));
        self.info.ack_request_done();
        true
    }

    /// Sends clients the replies that they have waited for, and adds to `ids`
    /// those that have to be flushed.
    fn deliver(&mut self, replies: &Table<ClientId, RespBody>, ids: &mut Vec<ClientId>)
        requires
            old(self).wf(),
            replies.wf(),
        ensures
            final(self).wf(),
            final(self)@ == (ServerView {
                clients: model::delivered(
                    old(self)@.clients,
                    db::waiters::replies_view(replies@),
                ),
                ..old(self)@
            }),
            forall|id: ClientId| #[trigger]
                final(ids)@.contains(id) <==> old(ids)@.contains(id) || (
                old(self)@.clients.contains_key(id) && replies@.contains_key(id)),
    {
        let ghost start = self@.clients;
        let ghost views = db::waiters::replies_view(replies@);
        let ghost entries = replies.entries();
        let n: usize = replies.len();
        let mut i: usize = 0;
        assert(self@.clients =~= told_first(start, entries, views, 0));
        while i < n
            invariant
                self.wf(),
                replies.wf(),
                i <= n == entries.len(),
                entries == replies.entries(),
                views == db::waiters::replies_view(replies@),
                start == old(self)@.clients,
                self@ == (ServerView {
                    clients: told_first(start, entries, views, i as int),
                    ..old(self)@
                }),
                forall|id: ClientId| #[trigger]
                    ids@.contains(id) <==> old(ids)@.contains(id) || (start.contains_key(id)
                        && within(entries, i as int, id)),
            decreases n - i,
        {
            let id = *replies.key_at(i);
            let ghost before = self@.clients;
            let ghost ids_before = ids@;
            proof {
                table::lemma_entry(entries, i as int);
                assert(before.contains_key(id) == start.contains_key(id));
                assert(!within(entries, i as int, id)) by {
                    if within(entries, i as int, id) {
                        let j = choose|j: int|
                            0 <= j < i && (#[trigger] entries[j]).0 == id;
                        assert(entries[j].0@ != entries[i as int].0@);
                    }
                }
            }
            match self.clients.get_mut(&id) {
                Some(client) => {
                    client.write_out(replies.value_at(i));
                    ids.push(id);
                },
                None => {},
            }
            proof {
                lemma_within_next(entries, i as int);
                let want = told_first(start, entries, views, i + 1);
                assert forall|other: ClientId| #[trigger]
                    self@.clients.contains_key(other) == want.contains_key(other) by {
                    assert(before.contains_key(other) == start.contains_key(other));
                }
                assert forall|other: ClientId| #[trigger] self@.clients.contains_key(other) implies
                    self@.clients[other] == want[other] by {
                    assert(before.contains_key(other));
                    assert(within(entries, i + 1, other) == (within(entries, i as int, other)
                        || other == id));
                    if other == id {
                        assert(views[id] == entries[i as int].1@);
                        assert(before[id] == start[id]);
                    } else {
                        assert(self@.clients[other] == before[other]);
                    }
                }
                assert(self@.clients =~= want);
                assert(self@ =~= ServerView { clients: want, ..old(self)@ });
                assert forall|other: ClientId| #[trigger]
                    ids@.contains(other) <==> old(ids)@.contains(other) || (start.contains_key(
                        other,
                    ) && within(entries, i + 1, other)) by {
                    assert(ids_before.contains(other) <==> old(ids)@.contains(other) || (
                    start.contains_key(other) && within(entries, i as int, other)));
                    assert(within(entries, i + 1, other) == (within(entries, i as int, other)
                        || other == id));
                    if start.contains_key(id) {
                        assert(ids@ =~= ids_before.push(id));
                        lemma_pushed(ids_before, id, other);
                    }
                }
            }
            i += 1;
        }
        proof {
            assert forall|id: ClientId| #[trigger] within(entries, n as int, id)
                == replies@.contains_key(id) by {
                if within(entries, n as int, id) {
                    let j = choose|j: int| 0 <= j < n && (#[trigger] entries[j]).0 == id;
                    table::lemma_entry(entries, j);
                }
                if replies@.contains_key(id) {
                    table::lemma_entry_of(entries, id);
                    let j = table::position(entries, id);
                    assert(entries[j].0 == id);
                }
            }
            let want = model::delivered(start, views);
            assert forall|id: ClientId| #[trigger] self@.clients.contains_key(id) implies
                self@.clients[id] == want[id] by {
                assert(within(entries, n as int, id) == replies@.contains_key(id));
                assert(views.contains_key(id) == replies@.contains_key(id));
            }
            assert(self@.clients =~= want);
            assert(self@ =~= ServerView { clients: want, ..old(self)@ });
        }
    }

    /// One round for the clients that wait on keys. Returns those that have to be
    /// flushed, and the time until the next one gives up.
    pub fn clients_key_waiters_cron(&mut self) -> (r: (Vec<ClientId>, Option<Duration>))
        requires
            old(self).wf(),
        ensures
            final(self).wf(),
            ({
                let (middle, lists) = db::model::list_round(old(self)@.db);
                let streams = db::model::stream_round(middle);
                &&& final(self)@ == (ServerView {
                    db: DbView { stream_waiters: streams.waiting, ..streams.db },
                    clients: model::delivered(
                        model::delivered(old(self)@.clients, lists),
                        streams.replies,
                    ),
                    ..old(self)@
                })
                &&& forall|id: ClientId| #[trigger]
                    r.0@.contains(id) <==> old(self)@.clients.contains_key(id) && (
                    lists.contains_key(id) || streams.replies.contains_key(id))
                &&& exists|nearest: Option<Duration>|
                    {
                        &&& #[trigger] db::model::nearest_timeout(
                            old(self)@.db.list_waiters,
                            old(self)@.db.now,
                            nearest,
                        )
                        &&& r.1 == time::nearer(nearest, streams.nearest)
                    }
            }),
    {
        let lists = self.db.handle_list_waiters();
        let ghost middle = self.db@;
        let streams = self.db.handle_stream_waiters();
        let mut ids: Vec<ClientId> = Vec::new();
        self.deliver(&lists.replies, &mut ids);
        self.deliver(&streams.replies, &mut ids);
        proof {
            let round = db::model::stream_round(middle);
            assert(self@ =~= ServerView {
                db: DbView { stream_waiters: round.waiting, ..round.db },
                clients: model::delivered(
                    model::delivered(
                        old(self)@.clients,
                        db::waiters::replies_view(lists.replies@),
                    ),
                    round.replies,
                ),
                ..old(self)@
            });
        }
        (ids, time::nearest(lists.deadline, streams.deadline))
    }

    /// A client that had waited on keys was flushed. A connection that failed is
    /// forgotten.
    pub fn key_waiter_flushed(&mut self, id: ClientId, flushed: Disposition)
        requires
            old(self).wf(),
        ensures
            final(self).wf(),
            final(self)@ == (if flushed == Disposition::Drop {
                ServerView { clients: old(self)@.clients.remove(id), ..old(self)@ }
            } else {
                old(self)@
            }),
    {
        if flushed == Disposition::Drop {
            self.clients.remove(&id);
            assert(self@.clients =~= old(self)@.clients.remove(id));
        }
    }

    /// The offsets that the replicas have acknowledged.
    fn slave_acks(&self) -> (r: Vec<i64>)
        requires
            self.wf(),
        ensures
            r@ == model::acks(self@.clients, self@.slaves),
    {
        let ghost all = self.slaves@;
        let mut out: Vec<i64> = Vec::new();
        let mut i: usize = 0;
        assert(all.take(0) =~= Seq::empty());
        while i < self.slaves.len()
            invariant
                self.wf(),
                all == self.slaves@,
                i <= all.len(),
                out@ == model::acks(self@.clients, all.take(i as int)),
            decreases all.len() - i,
        {
            proof {
                let next = all.take(i + 1);
                assert(next.drop_last() =~= all.take(i as int));
                assert(next.last() == all[i as int]);
            }
            match self.clients.get(&self.slaves[i]) {
                Some(client) => out.push(client.repl_ack_off()),
                None => {},
            }
            i += 1;
        }
        assert(all.take(i as int) =~= all);
        out
    }

    /// The ids of all connections.
    fn client_ids(&self) -> (r: Vec<ClientId>)
        requires
            self.wf(),
        ensures
            r@.no_duplicates(),
            forall|id: ClientId| #[trigger] r@.contains(id) == self@.clients.contains_key(id),
    {
        let ghost entries = self.clients.entries();
        let mut out: Vec<ClientId> = Vec::new();
        let n: usize = self.clients.len();
        let mut i: usize = 0;
        while i < n
            invariant
                i <= n == entries.len(),
                entries == self.clients.entries(),
                out@.len() == i,
                forall|j: int| 0 <= j < i ==> #[trigger] out@[j] == entries[j].0,
            decreases n - i,
        {
            out.push(*self.clients.key_at(i));
            i += 1;
        }
        proof {
            assert forall|j: int, k: int|
                0 <= j < out@.len() && 0 <= k < out@.len() && j != k implies out@[j]
                != out@[k] by {
                assert(out@[j] == entries[j].0);
                assert(out@[k] == entries[k].0);
                if j < k {
                    assert(entries[j].0@ != entries[k].0@);
                } else {
                    assert(entries[k].0@ != entries[j].0@);
                }
            }
            assert forall|id: ClientId| #[trigger]
                out@.contains(id) == self@.clients.contains_key(id) by {
                if out@.contains(id) {
                    let j = choose|j: int| 0 <= j < out@.len() && out@[j] == id;
                    assert(out@[j] == entries[j].0);
                    table::lemma_entry(entries, j);
                }
                if self@.clients.contains_key(id) {
                    table::lemma_entry_of(entries, id);
                    let j = table::position(entries, id);
                    assert(out@[j] == id);
                }
            }
        }
        out
    }

    /// Settles the clients that wait for replicas against the offsets that these
    /// have acknowledged. Returns those that have to be flushed, and the time
    /// until the next one gives up.
    pub fn client_ack_waiters_cron(&mut self) -> (r: (Vec<ClientId>, Option<Duration>))
        requires
            old(self).wf(),
        ensures
            final(self).wf(),
            ({
                let acks = model::acks(old(self)@.clients, old(self)@.slaves);
                let now = old(self)@.db.now;
                &&& final(self)@ == (ServerView {
                    clients: model::all_settled(old(self)@.clients, acks, now),
                    ..old(self)@
                })
                &&& forall|id: ClientId| #[trigger]
                    r.0@.contains(id) <==> old(self)@.clients.contains_key(id)
                        && model::may_flush(old(self)@.clients[id], acks, now)
                &&& model::nearest_left(old(self)@.clients, acks, now, r.1)
            }),
    {
        let acks = self.slave_acks();
        let now = self.db.realtime_ms();
        let ids = self.client_ids();
        let ghost start = self@.clients;
        let ghost all = ids@;
        let mut flush: Vec<ClientId> = Vec::new();
        let mut nearest: Option<Duration> = None;
        let mut i: usize = 0;
        assert(self@.clients =~= settled_first(start, all.take(0), acks@, now));
        while i < ids.len()
            invariant
                self.wf(),
                all == ids@,
                all.no_duplicates(),
                i <= all.len(),
                forall|id: ClientId| #[trigger] all.contains(id) == start.contains_key(id),
                start == old(self)@.clients,
                self@ == (ServerView {
                    clients: settled_first(start, all.take(i as int), acks@, now),
                    ..old(self)@
                }),
                forall|id: ClientId| #[trigger]
                    flush@.contains(id) <==> all.take(i as int).contains(id) && model::may_flush(
                        start[id],
                        acks@,
                        now,
                    ),
                forall|id: ClientId| #[trigger]
                    all.take(i as int).contains(id) ==> (model::time_left(
                        start[id],
                        acks@,
                        now,
                    ) matches Some(left) ==> nearest matches Some(least) && least.nanos
                        <= left.nanos),
                nearest matches Some(least) ==> exists|id: ClientId| #[trigger]
                    start.contains_key(id) && model::time_left(start[id], acks@, now) == Some(
                        least,
                    ),
            decreases all.len() - i,
        {
            let id = ids[i];
            let ghost before = self@.clients;
            let ghost first = all.take(i as int);
            let ghost next = all.take(i + 1);
            let ghost flush_before = flush@;
            proof {
                assert(next =~= first.push(id));
                assert forall|other: ClientId| #[trigger]
                    next.contains(other) == (first.contains(other) || other == id) by {
                    lemma_pushed(first, id, other);
                }
                assert(!first.contains(id)) by {
                    if first.contains(id) {
                        let j = choose|j: int| 0 <= j < first.len() && first[j] == id;
                        assert(all[j] == all[i as int]);
                    }
                }
                assert(all.contains(all[i as int]));
                assert(start.contains_key(id));
                assert(before.contains_key(id) && before[id] == start[id]);
            }
            match self.clients.get_mut(&id) {
                Some(client) => {
                    if client.is_ack_blocked() {
                        match client.settle_ack_block(acks.as_slice(), now) {
                            Some(remaining) => {
                                nearest = time::nearest(nearest, Some(remaining));
                            },
                            None => {
                                flush.push(id);
                            },
                        }
                    }
                },
                None => {},
            }
            proof {
                let want = settled_first(start, next, acks@, now);
                assert forall|other: ClientId| #[trigger]
                    self@.clients.contains_key(other) == want.contains_key(other) by {
                    assert(before.contains_key(other) == start.contains_key(other));
                }
                assert forall|other: ClientId| #[trigger] self@.clients.contains_key(other) implies
                    self@.clients[other] == want[other] by {
                    assert(before.contains_key(other));
                    if other != id {
                        assert(self@.clients[other] == before[other]);
                        assert(next.contains(other) == first.contains(other));
                    } else {
                        assert(next.contains(id));
                    }
                }
                assert(self@.clients =~= want);
                assert(self@ =~= ServerView { clients: want, ..old(self)@ });
                assert forall|other: ClientId| #[trigger]
                    flush@.contains(other) <==> next.contains(other) && model::may_flush(
                        start[other],
                        acks@,
                        now,
                    ) by {
                    assert(flush_before.contains(other) <==> first.contains(other)
                        && model::may_flush(start[other], acks@, now));
                    assert(next.contains(other) == (first.contains(other) || other == id));
                    if model::may_flush(start[id], acks@, now) {
                        assert(flush@ =~= flush_before.push(id));
                        lemma_pushed(flush_before, id, other);
                    } else {
                        assert(flush@ =~= flush_before);
                    }
                }
                assert forall|other: ClientId| #[trigger] next.contains(other) implies (
                model::time_left(start[other], acks@, now) matches Some(left) ==> nearest matches
                Some(least) && least.nanos <= left.nanos) by {
                    assert(next.contains(other) == (first.contains(other) || other == id));
                    if other != id {
                        assert(first.contains(other));
                    }
                }
            }
            i += 1;
        }
        proof {
            assert(all.take(i as int) =~= all);
            let want = model::all_settled(start, acks@, now);
            assert forall|id: ClientId| #[trigger] self@.clients.contains_key(id) implies
                self@.clients[id] == want[id] by {
                assert(all.contains(id));
            }
            assert(self@.clients =~= want);
            assert(self@ =~= ServerView { clients: want, ..old(self)@ });
            assert forall|id: ClientId| #[trigger] start.contains_key(id) implies (
            model::time_left(start[id], acks@, now) matches Some(left) ==> nearest matches Some(
                least,
            ) && least.nanos <= left.nanos) by {
                assert(all.contains(id));
            }
            assert forall|id: ClientId| #[trigger]
                flush@.contains(id) <==> start.contains_key(id) && model::may_flush(
                    start[id],
                    acks@,
                    now,
                ) by {
                assert(all.contains(id) == start.contains_key(id));
            }
        }
        (flush, nearest)
    }

    /// A client that had waited for replicas was flushed. A connection that
    /// failed is forgotten, with what it watched.
    pub fn ack_waiter_flushed(&mut self, id: ClientId, flushed: Disposition)
        requires
            old(self).wf(),
        ensures
            final(self).wf(),
            final(self)@ == (if flushed == Disposition::Drop {
                ServerView {
                    db: old(self)@.db.unwatched(id),
                    clients: old(self)@.clients.remove(id),
                    ..old(self)@
                }
            } else {
                old(self)@
            }),
    {
        if flushed == Disposition::Drop {
            self.db.remove_watcher(id);
            self.clients.remove(&id);
            assert(self@.clients =~= old(self)@.clients.remove(id));
        }
    }

    // ---------------------------------------------------------------
    // The master
    // ---------------------------------------------------------------

    /// The connection to the master is there.
    pub fn link_master(&mut self)
        requires
            old(self).wf(),
        ensures
            final(self).wf(),
            exists|id: ClientId| #[trigger] id.spec_get() == 1 && final(self)@ == (ServerView {
                master: Some(client::model::fresh(id, PeerRole::Master)),
                ..old(self)@
            }),
    {
        let id = ClientId::new(1);
        self.master_link = Some(Client::new(id, PeerRole::Master));
        assert(id.spec_get() == 1 && self@ =~= ServerView {
            master: Some(client::model::fresh(id, PeerRole::Master)),
            ..old(self)@
        });
    }

    pub fn master(&self) -> (r: Option<&Client>)
        requires
            self.wf(),
        ensures
            match r {
                Some(client) => client.wf() && self@.master == Some(client@),
                None => self@.master is None,
            },
    {
        match &self.master_link {
            Some(client) => Some(client),
            None => None,
        }
    }

    /// Queues a request for the master. Returns whether there is one.
    pub fn write_master(&mut self, body: &RespBody) -> (r: bool)
        requires
            old(self).wf(),
        ensures
            final(self).wf(),
            match old(self)@.master {
                Some(client) => r && final(self)@ == (ServerView {
                    master: Some(
                        ClientView { outbuf: client.outbuf + resp::encoded(body@), ..client },
                    ),
                    ..old(self)@
                }),
                None => !r && final(self)@ == old(self)@,
            },
    {
        match &mut self.master_link {
            Some(client) => {
                client.write_out(body);
                true
            },
            None => false,
        }
    }

    /// The master has sent something. What it wrote is not passed on.
    pub fn service_master(&mut self, event: ReadEvent) -> (r: Option<ReadStep>)
        requires
            old(self).wf(),
        ensures
            final(self).wf(),
            match old(self)@.master {
                None => r is None && final(self)@ == old(self)@,
                Some(client) => match event {
                    ReadEvent::Data(data) => {
                        let run = client::model::consume(
                            ClientView { inbuf: client.inbuf + data@, ..client },
                            old(self)@.db,
                            old(self)@.info,
                        );
                        &&& r == Some(ReadStep::Flush)
                        &&& final(self)@ == (ServerView {
                            master: Some(run.client),
                            db: run.db,
                            info: run.server,
                            ..old(self)@
                        })
                    },
                    _ => {
                        &&& r == Some(
                            ReadStep::Done(
                                if event is NotReady {
                                    Disposition::Keep
                                } else {
                                    Disposition::Drop
                                },
                            ),
                        )
                        &&& final(self)@ == old(self)@
                    },
                },
            },
    {
        match &mut self.master_link {
            None => None,
            Some(client) => {
                proof {
                    client::model::lemma_consume_keeps(
                        ClientView { inbuf: client@.inbuf + event->Data_0@, ..client@ },
                        self.db@,
                        self.info@,
                    );
                }
                let (step, _) = client.on_readable(&mut self.db, &mut self.info, event);
                Some(step)
            },
        }
    }

    /// A write to the master has returned.
    pub fn flush_master(&mut self, flush: &mut Flush, event: WriteEvent) -> (r: FlushStep)
        requires
            old(self).wf(),
            old(self)@.master matches Some(client) && {
                &&& old(flush).sent() < client.outbuf.len()
                &&& event matches WriteEvent::Wrote(n) ==> old(flush).sent() + n
                    <= client.outbuf.len()
            },
        ensures
            final(self).wf(),
            ({
                let before = old(self)@.master->0;
                let after = ClientView { outbuf: (final(self)@.master->0).outbuf, ..before };
                &&& final(self)@ == (ServerView { master: Some(after), ..old(self)@ })
                &&& client::model::flushed(
                    before.outbuf,
                    old(flush).sent(),
                    event,
                    after.outbuf,
                    final(flush).sent(),
                    r,
                )
            }),
    {
        match &mut self.master_link {
            None => FlushStep::Done(Disposition::Drop),
            Some(client) => client.flush_step(flush, event),
        }
    }
}

/// The clients among `first` have been settled.
spec fn settled_first(
    clients: Map<ClientId, ClientView>,
    first: Seq<ClientId>,
    acks: Seq<i64>,
    now: Duration,
) -> Map<ClientId, ClientView> {
    Map::new(
        |id: ClientId| clients.contains_key(id),
        |id: ClientId|
            if first.contains(id) {
                model::settled(clients[id], acks, now)
            } else {
                clients[id]
            },
    )
}

/// `id` is the key of one of the first `n` entries.
spec fn within(entries: Seq<(ClientId, RespBody)>, n: int, id: ClientId) -> bool {
    exists|j: int| 0 <= j < n && (#[trigger] entries[j]).0 == id
}

proof fn lemma_within_next(entries: Seq<(ClientId, RespBody)>, n: int)
    requires
        0 <= n < entries.len(),
    ensures
        forall|id: ClientId| #[trigger]
            within(entries, n + 1, id) == (within(entries, n, id) || id == entries[n].0),
{
    assert forall|id: ClientId| #[trigger]
        within(entries, n + 1, id) == (within(entries, n, id) || id == entries[n].0) by {
        if within(entries, n, id) {
            let j = choose|j: int| 0 <= j < n && (#[trigger] entries[j]).0 == id;
            assert(entries[j].0 == id);
        }
        if id == entries[n].0 {
            assert(entries[n].0 == id);
        }
    }
}

proof fn lemma_pushed(s: Seq<ClientId>, id: ClientId, other: ClientId)
    ensures
        s.push(id).contains(other) == (s.contains(other) || other == id),
{
    let t = s.push(id);
    if s.contains(other) {
        let j = choose|j: int| 0 <= j < s.len() && s[j] == other;
        assert(t[j] == other);
    }
    if t.contains(other) {
        let j = choose|j: int| 0 <= j < t.len() && t[j] == other;
        if j < s.len() {
            assert(s[j] == other);
        }
    }
    assert(t[s.len() as int] == id);
}

/// The clients of the first `n` entries have got their replies.
spec fn told_first(
    clients: Map<ClientId, ClientView>,
    entries: Seq<(ClientId, RespBody)>,
    replies: Map<ClientId, RespView>,
    n: int,
) -> Map<ClientId, ClientView> {
    Map::new(
        |id: ClientId| clients.contains_key(id),
        |id: ClientId|
            if within(entries, n, id) {
                ClientView {
                    outbuf: clients[id].outbuf + resp::encoded(replies[id]),
                    ..clients[id]
                }
            } else {
                clients[id]
            },
    )
}

proof fn lemma_filter_no_duplicates(s: Seq<ClientId>, keep: spec_fn(ClientId) -> bool)
    requires
        s.no_duplicates(),
    ensures
        s.filter(keep).no_duplicates(),
        forall|id: ClientId| #[trigger] s.filter(keep).contains(id) ==> s.contains(id),
    decreases s.len(),
{
    reveal(Seq::filter);
    if s.len() > 0 {
        let front = s.drop_last();
        let last = s.last();
        assert forall|i: int, j: int|
            0 <= i < front.len() && 0 <= j < front.len() && i != j implies front[i] != front[j] by {
            assert(s[i] != s[j]);
        }
        lemma_filter_no_duplicates(front, keep);
        let before = front.filter(keep);
        let after = s.filter(keep);
        assert forall|id: ClientId| #[trigger] after.contains(id) implies s.contains(id) by {
            let j = choose|j: int| 0 <= j < after.len() && after[j] == id;
            if j < before.len() {
                assert(before.contains(before[j]));
                let k = choose|k: int| 0 <= k < front.len() && front[k] == id;
                assert(s[k] == id);
            } else {
                assert(s[s.len() - 1] == last);
            }
        }
        if keep(last) {
            assert(after == before.push(last));
            assert forall|i: int, j: int|
                0 <= i < after.len() && 0 <= j < after.len() && i != j implies after[i]
                != after[j] by {
                let low = if i < j {
                    i
                } else {
                    j
                };
                assert(before.contains(before[low]));
                let k = choose|k: int| 0 <= k < front.len() && front[k] == before[low];
                assert(s[k] != s[s.len() - 1]);
                if i < before.len() && j < before.len() {
                    assert(before[i] != before[j]);
                }
            }
        }
    }
}

/// Law: the count of replicas that INFO shows is the number of connections that
/// replicas have made, each counted once.
pub proof fn law_replicas_are_counted(server: Server)
    requires
        server.wf(),
    ensures
        server@.info.connected_slaves == server@.slaves.len() as u32,
        server@.slaves.no_duplicates(),
{
}

/// Law: every connection and every replica has an id that was given before, and
/// none has that of the listener or of the link to the master. So the next id, which
/// is greater than the last, is nobody's.
pub proof fn law_ids_were_given(server: Server, id: ClientId)
    requires
        server.wf(),
        server@.clients.contains_key(id) || server@.slaves.contains(id),
    ensures
        1 < id.spec_get() <= server@.last_id,
{
}

/// Law: each connection is known by its own id, and its queue is in order.
pub proof fn law_connections_know_themselves(server: Server, id: ClientId)
    requires
        server.wf(),
        server@.clients.contains_key(id),
    ensures
        server@.clients[id].id == id,
        client::queue_wf(server@.clients[id]),
{
}

} // verus!
