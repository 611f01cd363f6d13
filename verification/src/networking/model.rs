//! A server as a mathematical value, and what each event makes of it.
use vstd::prelude::*;
use crate::client;
use crate::client::{ClientId, Disposition, PeerRole};
use crate::client::model::ClientView;
use crate::db::model::DbView;
use crate::networking::info;
use crate::networking::info::{InfoView, ServerRole};
use crate::resp;
use crate::resp::RespView;
use crate::time::Duration;
use vstd::utf8::*;

verus! {

/// The state of a server.
#[verifier::ext_equal]
pub struct ServerView {
    pub clients: Map<ClientId, ClientView>,
    /// The connections that replicas have made, in the order in which they came.
    pub slaves: Seq<ClientId>,
    /// The connection to the master, if this server is a replica.
    pub master: Option<ClientView>,
    pub db: DbView,
    pub info: InfoView,
    pub last_id: usize,
    pub cronloops: u64,
}

/// The servers count as replicas the connections in `slaves`.
pub open spec fn with_slaves(server: ServerView, slaves: Seq<ClientId>) -> ServerView {
    ServerView {
        slaves,
        info: InfoView { connected_slaves: slaves.len() as u32, ..server.info },
        ..server
    }
}

pub open spec fn other_than(id: ClientId) -> spec_fn(ClientId) -> bool {
    |slave: ClientId| slave != id
}

pub open spec fn without(slaves: Seq<ClientId>, id: ClientId) -> Seq<ClientId> {
    slaves.filter(other_than(id))
}

/// A connection has come to its end: what it watched, its queue and its buffers
/// are forgotten, and so is the replica behind it.
pub open spec fn dropped(server: ServerView, id: ClientId) -> ServerView {
    let gone = ServerView {
        db: server.db.unwatched(id),
        clients: server.clients.remove(id),
        ..server
    };
    if server.clients[id].peer_role == PeerRole::Slave && server.slaves.contains(id) {
        with_slaves(gone, without(server.slaves, id))
    } else {
        gone
    }
}

/// A connection that has turned out to be a replica is counted as one.
pub open spec fn attached(server: ServerView, id: ClientId) -> ServerView {
    if server.clients[id].peer_role == PeerRole::Slave && !server.slaves.contains(id) {
        with_slaves(server, server.slaves.push(id))
    } else {
        server
    }
}

/// The replicas are sent `bytes`.
pub open spec fn told(
    clients: Map<ClientId, ClientView>,
    slaves: Seq<ClientId>,
    bytes: Seq<u8>,
) -> Map<ClientId, ClientView> {
    Map::new(
        |id: ClientId| clients.contains_key(id),
        |id: ClientId|
            if slaves.contains(id) {
                ClientView { outbuf: clients[id].outbuf + bytes, ..clients[id] }
            } else {
                clients[id]
            },
    )
}

/// A request goes on to the replicas, and the replication offset moves past it.
pub open spec fn propagated(server: ServerView, body: RespView) -> ServerView {
    ServerView {
        clients: told(server.clients, server.slaves, resp::encoded(body)),
        info: InfoView {
            master_repl_offset: info::advanced(
                server.info.master_repl_offset,
                resp::encoded(body).len() as usize,
            ),
            ..server.info
        },
        ..server
    }
}

pub open spec fn propagated_all(server: ServerView, bodies: Seq<RespView>) -> ServerView
    decreases bodies.len(),
{
    if bodies.len() == 0 {
        server
    } else {
        propagated_all(propagated(server, bodies[0]), bodies.drop_first())
    }
}

/// A connection was serviced: it is dropped, or what it wrote goes on.
pub open spec fn serviced(
    server: ServerView,
    id: ClientId,
    disposition: Disposition,
    forwards: Seq<RespView>,
) -> ServerView {
    if !server.clients.contains_key(id) {
        server
    } else if disposition == Disposition::Drop {
        dropped(server, id)
    } else {
        propagated_all(attached(server, id), forwards)
    }
}

// ---------------------------------------------------------------
// Housekeeping
// ---------------------------------------------------------------

/// The question for the offset of a replica.
pub open spec fn getack() -> RespView {
    resp::bulk_array(seq![encode_utf8("REPLCONF"@), encode_utf8("GETACK"@), encode_utf8("*"@)])
}

/// The replicas are asked for their offsets, where somebody waits for that. One
/// question moves the offset once, however many replicas it reaches, and not at
/// all where there are none.
pub open spec fn asked_for_acks(server: ServerView) -> ServerView {
    if !server.info.get_ack_from_slaves || server.info.role != ServerRole::Master {
        server
    } else {
        let done = if server.slaves.len() == 0 {
            server
        } else {
            propagated(server, getack())
        };
        ServerView { info: InfoView { get_ack_from_slaves: false, ..done.info }, ..done }
    }
}

/// Clients are sent the replies that they have waited for.
pub open spec fn delivered(
    clients: Map<ClientId, ClientView>,
    replies: Map<ClientId, RespView>,
) -> Map<ClientId, ClientView> {
    Map::new(
        |id: ClientId| clients.contains_key(id),
        |id: ClientId|
            if replies.contains_key(id) {
                ClientView {
                    outbuf: clients[id].outbuf + resp::encoded(replies[id]),
                    ..clients[id]
                }
            } else {
                clients[id]
            },
    )
}

/// The offsets that the replicas have acknowledged.
pub open spec fn acks(clients: Map<ClientId, ClientView>, slaves: Seq<ClientId>) -> Seq<i64>
    decreases slaves.len(),
{
    if slaves.len() == 0 {
        Seq::empty()
    } else {
        let before = acks(clients, slaves.drop_last());
        if clients.contains_key(slaves.last()) {
            before.push(clients[slaves.last()].repl_ack_off)
        } else {
            before
        }
    }
}

/// A client that waits for replicas is settled, if it can be.
pub open spec fn settled(client: ClientView, acks: Seq<i64>, now: Duration) -> ClientView {
    match client.block {
        Some(state) => if client::model::settles(state, acks, now) {
            ClientView {
                block: None,
                outbuf: client.outbuf + resp::encoded(
                    RespView::Integer(
                        client::model::reached(acks, state.repl_offset) as i64,
                    ),
                ),
                ..client
            }
        } else {
            client
        },
        None => client,
    }
}

pub open spec fn all_settled(
    clients: Map<ClientId, ClientView>,
    acks: Seq<i64>,
    now: Duration,
) -> Map<ClientId, ClientView> {
    clients.map_values(|client: ClientView| settled(client, acks, now))
}

/// The time that is left to a client that goes on waiting for replicas.
pub open spec fn time_left(client: ClientView, acks: Seq<i64>, now: Duration) -> Option<Duration> {
    match client.block {
        Some(state) => if client::model::settles(state, acks, now) {
            None
        } else {
            client::model::left(state.deadline, now)
        },
        None => None,
    }
}

/// `nearest` is the least time that is left to any client that goes on waiting.
pub open spec fn nearest_left(
    clients: Map<ClientId, ClientView>,
    acks: Seq<i64>,
    now: Duration,
    nearest: Option<Duration>,
) -> bool {
    &&& forall|id: ClientId| #[trigger]
        clients.contains_key(id) ==> (time_left(clients[id], acks, now) matches Some(left)
            ==> nearest matches Some(least) && least.nanos <= left.nanos)
    &&& nearest matches Some(least) ==> exists|id: ClientId| #[trigger]
        clients.contains_key(id) && time_left(clients[id], acks, now) == Some(least)
}

/// A client whose wait for replicas has no time left, whether or not it is over:
/// there may be something to flush.
pub open spec fn may_flush(client: ClientView, acks: Seq<i64>, now: Duration) -> bool {
    client.block is Some && time_left(client, acks, now) is None
}

} // verus!
