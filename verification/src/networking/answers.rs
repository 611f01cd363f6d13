//! What a server does for its clients and its replicas, event by event.
use vstd::prelude::*;
use vstd::utf8::*;
use crate::cli::Cli;
use crate::client;
use crate::client::{ClientId, Disposition, PeerRole};
use crate::client::model::ClientView;
use crate::command::answers;
use crate::command::answers::Sender;
use crate::command::kind::CommandKind;
use crate::command::session_answers;
use crate::networking::info;
use crate::networking::info::{InfoView, ServerConfig, ServerRole};
use crate::networking::laws;
use crate::networking::model;
use crate::networking::model::ServerView;
use crate::networking::server;
use crate::resp;
use crate::resp::RespView;
use crate::text;
use crate::time::Duration;

verus! {

// ---------------------------------------------------------------
// Replication
// ---------------------------------------------------------------

/// Law: the offset moves by what was sent.
pub proof fn law_offset_moves(offset: i64, count: usize)
    requires
        0 <= offset,
        offset + count <= i64::MAX,
    ensures
        info::advanced(offset, count) == offset + count,
{
}

/// Law: after a client was serviced, INFO shows the offset before and the lengths of
/// the wire forms of what it wrote on top of that, with replicas or without; and the
/// number of replicas there then are.
pub proof fn law_info_after_writes(
    server: ServerView,
    id: ClientId,
    disposition: Disposition,
    bodies: Seq<RespView>,
    args: Seq<Seq<u8>>,
    may_wait: bool,
)
    requires
        server.clients.contains_key(id),
        disposition != Disposition::Drop,
        0 <= server.info.master_repl_offset,
        server.info.master_repl_offset + client::model::wire(bodies).len() <= i64::MAX,
        client::model::wire(bodies).len() <= usize::MAX,
        server.info.connected_slaves == server.slaves.len(),
        server.slaves.len() < u32::MAX,
        args.len() == 1,
    ensures
        ({
            let after = model::serviced(server, id, disposition, bodies);
            let is_new = server.clients[id].peer_role == PeerRole::Slave
                && !server.slaves.contains(id);
            let shown = InfoView {
                master_repl_offset: (server.info.master_repl_offset + client::model::wire(
                    bodies,
                ).len()) as i64,
                connected_slaves: (server.slaves.len() + if is_new {
                    1int
                } else {
                    0
                }) as u32,
                ..server.info
            };
            &&& after.info == shown
            &&& answers::reads(
                answers::run(
                    after.db,
                    CommandKind::Info,
                    args,
                    Sender { id, may_wait, server: after.info },
                ),
                RespView::Bulk(
                    Some(encode_utf8(session_answers::joined(session_answers::figures(shown)))),
                ),
            )
        }),
{
    let with = model::attached(server, id);
    lemma_info_propagated(with, bodies);
    let after = model::serviced(server, id, disposition, bodies);
    session_answers::law_info(
        after.db,
        args,
        Sender { id, may_wait, server: after.info },
    );
}

proof fn lemma_info_propagated(server: ServerView, bodies: Seq<RespView>)
    requires
        0 <= server.info.master_repl_offset,
        server.info.master_repl_offset + client::model::wire(bodies).len() <= i64::MAX,
        client::model::wire(bodies).len() <= usize::MAX,
    ensures
        model::propagated_all(server, bodies).info == (InfoView {
            master_repl_offset: (server.info.master_repl_offset + client::model::wire(
                bodies,
            ).len()) as i64,
            ..server.info
        }),
    decreases bodies.len(),
{
    if bodies.len() > 0 {
        let rest = bodies.drop_first();
        laws::lemma_wire_front(bodies[0], rest);
        assert(seq![bodies[0]] + rest =~= bodies);
        let next = model::propagated(server, bodies[0]);
        lemma_info_propagated(next, rest);
    }
}

/// Law: where somebody waits for replicas and there are some, a master sends each of
/// them the question for its offset, behind what it is sent already; the offset moves
/// past one question; and nobody waits for it any more. A replica asks nobody.
pub proof fn law_replicas_are_asked(server: ServerView, id: ClientId)
    requires
        0 <= server.info.master_repl_offset < i64::MAX - 100,
    ensures
        ({
            let after = model::asked_for_acks(server);
            let question = resp::encoded(
                answers::words(
                    seq![
                        encode_utf8("REPLCONF"@),
                        encode_utf8("GETACK"@),
                        encode_utf8("*"@),
                    ],
                ),
            );
            let asks = server.info.get_ack_from_slaves && server.info.role == ServerRole::Master;
            &&& !asks ==> after == server
            &&& asks ==> !after.info.get_ack_from_slaves
            &&& after.slaves == server.slaves && after.db == server.db
            &&& after.clients.contains_key(id) == server.clients.contains_key(id)
            &&& server.clients.contains_key(id) ==> after.clients[id] == (ClientView {
                outbuf: if asks && server.slaves.contains(id) {
                    server.clients[id].outbuf + question
                } else {
                    server.clients[id].outbuf
                },
                ..server.clients[id]
            })
            &&& question.len() <= 100 ==> after.info.master_repl_offset
                == server.info.master_repl_offset + if asks && server.slaves.len() > 0 {
                question.len()
            } else {
                0
            }
        }),
{
    answers::lemma_words(
        seq![encode_utf8("REPLCONF"@), encode_utf8("GETACK"@), encode_utf8("*"@)],
    );
    if server.slaves.contains(id) {
        assert(server.slaves.len() > 0);
    }
}

/// Law: the offsets that count are those of the replicas that are still there, in
/// the order in which they came.
pub proof fn law_acks_are_of_replicas(
    clients: Map<ClientId, ClientView>,
    slaves: Seq<ClientId>,
    id: ClientId,
)
    ensures
        model::acks(clients, Seq::empty()) == Seq::<i64>::empty(),
        model::acks(clients, slaves.push(id)) == if clients.contains_key(id) {
            model::acks(clients, slaves).push(clients[id].repl_ack_off)
        } else {
            model::acks(clients, slaves)
        },
{
    assert(slaves.push(id).drop_last() =~= slaves);
}

/// Law: a client that waits for replicas is told how many have caught up, once enough
/// have or its time is over, and waits no more; until then nothing happens to it, and
/// its time left is what is missing to its deadline. Who does not wait is left alone.
pub proof fn law_wait_is_answered(client: ClientView, acks: Seq<i64>, now: Duration)
    ensures
        match client.block {
            None => model::settled(client, acks, now) == client && model::time_left(
                client,
                acks,
                now,
            ) is None,
            Some(state) => {
                let count = acks.filter(|ack: i64| ack >= state.repl_offset).len();
                let done = count >= state.num_replicas || (state.deadline is Some && (
                state.deadline->0).nanos <= now.nanos);
                &&& done ==> model::settled(client, acks, now) == (ClientView {
                    block: None,
                    outbuf: client.outbuf + resp::encoded(RespView::Integer(count as i64)),
                    ..client
                })
                &&& !done ==> model::settled(client, acks, now) == client
                &&& model::time_left(client, acks, now) == if done || state.deadline is None {
                    None::<Duration>
                } else {
                    Some(
                        Duration { nanos: ((state.deadline->0).nanos - now.nanos) as u128 },
                    )
                }
            },
        },
{
    if let Some(state) = client.block {
        client::answers::law_tally_is_exact(acks, state.repl_offset);
    }
}

// ---------------------------------------------------------------
// Clients
// ---------------------------------------------------------------

/// Law: a reply that a client has waited for goes out behind what it is sent
/// already, and to nobody else.
pub proof fn law_replies_are_delivered(
    clients: Map<ClientId, ClientView>,
    replies: Map<ClientId, RespView>,
    id: ClientId,
)
    ensures
        ({
            let after = model::delivered(clients, replies);
            &&& after.contains_key(id) == clients.contains_key(id)
            &&& clients.contains_key(id) ==> after[id] == (ClientView {
                outbuf: clients[id].outbuf + if replies.contains_key(id) {
                    resp::encoded(replies[id])
                } else {
                    Seq::empty()
                },
                ..clients[id]
            })
        }),
{
    if clients.contains_key(id) {
        assert(clients[id].outbuf + Seq::<u8>::empty() =~= clients[id].outbuf);
    }
}

/// Law: a client that was serviced and is not dropped stays, with all that it has
/// but what it is sent as a replica; and what the keys hold is not touched.
pub proof fn law_service_keeps_clients(
    server: ServerView,
    id: ClientId,
    disposition: Disposition,
    bodies: Seq<RespView>,
    other: ClientId,
)
    requires
        disposition != Disposition::Drop,
    ensures
        ({
            let after = model::serviced(server, id, disposition, bodies);
            let is_new = server.clients.contains_key(id) && server.clients[id].peer_role
                == PeerRole::Slave && !server.slaves.contains(id);
            &&& after.db == server.db
            &&& after.master == server.master
            &&& after.last_id == server.last_id
            &&& after.slaves == if is_new {
                server.slaves.push(id)
            } else {
                server.slaves
            }
            &&& after.clients.contains_key(other) == server.clients.contains_key(other)
            &&& server.clients.contains_key(other) ==> after.clients[other] == (ClientView {
                outbuf: after.clients[other].outbuf,
                ..server.clients[other]
            })
        }),
{
    if server.clients.contains_key(id) {
        lemma_propagated_keeps(model::attached(server, id), bodies, other);
    }
}

proof fn lemma_propagated_keeps(server: ServerView, bodies: Seq<RespView>, other: ClientId)
    ensures
        ({
            let after = model::propagated_all(server, bodies);
            &&& after.db == server.db
            &&& after.master == server.master
            &&& after.last_id == server.last_id
            &&& after.slaves == server.slaves
            &&& after.clients.contains_key(other) == server.clients.contains_key(other)
            &&& server.clients.contains_key(other) ==> after.clients[other] == (ClientView {
                outbuf: after.clients[other].outbuf,
                ..server.clients[other]
            })
        }),
    decreases bodies.len(),
{
    if bodies.len() > 0 {
        lemma_propagated_keeps(
            model::propagated(server, bodies[0]),
            bodies.drop_first(),
            other,
        );
    }
}

/// Law: a replica that hangs up is no longer counted, and every other is.
pub proof fn law_dropped_replica_is_not_counted(
    server: ServerView,
    id: ClientId,
    forwards: Seq<RespView>,
)
    requires
        server.clients.contains_key(id),
        server.clients[id].peer_role == PeerRole::Slave,
        server.slaves.contains(id),
        server.slaves.no_duplicates(),
        server.slaves.len() <= u32::MAX,
    ensures
        model::serviced(server, id, Disposition::Drop, forwards).info.connected_slaves
            == server.slaves.len() - 1,
{
    lemma_one_less(server.slaves, id);
}

proof fn lemma_one_less(slaves: Seq<ClientId>, id: ClientId)
    requires
        slaves.no_duplicates(),
    ensures
        model::without(slaves, id).len() == slaves.len() - if slaves.contains(id) {
            1int
        } else {
            0
        },
    decreases slaves.len(),
{
    reveal(Seq::filter);
    if slaves.len() > 0 {
        let front = slaves.drop_last();
        lemma_one_less(front, id);
        assert(front.push(slaves.last()) =~= slaves);
        if front.contains(id) {
            let i = choose|i: int| 0 <= i < front.len() && front[i] == id;
            assert(slaves[i] == id);
            assert(slaves.last() != id);
        } else if slaves.contains(id) {
            let i = choose|i: int| 0 <= i < slaves.len() && slaves[i] == id;
            if i < front.len() {
                assert(front[i] == id);
            }
        } else {
            assert(slaves.contains(slaves[slaves.len() - 1]));
        }
    }
}

// ---------------------------------------------------------------
// Settings
// ---------------------------------------------------------------

/// Law: ten times a second a quarter of the time may go into sweeping, twenty keys
/// at a time, as long as a quarter of what was looked for is found.
pub proof fn law_settings()
    ensures
        ({
            let config = ServerConfig::spec_init();
            &&& config.active_expire_enabled
            &&& (1000u32 / config.hz) / 4 == 25
            &&& config.active_expire_keys_per_round == 20
            &&& config.active_expire_percent == 25
            &&& config.client_timeout_s == 300
            &&& config.client_timeout_check_hz == 10
        }),
{
}

/// Law: a server that was told a master is its replica and knows where it listens;
/// any other is a master. Either begins without replicas, at the start of its history.
pub proof fn law_servers_begin(cli: Cli, master: Option<(Seq<char>, u16)>)
    ensures
        ({
            let info = server::first_info(cli, master);
            &&& info.connected_slaves == 0
            &&& info.master_repl_offset == 0
            &&& !info.get_ack_from_slaves
            &&& info.master_replid == "8371b4fb1155b71f4a04d3e1bc3e18c4a990aeeb"@
            &&& info.dir == cli.spec_dir()
            &&& info.dbfilename == cli.spec_dbfilename()
            &&& match master {
                None => info.role == ServerRole::Master && info.replica_of is None,
                Some((host, port)) => info.role == ServerRole::Slave && info.replica_of == Some(
                    host + ":"@ + text::ascii_chars(text::decimal(port as nat)),
                ),
            }
        }),
{
}

} // verus!
