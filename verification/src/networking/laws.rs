//! What holds of a server as a whole.
use vstd::prelude::*;
use crate::client;
use crate::client::{ClientId, Disposition, PeerRole};
use crate::client::model::ClientView;
use crate::networking::info;
use crate::networking::info::InfoView;
use crate::networking::model;
use crate::networking::model::ServerView;
use crate::resp;
use crate::resp::RespView;
use crate::time::Duration;

verus! {

pub proof fn lemma_wire_front(body: RespView, rest: Seq<RespView>)
    ensures
        client::model::wire(seq![body] + rest) == resp::encoded(body) + client::model::wire(rest),
    decreases rest.len(),
{
    let all = seq![body] + rest;
    if rest.len() == 0 {
        assert(all.drop_last() =~= Seq::empty());
        assert(all.last() == body);
        reveal_with_fuel(client::model::wire, 2);
        assert(Seq::<u8>::empty() + resp::encoded(body) =~= resp::encoded(body)
            + client::model::wire(rest));
    } else {
        lemma_wire_front(body, rest.drop_last());
        assert(all.drop_last() =~= seq![body] + rest.drop_last());
        assert(all.last() == rest.last());
        assert(resp::encoded(body) + client::model::wire(rest.drop_last()) + resp::encoded(
            rest.last(),
        ) =~= resp::encoded(body) + client::model::wire(rest));
    }
}

/// Law: every replica is sent the same bytes, the writes in their order, and
/// nobody else is sent any; and the offset moves past them once, however many
/// replicas there are.
pub proof fn law_replicas_get_every_write(
    server: ServerView,
    bodies: Seq<RespView>,
    id: ClientId,
)
    requires
        0 <= server.info.master_repl_offset,
        server.info.master_repl_offset + client::model::wire(bodies).len() <= i64::MAX,
        client::model::wire(bodies).len() <= usize::MAX,
    ensures
        ({
            let after = model::propagated_all(server, bodies);
            let bytes = client::model::wire(bodies);
            &&& after.slaves == server.slaves
            &&& after.db == server.db
            &&& after.clients.contains_key(id) == server.clients.contains_key(id)
            &&& server.clients.contains_key(id) ==> after.clients[id] == (
            if server.slaves.contains(id) {
                ClientView { outbuf: server.clients[id].outbuf + bytes, ..server.clients[id] }
            } else {
                server.clients[id]
            })
            &&& after.info == (InfoView {
                master_repl_offset: (server.info.master_repl_offset + bytes.len()) as i64,
                ..server.info
            })
        }),
    decreases bodies.len(),
{
    if bodies.len() == 0 {
        if server.clients.contains_key(id) {
            assert(server.clients[id].outbuf + Seq::<u8>::empty() =~= server.clients[id].outbuf);
        }
    } else {
        let rest = bodies.drop_first();
        assert(bodies =~= seq![bodies[0]] + rest);
        lemma_wire_front(bodies[0], rest);
        let next = model::propagated(server, bodies[0]);
        let head = resp::encoded(bodies[0]);
        assert(next.info.master_repl_offset == server.info.master_repl_offset + head.len());
        law_replicas_get_every_write(next, rest, id);
        if server.clients.contains_key(id) {
            assert(server.clients[id].outbuf + head + client::model::wire(rest)
                =~= server.clients[id].outbuf + (head + client::model::wire(rest)));
        }
    }
}

/// Law: however many clients wait for replicas, these are asked once: to ask
/// again before anybody else waits changes nothing.
pub proof fn law_acks_are_asked_for_once(server: ServerView)
    ensures
        model::asked_for_acks(model::asked_for_acks(server)) == model::asked_for_acks(server),
        server.slaves.len() == 0 ==> model::asked_for_acks(server).info.master_repl_offset
            == server.info.master_repl_offset,
{
}

/// Law: a client that waits for replicas is answered once. Once it is settled it
/// waits no more, and to settle it again changes nothing.
pub proof fn law_settled_once(client: ClientView, acks: Seq<i64>, now: Duration)
    ensures
        model::settled(model::settled(client, acks, now), acks, now) == model::settled(
            client,
            acks,
            now,
        ),
        client.block matches Some(state) ==> (model::settled(client, acks, now).block is None
            <==> client::model::settles(state, acks, now)),
{
}

/// Law: a connection that is dropped leaves nothing behind: no buffers, nothing
/// that it watched, and no place among the replicas. Other connections and what
/// the keys hold stay as they were.
pub proof fn law_drop_leaves_nothing(
    server: ServerView,
    id: ClientId,
    other: ClientId,
    forwards: Seq<RespView>,
)
    requires
        server.clients.contains_key(id),
        server.slaves.contains(id) ==> server.clients[id].peer_role == PeerRole::Slave,
        other != id,
    ensures
        ({
            let after = model::serviced(server, id, Disposition::Drop, forwards);
            &&& !after.clients.contains_key(id)
            &&& !after.db.watches.contains_key(id)
            &&& !after.slaves.contains(id)
            &&& after.clients.contains_key(other) == server.clients.contains_key(other)
            &&& server.clients.contains_key(other) ==> after.clients[other]
                == server.clients[other]
            &&& after.db.keyspace == server.db.keyspace
            &&& after.db.expires == server.db.expires
        }),
{
    lemma_without(server.slaves, id);
}

proof fn lemma_without(slaves: Seq<ClientId>, id: ClientId)
    ensures
        !model::without(slaves, id).contains(id),
    decreases slaves.len(),
{
    reveal(Seq::filter);
    if slaves.len() > 0 {
        lemma_without(slaves.drop_last(), id);
        let before = slaves.drop_last().filter(model::other_than(id));
        let after = slaves.filter(model::other_than(id));
        if after.contains(id) {
            let j = choose|j: int| 0 <= j < after.len() && after[j] == id;
            if j < before.len() {
                assert(before[j] == id);
            }
        }
    }
}

/// Law: a connection that turns out to be a replica is counted as one, once.
pub proof fn law_replica_is_counted_once(server: ServerView, id: ClientId)
    requires
        server.clients.contains_key(id),
        server.clients[id].peer_role == PeerRole::Slave,
    ensures
        model::attached(server, id).slaves.contains(id),
        model::attached(model::attached(server, id), id) == model::attached(server, id),
{
    if !server.slaves.contains(id) {
        let after = server.slaves.push(id);
        assert(after[server.slaves.len() as int] == id);
    }
}

} // verus!
