//! What a connection sends back, said of the requests that came in.
use vstd::prelude::*;
use vstd::utf8::*;
use crate::client::{BlockingState, ClientId, ClientMode, Disposition, PeerRole};
use crate::client::laws;
use crate::client::model;
use crate::client::model::{ClientView, Step};
use crate::command;
use crate::command::common::ErrorView;
use crate::db::model::DbView;
use crate::networking::info::InfoView;
use crate::resp;
use crate::resp::{ReplyView, RespView};
use crate::text;
use crate::time::Duration;

verus! {

// ---------------------------------------------------------------
// Requests
// ---------------------------------------------------------------

/// What a request outside of a transaction is told at once.
pub open spec fn told_at_once(r: Result<(ReplyView, Option<RespView>), ErrorView>) -> Seq<
    RespView,
> {
    match r {
        Err(e) => seq![RespView::Error(e.text())],
        Ok((ReplyView::Now(body, _), _)) => seq![body],
        Ok((ReplyView::StartTransaction, _)) => seq![RespView::Simple("OK"@)],
        Ok(_) => Seq::empty(),
    }
}

pub open spec fn sent_on(r: Result<(ReplyView, Option<RespView>), ErrorView>) -> Seq<RespView> {
    match r {
        Ok((_, Some(body))) => seq![body],
        _ => Seq::empty(),
    }
}

/// Law: outside of a transaction a client is told what its request is answered, or
/// the text of the error, and nothing where it has to wait; what it wrote goes on; and
/// only MULTI changes the connection.
pub proof fn law_request_is_answered(
    client: ClientView,
    db: DbView,
    frame: RespView,
    server: InfoView,
)
    requires
        client.mode == ClientMode::Normal,
    ensures
        ({
            let (after, r) = command::model::request(
                db,
                frame,
                client.id,
                ClientMode::Normal,
                true,
                server,
            );
            let step = model::run_request(client, db, frame, server);
            &&& step.db == after
            &&& step.replies == told_at_once(r)
            &&& step.forwards == sent_on(r)
            &&& step.client == (ClientView {
                mode: if r matches Ok((ReplyView::StartTransaction, _)) {
                    ClientMode::Transaction
                } else {
                    ClientMode::Normal
                },
                ..client
            })
        }),
{
    reveal(model::run_request);
    let (after, r) = command::model::request(
        db,
        frame,
        client.id,
        ClientMode::Normal,
        true,
        server,
    );
    if let Ok((reply, forward)) = r {
        let (kind, args) = command::model::parsed(frame)->Ok_0;
        let plain = command::model::run_normal(db, kind, args, client.id, true, server).1;
        assert(plain == Ok::<ReplyView, ErrorView>(reply));
        assert(reply is Now || reply is StartTransaction || reply is Blocked);
        assert(Seq::<RespView>::empty() + model::opt_seq(forward) =~= model::opt_seq(forward));
    }
}

/// Law: a request that has arrived whole is taken from the input and run, and the
/// wire form of what it is told is all that goes out for it, in order.
pub proof fn law_answers_go_out(
    client: ClientView,
    db: DbView,
    server: InfoView,
    args: Seq<Seq<u8>>,
    post: Seq<u8>,
)
    requires
        client.peer_role != PeerRole::Master,
        args.len() <= usize::MAX,
        forall|i: int| 0 <= i < args.len() ==> (#[trigger] args[i]).len() <= usize::MAX,
        client.inbuf == resp::encoded(resp::bulk_array(args)) + post,
    ensures
        ({
            let step = model::run_request(
                ClientView { inbuf: post, ..client },
                db,
                resp::bulk_array(args),
                server,
            );
            let next = ClientView {
                outbuf: client.outbuf + model::wire(step.replies),
                ..step.client
            };
            let rest = model::consume(next, step.db, server);
            let all = model::consume(client, db, server);
            &&& all.client == rest.client
            &&& all.db == rest.db
            &&& all.server == rest.server
            &&& all.forwards == step.forwards + rest.forwards
        }),
{
    let wire = resp::encoded(resp::bulk_array(args));
    resp::law_request_roundtrip(args, post);
    assert((wire + post).skip(wire.len() as int) =~= post);
    let taken = ClientView { inbuf: post, ..client };
    model::lemma_request_keeps_input(taken, db, resp::bulk_array(args), server);
    laws::lemma_peer_role_stays(taken, db, resp::bulk_array(args), server);
    model::lemma_consume_shrinks(client, db, server);
    let step = model::run_request(taken, db, resp::bulk_array(args), server);
    let one = model::consume_one(client, db, server, args, wire.len() as int);
    assert(one.client == (ClientView {
        outbuf: client.outbuf + model::wire(step.replies),
        ..step.client
    }) && one.db == step.db && one.server == server && one.forwards == step.forwards) by {
        reveal(model::consume_one);
    }
}

/// Law: answers stand on the wire one after the other.
pub proof fn law_wire_is_in_order(a: Seq<RespView>, body: RespView)
    ensures
        model::wire(Seq::empty()) == Seq::<u8>::empty(),
        model::wire(a.push(body)) == model::wire(a) + resp::encoded(body),
{
    assert(a.push(body).drop_last() =~= a);
}

// ---------------------------------------------------------------
// Transactions
// ---------------------------------------------------------------

/// Law: EXEC of one request is that request, run at once and without waiting.
pub proof fn law_exec_of_one(
    db: DbView,
    frame: RespView,
    client: ClientId,
    server: InfoView,
)
    ensures
        ({
            let (after, r) = command::model::request(
                db,
                frame,
                client,
                ClientMode::Normal,
                false,
                server,
            );
            let run = model::run_queue(db, seq![frame], client, server);
            &&& model::run_queue(db, Seq::empty(), client, server) == (
                db,
                Seq::<RespView>::empty(),
                Seq::<RespView>::empty(),
            )
            &&& run.0 == after
            &&& run.2 == sent_on(r)
            &&& model::may_queue(frame) ==> run.1 == told_at_once(r)
        }),
{
    reveal_with_fuel(model::run_queue, 2);
    assert(seq![frame].drop_first() =~= Seq::empty());
    let r = command::model::request(db, frame, client, ClientMode::Normal, false, server).1;
    let (replies, forwards) = model::queued_outcome(r);
    assert(replies + Seq::<RespView>::empty() =~= replies);
    assert(forwards + Seq::<RespView>::empty() =~= forwards);
    if model::may_queue(frame) {
        let (kind, args) = command::model::parsed(frame)->Ok_0;
        let plain = command::model::run_normal(db, kind, args, client, false, server).1;
        command::laws::law_no_waiting_where_it_is_forbidden(db, kind, args, client, server);
        assert(plain matches Ok(reply) ==> reply is Now);
    }
}

// ---------------------------------------------------------------
// Replication
// ---------------------------------------------------------------

/// Law: a client that waits for replicas waits for the number and the offset that
/// it was told, so long; a replica's offset is noted; and who gets a snapshot is a
/// replica from then on, and is sent the announcement and the snapshot.
pub proof fn law_replies_take_effect(
    client: ClientView,
    db: DbView,
    server: InfoView,
    timeout: Option<Duration>,
    num_replicas: u32,
    repl_offset: i64,
    sync: RespView,
    rdb: RespView,
)
    ensures
        ({
            let quiet = Seq::<RespView>::empty();
            let wait = model::post_process(
                client,
                db,
                ReplyView::BlockedOnAck { timeout, num_replicas, repl_offset },
                server,
            );
            let deadline = (wait.client.block->0).deadline;
            &&& wait == (Step {
                client: ClientView {
                    block: Some(BlockingState { deadline, num_replicas, repl_offset }),
                    ..client
                },
                db,
                replies: quiet,
                forwards: quiet,
            })
            &&& match timeout {
                None => deadline is None,
                Some(t) => db.now.nanos + t.nanos <= u128::MAX ==> deadline == Some(
                    Duration { nanos: (db.now.nanos + t.nanos) as u128 },
                ),
            }
            &&& model::post_process(client, db, ReplyView::AckOffset(repl_offset), server) == (
            Step {
                client: ClientView { repl_ack_off: repl_offset, ..client },
                db,
                replies: quiet,
                forwards: quiet,
            })
            &&& model::post_process(client, db, ReplyView::Rdb(sync, rdb), server) == (Step {
                client: ClientView { peer_role: PeerRole::Slave, ..client },
                db,
                replies: seq![sync, rdb],
                forwards: quiet,
            })
        }),
{
}

/// Law: the tally is the number of replicas that have reached the offset.
pub proof fn law_tally_is_exact(acks: Seq<i64>, offset: i64)
    ensures
        model::reached(acks, offset) == acks.filter(|ack: i64| ack >= offset).len(),
    decreases acks.len(),
{
    reveal(Seq::filter);
    if acks.len() > 0 {
        law_tally_is_exact(acks.drop_last(), offset);
    }
}

/// Law: who waits for replicas is done once enough have caught up or the time is
/// over, and not before.
pub proof fn law_when_a_wait_is_over(state: BlockingState, acks: Seq<i64>, now: Duration)
    ensures
        model::settles(state, acks, now) <==> {
            ||| acks.filter(|ack: i64| ack >= state.repl_offset).len() >= state.num_replicas
            ||| state.deadline is Some && (state.deadline->0).nanos <= now.nanos
        },
{
    law_tally_is_exact(acks, state.repl_offset);
}

/// Law: a connection that cannot be written to is dropped; of the others, that of a
/// replica is marked as one, and any other is kept.
pub proof fn law_dispositions(client: ClientView, flushed: Disposition)
    ensures
        ({
            let d = model::disposition(client.peer_role, flushed);
            &&& flushed == Disposition::Drop ==> d == Disposition::Drop
            &&& flushed == Disposition::Keep ==> d == if client.peer_role == PeerRole::Slave {
                Disposition::PromoteToSlave
            } else {
                Disposition::Keep
            }
        }),
{
}

/// Law: a connection begins in no transaction, with nothing queued, received or
/// to be sent, and with nobody waited for.
pub proof fn law_connections_begin_idle(id: ClientId, peer_role: PeerRole)
    ensures
        ({
            let client = model::fresh(id, peer_role);
            &&& client.id == id && client.peer_role == peer_role
            &&& client.mode == ClientMode::Normal
            &&& client.queue.len() == 0 && client.inbuf.len() == 0 && client.outbuf.len() == 0
            &&& client.repl_ack_off == 0 && client.block is None
        }),
{
}

/// Law: a replica runs what its master sends as any request, and answers only where
/// the second word asks for its offset.
pub proof fn law_replica_runs_what_it_is_sent(
    client: ClientView,
    db: DbView,
    server: InfoView,
    args: Seq<Seq<u8>>,
    consumed: int,
)
    requires
        client.peer_role == PeerRole::Master,
    ensures
        ({
            let step = model::run_request(
                ClientView { inbuf: client.inbuf.skip(consumed), ..client },
                db,
                resp::bulk_array(args),
                server,
            );
            let one = model::consume_one(client, db, server, args, consumed);
            let asked = args.len() >= 2 && text::same_ignoring_case(
                args[1],
                encode_utf8("GETACK"@),
            );
            &&& one.db == step.db
            &&& one.forwards == step.forwards
            &&& one.client == (ClientView {
                outbuf: client.outbuf + if asked {
                    model::wire(step.replies)
                } else {
                    Seq::empty()
                },
                ..step.client
            })
        }),
{
    reveal(model::consume_one);
    let taken = ClientView { inbuf: client.inbuf.skip(consumed), ..client };
    model::lemma_request_keeps_input(taken, db, resp::bulk_array(args), server);
    laws::lemma_peer_role_stays(taken, db, resp::bulk_array(args), server);
    assert(client.outbuf + Seq::<u8>::empty() =~= client.outbuf);
}

} // verus!
