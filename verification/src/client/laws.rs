//! What holds of a connection as a whole.
use vstd::prelude::*;
use crate::client;
use crate::client::{ClientId, ClientMode, Disposition, FlushStep, PeerRole, WriteEvent};
use crate::client::model;
use crate::client::model::{ClientView, Consumed, Step};
use crate::command;
use crate::command::kind::CommandKind;
use crate::db::model::DbView;
use crate::networking::info::{InfoView, ServerRole};
use crate::resp;
use crate::resp::RespView;

verus! {

// ---------------------------------------------------------------
// Pipelining
// ---------------------------------------------------------------

/// `client` with more input.
pub open spec fn fed(client: ClientView, data: Seq<u8>) -> ClientView {
    ClientView { inbuf: client.inbuf + data, ..client }
}

/// Two connections that differ in nothing but what follows in their input are
/// treated alike.
proof fn lemma_consume_one_fed(
    client: ClientView,
    db: DbView,
    server: InfoView,
    more: Seq<u8>,
    args: Seq<Seq<u8>>,
    consumed: int,
)
    requires
        0 <= consumed <= client.inbuf.len(),
    ensures
        ({
            let one = model::consume_one(client, db, server, args, consumed);
            model::consume_one(fed(client, more), db, server, args, consumed) == (Consumed {
                client: fed(one.client, more),
                ..one
            })
        }),
{
    reveal(model::consume_one);
    reveal(model::run_request);
    let a = ClientView { inbuf: client.inbuf.skip(consumed), ..client };
    let b = ClientView { inbuf: fed(client, more).inbuf.skip(consumed), ..fed(client, more) };
    assert(b =~= fed(a, more)) by {
        assert((client.inbuf + more).skip(consumed) =~= client.inbuf.skip(consumed) + more);
    }
}

/// Law: it makes no difference in what pieces the input arrives. What was
/// received in two parts is answered as what was received at once.
pub proof fn law_input_in_pieces(
    client: ClientView,
    db: DbView,
    server: InfoView,
    more: Seq<u8>,
)
    ensures
        ({
            let first = model::consume(client, db, server);
            let second = model::consume(fed(first.client, more), first.db, first.server);
            model::consume(fed(client, more), db, server) == (Consumed {
                forwards: first.forwards + second.forwards,
                ..second
            })
        }),
    decreases client.inbuf.len(),
{
    match resp::parse_frame(client.inbuf) {
        None => {
            let whole = model::consume(fed(client, more), db, server);
            assert(Seq::<RespView>::empty() + whole.forwards =~= whole.forwards);
        },
        Some((args, consumed)) => {
            resp::law_parse_ignores_what_follows(client.inbuf, more);
            model::lemma_consume_shrinks(client, db, server);
            lemma_consume_one_fed(client, db, server, more, args, consumed);
            let one = model::consume_one(client, db, server, args, consumed);
            law_input_in_pieces(one.client, one.db, one.server, more);
            let rest = model::consume(one.client, one.db, one.server);
            let second = model::consume(fed(rest.client, more), rest.db, rest.server);
            assert(one.forwards + (rest.forwards + second.forwards) =~= one.forwards
                + rest.forwards + second.forwards);
        },
    }
}

/// Law: replies are only ever added to the output, behind what waits there.
pub proof fn law_output_only_grows(client: ClientView, db: DbView, server: InfoView)
    ensures
        client.outbuf.is_prefix_of(model::consume(client, db, server).client.outbuf),
    decreases client.inbuf.len(),
{
    match resp::parse_frame(client.inbuf) {
        None => {},
        Some((args, consumed)) => {
            model::lemma_consume_shrinks(client, db, server);
            let one = model::consume_one(client, db, server, args, consumed);
            let taken = ClientView { inbuf: client.inbuf.skip(consumed), ..client };
            model::lemma_request_keeps_input(taken, db, resp::bulk_array(args), server);
            assert(client.outbuf.is_prefix_of(one.client.outbuf)) by {
                reveal(model::consume_one);
            }
            law_output_only_grows(one.client, one.db, one.server);
        },
    }
}

// ---------------------------------------------------------------
// Transactions
// ---------------------------------------------------------------

/// Law: EXEC runs the queue in the order in which it was filled. To run two
/// parts of a queue one after the other is to run the whole: the second part
/// finds the database as the first has left it, and its replies and its writes
/// stand behind those of the first.
pub proof fn law_exec_runs_in_order(
    db: DbView,
    first: Seq<RespView>,
    second: Seq<RespView>,
    client: ClientId,
    server: InfoView,
)
    ensures
        ({
            let (middle, replies, forwards) = model::run_queue(db, first, client, server);
            let (after, more, further) = model::run_queue(middle, second, client, server);
            model::run_queue(db, first + second, client, server) == (
                after,
                replies + more,
                forwards + further,
            )
        }),
    decreases first.len(),
{
    if first.len() == 0 {
        assert(first + second =~= second);
        let (after, more, further) = model::run_queue(db, second, client, server);
        assert(Seq::<RespView>::empty() + more =~= more);
        assert(Seq::<RespView>::empty() + further =~= further);
    } else {
        let (next, r) = command::model::request(
            db,
            first[0],
            client,
            ClientMode::Normal,
            false,
            server,
        );
        let (a, b) = model::queued_outcome(r);
        let rest = first.drop_first();
        law_exec_runs_in_order(next, rest, second, client, server);
        assert((first + second)[0] == first[0]);
        assert((first + second).drop_first() =~= rest + second);
        let (middle, replies, forwards) = model::run_queue(next, rest, client, server);
        let (after, more, further) = model::run_queue(middle, second, client, server);
        assert(a + (replies + more) =~= a + replies + more);
        assert(b + (forwards + further) =~= b + forwards + further);
    }
}

/// Law: EXEC answers with one reply for each request that was queued.
pub proof fn law_exec_has_one_reply_each(
    db: DbView,
    queue: Seq<RespView>,
    client: ClientId,
    server: InfoView,
)
    requires
        forall|i: int| 0 <= i < queue.len() ==> model::may_queue(#[trigger] queue[i]),
    ensures
        model::run_queue(db, queue, client, server).1.len() == queue.len(),
    decreases queue.len(),
{
    if queue.len() > 0 {
        client::lemma_queued_replies(db, queue[0], client, server);
        let (next, r) = command::model::request(
            db,
            queue[0],
            client,
            ClientMode::Normal,
            false,
            server,
        );
        let rest = queue.drop_first();
        assert forall|i: int| 0 <= i < rest.len() implies model::may_queue(#[trigger] rest[i]) by {
            assert(queue[i + 1] == rest[i]);
        }
        law_exec_has_one_reply_each(next, rest, client, server);
    }
}

/// Law: no request inside of EXEC makes the client wait, even one that would
/// have done so outside.
pub proof fn law_exec_makes_nobody_wait(
    db: DbView,
    queue: Seq<RespView>,
    client: ClientId,
    server: InfoView,
)
    ensures
        model::run_queue(db, queue, client, server).0.list_waiters == db.list_waiters,
        model::run_queue(db, queue, client, server).0.stream_waiters == db.stream_waiters,
    decreases queue.len(),
{
    if queue.len() > 0 {
        let (next, r) = command::model::request(
            db,
            queue[0],
            client,
            ClientMode::Normal,
            false,
            server,
        );
        if let Ok((kind, args)) = command::model::parsed(queue[0]) {
            command::laws::law_no_waiting_where_it_is_forbidden(db, kind, args, client, server);
        }
        law_exec_makes_nobody_wait(next, queue.drop_first(), client, server);
    }
}

/// Law: EXEC runs nothing once a watched key was touched. The client gets a null
/// array, the queue is dropped, and the database is as it was, but that nothing
/// is watched any more.
pub proof fn law_dirty_exec_is_refused(
    client: ClientView,
    db: DbView,
    frame: RespView,
    server: InfoView,
)
    requires
        client.mode == ClientMode::Transaction,
        db.is_dirty(client.id),
        command::model::parsed(frame) matches Ok((CommandKind::Exec, _)),
    ensures
        model::run_request(client, db, frame, server) == (Step {
            client: ClientView { mode: ClientMode::Normal, queue: Seq::empty(), ..client },
            db: db.unwatched(client.id),
            replies: seq![RespView::Array(None)],
            forwards: Seq::empty(),
        }),
{
    reveal(model::run_request);
    assert(Seq::<RespView>::empty() + model::opt_seq::<RespView>(None) =~= Seq::empty());
}

/// Law: EXEC runs the whole queue where no watched key was touched, and leaves
/// the connection as MULTI found it.
pub proof fn law_clean_exec_runs_the_queue(
    client: ClientView,
    db: DbView,
    frame: RespView,
    server: InfoView,
)
    requires
        client.mode == ClientMode::Transaction,
        !db.is_dirty(client.id),
        command::model::parsed(frame) matches Ok((CommandKind::Exec, _)),
    ensures
        ({
            let run = model::run_queue(
                db.unwatched(client.id),
                client.queue,
                client.id,
                server,
            );
            model::run_request(client, db, frame, server) == (Step {
                client: ClientView { mode: ClientMode::Normal, queue: Seq::empty(), ..client },
                db: run.0,
                replies: seq![RespView::Array(Some(run.1))],
                forwards: run.2,
            })
        }),
{
    reveal(model::run_request);
    let run = model::run_queue(db.unwatched(client.id), client.queue, client.id, server);
    assert(run.2 + model::opt_seq::<RespView>(None) =~= run.2);
}

/// Law: a request that is queued is answered so, changes nothing, and goes to the
/// end of the queue as it came.
pub proof fn law_queued_request_waits(
    client: ClientView,
    db: DbView,
    args: Seq<Seq<u8>>,
    server: InfoView,
)
    requires
        client.mode == ClientMode::Transaction,
        model::may_queue(resp::bulk_array(args)),
    ensures
        model::run_request(client, db, resp::bulk_array(args), server) == (Step {
            client: ClientView { queue: client.queue.push(resp::bulk_array(args)), ..client },
            db,
            replies: seq![RespView::Simple("QUEUED"@)],
            forwards: Seq::empty(),
        }),
{
    reveal(model::run_request);
    resp::lemma_request_args_of_bulk_array(args);
    assert(Seq::<RespView>::empty() + model::opt_seq::<RespView>(None) =~= Seq::empty());
}

/// Law: DISCARD drops the queue and what was watched, and nothing else.
pub proof fn law_discard_runs_nothing(
    client: ClientView,
    db: DbView,
    frame: RespView,
    server: InfoView,
)
    requires
        client.mode == ClientMode::Transaction,
        command::model::parsed(frame) matches Ok((CommandKind::Discard, _)),
    ensures
        model::run_request(client, db, frame, server) == (Step {
            client: ClientView { mode: ClientMode::Normal, queue: Seq::empty(), ..client },
            db: db.unwatched(client.id),
            replies: seq![command::model::ok_body()],
            forwards: Seq::empty(),
        }),
{
    reveal(model::run_request);
    assert(Seq::<RespView>::empty() + model::opt_seq::<RespView>(None) =~= Seq::empty());
}

// ---------------------------------------------------------------
// Replicas
// ---------------------------------------------------------------

pub proof fn lemma_peer_role_stays(
    client: ClientView,
    db: DbView,
    frame: RespView,
    server: InfoView,
)
    ensures
        model::run_request(client, db, frame, server).client.peer_role == client.peer_role,
{
    reveal(model::run_request);
    if let Ok((kind, args)) = command::model::parsed(frame) {
        let normal = command::model::run_normal(db, kind, args, client.id, true, server).1;
        assert(normal matches Ok(reply) ==> !(reply is Rdb));
        let queueing = command::model::run_queueing(db, kind, args, client.id, server).1;
        assert(queueing matches Ok(reply) ==> !(reply is Rdb));
    }
}

/// Law: a replica counts every byte that its master has sent and that it has
/// run, and no others.
pub proof fn law_replica_counts_what_it_runs(client: ClientView, db: DbView, server: InfoView)
    requires
        client.peer_role == PeerRole::Master,
        server.role == ServerRole::Slave,
        0 <= server.master_repl_offset,
        server.master_repl_offset + client.inbuf.len() <= i64::MAX,
        client.inbuf.len() <= usize::MAX,
    ensures
        ({
            let after = model::consume(client, db, server);
            &&& after.client.inbuf.len() <= client.inbuf.len()
            &&& after.server.master_repl_offset == server.master_repl_offset + (
            client.inbuf.len() - after.client.inbuf.len())
        }),
    decreases client.inbuf.len(),
{
    match resp::parse_frame(client.inbuf) {
        None => {},
        Some((args, consumed)) => {
            model::lemma_consume_shrinks(client, db, server);
            let one = model::consume_one(client, db, server, args, consumed);
            let taken = ClientView { inbuf: client.inbuf.skip(consumed), ..client };
            model::lemma_request_keeps_input(taken, db, resp::bulk_array(args), server);
            lemma_peer_role_stays(taken, db, resp::bulk_array(args), server);
            assert(one.client.peer_role == PeerRole::Master && one.server.role
                == ServerRole::Slave && one.server.master_repl_offset == server.master_repl_offset
                + consumed) by {
                reveal(model::consume_one);
            }
            law_replica_counts_what_it_runs(one.client, one.db, one.server);
        },
    }
}

/// Law: a replica says nothing to its master but in answer to a question for its
/// offset.
pub proof fn law_replica_is_silent(
    client: ClientView,
    db: DbView,
    server: InfoView,
    args: Seq<Seq<u8>>,
    consumed: int,
)
    requires
        client.peer_role == PeerRole::Master,
        !model::is_getack(args),
    ensures
        model::consume_one(client, db, server, args, consumed).client.outbuf == client.outbuf,
{
    reveal(model::consume_one);
    let taken = ClientView { inbuf: client.inbuf.skip(consumed), ..client };
    model::lemma_request_keeps_input(taken, db, resp::bulk_array(args), server);
    lemma_peer_role_stays(taken, db, resp::bulk_array(args), server);
}

// ---------------------------------------------------------------
// Waiting for replicas
// ---------------------------------------------------------------

/// Law: the tally counts the acknowledgements that have reached the offset; it
/// never exceeds the number of replicas, and an acknowledgement that moves
/// forward never lowers it.
pub proof fn law_tally(acks: Seq<i64>, later: Seq<i64>, offset: i64)
    requires
        acks.len() == later.len(),
        forall|i: int| 0 <= i < acks.len() ==> #[trigger] acks[i] <= #[trigger] later[i],
    ensures
        model::reached(acks, offset) <= acks.len(),
        model::reached(acks, offset) <= model::reached(later, offset),
        (forall|i: int| 0 <= i < acks.len() ==> #[trigger] acks[i] >= offset) ==> model::reached(
            acks,
            offset,
        ) == acks.len(),
    decreases acks.len(),
{
    if acks.len() > 0 {
        let a = acks.drop_last();
        let b = later.drop_last();
        assert forall|i: int| 0 <= i < a.len() implies #[trigger] a[i] <= #[trigger] b[i] by {
            assert(acks[i] <= later[i]);
        }
        law_tally(a, b, offset);
        assert(acks[acks.len() - 1] <= later[acks.len() - 1]);
        if forall|i: int| 0 <= i < acks.len() ==> #[trigger] acks[i] >= offset {
            assert forall|i: int| 0 <= i < a.len() implies #[trigger] a[i] >= offset by {
                assert(acks[i] >= offset);
            }
            assert(acks[acks.len() - 1] >= offset);
        }
    }
}

// ---------------------------------------------------------------
// Flushing
// ---------------------------------------------------------------

/// Law: a flush loses nothing and repeats nothing. What has gone out and what is
/// left make up the output as it was, and as long as the flush goes on, or where
/// it has failed, the output stays whole.
pub proof fn law_flush_keeps_the_unsent(
    outbuf: Seq<u8>,
    sent: int,
    event: WriteEvent,
    after: Seq<u8>,
    sent_after: int,
    step: FlushStep,
)
    requires
        0 <= sent < outbuf.len(),
        event matches WriteEvent::Wrote(n) ==> sent + n <= outbuf.len(),
        model::flushed(outbuf, sent, event, after, sent_after, step),
    ensures
        step == FlushStep::Done(Disposition::Keep) ==> outbuf.take(sent_after) + after == outbuf,
        step != FlushStep::Done(Disposition::Keep) ==> after == outbuf,
        sent <= sent_after <= outbuf.len(),
{
    if step == FlushStep::Done(Disposition::Keep) {
        assert(outbuf.take(sent_after) + after =~= outbuf);
    }
}

/// Law: a flush goes on while there is something left to write and writing does not
/// fail, an interruption included; it ends for now where the peer takes no more; and a
/// write that fails, or that takes nothing, ends the connection.
pub proof fn law_when_a_flush_ends(
    outbuf: Seq<u8>,
    sent: int,
    event: WriteEvent,
    after: Seq<u8>,
    sent_after: int,
    step: FlushStep,
)
    requires
        0 <= sent < outbuf.len(),
        event matches WriteEvent::Wrote(n) ==> sent + n <= outbuf.len(),
        model::flushed(outbuf, sent, event, after, sent_after, step),
    ensures
        sent_after == sent + match event {
            WriteEvent::Wrote(n) => n as int,
            _ => 0,
        },
        step == match event {
            WriteEvent::Wrote(n) => if n == 0 {
                FlushStep::Done(Disposition::Drop)
            } else if sent + n == outbuf.len() {
                FlushStep::Done(Disposition::Keep)
            } else {
                FlushStep::Continue
            },
            WriteEvent::Interrupted => FlushStep::Continue,
            WriteEvent::WouldBlock => FlushStep::Done(Disposition::Keep),
            WriteEvent::Failed => FlushStep::Done(Disposition::Drop),
        },
{
}

} // verus!
