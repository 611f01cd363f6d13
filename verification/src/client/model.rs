//! A connection as a mathematical value, and what each event makes of it.
use vstd::prelude::*;
use vstd::utf8::*;
use crate::client::{
    BlockingState, ClientId, ClientMode, Disposition, FlushStep, PeerRole, WriteEvent,
};
use crate::command;
use crate::command::common::ErrorView;
use crate::db::model;
use crate::db::model::DbView;
use crate::networking::info;
use crate::networking::info::{InfoView, ServerRole};
use crate::resp;
use crate::resp::{ReplyView, RespView};
use crate::text;
use crate::time::Duration;

verus! {

/// The state of a connection.
#[verifier::ext_equal]
pub struct ClientView {
    pub id: ClientId,
    pub mode: ClientMode,
    pub peer_role: PeerRole,
    /// The requests that wait for EXEC, the oldest first.
    pub queue: Seq<RespView>,
    /// What came in and is no whole request yet.
    pub inbuf: Seq<u8>,
    /// What waits to go out.
    pub outbuf: Seq<u8>,
    pub repl_ack_off: i64,
    pub block: Option<BlockingState>,
}

pub open spec fn fresh(id: ClientId, peer_role: PeerRole) -> ClientView {
    ClientView {
        id,
        mode: ClientMode::Normal,
        peer_role,
        queue: Seq::empty(),
        inbuf: Seq::empty(),
        outbuf: Seq::empty(),
        repl_ack_off: 0,
        block: None,
    }
}

/// What a request led to: the connection and the database after it, the replies
/// to this client, and the writes that go on to the replicas.
#[verifier::ext_equal]
pub struct Step {
    pub client: ClientView,
    pub db: DbView,
    pub replies: Seq<RespView>,
    pub forwards: Seq<RespView>,
}

pub open spec fn error_body(e: ErrorView) -> RespView {
    RespView::Error(e.text())
}

pub open spec fn opt_seq<T>(item: Option<T>) -> Seq<T> {
    match item {
        Some(x) => seq![x],
        None => Seq::empty(),
    }
}

// ---------------------------------------------------------------
// Transactions
// ---------------------------------------------------------------

/// A request that may wait for EXEC.
pub open spec fn may_queue(frame: RespView) -> bool {
    command::model::parsed(frame) matches Ok((kind, _)) && command::model::is_queued(kind)
}

/// The replies and the forwards of a request that was run inside of EXEC.
pub open spec fn queued_outcome(
    r: Result<(ReplyView, Option<RespView>), ErrorView>,
) -> (Seq<RespView>, Seq<RespView>) {
    match r {
        Err(e) => (seq![error_body(e)], Seq::empty()),
        Ok((ReplyView::Now(body, _), forward)) => (seq![body], opt_seq(forward)),
        Ok((_, forward)) => (Seq::empty(), opt_seq(forward)),
    }
}

/// The queue is run in its order: the database after it, the replies, and the
/// forwards.
pub open spec fn run_queue(
    db: DbView,
    queue: Seq<RespView>,
    client: ClientId,
    server: InfoView,
) -> (DbView, Seq<RespView>, Seq<RespView>)
    decreases queue.len(),
{
    if queue.len() == 0 {
        (db, Seq::empty(), Seq::empty())
    } else {
        let (next, r) = command::model::request(
            db,
            queue[0],
            client,
            ClientMode::Normal,
            false,
            server,
        );
        let (replies, forwards) = queued_outcome(r);
        let (after, more, further) = run_queue(next, queue.drop_first(), client, server);
        (after, replies + more, forwards + further)
    }
}

pub open spec fn exec_transaction(client: ClientView, db: DbView, server: InfoView) -> Step {
    if client.mode != ClientMode::Transaction {
        Step {
            client,
            db,
            replies: seq![error_body(ErrorView::ExecTransaction)],
            forwards: Seq::empty(),
        }
    } else {
        let (after, replies, forwards) = run_queue(
            db.unwatched(client.id),
            client.queue,
            client.id,
            server,
        );
        Step {
            client: ClientView { mode: ClientMode::Normal, queue: Seq::empty(), ..client },
            db: after,
            replies: seq![RespView::Array(Some(replies))],
            forwards,
        }
    }
}

pub open spec fn discard_transaction(
    client: ClientView,
    db: DbView,
    body: Option<RespView>,
) -> Step {
    if client.mode != ClientMode::Transaction {
        Step {
            client,
            db,
            replies: seq![error_body(ErrorView::DiscardTransaction)],
            forwards: Seq::empty(),
        }
    } else {
        Step {
            client: ClientView { mode: ClientMode::Normal, queue: Seq::empty(), ..client },
            db: db.unwatched(client.id),
            replies: seq![
                match body {
                    Some(body) => body,
                    None => command::model::ok_body(),
                },
            ],
            forwards: Seq::empty(),
        }
    }
}

pub open spec fn add_to_transaction(client: ClientView, db: DbView, frame: RespView) -> Step {
    if client.mode != ClientMode::Transaction {
        Step {
            client,
            db,
            replies: seq![error_body(ErrorView::ExecTransaction)],
            forwards: Seq::empty(),
        }
    } else {
        Step {
            client: ClientView { queue: client.queue.push(frame), ..client },
            db,
            replies: seq![RespView::Simple("QUEUED"@)],
            forwards: Seq::empty(),
        }
    }
}

// ---------------------------------------------------------------
// Requests
// ---------------------------------------------------------------

/// A reply takes effect on the connection.
pub open spec fn post_process(
    client: ClientView,
    db: DbView,
    reply: ReplyView,
    server: InfoView,
) -> Step {
    let quiet = Step { client, db, replies: Seq::empty(), forwards: Seq::empty() };
    match reply {
        ReplyView::Now(body, _) => Step { replies: seq![body], ..quiet },
        ReplyView::StartTransaction => Step {
            client: ClientView { mode: ClientMode::Transaction, ..client },
            replies: seq![command::model::ok_body()],
            ..quiet
        },
        ReplyView::AddTransaction(frame) => add_to_transaction(client, db, frame),
        ReplyView::ExecTransaction => exec_transaction(client, db, server),
        ReplyView::DiscardTransaction(body) => discard_transaction(client, db, body),
        ReplyView::Blocked => quiet,
        ReplyView::BlockedOnAck { timeout, num_replicas, repl_offset } => Step {
            client: ClientView {
                block: Some(
                    BlockingState {
                        deadline: model::deadline(db.now, timeout),
                        num_replicas,
                        repl_offset,
                    },
                ),
                ..client
            },
            ..quiet
        },
        ReplyView::AckOffset(offset) => Step {
            client: ClientView { repl_ack_off: offset, ..client },
            ..quiet
        },
        ReplyView::Rdb(sync, rdb) => Step {
            client: ClientView { peer_role: PeerRole::Slave, ..client },
            replies: seq![sync, rdb],
            ..quiet
        },
    }
}

/// One request is run, and its reply takes effect.
#[verifier::opaque]
pub open spec fn run_request(
    client: ClientView,
    db: DbView,
    frame: RespView,
    server: InfoView,
) -> Step {
    let (after, r) = command::model::request(db, frame, client.id, client.mode, true, server);
    match r {
        Err(e) => Step {
            client,
            db: after,
            replies: seq![error_body(e)],
            forwards: Seq::empty(),
        },
        Ok((reply, forward)) => {
            let step = post_process(client, after, reply, server);
            Step { forwards: step.forwards + opt_seq(forward), ..step }
        },
    }
}

/// A master asks this replica for its offset.
pub open spec fn is_getack(args: Seq<Seq<u8>>) -> bool {
    args.len() > 1 && text::same_ignoring_case(args[1], encode_utf8("GETACK"@))
}

/// The wire form of several values.
pub open spec fn wire(bodies: Seq<RespView>) -> Seq<u8>
    decreases bodies.len(),
{
    if bodies.len() == 0 {
        Seq::empty()
    } else {
        wire(bodies.drop_last()) + resp::encoded(bodies.last())
    }
}

/// A connection, the database, and the server, after some requests; and the
/// writes that go on to the replicas.
#[verifier::ext_equal]
pub struct Consumed {
    pub client: ClientView,
    pub db: DbView,
    pub server: InfoView,
    pub forwards: Seq<RespView>,
}

/// The request at the start of the input is taken from it and run. A replica
/// counts the bytes that its master sent, and answers it only when it is asked
/// for its offset.
#[verifier::opaque]
pub open spec fn consume_one(
    client: ClientView,
    db: DbView,
    server: InfoView,
    args: Seq<Seq<u8>>,
    consumed: int,
) -> Consumed {
    let taken = ClientView { inbuf: client.inbuf.skip(consumed), ..client };
    let step = run_request(taken, db, resp::bulk_array(args), server);
    let heard = step.client.peer_role != PeerRole::Master || (client.peer_role == PeerRole::Master
        && is_getack(args));
    Consumed {
        client: ClientView {
            outbuf: if heard {
                step.client.outbuf + wire(step.replies)
            } else {
                step.client.outbuf
            },
            ..step.client
        },
        db: step.db,
        server: if step.client.peer_role == PeerRole::Master && server.role == ServerRole::Slave {
            InfoView {
                master_repl_offset: info::advanced(
                    server.master_repl_offset,
                    consumed as usize,
                ),
                ..server
            }
        } else {
            server
        },
        forwards: step.forwards,
    }
}

/// Every whole request in the input is run, in order.
pub open spec fn consume(client: ClientView, db: DbView, server: InfoView) -> Consumed
    decreases client.inbuf.len(),
{
    match resp::parse_frame(client.inbuf) {
        None => Consumed { client, db, server, forwards: Seq::empty() },
        Some((args, consumed)) => {
            proof {
                lemma_consume_shrinks(client, db, server);
            }
            let one = consume_one(client, db, server, args, consumed);
            let rest = consume(one.client, one.db, one.server);
            Consumed { forwards: one.forwards + rest.forwards, ..rest }
        },
    }
}

/// Running a request leaves the input alone.
pub proof fn lemma_request_keeps_input(
    client: ClientView,
    db: DbView,
    frame: RespView,
    server: InfoView,
)
    ensures
        run_request(client, db, frame, server).client.inbuf == client.inbuf,
        run_request(client, db, frame, server).client.id == client.id,
        run_request(client, db, frame, server).client.outbuf == client.outbuf,
{
    reveal(run_request);
}

pub proof fn lemma_consume_shrinks(client: ClientView, db: DbView, server: InfoView)
    requires
        resp::parse_frame(client.inbuf) is Some,
    ensures
        ({
            let (args, consumed) = resp::parse_frame(client.inbuf)->0;
            let one = consume_one(client, db, server, args, consumed);
            &&& 0 < consumed <= client.inbuf.len()
            &&& one.client.inbuf == client.inbuf.skip(consumed)
            &&& one.client.inbuf.len() < client.inbuf.len()
        }),
{
    resp::law_parse_ignores_what_follows(client.inbuf, Seq::empty());
    let (args, consumed) = resp::parse_frame(client.inbuf)->0;
    let taken = ClientView { inbuf: client.inbuf.skip(consumed), ..client };
    lemma_request_keeps_input(taken, db, resp::bulk_array(args), server);
    reveal(consume_one);
}

/// Requests leave the identity of the connection, and all of the server's but
/// its offset.
pub proof fn lemma_consume_keeps(client: ClientView, db: DbView, server: InfoView)
    ensures
        consume(client, db, server).client.id == client.id,
        consume(client, db, server).server == (InfoView {
            master_repl_offset: consume(client, db, server).server.master_repl_offset,
            ..server
        }),
    decreases client.inbuf.len(),
{
    match resp::parse_frame(client.inbuf) {
        None => {},
        Some((args, consumed)) => {
            lemma_consume_shrinks(client, db, server);
            let taken = ClientView { inbuf: client.inbuf.skip(consumed), ..client };
            lemma_request_keeps_input(taken, db, resp::bulk_array(args), server);
            let one = consume_one(client, db, server, args, consumed);
            assert(one.client.id == client.id && one.server == (InfoView {
                master_repl_offset: one.server.master_repl_offset,
                ..server
            })) by {
                reveal(consume_one);
            }
            lemma_consume_keeps(one.client, one.db, one.server);
        },
    }
}

// ---------------------------------------------------------------
// Reading and writing
// ---------------------------------------------------------------

/// How many of `acks` have reached `offset`.
pub open spec fn reached(acks: Seq<i64>, offset: i64) -> nat
    decreases acks.len(),
{
    if acks.len() == 0 {
        0
    } else {
        reached(acks.drop_last(), offset) + if acks.last() >= offset {
            1nat
        } else {
            0
        }
    }
}

/// The time that is left to a deadline.
pub open spec fn left(deadline: Option<Duration>, now: Duration) -> Option<Duration> {
    match deadline {
        Some(at) => Some(at.minus(now)),
        None => None,
    }
}

/// Whether enough replicas have caught up, or the time is over.
pub open spec fn settles(state: BlockingState, acks: Seq<i64>, now: Duration) -> bool {
    reached(acks, state.repl_offset) >= state.num_replicas || left(state.deadline, now) == Some(
        Duration { nanos: 0 },
    )
}

/// What becomes of a connection once its output was flushed.
pub open spec fn disposition(peer_role: PeerRole, flushed: Disposition) -> Disposition {
    if peer_role == PeerRole::Slave && flushed != Disposition::Drop {
        Disposition::PromoteToSlave
    } else {
        flushed
    }
}

/// A write has returned: what is left of the output, how much of it has gone
/// out, and how the flush goes on. Once it is over, what has gone out leaves the
/// output, and the rest stays; a connection that failed keeps it all.
pub open spec fn flushed(
    outbuf: Seq<u8>,
    sent: int,
    event: WriteEvent,
    after: Seq<u8>,
    sent_after: int,
    step: FlushStep,
) -> bool {
    match event {
        WriteEvent::Wrote(n) => {
            &&& sent_after == sent + n
            &&& n == 0 ==> step == FlushStep::Done(Disposition::Drop) && after == outbuf
            &&& n > 0 && sent_after < outbuf.len() ==> step == FlushStep::Continue && after
                == outbuf
            &&& n > 0 && sent_after == outbuf.len() ==> step == FlushStep::Done(Disposition::Keep)
                && after == Seq::<u8>::empty()
        },
        WriteEvent::Interrupted => {
            sent_after == sent && step == FlushStep::Continue && after == outbuf
        },
        WriteEvent::WouldBlock => {
            &&& sent_after == sent
            &&& step == FlushStep::Done(Disposition::Keep)
            &&& after == outbuf.skip(sent)
        },
        WriteEvent::Failed => {
            sent_after == sent && step == FlushStep::Done(Disposition::Drop) && after == outbuf
        },
    }
}

} // verus!
