//! Connections.
pub mod answers;
pub mod laws;
pub mod model;

use std::collections::VecDeque;
use vstd::prelude::*;
use crate::command;
use crate::command::{ClientInfo, Command, CommandError, ExecuteResult};
use crate::db::Db;
use crate::db::model::DbView;
use crate::db::table::TableKey;
use crate::networking::info::{InfoView, ServerInfo, ServerRole};
use crate::resp;
use crate::resp::{Frame, Reply, ReplyView, RespBody, RespView};
use crate::text;
use crate::time::Duration;
use self::model::{ClientView, Consumed, Step};

verus! {

/// The identity of a connection.
#[derive(Clone, Copy, Debug, PartialEq, Eq, Structural, Hash)]
pub struct ClientId(usize);

impl View for ClientId {
    type V = ClientId;

    open spec fn view(&self) -> ClientId {
        *self
    }
}

impl TableKey for ClientId {
    fn same_key(&self, other: &Self) -> (r: bool) {
        self.0 == other.0
    }
}

impl ClientId {
    pub closed spec fn spec_get(self) -> usize {
        self.0
    }

    pub fn new(id: usize) -> (r: Self)
        ensures
            r.spec_get() == id,
    {
        Self(id)
    }

    pub fn get(&self) -> (r: usize)
        ensures
            r == self.spec_get(),
    {
        self.0
    }

    /// Law: an id is its number, so two connections with one number are the same.
    pub proof fn law_ids_are_numbers(self, other: ClientId)
        ensures
            self == other <==> self.spec_get() == other.spec_get(),
    {
    }
}

/// Whether a connection runs its commands or queues them for EXEC.
#[derive(Debug, PartialEq, Eq, Structural, Clone, Copy)]
pub enum ClientMode {
    Normal,
    Transaction,
}

/// Who is at the other end of a connection.
#[derive(Debug, PartialEq, Eq, Structural, Clone, Copy)]
pub enum PeerRole {
    Normal,
    Master,
    Slave,
}

impl PeerRole {
    pub open spec fn text(self) -> Seq<char> {
        match self {
            PeerRole::Normal => "normal"@,
            PeerRole::Master => "master"@,
            PeerRole::Slave => "slave"@,
        }
    }

    pub fn as_str(self) -> (r: &'static str)
        ensures
            r@ == self.text(),
    {
        match self {
            PeerRole::Normal => "normal",
            PeerRole::Master => "master",
            PeerRole::Slave => "slave",
        }
    }
}

/// What becomes of a connection after it was serviced.
#[derive(Debug, PartialEq, Eq, Structural, Clone, Copy)]
pub enum Disposition {
    Keep,
    Drop,
    PromoteToSlave,
}

/// A client that waits for replicas to catch up.
#[derive(Debug, PartialEq, Eq, Structural, Clone, Copy)]
pub struct BlockingState {
    /// When to give up, on the clock of the database. Never, where it is absent.
    pub deadline: Option<Duration>,
    /// How many replicas are waited for.
    pub num_replicas: u32,
    /// The replication offset that they have to reach.
    pub repl_offset: i64,
}

impl BlockingState {
    pub fn new(deadline: Option<Duration>, num_replicas: u32, repl_offset: i64) -> (r: Self)
        ensures
            r == (BlockingState { deadline, num_replicas, repl_offset }),
    {
        Self { deadline, num_replicas, repl_offset }
    }
}

/// What processing one reply produced: the bodies to send back to this client,
/// and the writes that need to reach the replicas.
struct ReplyOutcome {
    replies: Vec<RespBody>,
    forwards: Vec<RespBody>,
}

/// What came of reading from a connection.
pub enum ReadEvent {
    /// The peer has closed the connection.
    Closed,
    Data(Vec<u8>),
    /// There was nothing to read, or the read was interrupted.
    NotReady,
    Failed,
}

/// What there is to do after a read.
#[derive(Debug, PartialEq, Eq, Structural, Clone, Copy)]
pub enum ReadStep {
    Done(Disposition),
    /// Flush the output, and go by what came of that.
    Flush,
}

/// What came of writing to a connection.
#[derive(Debug, PartialEq, Eq, Structural, Clone, Copy)]
pub enum WriteEvent {
    /// So many bytes went out.
    Wrote(usize),
    Interrupted,
    /// The peer takes no more for now.
    WouldBlock,
    Failed,
}

/// What there is to do after a write.
#[derive(Debug, PartialEq, Eq, Structural, Clone, Copy)]
pub enum FlushStep {
    Continue,
    Done(Disposition),
}

/// A flush in progress.
pub struct Flush {
    written: usize,
}

impl Flush {
    /// How many bytes have gone out.
    pub closed spec fn sent(self) -> int {
        self.written as int
    }
}

/// One connection, without its socket.
pub struct Client {
    id: ClientId,
    mode: ClientMode,
    peer_role: PeerRole,
    queue: VecDeque<RespBody>,
    inbuf: Vec<u8>,
    outbuf: Vec<u8>,
    repl_ack_off: i64,
    block_state: Option<BlockingState>,
}

impl View for Client {
    type V = ClientView;

    closed spec fn view(&self) -> ClientView {
        ClientView {
            id: self.id,
            mode: self.mode,
            peer_role: self.peer_role,
            queue: resp::resp_views(self.queue@),
            inbuf: self.inbuf@,
            outbuf: self.outbuf@,
            repl_ack_off: self.repl_ack_off,
            block: self.block_state,
        }
    }
}

/// Requests wait only while the connection is in a transaction, and each of
/// them is one that may.
pub open spec fn queue_wf(client: ClientView) -> bool {
    &&& client.mode == ClientMode::Normal ==> client.queue.len() == 0
    &&& forall|i: int|
        0 <= i < client.queue.len() ==> model::may_queue(#[trigger] client.queue[i])
}

/// A request that waited for EXEC has one reply, at once.
pub proof fn lemma_queued_replies(db: DbView, frame: RespView, client: ClientId, server: InfoView)
    requires
        model::may_queue(frame),
    ensures
        command::model::request(db, frame, client, ClientMode::Normal, false, server).1 matches Ok(
            (reply, _),
        ) ==> reply is Now,
{
    let (kind, args) = command::model::parsed(frame)->Ok_0;
    let r = command::model::run_normal(db, kind, args, client, false, server).1;
    assert(r matches Ok(reply) ==> reply is Now);
}

impl Client {
    pub open spec fn wf(self) -> bool {
        queue_wf(self@)
    }

    pub fn new(id: ClientId, peer_role: PeerRole) -> (r: Self)
        ensures
            r.wf(),
            r@ == model::fresh(id, peer_role),
    {
        let r = Self {
            id,
            mode: ClientMode::Normal,
            peer_role,
            queue: VecDeque::new(),
            inbuf: Vec::new(),
            outbuf: Vec::new(),
            repl_ack_off: 0,
            block_state: None,
        };
        assert(r@ =~= model::fresh(id, peer_role));
        r
    }

    pub fn id(&self) -> (r: ClientId)
        ensures
            r == self@.id,
    {
        self.id
    }

    pub fn peer_role(&self) -> (r: PeerRole)
        ensures
            r == self@.peer_role,
    {
        self.peer_role
    }

    pub fn repl_ack_off(&self) -> (r: i64)
        ensures
            r == self@.repl_ack_off,
    {
        self.repl_ack_off
    }

    pub fn is_ack_blocked(&self) -> (r: bool)
        ensures
            r == self@.block is Some,
    {
        self.block_state.is_some()
    }

    /// Parks the client until replicas have caught up.
    pub fn block_client(
        &mut self,
        deadline: Option<Duration>,
        repl_offset: i64,
        num_replicas: u32,
    )
        requires
            old(self).wf(),
        ensures
            final(self).wf(),
            final(self)@ == (ClientView {
                block: Some(BlockingState { deadline, num_replicas, repl_offset }),
                ..old(self)@
            }),
    {
        self.block_state = Some(BlockingState::new(deadline, num_replicas, repl_offset));
    }

    /// Settles a parked client against the offsets that the replicas have
    /// acknowledged. Once enough of them have caught up, or the deadline has
    /// passed, the reply is queued and the client is free; until then, the time
    /// that is left to it is returned.
    pub fn settle_ack_block(&mut self, acks: &[i64], now: Duration) -> (r: Option<Duration>)
        requires
            old(self).wf(),
        ensures
            final(self).wf(),
            match old(self)@.block {
                None => r is None && final(self)@ == old(self)@,
                Some(state) => if model::settles(state, acks@, now) {
                    &&& r is None
                    &&& final(self)@ == (ClientView {
                        block: None,
                        outbuf: old(self)@.outbuf + resp::encoded(
                            RespView::Integer(model::reached(acks@, state.repl_offset) as i64),
                        ),
                        ..old(self)@
                    })
                } else {
                    r == model::left(state.deadline, now) && final(self)@ == old(self)@
                },
            },
    {
        let state = match self.block_state {
            Some(state) => state,
            None => {
                return None;
            },
        };
        let mut reached: usize = 0;
        let mut i: usize = 0;
        assert(acks@.take(0) =~= Seq::empty());
        while i < acks.len()
            invariant
                i <= acks@.len(),
                reached <= i,
                reached == model::reached(acks@.take(i as int), state.repl_offset),
            decreases acks@.len() - i,
        {
            proof {
                let next = acks@.take(i + 1);
                assert(next.drop_last() =~= acks@.take(i as int));
                assert(next.last() == acks@[i as int]);
            }
            if acks[i] >= state.repl_offset {
                reached += 1;
            }
            i += 1;
        }
        assert(acks@.take(i as int) =~= acks@);
        let remaining: Option<Duration> = match state.deadline {
            Some(at) => Some(at.saturating_sub(now)),
            None => None,
        };
        let over: bool = match remaining {
            Some(left) => left.as_nanos() == 0,
            None => false,
        };
        if (reached as u128) < (state.num_replicas as u128) && !over {
            return remaining;
        }
        self.block_state = None;
        self.write_out(&RespBody::Integer(reached as i64));
        None
    }

    /// Queues a value for the peer. Returns how many bytes it takes.
    pub fn write_out(&mut self, body: &RespBody) -> (r: usize)
        requires
            old(self).wf(),
        ensures
            final(self).wf(),
            final(self)@ == (ClientView {
                outbuf: old(self)@.outbuf + resp::encoded(body@),
                ..old(self)@
            }),
            r == resp::encoded(body@).len(),
    {
        let before: usize = self.outbuf.len();
        body.encode(&mut self.outbuf);
        self.outbuf.len() - before
    }

    /// Queues bytes for the peer. Returns how many they are.
    pub fn write_out_buffer(&mut self, value: &[u8]) -> (r: usize)
        requires
            old(self).wf(),
        ensures
            final(self).wf(),
            final(self)@ == (ClientView { outbuf: old(self)@.outbuf + value@, ..old(self)@ }),
            r == value@.len(),
    {
        write_out_raw(&mut self.outbuf, value)
    }

    /// Adds to the input what was read ahead of it.
    pub fn push_input(&mut self, data: &[u8])
        requires
            old(self).wf(),
        ensures
            final(self).wf(),
            final(self)@ == (ClientView { inbuf: old(self)@.inbuf + data@, ..old(self)@ }),
    {
        text::push_bytes(&mut self.inbuf, data);
    }

    // ---------------------------------------------------------------
    // Transactions
    // ---------------------------------------------------------------

    fn start_transaction(&mut self) -> (r: RespBody)
        requires
            old(self).wf(),
        ensures
            final(self).wf(),
            final(self)@ == (ClientView { mode: ClientMode::Transaction, ..old(self)@ }),
            r@ == command::model::ok_body(),
    {
        self.mode = ClientMode::Transaction;
        RespBody::new_ok()
    }

    fn add_to_transaction(&mut self, frame: RespBody) -> (r: RespBody)
        requires
            old(self).wf(),
            model::may_queue(frame@),
        ensures
            final(self).wf(),
            forall|db: DbView| #[trigger]
                model::add_to_transaction(old(self)@, db, frame@) == (Step {
                    client: final(self)@,
                    db,
                    replies: seq![r@],
                    forwards: Seq::empty(),
                }),
    {
        if self.mode == ClientMode::Transaction {
            self.queue.push_back(frame);
            assert(self@.queue =~= old(self)@.queue.push(frame@));
            RespBody::new_queued()
        } else {
            RespBody::new_error(&CommandError::ExecTransaction)
        }
    }

    /// Runs every queued request. Returns the array of the replies, and the
    /// writes that need to reach the replicas.
    fn exec_transaction(&mut self, db: &mut Db, server: &ServerInfo) -> (r: (
        RespBody,
        Vec<RespBody>,
    ))
        requires
            old(self).wf(),
            old(db).wf(),
        ensures
            final(self).wf(),
            final(db).wf(),
            model::exec_transaction(old(self)@, old(db)@, server@) == (Step {
                client: final(self)@,
                db: final(db)@,
                replies: seq![r.0@],
                forwards: resp::resp_views(r.1@),
            }),
    {
        let mut forwards: Vec<RespBody> = Vec::new();
        assert(resp::resp_views(forwards@) =~= Seq::empty());
        if self.mode != ClientMode::Transaction {
            return (RespBody::new_error(&CommandError::ExecTransaction), forwards);
        }
        self.mode = ClientMode::Normal;
        db.remove_watcher(self.id);
        let ghost start = db@;
        let ghost queue = resp::resp_views(self.queue@);
        let mut out: Vec<RespBody> = Vec::new();
        proof {
            assert(resp::resp_views(out@) =~= Seq::empty());
            let whole = model::run_queue(start, queue, self.id, server@);
            assert(Seq::<RespView>::empty() + whole.1 =~= whole.1);
            assert(Seq::<RespView>::empty() + whole.2 =~= whole.2);
        }
        loop
            invariant
                db.wf(),
                self@ == (ClientView {
                    mode: ClientMode::Normal,
                    queue: resp::resp_views(self.queue@),
                    ..old(self)@
                }),
                forall|i: int|
                    0 <= i < self.queue@.len() ==> model::may_queue(
                        #[trigger] resp::resp_views(self.queue@)[i],
                    ),
                ({
                    let rest = model::run_queue(
                        db@,
                        resp::resp_views(self.queue@),
                        self.id,
                        server@,
                    );
                    model::run_queue(start, queue, self.id, server@) == (
                        rest.0,
                        resp::resp_views(out@) + rest.1,
                        resp::resp_views(forwards@) + rest.2,
                    )
                }),
            ensures
                self.queue@.len() == 0,
            decreases self.queue@.len(),
        {
            let ghost views = resp::resp_views(self.queue@);
            match self.queue.pop_front() {
                None => {
                    break;
                },
                Some(item) => {
                    let ghost before = db@;
                    let ghost told = resp::resp_views(out@);
                    let ghost sent = resp::resp_views(forwards@);
                    proof {
                        assert(views[0] == item@);
                        assert(views.drop_first() =~= resp::resp_views(self.queue@));
                        assert forall|i: int| 0 <= i < self.queue@.len() implies model::may_queue(
                            #[trigger] resp::resp_views(self.queue@)[i],
                        ) by {
                            assert(resp::resp_views(self.queue@)[i] == views[i + 1]);
                        }
                        lemma_queued_replies(before, item@, self.id, server@);
                    }
                    let ghost r = command::model::request(
                        before,
                        item@,
                        self.id,
                        ClientMode::Normal,
                        false,
                        server@,
                    ).1;
                    match self.process_request(db, item, server, false) {
                        Ok((reply, forward)) => {
                            if let Reply::Now(body, _) = reply {
                                out.push(body);
                                assert(resp::resp_views(out@) =~= told.push(body@));
                            }
                            if let Some(frame) = forward {
                                forwards.push(frame);
                                assert(resp::resp_views(forwards@) =~= sent.push(frame@));
                            }
                        },
                        Err(err) => {
                            out.push(RespBody::new_error(&err));
                            assert(resp::resp_views(out@) =~= told.push(
                                model::error_body(err@),
                            ));
                        },
                    }
                    proof {
                        let one = model::queued_outcome(r);
                        let rest = model::run_queue(
                            db@,
                            resp::resp_views(self.queue@),
                            self.id,
                            server@,
                        );
                        assert(resp::resp_views(out@) =~= told + one.0);
                        assert(resp::resp_views(forwards@) =~= sent + one.1);
                        assert(told + (one.0 + rest.1) =~= told + one.0 + rest.1);
                        assert(sent + (one.1 + rest.2) =~= sent + one.1 + rest.2);
                    }
                },
            }
        }
        proof {
            resp::lemma_array_view(out);
            assert(self@.queue =~= Seq::empty());
            assert(resp::resp_views(out@) + Seq::empty() =~= resp::resp_views(out@));
            assert(resp::resp_views(forwards@) + Seq::empty() =~= resp::resp_views(forwards@));
        }
        (RespBody::Array(Some(out)), forwards)
    }

    fn discard_transaction(&mut self, db: &mut Db, body: Option<RespBody>) -> (r: RespBody)
        requires
            old(self).wf(),
            old(db).wf(),
        ensures
            final(self).wf(),
            final(db).wf(),
            model::discard_transaction(
                old(self)@,
                old(db)@,
                match body {
                    Some(body) => Some(body@),
                    None => None,
                },
            ) == (Step {
                client: final(self)@,
                db: final(db)@,
                replies: seq![r@],
                forwards: Seq::empty(),
            }),
    {
        if self.mode != ClientMode::Transaction {
            return RespBody::new_error(&CommandError::DiscardTransaction);
        }
        self.mode = ClientMode::Normal;
        self.queue.clear();
        assert(self@.queue =~= Seq::empty());
        db.remove_watcher(self.id);
        match body {
            Some(body) => body,
            None => RespBody::new_ok(),
        }
    }

    fn promote_to_slave(&mut self)
        requires
            old(self).wf(),
        ensures
            final(self).wf(),
            final(self)@ == (ClientView { peer_role: PeerRole::Slave, ..old(self)@ }),
    {
        self.peer_role = PeerRole::Slave;
    }

    // ---------------------------------------------------------------
    // Requests
    // ---------------------------------------------------------------

    /// Lets a reply take effect on the connection.
    fn post_process_success_request(&mut self, db: &mut Db, reply: Reply, server: &ServerInfo) -> (r:
        ReplyOutcome)
        requires
            old(self).wf(),
            old(db).wf(),
            reply@ matches ReplyView::AddTransaction(frame) ==> model::may_queue(frame),
        ensures
            final(self).wf(),
            final(db).wf(),
            model::post_process(old(self)@, old(db)@, reply@, server@) == (Step {
                client: final(self)@,
                db: final(db)@,
                replies: resp::resp_views(r.replies@),
                forwards: resp::resp_views(r.forwards@),
            }),
    {
        let mut replies: Vec<RespBody> = Vec::new();
        let mut forwards: Vec<RespBody> = Vec::new();
        assert(resp::resp_views(replies@) =~= Seq::empty());
        assert(resp::resp_views(forwards@) =~= Seq::empty());
        match reply {
            Reply::Now(body, _) => {
                replies.push(body);
                assert(resp::resp_views(replies@) =~= seq![body@]);
            },
            Reply::StartTransaction => {
                let body = self.start_transaction();
                replies.push(body);
                assert(resp::resp_views(replies@) =~= seq![body@]);
            },
            Reply::AddTransaction(frame) => {
                let body = self.add_to_transaction(frame);
                replies.push(body);
                assert(resp::resp_views(replies@) =~= seq![body@]);
            },
            Reply::ExecTransaction => {
                let (body, exec_forwards) = self.exec_transaction(db, server);
                replies.push(body);
                forwards = exec_forwards;
                assert(resp::resp_views(replies@) =~= seq![body@]);
            },
            Reply::DiscardTransaction(body) => {
                let body = self.discard_transaction(db, body);
                replies.push(body);
                assert(resp::resp_views(replies@) =~= seq![body@]);
            },
            Reply::Blocked => {},
            Reply::BlockedOnAck { timeout, num_replicas, repl_offset } => {
                let deadline: Option<Duration> = match timeout {
                    Some(t) => Some(db.realtime_ms().saturating_add(t)),
                    None => None,
                };
                self.block_client(deadline, repl_offset, num_replicas);
            },
            Reply::AckOffset(offset) => {
                self.repl_ack_off = offset;
            },
            Reply::Rdb(sync, rdb) => {
                self.promote_to_slave();
                replies.push(sync);
                replies.push(rdb);
                assert(resp::resp_views(replies@) =~= seq![sync@, rdb@]);
            },
        }
        ReplyOutcome { replies, forwards }
    }

    /// Runs one request, and lets its reply take effect.
    fn run_request(&mut self, db: &mut Db, frame: RespBody, server: &ServerInfo) -> (r:
        ReplyOutcome)
        requires
            old(self).wf(),
            old(db).wf(),
        ensures
            final(self).wf(),
            final(db).wf(),
            model::run_request(old(self)@, old(db)@, frame@, server@) == (Step {
                client: final(self)@,
                db: final(db)@,
                replies: resp::resp_views(r.replies@),
                forwards: resp::resp_views(r.forwards@),
            }),
    {
        proof {
            lemma_added_may_queue(db@, frame@, self.id, self.mode, server@);
            reveal(model::run_request);
        }
        match self.process_request(db, frame, server, true) {
            Ok((reply, forward)) => {
                let mut outcome = self.post_process_success_request(db, reply, server);
                let ghost sent = resp::resp_views(outcome.forwards@);
                if let Some(frame) = forward {
                    outcome.forwards.push(frame);
                    assert(resp::resp_views(outcome.forwards@) =~= sent + seq![frame@]);
                } else {
                    assert(sent + Seq::empty() =~= sent);
                }
                outcome
            },
            Err(err) => {
                let mut replies: Vec<RespBody> = Vec::new();
                let forwards: Vec<RespBody> = Vec::new();
                replies.push(RespBody::new_error(&err));
                assert(resp::resp_views(replies@) =~= seq![model::error_body(err@)]);
                assert(resp::resp_views(forwards@) =~= Seq::empty());
                ReplyOutcome { replies, forwards }
            },
        }
    }

    /// Runs every whole request in the input, and queues the replies. Returns
    /// the writes that need to reach the replicas.
    pub fn consume(&mut self, db: &mut Db, server: &mut ServerInfo) -> (r: Vec<RespBody>)
        requires
            old(self).wf(),
            old(db).wf(),
        ensures
            final(self).wf(),
            final(db).wf(),
            model::consume(old(self)@, old(db)@, old(server)@) == (Consumed {
                client: final(self)@,
                db: final(db)@,
                server: final(server)@,
                forwards: resp::resp_views(r@),
            }),
    {
        let mut out: Vec<RespBody> = Vec::new();
        proof {
            assert(resp::resp_views(out@) =~= Seq::empty());
            let whole = model::consume(self@, db@, server@);
            assert(Seq::<RespView>::empty() + whole.forwards =~= whole.forwards);
        }
        loop
            invariant
                self.wf(),
                db.wf(),
                ({
                    let rest = model::consume(self@, db@, server@);
                    model::consume(old(self)@, old(db)@, old(server)@) == (Consumed {
                        forwards: resp::resp_views(out@) + rest.forwards,
                        ..rest
                    })
                }),
            ensures
                resp::parse_frame(self@.inbuf) is None,
            decreases self@.inbuf.len(),
        {
            let request = match resp::parse_resp(self.inbuf.as_slice()) {
                Some(request) => request,
                None => {
                    break;
                },
            };
            let ghost before = self@;
            let ghost db_before = db@;
            let ghost server_before = server@;
            let ghost sent = resp::resp_views(out@);
            let ghost (args, took) = resp::parse_frame(before.inbuf)->0;
            proof {
                model::lemma_consume_shrinks(before, db_before, server_before);
            }
            let mut forwards = self.consume_frame(db, server, request);
            let ghost more = resp::resp_views(forwards@);
            let ghost out_before = out@;
            out.append(&mut forwards);
            proof {
                assert(resp::resp_views(out@) =~= sent + more);
                let one = model::consume_one(before, db_before, server_before, args, took);
                assert(one == Consumed {
                    client: self@,
                    db: db@,
                    server: server@,
                    forwards: more,
                });
                let rest = model::consume(self@, db@, server@);
                assert(sent + (more + rest.forwards) =~= sent + more + rest.forwards);
            }
        }
        assert(resp::resp_views(out@) + Seq::empty() =~= resp::resp_views(out@));
        out
    }

    /// Takes the request at the start of the input from it, and runs it.
    fn consume_frame(&mut self, db: &mut Db, server: &mut ServerInfo, request: Frame) -> (r: Vec<
        RespBody,
    >)
        requires
            old(self).wf(),
            old(db).wf(),
            resp::parse_frame(old(self)@.inbuf) matches Some((args, took)) && {
                &&& request.spec_body() == resp::bulk_array(args)
                &&& request.spec_consumed() == took
            },
        ensures
            final(self).wf(),
            final(db).wf(),
            ({
                let (args, took) = resp::parse_frame(old(self)@.inbuf)->0;
                model::consume_one(old(self)@, old(db)@, old(server)@, args, took) == (Consumed {
                    client: final(self)@,
                    db: final(db)@,
                    server: final(server)@,
                    forwards: resp::resp_views(r@),
                })
            }),
    {
        let ghost before = self@;
        let ghost (args, took) = resp::parse_frame(before.inbuf)->0;
        let ghost taken = ClientView { inbuf: before.inbuf.skip(took), ..before };
        proof {
            resp::law_parse_ignores_what_follows(before.inbuf, Seq::empty());
            model::lemma_request_keeps_input(taken, db@, resp::bulk_array(args), server@);
            reveal(model::consume_one);
        }
        let consumed: usize = request.consumed();
        self.inbuf = self.inbuf.split_off(consumed);
        assert(self@ =~= taken);
        let body = request.body();
        let was_master: bool = self.peer_role == PeerRole::Master;
        let is_getack: bool = was_master && is_getack_request(&body, Ghost(args));
        let outcome = self.run_request(db, body, &*server);
        if self.peer_role == PeerRole::Master && server.role() == ServerRole::Slave {
            server.incr_repl_offset(consumed);
        }
        if self.peer_role != PeerRole::Master || is_getack {
            self.write_all(&outcome.replies);
        }
        outcome.forwards
    }

    /// Queues several values for the peer.
    fn write_all(&mut self, bodies: &Vec<RespBody>)
        requires
            old(self).wf(),
        ensures
            final(self).wf(),
            final(self)@ == (ClientView {
                outbuf: old(self)@.outbuf + model::wire(resp::resp_views(bodies@)),
                ..old(self)@
            }),
    {
        let ghost views = resp::resp_views(bodies@);
        let mut i: usize = 0;
        assert(views.take(0) =~= Seq::empty());
        assert(self@.outbuf =~= old(self)@.outbuf + model::wire(views.take(0)));
        while i < bodies.len()
            invariant
                i <= bodies@.len(),
                views == resp::resp_views(bodies@),
                self.wf(),
                self@ == (ClientView {
                    outbuf: old(self)@.outbuf + model::wire(views.take(i as int)),
                    ..old(self)@
                }),
            decreases bodies@.len() - i,
        {
            let ghost before = self@.outbuf;
            self.write_out(&bodies[i]);
            proof {
                let next = views.take(i + 1);
                assert(next.drop_last() =~= views.take(i as int));
                assert(next.last() == bodies@[i as int]@);
                assert(self@.outbuf =~= old(self)@.outbuf + model::wire(next));
            }
            i += 1;
        }
        assert(views.take(i as int) =~= views);
    }

    // ---------------------------------------------------------------
    // Reading and writing
    // ---------------------------------------------------------------

    /// The connection was readable. Returns what to do next, and the writes that
    /// need to reach the replicas.
    pub fn on_readable(&mut self, db: &mut Db, server: &mut ServerInfo, event: ReadEvent) -> (r: (
        ReadStep,
        Vec<RespBody>,
    ))
        requires
            old(self).wf(),
            old(db).wf(),
        ensures
            final(self).wf(),
            final(db).wf(),
            match event {
                ReadEvent::Data(data) => {
                    &&& r.0 == ReadStep::Flush
                    &&& model::consume(
                        ClientView { inbuf: old(self)@.inbuf + data@, ..old(self)@ },
                        old(db)@,
                        old(server)@,
                    ) == (Consumed {
                        client: final(self)@,
                        db: final(db)@,
                        server: final(server)@,
                        forwards: resp::resp_views(r.1@),
                    })
                },
                _ => {
                    &&& r.0 == ReadStep::Done(
                        if event is NotReady {
                            Disposition::Keep
                        } else {
                            Disposition::Drop
                        },
                    )
                    &&& final(self)@ == old(self)@
                    &&& final(db)@ == old(db)@
                    &&& final(server)@ == old(server)@
                    &&& r.1@.len() == 0
                },
            },
    {
        match event {
            ReadEvent::Closed => (ReadStep::Done(Disposition::Drop), Vec::new()),
            ReadEvent::Data(data) => {
                self.push_input(data.as_slice());
                let forwards = self.consume(db, server);
                (ReadStep::Flush, forwards)
            },
            ReadEvent::NotReady => (ReadStep::Done(Disposition::Keep), Vec::new()),
            ReadEvent::Failed => (ReadStep::Done(Disposition::Drop), Vec::new()),
        }
    }

    /// What becomes of the connection once its output was flushed.
    pub fn after_flush(&self, flushed: Disposition) -> (r: Disposition)
        ensures
            r == model::disposition(self@.peer_role, flushed),
    {
        if self.peer_role == PeerRole::Slave && flushed != Disposition::Drop {
            Disposition::PromoteToSlave
        } else {
            flushed
        }
    }

    /// Begins to write the output. There is nothing to write where it is done.
    pub fn start_flush(&self) -> (r: (Flush, FlushStep))
        ensures
            r.0.sent() == 0,
            r.1 == (if self@.outbuf.len() == 0 {
                FlushStep::Done(Disposition::Keep)
            } else {
                FlushStep::Continue
            }),
    {
        if self.outbuf.len() == 0 {
            (Flush { written: 0 }, FlushStep::Done(Disposition::Keep))
        } else {
            (Flush { written: 0 }, FlushStep::Continue)
        }
    }

    /// The bytes to write next.
    pub fn unsent(&self, flush: &Flush) -> (r: &[u8])
        requires
            flush.sent() <= self@.outbuf.len(),
        ensures
            r@ == self@.outbuf.skip(flush.sent()),
    {
        let r = vstd::slice::slice_subrange(
            self.outbuf.as_slice(),
            flush.written,
            self.outbuf.len(),
        );
        assert(r@ =~= self@.outbuf.skip(flush.sent()));
        r
    }

    /// A write has returned. Once the flush is over, what has gone out leaves the
    /// output, and the rest stays; a connection that failed keeps it all.
    pub fn flush_step(&mut self, flush: &mut Flush, event: WriteEvent) -> (r: FlushStep)
        requires
            old(self).wf(),
            old(flush).sent() < old(self)@.outbuf.len(),
            event matches WriteEvent::Wrote(n) ==> old(flush).sent() + n
                <= old(self)@.outbuf.len(),
        ensures
            final(self).wf(),
            final(self)@ == (ClientView { outbuf: final(self)@.outbuf, ..old(self)@ }),
            model::flushed(
                old(self)@.outbuf,
                old(flush).sent(),
                event,
                final(self)@.outbuf,
                final(flush).sent(),
                r,
            ),
    {
        let len: usize = self.outbuf.len();
        match event {
            WriteEvent::Wrote(n) => {
                if n == 0 {
                    return FlushStep::Done(Disposition::Drop);
                }
                flush.written = flush.written + n;
                if flush.written < len {
                    FlushStep::Continue
                } else {
                    self.outbuf = Vec::new();
                    assert(self@.outbuf =~= Seq::empty());
                    FlushStep::Done(Disposition::Keep)
                }
            },
            WriteEvent::Interrupted => FlushStep::Continue,
            WriteEvent::WouldBlock => {
                self.outbuf = self.outbuf.split_off(flush.written);
                assert(self@.outbuf =~= old(self)@.outbuf.skip(flush.sent()));
                FlushStep::Done(Disposition::Keep)
            },
            WriteEvent::Failed => FlushStep::Done(Disposition::Drop),
        }
    }

    fn process_request(
        &self,
        db: &mut Db,
        frame: RespBody,
        server: &ServerInfo,
        allow_block: bool,
    ) -> (r: ExecuteResult)
        requires
            old(db).wf(),
        ensures
            final(db).wf(),
            (final(db)@, command::execute_view(r)) == command::model::request(
                old(db)@,
                frame@,
                self@.id,
                self@.mode,
                allow_block,
                server@,
            ),
    {
        let info = ClientInfo::new(self.id, self.mode, self.peer_role, server, allow_block);
        let mut cmd = Command::new(frame, info)?;
        cmd.execute(db)
    }
}

/// A request joins the queue of a transaction only if it may.
proof fn lemma_added_may_queue(
    db: DbView,
    frame: RespView,
    client: ClientId,
    mode: ClientMode,
    server: InfoView,
)
    ensures
        command::model::request(db, frame, client, mode, true, server).1 matches Ok(
            (ReplyView::AddTransaction(queued), _),
        ) ==> model::may_queue(queued),
{
    if let Ok((kind, args)) = command::model::parsed(frame) {
        resp::lemma_request_args_of_bulk_array(args);
        let normal = command::model::run_normal(db, kind, args, client, true, server).1;
        assert(normal matches Ok(reply) ==> !(reply is AddTransaction));
    }
}

/// Whether a master asks for the offset of its replica.
fn is_getack_request(body: &RespBody, Ghost(args): Ghost<Seq<Seq<u8>>>) -> (r: bool)
    requires
        body@ == resp::bulk_array(args),
    ensures
        r == model::is_getack(args),
{
    match body {
        RespBody::Array(Some(items)) => {
            proof {
                resp::lemma_array_view(*items);
                assert(resp::resp_views(items@) == resp::bulk_array(args)->Array_0->0);
                assert(items@.len() == args.len());
            }
            if items.len() < 2 {
                return false;
            }
            assert(resp::resp_views(items@)[1] == RespView::Bulk(Some(args[1])));
            match &items[1] {
                RespBody::Bulk(Some(word)) => text::eq_ignore_case(
                    word.as_slice(),
                    "GETACK".as_bytes(),
                ),
                _ => false,
            }
        },
        _ => false,
    }
}

fn write_out_raw(buffer: &mut Vec<u8>, value: &[u8]) -> (r: usize)
    ensures
        final(buffer)@ == old(buffer)@ + value@,
        r == value@.len(),
{
    let written: usize = value.len();
    text::push_bytes(buffer, value);
    written
}

} // verus!
