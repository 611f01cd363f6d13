//! Clients that wait, and what becomes of them on each turn of the event loop.
use std::collections::VecDeque;
use vstd::prelude::*;
use crate::client::ClientId;
use crate::db::{Db, StreamWait};
use crate::db::due;
use crate::db::key_value::Key;
use crate::db::model;
use crate::db::model::{DbView, PositionView, StreamRound, StreamWaitView, Waiter};
use crate::db::object::Object;
use crate::db::reply;
use crate::db::table::Table;
use crate::resp::{RespBody, RespView};
use crate::time;
use crate::time::Duration;

verus! {

/// What a round leaves: the replies to the clients that wait no more, and the
/// time until the next one gives up.
pub struct HandleWaitersResult {
    pub replies: Table<ClientId, RespBody>,
    pub deadline: Option<Duration>,
}

pub open spec fn replies_view(replies: Map<ClientId, RespBody>) -> Map<ClientId, RespView> {
    replies.map_values(|body: RespBody| body@)
}

type Queue = VecDeque<(ClientId, Option<Duration>)>;

spec fn queues_view(queues: Map<Seq<u8>, Queue>) -> Map<Seq<u8>, Seq<Waiter>> {
    queues.map_values(|queue: Queue| queue@)
}

/// A waiter that is still ahead of its deadline brings the nearest one nearer.
proof fn lemma_waiter_stays(
    done: Map<Seq<u8>, Seq<Waiter>>,
    key: Seq<u8>,
    queue: Seq<Waiter>,
    waiter: Waiter,
    now: Duration,
    nearest: Option<Duration>,
)
    requires
        model::ahead(waiter.1, now),
        model::nearest_timeout(done.insert(key, queue), now, nearest),
    ensures
        model::timeout_replies(done.insert(key, queue.push(waiter)), now) == model::timeout_replies(
            done.insert(key, queue),
            now,
        ),
        model::nearest_timeout(
            done.insert(key, queue.push(waiter)),
            now,
            match waiter.1 {
                Some(at) => time::nearer(nearest, Some(at.minus(now))),
                None => nearest,
            },
        ),
{
    let a = done.insert(key, queue);
    let b = done.insert(key, queue.push(waiter));
    assert forall|client: ClientId| #[trigger]
        model::timed_out(b, now, client) == model::timed_out(a, now, client) by {
        if model::timed_out(a, now, client) {
            let (k, i) = choose|k: Seq<u8>, i: int|
                #![trigger a[k][i]]
                a.contains_key(k) && 0 <= i < a[k].len() && a[k][i].0 == client && !model::ahead(
                    a[k][i].1,
                    now,
                );
            assert(b[k][i] == a[k][i]);
        }
        if model::timed_out(b, now, client) {
            let (k, i) = choose|k: Seq<u8>, i: int|
                #![trigger b[k][i]]
                b.contains_key(k) && 0 <= i < b[k].len() && b[k][i].0 == client && !model::ahead(
                    b[k][i].1,
                    now,
                );
            assert(b[k][i] == a[k][i]);
        }
    }
    assert(model::timeout_replies(b, now) =~= model::timeout_replies(a, now));
    lemma_gives_up(done, key, queue, waiter, now);
}

/// Who gives up, and in how long, with one more waiter in a queue.
proof fn lemma_gives_up(
    done: Map<Seq<u8>, Seq<Waiter>>,
    key: Seq<u8>,
    queue: Seq<Waiter>,
    waiter: Waiter,
    now: Duration,
)
    ensures
        forall|left: Duration| #[trigger]
            model::gives_up_in(done.insert(key, queue.push(waiter)), now, left) == (
            model::gives_up_in(done.insert(key, queue), now, left) || (model::ahead(waiter.1, now)
                && waiter.1 is Some && left == waiter.1->0.minus(now))),
{
    let a = done.insert(key, queue);
    let b = done.insert(key, queue.push(waiter));
    assert forall|left: Duration| #[trigger]
        model::gives_up_in(b, now, left) == (model::gives_up_in(a, now, left) || (model::ahead(
            waiter.1,
            now,
        ) && waiter.1 is Some && left == waiter.1->0.minus(now))) by {
        if model::gives_up_in(a, now, left) {
            let (k, i) = choose|k: Seq<u8>, i: int|
                #![trigger a[k][i]]
                a.contains_key(k) && 0 <= i < a[k].len() && model::ahead(a[k][i].1, now)
                    && a[k][i].1 is Some && left == a[k][i].1->0.minus(now);
            assert(b[k][i] == a[k][i]);
        }
        if model::gives_up_in(b, now, left) {
            let (k, i) = choose|k: Seq<u8>, i: int|
                #![trigger b[k][i]]
                b.contains_key(k) && 0 <= i < b[k].len() && model::ahead(b[k][i].1, now)
                    && b[k][i].1 is Some && left == b[k][i].1->0.minus(now);
            if k != key || i < queue.len() {
                assert(b[k][i] == a[k][i]);
            }
        }
        assert(b[key][queue.len() as int] == waiter);
    }
}

/// A waiter whose time is over gets its reply.
proof fn lemma_waiter_leaves(
    done: Map<Seq<u8>, Seq<Waiter>>,
    key: Seq<u8>,
    queue: Seq<Waiter>,
    waiter: Waiter,
    now: Duration,
    nearest: Option<Duration>,
)
    requires
        !model::ahead(waiter.1, now),
        model::nearest_timeout(done.insert(key, queue), now, nearest),
    ensures
        model::timeout_replies(done.insert(key, queue.push(waiter)), now) == model::timeout_replies(
            done.insert(key, queue),
            now,
        ).insert(waiter.0, RespView::Array(None)),
        model::nearest_timeout(done.insert(key, queue.push(waiter)), now, nearest),
{
    let a = done.insert(key, queue);
    let b = done.insert(key, queue.push(waiter));
    assert forall|client: ClientId| #[trigger]
        model::timed_out(b, now, client) == (model::timed_out(a, now, client) || client
            == waiter.0) by {
        if model::timed_out(a, now, client) {
            let (k, i) = choose|k: Seq<u8>, i: int|
                #![trigger a[k][i]]
                a.contains_key(k) && 0 <= i < a[k].len() && a[k][i].0 == client && !model::ahead(
                    a[k][i].1,
                    now,
                );
            assert(b[k][i] == a[k][i]);
        }
        if model::timed_out(b, now, client) {
            let (k, i) = choose|k: Seq<u8>, i: int|
                #![trigger b[k][i]]
                b.contains_key(k) && 0 <= i < b[k].len() && b[k][i].0 == client && !model::ahead(
                    b[k][i].1,
                    now,
                );
            if k != key || i < queue.len() {
                assert(b[k][i] == a[k][i]);
            }
        }
        assert(b[key][queue.len() as int] == waiter);
    }
    assert(model::timeout_replies(b, now) =~= model::timeout_replies(a, now).insert(
        waiter.0,
        RespView::Array(None),
    ));
    lemma_gives_up(done, key, queue, waiter, now);
}

/// A key with an empty queue adds nobody.
proof fn lemma_empty_queue(
    done: Map<Seq<u8>, Seq<Waiter>>,
    key: Seq<u8>,
    now: Duration,
    nearest: Option<Duration>,
)
    requires
        !done.contains_key(key),
        model::nearest_timeout(done, now, nearest),
    ensures
        model::timeout_replies(done.insert(key, Seq::empty()), now) == model::timeout_replies(
            done,
            now,
        ),
        model::nearest_timeout(done.insert(key, Seq::empty()), now, nearest),
{
    let b = done.insert(key, Seq::<Waiter>::empty());
    assert forall|client: ClientId| #[trigger]
        model::timed_out(b, now, client) == model::timed_out(done, now, client) by {
        if model::timed_out(done, now, client) {
            let (k, i) = choose|k: Seq<u8>, i: int|
                #![trigger done[k][i]]
                done.contains_key(k) && 0 <= i < done[k].len() && done[k][i].0 == client
                    && !model::ahead(done[k][i].1, now);
            assert(b[k][i] == done[k][i]);
        }
        if model::timed_out(b, now, client) {
            let (k, i) = choose|k: Seq<u8>, i: int|
                #![trigger b[k][i]]
                b.contains_key(k) && 0 <= i < b[k].len() && b[k][i].0 == client && !model::ahead(
                    b[k][i].1,
                    now,
                );
            assert(b[k][i] == done[k][i]);
        }
    }
    assert(model::timeout_replies(b, now) =~= model::timeout_replies(done, now));
    assert forall|left: Duration| #[trigger]
        model::gives_up_in(b, now, left) == model::gives_up_in(done, now, left) by {
        if model::gives_up_in(done, now, left) {
            let (k, i) = choose|k: Seq<u8>, i: int|
                #![trigger done[k][i]]
                done.contains_key(k) && 0 <= i < done[k].len() && model::ahead(done[k][i].1, now)
                    && done[k][i].1 is Some && left == done[k][i].1->0.minus(now);
            assert(b[k][i] == done[k][i]);
        }
        if model::gives_up_in(b, now, left) {
            let (k, i) = choose|k: Seq<u8>, i: int|
                #![trigger b[k][i]]
                b.contains_key(k) && 0 <= i < b[k].len() && model::ahead(b[k][i].1, now)
                    && b[k][i].1 is Some && left == b[k][i].1->0.minus(now);
            assert(b[k][i] == done[k][i]);
        }
    }
}

/// Takes the waiters that have timed out from a queue, and notes the nearest
/// deadline of the others.
fn purge_queue(
    queue: Queue,
    now: Duration,
    out: &mut Table<ClientId, RespBody>,
    nearest: Option<Duration>,
    Ghost(done): Ghost<Map<Seq<u8>, Seq<Waiter>>>,
    Ghost(key): Ghost<Seq<u8>>,
) -> (r: (Queue, Option<Duration>))
    requires
        old(out).wf(),
        !done.contains_key(key),
        replies_view(old(out)@) == model::timeout_replies(done, now),
        model::nearest_timeout(done, now, nearest),
    ensures
        final(out).wf(),
        r.0@ == model::still_waiting(queue@, now),
        replies_view(final(out)@) == model::timeout_replies(done.insert(key, queue@), now),
        model::nearest_timeout(done.insert(key, queue@), now, r.1),
{
    let mut kept: Queue = VecDeque::new();
    let mut nearest = nearest;
    let mut i: usize = 0;
    let ghost keep = |waiter: Waiter| model::ahead(waiter.1, now);
    proof {
        reveal(Seq::filter);
        assert(queue@.take(0) =~= Seq::empty());
        assert(kept@ =~= queue@.take(0).filter(keep));
        lemma_empty_queue(done, key, now, nearest);
    }
    while i < queue.len()
        invariant
            i <= queue@.len(),
            out.wf(),
            keep == (|waiter: Waiter| model::ahead(waiter.1, now)),
            kept@ == queue@.take(i as int).filter(keep),
            replies_view(out@) == model::timeout_replies(
                done.insert(key, queue@.take(i as int)),
                now,
            ),
            model::nearest_timeout(done.insert(key, queue@.take(i as int)), now, nearest),
        decreases queue@.len() - i,
    {
        let (client_id, deadline) = queue[i];
        let ghost before = queue@.take(i as int);
        let ghost waiter = queue@[i as int];
        let ghost earlier = out@;
        let ghost nearest_before = nearest;
        let expired: bool = match deadline {
            Some(at) => at.nanos <= now.nanos,
            None => false,
        };
        proof {
            assert(queue@.take(i + 1) =~= before.push(waiter));
            assert(queue@.take(i + 1).drop_last() =~= before);
            reveal(Seq::filter);
            assert(keep(waiter) == !expired);
        }
        if expired {
            out.insert(client_id, RespBody::Array(None));
            proof {
                lemma_waiter_leaves(done, key, before, waiter, now, nearest);
                assert(replies_view(out@) =~= replies_view(earlier).insert(
                    client_id,
                    RespView::Array(None),
                ));
            }
        } else {
            if let Some(at) = deadline {
                nearest = time::nearest(nearest, Some(at.saturating_sub(now)));
            }
            kept.push_back((client_id, deadline));
            proof {
                lemma_waiter_stays(done, key, before, waiter, now, nearest_before);
            }
        }
        i += 1;
    }
    assert(queue@.take(i as int) =~= queue@);
    (kept, nearest)
}

/// The queues that `rest` no longer holds.
spec fn handled(all: Map<Seq<u8>, Seq<Waiter>>, rest: Map<Seq<u8>, Queue>) -> Map<
    Seq<u8>,
    Seq<Waiter>,
> {
    Map::new(
        |key: Seq<u8>| all.contains_key(key) && !rest.contains_key(key),
        |key: Seq<u8>| all[key],
    )
}

/// Takes the waiters that have timed out from every queue, and the queues that
/// are left empty.
fn purge_queues(
    queues: Table<Key, Queue>,
    now: Duration,
    out: &mut Table<ClientId, RespBody>,
) -> (r: (Table<Key, Queue>, Option<Duration>))
    requires
        queues.wf(),
        old(out).wf(),
        old(out)@ == Map::<ClientId, RespBody>::empty(),
    ensures
        r.0.wf(),
        final(out).wf(),
        queues_view(r.0@) == model::waiters_left(queues_view(queues@), now),
        replies_view(final(out)@) == model::timeout_replies(queues_view(queues@), now),
        model::nearest_timeout(queues_view(queues@), now, r.1),
{
    let ghost all = queues_view(queues@);
    let mut rest = queues;
    let mut kept: Table<Key, Queue> = Table::new();
    let mut nearest: Option<Duration> = None;
    proof {
        assert(handled(all, rest@) =~= Map::empty());
        assert(queues_view(kept@) =~= model::waiters_left(Map::empty(), now));
        assert(replies_view(out@) =~= model::timeout_replies(Map::empty(), now));
    }
    loop
        invariant
            rest.wf(),
            kept.wf(),
            out.wf(),
            forall|key: Seq<u8>| #[trigger]
                rest@.contains_key(key) ==> all.contains_key(key) && all[key] == rest@[key]@,
            queues_view(kept@) == model::waiters_left(handled(all, rest@), now),
            replies_view(out@) == model::timeout_replies(handled(all, rest@), now),
            model::nearest_timeout(handled(all, rest@), now, nearest),
        ensures
            rest@ == Map::<Seq<u8>, Queue>::empty(),
        decreases rest.entries().len(),
    {
        let ghost before = rest@;
        let ghost done = handled(all, before);
        match rest.pop() {
            None => {
                break;
            },
            Some((key, queue)) => {
                let ghost waiters = queue@;
                let (left, next) = purge_queue(
                    queue,
                    now,
                    out,
                    nearest,
                    Ghost(done),
                    Ghost(key@),
                );
                nearest = next;
                let ghost kept_before = kept@;
                proof {
                    assert(handled(all, rest@) =~= done.insert(key@, waiters));
                }
                if left.len() > 0 {
                    kept.insert(key, left);
                    proof {
                        assert(queues_view(kept@) =~= queues_view(kept_before).insert(
                            key@,
                            left@,
                        ));
                        assert(model::waiters_left(done.insert(key@, waiters), now)
                            =~= model::waiters_left(done, now).insert(key@, left@));
                    }
                } else {
                    assert(model::waiters_left(done.insert(key@, waiters), now)
                        =~= model::waiters_left(done, now));
                }
            },
        }
    }
    assert(handled(all, rest@) =~= all);
    (kept, nearest)
}

impl Db {
    /// Hands elements at `key` to its waiters while there are both.
    fn serve_key(&mut self, key: &Key, out: &mut Table<ClientId, RespBody>)
        requires
            old(self).sound(),
            old(out).wf(),
        ensures
            final(self).sound(),
            final(out).wf(),
            (final(self)@, replies_view(final(out)@)) == model::serve(
                old(self)@,
                replies_view(old(out)@),
                key@,
            ),
    {
        loop
            invariant
                self.sound(),
                out.wf(),
                model::serve(self@, replies_view(out@), key@) == model::serve(
                    old(self)@,
                    replies_view(old(out)@),
                    key@,
                ),
            ensures
                !model::can_serve(self@, key@),
            decreases self@.list_waiters[key@].len(),
        {
            let has_item: bool = match self.keyspace.get(key) {
                Some(Object::List(list)) => list.len() > 0,
                _ => false,
            };
            let has_waiter: bool = match self.list_waiters.get(key) {
                Some(queue) => queue.len() > 0,
                None => false,
            };
            if !has_item || !has_waiter {
                break;
            }
            let ghost before = self@;
            let ghost told = out@;
            assert(model::can_serve(before, key@));
            let waiter = match self.list_waiters.get_mut(key) {
                Some(queue) => queue.pop_front(),
                None => None,
            };
            let item = match self.keyspace.get_mut(key) {
                Some(Object::List(list)) => list.pop_front(),
                _ => None,
            };
            if let Some((client_id, _)) = waiter {
                if let Some(item) = item {
                    out.insert(client_id, reply::element_reply(key, item));
                }
            }
            self.touch(key);
            proof {
                let list = before.list_at(key@)->Ok_0->Some_0;
                assert(self@ =~~= model::served_one(before, key@));
                assert(replies_view(out@) =~= replies_view(told).insert(
                    before.list_waiters[key@][0].0,
                    model::element_reply(key@, list[0]),
                ));
            }
        }
    }

    /// One round for the clients that wait on lists: those that have timed out
    /// are told so, and elements that were pushed go to those that wait for them.
    pub fn handle_list_waiters(&mut self) -> (r: HandleWaitersResult)
        requires
            old(self).wf(),
        ensures
            final(self).wf(),
            r.replies.wf(),
            (final(self)@, replies_view(r.replies@)) == model::list_round(old(self)@),
            model::nearest_timeout(old(self)@.list_waiters, old(self)@.now, r.deadline),
            forall|key: Seq<u8>| !#[trigger] model::can_serve(final(self)@, key),
    {
        let mut out: Table<ClientId, RespBody> = Table::new();
        let mut waiting: Table<Key, Queue> = Table::new();
        std::mem::swap(&mut waiting, &mut self.list_waiters);
        let (kept, deadline) = purge_queues(waiting, self.realtime_ms, &mut out);
        self.list_waiters = kept;
        let mut outbox: Vec<Key> = Vec::new();
        std::mem::swap(&mut outbox, &mut self.outbox);
        let ghost keys = outbox@.map_values(|key: Key| key@);
        proof {
            assert(self@ =~= DbView {
                list_waiters: model::waiters_left(old(self)@.list_waiters, old(self)@.now),
                outbox: Seq::empty(),
                ..old(self)@
            });
            assert(keys.skip(0) =~= keys);
        }
        let mut i: usize = 0;
        while i < outbox.len()
            invariant
                i <= outbox@.len(),
                self.sound(),
                out.wf(),
                keys == outbox@.map_values(|key: Key| key@),
                model::serve_all(self@, replies_view(out@), keys.skip(i as int))
                    == model::list_round(old(self)@),
            decreases outbox@.len() - i,
        {
            assert(keys.skip(i as int)[0] == outbox@[i as int]@);
            assert(keys.skip(i as int).drop_first() =~= keys.skip(i + 1));
            self.serve_key(&outbox[i], &mut out);
            i += 1;
        }
        proof {
            due::lemma_list_round(old(self)@);
        }
        HandleWaitersResult { replies: out, deadline }
    }

    /// One round for the clients that wait on streams: each gets what there is
    /// to read, or is told that its time is over, or waits on.
    pub fn handle_stream_waiters(&mut self) -> (r: HandleWaitersResult)
        requires
            old(self).wf(),
        ensures
            final(self).wf(),
            r.replies.wf(),
            final(self)@ == (DbView {
                stream_waiters: model::stream_round(old(self)@).waiting,
                ..model::stream_round(old(self)@).db
            }),
            replies_view(r.replies@) == model::stream_round(old(self)@).replies,
            r.deadline == model::stream_round(old(self)@).nearest,
    {
        let mut out: Table<ClientId, RespBody> = Table::new();
        let mut nearest: Option<Duration> = None;
        let mut waiting: Vec<StreamWait> = Vec::new();
        let mut pending: Vec<StreamWait> = Vec::new();
        std::mem::swap(&mut pending, &mut self.stream_waiters);
        let ghost all = pending@;
        let ghost views = old(self)@.stream_waiters;
        proof {
            assert(self@ =~= DbView { stream_waiters: Seq::empty(), ..old(self)@ });
            due::lemma_same_lists(old(self)@, self@);
            assert(views.skip(0) =~= views);
            assert(waits_view(waiting@) =~= Seq::empty());
            assert(replies_view(out@) =~= Map::empty());
        }
        for wait in it: pending
            invariant
                it.seq() == all,
                views == all.map_values(|wait: StreamWait| wait@),
                self.wf(),
                out.wf(),
                self@.stream_waiters == Seq::<StreamWaitView>::empty(),
                model::stream_steps(
                    StreamRound {
                        db: self@,
                        waiting: waits_view(waiting@),
                        replies: replies_view(out@),
                        nearest,
                    },
                    views.skip(it.index() as int),
                ) == model::stream_round(old(self)@),
        {
            let ghost i = it.index() as int;
            let ghost round = StreamRound {
                db: self@,
                waiting: waits_view(waiting@),
                replies: replies_view(out@),
                nearest,
            };
            proof {
                assert(views.skip(i)[0] == wait@);
                assert(views.skip(i).drop_first() =~= views.skip(i + 1));
                lemma_read_keeps(self@, wait@.positions);
            }
            let ghost told = out@;
            let ghost queued = waiting@;
            let found = match self.xread_snapshot(wait.positions.as_slice()) {
                Ok(found) => found,
                Err(_) => None,
            };
            match found {
                Some(body) => {
                    out.insert(wait.client_id, body);
                    assert(replies_view(out@) =~= replies_view(told).insert(
                        wait.client_id,
                        body@,
                    ));
                },
                None => {
                    let expired: bool = match wait.deadline {
                        Some(at) => at.nanos <= self.realtime_ms.nanos,
                        None => false,
                    };
                    if expired {
                        out.insert(wait.client_id, RespBody::Array(None));
                        assert(replies_view(out@) =~= replies_view(told).insert(
                            wait.client_id,
                            RespView::Array(None),
                        ));
                    } else {
                        if let Some(at) = wait.deadline {
                            nearest = time::nearest(
                                nearest,
                                Some(at.saturating_sub(self.realtime_ms)),
                            );
                        }
                        waiting.push(wait);
                        assert(waits_view(waiting@) =~= waits_view(queued).push(wait@));
                    }
                },
            }
            assert(StreamRound {
                db: self@,
                waiting: waits_view(waiting@),
                replies: replies_view(out@),
                nearest,
            } =~= model::stream_step(round, wait@));
        }
        let ghost calm = self@;
        self.stream_waiters = waiting;
        assert(self@ =~= DbView {
            stream_waiters: model::stream_round(old(self)@).waiting,
            ..model::stream_round(old(self)@).db
        });
        proof {
            due::lemma_same_lists(calm, self@);
        }
        HandleWaitersResult { replies: out, deadline: nearest }
    }
}

spec fn waits_view(waits: Seq<StreamWait>) -> Seq<StreamWaitView> {
    waits.map_values(|wait: StreamWait| wait@)
}

/// Reading streams leaves the clock and the waiting clients as they are.
pub proof fn lemma_read_keeps(db: DbView, positions: Seq<PositionView>)
    ensures
        model::read_positions(db, positions).0.stream_waiters == db.stream_waiters,
        model::read_positions(db, positions).0.list_waiters == db.list_waiters,
        model::read_positions(db, positions).0.outbox == db.outbox,
        model::read_positions(db, positions).0.now == db.now,
    decreases positions.len(),
{
    if positions.len() > 0 {
        lemma_read_keeps(db.lapsed(positions[0].0), positions.drop_first());
    }
}

} // verus!
