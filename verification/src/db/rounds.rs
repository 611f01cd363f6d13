//! What a round for the waiting clients does as a whole.
use vstd::prelude::*;
use crate::client::ClientId;
use crate::command::common::ErrorView;
use crate::db::laws;
use crate::db::model;
use crate::db::model::{DbView, PositionView, StreamRound, StreamWaitView, Waiter};
use crate::db::object::ObjectView;
use crate::resp::RespView;
use crate::time;
use crate::time::Duration;

verus! {

// ---------------------------------------------------------------
// Streams
// ---------------------------------------------------------------

/// Every key reads as the same stream in both databases.
spec fn reads_alike(a: DbView, b: DbView) -> bool {
    &&& a.now == b.now
    &&& forall|key: Seq<u8>|
        (#[trigger] a.lapsed(key)).stream_or_empty(key) == b.lapsed(key).stream_or_empty(key)
}

proof fn lemma_lapsing_reads_alike(db: DbView, key: Seq<u8>)
    ensures
        reads_alike(db.lapsed(key), db),
{
    let after = db.lapsed(key);
    assert forall|k: Seq<u8>|
        (#[trigger] after.lapsed(k)).stream_or_empty(k) == db.lapsed(k).stream_or_empty(k) by {
        if k != key {
            assert(after.is_expired(k) == db.is_expired(k));
        }
    }
}

proof fn lemma_alike_through(a: DbView, b: DbView, c: DbView)
    requires
        reads_alike(a, b),
        reads_alike(b, c),
    ensures
        reads_alike(a, c),
{
    assert forall|key: Seq<u8>|
        (#[trigger] a.lapsed(key)).stream_or_empty(key) == c.lapsed(key).stream_or_empty(key) by {
        assert(a.lapsed(key).stream_or_empty(key) == b.lapsed(key).stream_or_empty(key));
    }
}

proof fn lemma_alike_back(a: DbView, b: DbView)
    requires
        reads_alike(a, b),
    ensures
        reads_alike(b, a),
{
    assert forall|key: Seq<u8>|
        (#[trigger] b.lapsed(key)).stream_or_empty(key) == a.lapsed(key).stream_or_empty(key) by {
        assert(a.lapsed(key).stream_or_empty(key) == b.lapsed(key).stream_or_empty(key));
    }
}

/// Databases that read alike give the same replies, and still read alike.
proof fn lemma_alike_positions(a: DbView, b: DbView, positions: Seq<PositionView>)
    requires
        reads_alike(a, b),
    ensures
        model::read_positions(a, positions).1 == model::read_positions(b, positions).1,
        reads_alike(model::read_positions(a, positions).0, b),
    decreases positions.len(),
{
    if positions.len() > 0 {
        let key = positions[0].0;
        lemma_lapsing_reads_alike(a, key);
        lemma_lapsing_reads_alike(b, key);
        lemma_alike_through(a.lapsed(key), a, b);
        lemma_alike_back(b.lapsed(key), b);
        lemma_alike_through(a.lapsed(key), b, b.lapsed(key));
        assert(a.lapsed(key).stream_or_empty(key) == b.lapsed(key).stream_or_empty(key));
        lemma_alike_positions(a.lapsed(key), b.lapsed(key), positions.drop_first());
        lemma_alike_through(
            model::read_positions(a.lapsed(key), positions.drop_first()).0,
            b.lapsed(key),
            b,
        );
    }
}

/// A client waits on: there is nothing for it to read, and its time is not over.
pub open spec fn waits_on(db: DbView) -> spec_fn(StreamWaitView) -> bool {
    |wait: StreamWaitView|
        !(model::snapshot(db, wait.positions) matches Ok(Some(_))) && model::ahead(
            wait.deadline,
            db.now,
        )
}

/// What a client is told that does not wait on: what there is to read, or a null
/// array.
pub open spec fn stream_answer(db: DbView, wait: StreamWaitView) -> RespView {
    match model::snapshot(db, wait.positions) {
        Ok(Some(reply)) => reply,
        _ => RespView::Array(None),
    }
}

/// One of the waits is this client's, and it is answered.
pub open spec fn answered(db: DbView, waits: Seq<StreamWaitView>, client: ClientId) -> bool {
    exists|i: int|
        0 <= i < waits.len() && (#[trigger] waits[i]).client_id == client && !waits_on(db)(
            waits[i],
        )
}

/// No client waits twice.
pub open spec fn waits_once(waits: Seq<StreamWaitView>) -> bool {
    forall|i: int, j: int|
        0 <= i < j < waits.len() ==> (#[trigger] waits[i]).client_id != (
        #[trigger] waits[j]).client_id
}

/// `nearest` is the time until the first of the waits gives up, if any ever does.
pub open spec fn least_left(
    waits: Seq<StreamWaitView>,
    now: Duration,
    nearest: Option<Duration>,
) -> bool {
    match nearest {
        Some(left) => {
            &&& exists|i: int|
                0 <= i < waits.len() && (#[trigger] waits[i]).deadline is Some && left
                    == waits[i].deadline->0.minus(now)
            &&& forall|i: int|
                0 <= i < waits.len() && (#[trigger] waits[i]).deadline is Some ==> left.nanos
                    <= waits[i].deadline->0.minus(now).nanos
        },
        None => forall|i: int| 0 <= i < waits.len() ==> (#[trigger] waits[i]).deadline is None,
    }
}

proof fn lemma_least_left_push(
    waits: Seq<StreamWaitView>,
    wait: StreamWaitView,
    now: Duration,
    nearest: Option<Duration>,
)
    requires
        least_left(waits, now, nearest),
    ensures
        least_left(
            waits.push(wait),
            now,
            match wait.deadline {
                Some(at) => time::nearer(nearest, Some(at.minus(now))),
                None => nearest,
            },
        ),
{
    let all = waits.push(wait);
    assert(all[waits.len() as int] == wait);
    assert forall|i: int| 0 <= i < waits.len() implies #[trigger] all[i] == waits[i] by {}
    if nearest is Some {
        let i = choose|i: int|
            0 <= i < waits.len() && (#[trigger] waits[i]).deadline is Some && nearest->0
                == waits[i].deadline->0.minus(now);
        assert(all[i] == waits[i]);
    }
}

proof fn lemma_filter_first(waits: Seq<StreamWaitView>, keep: spec_fn(StreamWaitView) -> bool)
    requires
        waits.len() > 0,
    ensures
        waits.filter(keep) == (if keep(waits[0]) {
            seq![waits[0]] + waits.drop_first().filter(keep)
        } else {
            waits.drop_first().filter(keep)
        }),
{
    assert(seq![waits[0]] + waits.drop_first() =~= waits);
    waits.drop_first().lemma_filter_prepend(waits[0], keep);
}

/// The waits in `pending`, one after the other, each against the database `db`
/// that was there before all of them.
proof fn lemma_stream_steps(db: DbView, round: StreamRound, pending: Seq<StreamWaitView>)
    requires
        reads_alike(round.db, db),
        waits_once(pending),
        least_left(round.waiting, db.now, round.nearest),
    ensures
        ({
            let after = model::stream_steps(round, pending);
            &&& after.waiting == round.waiting + pending.filter(waits_on(db))
            &&& least_left(after.waiting, db.now, after.nearest)
            &&& forall|i: int|
                0 <= i < pending.len() && !waits_on(db)(#[trigger] pending[i]) ==> {
                    &&& after.replies.contains_key(pending[i].client_id)
                    &&& after.replies[pending[i].client_id] == stream_answer(db, pending[i])
                }
            &&& forall|client: ClientId|
                !#[trigger] answered(db, pending, client) ==> {
                    &&& after.replies.contains_key(client) == round.replies.contains_key(client)
                    &&& after.replies.contains_key(client) ==> after.replies[client]
                        == round.replies[client]
                }
        }),
    decreases pending.len(),
{
    let keep = waits_on(db);
    if pending.len() == 0 {
        reveal(Seq::filter);
        assert(round.waiting + pending.filter(keep) =~= round.waiting);
    } else {
        let wait = pending[0];
        let rest = pending.drop_first();
        let next = model::stream_step(round, wait);
        lemma_alike_positions(round.db, db, wait.positions);
        lemma_filter_first(pending, keep);
        assert(model::snapshot(round.db, wait.positions) == model::snapshot(db, wait.positions));
        assert(next.db.now == db.now);
        if keep(wait) {
            lemma_least_left_push(round.waiting, wait, db.now, round.nearest);
        }
        assert forall|i: int, j: int| 0 <= i < j < rest.len() implies (
        #[trigger] rest[i]).client_id != (#[trigger] rest[j]).client_id by {
            assert(pending[i + 1].client_id != pending[j + 1].client_id);
        }
        lemma_stream_steps(db, next, rest);
        let after = model::stream_steps(next, rest);
        assert(model::stream_steps(round, pending) == after);
        assert(round.waiting.push(wait) + rest.filter(keep) =~= round.waiting + (seq![wait]
            + rest.filter(keep)));
        assert(after.waiting =~= round.waiting + pending.filter(keep));
        assert(!answered(db, rest, wait.client_id)) by {
            assert forall|i: int| 0 <= i < rest.len() implies (#[trigger] rest[i]).client_id
                != wait.client_id by {
                assert(pending[0].client_id != pending[i + 1].client_id);
            }
        }
        assert forall|i: int| 0 <= i < pending.len() && !keep(#[trigger] pending[i]) implies {
            &&& after.replies.contains_key(pending[i].client_id)
            &&& after.replies[pending[i].client_id] == stream_answer(db, pending[i])
        } by {
            if i > 0 {
                assert(rest[i - 1] == pending[i]);
            }
        }
        assert forall|client: ClientId| !#[trigger] answered(db, pending, client) implies {
            &&& after.replies.contains_key(client) == round.replies.contains_key(client)
            &&& after.replies.contains_key(client) ==> after.replies[client]
                == round.replies[client]
        } by {
            if answered(db, rest, client) {
                let i = choose|i: int|
                    0 <= i < rest.len() && (#[trigger] rest[i]).client_id == client && !keep(
                        rest[i],
                    );
                assert(pending[i + 1] == rest[i]);
            }
            assert(pending[0] == wait);
        }
    }
}

/// Law: a round for the clients that wait on streams goes by the database before
/// the round. Those stay, in their order, for whom there is nothing to read and
/// whose time is not over; every other gets what there is to read, or a null array
/// where there is nothing; nobody else is told anything; and the time returned is
/// the least that is left to one that stays.
pub proof fn law_stream_round(db: DbView)
    requires
        waits_once(db.stream_waiters),
    ensures
        ({
            let round = model::stream_round(db);
            let waits = db.stream_waiters;
            &&& round.waiting == waits.filter(waits_on(db))
            &&& forall|i: int|
                0 <= i < waits.len() ==> (round.waiting.contains(#[trigger] waits[i])
                    <==> waits_on(db)(waits[i]))
            &&& forall|i: int|
                0 <= i < waits.len() && !waits_on(db)(#[trigger] waits[i]) ==> {
                    &&& round.replies.contains_key(waits[i].client_id)
                    &&& round.replies[waits[i].client_id] == stream_answer(db, waits[i])
                }
            &&& forall|client: ClientId| #[trigger]
                round.replies.contains_key(client) <==> answered(db, waits, client)
            &&& least_left(round.waiting, db.now, round.nearest)
        }),
{
    let start = StreamRound {
        db: DbView { stream_waiters: Seq::empty(), ..db },
        waiting: Seq::empty(),
        replies: Map::empty(),
        nearest: None,
    };
    let waits = db.stream_waiters;
    let keep = waits_on(db);
    assert(reads_alike(start.db, db)) by {
        assert forall|key: Seq<u8>|
            (#[trigger] start.db.lapsed(key)).stream_or_empty(key) == db.lapsed(
                key,
            ).stream_or_empty(key) by {
            assert(start.db.is_expired(key) == db.is_expired(key));
        }
    }
    lemma_stream_steps(db, start, waits);
    let round = model::stream_round(db);
    assert(round.waiting =~= waits.filter(keep));
    assert forall|i: int| 0 <= i < waits.len() implies (round.waiting.contains(
        #[trigger] waits[i],
    ) <==> keep(waits[i])) by {
        lemma_in_filter(waits, keep, waits[i]);
    }
    assert forall|client: ClientId| #[trigger]
        round.replies.contains_key(client) <==> answered(db, waits, client) by {
        if answered(db, waits, client) {
            let i = choose|i: int|
                0 <= i < waits.len() && (#[trigger] waits[i]).client_id == client && !keep(
                    waits[i],
                );
            assert(round.replies.contains_key(waits[i].client_id));
        }
    }
}

// ---------------------------------------------------------------
// Lists
// ---------------------------------------------------------------

/// No client waits twice, be it on one key or on two.
pub open spec fn parked_once(waiters: Map<Seq<u8>, Seq<Waiter>>) -> bool {
    forall|a: Seq<u8>, i: int, b: Seq<u8>, j: int|
        #![trigger waiters[a][i], waiters[b][j]]
        waiters.contains_key(a) && 0 <= i < waiters[a].len() && waiters.contains_key(b) && 0 <= j
            < waiters[b].len() && waiters[a][i].0 == waiters[b][j].0 ==> a == b && i == j
}

/// How many elements at `key` find a client: as many as there are of the fewer.
pub open spec fn matched(db: DbView, key: Seq<u8>) -> int {
    match db.list_at(key) {
        Ok(Some(list)) => if !db.list_waiters.contains_key(key) {
            0
        } else if list.len() <= db.list_waiters[key].len() {
            list.len() as int
        } else {
            db.list_waiters[key].len() as int
        },
        _ => 0,
    }
}

/// `client` gets an element at one of `keys`.
pub open spec fn supplied(db: DbView, keys: Seq<Seq<u8>>, client: ClientId) -> bool {
    exists|key: Seq<u8>, i: int|
        #![trigger db.list_waiters[key][i]]
        keys.contains(key) && 0 <= i < matched(db, key) && db.list_waiters[key][i].0 == client
}

/// At `key`, the first `n` elements have gone, and so have the first `n` clients.
pub open spec fn moved_on(before: DbView, after: DbView, key: Seq<u8>, n: int) -> bool {
    &&& after.keyspace.contains_key(key) == before.keyspace.contains_key(key)
    &&& match before.list_at(key) {
        Ok(Some(list)) => after.list_at(key) == Ok::<_, ErrorView>(Some(list.skip(n))),
        _ => after.keyspace.contains_key(key) ==> after.keyspace[key] == before.keyspace[key],
    }
    &&& after.list_waiters.contains_key(key) == before.list_waiters.contains_key(key)
    &&& before.list_waiters.contains_key(key) ==> after.list_waiters[key]
        == before.list_waiters[key].skip(n)
}

/// The first `n` clients at `key` were told of the first `n` elements, in order.
pub open spec fn told_of(
    before: DbView,
    told: Map<ClientId, RespView>,
    key: Seq<u8>,
    n: int,
) -> bool {
    forall|i: int|
        0 <= i < n ==> told.contains_key((#[trigger] before.list_waiters[key][i]).0)
            && told[before.list_waiters[key][i].0] == model::element_reply(
            key,
            before.list_at(key)->Ok_0->Some_0[i],
        )
}

proof fn lemma_serve_elsewhere(
    db: DbView,
    replies: Map<ClientId, RespView>,
    key: Seq<u8>,
    other: Seq<u8>,
)
    requires
        other != key,
    ensures
        moved_on(db, model::serve(db, replies, key).0, other, 0),
    decreases db.list_waiters[key].len(),
{
    if model::can_serve(db, key) {
        let list = db.list_at(key)->Ok_0->Some_0;
        let next = model::served_one(db, key);
        lemma_serve_elsewhere(
            next,
            replies.insert(db.list_waiters[key][0].0, model::element_reply(key, list[0])),
            key,
            other,
        );
        assert(moved_on(db, next, other, 0)) by {
            lemma_moved_nowhere(db, other);
        }
        lemma_moves_add_up(db, next, model::serve(db, replies, key).0, other, 0, 0);
    } else {
        lemma_moved_nowhere(db, other);
    }
}

proof fn lemma_moved_nowhere(db: DbView, key: Seq<u8>)
    ensures
        moved_on(db, db, key, 0),
        db.list_waiters[key].skip(0) == db.list_waiters[key],
        forall|list: Seq<Seq<u8>>| #[trigger] list.skip(0) == list,
{
    assert(db.list_waiters[key].skip(0) =~= db.list_waiters[key]);
    assert forall|list: Seq<Seq<u8>>| #[trigger] list.skip(0) == list by {
        assert(list.skip(0) =~= list);
    }
}

proof fn lemma_moves_add_up(a: DbView, b: DbView, c: DbView, key: Seq<u8>, n: int, m: int)
    requires
        moved_on(a, b, key, n),
        moved_on(b, c, key, m),
        0 <= n,
        0 <= m,
        a.list_at(key) matches Ok(Some(list)) ==> n + m <= list.len(),
        a.list_waiters.contains_key(key) ==> n + m <= a.list_waiters[key].len(),
    ensures
        moved_on(a, c, key, n + m),
{
    if let Ok(Some(list)) = a.list_at(key) {
        assert(list.skip(n).skip(m) =~= list.skip(n + m));
    }
    if a.list_waiters.contains_key(key) {
        let queue = a.list_waiters[key];
        assert(queue.skip(n).skip(m) =~= queue.skip(n + m));
    }
}

/// One key is served.
proof fn lemma_serve(db: DbView, replies: Map<ClientId, RespView>, key: Seq<u8>)
    requires
        parked_once(db.list_waiters),
    ensures
        ({
            let (after, told) = model::serve(db, replies, key);
            &&& forall|k: Seq<u8>| #[trigger] moved_on(db, after, k, gone(db, seq![key], k))
            &&& told_of(db, told, key, matched(db, key))
            &&& forall|client: ClientId|
                !#[trigger] supplied(db, seq![key], client) ==> {
                    &&& told.contains_key(client) == replies.contains_key(client)
                    &&& told.contains_key(client) ==> told[client] == replies[client]
                }
        }),
{
    let (after, told) = model::serve(db, replies, key);
    let n = matched(db, key);
    assert(seq![key].contains(key)) by {
        assert(seq![key][0] == key);
    }
    let both = db.list_at(key) matches Ok(Some(_)) && db.list_waiters.contains_key(key);
    if both {
        let queue = db.list_waiters[key];
        assert forall|i: int, j: int| 0 <= i < j < queue.len() implies (#[trigger] queue[i]).0 != (
        #[trigger] queue[j]).0 by {
            assert(db.list_waiters[key][i].0 != db.list_waiters[key][j].0);
        }
        laws::law_waiters_are_served_in_order(db, replies, key, n);
        assert(moved_on(db, after, key, n));
        assert forall|client: ClientId| !#[trigger] supplied(db, seq![key], client) implies {
            &&& told.contains_key(client) == replies.contains_key(client)
            &&& told.contains_key(client) ==> told[client] == replies[client]
        } by {
            assert forall|i: int| 0 <= i < n implies (#[trigger] queue[i]).0 != client by {
                assert(db.list_waiters[key][i] == queue[i]);
            }
        }
    } else {
        assert(!model::can_serve(db, key));
        lemma_moved_nowhere(db, key);
    }
    assert forall|k: Seq<u8>| #[trigger] moved_on(db, after, k, gone(db, seq![key], k)) by {
        if k != key {
            lemma_serve_elsewhere(db, replies, key, k);
        }
    }
}

proof fn lemma_parked_after(before: DbView, after: DbView, keys: Seq<Seq<u8>>)
    requires
        parked_once(before.list_waiters),
        forall|k: Seq<u8>| #[trigger] moved_on(before, after, k, gone(before, keys, k)),
    ensures
        parked_once(after.list_waiters),
{
    let waiters = after.list_waiters;
    assert forall|a: Seq<u8>, i: int, b: Seq<u8>, j: int|
        #![trigger waiters[a][i], waiters[b][j]]
        waiters.contains_key(a) && 0 <= i < waiters[a].len() && waiters.contains_key(b) && 0 <= j
            < waiters[b].len() && waiters[a][i].0 == waiters[b][j].0 implies a == b && i == j by {
        assert(moved_on(before, after, a, gone(before, keys, a)));
        assert(moved_on(before, after, b, gone(before, keys, b)));
        assert(waiters[a][i] == before.list_waiters[a][i + gone(before, keys, a)]);
        assert(waiters[b][j] == before.list_waiters[b][j + gone(before, keys, b)]);
    }
}

/// What has gone at `key` once all of `keys` were served.
pub open spec fn gone(db: DbView, keys: Seq<Seq<u8>>, key: Seq<u8>) -> int {
    if keys.contains(key) {
        matched(db, key)
    } else {
        0
    }
}

/// Some keys are served.
proof fn lemma_serve_all(db: DbView, replies: Map<ClientId, RespView>, keys: Seq<Seq<u8>>)
    requires
        parked_once(db.list_waiters),
    ensures
        ({
            let (after, told) = model::serve_all(db, replies, keys);
            &&& forall|key: Seq<u8>| #[trigger] moved_on(db, after, key, gone(db, keys, key))
            &&& forall|key: Seq<u8>| #[trigger] told_of(db, told, key, gone(db, keys, key))
            &&& forall|client: ClientId|
                !#[trigger] supplied(db, keys, client) ==> {
                    &&& told.contains_key(client) == replies.contains_key(client)
                    &&& told.contains_key(client) ==> told[client] == replies[client]
                }
        }),
    decreases keys.len(),
{
    let (after, told) = model::serve_all(db, replies, keys);
    if keys.len() == 0 {
        assert forall|key: Seq<u8>| #[trigger] moved_on(db, after, key, gone(db, keys, key)) by {
            lemma_moved_nowhere(db, key);
        }
    } else {
        let first = keys[0];
        let rest = keys.drop_first();
        let (mid, midway) = model::serve(db, replies, first);
        let n = matched(db, first);
        let one = seq![first];
        assert(one[0] == first);
        lemma_serve(db, replies, first);
        lemma_parked_after(db, mid, one);
        lemma_serve_all(mid, midway, rest);
        assert(model::serve_all(mid, midway, rest) == (after, told));
        assert(matched(mid, first) == 0) by {
            assert(moved_on(db, mid, first, gone(db, one, first)));
        }
        assert forall|k: Seq<u8>| k != first implies #[trigger] matched(mid, k) == matched(
            db,
            k,
        ) && (db.list_waiters.contains_key(k) ==> mid.list_waiters[k] == db.list_waiters[k])
            && mid.list_at(k) == db.list_at(k) by {
            assert(moved_on(db, mid, k, gone(db, one, k)));
            lemma_moved_nowhere(db, k);
        }
        assert forall|k: Seq<u8>| #[trigger]
            keys.contains(k) == (k == first || rest.contains(k)) by {
            if rest.contains(k) {
                let i = choose|i: int| 0 <= i < rest.len() && rest[i] == k;
                assert(keys[i + 1] == k);
            }
            if keys.contains(k) && k != first {
                let i = choose|i: int| 0 <= i < keys.len() && keys[i] == k;
                assert(rest[i - 1] == k);
            }
        }
        assert forall|key: Seq<u8>| #[trigger] moved_on(db, after, key, gone(db, keys, key)) by {
            assert(moved_on(db, mid, key, gone(db, one, key)));
            assert(moved_on(mid, after, key, gone(mid, rest, key)));
            lemma_moves_add_up(db, mid, after, key, gone(db, one, key), gone(mid, rest, key));
        }
        assert forall|key: Seq<u8>| #[trigger] told_of(db, told, key, gone(db, keys, key)) by {
            assert(told_of(mid, told, key, gone(mid, rest, key)));
            if key == first {
                assert forall|i: int| 0 <= i < n implies told.contains_key(
                    (#[trigger] db.list_waiters[key][i]).0,
                ) && told[db.list_waiters[key][i].0] == model::element_reply(
                    key,
                    db.list_at(key)->Ok_0->Some_0[i],
                ) by {
                    let client = db.list_waiters[key][i].0;
                    assert(midway.contains_key(client));
                    assert(!supplied(mid, rest, client)) by {
                        if supplied(mid, rest, client) {
                            let (k, j) = choose|k: Seq<u8>, j: int|
                                #![trigger mid.list_waiters[k][j]]
                                rest.contains(k) && 0 <= j < matched(mid, k)
                                    && mid.list_waiters[k][j].0 == client;
                            assert(k != first);
                            assert(matched(mid, k) == matched(db, k));
                            assert(db.list_waiters[k][j].0 == db.list_waiters[key][i].0);
                        }
                    }
                }
            } else {
                assert(matched(mid, key) == matched(db, key));
                assert forall|i: int| 0 <= i < gone(db, keys, key) implies told.contains_key(
                    (#[trigger] db.list_waiters[key][i]).0,
                ) && told[db.list_waiters[key][i].0] == model::element_reply(
                    key,
                    db.list_at(key)->Ok_0->Some_0[i],
                ) by {
                    assert(mid.list_waiters[key][i] == db.list_waiters[key][i]);
                }
            }
        }
        assert forall|client: ClientId| !#[trigger] supplied(db, keys, client) implies {
            &&& told.contains_key(client) == replies.contains_key(client)
            &&& told.contains_key(client) ==> told[client] == replies[client]
        } by {
            if supplied(db, one, client) {
                let (k, j) = choose|k: Seq<u8>, j: int|
                    #![trigger db.list_waiters[k][j]]
                    one.contains(k) && 0 <= j < matched(db, k)
                        && db.list_waiters[k][j].0 == client;
                assert(keys.contains(k));
            }
            if supplied(mid, rest, client) {
                let (k, j) = choose|k: Seq<u8>, j: int|
                    #![trigger mid.list_waiters[k][j]]
                    rest.contains(k) && 0 <= j < matched(mid, k) && mid.list_waiters[k][j].0
                        == client;
                assert(k != first);
                assert(matched(mid, k) == matched(db, k));
                assert(db.list_waiters[k][j].0 == client);
                assert(keys.contains(k));
            }
        }
    }
}

/// The clients that `queue` leaves after a filter are distinct if they were, and
/// each of them was there.
proof fn lemma_left_distinct(queue: Seq<Waiter>, now: Duration)
    requires
        laws::distinct_clients(queue),
    ensures
        laws::distinct_clients(model::still_waiting(queue, now)),
    decreases queue.len(),
{
    reveal(Seq::filter);
    let keep = |waiter: Waiter| model::ahead(waiter.1, now);
    let left = model::still_waiting(queue, now);
    if queue.len() > 0 {
        let front = queue.drop_last();
        lemma_left_distinct(front, now);
        let before = model::still_waiting(front, now);
        assert forall|i: int, j: int| 0 <= i < j < left.len() implies (#[trigger] left[i]).0 != (
        #[trigger] left[j]).0 by {
            assert(before[i] == left[i]);
            if j < before.len() {
                assert(before[j] == left[j]);
            } else {
                lemma_in_filter(front, keep, before[i]);
                assert(before.contains(before[i]));
                let at = choose|at: int| 0 <= at < front.len() && front[at] == before[i];
                assert(queue[at].0 != queue[queue.len() - 1].0);
            }
        }
    }
}

/// Who waits after the timeouts waited before, and is ahead of the deadline.
proof fn lemma_left(waiters: Map<Seq<u8>, Seq<Waiter>>, now: Duration, key: Seq<u8>, i: int)
    requires
        model::waiters_left(waiters, now).contains_key(key),
        0 <= i < model::waiters_left(waiters, now)[key].len(),
    ensures
        waiters.contains_key(key),
        model::ahead(model::waiters_left(waiters, now)[key][i].1, now),
        waiters[key].contains(model::waiters_left(waiters, now)[key][i]),
{
    let keep = |waiter: Waiter| model::ahead(waiter.1, now);
    let left = model::still_waiting(waiters[key], now);
    lemma_in_filter(waiters[key], keep, left[i]);
    assert(left.contains(left[i]));
}

proof fn lemma_left_parked_once(waiters: Map<Seq<u8>, Seq<Waiter>>, now: Duration)
    requires
        parked_once(waiters),
    ensures
        parked_once(model::waiters_left(waiters, now)),
{
    let left = model::waiters_left(waiters, now);
    assert forall|a: Seq<u8>, i: int, b: Seq<u8>, j: int|
        #![trigger left[a][i], left[b][j]]
        left.contains_key(a) && 0 <= i < left[a].len() && left.contains_key(b) && 0 <= j
            < left[b].len() && left[a][i].0 == left[b][j].0 implies a == b && i == j by {
        lemma_left(waiters, now, a, i);
        lemma_left(waiters, now, b, j);
        let at = choose|at: int| 0 <= at < waiters[a].len() && waiters[a][at] == left[a][i];
        let bt = choose|bt: int| 0 <= bt < waiters[b].len() && waiters[b][bt] == left[b][j];
        assert(waiters[a][at].0 == waiters[b][bt].0);
        assert(laws::distinct_clients(waiters[a])) by {
            assert forall|x: int, y: int| 0 <= x < y < waiters[a].len() implies (
            #[trigger] waiters[a][x]).0 != (#[trigger] waiters[a][y]).0 by {}
        }
        lemma_left_distinct(waiters[a], now);
        assert(i == j) by {
            if i < j {
                assert(left[a][i].0 != left[a][j].0);
            }
            if j < i {
                assert(left[a][j].0 != left[a][i].0);
            }
        }
    }
}

/// A client that has timed out waits nowhere any more.
proof fn lemma_timed_out_left(
    waiters: Map<Seq<u8>, Seq<Waiter>>,
    now: Duration,
    client: ClientId,
    key: Seq<u8>,
    i: int,
)
    requires
        parked_once(waiters),
        model::timed_out(waiters, now, client),
        model::waiters_left(waiters, now).contains_key(key),
        0 <= i < model::waiters_left(waiters, now)[key].len(),
    ensures
        model::waiters_left(waiters, now)[key][i].0 != client,
{
    let left = model::waiters_left(waiters, now);
    let (k, j) = choose|k: Seq<u8>, j: int|
        #![trigger waiters[k][j]]
        waiters.contains_key(k) && 0 <= j < waiters[k].len() && waiters[k][j].0 == client
            && !model::ahead(waiters[k][j].1, now);
    lemma_left(waiters, now, key, i);
    let at = choose|at: int| 0 <= at < waiters[key].len() && waiters[key][at] == left[key][i];
    if waiters[key][at].0 == client {
        assert(waiters[k][j].0 == waiters[key][at].0);
    }
}

/// The database once the timeouts are over and before anything is served.
pub open spec fn without_timeouts(db: DbView) -> DbView {
    DbView {
        list_waiters: model::waiters_left(db.list_waiters, db.now),
        outbox: Seq::empty(),
        ..db
    }
}

/// Law: after a round for the clients that wait on lists, no key has both an
/// element and a client that waits for it. What was at a key is what went to its
/// clients, in the order in which they began to wait, and then what is left. A
/// client whose time is over gets a null array; nobody else is told anything; and
/// nobody who was told still waits.
pub proof fn law_list_round(db: DbView)
    requires
        db.due_keys_known(),
        parked_once(db.list_waiters),
    ensures
        ({
            let (after, told) = model::list_round(db);
            let start = without_timeouts(db);
            &&& forall|key: Seq<u8>| !#[trigger] model::can_serve(after, key)
            &&& forall|key: Seq<u8>| #[trigger] moved_on(start, after, key, matched(start, key))
            &&& forall|key: Seq<u8>| #[trigger] told_of(start, told, key, matched(start, key))
            &&& forall|client: ClientId| #[trigger]
                model::timed_out(db.list_waiters, db.now, client) ==> told.contains_key(client)
                    && told[client] == RespView::Array(None)
            &&& forall|client: ClientId| #[trigger]
                told.contains_key(client) ==> model::timed_out(db.list_waiters, db.now, client)
                    || supplied(start, db.outbox, client)
            &&& forall|key: Seq<u8>, i: int|
                after.list_waiters.contains_key(key) && 0 <= i < after.list_waiters[key].len()
                    ==> !told.contains_key((#[trigger] after.list_waiters[key][i]).0)
        }),
{
    let (after, told) = model::list_round(db);
    let start = without_timeouts(db);
    let late = model::timeout_replies(db.list_waiters, db.now);
    let left = start.list_waiters;
    lemma_left_parked_once(db.list_waiters, db.now);
    lemma_serve_all(start, late, db.outbox);
    assert forall|key: Seq<u8>| #[trigger] matched(start, key) == gone(
        start,
        db.outbox,
        key,
    ) by {
        if matched(start, key) > 0 {
            lemma_left(db.list_waiters, db.now, key, 0);
            assert(model::can_serve(db, key));
        }
    }
    assert forall|key: Seq<u8>| #[trigger]
        moved_on(start, after, key, matched(start, key)) by {
        assert(moved_on(start, after, key, gone(start, db.outbox, key)));
    }
    assert forall|key: Seq<u8>| #[trigger] told_of(start, told, key, matched(start, key)) by {
        assert(told_of(start, told, key, gone(start, db.outbox, key)));
    }
    assert forall|key: Seq<u8>| !#[trigger] model::can_serve(after, key) by {
        assert(moved_on(start, after, key, matched(start, key)));
    }
    assert forall|client: ClientId| #[trigger]
        model::timed_out(db.list_waiters, db.now, client) implies told.contains_key(client)
        && told[client] == RespView::Array(None) by {
        assert(!supplied(start, db.outbox, client)) by {
            if supplied(start, db.outbox, client) {
                let (k, j) = choose|k: Seq<u8>, j: int|
                    #![trigger start.list_waiters[k][j]]
                    db.outbox.contains(k) && 0 <= j < matched(start, k)
                        && start.list_waiters[k][j].0 == client;
                lemma_timed_out_left(db.list_waiters, db.now, client, k, j);
            }
        }
        assert(late.contains_key(client));
    }
    assert forall|client: ClientId| #[trigger]
        told.contains_key(client) implies model::timed_out(db.list_waiters, db.now, client)
        || supplied(start, db.outbox, client) by {
        if !supplied(start, db.outbox, client) {
            assert(late.contains_key(client));
        }
    }
    assert forall|key: Seq<u8>, i: int|
        after.list_waiters.contains_key(key) && 0 <= i
            < after.list_waiters[key].len() implies !told.contains_key(
        (#[trigger] after.list_waiters[key][i]).0,
    ) by {
        let n = matched(start, key);
        let client = after.list_waiters[key][i].0;
        assert(moved_on(start, after, key, n));
        assert(left[key][n + i].0 == client);
        if told.contains_key(client) {
            if model::timed_out(db.list_waiters, db.now, client) {
                lemma_timed_out_left(db.list_waiters, db.now, client, key, n + i);
            } else {
                let (k, j) = choose|k: Seq<u8>, j: int|
                    #![trigger start.list_waiters[k][j]]
                    db.outbox.contains(k) && 0 <= j < matched(start, k)
                        && start.list_waiters[k][j].0 == client;
                assert(left[k][j].0 == left[key][n + i].0);
            }
        }
    }
}

proof fn lemma_serve_tells(
    db: DbView,
    replies: Map<ClientId, RespView>,
    key: Seq<u8>,
    client: ClientId,
)
    ensures
        ({
            let after = model::serve(db, replies, key).0;
            &&& after.watches.contains_key(client) == db.watches.contains_key(client)
            &&& db.watches.contains_key(client) ==> {
                &&& after.watches[client].keys == db.watches[client].keys
                &&& after.watches[client].dirty == (db.watches[client].dirty || (matched(db, key)
                    > 0 && db.watches[client].keys.contains(key)))
            }
            &&& after.expires == db.expires
            &&& after.now == db.now
            &&& after.stream_waiters == db.stream_waiters
            &&& after.outbox == db.outbox
        }),
    decreases db.list_waiters[key].len(),
{
    if model::can_serve(db, key) {
        let list = db.list_at(key)->Ok_0->Some_0;
        let next = model::served_one(db, key);
        lemma_serve_tells(
            next,
            replies.insert(db.list_waiters[key][0].0, model::element_reply(key, list[0])),
            key,
            client,
        );
    }
}

proof fn lemma_serve_all_tells(
    db: DbView,
    replies: Map<ClientId, RespView>,
    keys: Seq<Seq<u8>>,
    client: ClientId,
)
    requires
        parked_once(db.list_waiters),
    ensures
        ({
            let after = model::serve_all(db, replies, keys).0;
            &&& after.watches.contains_key(client) == db.watches.contains_key(client)
            &&& db.watches.contains_key(client) ==> {
                &&& after.watches[client].keys == db.watches[client].keys
                &&& after.watches[client].dirty <==> db.watches[client].dirty || exists|
                    key: Seq<u8>,
                | #[trigger]
                    gone(db, keys, key) > 0 && db.watches[client].keys.contains(key)
            }
            &&& after.expires == db.expires
            &&& after.now == db.now
            &&& after.stream_waiters == db.stream_waiters
            &&& after.outbox == db.outbox
        }),
    decreases keys.len(),
{
    if keys.len() > 0 {
        let first = keys[0];
        let rest = keys.drop_first();
        let one = seq![first];
        assert(one[0] == first);
        let (mid, midway) = model::serve(db, replies, first);
        lemma_serve(db, replies, first);
        lemma_parked_after(db, mid, one);
        lemma_serve_tells(db, replies, first, client);
        lemma_serve_all_tells(mid, midway, rest, client);
        assert(matched(mid, first) == 0) by {
            assert(moved_on(db, mid, first, gone(db, one, first)));
        }
        assert forall|k: Seq<u8>| k != first implies #[trigger] matched(mid, k) == matched(
            db,
            k,
        ) by {
            assert(moved_on(db, mid, k, gone(db, one, k)));
            lemma_moved_nowhere(db, k);
        }
        assert forall|k: Seq<u8>| #[trigger]
            keys.contains(k) == (k == first || rest.contains(k)) by {
            if rest.contains(k) {
                let i = choose|i: int| 0 <= i < rest.len() && rest[i] == k;
                assert(keys[i + 1] == k);
            }
            if keys.contains(k) && k != first {
                let i = choose|i: int| 0 <= i < keys.len() && keys[i] == k;
                assert(rest[i - 1] == k);
            }
        }
        if db.watches.contains_key(client) {
            let watch = db.watches[client];
            if exists|key: Seq<u8>| #[trigger]
                gone(mid, rest, key) > 0 && watch.keys.contains(key) {
                let key = choose|key: Seq<u8>| #[trigger]
                    gone(mid, rest, key) > 0 && watch.keys.contains(key);
                assert(matched(mid, key) == matched(db, key) || key == first);
                assert(gone(db, keys, key) > 0);
            }
            if matched(db, first) > 0 && watch.keys.contains(first) {
                assert(gone(db, keys, first) > 0);
            }
            if exists|key: Seq<u8>| #[trigger]
                gone(db, keys, key) > 0 && watch.keys.contains(key) {
                let key = choose|key: Seq<u8>| #[trigger]
                    gone(db, keys, key) > 0 && watch.keys.contains(key);
                if key != first {
                    assert(matched(mid, key) == matched(db, key));
                    assert(gone(mid, rest, key) > 0);
                }
            }
        }
    }
}

/// Law: a round tells those who watch a key from which an element went to a waiting
/// client, and nobody else. It leaves the clock, the times of the keys, and those who
/// wait on streams as they are, and no key remains to be served.
pub proof fn law_list_round_tells_watchers(db: DbView, client: ClientId)
    requires
        db.due_keys_known(),
        parked_once(db.list_waiters),
    ensures
        ({
            let after = model::list_round(db).0;
            let start = without_timeouts(db);
            &&& after.watches.contains_key(client) == db.watches.contains_key(client)
            &&& db.watches.contains_key(client) ==> {
                &&& after.watches[client].keys == db.watches[client].keys
                &&& after.watches[client].dirty <==> db.watches[client].dirty || exists|
                    key: Seq<u8>,
                | #[trigger]
                    matched(start, key) > 0 && db.watches[client].keys.contains(key)
            }
            &&& after.expires == db.expires
            &&& after.now == db.now
            &&& after.stream_waiters == db.stream_waiters
            &&& after.outbox.len() == 0
        }),
{
    let start = without_timeouts(db);
    lemma_left_parked_once(db.list_waiters, db.now);
    lemma_serve_all_tells(
        start,
        model::timeout_replies(db.list_waiters, db.now),
        db.outbox,
        client,
    );
    assert forall|key: Seq<u8>| #[trigger] matched(start, key) == gone(
        start,
        db.outbox,
        key,
    ) by {
        if matched(start, key) > 0 {
            lemma_left(db.list_waiters, db.now, key, 0);
            assert(model::can_serve(db, key));
        }
    }
    if db.watches.contains_key(client) {
        let watch = db.watches[client];
        if exists|key: Seq<u8>| #[trigger]
            gone(start, db.outbox, key) > 0 && watch.keys.contains(key) {
            let key = choose|key: Seq<u8>| #[trigger]
                gone(start, db.outbox, key) > 0 && watch.keys.contains(key);
            assert(matched(start, key) > 0);
        }
        if exists|key: Seq<u8>| #[trigger]
            matched(start, key) > 0 && watch.keys.contains(key) {
            let key = choose|key: Seq<u8>| #[trigger]
                matched(start, key) > 0 && watch.keys.contains(key);
            assert(gone(start, db.outbox, key) > 0);
        }
    }
}

/// Law: the time that a round for lists returns is the least that is left to any
/// client that goes on waiting; there is none where nobody has a deadline ahead.
pub proof fn law_nearest_list_timeout(
    waiters: Map<Seq<u8>, Seq<Waiter>>,
    now: Duration,
    nearest: Option<Duration>,
    key: Seq<u8>,
    i: int,
)
    requires
        model::nearest_timeout(waiters, now, nearest),
    ensures
        waiters.contains_key(key) && 0 <= i < waiters[key].len() && waiters[key][i].1 is Some && (
        waiters[key][i].1->0).nanos > now.nanos ==> nearest is Some && (nearest->0).nanos <= (
        waiters[key][i].1->0).nanos - now.nanos,
        nearest is Some ==> exists|k: Seq<u8>, j: int|
            #![trigger waiters[k][j]]
            waiters.contains_key(k) && 0 <= j < waiters[k].len() && waiters[k][j].1 is Some && (
            waiters[k][j].1->0).nanos == now.nanos + (nearest->0).nanos && (nearest->0).nanos > 0,
{
    if waiters.contains_key(key) && 0 <= i < waiters[key].len() && waiters[key][i].1 is Some && (
    waiters[key][i].1->0).nanos > now.nanos {
        let left = (waiters[key][i].1->0).minus(now);
        assert(waiters[key][i].1 == Some(waiters[key][i].1->0));
        assert(model::gives_up_in(waiters, now, left));
    }
    if nearest is Some {
        assert(model::gives_up_in(waiters, now, nearest->0));
        let (k, j) = choose|k: Seq<u8>, j: int|
            #![trigger waiters[k][j]]
            waiters.contains_key(k) && 0 <= j < waiters[k].len() && model::ahead(
                waiters[k][j].1,
                now,
            ) && waiters[k][j].1 is Some && nearest->0 == waiters[k][j].1->0.minus(now);
        assert((waiters[k][j].1->0).nanos == now.nanos + (nearest->0).nanos);
    }
}

/// What can be read at `key`.
spec fn readable(db: DbView, key: Seq<u8>) -> Option<ObjectView> {
    if db.keyspace.contains_key(key) && !(db.expires.contains_key(key) && db.expires[key].nanos
        <= db.now.nanos) {
        Some(db.keyspace[key])
    } else {
        None
    }
}

proof fn lemma_reading_changes_nothing(
    db: DbView,
    positions: Seq<PositionView>,
    key: Seq<u8>,
)
    ensures
        readable(model::read_positions(db, positions).0, key) == readable(db, key),
    decreases positions.len(),
{
    if positions.len() > 0 {
        let first = positions[0].0;
        lemma_reading_changes_nothing(db.lapsed(first), positions.drop_first(), key);
        assert(readable(db.lapsed(first), key) == readable(db, key));
    }
}

proof fn lemma_steps_change_nothing(
    round: StreamRound,
    pending: Seq<StreamWaitView>,
    key: Seq<u8>,
)
    ensures
        ({
            let after = model::stream_steps(round, pending).db;
            &&& readable(after, key) == readable(round.db, key)
            &&& after.now == round.db.now
            &&& after.list_waiters == round.db.list_waiters
            &&& after.outbox == round.db.outbox
        }),
    decreases pending.len(),
{
    if pending.len() > 0 {
        lemma_reading_changes_nothing(round.db, pending[0].positions, key);
        crate::db::waiters::lemma_read_keeps(round.db, pending[0].positions);
        lemma_steps_change_nothing(
            model::stream_step(round, pending[0]),
            pending.drop_first(),
            key,
        );
    }
}

/// Law: a round for streams changes nothing that can be read, nor the clock, nor who
/// waits on lists.
pub proof fn law_stream_round_changes_nothing(db: DbView, key: Seq<u8>)
    ensures
        ({
            let after = model::stream_round(db).db;
            let over = db.expires.contains_key(key) && db.expires[key].nanos <= db.now.nanos;
            let over_after = after.expires.contains_key(key) && after.expires[key].nanos
                <= after.now.nanos;
            let there = db.keyspace.contains_key(key) && !over;
            &&& there == (after.keyspace.contains_key(key) && !over_after)
            &&& there ==> after.keyspace[key] == db.keyspace[key]
            &&& after.now == db.now
            &&& after.list_waiters == db.list_waiters
            &&& after.outbox == db.outbox
        }),
{
    let start = StreamRound {
        db: DbView { stream_waiters: Seq::empty(), ..db },
        waiting: Seq::empty(),
        replies: Map::empty(),
        nearest: None,
    };
    lemma_steps_change_nothing(start, db.stream_waiters, key);
    assert(readable(start.db, key) == readable(db, key));
}


/// Law: a client goes on waiting for a list exactly as long as its deadline, if it has
/// one, is still to come, and keeps its place; and it has timed out from then on.
pub proof fn law_who_goes_on_waiting(
    waiters: Map<Seq<u8>, Seq<Waiter>>,
    now: Duration,
    key: Seq<u8>,
    client: ClientId,
)
    ensures
        ({
            let left = model::waiters_left(waiters, now);
            let keep = |waiter: Waiter| waiter.1 is None || (waiter.1->0).nanos > now.nanos;
            &&& left.contains_key(key) <==> waiters.contains_key(key) && waiters[key].filter(
                keep,
            ).len() > 0
            &&& left.contains_key(key) ==> left[key] == waiters[key].filter(keep)
            &&& model::timed_out(waiters, now, client) <==> exists|k: Seq<u8>, i: int|
                #![trigger waiters[k][i]]
                waiters.contains_key(k) && 0 <= i < waiters[k].len() && waiters[k][i].0 == client
                    && waiters[k][i].1 is Some && (waiters[k][i].1->0).nanos <= now.nanos
        }),
{
    let keep = |waiter: Waiter| waiter.1 is None || (waiter.1->0).nanos > now.nanos;
    let ahead = |waiter: Waiter| model::ahead(waiter.1, now);
    assert forall|waiter: Waiter| keep(waiter) == #[trigger] ahead(waiter) by {}
    lemma_filter_alike(waiters[key], keep, ahead);
    if model::timed_out(waiters, now, client) {
        let (k, i) = choose|k: Seq<u8>, i: int|
            #![trigger waiters[k][i]]
            waiters.contains_key(k) && 0 <= i < waiters[k].len() && waiters[k][i].0 == client
                && !model::ahead(waiters[k][i].1, now);
        assert(waiters[k][i].1 is Some);
    }
    if exists|k: Seq<u8>, i: int|
        #![trigger waiters[k][i]]
        waiters.contains_key(k) && 0 <= i < waiters[k].len() && waiters[k][i].0 == client
            && waiters[k][i].1 is Some && (waiters[k][i].1->0).nanos <= now.nanos {
        let (k, i) = choose|k: Seq<u8>, i: int|
            #![trigger waiters[k][i]]
            waiters.contains_key(k) && 0 <= i < waiters[k].len() && waiters[k][i].0 == client
                && waiters[k][i].1 is Some && (waiters[k][i].1->0).nanos <= now.nanos;
        assert(!model::ahead(waiters[k][i].1, now));
    }
}

proof fn lemma_filter_alike<T>(all: Seq<T>, a: spec_fn(T) -> bool, b: spec_fn(T) -> bool)
    requires
        forall|item: T| a(item) == #[trigger] b(item),
    ensures
        all.filter(a) == all.filter(b),
    decreases all.len(),
{
    reveal(Seq::filter);
    if all.len() > 0 {
        lemma_filter_alike(all.drop_last(), a, b);
        assert(a(all.last()) == b(all.last()));
    }
}

/// Law: who waits on streams goes on waiting exactly as long as there is nothing to
/// read and the deadline, if there is one, is still to come.
pub proof fn law_who_goes_on_reading(db: DbView, wait: StreamWaitView)
    ensures
        waits_on(db)(wait) <==> !(model::snapshot(db, wait.positions) matches Ok(Some(_))) && (
        wait.deadline is None || (wait.deadline->0).nanos > db.now.nanos),
{
}


/// What a filter leaves is what was there and is kept.
proof fn lemma_in_filter<T>(all: Seq<T>, keep: spec_fn(T) -> bool, item: T)
    ensures
        all.filter(keep).contains(item) <==> all.contains(item) && keep(item),
    decreases all.len(),
{
    reveal(Seq::filter);
    if all.len() > 0 {
        let before = all.drop_last();
        let last = all.last();
        lemma_in_filter(before, keep, item);
        assert(before.push(last) =~= all);
        lemma_in_push(before, last, item);
        lemma_in_push(before.filter(keep), last, item);
    }
}

proof fn lemma_in_push<T>(all: Seq<T>, last: T, item: T)
    ensures
        all.push(last).contains(item) <==> all.contains(item) || item == last,
{
    if all.contains(item) {
        let i = choose|i: int| 0 <= i < all.len() && all[i] == item;
        assert(all.push(last)[i] == item);
    }
    assert(all.push(last)[all.len() as int] == last);
}

} // verus!
