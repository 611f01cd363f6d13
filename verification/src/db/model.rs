//! The database as a mathematical value, and what each operation makes of it.
use vstd::prelude::*;
use crate::client::ClientId;
use crate::command::common::ErrorView;
use crate::db::key_value;
use crate::db::object;
use crate::db::object::{EntryView, FieldsView, ObjectView};
use crate::db::stream_id;
use crate::db::stream_id::{StreamId, StreamIdSpec};
use crate::resp::RespView;
use crate::text;
use crate::time;
use crate::time::Duration;

verus! {

/// A client that waits on a list, and until when.
pub type Waiter = (ClientId, Option<Duration>);

/// A position in a stream: the key, and the first id of interest.
pub type PositionView = (Seq<u8>, StreamId);

/// A client that waits on streams.
#[verifier::ext_equal]
pub struct StreamWaitView {
    pub client_id: ClientId,
    pub positions: Seq<PositionView>,
    pub deadline: Option<Duration>,
}

/// What a client watches, and whether any of it was touched since.
#[verifier::ext_equal]
pub struct WatchView {
    pub keys: Set<Seq<u8>>,
    pub dirty: bool,
}

/// The whole state of a database.
#[verifier::ext_equal]
pub struct DbView {
    pub keyspace: Map<Seq<u8>, ObjectView>,
    pub expires: Map<Seq<u8>, Duration>,
    pub list_waiters: Map<Seq<u8>, Seq<Waiter>>,
    pub watches: Map<ClientId, WatchView>,
    pub outbox: Seq<Seq<u8>>,
    pub stream_waiters: Seq<StreamWaitView>,
    pub now: Duration,
}

/// Every client that watches `key` is dirty.
pub open spec fn touch_watches(watches: Map<ClientId, WatchView>, key: Seq<u8>) -> Map<
    ClientId,
    WatchView,
> {
    watches.map_values(
        |watch: WatchView|
            WatchView { keys: watch.keys, dirty: watch.dirty || watch.keys.contains(key) },
    )
}

pub open spec fn watch_all(
    watches: Map<ClientId, WatchView>,
    client: ClientId,
    keys: Seq<Seq<u8>>,
) -> Map<ClientId, WatchView> {
    if keys.len() == 0 {
        watches
    } else {
        let watch = if watches.contains_key(client) {
            watches[client]
        } else {
            WatchView { keys: Set::empty(), dirty: false }
        };
        watches.insert(
            client,
            WatchView { keys: watch.keys.union(keys.to_set()), dirty: watch.dirty },
        )
    }
}

pub open spec fn deadline(now: Duration, timeout: Option<Duration>) -> Option<Duration> {
    match timeout {
        Some(t) => Some(now.plus(t)),
        None => None,
    }
}

impl DbView {
    pub open spec fn fresh(now: Duration) -> DbView {
        DbView {
            keyspace: Map::empty(),
            expires: Map::empty(),
            list_waiters: Map::empty(),
            watches: Map::empty(),
            outbox: Seq::empty(),
            stream_waiters: Seq::empty(),
            now,
        }
    }

    // -----------------------------------------------------------
    // Watches, removal and expiry
    // -----------------------------------------------------------

    /// Every client that watches `key` is told that it was touched.
    pub open spec fn touched(self, key: Seq<u8>) -> DbView {
        DbView {
            watches: touch_watches(self.watches, key),
            ..self
        }
    }

    pub open spec fn removed(self, key: Seq<u8>) -> DbView {
        DbView {
            keyspace: self.keyspace.remove(key),
            expires: self.expires.remove(key),
            ..self.touched(key)
        }
    }

    pub open spec fn is_expired(self, key: Seq<u8>) -> bool {
        self.expires.contains_key(key) && self.expires[key].nanos <= self.now.nanos
    }

    /// `key` is gone if its time is over.
    pub open spec fn lapsed(self, key: Seq<u8>) -> DbView {
        if self.is_expired(key) {
            self.removed(key)
        } else {
            self
        }
    }

    pub open spec fn stored(self, key: Seq<u8>, object: ObjectView) -> DbView {
        DbView { keyspace: self.keyspace.insert(key, object), ..self }
    }

    pub open spec fn is_dirty(self, client: ClientId) -> bool {
        self.watches.contains_key(client) && self.watches[client].dirty
    }

    /// `client` watches `keys` too. What it was told before stays told.
    pub open spec fn watching(self, client: ClientId, keys: Seq<Seq<u8>>) -> DbView {
        DbView { watches: watch_all(self.watches, client, keys), ..self }
    }

    pub open spec fn unwatched(self, client: ClientId) -> DbView {
        DbView { watches: self.watches.remove(client), ..self }
    }

    pub open spec fn kind_text(self, key: Seq<u8>) -> Seq<char> {
        if self.keyspace.contains_key(key) {
            self.keyspace[key].type_text()
        } else {
            "none"@
        }
    }

    // -----------------------------------------------------------
    // Strings
    // -----------------------------------------------------------

    pub open spec fn string_at(self, key: Seq<u8>) -> Result<Option<Seq<u8>>, ErrorView> {
        if !self.keyspace.contains_key(key) {
            Ok(None)
        } else {
            match self.keyspace[key] {
                ObjectView::String(value) => Ok(Some(value)),
                _ => Err(ErrorView::WrongType("string"@)),
            }
        }
    }

    pub open spec fn set(self, key: Seq<u8>, value: Seq<u8>) -> DbView {
        self.touched(key).stored(key, ObjectView::String(value))
    }

    pub open spec fn setex(self, key: Seq<u8>, value: Seq<u8>, ex_at: Option<Duration>) -> DbView {
        let timed = match ex_at {
            Some(ex) => DbView { expires: self.expires.insert(key, ex), ..self },
            None => self,
        };
        timed.set(key, value)
    }

    /// The number that INCR leaves: one more than the value, or one. A value
    /// that is no number of 64 bits, or the greatest of them, has no successor.
    pub open spec fn next_int(self, key: Seq<u8>) -> Result<int, ErrorView> {
        match self.string_at(key) {
            Err(e) => Err(e),
            Ok(None) => Ok(1),
            Ok(Some(value)) => match key_value::value_int(value) {
                Some(n) => if n < i64::MAX {
                    Ok(n + 1)
                } else {
                    Err(ErrorView::NotAnInteger)
                },
                None => Err(ErrorView::NotAnInteger),
            },
        }
    }

    pub open spec fn incr(self, key: Seq<u8>) -> DbView {
        let db = self.lapsed(key);
        match db.next_int(key) {
            Ok(n) => db.set(key, text::signed_decimal(n)),
            Err(_) => db,
        }
    }

    // -----------------------------------------------------------
    // Lists
    // -----------------------------------------------------------

    pub open spec fn list_at(self, key: Seq<u8>) -> Result<Option<Seq<Seq<u8>>>, ErrorView> {
        if !self.keyspace.contains_key(key) {
            Ok(None)
        } else {
            match self.keyspace[key] {
                ObjectView::List(list) => Ok(Some(list)),
                _ => Err(ErrorView::WrongType("list"@)),
            }
        }
    }

    /// The list at `key`, which is empty where there is none.
    pub open spec fn list_or_empty(self, key: Seq<u8>) -> Result<Seq<Seq<u8>>, ErrorView> {
        match self.list_at(key) {
            Ok(Some(list)) => Ok(list),
            Ok(None) => Ok(Seq::empty()),
            Err(e) => Err(e),
        }
    }

    /// `list` stands at `key` after a push, and waiting clients are to be served.
    pub open spec fn pushed(self, key: Seq<u8>, list: Seq<Seq<u8>>) -> DbView {
        DbView {
            outbox: if self.list_waiters.contains_key(key) {
                self.outbox.push(key)
            } else {
                self.outbox
            },
            ..self.stored(key, ObjectView::List(list))
        }
    }

    pub open spec fn list_append(self, key: Seq<u8>, elems: Seq<Seq<u8>>) -> DbView {
        let db = self.touched(key);
        match db.list_or_empty(key) {
            Ok(list) => db.pushed(key, list + elems),
            Err(_) => db,
        }
    }

    /// Each element goes to the front in its turn, so the last stands first.
    pub open spec fn list_prepend(self, key: Seq<u8>, elems: Seq<Seq<u8>>) -> DbView {
        let db = self.touched(key);
        match db.list_or_empty(key) {
            Ok(list) => db.pushed(key, elems.reverse() + list),
            Err(_) => db,
        }
    }

    pub open spec fn list_pop(self, key: Seq<u8>, count: nat) -> DbView {
        let db = self.touched(key).lapsed(key);
        match db.list_at(key) {
            Ok(Some(list)) => db.stored(key, ObjectView::List(list.skip(pop_count(list, count)))),
            _ => db,
        }
    }

    /// What LPOP takes from the front.
    pub open spec fn popped(self, key: Seq<u8>, count: nat) -> Result<Seq<Seq<u8>>, ErrorView> {
        match self.lapsed(key).list_at(key) {
            Ok(Some(list)) => Ok(list.take(pop_count(list, count))),
            Ok(None) => Ok(Seq::empty()),
            Err(e) => Err(e),
        }
    }

    /// What BLPOP finds at once.
    pub open spec fn blpop_item(self, key: Seq<u8>) -> Result<Option<Seq<u8>>, ErrorView> {
        match self.lapsed(key).list_at(key) {
            Ok(Some(list)) => if list.len() > 0 {
                Ok(Some(list[0]))
            } else {
                Ok(None)
            },
            Ok(None) => Ok(None),
            Err(e) => Err(e),
        }
    }

    /// BLPOP takes the first element, or changes nothing else where there is none.
    pub open spec fn blpop_now(self, key: Seq<u8>) -> DbView {
        let db = self.touched(key).lapsed(key);
        match self.blpop_item(key) {
            Ok(Some(_)) => db.stored(
                key,
                ObjectView::List(db.list_at(key)->Ok_0->Some_0.skip(1)),
            ),
            _ => db,
        }
    }

    /// Every key that has both an element and a client that waits for it is among
    /// the keys to be served.
    pub open spec fn due_keys_known(self) -> bool {
        forall|key: Seq<u8>| #[trigger] can_serve(self, key) ==> self.outbox.contains(key)
    }

    pub open spec fn list_wait(self, key: Seq<u8>, waiter: Waiter) -> DbView {
        let queue = if self.list_waiters.contains_key(key) {
            self.list_waiters[key]
        } else {
            Seq::empty()
        };
        DbView { list_waiters: self.list_waiters.insert(key, queue.push(waiter)), ..self }
    }

    pub open spec fn blpop(
        self,
        key: Seq<u8>,
        timeout: Option<Duration>,
        client: ClientId,
    ) -> DbView {
        match self.blpop_item(key) {
            Ok(None) => self.blpop_now(key).list_wait(key, (client, deadline(self.now, timeout))),
            _ => self.blpop_now(key),
        }
    }

    // -----------------------------------------------------------
    // Streams
    // -----------------------------------------------------------

    pub open spec fn stream_at(self, key: Seq<u8>) -> Result<Option<Seq<EntryView>>, ErrorView> {
        if !self.keyspace.contains_key(key) {
            Ok(None)
        } else {
            match self.keyspace[key] {
                ObjectView::Stream(stream) => Ok(Some(stream)),
                _ => Err(ErrorView::WrongType("stream"@)),
            }
        }
    }

    pub open spec fn stream_or_empty(self, key: Seq<u8>) -> Result<Seq<EntryView>, ErrorView> {
        match self.stream_at(key) {
            Ok(Some(stream)) => Ok(stream),
            Ok(None) => Ok(Seq::empty()),
            Err(e) => Err(e),
        }
    }

    /// A stream stands at `key`, unless something else does.
    pub open spec fn stream_created(self, key: Seq<u8>) -> DbView {
        if self.keyspace.contains_key(key) {
            self
        } else {
            self.stored(key, ObjectView::Stream(Seq::empty()))
        }
    }

    /// The entries of the stream at `key` from `start` to `end`.
    pub open spec fn stream_range(self, key: Seq<u8>, start: StreamId, end: StreamId) -> Result<
        Seq<EntryView>,
        ErrorView,
    > {
        match self.lapsed(key).stream_or_empty(key) {
            Ok(entries) => Ok(object::entries_between(entries, start, end)),
            Err(e) => Err(e),
        }
    }

    /// The id that XADD gives to the next entry.
    pub open spec fn added_id(self, key: Seq<u8>, spec_id: StreamIdSpec) -> Result<
        StreamId,
        ErrorView,
    > {
        match self.stream_or_empty(key) {
            Err(e) => Err(e),
            Ok(entries) => next_id(
                object::last_entry_id(entries),
                spec_id,
                (self.now.nanos / 1_000_000) as u64,
            ),
        }
    }

    pub open spec fn stream_add(
        self,
        key: Seq<u8>,
        spec_id: StreamIdSpec,
        fields: FieldsView,
    ) -> DbView {
        let db = self.touched(key).stream_created(key);
        match self.added_id(key, spec_id) {
            Ok(id) => db.stored(
                key,
                ObjectView::Stream(db.stream_or_empty(key)->Ok_0.push((id, fields))),
            ),
            Err(_) => db,
        }
    }

    pub open spec fn stream_wait(self, wait: StreamWaitView) -> DbView {
        DbView { stream_waiters: self.stream_waiters.push(wait), ..self }
    }
}

pub open spec fn pop_count(list: Seq<Seq<u8>>, count: nat) -> int {
    if count <= list.len() {
        count as int
    } else {
        list.len() as int
    }
}

/// The part of a list from index `from` to index `to`, both included. Negative
/// indices count from the end, and indices out of range are drawn in.
pub open spec fn list_slice<T>(list: Seq<T>, from: int, to: int) -> Seq<T> {
    let n = list.len() as int;
    let first = if from >= 0 {
        from
    } else if n + from >= 0 {
        n + from
    } else {
        0
    };
    let wanted = if to < 0 {
        to + n
    } else {
        to
    };
    let last = if wanted <= n - 1 {
        wanted
    } else {
        n - 1
    };
    if first > last {
        Seq::empty()
    } else {
        list.subrange(first, last + 1)
    }
}

/// The id of the next entry behind `last`: the one asked for, or the next
/// sequence number of its millisecond. It has to be greater than `last` and
/// than 0-0; a millisecond whose sequence numbers are used up has no next id.
pub open spec fn next_id(last: Option<StreamId>, spec_id: StreamIdSpec, now_ms: u64) -> Result<
    StreamId,
    ErrorView,
> {
    match spec_id {
        StreamIdSpec::Explicit(id) => accepted_id(last, id),
        StreamIdSpec::AutoSeq(ms) => match next_seq(last, ms, if ms == 0 { 1 } else { 0 }) {
            Some(seq) => accepted_id(last, StreamId { ms, seq }),
            None => Err(ErrorView::InvalidStream),
        },
        StreamIdSpec::Auto => match next_seq(last, now_ms, 0) {
            Some(seq) => accepted_id(last, StreamId { ms: now_ms, seq }),
            None => Err(ErrorView::InvalidStream),
        },
    }
}

pub open spec fn next_seq(last: Option<StreamId>, ms: u64, first: u64) -> Option<u64> {
    match last {
        Some(last) => if last.ms == ms {
            if last.seq < u64::MAX {
                Some((last.seq + 1) as u64)
            } else {
                None
            }
        } else {
            Some(first)
        },
        None => Some(first),
    }
}

pub open spec fn accepted_id(last: Option<StreamId>, id: StreamId) -> Result<StreamId, ErrorView> {
    if id == StreamId::first_of_all() {
        Err(ErrorView::InvalidStreamZero)
    } else {
        match last {
            Some(top) => if top.precedes(id) {
                Ok(id)
            } else {
                Err(ErrorView::InvalidStream)
            },
            None => Ok(id),
        }
    }
}

// ---------------------------------------------------------------
// Stream entries as replies
// ---------------------------------------------------------------

/// Names and values in turn.
pub open spec fn fields_reply(fields: FieldsView) -> RespView {
    RespView::Array(
        Some(
            Seq::new(
                2 * fields.len(),
                |i: int|
                    RespView::Bulk(
                        Some(
                            if i % 2 == 0 {
                                fields[i / 2].0
                            } else {
                                fields[i / 2].1
                            },
                        ),
                    ),
            ),
        ),
    )
}

pub open spec fn entry_reply(entry: EntryView) -> RespView {
    RespView::Array(
        Some(
            seq![
                RespView::Bulk(Some(stream_id::id_bytes(entry.0))),
                fields_reply(entry.1),
            ],
        ),
    )
}

pub open spec fn entries_reply(entries: Seq<EntryView>) -> RespView {
    RespView::Array(Some(entries.map_values(|entry: EntryView| entry_reply(entry))))
}

pub open spec fn stream_reply(key: Seq<u8>, entries: Seq<EntryView>) -> RespView {
    RespView::Array(Some(seq![RespView::Bulk(Some(key)), entries_reply(entries)]))
}

/// The replies for those of `positions` that have entries, and the database
/// after reading them. Nothing is read behind a key of another type.
pub open spec fn read_positions(db: DbView, positions: Seq<PositionView>) -> (
    DbView,
    Result<Seq<RespView>, ErrorView>,
)
    decreases positions.len(),
{
    if positions.len() == 0 {
        (db, Ok(Seq::empty()))
    } else {
        let (key, start) = positions[0];
        match db.stream_range(key, start, StreamId::last_of_all()) {
            Err(e) => (db.lapsed(key), Err(e)),
            Ok(entries) => {
                let (after, rest) = read_positions(db.lapsed(key), positions.drop_first());
                (
                    after,
                    match rest {
                        Err(e) => Err(e),
                        Ok(replies) => Ok(
                            if entries.len() > 0 {
                                seq![stream_reply(key, entries)] + replies
                            } else {
                                replies
                            },
                        ),
                    },
                )
            },
        }
    }
}

/// What XREAD finds at once: nothing, or the streams that have entries.
pub open spec fn snapshot(db: DbView, positions: Seq<PositionView>) -> Result<
    Option<RespView>,
    ErrorView,
> {
    match read_positions(db, positions).1 {
        Err(e) => Err(e),
        Ok(replies) => Ok(
            if replies.len() > 0 {
                Some(RespView::Array(Some(replies)))
            } else {
                None
            },
        ),
    }
}

// ---------------------------------------------------------------
// Waiting clients
// ---------------------------------------------------------------

/// Whether a deadline is still ahead.
pub open spec fn ahead(deadline: Option<Duration>, now: Duration) -> bool {
    match deadline {
        Some(at) => at.nanos > now.nanos,
        None => true,
    }
}

/// The waiters of a queue that have not timed out, in their order.
pub open spec fn still_waiting(queue: Seq<Waiter>, now: Duration) -> Seq<Waiter> {
    queue.filter(|waiter: Waiter| ahead(waiter.1, now))
}

/// A client that waits somewhere has timed out.
pub open spec fn timed_out(
    waiters: Map<Seq<u8>, Seq<Waiter>>,
    now: Duration,
    client: ClientId,
) -> bool {
    exists|key: Seq<u8>, i: int|
        #![trigger waiters[key][i]]
        waiters.contains_key(key) && 0 <= i < waiters[key].len() && waiters[key][i].0 == client
            && !ahead(waiters[key][i].1, now)
}

/// Some waiter is to give up `left` from now.
pub open spec fn gives_up_in(
    waiters: Map<Seq<u8>, Seq<Waiter>>,
    now: Duration,
    left: Duration,
) -> bool {
    exists|key: Seq<u8>, i: int|
        #![trigger waiters[key][i]]
        waiters.contains_key(key) && 0 <= i < waiters[key].len() && ahead(waiters[key][i].1, now)
            && waiters[key][i].1 is Some && left == waiters[key][i].1->0.minus(now)
}

/// `nearest` is the time until the first waiter gives up, if any ever does.
pub open spec fn nearest_timeout(
    waiters: Map<Seq<u8>, Seq<Waiter>>,
    now: Duration,
    nearest: Option<Duration>,
) -> bool {
    match nearest {
        Some(left) => {
            &&& gives_up_in(waiters, now, left)
            &&& forall|other: Duration| #[trigger]
                gives_up_in(waiters, now, other) ==> left.nanos <= other.nanos
        },
        None => forall|other: Duration| !#[trigger] gives_up_in(waiters, now, other),
    }
}

/// The waiters that have not timed out; a key without any is forgotten.
pub open spec fn waiters_left(waiters: Map<Seq<u8>, Seq<Waiter>>, now: Duration) -> Map<
    Seq<u8>,
    Seq<Waiter>,
> {
    Map::new(
        |key: Seq<u8>| waiters.contains_key(key) && still_waiting(waiters[key], now).len() > 0,
        |key: Seq<u8>| still_waiting(waiters[key], now),
    )
}

/// The replies to the clients that have timed out.
pub open spec fn timeout_replies(waiters: Map<Seq<u8>, Seq<Waiter>>, now: Duration) -> Map<
    ClientId,
    RespView,
> {
    Map::new(
        |client: ClientId| timed_out(waiters, now, client),
        |client: ClientId| RespView::Array(None),
    )
}

/// An element and a client that waits for it are both there.
pub open spec fn can_serve(db: DbView, key: Seq<u8>) -> bool {
    &&& db.list_at(key) matches Ok(Some(list))
    &&& list.len() > 0
    &&& db.list_waiters.contains_key(key)
    &&& db.list_waiters[key].len() > 0
}

/// The first waiter at `key` has got the first element.
pub open spec fn served_one(db: DbView, key: Seq<u8>) -> DbView {
    let list = db.list_at(key)->Ok_0->Some_0;
    DbView {
        list_waiters: db.list_waiters.insert(key, db.list_waiters[key].skip(1)),
        ..db.touched(key).stored(key, ObjectView::List(list.skip(1)))
    }
}

pub open spec fn element_reply(key: Seq<u8>, element: Seq<u8>) -> RespView {
    RespView::Array(Some(seq![RespView::Bulk(Some(key)), RespView::Bulk(Some(element))]))
}

/// Elements at `key` go to its waiters, first to first, while there are both.
pub open spec fn serve(db: DbView, replies: Map<ClientId, RespView>, key: Seq<u8>) -> (
    DbView,
    Map<ClientId, RespView>,
)
    decreases db.list_waiters[key].len(),
{
    if can_serve(db, key) {
        let list = db.list_at(key)->Ok_0->Some_0;
        serve(
            served_one(db, key),
            replies.insert(db.list_waiters[key][0].0, element_reply(key, list[0])),
            key,
        )
    } else {
        (db, replies)
    }
}

/// The keys are served one after the other.
pub open spec fn serve_all(
    db: DbView,
    replies: Map<ClientId, RespView>,
    keys: Seq<Seq<u8>>,
) -> (DbView, Map<ClientId, RespView>)
    decreases keys.len(),
{
    if keys.len() == 0 {
        (db, replies)
    } else {
        let (after, told) = serve(db, replies, keys[0]);
        serve_all(after, told, keys.drop_first())
    }
}

/// One round for the clients that wait on lists: those that have timed out get
/// a null array, then the keys that were pushed to are served.
pub open spec fn list_round(db: DbView) -> (DbView, Map<ClientId, RespView>) {
    serve_all(
        DbView {
            list_waiters: waiters_left(db.list_waiters, db.now),
            outbox: Seq::empty(),
            ..db
        },
        timeout_replies(db.list_waiters, db.now),
        db.outbox,
    )
}

/// What a round for the clients that wait on streams leaves.
#[verifier::ext_equal]
pub struct StreamRound {
    pub db: DbView,
    pub waiting: Seq<StreamWaitView>,
    pub replies: Map<ClientId, RespView>,
    pub nearest: Option<Duration>,
}

/// One waiting client is looked after: it gets what there is to read, or a null
/// array if its time is over, or it waits on.
pub open spec fn stream_step(round: StreamRound, wait: StreamWaitView) -> StreamRound {
    let db = read_positions(round.db, wait.positions).0;
    match snapshot(round.db, wait.positions) {
        Ok(Some(reply)) => StreamRound {
            db,
            replies: round.replies.insert(wait.client_id, reply),
            ..round
        },
        _ => if ahead(wait.deadline, db.now) {
            StreamRound {
                db,
                waiting: round.waiting.push(wait),
                nearest: match wait.deadline {
                    Some(at) => time::nearer(round.nearest, Some(at.minus(db.now))),
                    None => round.nearest,
                },
                ..round
            }
        } else {
            StreamRound {
                db,
                replies: round.replies.insert(wait.client_id, RespView::Array(None)),
                ..round
            }
        },
    }
}

pub open spec fn stream_steps(round: StreamRound, pending: Seq<StreamWaitView>) -> StreamRound
    decreases pending.len(),
{
    if pending.len() == 0 {
        round
    } else {
        stream_steps(stream_step(round, pending[0]), pending.drop_first())
    }
}

/// One round for the clients that wait on streams, in the order in which they
/// began to wait.
pub open spec fn stream_round(db: DbView) -> StreamRound {
    stream_steps(
        StreamRound {
            db: DbView { stream_waiters: Seq::empty(), ..db },
            waiting: Seq::empty(),
            replies: Map::empty(),
            nearest: None,
        },
        db.stream_waiters,
    )
}

// ---------------------------------------------------------------
// Sweeping
// ---------------------------------------------------------------

/// The keys are removed one after the other.
pub open spec fn removed_all(db: DbView, keys: Seq<Seq<u8>>) -> DbView
    decreases keys.len(),
{
    if keys.len() == 0 {
        db
    } else {
        removed_all(db.removed(keys[0]), keys.drop_first())
    }
}

/// `keys` are keys whose time is over: as many as `limit`, or all that there are.
pub open spec fn is_sweep(db: DbView, keys: Seq<Seq<u8>>, limit: nat) -> bool {
    &&& keys.no_duplicates()
    &&& keys.len() <= limit
    &&& forall|i: int| 0 <= i < keys.len() ==> db.is_expired(#[trigger] keys[i])
    &&& keys.len() < limit ==> forall|key: Seq<u8>| #[trigger]
        db.is_expired(key) ==> keys.contains(key)
}

} // verus!
