//! The keyspace.
pub mod due;
pub mod key_value;
pub mod laws;
pub mod model;
pub mod object;
pub mod reply;
pub mod rounds;
pub mod stream_id;
pub mod table;
pub mod waiters;
pub mod watch;

pub use key_value::{Key, Value};
pub use object::{Object, Stream};
pub use stream_id::{StreamId, StreamIdSpec};
pub use waiters::HandleWaitersResult;

use std::collections::VecDeque;
use vstd::prelude::*;
use crate::client::ClientId;
use crate::command::common::{CommandError, ErrorView};
use crate::resp;
use crate::resp::{RespBody, RespView};
use crate::time::Duration;
use self::model::{DbView, PositionView, StreamWaitView};
use self::object::{EntryView, ObjectView};
use self::table::Table;
use self::watch::Watches;

verus! {

/// One client's pending XREAD BLOCK: what it waits for, and when it gives up.
struct StreamWait {
    client_id: ClientId,
    positions: Vec<(Key, StreamId)>,
    deadline: Option<Duration>,
}

pub open spec fn positions_view(positions: Seq<(Key, StreamId)>) -> Seq<PositionView> {
    positions.map_values(|position: (Key, StreamId)| (position.0@, position.1))
}

impl View for StreamWait {
    type V = StreamWaitView;

    closed spec fn view(&self) -> StreamWaitView {
        StreamWaitView {
            client_id: self.client_id,
            positions: positions_view(self.positions@),
            deadline: self.deadline,
        }
    }
}

/// The keys of a server, what they hold, and who waits on them.
pub struct Db {
    keyspace: Table<Key, Object>,
    expires: Table<Key, Duration>,
    list_waiters: Table<Key, VecDeque<(ClientId, Option<Duration>)>>,
    watches: Watches,
    outbox: Vec<Key>,
    stream_waiters: Vec<StreamWait>,
    realtime_ms: Duration,
}

impl View for Db {
    type V = DbView;

    closed spec fn view(&self) -> DbView {
        DbView {
            keyspace: self.keyspace@.map_values(|object: Object| object@),
            expires: self.expires@,
            list_waiters: self.list_waiters@.map_values(
                |queue: VecDeque<(ClientId, Option<Duration>)>| queue@,
            ),
            watches: self.watches@,
            outbox: self.outbox@.map_values(|key: Key| key@),
            stream_waiters: self.stream_waiters@.map_values(|wait: StreamWait| wait@),
            now: self.realtime_ms,
        }
    }
}

impl Db {
    /// Each table has distinct keys, the ids in each stream increase, the index of
    /// watched keys is consistent, and the keys to be served are known.
    pub closed spec fn wf(self) -> bool {
        self.sound() && self@.due_keys_known()
    }

    /// [`Db::wf`] but for the keys to be served.
    spec fn sound(self) -> bool {
        &&& self.keyspace.wf()
        &&& self.expires.wf()
        &&& self.list_waiters.wf()
        &&& self.watches.wf()
        &&& forall|key: Seq<u8>| #[trigger]
            self.keyspace@.contains_key(key) ==> self.keyspace@[key].wf()
    }

    /// Law: in every database, a key that has both an element and a client that
    /// waits for it is among the keys to be served.
    pub proof fn law_due_keys_are_known(self)
        requires
            self.wf(),
        ensures
            self@.due_keys_known(),
    {
    }

    pub fn create(realtime_ms: Duration) -> (r: Self)
        ensures
            r.wf(),
            r@ == DbView::fresh(realtime_ms),
    {
        let r = Self {
            keyspace: Table::new(),
            expires: Table::new(),
            list_waiters: Table::new(),
            watches: Watches::new(),
            outbox: Vec::new(),
            stream_waiters: Vec::new(),
            realtime_ms,
        };
        assert(r@ =~= DbView::fresh(realtime_ms));
        r
    }

    // ---------------------------------------------------------------
    // Clock
    // ---------------------------------------------------------------

    pub fn update_time(&mut self, realtime_ms: Duration)
        requires
            old(self).wf(),
        ensures
            final(self).wf(),
            final(self)@ == (DbView { now: realtime_ms, ..old(self)@ }),
    {
        self.realtime_ms = realtime_ms;
        proof {
            due::lemma_same_lists(old(self)@, self@);
        }
    }

    pub fn realtime_ms(&self) -> (r: Duration)
        ensures
            r == self@.now,
    {
        self.realtime_ms
    }

    // ---------------------------------------------------------------
    // Watched keys
    // ---------------------------------------------------------------

    pub fn add_watchers(&mut self, keys: Vec<Key>, client_id: ClientId)
        requires
            old(self).wf(),
        ensures
            final(self).wf(),
            final(self)@ == old(self)@.watching(client_id, keys@.map_values(|key: Key| key@)),
    {
        let ghost all = keys@.map_values(|key: Key| key@);
        let mut i: usize = 0;
        assert(self@.watches =~= model::watch_all(old(self)@.watches, client_id, all.take(0)));
        while i < keys.len()
            invariant
                i <= keys@.len(),
                self.sound(),
                all == keys@.map_values(|key: Key| key@),
                self@ == (DbView {
                    watches: model::watch_all(old(self)@.watches, client_id, all.take(i as int)),
                    ..old(self)@
                }),
            decreases keys@.len() - i,
        {
            let ghost before = self@.watches;
            self.watches.watch(client_id, &keys[i]);
            proof {
                let start = old(self)@.watches;
                let next = all.take(i + 1);
                assert(next =~= all.take(i as int).push(all[i as int]));
                lemma_watch_one_more(start, client_id, all.take(i as int), all[i as int]);
                assert(self@ =~= DbView {
                    watches: model::watch_all(start, client_id, next),
                    ..old(self)@
                });
            }
            i += 1;
        }
        assert(all.take(i as int) =~= all);
        proof {
            due::lemma_same_lists(old(self)@, self@);
        }
    }

    /// Tells the clients that watch `key` that it was touched.
    pub fn make_dirty(&mut self, key: Key)
        requires
            old(self).wf(),
        ensures
            final(self).wf(),
            final(self)@ == old(self)@.touched(key@),
    {
        self.touch(&key);
    }

    fn touch(&mut self, key: &Key)
        requires
            old(self).sound(),
        ensures
            final(self).sound(),
            old(self).wf() ==> final(self).wf(),
            final(self)@ == old(self)@.touched(key@),
            final(self).keyspace == old(self).keyspace,
            final(self).list_waiters == old(self).list_waiters,
    {
        self.watches.touch(key);
        assert(self@ =~= old(self)@.touched(key@));
        proof {
            if old(self)@.due_keys_known() {
                due::lemma_same_lists(old(self)@, self@);
            }
        }
    }

    pub fn is_dirty(&self, client_id: ClientId) -> (r: bool)
        requires
            self.wf(),
        ensures
            r == self@.is_dirty(client_id),
    {
        self.watches.is_dirty(client_id)
    }

    pub fn remove_watcher(&mut self, client_id: ClientId)
        requires
            old(self).wf(),
        ensures
            final(self).wf(),
            final(self)@ == old(self)@.unwatched(client_id),
    {
        self.watches.unwatch(client_id);
        assert(self@ =~= old(self)@.unwatched(client_id));
        proof {
            due::lemma_same_lists(old(self)@, self@);
        }
    }

    // ---------------------------------------------------------------
    // Lifecycle
    // ---------------------------------------------------------------

    pub fn key_type(&mut self, key: &Key) -> (r: &'static str)
        requires
            old(self).wf(),
        ensures
            final(self).wf(),
            final(self)@ == old(self)@.lapsed(key@),
            r@ == final(self)@.kind_text(key@),
    {
        self.expire_clean(key);
        match self.keyspace.get(key) {
            Some(object) => object.kind_name(),
            None => "none",
        }
    }

    pub fn remove(&mut self, key: &Key)
        requires
            old(self).wf(),
        ensures
            final(self).wf(),
            final(self)@ == old(self)@.removed(key@),
    {
        self.touch(key);
        self.keyspace.remove(key);
        self.expires.remove(key);
        assert(self@ =~= old(self)@.removed(key@));
        proof {
            due::lemma_removed(old(self)@, key@);
        }
    }

    /// Removes up to `limit` keys whose time is over, without anybody having
    /// asked for them. Returns how many.
    pub fn active_sweep(&mut self, limit: usize) -> (r: u32)
        requires
            old(self).wf(),
        ensures
            final(self).wf(),
            exists|keys: Seq<Seq<u8>>|
                {
                    &&& #[trigger] model::is_sweep(old(self)@, keys, limit as nat)
                    &&& final(self)@ == model::removed_all(old(self)@, keys)
                    &&& r == keys.len() as u32
                },
    {
        let due = self.expired_keys(limit);
        let ghost keys = due@.map_values(|key: Key| key@);
        let mut i: usize = 0;
        assert(keys.skip(0) =~= keys);
        while i < due.len()
            invariant
                i <= due@.len(),
                self.wf(),
                keys == due@.map_values(|key: Key| key@),
                model::removed_all(self@, keys.skip(i as int)) == model::removed_all(
                    old(self)@,
                    keys,
                ),
            decreases due@.len() - i,
        {
            assert(keys.skip(i as int)[0] == due@[i as int]@);
            assert(keys.skip(i as int).drop_first() =~= keys.skip(i + 1));
            self.remove(&due[i]);
            i += 1;
        }
        due.len() as u32
    }

    /// Keys whose time is over: `limit` of them, or all that there are.
    fn expired_keys(&self, limit: usize) -> (r: Vec<Key>)
        requires
            self.wf(),
        ensures
            model::is_sweep(self@, r@.map_values(|key: Key| key@), limit as nat),
    {
        let ghost entries = self.expires.entries();
        let mut due: Vec<Key> = Vec::new();
        let ghost mut from: Seq<int> = Seq::empty();
        let n: usize = self.expires.len();
        let mut i: usize = 0;
        while i < n && due.len() < limit
            invariant
                self.wf(),
                i <= n == entries.len(),
                entries == self.expires.entries(),
                due@.len() <= limit,
                from.len() == due@.len(),
                forall|j: int| 0 <= j < from.len() ==> 0 <= #[trigger] from[j] < i,
                forall|j: int|
                    #![trigger from[j]]
                    0 <= j < from.len() ==> due@[j]@ == entries[from[j]].0@
                        && entries[from[j]].1.nanos <= self.realtime_ms.nanos,
                forall|j: int, k: int|
                    0 <= j < k < from.len() ==> #[trigger] from[j] < #[trigger] from[k],
                forall|e: int|
                    0 <= e < i && (#[trigger] entries[e]).1.nanos <= self.realtime_ms.nanos
                        ==> from.contains(e),
            decreases n - i,
        {
            let ghost before = from;
            let ghost due_before = due@;
            if self.expires.value_at(i).nanos <= self.realtime_ms.nanos {
                due.push(self.expires.key_at(i).clone());
                proof {
                    from = from.push(i as int);
                    assert(from[before.len() as int] == i);
                }
            }
            proof {
                assert forall|j: int| 0 <= j < before.len() implies #[trigger] from[j]
                    == before[j] && due@[j] == due_before[j] by {}
            }
            assert forall|e: int|
                0 <= e < i + 1 && (#[trigger] entries[e]).1.nanos
                    <= self.realtime_ms.nanos implies from.contains(e) by {
                if e < i {
                    let at = choose|at: int| 0 <= at < before.len() && before[at] == e;
                    assert(from[at] == e);
                }
            }
            i += 1;
        }
        proof {
            let keys = due@.map_values(|key: Key| key@);
            assert forall|j: int, k: int|
                0 <= j < keys.len() && 0 <= k < keys.len() && j != k implies keys[j]
                != keys[k] by {
                assert(due@[j]@ == entries[from[j]].0@);
                assert(due@[k]@ == entries[from[k]].0@);
                if j < k {
                    assert(from[j] < from[k]);
                } else {
                    assert(from[k] < from[j]);
                }
            }
            assert forall|j: int| 0 <= j < keys.len() implies self@.is_expired(
                #[trigger] keys[j],
            ) by {
                assert(due@[j]@ == entries[from[j]].0@);
                table::lemma_entry(entries, from[j]);
            }
            if keys.len() < limit {
                assert forall|key: Seq<u8>| #[trigger] self@.is_expired(key) implies keys.contains(
                    key,
                ) by {
                    table::lemma_entry_of(entries, key);
                    let e = table::position(entries, key);
                    assert(entries[e].1.nanos <= self.realtime_ms.nanos);
                    let at = choose|at: int| 0 <= at < from.len() && from[at] == e;
                    assert(due@[at]@ == key);
                    assert(keys[at] == key);
                }
            }
        }
        due
    }

    /// Removes `key` if its time is over.
    fn expire_clean(&mut self, key: &Key) -> (r: bool)
        requires
            old(self).wf(),
        ensures
            final(self).wf(),
            final(self)@ == old(self)@.lapsed(key@),
            r == old(self)@.is_expired(key@),
    {
        let is_expired: bool = match self.expires.get(key) {
            Some(exp) => exp.nanos <= self.realtime_ms.nanos,
            None => false,
        };
        if is_expired {
            self.remove(key);
        }
        is_expired
    }

    /// Puts an object at `key`.
    fn store(&mut self, key: Key, object: Object)
        requires
            old(self).sound(),
            object.wf(),
        ensures
            final(self).sound(),
            final(self)@ == old(self)@.stored(key@, object@),
    {
        self.keyspace.insert(key, object);
        assert(self@ =~= old(self)@.stored(key@, object@));
    }

    // ---------------------------------------------------------------
    // Strings
    // ---------------------------------------------------------------

    /// The string at `key`: absent, there, or something of another type.
    pub fn as_string(&mut self, key: &Key) -> (r: Result<Option<&Value>, CommandError>)
        requires
            old(self).wf(),
        ensures
            final(self).wf(),
            final(self)@ == old(self)@.lapsed(key@),
            match r {
                Ok(Some(value)) => final(self)@.string_at(key@) == Ok::<_, ErrorView>(
                    Some(value@),
                ),
                Ok(None) => final(self)@.string_at(key@) == Ok::<Option<Seq<u8>>, ErrorView>(None),
                Err(e) => final(self)@.string_at(key@) == Err::<Option<Seq<u8>>, _>(e@),
            },
    {
        if self.expire_clean(key) {
            return Ok(None);
        }
        match self.keyspace.get(key) {
            None => Ok(None),
            Some(Object::String(value)) => Ok(Some(value)),
            Some(_) => Err(CommandError::WrongType("string".to_owned())),
        }
    }

    fn set(&mut self, key: Key, value: Value)
        requires
            old(self).wf(),
        ensures
            final(self).wf(),
            final(self)@ == old(self)@.set(key@, value@),
    {
        self.touch(&key);
        let ghost told = self@;
        self.store(key, Object::String(value));
        proof {
            due::lemma_stored(told, key@, ObjectView::String(value@));
        }
    }

    /// Puts a string at `key`, to expire at `ex_at` where that is given.
    pub fn setex(&mut self, key: Key, value: Value, ex_at: Option<Duration>)
        requires
            old(self).wf(),
        ensures
            final(self).wf(),
            final(self)@ == old(self)@.setex(key@, value@, ex_at),
    {
        if let Some(ex) = ex_at {
            self.expires.insert(key.clone(), ex);
            assert(self@ =~= DbView {
                expires: old(self)@.expires.insert(key@, ex),
                ..old(self)@
            });
            proof {
                due::lemma_same_lists(old(self)@, self@);
            }
        }
        self.set(key, value);
    }

    /// Adds one to the number at `key`, which counts from zero where it is absent.
    pub fn incr(&mut self, key: Key) -> (r: Result<i64, CommandError>)
        requires
            old(self).wf(),
        ensures
            final(self).wf(),
            final(self)@ == old(self)@.incr(key@),
            match r {
                Ok(n) => old(self)@.lapsed(key@).next_int(key@) == Ok::<int, ErrorView>(n as int),
                Err(e) => old(self)@.lapsed(key@).next_int(key@) == Err::<int, ErrorView>(e@),
            },
    {
        let next: i64 = match self.as_string(&key)? {
            Some(value) => match value.parse_int()?.checked_add(1) {
                Some(n) => n,
                None => {
                    return Err(CommandError::NotAnInteger);
                },
            },
            None => 1,
        };
        self.set(key, Value::from_int(next));
        Ok(next)
    }

    // ---------------------------------------------------------------
    // Lists
    // ---------------------------------------------------------------

    fn as_list(&mut self, key: &Key) -> (r: Result<Option<&VecDeque<Value>>, CommandError>)
        requires
            old(self).wf(),
        ensures
            final(self).wf(),
            final(self)@ == old(self)@.lapsed(key@),
            match r {
                Ok(Some(list)) => final(self)@.list_at(key@) == Ok::<_, ErrorView>(
                    Some(object::values_view(list@)),
                ),
                Ok(None) => final(self)@.list_at(key@) == Ok::<Option<Seq<Seq<u8>>>, ErrorView>(
                    None,
                ),
                Err(e) => final(self)@.list_at(key@) == Err::<Option<Seq<Seq<u8>>>, _>(e@),
            },
    {
        if self.expire_clean(key) {
            return Ok(None);
        }
        match self.keyspace.get(key) {
            None => Ok(None),
            Some(Object::List(list)) => Ok(Some(list)),
            Some(_) => Err(CommandError::WrongType("list".to_owned())),
        }
    }

    fn as_list_mut(&mut self, key: &Key) -> (r: Result<Option<&mut VecDeque<Value>>, CommandError>)
        requires
            old(self).wf(),
        ensures
            final(self).sound(),
            match r {
                Ok(Some(list)) => {
                    &&& old(self)@.lapsed(key@).list_at(key@) == Ok::<_, ErrorView>(
                        Some(object::values_view(list@)),
                    )
                    &&& final(self)@ == old(self)@.lapsed(key@).stored(
                        key@,
                        ObjectView::List(object::values_view(final(list)@)),
                    )
                },
                Ok(None) => {
                    &&& old(self)@.lapsed(key@).list_at(key@) == Ok::<
                        Option<Seq<Seq<u8>>>,
                        ErrorView,
                    >(None)
                    &&& final(self)@ == old(self)@.lapsed(key@)
                },
                Err(e) => {
                    &&& old(self)@.lapsed(key@).list_at(key@) == Err::<
                        Option<Seq<Seq<u8>>>,
                        ErrorView,
                    >(e@)
                    &&& final(self)@ == old(self)@.lapsed(key@)
                },
            },
    {
        if self.expire_clean(key) {
            return Ok(None);
        }
        match self.keyspace.get_mut(key) {
            None => Ok(None),
            Some(Object::List(list)) => Ok(Some(list)),
            Some(_) => Err(CommandError::WrongType("list".to_owned())),
        }
    }

    /// The list at `key`, which is created where nothing is there.
    fn list_or_create(&mut self, key: &Key) -> (r: Result<&mut VecDeque<Value>, CommandError>)
        requires
            old(self).wf(),
        ensures
            final(self).sound(),
            match r {
                Ok(list) => {
                    &&& old(self)@.list_or_empty(key@) == Ok::<_, ErrorView>(
                        object::values_view(list@),
                    )
                    &&& final(self)@ == old(self)@.stored(
                        key@,
                        ObjectView::List(object::values_view(final(list)@)),
                    )
                },
                Err(e) => {
                    &&& old(self)@.list_or_empty(key@) == Err::<Seq<Seq<u8>>, _>(e@)
                    &&& final(self)@ == old(self)@
                },
            },
    {
        if !self.keyspace.contains_key(key) {
            let empty: VecDeque<Value> = VecDeque::new();
            assert(object::values_view(empty@) =~= Seq::empty());
            self.keyspace.insert(key.clone(), Object::List(empty));
        }
        proof {
            let before = old(self)@;
            assert forall|x: ObjectView| #[trigger]
                before.stored(key@, x) == self@.stored(key@, x) by {
                assert(before.stored(key@, x) =~= self@.stored(key@, x));
            }
        }
        match self.keyspace.get_mut(key) {
            Some(Object::List(list)) => Ok(list),
            _ => Err(CommandError::WrongType("list".to_owned())),
        }
    }

    /// The number of elements at `key`.
    pub fn list_len(&mut self, key: Key) -> (r: Result<i64, CommandError>)
        requires
            old(self).wf(),
        ensures
            final(self).wf(),
            final(self)@ == old(self)@.lapsed(key@),
            match r {
                Ok(n) => final(self)@.list_or_empty(key@) matches Ok(list) && n
                    == list.len() as i64,
                Err(e) => final(self)@.list_or_empty(key@) == Err::<Seq<Seq<u8>>, _>(e@),
            },
    {
        match self.as_list(&key)? {
            Some(list) => Ok(list.len() as i64),
            None => Ok(0),
        }
    }

    /// The elements at `key` from index `from` to index `to`, both included.
    /// Negative indices count from the end, and indices out of range are drawn in.
    pub fn list_get(&mut self, key: &Key, from: i32, to: i32) -> (r: Result<
        Vec<&Value>,
        CommandError,
    >)
        requires
            old(self).wf(),
        ensures
            final(self).wf(),
            final(self)@ == old(self)@.lapsed(key@),
            match r {
                Ok(items) => final(self)@.list_or_empty(key@) matches Ok(list) && values_of(items@)
                    == model::list_slice(list, from as int, to as int),
                Err(e) => final(self)@.list_or_empty(key@) == Err::<Seq<Seq<u8>>, _>(e@),
            },
    {
        let mut out: Vec<&Value> = Vec::new();
        match self.as_list(key)? {
            None => {
                assert(values_of(out@) =~= Seq::empty());
                Ok(out)
            },
            Some(list) => {
                let len: i128 = list.len() as i128;
                let first: i128 = if from >= 0 {
                    from as i128
                } else if len + from as i128 >= 0 {
                    len + from as i128
                } else {
                    0
                };
                let wanted: i128 = if to < 0 {
                    to as i128 + len
                } else {
                    to as i128
                };
                let last: i128 = if wanted <= len - 1 {
                    wanted
                } else {
                    len - 1
                };
                let ghost whole = object::values_view(list@);
                assert(values_of(out@) =~= Seq::empty());
                let n: usize = list.len();
                if first <= last {
                    let end: usize = last as usize;
                    let mut i: usize = first as usize;
                    assert(values_of(out@) =~= whole.subrange(first as int, first as int));
                    while i <= end
                        invariant
                            0 <= first <= i <= end + 1,
                            end == last,
                            end < n == list@.len(),
                            whole == object::values_view(list@),
                            whole.len() == list@.len(),
                            values_of(out@) == whole.subrange(first as int, i as int),
                        decreases end + 1 - i,
                    {
                        let ghost before = out@;
                        out.push(&list[i]);
                        assert(values_of(out@) =~= values_of(before).push(whole[i as int]));
                        assert(values_of(out@) =~= whole.subrange(first as int, i + 1));
                        i += 1;
                    }
                }
                Ok(out)
            },
        }
    }

    /// Notes that `key` was pushed to, if any client waits on it.
    fn announce(&mut self, key: Key)
        requires
            old(self).sound(),
        ensures
            final(self).sound(),
            final(self)@ == (DbView {
                outbox: if old(self)@.list_waiters.contains_key(key@) {
                    old(self)@.outbox.push(key@)
                } else {
                    old(self)@.outbox
                },
                ..old(self)@
            }),
    {
        if self.list_waiters.contains_key(&key) {
            self.outbox.push(key);
            assert(self@.outbox =~= old(self)@.outbox.push(key@));
        }
    }

    /// Pushes each element to the front in its turn. Returns the new length.
    pub fn list_prepend(&mut self, key: Key, elems: Vec<Value>) -> (r: Result<i64, CommandError>)
        requires
            old(self).wf(),
        ensures
            final(self).wf(),
            final(self)@ == old(self)@.list_prepend(key@, object::values_view(elems@)),
            match r {
                Ok(n) => old(self)@.list_or_empty(key@) matches Ok(list) && n == (list.len()
                    + elems@.len()) as i64,
                Err(e) => old(self)@.list_or_empty(key@) == Err::<Seq<Seq<u8>>, _>(e@),
            },
    {
        self.touch(&key);
        let list = self.list_or_create(&key)?;
        let ghost before = list@;
        let ghost all = elems@;
        assert(list@ =~= all.take(0).reverse() + before);
        for e in it: elems
            invariant
                it.seq() == all,
                list@ == all.take(it.index() as int).reverse() + before,
        {
            let ghost i = it.index() as int;
            let ghost at = list@;
            list.push_front(e);
            assert(all.take(i + 1).reverse() =~= seq![all[i]] + all.take(i).reverse());
            assert(list@ =~= all.take(i + 1).reverse() + before);
        }
        assert(all.take(all.len() as int) =~= all);
        let len: i64 = list.len() as i64;
        assert(object::values_view(all.reverse() + before) =~= object::values_view(all).reverse()
            + object::values_view(before));
        self.announce(key);
        proof {
            due::lemma_list_append(old(self)@, key@, object::values_view(all));
        }
        Ok(len)
    }

    /// Pushes the elements to the back. Returns the new length.
    pub fn list_append(&mut self, key: Key, elems: Vec<Value>) -> (r: Result<i64, CommandError>)
        requires
            old(self).wf(),
        ensures
            final(self).wf(),
            final(self)@ == old(self)@.list_append(key@, object::values_view(elems@)),
            match r {
                Ok(n) => old(self)@.list_or_empty(key@) matches Ok(list) && n == (list.len()
                    + elems@.len()) as i64,
                Err(e) => old(self)@.list_or_empty(key@) == Err::<Seq<Seq<u8>>, _>(e@),
            },
    {
        self.touch(&key);
        let list = self.list_or_create(&key)?;
        let ghost before = list@;
        let ghost all = elems@;
        assert(list@ =~= before + all.take(0));
        for e in it: elems
            invariant
                it.seq() == all,
                list@ == before + all.take(it.index() as int),
        {
            let ghost i = it.index() as int;
            list.push_back(e);
            assert(list@ =~= before + all.take(i + 1));
        }
        assert(all.take(all.len() as int) =~= all);
        let len: i64 = list.len() as i64;
        assert(object::values_view(before + all) =~= object::values_view(before)
            + object::values_view(all));
        self.announce(key);
        proof {
            due::lemma_list_append(old(self)@, key@, object::values_view(all));
        }
        Ok(len)
    }

    /// Takes up to `len` elements from the front.
    pub fn list_pop(&mut self, key: &Key, len: usize) -> (r: Result<Vec<Value>, CommandError>)
        requires
            old(self).wf(),
        ensures
            final(self).wf(),
            final(self)@ == old(self)@.list_pop(key@, len as nat),
            match r {
                Ok(items) => old(self)@.popped(key@, len as nat) == Ok::<_, ErrorView>(
                    object::values_view(items@),
                ),
                Err(e) => old(self)@.popped(key@, len as nat) == Err::<Seq<Seq<u8>>, _>(e@),
            },
    {
        self.touch(key);
        proof {
            due::lemma_lapsed(self@, key@);
        }
        let mut out: Vec<Value> = Vec::new();
        match self.as_list_mut(key)? {
            None => {
                assert(object::values_view(out@) =~= Seq::empty());
                Ok(out)
            },
            Some(list) => {
                let ghost before = list@;
                let mut n: usize = list.len();
                if len < n {
                    n = len;
                }
                let mut i: usize = 0;
                assert(list@ =~= before.skip(0));
                assert(out@ =~= before.take(0));
                while i < n
                    invariant
                        i <= n <= before.len(),
                        list@ == before.skip(i as int),
                        out@ == before.take(i as int),
                    decreases n - i,
                {
                    if let Some(item) = list.pop_front() {
                        out.push(item);
                    }
                    assert(list@ =~= before.skip(i + 1));
                    assert(out@ =~= before.take(i + 1));
                    i += 1;
                }
                assert(object::values_view(before.skip(n as int)) =~= object::values_view(
                    before,
                ).skip(n as int));
                assert(object::values_view(before.take(n as int)) =~= object::values_view(
                    before,
                ).take(n as int));
                proof {
                    due::lemma_list_pop(old(self)@, key@, len as nat);
                }
                Ok(out)
            },
        }
    }

    /// Takes the first element, if there is one.
    pub fn list_take(&mut self, key: &Key) -> (r: Result<Option<Value>, CommandError>)
        requires
            old(self).wf(),
        ensures
            final(self).wf(),
            final(self)@ == old(self)@.blpop_now(key@),
            match r {
                Ok(Some(item)) => old(self)@.blpop_item(key@) == Ok::<_, ErrorView>(Some(item@)),
                Ok(None) => old(self)@.blpop_item(key@) == Ok::<Option<Seq<u8>>, ErrorView>(None),
                Err(e) => old(self)@.blpop_item(key@) == Err::<Option<Seq<u8>>, _>(e@),
            },
    {
        self.touch(key);
        proof {
            due::lemma_lapsed(self@, key@);
        }
        match self.as_list_mut(key)? {
            None => Ok(None),
            Some(list) => {
                let ghost before = list@;
                let item = list.pop_front();
                assert(before.len() > 0 ==> object::values_view(list@) =~= object::values_view(
                    before,
                ).skip(1));
                proof {
                    assert(self@ =~= old(self)@.blpop_now(key@));
                    due::lemma_list_take(old(self)@, key@);
                }
                Ok(item)
            },
        }
    }

    /// Takes the first element, or waits for one until `timeout` has passed.
    pub fn blpop(&mut self, key: Key, timeout: Option<Duration>, client_id: ClientId) -> (r: Result<
        Option<Value>,
        CommandError,
    >)
        requires
            old(self).wf(),
        ensures
            final(self).wf(),
            final(self)@ == old(self)@.blpop(key@, timeout, client_id),
            match r {
                Ok(Some(item)) => old(self)@.blpop_item(key@) == Ok::<_, ErrorView>(Some(item@)),
                Ok(None) => old(self)@.blpop_item(key@) == Ok::<Option<Seq<u8>>, ErrorView>(None),
                Err(e) => old(self)@.blpop_item(key@) == Err::<Option<Seq<u8>>, _>(e@),
            },
    {
        let item = self.list_take(&key)?;
        if item.is_some() {
            return Ok(item);
        }
        let deadline: Option<Duration> = match timeout {
            Some(t) => Some(self.realtime_ms.saturating_add(t)),
            None => None,
        };
        self.wait_for_list(key, client_id, deadline);
        proof {
            due::lemma_blpop(old(self)@, key@, timeout, client_id);
        }
        Ok(None)
    }

    /// Queues a client behind those that wait on `key` already.
    fn wait_for_list(&mut self, key: Key, client_id: ClientId, deadline: Option<Duration>)
        requires
            old(self).sound(),
        ensures
            final(self).sound(),
            final(self)@ == old(self)@.list_wait(key@, (client_id, deadline)),
    {
        if !self.list_waiters.contains_key(&key) {
            self.list_waiters.insert(key.clone(), VecDeque::new());
        }
        match self.list_waiters.get_mut(&key) {
            Some(queue) => queue.push_back((client_id, deadline)),
            None => {},
        }
        assert(self@ =~= old(self)@.list_wait(key@, (client_id, deadline)));
    }

    // ---------------------------------------------------------------
    // Streams
    // ---------------------------------------------------------------

    pub fn as_stream(&mut self, key: &Key) -> (r: Result<Option<&Stream>, CommandError>)
        requires
            old(self).wf(),
        ensures
            final(self).wf(),
            final(self)@ == old(self)@.lapsed(key@),
            match r {
                Ok(Some(stream)) => {
                    &&& stream.wf()
                    &&& final(self)@.stream_at(key@) == Ok::<_, ErrorView>(Some(stream@))
                },
                Ok(None) => final(self)@.stream_at(key@) == Ok::<
                    Option<Seq<EntryView>>,
                    ErrorView,
                >(None),
                Err(e) => final(self)@.stream_at(key@) == Err::<Option<Seq<EntryView>>, _>(e@),
            },
    {
        if self.expire_clean(key) {
            return Ok(None);
        }
        match self.keyspace.get(key) {
            None => Ok(None),
            Some(Object::Stream(stream)) => Ok(Some(stream)),
            Some(_) => Err(CommandError::WrongType("stream".to_owned())),
        }
    }

    /// The stream at `key`, which is created where nothing is there.
    pub fn stream_or_create(&mut self, key: &Key) -> (r: Result<&mut Stream, CommandError>)
        requires
            old(self).wf(),
        ensures
            match r {
                Ok(stream) => {
                    &&& stream.wf()
                    &&& old(self)@.stream_or_empty(key@) == Ok::<_, ErrorView>(stream@)
                    &&& final(stream).wf() ==> final(self).wf()
                    &&& final(self)@ == old(self)@.stored(
                        key@,
                        ObjectView::Stream(final(stream)@),
                    )
                },
                Err(e) => {
                    &&& final(self).wf()
                    &&& old(self)@.stream_or_empty(key@) == Err::<Seq<EntryView>, _>(e@)
                    &&& final(self)@ == old(self)@
                },
            },
    {
        proof {
            let before = old(self)@;
            assert forall|x: Seq<EntryView>|
                (#[trigger] before.stored(key@, ObjectView::Stream(x))).due_keys_known() by {
                due::lemma_stored(before, key@, ObjectView::Stream(x));
            }
        }
        self.stream_slot(key)
    }

    /// Where the stream at `key` stands.
    fn stream_slot(&mut self, key: &Key) -> (r: Result<&mut Stream, CommandError>)
        requires
            old(self).sound(),
        ensures
            match r {
                Ok(stream) => {
                    &&& stream.wf()
                    &&& old(self)@.stream_or_empty(key@) == Ok::<_, ErrorView>(stream@)
                    &&& final(stream).wf() ==> final(self).sound()
                    &&& final(self)@ == old(self)@.stored(
                        key@,
                        ObjectView::Stream(final(stream)@),
                    )
                },
                Err(e) => {
                    &&& final(self).sound()
                    &&& old(self)@.stream_or_empty(key@) == Err::<Seq<EntryView>, _>(e@)
                    &&& final(self)@ == old(self)@
                },
            },
    {
        if !self.keyspace.contains_key(key) {
            self.keyspace.insert(key.clone(), Object::Stream(Stream::new()));
        }
        proof {
            let before = old(self)@;
            assert forall|x: ObjectView| #[trigger]
                before.stored(key@, x) == self@.stored(key@, x) by {
                assert(before.stored(key@, x) =~= self@.stored(key@, x));
            }
        }
        match self.keyspace.get_mut(key) {
            Some(Object::Stream(stream)) => Ok(stream),
            _ => Err(CommandError::WrongType("stream".to_owned())),
        }
    }

    /// The entries at `key` whose ids lie from `start` to `end`, both included.
    pub fn stream_range(&mut self, key: &Key, start: StreamId, end: StreamId) -> (r: Result<
        Vec<(&StreamId, &Vec<(Key, Value)>)>,
        CommandError,
    >)
        requires
            old(self).wf(),
            start.at_most(end),
        ensures
            final(self).wf(),
            final(self)@ == old(self)@.lapsed(key@),
            match r {
                Ok(entries) => old(self)@.stream_range(key@, start, end) == Ok::<_, ErrorView>(
                    object::range_view(entries@),
                ),
                Err(e) => old(self)@.stream_range(key@, start, end) == Err::<Seq<EntryView>, _>(
                    e@,
                ),
            },
    {
        match self.as_stream(key)? {
            None => {
                let none: Vec<(&StreamId, &Vec<(Key, Value)>)> = Vec::new();
                assert(object::range_view(none@) =~= object::entries_between(
                    Seq::empty(),
                    start,
                    end,
                )) by {
                    reveal(Seq::filter);
                }
                Ok(none)
            },
            Some(stream) => Ok(stream.range(start, end)),
        }
    }

    /// Appends an entry to the stream at `key`. Returns its id.
    pub fn stream_add(
        &mut self,
        key: &Key,
        id_spec: StreamIdSpec,
        elems: Vec<(Key, Value)>,
    ) -> (r: Result<StreamId, CommandError>)
        requires
            old(self).wf(),
        ensures
            final(self).wf(),
            final(self)@ == old(self)@.stream_add(key@, id_spec, object::fields_view(elems@)),
            match r {
                Ok(id) => old(self)@.added_id(key@, id_spec) == Ok::<_, ErrorView>(id),
                Err(e) => old(self)@.added_id(key@, id_spec) == Err::<StreamId, _>(e@),
            },
    {
        self.touch(key);
        let now_ms: u64 = self.realtime_ms.as_millis() as u64;
        let stream = self.stream_or_create(key)?;
        let last = stream.last_id();
        let id = next_id(last, id_spec, now_ms)?;
        stream.push(id, elems);
        assert(self@ =~= old(self)@.stream_add(key@, id_spec, object::fields_view(elems@)));
        Ok(id)
    }

    /// What there is to read at `positions`, without waiting: the streams that
    /// have entries, or nothing.
    pub fn xread_snapshot(&mut self, positions: &[(Key, StreamId)]) -> (r: Result<
        Option<RespBody>,
        CommandError,
    >)
        requires
            old(self).wf(),
        ensures
            final(self).wf(),
            final(self)@ == model::read_positions(old(self)@, positions_view(positions@)).0,
            match r {
                Ok(Some(body)) => model::snapshot(old(self)@, positions_view(positions@))
                    == Ok::<_, ErrorView>(Some(body@)),
                Ok(None) => model::snapshot(old(self)@, positions_view(positions@)) == Ok::<
                    Option<RespView>,
                    ErrorView,
                >(None),
                Err(e) => model::snapshot(old(self)@, positions_view(positions@)) == Err::<
                    Option<RespView>,
                    _,
                >(e@),
            },
    {
        let mut streams: Vec<RespBody> = Vec::new();
        let ghost all = positions_view(positions@);
        let mut i: usize = 0;
        assert(all.skip(0) =~= all);
        assert(resp::resp_views(streams@) =~= Seq::empty());
        proof {
            match model::read_positions(self@, all).1 {
                Ok(replies) => {
                    assert(Seq::<RespView>::empty() + replies =~= replies);
                },
                Err(_) => {},
            }
        }
        while i < positions.len()
            invariant
                i <= positions@.len(),
                self.wf(),
                all == positions_view(positions@),
                model::read_positions(old(self)@, all) == (
                    model::read_positions(self@, all.skip(i as int)).0,
                    then_all(
                        resp::resp_views(streams@),
                        model::read_positions(self@, all.skip(i as int)).1,
                    ),
                ),
            decreases positions@.len() - i,
        {
            let ghost before = self@;
            let ghost rest = all.skip(i as int);
            let ghost found = resp::resp_views(streams@);
            let (key, start) = (&positions[i].0, positions[i].1);
            assert(rest[0] == (key@, start));
            assert(rest.drop_first() =~= all.skip(i + 1));
            let entries = self.stream_range(key, start, StreamId::max())?;
            if entries.len() > 0 {
                streams.push(reply::stream_reply(key, &entries));
                assert(resp::resp_views(streams@) =~= found.push(
                    model::stream_reply(key@, object::range_view(entries@)),
                ));
            }
            proof {
                let after = model::read_positions(before.lapsed(key@), all.skip(i + 1)).1;
                match after {
                    Ok(replies) => {
                        assert(found + (seq![
                            model::stream_reply(key@, object::range_view(entries@)),
                        ] + replies) =~= found.push(
                            model::stream_reply(key@, object::range_view(entries@)),
                        ) + replies);
                    },
                    Err(_) => {},
                }
            }
            i += 1;
        }
        assert(all.skip(i as int) =~= Seq::empty());
        assert(resp::resp_views(streams@) + Seq::empty() =~= resp::resp_views(streams@));
        if streams.len() == 0 {
            Ok(None)
        } else {
            proof {
                resp::lemma_array_view(streams);
            }
            Ok(Some(RespBody::Array(Some(streams))))
        }
    }

    /// Has a client wait until there is something to read at `positions`.
    pub fn xread_wait(
        &mut self,
        client_id: ClientId,
        positions: Vec<(Key, StreamId)>,
        timeout: Option<Duration>,
    )
        requires
            old(self).wf(),
        ensures
            final(self).wf(),
            final(self)@ == old(self)@.stream_wait(
                StreamWaitView {
                    client_id,
                    positions: positions_view(positions@),
                    deadline: model::deadline(old(self)@.now, timeout),
                },
            ),
    {
        let deadline: Option<Duration> = match timeout {
            Some(t) => Some(self.realtime_ms.saturating_add(t)),
            None => None,
        };
        self.stream_waiters.push(StreamWait { client_id, positions, deadline });
        assert(self@.stream_waiters =~= old(self)@.stream_waiters.push(
            StreamWaitView {
                client_id,
                positions: positions_view(positions@),
                deadline: model::deadline(old(self)@.now, timeout),
            },
        ));
        proof {
            due::lemma_same_lists(old(self)@, self@);
        }
    }
}

/// The replies in `found`, and those that follow.
spec fn then_all(found: Seq<RespView>, rest: Result<Seq<RespView>, ErrorView>) -> Result<
    Seq<RespView>,
    ErrorView,
> {
    match rest {
        Ok(replies) => Ok(found + replies),
        Err(e) => Err(e),
    }
}

/// The id of the next entry behind `last`.
fn next_id(last: Option<StreamId>, id_spec: StreamIdSpec, now_ms: u64) -> (r: Result<
    StreamId,
    CommandError,
>)
    ensures
        match r {
            Ok(id) => model::next_id(last, id_spec, now_ms) == Ok::<_, ErrorView>(id),
            Err(e) => model::next_id(last, id_spec, now_ms) == Err::<StreamId, _>(e@),
        },
{
    let id = match id_spec {
        StreamIdSpec::Explicit(id) => id,
        StreamIdSpec::AutoSeq(ms) => {
            let first: u64 = if ms == 0 {
                1
            } else {
                0
            };
            match next_seq(last, ms, first) {
                Some(seq) => StreamId::new(ms, seq),
                None => {
                    return Err(CommandError::InvalidStream);
                },
            }
        },
        StreamIdSpec::Auto => match next_seq(last, now_ms, 0) {
            Some(seq) => StreamId::new(now_ms, seq),
            None => {
                return Err(CommandError::InvalidStream);
            },
        },
    };
    if id.ms() == 0 && id.seq() == 0 {
        return Err(CommandError::InvalidStreamZero);
    }
    if let Some(top) = last {
        if !id.is_valid(&top) {
            return Err(CommandError::InvalidStream);
        }
    }
    Ok(id)
}

/// The next sequence number within millisecond `ms`, if one is left.
fn next_seq(last: Option<StreamId>, ms: u64, first: u64) -> (r: Option<u64>)
    ensures
        r == model::next_seq(last, ms, first),
{
    match last {
        Some(last) => if last.ms() == ms {
            last.seq().checked_add(1)
        } else {
            Some(first)
        },
        None => Some(first),
    }
}

/// The bytes of the values.
pub open spec fn values_of(values: Seq<&Value>) -> Seq<Seq<u8>> {
    values.map_values(|value: &Value| value@)
}

proof fn lemma_watch_one_more(
    watches: Map<ClientId, model::WatchView>,
    client: ClientId,
    keys: Seq<Seq<u8>>,
    key: Seq<u8>,
)
    ensures
        model::watch_all(model::watch_all(watches, client, keys), client, seq![key])
            == model::watch_all(watches, client, keys.push(key)),
{
    let one = model::watch_all(watches, client, keys);
    let a = model::watch_all(one, client, seq![key]);
    let b = model::watch_all(watches, client, keys.push(key));
    assert(seq![key].to_set() =~= Set::empty().insert(key)) by {
        assert(seq![key][0] == key);
    }
    assert(keys.push(key).to_set() =~= keys.to_set().insert(key)) by {
        assert forall|k: Seq<u8>| #[trigger]
            keys.push(key).contains(k) == (keys.contains(k) || k == key) by {
            if keys.contains(k) {
                let i = choose|i: int| 0 <= i < keys.len() && keys[i] == k;
                assert(keys.push(key)[i] == k);
            }
            assert(keys.push(key)[keys.len() as int] == key);
        }
    }
    if keys.len() == 0 {
        assert(keys.to_set() =~= Set::empty());
    }
    assert(a[client].keys =~= b[client].keys);
    assert(a =~= b);
}

} // verus!
