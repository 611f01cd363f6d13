//! What holds of the database as a whole.
use vstd::prelude::*;
use crate::client::ClientId;
use crate::command::common::ErrorView;
use crate::db::model;
use crate::db::model::{DbView, Waiter};
use crate::db::object;
use crate::db::object::{EntryView, FieldsView};
use crate::db::stream_id::{StreamId, StreamIdSpec};
use crate::resp::RespView;
use crate::time::Duration;

verus! {

// ---------------------------------------------------------------
// Expiry
// ---------------------------------------------------------------

/// Law: a key whose time is over reads as absent, whatever it held.
pub proof fn law_expired_key_is_absent(db: DbView, key: Seq<u8>)
    requires
        db.is_expired(key),
    ensures
        db.lapsed(key).string_at(key) == Ok::<Option<Seq<u8>>, ErrorView>(None),
        db.lapsed(key).list_or_empty(key) == Ok::<Seq<Seq<u8>>, ErrorView>(Seq::empty()),
        db.lapsed(key).stream_or_empty(key) == Ok::<Seq<EntryView>, ErrorView>(Seq::empty()),
        db.lapsed(key).kind_text(key) == "none"@,
{
}

/// Law: looking at a key whose time is not over changes nothing, and looking at
/// one whose time is over changes no other key.
pub proof fn law_lapsing_is_local(db: DbView, key: Seq<u8>, other: Seq<u8>)
    requires
        other != key || !db.is_expired(key),
    ensures
        !db.is_expired(key) ==> db.lapsed(key) == db,
        db.lapsed(key).keyspace.contains_key(other) == db.keyspace.contains_key(other),
        db.keyspace.contains_key(other) ==> db.lapsed(key).keyspace[other] == db.keyspace[other],
        db.lapsed(key).is_expired(other) == db.is_expired(other),
{
}

proof fn lemma_removed_all(db: DbView, keys: Seq<Seq<u8>>, key: Seq<u8>)
    ensures
        ({
            let after = model::removed_all(db, keys);
            &&& after.now == db.now
            &&& after.list_waiters == db.list_waiters
            &&& after.stream_waiters == db.stream_waiters
            &&& after.outbox == db.outbox
            &&& after.keyspace.contains_key(key) <==> db.keyspace.contains_key(key)
                && !keys.contains(key)
            &&& after.expires.contains_key(key) <==> db.expires.contains_key(key)
                && !keys.contains(key)
            &&& after.keyspace.contains_key(key) ==> after.keyspace[key] == db.keyspace[key]
            &&& after.expires.contains_key(key) ==> after.expires[key] == db.expires[key]
        }),
    decreases keys.len(),
{
    if keys.len() > 0 {
        let rest = keys.drop_first();
        lemma_removed_all(db.removed(keys[0]), rest, key);
        if keys.contains(key) && key != keys[0] {
            let i = choose|i: int| 0 <= i < keys.len() && keys[i] == key;
            assert(rest[i - 1] == key);
        }
        if rest.contains(key) {
            let i = choose|i: int| 0 <= i < rest.len() && rest[i] == key;
            assert(keys[i + 1] == key);
        }
    }
}

/// Law: sweeping expired keys cannot be told from what is read. Whatever key is
/// looked at afterwards holds what it would have held without the sweep.
pub proof fn law_sweep_is_unobservable(
    db: DbView,
    keys: Seq<Seq<u8>>,
    limit: nat,
    key: Seq<u8>,
)
    requires
        model::is_sweep(db, keys, limit),
    ensures
        ({
            let swept = model::removed_all(db, keys).lapsed(key);
            let plain = db.lapsed(key);
            &&& swept.keyspace.contains_key(key) == plain.keyspace.contains_key(key)
            &&& plain.keyspace.contains_key(key) ==> swept.keyspace[key] == plain.keyspace[key]
        }),
{
    lemma_removed_all(db, keys, key);
    if keys.contains(key) {
        let i = choose|i: int| 0 <= i < keys.len() && keys[i] == key;
        assert(db.is_expired(keys[i]));
    }
}

/// Law: a sweep that was given enough room leaves no expired key.
pub proof fn law_sweep_is_complete(db: DbView, keys: Seq<Seq<u8>>, limit: nat, key: Seq<u8>)
    requires
        model::is_sweep(db, keys, limit),
        keys.len() < limit,
    ensures
        !model::removed_all(db, keys).is_expired(key),
{
    lemma_removed_all(db, keys, key);
    if model::removed_all(db, keys).is_expired(key) {
        assert(db.is_expired(key));
    }
}

/// Law: a sweep removes as many keys as it tells, no more than it may, and none but
/// expired ones; every other key stays as it was, and whoever waits goes on waiting.
pub proof fn law_sweep_removes_exactly(
    db: DbView,
    keys: Seq<Seq<u8>>,
    limit: nat,
    key: Seq<u8>,
)
    requires
        model::is_sweep(db, keys, limit),
    ensures
        ({
            let after = model::removed_all(db, keys);
            let gone = keys.contains(key);
            &&& keys.len() <= limit
            &&& keys.no_duplicates()
            &&& gone ==> db.expires.contains_key(key) && db.expires[key].nanos <= db.now.nanos
            &&& gone ==> !after.keyspace.contains_key(key) && !after.expires.contains_key(key)
            &&& !gone ==> {
                &&& after.keyspace.contains_key(key) == db.keyspace.contains_key(key)
                &&& db.keyspace.contains_key(key) ==> after.keyspace[key] == db.keyspace[key]
                &&& after.expires.contains_key(key) == db.expires.contains_key(key)
                &&& db.expires.contains_key(key) ==> after.expires[key] == db.expires[key]
            }
            &&& keys.len() < limit && db.expires.contains_key(key) && db.expires[key].nanos
                <= db.now.nanos ==> gone
            &&& after.now == db.now
            &&& after.list_waiters == db.list_waiters
            &&& after.stream_waiters == db.stream_waiters
            &&& after.outbox == db.outbox
        }),
{
    lemma_removed_all(db, keys, key);
    if keys.contains(key) {
        let i = choose|i: int| 0 <= i < keys.len() && keys[i] == key;
        assert(db.is_expired(keys[i]));
    }
    assert(db.is_expired(key) == (db.expires.contains_key(key) && db.expires[key].nanos
        <= db.now.nanos));
}


// ---------------------------------------------------------------
// Watched keys
// ---------------------------------------------------------------

/// Law: every write to a key, and its removal, is seen by each client that
/// watches the key, and whoever has seen one goes on having seen it.
pub proof fn law_writes_are_seen(
    db: DbView,
    client: ClientId,
    key: Seq<u8>,
    value: Seq<u8>,
    elems: Seq<Seq<u8>>,
    count: nat,
    id: StreamIdSpec,
    fields: FieldsView,
    ex_at: Option<Duration>,
)
    requires
        db.watches.contains_key(client),
        db.watches[client].keys.contains(key) || db.is_dirty(client),
    ensures
        db.setex(key, value, ex_at).is_dirty(client),
        db.list_append(key, elems).is_dirty(client),
        db.list_prepend(key, elems).is_dirty(client),
        db.list_pop(key, count).is_dirty(client),
        db.blpop_now(key).is_dirty(client),
        db.stream_add(key, id, fields).is_dirty(client),
        db.removed(key).is_dirty(client),
{
    assert(db.touched(key).is_dirty(client));
    assert(db.touched(key).lapsed(key).is_dirty(client));
}

/// Law: a client is told of nothing but the keys that it watches.
pub proof fn law_others_are_not_told(db: DbView, client: ClientId, key: Seq<u8>)
    requires
        db.watches.contains_key(client),
        !db.watches[client].keys.contains(key),
    ensures
        db.touched(key).is_dirty(client) == db.is_dirty(client),
        db.removed(key).is_dirty(client) == db.is_dirty(client),
{
}

/// Law: to watch more keys takes back nothing, and to unwatch takes back all.
pub proof fn law_only_unwatch_forgets(db: DbView, client: ClientId, keys: Seq<Seq<u8>>)
    ensures
        db.watching(client, keys).is_dirty(client) == db.is_dirty(client),
        !db.unwatched(client).is_dirty(client),
        keys.len() > 0 ==> forall|key: Seq<u8>|
            keys.contains(key) ==> #[trigger] db.watching(
                client,
                keys,
            ).watches[client].keys.contains(key),
{
}

// ---------------------------------------------------------------
// Lists
// ---------------------------------------------------------------

/// Law: what is pushed to the back is read behind what was there, what is pushed
/// to the front before it, the last element first.
pub proof fn law_push_then_read(db: DbView, key: Seq<u8>, elems: Seq<Seq<u8>>)
    requires
        db.list_or_empty(key) is Ok,
        !db.is_expired(key),
    ensures
        ({
            let list = db.list_or_empty(key)->Ok_0;
            let back = db.list_append(key, elems);
            let front = db.list_prepend(key, elems);
            &&& back.lapsed(key).list_or_empty(key) == Ok::<_, ErrorView>(list + elems)
            &&& front.lapsed(key).list_or_empty(key) == Ok::<_, ErrorView>(elems.reverse() + list)
        }),
{
}

/// Law: what is popped is what stands first, and the rest stays.
pub proof fn law_pop_takes_the_front(db: DbView, key: Seq<u8>, count: nat)
    requires
        db.list_or_empty(key) is Ok,
        !db.is_expired(key),
    ensures
        ({
            let list = db.list_or_empty(key)->Ok_0;
            let taken = db.popped(key, count);
            let after = db.list_pop(key, count).lapsed(key).list_or_empty(key);
            &&& taken is Ok && after is Ok
            &&& taken->Ok_0 + after->Ok_0 == list
            &&& (taken->Ok_0).len() == if count <= list.len() {
                count
            } else {
                list.len()
            }
        }),
{
    let list = db.list_or_empty(key)->Ok_0;
    let touched = db.touched(key);
    assert(!touched.is_expired(key));
    assert(touched.lapsed(key) == touched);
    assert(touched.list_at(key) == db.list_at(key));
    let n = model::pop_count(list, count);
    assert(list.take(n) + list.skip(n) =~= list);
    match db.list_at(key) {
        Ok(Some(_)) => {},
        _ => {
            assert(Seq::<Seq<u8>>::empty() + Seq::empty() =~= list);
        },
    }
}

/// Law: a slice of a list lies within it. From the first index to the last it is
/// the whole list, and beyond the end it is empty.
pub proof fn law_slice_is_clamped(list: Seq<Seq<u8>>, from: int, to: int)
    ensures
        model::list_slice(list, 0, -1) == list,
        from >= list.len() ==> model::list_slice(list, from, to) == Seq::<Seq<u8>>::empty(),
        0 <= from <= to < list.len() ==> model::list_slice(list, from, to) == list.subrange(
            from,
            to + 1,
        ),
        from <= -(list.len() as int) ==> model::list_slice(list, from, to) == model::list_slice(
            list,
            0,
            to,
        ),
        to >= list.len() ==> model::list_slice(list, from, to) == model::list_slice(
            list,
            from,
            -1,
        ),
{
    if list.len() > 0 {
        assert(list.subrange(0, list.len() as int) =~= list);
    } else {
        assert(list =~= Seq::empty());
    }
}

// ---------------------------------------------------------------
// Streams
// ---------------------------------------------------------------

/// Law: the id of a new entry is greater than 0-0 and than every id before it,
/// so the ids in a stream always increase.
pub proof fn law_ids_always_increase(
    db: DbView,
    key: Seq<u8>,
    id_spec: StreamIdSpec,
    fields: FieldsView,
)
    requires
        db.stream_or_empty(key) matches Ok(entries) && object::ids_increase(entries),
        db.added_id(key, id_spec) is Ok,
    ensures
        ({
            let before = db.stream_or_empty(key)->Ok_0;
            let id = db.added_id(key, id_spec)->Ok_0;
            let after = db.stream_add(key, id_spec, fields).stream_or_empty(key);
            &&& StreamId::first_of_all().precedes(id)
            &&& forall|i: int| 0 <= i < before.len() ==> (#[trigger] before[i]).0.precedes(id)
            &&& after == Ok::<_, ErrorView>(before.push((id, fields)))
            &&& object::ids_increase(before.push((id, fields)))
        }),
{
    let before = db.stream_or_empty(key)->Ok_0;
    let id = db.added_id(key, id_spec)->Ok_0;
    let after = before.push((id, fields));
    let n = before.len() as int;
    if n > 0 {
        assert(before.last().0.precedes(id));
    }
    assert forall|i: int| 0 <= i < n implies (#[trigger] before[i]).0.precedes(id) by {
        if i < n - 1 {
            assert(before[i].0.precedes(before[n - 1].0));
        }
    }
    assert forall|i: int, j: int| 0 <= i < j < after.len() implies (#[trigger] after[i]).0.precedes(
        (#[trigger] after[j]).0,
    ) by {
        assert(after[i] == before[i]);
        if j < n {
            assert(after[j] == before[j]);
        }
    }
}

proof fn lemma_filter_in_order(
    entries: Seq<EntryView>,
    keep: spec_fn(EntryView) -> bool,
    bound: StreamId,
)
    requires
        object::ids_increase(entries),
        forall|i: int| 0 <= i < entries.len() ==> (#[trigger] entries[i]).0.precedes(bound),
    ensures
        object::ids_increase(entries.filter(keep)),
        forall|i: int|
            0 <= i < entries.filter(keep).len() ==> keep(#[trigger] entries.filter(keep)[i])
                && entries.filter(keep)[i].0.precedes(bound) && entries.contains(
                entries.filter(keep)[i],
            ),
    decreases entries.len(),
{
    reveal(Seq::filter);
    if entries.len() > 0 {
        let front = entries.drop_last();
        let last = entries.last();
        assert forall|i: int, j: int| 0 <= i < j < front.len() implies (
        #[trigger] front[i]).0.precedes((#[trigger] front[j]).0) by {
            assert(entries[i].0.precedes(entries[j].0));
        }
        assert forall|i: int| 0 <= i < front.len() implies (#[trigger] front[i]).0.precedes(
            last.0,
        ) by {
            assert(entries[i].0.precedes(entries[entries.len() - 1].0));
        }
        lemma_filter_in_order(front, keep, last.0);
        let before = front.filter(keep);
        let after = entries.filter(keep);
        assert(entries[entries.len() - 1] == last);
        assert(last.0.precedes(bound));
        assert forall|i: int| 0 <= i < after.len() implies keep(#[trigger] after[i])
            && after[i].0.precedes(bound) && entries.contains(after[i]) by {
            if i < before.len() {
                assert(after[i] == before[i]);
                assert(front.contains(before[i]));
                let k = choose|k: int| 0 <= k < front.len() && front[k] == before[i];
                assert(entries[k] == before[i]);
                assert(entries[k].0.precedes(bound));
            } else {
                assert(after[i] == last);
            }
        }
        assert forall|i: int, j: int| 0 <= i < j < after.len() implies (
        #[trigger] after[i]).0.precedes((#[trigger] after[j]).0) by {
            assert(after[i] == before[i]);
            if j < before.len() {
                assert(after[j] == before[j]);
            } else {
                assert(after[j] == last);
            }
        }
    }
}

proof fn lemma_range_members(
    entries: Seq<EntryView>,
    keep: spec_fn(EntryView) -> bool,
    entry: EntryView,
)
    requires
        entries.contains(entry),
        keep(entry),
    ensures
        entries.filter(keep).contains(entry),
    decreases entries.len(),
{
    reveal(Seq::filter);
    let front = entries.drop_last();
    let i = choose|i: int| 0 <= i < entries.len() && entries[i] == entry;
    let before = front.filter(keep);
    let after = entries.filter(keep);
    if i == entries.len() - 1 {
        assert(after == before.push(entry));
        assert(after[before.len() as int] == entry);
    } else {
        assert(front[i] == entry);
        lemma_range_members(front, keep, entry);
        let j = choose|j: int| 0 <= j < before.len() && before[j] == entry;
        assert(after[j] == entry);
    }
}

/// Law: a range of a stream holds the entries whose ids lie within its bounds,
/// all of them and no others, in the order of their ids.
pub proof fn law_range_is_exact(
    entries: Seq<EntryView>,
    start: StreamId,
    end: StreamId,
    entry: EntryView,
)
    requires
        object::ids_increase(entries),
    ensures
        object::ids_increase(object::entries_between(entries, start, end)),
        object::entries_between(entries, start, end).contains(entry) <==> entries.contains(entry)
            && start.at_most(entry.0) && entry.0.at_most(end),
{
    let keep = |entry: EntryView| start.at_most(entry.0) && entry.0.at_most(end);
    let range = object::entries_between(entries, start, end);
    assert(range == entries.filter(keep));
    if entries.len() > 0 {
        // The last entry has no bound of its own, so it is set apart.
        reveal(Seq::filter);
        let front = entries.drop_last();
        let last = entries.last();
        assert forall|i: int, j: int| 0 <= i < j < front.len() implies (
        #[trigger] front[i]).0.precedes((#[trigger] front[j]).0) by {
            assert(entries[i].0.precedes(entries[j].0));
        }
        assert forall|i: int| 0 <= i < front.len() implies (#[trigger] front[i]).0.precedes(
            last.0,
        ) by {
            assert(entries[i].0.precedes(entries[entries.len() - 1].0));
        }
        lemma_filter_in_order(front, keep, last.0);
        let before = front.filter(keep);
        assert forall|i: int, j: int| 0 <= i < j < range.len() implies (
        #[trigger] range[i]).0.precedes((#[trigger] range[j]).0) by {
            assert(range[i] == before[i]);
            if j < before.len() {
                assert(range[j] == before[j]);
            } else {
                assert(range[j] == last);
            }
        }
        if range.contains(entry) {
            let i = choose|i: int| 0 <= i < range.len() && range[i] == entry;
            if i < before.len() {
                assert(before[i] == entry);
                assert(front.contains(before[i]));
                let k = choose|k: int| 0 <= k < front.len() && front[k] == entry;
                assert(entries[k] == entry);
            } else {
                assert(entries[entries.len() - 1] == entry);
            }
        }
        if entries.contains(entry) && keep(entry) {
            lemma_range_members(entries, keep, entry);
        }
    } else {
        reveal(Seq::filter);
        assert(range =~= Seq::empty());
    }
}

/// Law: what was added to a stream is read back under its id.
pub proof fn law_added_entry_is_read(
    db: DbView,
    key: Seq<u8>,
    id_spec: StreamIdSpec,
    fields: FieldsView,
)
    requires
        db.stream_or_empty(key) matches Ok(entries) && object::ids_increase(entries),
        db.added_id(key, id_spec) is Ok,
        !db.is_expired(key),
    ensures
        ({
            let id = db.added_id(key, id_spec)->Ok_0;
            let after = db.stream_add(key, id_spec, fields);
            after.stream_range(key, id, id) == Ok::<_, ErrorView>(seq![(id, fields)])
        }),
{
    law_ids_always_increase(db, key, id_spec, fields);
    let before = db.stream_or_empty(key)->Ok_0;
    let id = db.added_id(key, id_spec)->Ok_0;
    let after = db.stream_add(key, id_spec, fields);
    let entry = (id, fields);
    let all = before.push(entry);
    assert(!after.is_expired(key));
    let keep = |entry: EntryView| id.at_most(entry.0) && entry.0.at_most(id);
    reveal(Seq::filter);
    assert(all.drop_last() =~= before);
    assert(before.filter(keep).len() == 0) by {
        lemma_filter_in_order(before, keep, id);
        if before.filter(keep).len() > 0 {
            assert(keep(before.filter(keep)[0]));
            assert(before.filter(keep)[0].0.precedes(id));
        }
    }
    assert(all.filter(keep) =~= seq![entry]);
}

// ---------------------------------------------------------------
// Waiting clients
// ---------------------------------------------------------------

/// No client stands twice in a queue.
pub open spec fn distinct_clients(queue: Seq<Waiter>) -> bool {
    forall|i: int, j: int|
        0 <= i < j < queue.len() ==> (#[trigger] queue[i]).0 != (#[trigger] queue[j]).0
}

/// Law: elements go to the clients that wait for them in the order in which these
/// began to wait, first element to first client, until one side runs out.
#[verifier::spinoff_prover]
pub proof fn law_waiters_are_served_in_order(
    db: DbView,
    replies: Map<ClientId, RespView>,
    key: Seq<u8>,
    n: int,
)
    requires
        db.list_at(key) matches Ok(Some(list)) && db.list_waiters.contains_key(key) && n == (
        if list.len() <= db.list_waiters[key].len() {
            list.len()
        } else {
            db.list_waiters[key].len()
        }),
        distinct_clients(db.list_waiters[key]),
    ensures
        ({
            let list = db.list_at(key)->Ok_0->Some_0;
            let queue = db.list_waiters[key];
            let (after, told) = model::serve(db, replies, key);
            &&& after.list_at(key) == Ok::<_, ErrorView>(Some(list.skip(n)))
            &&& after.list_waiters == db.list_waiters.insert(key, queue.skip(n))
            &&& forall|i: int|
                0 <= i < n ==> told.contains_key((#[trigger] queue[i]).0) && told[queue[i].0]
                    == model::element_reply(key, list[i])
            &&& forall|client: ClientId|
                (forall|i: int| 0 <= i < n ==> (#[trigger] queue[i]).0 != client) ==> {
                    &&& #[trigger] told.contains_key(client) == replies.contains_key(client)
                    &&& told.contains_key(client) ==> told[client] == replies[client]
                }
        }),
    decreases n,
{
    let list = db.list_at(key)->Ok_0->Some_0;
    let queue = db.list_waiters[key];
    if n == 0 {
        assert(!model::can_serve(db, key));
        assert(list.skip(0) =~= list);
        assert(queue.skip(0) =~= queue);
        assert(db.list_waiters.insert(key, queue) =~= db.list_waiters);
    } else {
        let next = model::served_one(db, key);
        let first = queue[0].0;
        let body = model::element_reply(key, list[0]);
        let rest = queue.skip(1);
        assert(next.list_at(key) == Ok::<_, ErrorView>(Some(list.skip(1))));
        assert(next.list_waiters[key] == rest);
        assert forall|i: int, j: int| 0 <= i < j < rest.len() implies (#[trigger] rest[i]).0 != (
        #[trigger] rest[j]).0 by {
            assert(queue[i + 1].0 != queue[j + 1].0);
        }
        law_waiters_are_served_in_order(next, replies.insert(first, body), key, n - 1);
        let (after, told) = model::serve(next, replies.insert(first, body), key);
        assert(model::serve(db, replies, key) == (after, told));
        assert(list.skip(1).skip(n - 1) =~= list.skip(n));
        assert(rest.skip(n - 1) =~= queue.skip(n));
        assert(after.list_waiters =~= db.list_waiters.insert(key, queue.skip(n)));
        assert forall|i: int| 0 <= i < n implies told.contains_key((#[trigger] queue[i]).0)
            && told[queue[i].0] == model::element_reply(key, list[i]) by {
            if i > 0 {
                assert(rest[i - 1] == queue[i]);
                assert(list.skip(1)[i - 1] == list[i]);
            } else {
                assert forall|j: int| 0 <= j < n - 1 implies (#[trigger] rest[j]).0 != first by {
                    assert(queue[0].0 != queue[j + 1].0);
                }
                assert(told.contains_key(first) == replies.insert(first, body).contains_key(
                    first,
                ));
                assert(queue[i] == queue[0]);
            }
        }
        assert forall|client: ClientId|
            (forall|i: int| 0 <= i < n ==> (#[trigger] queue[i]).0 != client) implies {
            &&& #[trigger] told.contains_key(client) == replies.contains_key(client)
            &&& told.contains_key(client) ==> told[client] == replies[client]
        } by {
            assert(queue[0].0 != client);
            assert forall|j: int| 0 <= j < n - 1 implies (#[trigger] rest[j]).0 != client by {
                assert(queue[j + 1].0 != client);
            }
        }
    }
}

/// Law: a client that waits on an empty list gets the first element that is
/// pushed to it, at the next round, and the list is empty again.
pub proof fn law_push_reaches_the_waiter(
    db: DbView,
    key: Seq<u8>,
    client: ClientId,
    timeout: Option<Duration>,
    element: Seq<u8>,
)
    requires
        db.blpop_item(key) == Ok::<Option<Seq<u8>>, ErrorView>(None),
        !db.is_expired(key),
        timeout matches Some(t) ==> t.nanos > 0 && db.now.nanos + t.nanos <= u128::MAX,
        db.list_waiters == Map::<Seq<u8>, Seq<Waiter>>::empty(),
        db.outbox == Seq::<Seq<u8>>::empty(),
    ensures
        ({
            let waiting = db.blpop(key, timeout, client);
            let (after, told) = model::list_round(waiting.list_append(key, seq![element]));
            &&& told.contains_key(client)
            &&& told[client] == model::element_reply(key, element)
            &&& after.list_or_empty(key) == Ok::<Seq<Seq<u8>>, ErrorView>(Seq::empty())
        }),
{
    let waiter = (client, model::deadline(db.now, timeout));
    let waiting = db.blpop(key, timeout, client);
    let pushed = waiting.list_append(key, seq![element]);
    let queue = seq![waiter];
    assert(Seq::<Waiter>::empty().push(waiter) =~= queue);
    assert(waiting.list_waiters =~= Map::empty().insert(key, queue));
    assert(pushed.list_waiters == waiting.list_waiters);
    assert(pushed.outbox =~= seq![key]);
    assert(pushed.now == db.now);
    assert(Seq::<Seq<u8>>::empty() + seq![element] =~= seq![element]);
    assert(pushed.list_at(key) == Ok::<_, ErrorView>(Some(seq![element])));
    assert(model::ahead(waiter.1, db.now));
    assert(model::still_waiting(queue, db.now) =~= queue) by {
        reveal(Seq::filter);
        let keep = |waiter: Waiter| model::ahead(waiter.1, db.now);
        assert(queue.drop_last() =~= Seq::empty());
        assert(queue.drop_last().filter(keep) =~= Seq::empty());
        assert(queue.last() == waiter);
    }
    let left = model::waiters_left(pushed.list_waiters, db.now);
    assert(left =~= pushed.list_waiters);
    let start = DbView { list_waiters: left, outbox: Seq::empty(), ..pushed };
    let told = model::timeout_replies(pushed.list_waiters, db.now);
    law_waiters_are_served_in_order(start, told, key, 1);
    assert(queue[0].0 == client);
    assert(seq![element].skip(1) =~= Seq::empty());
    assert(seq![key].drop_first() =~= Seq::empty());
    reveal_with_fuel(model::serve_all, 2);
}

/// Law: a client that waits on a list until its time is over is told so, and
/// waits no more.
pub proof fn law_timeout_is_told(
    db: DbView,
    key: Seq<u8>,
    i: int,
)
    requires
        db.list_waiters.contains_key(key),
        0 <= i < db.list_waiters[key].len(),
        !model::ahead(db.list_waiters[key][i].1, db.now),
    ensures
        ({
            let waiter = db.list_waiters[key][i];
            let told = model::timeout_replies(db.list_waiters, db.now);
            &&& told.contains_key(waiter.0)
            &&& told[waiter.0] == RespView::Array(None)
            &&& !model::still_waiting(db.list_waiters[key], db.now).contains(waiter)
        }),
{
    let queue = db.list_waiters[key];
    let waiter = queue[i];
    assert(model::timed_out(db.list_waiters, db.now, waiter.0));
    let keep = |waiter: Waiter| model::ahead(waiter.1, db.now);
    lemma_filter_keeps(queue, keep, waiter);
}

proof fn lemma_filter_keeps(queue: Seq<Waiter>, keep: spec_fn(Waiter) -> bool, waiter: Waiter)
    ensures
        queue.filter(keep).contains(waiter) ==> keep(waiter),
    decreases queue.len(),
{
    reveal(Seq::filter);
    if queue.len() > 0 {
        lemma_filter_keeps(queue.drop_last(), keep, waiter);
        let before = queue.drop_last().filter(keep);
        let after = queue.filter(keep);
        if after.contains(waiter) {
            let j = choose|j: int| 0 <= j < after.len() && after[j] == waiter;
            if j < before.len() {
                assert(before[j] == waiter);
            }
        }
    }
}

/// Law: a client that waits on a stream gets the entry that is added behind what
/// it has read, at the next round, and waits no more.
pub proof fn law_entry_reaches_the_reader(
    db: DbView,
    key: Seq<u8>,
    client: ClientId,
    start: StreamId,
    deadline: Option<Duration>,
    id_spec: StreamIdSpec,
    fields: FieldsView,
)
    requires
        db.stream_or_empty(key) matches Ok(entries) && object::ids_increase(entries) && forall|
            i: int,
        | 0 <= i < entries.len() ==> (#[trigger] entries[i]).0.precedes(start),
        !db.is_expired(key),
        db.added_id(key, id_spec) matches Ok(id) && start.at_most(id),
        db.stream_waiters == seq![
            model::StreamWaitView { client_id: client, positions: seq![(key, start)], deadline },
        ],
    ensures
        ({
            let id = db.added_id(key, id_spec)->Ok_0;
            let round = model::stream_round(db.stream_add(key, id_spec, fields));
            &&& round.waiting == Seq::<model::StreamWaitView>::empty()
            &&& round.replies.contains_key(client)
            &&& round.replies[client] == RespView::Array(
                Some(seq![model::stream_reply(key, seq![(id, fields)])]),
            )
        }),
{
    law_ids_always_increase(db, key, id_spec, fields);
    let entries = db.stream_or_empty(key)->Ok_0;
    let id = db.added_id(key, id_spec)->Ok_0;
    let added = db.stream_add(key, id_spec, fields);
    let end = StreamId::last_of_all();
    let keep = |entry: EntryView| start.at_most(entry.0) && entry.0.at_most(end);
    let entry = (id, fields);
    let all = entries.push(entry);
    assert(all.filter(keep) =~= seq![entry]) by {
        reveal(Seq::filter);
        assert(all.drop_last() =~= entries);
        lemma_filter_in_order(entries, keep, start);
        if entries.filter(keep).len() > 0 {
            assert(keep(entries.filter(keep)[0]));
            assert(entries.filter(keep)[0].0.precedes(start));
        }
    }
    let wait = db.stream_waiters[0];
    let calm = DbView { stream_waiters: Seq::empty(), ..added };
    assert(added.stream_waiters == db.stream_waiters);
    assert(calm.lapsed(key) == calm);
    assert(calm.stream_range(key, start, end) == Ok::<_, ErrorView>(seq![entry]));
    let positions = seq![(key, start)];
    let body = model::stream_reply(key, seq![entry]);
    assert(positions.drop_first() =~= Seq::empty());
    reveal_with_fuel(model::read_positions, 2);
    assert(seq![body] + Seq::<RespView>::empty() =~= seq![body]);
    assert(model::read_positions(calm, positions) == (
        calm,
        Ok::<Seq<RespView>, ErrorView>(seq![body]),
    ));
    assert(model::snapshot(calm, positions) == Ok::<Option<RespView>, ErrorView>(
        Some(RespView::Array(Some(seq![body]))),
    ));
    reveal_with_fuel(model::stream_steps, 2);
    assert(added.stream_waiters.drop_first() =~= Seq::empty());
}

} // verus!
