//! That the keys to be served are known: every operation keeps it so.
use vstd::prelude::*;
use crate::client::ClientId;
use crate::db::model;
use crate::db::model::DbView;
use crate::db::object::ObjectView;
use crate::resp::RespView;
use crate::time::Duration;

verus! {

/// Neither the objects nor the clients that wait on lists have changed.
pub proof fn lemma_same_lists(before: DbView, after: DbView)
    requires
        before.due_keys_known(),
        after.keyspace == before.keyspace,
        after.list_waiters == before.list_waiters,
        after.outbox == before.outbox,
    ensures
        after.due_keys_known(),
{
    assert forall|key: Seq<u8>| #[trigger] model::can_serve(
        after,
        key,
    ) implies after.outbox.contains(key) by {
        assert(model::can_serve(before, key));
    }
}

/// A key is gone.
pub proof fn lemma_removed(db: DbView, key: Seq<u8>)
    requires
        db.due_keys_known(),
    ensures
        db.removed(key).due_keys_known(),
{
    let after = db.removed(key);
    assert forall|k: Seq<u8>| #[trigger] model::can_serve(
        after,
        k,
    ) implies after.outbox.contains(k) by {
        assert(model::can_serve(db, k));
    }
}

pub proof fn lemma_lapsed(db: DbView, key: Seq<u8>)
    requires
        db.due_keys_known(),
    ensures
        db.lapsed(key).due_keys_known(),
{
    lemma_removed(db, key);
}

/// An object is put at a key, and gives no client an element to wait for.
pub proof fn lemma_stored(db: DbView, key: Seq<u8>, object: ObjectView)
    requires
        db.due_keys_known(),
        object matches ObjectView::List(list) ==> list.len() == 0 || model::can_serve(db, key)
            || !db.list_waiters.contains_key(key) || db.list_waiters[key].len() == 0,
    ensures
        db.stored(key, object).due_keys_known(),
{
    let after = db.stored(key, object);
    assert forall|k: Seq<u8>| #[trigger] model::can_serve(
        after,
        k,
    ) implies after.outbox.contains(k) by {
        assert(model::can_serve(db, k));
    }
}

/// A list was pushed to.
pub proof fn lemma_pushed(db: DbView, key: Seq<u8>, list: Seq<Seq<u8>>)
    requires
        db.due_keys_known(),
    ensures
        db.pushed(key, list).due_keys_known(),
{
    let after = db.pushed(key, list);
    assert forall|k: Seq<u8>| #[trigger] model::can_serve(
        after,
        k,
    ) implies after.outbox.contains(k) by {
        if k == key {
            assert(after.outbox.last() == key);
        } else {
            assert(model::can_serve(db, k));
            let i = choose|i: int| 0 <= i < db.outbox.len() && db.outbox[i] == k;
            assert(after.outbox[i] == k);
        }
    }
}

pub proof fn lemma_list_append(db: DbView, key: Seq<u8>, elems: Seq<Seq<u8>>)
    requires
        db.due_keys_known(),
    ensures
        db.list_append(key, elems).due_keys_known(),
        db.list_prepend(key, elems).due_keys_known(),
{
    let told = db.touched(key);
    lemma_same_lists(db, told);
    if let Ok(list) = told.list_or_empty(key) {
        lemma_pushed(told, key, list + elems);
        lemma_pushed(told, key, elems.reverse() + list);
    }
}

pub proof fn lemma_list_pop(db: DbView, key: Seq<u8>, count: nat)
    requires
        db.due_keys_known(),
    ensures
        db.list_pop(key, count).due_keys_known(),
{
    let lapsed = db.touched(key).lapsed(key);
    lemma_same_lists(db, db.touched(key));
    lemma_lapsed(db.touched(key), key);
    if let Ok(Some(list)) = lapsed.list_at(key) {
        lemma_stored(lapsed, key, ObjectView::List(list.skip(model::pop_count(list, count))));
    }
}

pub proof fn lemma_blpop(
    db: DbView,
    key: Seq<u8>,
    timeout: Option<Duration>,
    client: ClientId,
)
    requires
        db.due_keys_known(),
    ensures
        db.blpop(key, timeout, client).due_keys_known(),
{
    lemma_list_take(db, key);
    let now = db.blpop_now(key);
    let after = db.blpop(key, timeout, client);
    assert(db.touched(key).lapsed(key).list_at(key) == db.lapsed(key).list_at(key));
    assert forall|k: Seq<u8>| #[trigger] model::can_serve(
        after,
        k,
    ) implies after.outbox.contains(k) by {
        assert(model::can_serve(now, k));
    }
}

pub proof fn lemma_list_take(db: DbView, key: Seq<u8>)
    requires
        db.due_keys_known(),
    ensures
        db.blpop_now(key).due_keys_known(),
{
    let lapsed = db.touched(key).lapsed(key);
    lemma_same_lists(db, db.touched(key));
    lemma_lapsed(db.touched(key), key);
    assert(lapsed.list_at(key) == db.lapsed(key).list_at(key));
    if let Ok(Some(list)) = lapsed.list_at(key) {
        if list.len() > 0 {
            lemma_stored(lapsed, key, ObjectView::List(list.skip(1)));
        }
    }
}

/// After a key was served, it cannot be served any more, and no other key can be
/// that could not before.
proof fn lemma_served(db: DbView, replies: Map<ClientId, RespView>, key: Seq<u8>)
    ensures
        forall|k: Seq<u8>| #[trigger]
            model::can_serve(model::serve(db, replies, key).0, k) ==> k != key
                && model::can_serve(db, k),
        model::serve(db, replies, key).0.outbox == db.outbox,
    decreases db.list_waiters[key].len(),
{
    if model::can_serve(db, key) {
        let list = db.list_at(key)->Ok_0->Some_0;
        let next = model::served_one(db, key);
        let told = replies.insert(
            db.list_waiters[key][0].0,
            model::element_reply(key, list[0]),
        );
        lemma_served(next, told, key);
        assert forall|k: Seq<u8>| #[trigger]
            model::can_serve(model::serve(db, replies, key).0, k) implies k != key
            && model::can_serve(db, k) by {
            assert(model::can_serve(next, k));
        }
    }
}

proof fn lemma_all_served(db: DbView, replies: Map<ClientId, RespView>, keys: Seq<Seq<u8>>)
    ensures
        forall|k: Seq<u8>| #[trigger]
            model::can_serve(model::serve_all(db, replies, keys).0, k) ==> !keys.contains(k)
                && model::can_serve(db, k),
        model::serve_all(db, replies, keys).0.outbox == db.outbox,
    decreases keys.len(),
{
    if keys.len() > 0 {
        let (mid, told) = model::serve(db, replies, keys[0]);
        lemma_served(db, replies, keys[0]);
        lemma_all_served(mid, told, keys.drop_first());
        assert forall|k: Seq<u8>| #[trigger]
            model::can_serve(model::serve_all(db, replies, keys).0, k) implies !keys.contains(k)
            && model::can_serve(db, k) by {
            assert(model::can_serve(mid, k));
            if keys.contains(k) {
                let i = choose|i: int| 0 <= i < keys.len() && keys[i] == k;
                assert(keys.drop_first()[i - 1] == k);
            }
        }
    }
}

/// A round serves every key that can be served.
pub proof fn lemma_list_round(db: DbView)
    requires
        db.due_keys_known(),
    ensures
        forall|key: Seq<u8>| !#[trigger] model::can_serve(model::list_round(db).0, key),
        model::list_round(db).0.due_keys_known(),
{
    let start = DbView {
        list_waiters: model::waiters_left(db.list_waiters, db.now),
        outbox: Seq::empty(),
        ..db
    };
    lemma_all_served(start, model::timeout_replies(db.list_waiters, db.now), db.outbox);
    assert forall|key: Seq<u8>| !#[trigger] model::can_serve(model::list_round(db).0, key) by {
        if model::can_serve(model::list_round(db).0, key) {
            assert(model::can_serve(start, key));
            let keep = |waiter: model::Waiter| model::ahead(waiter.1, db.now);
            db.list_waiters[key].lemma_filter_len(keep);
            assert(model::can_serve(db, key));
        }
    }
}

} // verus!
