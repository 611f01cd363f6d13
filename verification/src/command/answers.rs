//! What each command answers and leaves, said of the keys and the clock alone.
use vstd::prelude::*;
use vstd::utf8::*;
use crate::client::{ClientId, ClientMode};
use crate::command::common::ErrorView;
use crate::command::kind::CommandKind;
use crate::command::model;
use crate::db;
use crate::db::model::DbView;
use crate::db::object::ObjectView;
use crate::double;
use crate::networking::info::InfoView;
use crate::resp::{Propagate, ReplyView, RespView};
use crate::text;
use crate::time::Duration;

verus! {

// ---------------------------------------------------------------
// Ways to say it
// ---------------------------------------------------------------

/// Who sends a request: the connection, whether it may wait, and the server.
pub struct Sender {
    pub id: ClientId,
    pub may_wait: bool,
    pub server: InfoView,
}

/// A request outside of a transaction.
pub open spec fn run(db: DbView, kind: CommandKind, args: Seq<Seq<u8>>, by: Sender)
    -> model::Executed {
    model::execute(db, kind, args, by.id, ClientMode::Normal, by.may_wait, by.server)
}

/// The time of `key` is over.
pub open spec fn over(db: DbView, key: Seq<u8>) -> bool {
    db.expires.contains_key(key) && db.expires[key].nanos <= db.now.nanos
}

/// When `key` expires, if it does.
pub open spec fn due(db: DbView, key: Seq<u8>) -> Option<Duration> {
    if db.expires.contains_key(key) {
        Some(db.expires[key])
    } else {
        None
    }
}

/// What stands at `key`, whether or not its time is over.
pub open spec fn stored(db: DbView, key: Seq<u8>) -> Option<ObjectView> {
    if db.keyspace.contains_key(key) {
        Some(db.keyspace[key])
    } else {
        None
    }
}

/// What can be read at `key`.
pub open spec fn held(db: DbView, key: Seq<u8>) -> Option<ObjectView> {
    if over(db, key) {
        None
    } else {
        stored(db, key)
    }
}

/// The answer is `body`, and nothing goes on to the replicas.
pub open spec fn reads(r: model::Executed, body: RespView) -> bool {
    r.1 == Ok::<(ReplyView, Option<RespView>), ErrorView>(
        (ReplyView::Now(body, Propagate::Skip), None),
    )
}

/// An array of the words, each as a bulk string.
pub open spec fn words(items: Seq<Seq<u8>>) -> RespView {
    RespView::Array(Some(Seq::new(items.len(), |i: int| RespView::Bulk(Some(items[i])))))
}

/// The answer is `body`, and the request goes on to the replicas as it came.
pub open spec fn writes(r: model::Executed, body: RespView, args: Seq<Seq<u8>>) -> bool {
    r.1 == Ok::<(ReplyView, Option<RespView>), ErrorView>(
        (ReplyView::Now(body, Propagate::Replicate), Some(words(args))),
    )
}

pub open spec fn fails(r: model::Executed, e: ErrorView) -> bool {
    r.1 == Err::<(ReplyView, Option<RespView>), ErrorView>(e)
}

/// Every key can be read as before and as long as before, and nobody waits who did
/// not.
pub open spec fn nothing_new(db: DbView, after: DbView) -> bool {
    &&& after.now == db.now
    &&& after.list_waiters == db.list_waiters
    &&& after.stream_waiters == db.stream_waiters
    &&& after.outbox == db.outbox
    &&& forall|key: Seq<u8>| #[trigger] held(after, key) == held(db, key)
    &&& forall|key: Seq<u8>| !over(db, key) ==> #[trigger] due(after, key) == due(db, key)
}

/// The same clients wait, and the same keys are to be served.
pub open spec fn same_waiting(db: DbView, after: DbView) -> bool {
    &&& after.list_waiters == db.list_waiters
    &&& after.stream_waiters == db.stream_waiters
    &&& after.outbox == db.outbox
}

/// At no key but `key` has anything changed.
pub open spec fn same_but(db: DbView, after: DbView, key: Seq<u8>) -> bool {
    &&& after.now == db.now
    &&& forall|other: Seq<u8>|
        other != key ==> #[trigger] stored(after, other) == stored(db, other) && due(after, other)
            == due(db, other)
}

pub proof fn lemma_words(items: Seq<Seq<u8>>)
    ensures
        crate::resp::bulk_array(items) == words(items),
{
    assert(items.map_values(|b: Seq<u8>| RespView::Bulk(Some(b))) =~= Seq::new(
        items.len(),
        |i: int| RespView::Bulk(Some(items[i])),
    ));
}

/// Looking at a key changes nothing that can be read.
pub proof fn lemma_lapsed(db: DbView, key: Seq<u8>)
    ensures
        nothing_new(db, db.lapsed(key)),
        stored(db.lapsed(key), key) == held(db, key),
        !over(db.lapsed(key), key),
        same_but(db, db.lapsed(key), key),
        !over(db, key) ==> db.lapsed(key) == db,
        db.touched(key).lapsed(key).keyspace == db.lapsed(key).keyspace,
        db.touched(key).lapsed(key).expires == db.lapsed(key).expires,
        db.touched(key).lapsed(key).list_waiters == db.list_waiters,
{
    assert(db.is_expired(key) == over(db, key));
    let after = db.lapsed(key);
    assert forall|k: Seq<u8>| #[trigger] held(after, k) == held(db, k) by {
        assert(k != key ==> over(after, k) == over(db, k));
    }
}

// ---------------------------------------------------------------
// Strings
// ---------------------------------------------------------------

/// Law: GET answers with the string at the key, or with a null where there is
/// nothing; on something else it fails. It changes nothing.
pub proof fn law_get(db: DbView, args: Seq<Seq<u8>>, by: Sender)
    requires
        args.len() == 2,
    ensures
        ({
            let r = run(db, CommandKind::Get, args, by);
            &&& nothing_new(db, r.0)
            &&& match held(db, args[1]) {
                None => reads(r, RespView::Bulk(None)),
                Some(ObjectView::String(value)) => reads(r, RespView::Bulk(Some(value))),
                Some(_) => fails(r, ErrorView::WrongType("string"@)),
            }
        }),
{
    lemma_lapsed(db, args[1]);
}

/// Law: TYPE names the type of what stands at the key. It changes nothing.
pub proof fn law_type(db: DbView, args: Seq<Seq<u8>>, by: Sender)
    requires
        args.len() == 2,
    ensures
        ({
            let r = run(db, CommandKind::Type, args, by);
            &&& nothing_new(db, r.0)
            &&& match held(db, args[1]) {
                None => reads(r, RespView::Simple("none"@)),
                Some(ObjectView::String(_)) => reads(r, RespView::Simple("string"@)),
                Some(ObjectView::List(_)) => reads(r, RespView::Simple("list"@)),
                Some(ObjectView::Stream(_)) => reads(r, RespView::Simple("stream"@)),
            }
        }),
{
    lemma_lapsed(db, args[1]);
}

/// Law: SET puts the value at the key, whatever stood there, and answers OK. With
/// a unit and a number the key expires so much later than now; with less than both
/// its time stays as it was. A unit that is none, or a number that is none, is
/// refused, and then nothing changes.
pub proof fn law_set(db: DbView, args: Seq<Seq<u8>>, by: Sender)
    requires
        args.len() >= 3,
    ensures
        ({
            let r = run(db, CommandKind::SetKey, args, by);
            let (key, value) = (args[1], args[2]);
            let seconds = text::same_ignoring_case(args[3], encode_utf8("EX"@));
            let millis = text::same_ignoring_case(args[3], encode_utf8("PX"@));
            &&& same_waiting(db, r.0)
            &&& r.0.now == db.now
            &&& if args.len() < 5 {
                &&& writes(r, RespView::Simple("OK"@), args)
                &&& r.0.keyspace == db.keyspace.insert(key, ObjectView::String(value))
                &&& r.0.expires == db.expires
            } else if !seconds && !millis {
                fails(r, ErrorView::Unknown(text::shown(args[3]))) && r.0 == db
            } else {
                match double::count_text(args[4], seconds) {
                    None => fails(r, ErrorView::WrongNumber(text::shown(args[4]))) && r.0 == db,
                    Some(ms) => {
                        &&& writes(r, RespView::Simple("OK"@), args)
                        &&& r.0.keyspace == db.keyspace.insert(key, ObjectView::String(value))
                        &&& db.now.nanos + ms * 1_000_000 <= u128::MAX ==> r.0.expires
                            == db.expires.insert(
                            key,
                            Duration { nanos: (db.now.nanos + ms * 1_000_000) as u128 },
                        )
                    },
                }
            }
        }),
{
    lemma_words(args);
    lemma_units(args[3]);
}

/// No word is both units.
proof fn lemma_units(b: Seq<u8>)
    ensures
        !(model::is_word(b, "EX"@) && model::is_word(b, "PX"@)),
{
    reveal_strlit("EX");
    reveal_strlit("PX");
    is_ascii_chars_encode_utf8("EX"@);
    is_ascii_chars_encode_utf8("PX"@);
    let (e, p) = (encode_utf8("EX"@), encode_utf8("PX"@));
    assert("EX"@[0] as u8 == e[0] && "PX"@[0] as u8 == p[0]);
    if model::is_word(b, "EX"@) && model::is_word(b, "PX"@) {
        assert(text::lower(b[0]) == text::lower(e[0]));
        assert(text::lower(b[0]) == text::lower(p[0]));
    }
}

/// Law: `SET key value EX n` expires in `n` seconds, and with PX in `n`
/// milliseconds.
pub proof fn law_set_expires(db: DbView, args: Seq<Seq<u8>>, by: Sender, n: nat, seconds: bool)
    requires
        args.len() == 5,
        text::same_ignoring_case(
            args[3],
            encode_utf8(
                if seconds {
                    "EX"@
                } else {
                    "PX"@
                },
            ),
        ),
        args[4] == text::decimal(n),
        1000 * n < 0x20_0000_0000_0000,
        db.now.nanos + n * 1_000_000_000 <= u128::MAX,
    ensures
        run(db, CommandKind::SetKey, args, by).0.expires == db.expires.insert(
            args[1],
            Duration {
                nanos: (db.now.nanos + n * if seconds {
                    1_000_000_000int
                } else {
                    1_000_000
                }) as u128,
            },
        ),
{
    law_set(db, args, by);
    double::law_decimal_counts(n);
    lemma_units(args[3]);
}

/// Law: INCR answers with one more than the number at the key, and with one where
/// there is nothing, and that is what the key then holds. What is no number of 64
/// bits, or the greatest of them, is refused, and then nothing changes.
pub proof fn law_incr(db: DbView, args: Seq<Seq<u8>>, by: Sender)
    requires
        args.len() == 2,
    ensures
        ({
            let r = run(db, CommandKind::Incr, args, by);
            let key = args[1];
            let (most, least) = (0x7fff_ffff_ffff_ffffint, -0x8000_0000_0000_0000int);
            &&& same_but(db, r.0, key)
            &&& same_waiting(db, r.0)
            &&& !over(db, key) ==> r.0.expires == db.expires
            &&& match held(db, key) {
                None => {
                    &&& writes(r, RespView::Integer(1), args)
                    &&& held(r.0, key) == Some(ObjectView::String(text::decimal(1)))
                },
                Some(ObjectView::String(value)) => match text::signed_value(value) {
                    Some(n) => if least <= n < most {
                        &&& writes(r, RespView::Integer((n + 1) as i64), args)
                        &&& held(r.0, key) == Some(
                            ObjectView::String(text::signed_decimal(n + 1)),
                        )
                    } else {
                        fails(r, ErrorView::NotAnInteger) && nothing_new(db, r.0)
                    },
                    None => fails(r, ErrorView::NotAnInteger) && nothing_new(db, r.0),
                },
                Some(_) => fails(r, ErrorView::WrongType("string"@)) && nothing_new(db, r.0),
            }
        }),
{
    lemma_words(args);
    lemma_lapsed(db, args[1]);
}

/// Law: a counter that was set to `n` and is then raised reads as `n + 1`, be it
/// above zero or below.
pub proof fn law_set_then_incr(
    db: DbView,
    put: Seq<Seq<u8>>,
    raise: Seq<Seq<u8>>,
    look: Seq<Seq<u8>>,
    by: Sender,
    n: i64,
)
    requires
        n < i64::MAX,
        put.len() == 3 && raise.len() == 2 && look.len() == 2,
        put[1] == raise[1] && raise[1] == look[1],
        put[2] == text::signed_decimal(n as int),
        !over(db, put[1]),
    ensures
        ({
            let (once, _) = run(db, CommandKind::SetKey, put, by);
            let r = run(once, CommandKind::Incr, raise, by);
            &&& writes(r, RespView::Integer((n + 1) as i64), raise)
            &&& reads(
                run(r.0, CommandKind::Get, look, by),
                RespView::Bulk(Some(text::signed_decimal(n + 1))),
            )
        }),
{
    law_set(db, put, by);
    let (once, _) = run(db, CommandKind::SetKey, put, by);
    text::law_signed_decimal_roundtrip(n as int);
    law_incr(once, raise, by);
    law_get(run(once, CommandKind::Incr, raise, by).0, look, by);
}

// ---------------------------------------------------------------
// Lists
// ---------------------------------------------------------------

/// Law: RPUSH puts the elements behind what the list holds, LPUSH puts them before
/// it, the last one first, and each answers with the new length. A list that is not
/// there is begun. On something else it fails, and then nothing changes.
pub proof fn law_push(db: DbView, args: Seq<Seq<u8>>, by: Sender, front: bool)
    requires
        args.len() >= 3,
    ensures
        ({
            let r = run(
                db,
                if front {
                    CommandKind::Lpush
                } else {
                    CommandKind::Rpush
                },
                args,
                by,
            );
            let key = args[1];
            let n = args.len() - 2;
            let list = match stored(db, key) {
                Some(ObjectView::List(list)) => list,
                _ => Seq::empty(),
            };
            let fits = stored(db, key) is None || stored(db, key)->0 is List;
            &&& same_but(db, r.0, key)
            &&& r.0.expires == db.expires
            &&& r.0.list_waiters == db.list_waiters
            &&& r.0.stream_waiters == db.stream_waiters
            &&& r.0.outbox == if fits && db.list_waiters.contains_key(key) {
                db.outbox.push(key)
            } else {
                db.outbox
            }
            &&& !fits ==> fails(r, ErrorView::WrongType("list"@)) && r.0.keyspace == db.keyspace
            &&& fits ==> {
                &&& writes(r, RespView::Integer((list.len() + n) as i64), args)
                &&& stored(r.0, key) == Some(
                    ObjectView::List(
                        if front {
                            Seq::new(n as nat, |i: int| args[args.len() - 1 - i]) + list
                        } else {
                            list + args.subrange(2, args.len() as int)
                        },
                    ),
                )
            }
        }),
{
    lemma_words(args);
    let key = args[1];
    let elems = args.skip(2);
    assert(elems =~= args.subrange(2, args.len() as int));
    assert(elems.reverse() =~= Seq::new(elems.len(), |i: int| args[args.len() - 1 - i]));
}

/// Law: LLEN answers with the number of elements, which is none where there is no
/// list. It changes nothing.
pub proof fn law_llen(db: DbView, args: Seq<Seq<u8>>, by: Sender)
    requires
        args.len() == 2,
    ensures
        ({
            let r = run(db, CommandKind::Llen, args, by);
            &&& nothing_new(db, r.0)
            &&& match held(db, args[1]) {
                None => reads(r, RespView::Integer(0)),
                Some(ObjectView::List(list)) => reads(r, RespView::Integer(list.len() as i64)),
                Some(_) => fails(r, ErrorView::WrongType("list"@)),
            }
        }),
{
    lemma_lapsed(db, args[1]);
}

/// The number of 32 bits that a text denotes.
pub open spec fn small(b: Seq<u8>) -> Option<int> {
    match text::signed_value(b) {
        Some(n) => if -0x8000_0000 <= n <= 0x7fff_ffff {
            Some(n)
        } else {
            None
        },
        None => None,
    }
}

/// Law: LRANGE answers with the elements from one index to the other, both
/// included. An index below zero counts from the end; what lies outside of the list
/// is left away; and where the first lies behind the last there is nothing. A text
/// that is no index is refused. It changes nothing.
pub proof fn law_lrange(db: DbView, args: Seq<Seq<u8>>, by: Sender)
    requires
        args.len() == 4,
    ensures
        ({
            let r = run(db, CommandKind::Lrange, args, by);
            &&& nothing_new(db, r.0)
            &&& small(args[2]) is None ==> fails(r, ErrorView::WrongNumber(text::shown(args[2])))
            &&& small(args[2]) is Some && small(args[3]) is None ==> fails(
                r,
                ErrorView::WrongNumber(text::shown(args[3])),
            )
            &&& small(args[2]) is Some && small(args[3]) is Some ==> match held(db, args[1]) {
                None => reads(r, words(Seq::empty())),
                Some(ObjectView::List(list)) => {
                    let n = list.len() as int;
                    let from = small(args[2])->0 + if small(args[2])->0 < 0 {
                        n
                    } else {
                        0
                    };
                    let to = small(args[3])->0 + if small(args[3])->0 < 0 {
                        n
                    } else {
                        0
                    };
                    let first = if from < 0 {
                        0
                    } else {
                        from
                    };
                    let end = if to >= n {
                        n
                    } else {
                        to + 1
                    };
                    reads(
                        r,
                        words(
                            if first < end {
                                list.subrange(first, end)
                            } else {
                                Seq::empty()
                            },
                        ),
                    )
                },
                Some(_) => fails(r, ErrorView::WrongType("list"@)),
            }
        }),
{
    let key = args[1];
    lemma_lapsed(db, key);
    lemma_words(Seq::empty());
    if small(args[2]) is Some && small(args[3]) is Some {
        if let Some(ObjectView::List(list)) = held(db, key) {
            lemma_words(db::model::list_slice(list, small(args[2])->0, small(args[3])->0));
        }
    }
    assert(db::model::list_slice(
        Seq::<Seq<u8>>::empty(),
        small(args[2])->0,
        small(args[3])->0,
    ) =~= Seq::empty());
}

/// Law: LPOP takes elements from the front, one where it is told no number, and all
/// where there are no more. One element stands alone, more or none in an array. What
/// it has not taken stays. A number that is none is refused; and then, or on
/// something else, nothing changes.
pub proof fn law_lpop(db: DbView, args: Seq<Seq<u8>>, by: Sender)
    requires
        args.len() >= 2,
    ensures
        ({
            let r = run(db, CommandKind::Lpop, args, by);
            let key = args[1];
            let number = if args.len() < 3 {
                Some(1nat)
            } else {
                text::unsigned_value(args[2])
            };
            &&& same_but(db, r.0, key)
            &&& same_waiting(db, r.0)
            &&& !over(db, key) ==> r.0.expires == db.expires
            &&& match number {
                Some(count) => if count > usize::MAX {
                    fails(r, ErrorView::WrongNumber(text::shown(args[2]))) && r.0 == db
                } else {
                    match held(db, key) {
                        None => writes(r, words(Seq::empty()), args) && held(r.0, key) is None,
                        Some(ObjectView::List(list)) => {
                            let taken = if count < list.len() {
                                count as int
                            } else {
                                list.len() as int
                            };
                            &&& writes(
                                r,
                                if taken == 1 {
                                    RespView::Bulk(Some(list[0]))
                                } else {
                                    words(list.subrange(0, taken))
                                },
                                args,
                            )
                            &&& held(r.0, key) == Some(
                                ObjectView::List(list.subrange(taken, list.len() as int)),
                            )
                        },
                        Some(_) => fails(r, ErrorView::WrongType("list"@)) && nothing_new(db, r.0),
                    }
                },
                None => fails(r, ErrorView::WrongNumber(text::shown(args[2]))) && r.0 == db,
            }
        }),
{
    let key = args[1];
    lemma_words(args);
    lemma_lapsed(db, key);
    lemma_words(Seq::empty());
    let mid = db.touched(key).lapsed(key);
    assert(nothing_new(db, mid)) by {
        assert forall|k: Seq<u8>| #[trigger] held(mid, k) == held(db, k) by {
            assert(held(db.lapsed(key), k) == held(db, k));
        }
        assert forall|k: Seq<u8>| !over(db, k) implies #[trigger] due(mid, k) == due(db, k) by {
            assert(due(db.lapsed(key), k) == due(db, k));
        }
    }
    if let Some(ObjectView::List(list)) = held(db, key) {
        let number = if args.len() < 3 {
            Some(1nat)
        } else {
            text::unsigned_value(args[2])
        };
        if let Some(count) = number {
            let n = db::model::pop_count(list, count);
            lemma_words(list.take(n));
            assert(list.take(n) =~= list.subrange(0, n));
            assert(list.skip(n) =~= list.subrange(n, list.len() as int));
        }
    }
}

/// How long BLPOP waits, in milliseconds; not at all limited where it is told zero
/// or nothing.
pub open spec fn limit(args: Seq<Seq<u8>>) -> Result<Option<u64>, ErrorView> {
    if args.len() < 3 {
        Ok(None)
    } else {
        match double::count_text(args[2], true) {
            None => Err(ErrorView::WrongNumber(text::shown(args[2]))),
            Some(0) => Ok(None),
            Some(ms) => Ok(Some(ms)),
        }
    }
}

/// `at` is so many milliseconds from now, if it is limited at all.
pub open spec fn in_millis(now: Duration, ms: Option<u64>, at: Option<Duration>) -> bool {
    match ms {
        None => at is None,
        Some(ms) => now.nanos + ms * 1_000_000 <= u128::MAX ==> at == Some(
            Duration { nanos: (now.nanos + ms * 1_000_000) as u128 },
        ),
    }
}

/// Law: BLPOP on a list that has elements answers at once with the key and the
/// first of them, which leaves the list. Where there is none the client is queued
/// behind those that wait for the key already, until its time is over; or, where it
/// may not wait, it gets a null array. A time that is none is refused; and then, or on
/// something else, nothing changes.
pub proof fn law_blpop(db: DbView, args: Seq<Seq<u8>>, by: Sender)
    requires
        args.len() >= 2,
    ensures
        ({
            let r = run(db, CommandKind::Blpop, args, by);
            let key = args[1];
            let list = match held(db, key) {
                Some(ObjectView::List(list)) => list,
                _ => Seq::empty(),
            };
            let fits = held(db, key) is None || held(db, key)->0 is List;
            &&& same_but(db, r.0, key)
            &&& !over(db, key) ==> r.0.expires == db.expires
            &&& r.0.stream_waiters == db.stream_waiters
            &&& r.0.outbox == db.outbox
            &&& match limit(args) {
                Err(e) => fails(r, e) && r.0 == db,
                Ok(ms) => if !fits {
                    fails(r, ErrorView::WrongType("list"@)) && nothing_new(db, r.0)
                } else if list.len() > 0 {
                    &&& writes(
                        r,
                        RespView::Array(
                            Some(
                                seq![RespView::Bulk(Some(key)), RespView::Bulk(Some(list[0]))],
                            ),
                        ),
                        args,
                    )
                    &&& held(r.0, key) == Some(
                        ObjectView::List(list.subrange(1, list.len() as int)),
                    )
                    &&& r.0.list_waiters == db.list_waiters
                } else if by.may_wait {
                    let queue = if db.list_waiters.contains_key(key) {
                        db.list_waiters[key]
                    } else {
                        Seq::empty()
                    };
                    let now = r.0.list_waiters[key];
                    &&& r.1 == Ok::<(ReplyView, Option<RespView>), ErrorView>(
                        (ReplyView::Blocked, None),
                    )
                    &&& held(r.0, key) == held(db, key)
                    &&& r.0.list_waiters == db.list_waiters.insert(key, now)
                    &&& now.len() == queue.len() + 1
                    &&& now.subrange(0, queue.len() as int) == queue
                    &&& now[queue.len() as int].0 == by.id
                    &&& in_millis(db.now, ms, now[queue.len() as int].1)
                } else {
                    reads(r, RespView::Array(None)) && nothing_new(db, r.0)
                },
            }
        }),
{
    let key = args[1];
    lemma_words(args);
    lemma_lapsed(db, key);
    let mid = db.touched(key).lapsed(key);
    assert(mid.now == db.now && mid.outbox == db.outbox && mid.stream_waiters
        == db.stream_waiters);
    assert(nothing_new(db, mid)) by {
        assert forall|k: Seq<u8>| #[trigger] held(mid, k) == held(db, k) by {
            assert(held(db.lapsed(key), k) == held(db, k));
        }
        assert forall|k: Seq<u8>| !over(db, k) implies #[trigger] due(mid, k) == due(db, k) by {
            assert(due(db.lapsed(key), k) == due(db, k));
        }
    }
    assert(mid.list_at(key) == db.lapsed(key).list_at(key));
    if let Some(ObjectView::List(list)) = held(db, key) {
        if list.len() > 0 {
            assert(list.skip(1) =~= list.subrange(1, list.len() as int));
        }
    }
    let queue = if db.list_waiters.contains_key(key) {
        db.list_waiters[key]
    } else {
        Seq::empty()
    };
    let r = run(db, CommandKind::Blpop, args, by);
    assert(forall|w: db::model::Waiter|
        (#[trigger] queue.push(w)).subrange(0, queue.len() as int) =~= queue);
    assert(r.0.list_waiters =~= db.list_waiters || r.0.list_waiters =~= db.list_waiters.insert(
        key,
        r.0.list_waiters[key],
    ));
}

/// Law: BLPOP waits `n` seconds where it is told the whole number `n`, and without
/// limit where that is zero.
pub proof fn law_blpop_waits_seconds(args: Seq<Seq<u8>>, n: nat)
    requires
        args.len() == 3,
        args[2] == text::decimal(n),
        1000 * n < 0x20_0000_0000_0000,
    ensures
        limit(args) == Ok::<Option<u64>, ErrorView>(
            if n == 0 {
                None
            } else {
                Some((1000 * n) as u64)
            },
        ),
{
    double::law_decimal_counts(n);
}

} // verus!
