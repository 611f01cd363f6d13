//! What holds of the commands as a whole.
use vstd::prelude::*;
use vstd::utf8::*;
use crate::client::{ClientId, ClientMode};
use crate::command::common::ErrorView;
use crate::command::kind;
use crate::command::kind::CommandKind;
use crate::command::list::Side;
use crate::command::model;
use crate::db;
use crate::db::model::DbView;
use crate::networking::info::InfoView;
use crate::resp;
use crate::resp::{Propagate, ReplyView, RespView};
use crate::text;
use crate::time::Duration;

verus! {

// ---------------------------------------------------------------
// Reading what was written
// ---------------------------------------------------------------

/// When a key expires once SET has given it a value: at the time that SET says,
/// or at the one that the key had before.
pub open spec fn expiry_after_set(
    db: DbView,
    key: Seq<u8>,
    ttl: Option<Duration>,
) -> Option<Duration> {
    match ttl {
        Some(t) => Some(db.now.plus(t)),
        None => if db.expires.contains_key(key) {
            Some(db.expires[key])
        } else {
            None
        },
    }
}

/// Law: GET gives back what SET has written, until the key expires; from then on
/// there is nothing.
pub proof fn law_set_then_get(
    db: DbView,
    key: Seq<u8>,
    value: Seq<u8>,
    unit: Option<Seq<u8>>,
    exp: Option<Seq<u8>>,
    later: Duration,
)
    requires
        model::set_ttl(unit, exp) is Ok,
    ensures
        ({
            let (after, reply) = model::set(db, key, value, unit, exp);
            let expiry = expiry_after_set(db, key, model::set_ttl(unit, exp)->Ok_0);
            let over = expiry matches Some(at) && at.nanos <= later.nanos;
            &&& reply == Ok::<ReplyView, ErrorView>(model::write(model::ok_body()))
            &&& model::get(DbView { now: later, ..after }, key).1 == Ok::<ReplyView, ErrorView>(
                model::readonly(
                    RespView::Bulk(
                        if over {
                            None
                        } else {
                            Some(value)
                        },
                    ),
                ),
            )
        }),
{
}

/// Law: INCR counts. On a key that is not there it gives one, and each time one
/// more than before.
pub proof fn law_incr_counts(db: DbView, key: Seq<u8>)
    requires
        db.lapsed(key).next_int(key) matches Ok(n) && n < i64::MAX,
    ensures
        ({
            let n = db.lapsed(key).next_int(key)->Ok_0;
            let (once, first) = model::incr(db, key);
            &&& first == Ok::<ReplyView, ErrorView>(model::write(RespView::Integer(n as i64)))
            &&& model::incr(once, key).1 == Ok::<ReplyView, ErrorView>(
                model::write(RespView::Integer((n + 1) as i64)),
            )
        }),
{
    let n = db.lapsed(key).next_int(key)->Ok_0;
    let once = db.incr(key);
    text::law_signed_decimal_roundtrip(n);
    db::key_value::law_value_int_roundtrip(n as i64);
    assert(!db.lapsed(key).is_expired(key));
    assert(once.expires == db.lapsed(key).expires);
    assert(!once.is_expired(key));
    assert(once.string_at(key) == Ok::<_, ErrorView>(Some(text::signed_decimal(n))));
    assert(i64::MIN <= n) by {
        match db.lapsed(key).string_at(key) {
            Ok(Some(value)) => {},
            _ => {},
        }
    }
}

/// Law: RPUSH and then LRANGE over the whole list gives what was there and then
/// what was pushed.
pub proof fn law_push_then_lrange(
    db: DbView,
    key: Seq<u8>,
    elems: Seq<Seq<u8>>,
    from: Seq<u8>,
    to: Seq<u8>,
)
    requires
        db.list_or_empty(key) is Ok,
        !db.is_expired(key),
        model::index(from) == Ok::<int, ErrorView>(0),
        model::index(to) == Ok::<int, ErrorView>(-1),
    ensures
        ({
            let list = db.list_or_empty(key)->Ok_0;
            let back = model::push(db, Side::Back, key, elems).0;
            let front = model::push(db, Side::Front, key, elems).0;
            &&& model::lrange(back, key, from, to).1 == Ok::<ReplyView, ErrorView>(
                model::readonly(resp::bulk_array(list + elems)),
            )
            &&& model::lrange(front, key, from, to).1 == Ok::<ReplyView, ErrorView>(
                model::readonly(resp::bulk_array(elems.reverse() + list)),
            )
        }),
{
    let list = db.list_or_empty(key)->Ok_0;
    db::laws::law_push_then_read(db, key, elems);
    db::laws::law_slice_is_clamped(list + elems, 0, -1);
    db::laws::law_slice_is_clamped(elems.reverse() + list, 0, -1);
}

// ---------------------------------------------------------------
// Replication
// ---------------------------------------------------------------

/// The kinds of request that can change what the keys hold.
pub open spec fn is_write(kind: CommandKind) -> bool {
    kind is SetKey || kind is Lpush || kind is Rpush || kind is Lpop || kind is Blpop
        || kind is Xadd || kind is Incr
}

/// Law: a request goes on to the replicas as it came, if it is a write that was
/// answered at once, and not otherwise. No read ever does.
pub proof fn law_writes_are_forwarded(
    db: DbView,
    kind: CommandKind,
    args: Seq<Seq<u8>>,
    client: ClientId,
    mode: ClientMode,
    may_wait: bool,
    server: InfoView,
)
    ensures
        model::execute(db, kind, args, client, mode, may_wait, server).1 matches Ok(
            (reply, forward),
        ) ==> {
            &&& forward is Some ==> forward == Some(resp::bulk_array(args)) && is_write(kind)
            &&& forward is Some ==> mode == ClientMode::Normal && reply is Now
            &&& is_write(kind) && !(kind is Blpop) && mode == ClientMode::Normal ==> forward is Some
        },
{
}

/// `after` holds what `db` held, but for keys whose time was over.
pub open spec fn holds_the_same(db: DbView, after: DbView) -> bool {
    &&& forall|key: Seq<u8>| #[trigger]
        after.keyspace.contains_key(key) ==> db.keyspace.contains_key(key) && after.keyspace[key]
            == db.keyspace[key]
    &&& forall|key: Seq<u8>| #[trigger]
        db.keyspace.contains_key(key) && !db.is_expired(key) ==> after.keyspace.contains_key(key)
}

proof fn lemma_lapsed_same(db: DbView, key: Seq<u8>)
    ensures
        holds_the_same(db, db.lapsed(key)),
        holds_the_same(db, db.touched(key).lapsed(key)),
{
    assert forall|k: Seq<u8>| db.touched(key).is_expired(k) == db.is_expired(k) by {}
}

/// Law: what is not sent on to the replicas has changed nothing that they hold.
/// XREAD is left out, because it puts an empty stream where there was nothing;
/// and so is an XADD that is refused, which may do the same.
pub proof fn law_unforwarded_changes_nothing(
    db: DbView,
    kind: CommandKind,
    args: Seq<Seq<u8>>,
    client: ClientId,
    mode: ClientMode,
    may_wait: bool,
    server: InfoView,
)
    requires
        !(kind is Xread),
        kind is Xadd ==> model::execute(db, kind, args, client, mode, may_wait, server).1 is Ok,
    ensures
        ({
            let (after, r) = model::execute(db, kind, args, client, mode, may_wait, server);
            !(r matches Ok((_, Some(_)))) ==> holds_the_same(db, after)
        }),
{
    assert(holds_the_same(db, db));
    if mode == ClientMode::Normal {
        lemma_unforwarded_normal(db, kind, args, client, may_wait, server);
    }
}

/// A push that is refused changes nothing.
proof fn lemma_refused_push(db: DbView, side: Side, key: Seq<u8>, elems: Seq<Seq<u8>>)
    requires
        model::push(db, side, key, elems).1 is Err,
    ensures
        holds_the_same(db, model::push(db, side, key, elems).0),
{
    assert(db.touched(key).list_or_empty(key) == db.list_or_empty(key));
}

/// A pop that finds nothing, or is refused, changes nothing.
proof fn lemma_idle_pop(
    db: DbView,
    key: Seq<u8>,
    num: Option<Seq<u8>>,
    timeout: Option<Seq<u8>>,
    client: ClientId,
    may_wait: bool,
)
    ensures
        model::lpop(db, key, num).1 is Err ==> holds_the_same(db, model::lpop(db, key, num).0),
        !(model::blpop(db, key, timeout, client, may_wait).1 matches Ok(
            ReplyView::Now(_, Propagate::Replicate),
        )) ==> holds_the_same(db, model::blpop(db, key, timeout, client, may_wait).0),
{
    lemma_lapsed_same(db, key);
    assert(db.touched(key).lapsed(key).list_at(key) == db.lapsed(key).list_at(key));
}

proof fn lemma_unforwarded_normal(
    db: DbView,
    kind: CommandKind,
    args: Seq<Seq<u8>>,
    client: ClientId,
    may_wait: bool,
    server: InfoView,
)
    requires
        !(kind is Xread),
        kind is Xadd ==> model::run_normal(db, kind, args, client, may_wait, server).1 is Ok,
    ensures
        ({
            let (after, r) = model::run_normal(db, kind, args, client, may_wait, server);
            !(r matches Ok(ReplyView::Now(_, Propagate::Replicate))) ==> holds_the_same(db, after)
        }),
{
    assert(holds_the_same(db, db));
    let key = args[1];
    match kind {
        CommandKind::Lpush => {
            if model::push(db, Side::Front, key, args.skip(2)).1 is Err {
                lemma_refused_push(db, Side::Front, key, args.skip(2));
            }
        },
        CommandKind::Rpush => {
            if model::push(db, Side::Back, key, args.skip(2)).1 is Err {
                lemma_refused_push(db, Side::Back, key, args.skip(2));
            }
        },
        CommandKind::Lpop => {
            lemma_idle_pop(db, key, model::opt_arg(args, 2), None, client, may_wait);
        },
        CommandKind::Blpop => {
            lemma_idle_pop(db, key, None, model::opt_arg(args, 2), client, may_wait);
        },
        _ => {
            lemma_lapsed_same(db, key);
        },
    }
}

// ---------------------------------------------------------------
// Transactions
// ---------------------------------------------------------------

/// Law: inside of a transaction no request touches the database; EXEC and
/// DISCARD do so only once they take effect on the connection.
pub proof fn law_queueing_touches_nothing(
    db: DbView,
    kind: CommandKind,
    args: Seq<Seq<u8>>,
    client: ClientId,
    may_wait: bool,
    server: InfoView,
)
    ensures
        model::execute(db, kind, args, client, ClientMode::Transaction, may_wait, server).0 == db,
        model::is_queued(kind) ==> model::execute(
            db,
            kind,
            args,
            client,
            ClientMode::Transaction,
            may_wait,
            server,
        ).1 == Ok::<(ReplyView, Option<RespView>), ErrorView>(
            (ReplyView::AddTransaction(resp::bulk_array(args)), None),
        ),
{
}

proof fn lemma_positions_keep(db: DbView, keys: Seq<Seq<u8>>, ids: Seq<Seq<u8>>)
    ensures
        model::positions(db, keys, ids).0.list_waiters == db.list_waiters,
        model::positions(db, keys, ids).0.stream_waiters == db.stream_waiters,
    decreases keys.len(),
{
    if keys.len() > 0 {
        lemma_positions_keep(db.stream_created(keys[0]), keys.drop_first(), ids.drop_first());
    }
}

/// Law: a request that may not wait makes nobody wait, and is answered at once.
pub proof fn law_no_waiting_where_it_is_forbidden(
    db: DbView,
    kind: CommandKind,
    args: Seq<Seq<u8>>,
    client: ClientId,
    server: InfoView,
)
    ensures
        ({
            let (after, r) = model::run_normal(db, kind, args, client, false, server);
            &&& after.list_waiters == db.list_waiters
            &&& after.stream_waiters == db.stream_waiters
            &&& !(r matches Ok(ReplyView::Blocked))
        }),
{
    if kind is Xread {
        let words = args.skip(1);
        if let Ok((block, rest)) = model::block_prefix(words) {
            if let Ok(elems) = model::after_streams(rest) {
                let half = elems.len() as int / 2;
                lemma_positions_keep(db, elems.take(half), elems.skip(half));
                let (next, found) = model::positions(db, elems.take(half), elems.skip(half));
                if let Ok(places) = found {
                    db::waiters::lemma_read_keeps(next, places);
                }
            }
        }
    }
}

// ---------------------------------------------------------------
// Names
// ---------------------------------------------------------------

/// `b` with its letters in lower case.
spec fn lowered(b: Seq<u8>) -> Seq<u8> {
    b.map_values(|c: u8| text::lower(c))
}

proof fn lemma_word_is_lowered(b: Seq<u8>, name: Seq<char>)
    ensures
        model::is_word(b, name) <==> lowered(b) == lowered(encode_utf8(name)),
{
    let word = encode_utf8(name);
    if model::is_word(b, name) {
        assert(lowered(b) =~= lowered(word));
    } else if lowered(b) == lowered(word) {
        assert(lowered(b).len() == lowered(word).len());
        assert forall|i: int| 0 <= i < b.len() implies text::lower(#[trigger] b[i]) == text::lower(
            word[i],
        ) by {
            assert(lowered(b)[i] == lowered(word)[i]);
        }
    }
}

/// The letters of an ASCII name, in lower case.
proof fn lemma_lowered_name(name: Seq<char>)
    requires
        is_ascii_chars(name),
    ensures
        lowered(encode_utf8(name)) == name.map_values(|c: char| text::lower(c as u8)),
{
    is_ascii_chars_encode_utf8(name);
    assert(lowered(encode_utf8(name)) =~= name.map_values(|c: char| text::lower(c as u8)));
}

spec fn lowered_name(kind: CommandKind) -> Seq<u8> {
    lowered(encode_utf8(kind.name()))
}

/// The name of each command, letter by letter.
proof fn lemma_lowered_names(kind: CommandKind)
    ensures
        lowered_name(kind) == (match kind {
            CommandKind::Info => seq![105u8, 110u8, 102u8, 111u8],
            CommandKind::Ping => seq![112u8, 105u8, 110u8, 103u8],
            CommandKind::Echo => seq![101u8, 99u8, 104u8, 111u8],
            CommandKind::SetKey => seq![115u8, 101u8, 116u8],
            CommandKind::Get => seq![103u8, 101u8, 116u8],
            CommandKind::Rpush => seq![114u8, 112u8, 117u8, 115u8, 104u8],
            CommandKind::Lpush => seq![108u8, 112u8, 117u8, 115u8, 104u8],
            CommandKind::Lrange => seq![108u8, 114u8, 97u8, 110u8, 103u8, 101u8],
            CommandKind::Llen => seq![108u8, 108u8, 101u8, 110u8],
            CommandKind::Lpop => seq![108u8, 112u8, 111u8, 112u8],
            CommandKind::Blpop => seq![98u8, 108u8, 112u8, 111u8, 112u8],
            CommandKind::Type => seq![116u8, 121u8, 112u8, 101u8],
            CommandKind::Xadd => seq![120u8, 97u8, 100u8, 100u8],
            CommandKind::Xrange => seq![120u8, 114u8, 97u8, 110u8, 103u8, 101u8],
            CommandKind::Xread => seq![120u8, 114u8, 101u8, 97u8, 100u8],
            CommandKind::Incr => seq![105u8, 110u8, 99u8, 114u8],
            CommandKind::Multi => seq![109u8, 117u8, 108u8, 116u8, 105u8],
            CommandKind::Exec => seq![101u8, 120u8, 101u8, 99u8],
            CommandKind::Discard => seq![100u8, 105u8, 115u8, 99u8, 97u8, 114u8, 100u8],
            CommandKind::Watch => seq![119u8, 97u8, 116u8, 99u8, 104u8],
            CommandKind::Unwatch => seq![117u8, 110u8, 119u8, 97u8, 116u8, 99u8, 104u8],
            CommandKind::Replconf => seq![114u8, 101u8, 112u8, 108u8, 99u8, 111u8, 110u8, 102u8],
            CommandKind::Psync => seq![112u8, 115u8, 121u8, 110u8, 99u8],
        }),
{
    match kind {
        CommandKind::Info => {
            reveal_strlit("INFO");
            lemma_lowered_name("INFO"@);
        },
        CommandKind::Ping => {
            reveal_strlit("PING");
            lemma_lowered_name("PING"@);
        },
        CommandKind::Echo => {
            reveal_strlit("ECHO");
            lemma_lowered_name("ECHO"@);
        },
        CommandKind::SetKey => {
            reveal_strlit("SET");
            lemma_lowered_name("SET"@);
        },
        CommandKind::Get => {
            reveal_strlit("GET");
            lemma_lowered_name("GET"@);
        },
        CommandKind::Rpush => {
            reveal_strlit("RPUSH");
            lemma_lowered_name("RPUSH"@);
        },
        CommandKind::Lpush => {
            reveal_strlit("LPUSH");
            lemma_lowered_name("LPUSH"@);
        },
        CommandKind::Lrange => {
            reveal_strlit("LRANGE");
            lemma_lowered_name("LRANGE"@);
        },
        CommandKind::Llen => {
            reveal_strlit("LLEN");
            lemma_lowered_name("LLEN"@);
        },
        CommandKind::Lpop => {
            reveal_strlit("LPOP");
            lemma_lowered_name("LPOP"@);
        },
        CommandKind::Blpop => {
            reveal_strlit("BLPOP");
            lemma_lowered_name("BLPOP"@);
        },
        CommandKind::Type => {
            reveal_strlit("TYPE");
            lemma_lowered_name("TYPE"@);
        },
        CommandKind::Xadd => {
            reveal_strlit("XADD");
            lemma_lowered_name("XADD"@);
        },
        CommandKind::Xrange => {
            reveal_strlit("XRANGE");
            lemma_lowered_name("XRANGE"@);
        },
        CommandKind::Xread => {
            reveal_strlit("XREAD");
            lemma_lowered_name("XREAD"@);
        },
        CommandKind::Incr => {
            reveal_strlit("INCR");
            lemma_lowered_name("INCR"@);
        },
        CommandKind::Multi => {
            reveal_strlit("MULTI");
            lemma_lowered_name("MULTI"@);
        },
        CommandKind::Exec => {
            reveal_strlit("EXEC");
            lemma_lowered_name("EXEC"@);
        },
        CommandKind::Discard => {
            reveal_strlit("DISCARD");
            lemma_lowered_name("DISCARD"@);
        },
        CommandKind::Watch => {
            reveal_strlit("WATCH");
            lemma_lowered_name("WATCH"@);
        },
        CommandKind::Unwatch => {
            reveal_strlit("UNWATCH");
            lemma_lowered_name("UNWATCH"@);
        },
        CommandKind::Replconf => {
            reveal_strlit("REPLCONF");
            lemma_lowered_name("REPLCONF"@);
        },
        CommandKind::Psync => {
            reveal_strlit("PSYNC");
            lemma_lowered_name("PSYNC"@);
        },
    }
}

/// Law: a request reaches a command by its name, in capitals or not, and by no
/// other word.
#[verifier::spinoff_prover]
#[verifier::rlimit(60)]
pub proof fn law_commands_go_by_name(b: Seq<u8>, kind: CommandKind)
    ensures
        kind::kind_of(b) == Some(kind) <==> model::is_word(b, kind.name()),
{
    lemma_word_is_lowered(b, "INFO"@);
    lemma_lowered_names(CommandKind::Info);
    lemma_word_is_lowered(b, "PING"@);
    lemma_lowered_names(CommandKind::Ping);
    lemma_word_is_lowered(b, "ECHO"@);
    lemma_lowered_names(CommandKind::Echo);
    lemma_word_is_lowered(b, "SET"@);
    lemma_lowered_names(CommandKind::SetKey);
    lemma_word_is_lowered(b, "GET"@);
    lemma_lowered_names(CommandKind::Get);
    lemma_word_is_lowered(b, "RPUSH"@);
    lemma_lowered_names(CommandKind::Rpush);
    lemma_word_is_lowered(b, "LPUSH"@);
    lemma_lowered_names(CommandKind::Lpush);
    lemma_word_is_lowered(b, "LRANGE"@);
    lemma_lowered_names(CommandKind::Lrange);
    lemma_word_is_lowered(b, "LLEN"@);
    lemma_lowered_names(CommandKind::Llen);
    lemma_word_is_lowered(b, "LPOP"@);
    lemma_lowered_names(CommandKind::Lpop);
    lemma_word_is_lowered(b, "BLPOP"@);
    lemma_lowered_names(CommandKind::Blpop);
    lemma_word_is_lowered(b, "TYPE"@);
    lemma_lowered_names(CommandKind::Type);
    lemma_word_is_lowered(b, "XADD"@);
    lemma_lowered_names(CommandKind::Xadd);
    lemma_word_is_lowered(b, "XRANGE"@);
    lemma_lowered_names(CommandKind::Xrange);
    lemma_word_is_lowered(b, "XREAD"@);
    lemma_lowered_names(CommandKind::Xread);
    lemma_word_is_lowered(b, "INCR"@);
    lemma_lowered_names(CommandKind::Incr);
    lemma_word_is_lowered(b, "MULTI"@);
    lemma_lowered_names(CommandKind::Multi);
    lemma_word_is_lowered(b, "EXEC"@);
    lemma_lowered_names(CommandKind::Exec);
    lemma_word_is_lowered(b, "DISCARD"@);
    lemma_lowered_names(CommandKind::Discard);
    lemma_word_is_lowered(b, "WATCH"@);
    lemma_lowered_names(CommandKind::Watch);
    lemma_word_is_lowered(b, "UNWATCH"@);
    lemma_lowered_names(CommandKind::Unwatch);
    lemma_word_is_lowered(b, "REPLCONF"@);
    lemma_lowered_names(CommandKind::Replconf);
    lemma_word_is_lowered(b, "PSYNC"@);
    lemma_lowered_names(CommandKind::Psync);
}

} // verus!
