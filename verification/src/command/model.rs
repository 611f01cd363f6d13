//! What each command does to the database, and what it answers.
use vstd::prelude::*;
use vstd::utf8::*;
use crate::client::{ClientId, ClientMode};
use crate::command::common::{BlockMode, ErrorView, ExpCmd};
use crate::command::kind;
use crate::command::kind::CommandKind;
use crate::command::list::Side;
use crate::db::model;
use crate::db::model::{DbView, PositionView, StreamWaitView};
use crate::db::object;
use crate::db::object::FieldsView;
use crate::db::stream_id;
use crate::db::stream_id::StreamId;
use crate::double;
use crate::networking::info::InfoView;
use crate::resp;
use crate::resp::{Propagate, ReplyView, RespView};
use crate::text;
use crate::time::Duration;

verus! {

/// The database after a command, and its reply.
pub type Outcome = (DbView, Result<ReplyView, ErrorView>);

pub open spec fn readonly(body: RespView) -> ReplyView {
    ReplyView::Now(body, Propagate::Skip)
}

pub open spec fn write(body: RespView) -> ReplyView {
    ReplyView::Now(body, Propagate::Replicate)
}

pub open spec fn ok_body() -> RespView {
    RespView::Simple("OK"@)
}

/// `b` is the word `name`, in capitals or not.
pub open spec fn is_word(b: Seq<u8>, name: Seq<char>) -> bool {
    text::same_ignoring_case(b, encode_utf8(name))
}

// ---------------------------------------------------------------
// Times
// ---------------------------------------------------------------

/// A time to live: seconds or milliseconds, perhaps with a fraction.
pub open spec fn ttl(cmd: ExpCmd, exp: Option<Seq<u8>>) -> Result<Option<Duration>, ErrorView> {
    match exp {
        None => Ok(None),
        Some(b) => match double::count_text(b, cmd == ExpCmd::Ex) {
            Some(ms) => Ok(Some(Duration::spec_millis(ms))),
            None => Err(ErrorView::WrongNumber(text::shown(b))),
        },
    }
}

pub open spec fn exp_cmd(b: Seq<u8>) -> Option<ExpCmd> {
    if is_word(b, "EX"@) {
        Some(ExpCmd::Ex)
    } else if is_word(b, "PX"@) {
        Some(ExpCmd::Px)
    } else {
        None
    }
}

/// The options of SET. A unit without a number means nothing.
pub open spec fn set_ttl(unit: Option<Seq<u8>>, exp: Option<Seq<u8>>) -> Result<
    Option<Duration>,
    ErrorView,
> {
    match (unit, exp) {
        (Some(unit), Some(exp)) => match exp_cmd(unit) {
            Some(cmd) => ttl(cmd, Some(exp)),
            None => Err(ErrorView::Unknown(text::shown(unit))),
        },
        _ => Ok(None),
    }
}

// ---------------------------------------------------------------
// Strings
// ---------------------------------------------------------------

pub open spec fn get(db: DbView, key: Seq<u8>) -> Outcome {
    let db = db.lapsed(key);
    (
        db,
        match db.string_at(key) {
            Ok(value) => Ok(readonly(RespView::Bulk(value))),
            Err(e) => Err(e),
        },
    )
}

pub open spec fn set(
    db: DbView,
    key: Seq<u8>,
    value: Seq<u8>,
    unit: Option<Seq<u8>>,
    exp: Option<Seq<u8>>,
) -> Outcome {
    match set_ttl(unit, exp) {
        Ok(ttl) => (db.setex(key, value, model::deadline(db.now, ttl)), Ok(write(ok_body()))),
        Err(e) => (db, Err(e)),
    }
}

pub open spec fn kind_of_key(db: DbView, key: Seq<u8>) -> Outcome {
    let db = db.lapsed(key);
    (db, Ok(readonly(RespView::Simple(db.kind_text(key)))))
}

pub open spec fn incr(db: DbView, key: Seq<u8>) -> Outcome {
    (
        db.incr(key),
        match db.lapsed(key).next_int(key) {
            Ok(n) => Ok(write(RespView::Integer(n as i64))),
            Err(e) => Err(e),
        },
    )
}

// ---------------------------------------------------------------
// Lists
// ---------------------------------------------------------------

pub open spec fn push(db: DbView, side: Side, key: Seq<u8>, elems: Seq<Seq<u8>>) -> Outcome {
    (
        match side {
            Side::Front => db.list_prepend(key, elems),
            Side::Back => db.list_append(key, elems),
        },
        match db.list_or_empty(key) {
            Ok(list) => Ok(write(RespView::Integer((list.len() + elems.len()) as i64))),
            Err(e) => Err(e),
        },
    )
}

/// A number of 32 bits.
pub open spec fn index(b: Seq<u8>) -> Result<int, ErrorView> {
    match text::signed_within(b, i32::MIN as int, i32::MAX as int) {
        Some(n) => Ok(n),
        None => Err(ErrorView::WrongNumber(text::shown(b))),
    }
}

pub open spec fn lrange(db: DbView, key: Seq<u8>, from: Seq<u8>, to: Seq<u8>) -> Outcome {
    match (index(from), index(to)) {
        (Err(e), _) => (db, Err(e)),
        (_, Err(e)) => (db, Err(e)),
        (Ok(first), Ok(last)) => {
            let db = db.lapsed(key);
            (
                db,
                match db.list_or_empty(key) {
                    Ok(list) => Ok(
                        readonly(resp::bulk_array(model::list_slice(list, first, last))),
                    ),
                    Err(e) => Err(e),
                },
            )
        },
    }
}

pub open spec fn llen(db: DbView, key: Seq<u8>) -> Outcome {
    let db = db.lapsed(key);
    (
        db,
        match db.list_or_empty(key) {
            Ok(list) => Ok(readonly(RespView::Integer(list.len() as i64))),
            Err(e) => Err(e),
        },
    )
}

/// How long BLPOP waits: forever, where it is told zero or nothing.
pub open spec fn patience(timeout: Option<Seq<u8>>) -> Result<Option<Duration>, ErrorView> {
    match ttl(ExpCmd::Ex, timeout) {
        Ok(Some(t)) => Ok(
            if t.nanos == 0 {
                None
            } else {
                Some(t)
            },
        ),
        other => other,
    }
}

/// BLPOP, which waits for an element only where `may_wait` says so.
pub open spec fn blpop(
    db: DbView,
    key: Seq<u8>,
    timeout: Option<Seq<u8>>,
    client: ClientId,
    may_wait: bool,
) -> Outcome {
    match patience(timeout) {
        Err(e) => (db, Err(e)),
        Ok(timeout) => match db.blpop_item(key) {
            Err(e) => (db.blpop_now(key), Err(e)),
            Ok(Some(item)) => (db.blpop_now(key), Ok(write(model::element_reply(key, item)))),
            Ok(None) => if may_wait {
                (db.blpop(key, timeout, client), Ok(ReplyView::Blocked))
            } else {
                (db.blpop_now(key), Ok(readonly(RespView::Array(None))))
            },
        },
    }
}

/// How many elements LPOP takes.
pub open spec fn pop_count(num: Option<Seq<u8>>) -> Result<nat, ErrorView> {
    match num {
        None => Ok(1),
        Some(b) => match text::unsigned_within(b, usize::MAX as nat) {
            Some(n) => Ok(n),
            None => Err(ErrorView::WrongNumber(text::shown(b))),
        },
    }
}

/// One element stands alone, more stand in an array.
pub open spec fn popped_body(items: Seq<Seq<u8>>) -> RespView {
    if items.len() == 1 {
        RespView::Bulk(Some(items[0]))
    } else {
        resp::bulk_array(items)
    }
}

pub open spec fn lpop(db: DbView, key: Seq<u8>, num: Option<Seq<u8>>) -> Outcome {
    match pop_count(num) {
        Err(e) => (db, Err(e)),
        Ok(count) => (
            db.list_pop(key, count),
            match db.popped(key, count) {
                Ok(items) => Ok(write(popped_body(items))),
                Err(e) => Err(e),
            },
        ),
    }
}

// ---------------------------------------------------------------
// Streams
// ---------------------------------------------------------------

/// The text of an argument, as bytes again.
pub open spec fn text_bytes(b: Seq<u8>) -> Seq<u8> {
    encode_utf8(text::shown(b))
}

/// Names and values in turn, as pairs.
pub open spec fn pairs(elems: Seq<Seq<u8>>) -> FieldsView {
    Seq::new(elems.len() / 2, |i: int| (elems[2 * i], elems[2 * i + 1]))
}

pub open spec fn xadd(db: DbView, key: Seq<u8>, id: Seq<u8>, elems: Seq<Seq<u8>>) -> Outcome {
    match stream_id::requested_id(text_bytes(id)) {
        Err(e) => (db, Err(e)),
        Ok(spec_id) => if elems.len() % 2 != 0 {
            (
                db,
                Err(ErrorView::WrongArity("xadd"@, "key id field value [field value....]"@)),
            )
        } else {
            (
                db.stream_add(key, spec_id, pairs(elems)),
                match db.added_id(key, spec_id) {
                    Ok(id) => Ok(write(RespView::Bulk(Some(stream_id::id_bytes(id))))),
                    Err(e) => Err(e),
                },
            )
        },
    }
}

pub open spec fn id_chars(id: StreamId) -> Seq<char> {
    text::ascii_chars(stream_id::id_bytes(id))
}

pub open spec fn xrange(db: DbView, key: Seq<u8>, start: Seq<u8>, end: Seq<u8>) -> Outcome {
    match (
        stream_id::bound_id(text_bytes(start), None),
        stream_id::bound_id(text_bytes(end), None),
    ) {
        (Err(e), _) => (db, Err(e)),
        (_, Err(e)) => (db, Err(e)),
        (Ok(first), Ok(last)) => if !first.precedes(last) {
            (
                db,
                Err(
                    ErrorView::ParseStream(
                        "Invalid Id range from "@ + id_chars(first) + " to "@ + id_chars(last),
                    ),
                ),
            )
        } else {
            (
                db.lapsed(key),
                match db.stream_range(key, first, last) {
                    Ok(entries) => Ok(readonly(model::entries_reply(entries))),
                    Err(e) => Err(e),
                },
            )
        },
    }
}

pub open spec fn bad_xread() -> ErrorView {
    ErrorView::ParseStream("Invalid xread args"@)
}

/// A `BLOCK <ms>` in front, and what follows it.
pub open spec fn block_prefix(args: Seq<Seq<u8>>) -> Result<
    (BlockMode, Seq<Seq<u8>>),
    ErrorView,
> {
    if args.len() == 0 {
        Err(bad_xread())
    } else if !is_word(args[0], "block"@) {
        Ok((BlockMode::NotBlocking, args))
    } else {
        let ms = if args.len() > 1 {
            args[1]
        } else {
            Seq::empty()
        };
        match text::unsigned_within(ms, u64::MAX as nat) {
            None => Err(ErrorView::WrongNumber(text::shown(ms))),
            Some(n) => Ok(
                (
                    if n == 0 {
                        BlockMode::Forever
                    } else {
                        BlockMode::Timeout(Duration::spec_millis(n as u64))
                    },
                    args.skip(2),
                ),
            ),
        }
    }
}

/// What follows the word STREAMS: as many ids as keys.
pub open spec fn after_streams(args: Seq<Seq<u8>>) -> Result<Seq<Seq<u8>>, ErrorView> {
    if args.len() > 0 && is_word(args[0], "streams"@) && args.len() > 1 && (args.len() - 1) % 2
        == 0 {
        Ok(args.skip(1))
    } else {
        Err(bad_xread())
    }
}

/// The first id to read: the one behind that which was asked for.
pub open spec fn id_behind(b: Seq<u8>, last: Option<StreamId>) -> Result<StreamId, ErrorView> {
    match stream_id::bound_id(text_bytes(b), last) {
        Err(e) => Err(e),
        Ok(id) => if id.seq < u64::MAX {
            Ok(StreamId { ms: id.ms, seq: (id.seq + 1) as u64 })
        } else {
            Err(ErrorView::ParseStream(text::shown(b)))
        },
    }
}

/// Where to read: each key gets a stream where it has nothing, and each id is
/// taken against that stream. The first that cannot be had ends it.
pub open spec fn positions(db: DbView, keys: Seq<Seq<u8>>, ids: Seq<Seq<u8>>) -> (
    DbView,
    Result<Seq<PositionView>, ErrorView>,
)
    decreases keys.len(),
{
    if keys.len() == 0 {
        (db, Ok(Seq::empty()))
    } else {
        let created = db.stream_created(keys[0]);
        match db.stream_or_empty(keys[0]) {
            Err(e) => (created, Err(e)),
            Ok(entries) => match id_behind(ids[0], object::last_entry_id(entries)) {
                Err(e) => (created, Err(e)),
                Ok(id) => {
                    let (after, rest) = positions(created, keys.drop_first(), ids.drop_first());
                    (
                        after,
                        match rest {
                            Err(e) => Err(e),
                            Ok(found) => Ok(seq![(keys[0], id)] + found),
                        },
                    )
                },
            },
        }
    }
}

/// XREAD with its arguments, which waits only where `may_wait` says so.
pub open spec fn xread(
    db: DbView,
    client: ClientId,
    args: Seq<Seq<u8>>,
    may_wait: bool,
) -> Outcome {
    match block_prefix(args) {
        Err(e) => (db, Err(e)),
        Ok((block, rest)) => match after_streams(rest) {
            Err(e) => (db, Err(e)),
            Ok(elems) => {
                let half = elems.len() as int / 2;
                let (db, found) = positions(db, elems.take(half), elems.skip(half));
                match found {
                    Err(e) => (db, Err(e)),
                    Ok(places) => xread_at(db, client, places, block, may_wait),
                }
            },
        },
    }
}

pub open spec fn xread_at(
    db: DbView,
    client: ClientId,
    places: Seq<PositionView>,
    block: BlockMode,
    may_wait: bool,
) -> Outcome {
    let after = model::read_positions(db, places).0;
    match model::snapshot(db, places) {
        Err(e) => (after, Err(e)),
        Ok(Some(body)) => (after, Ok(readonly(body))),
        Ok(None) => if block is NotBlocking || !may_wait {
            (after, Ok(readonly(RespView::Array(None))))
        } else {
            let timeout = match block {
                BlockMode::Timeout(t) => Some(t),
                _ => None,
            };
            (
                after.stream_wait(
                    StreamWaitView {
                        client_id: client,
                        positions: places,
                        deadline: model::deadline(after.now, timeout),
                    },
                ),
                Ok(ReplyView::Blocked),
            )
        },
    }
}

// ---------------------------------------------------------------
// Transactions and the server
// ---------------------------------------------------------------

pub open spec fn watch_keys(db: DbView, client: ClientId, keys: Seq<Seq<u8>>) -> Outcome {
    (db.watching(client, keys), Ok(readonly(ok_body())))
}

pub open spec fn unwatch(db: DbView, client: ClientId) -> Outcome {
    (db.unwatched(client), Ok(readonly(ok_body())))
}

/// EXEC: the queue is dropped where a watched key was touched, and run otherwise.
pub open spec fn execute_transaction(db: DbView, client: ClientId) -> ReplyView {
    if db.is_dirty(client) {
        ReplyView::DiscardTransaction(Some(RespView::Array(None)))
    } else {
        ReplyView::ExecTransaction
    }
}

/// The lines of INFO on replication.
pub open spec fn replication_text(info: InfoView) -> Seq<char> {
    "role:"@ + info.role.text() + "\r\nconnected_slaves:"@ + text::ascii_chars(
        text::decimal(info.connected_slaves as nat),
    ) + "\r\nmaster_replid:"@ + info.master_replid + "\r\nmaster_repl_offset:"@
        + text::ascii_chars(text::signed_decimal(info.master_repl_offset as int))
}

/// INFO, of which there is one section.
pub open spec fn info(section: Option<Seq<u8>>, info: InfoView) -> Result<ReplyView, ErrorView> {
    let known = match section {
        None => true,
        Some(name) => is_word(name, "REPLICATION"@),
    };
    if known {
        Ok(readonly(RespView::Bulk(Some(encode_utf8(replication_text(info))))))
    } else {
        Err(ErrorView::Info(text::shown(section->0)))
    }
}

// ---------------------------------------------------------------
// Requests
// ---------------------------------------------------------------

/// A request: its kind, and its words.
pub open spec fn parsed(frame: RespView) -> Result<(CommandKind, Seq<Seq<u8>>), ErrorView> {
    match resp::request_args(frame) {
        None => Err(ErrorView::Unknown(Seq::empty())),
        Some(args) => if args.len() == 0 {
            Err(ErrorView::Unknown(Seq::empty()))
        } else {
            match kind::kind_for(args.len(), args[0]) {
                Ok(kind) => Ok((kind, args)),
                Err(e) => Err(e),
            }
        },
    }
}

pub open spec fn opt_arg(args: Seq<Seq<u8>>, i: int) -> Option<Seq<u8>> {
    if i < args.len() {
        Some(args[i])
    } else {
        None
    }
}

/// A request outside of a transaction.
pub open spec fn run_normal(
    db: DbView,
    kind: CommandKind,
    args: Seq<Seq<u8>>,
    client: ClientId,
    may_wait: bool,
    server: InfoView,
) -> Outcome {
    match kind {
        CommandKind::Info => (db, info(opt_arg(args, 1), server)),
        CommandKind::Ping => (db, Ok(readonly(RespView::Simple("PONG"@)))),
        CommandKind::Echo => (db, Ok(readonly(RespView::Bulk(Some(args[1]))))),
        CommandKind::Get => get(db, args[1]),
        CommandKind::SetKey => set(db, args[1], args[2], opt_arg(args, 3), opt_arg(args, 4)),
        CommandKind::Lpush => push(db, Side::Front, args[1], args.skip(2)),
        CommandKind::Rpush => push(db, Side::Back, args[1], args.skip(2)),
        CommandKind::Llen => llen(db, args[1]),
        CommandKind::Lpop => lpop(db, args[1], opt_arg(args, 2)),
        CommandKind::Lrange => lrange(db, args[1], args[2], args[3]),
        CommandKind::Blpop => blpop(db, args[1], opt_arg(args, 2), client, may_wait),
        CommandKind::Type => kind_of_key(db, args[1]),
        CommandKind::Xadd => xadd(db, args[1], args[2], args.skip(3)),
        CommandKind::Xrange => xrange(db, args[1], args[2], args[3]),
        CommandKind::Xread => xread(db, client, args.skip(1), may_wait),
        CommandKind::Incr => incr(db, args[1]),
        CommandKind::Multi => (db, Ok(ReplyView::StartTransaction)),
        CommandKind::Exec => (db, Err(ErrorView::ExecTransaction)),
        CommandKind::Discard => (db, Err(ErrorView::DiscardTransaction)),
        CommandKind::Watch => watch_keys(db, client, args.skip(1)),
        CommandKind::Unwatch => unwatch(db, client),
        CommandKind::Replconf => (db, Ok(readonly(ok_body()))),
        CommandKind::Psync => (db, Ok(readonly(RespView::Simple("FULLRESYNC <REPL_ID> 0"@)))),
    }
}

/// A request inside of a transaction, which most only join the queue of.
pub open spec fn run_queueing(
    db: DbView,
    kind: CommandKind,
    args: Seq<Seq<u8>>,
    client: ClientId,
    server: InfoView,
) -> Outcome {
    match kind {
        CommandKind::Info => (db, info(opt_arg(args, 1), server)),
        CommandKind::Exec => (db, Ok(execute_transaction(db, client))),
        CommandKind::Multi => (db, Err(ErrorView::ExecTransaction)),
        CommandKind::Discard => (db, Ok(ReplyView::DiscardTransaction(None))),
        CommandKind::Watch | CommandKind::Unwatch => (db, Err(ErrorView::WatchTransaction)),
        CommandKind::Replconf | CommandKind::Psync => (db, Err(ErrorView::SlaveUnsupported)),
        _ => (db, Ok(ReplyView::AddTransaction(resp::bulk_array(args)))),
    }
}

/// The kinds that join the queue of a transaction.
pub open spec fn is_queued(kind: CommandKind) -> bool {
    !(kind is Info || kind is Exec || kind is Multi || kind is Discard || kind is Watch
        || kind is Unwatch || kind is Replconf || kind is Psync)
}

/// What goes on to the replicas: the request itself, where it wrote.
pub open spec fn forwarded(reply: ReplyView, args: Seq<Seq<u8>>) -> Option<RespView> {
    match reply {
        ReplyView::Now(_, Propagate::Replicate) => Some(resp::bulk_array(args)),
        _ => None,
    }
}

/// The database after a request, its reply, and what goes on to the replicas.
pub type Executed = (DbView, Result<(ReplyView, Option<RespView>), ErrorView>);

pub open spec fn execute(
    db: DbView,
    kind: CommandKind,
    args: Seq<Seq<u8>>,
    client: ClientId,
    mode: ClientMode,
    may_wait: bool,
    server: InfoView,
) -> Executed {
    let (after, r) = match mode {
        ClientMode::Normal => run_normal(db, kind, args, client, may_wait, server),
        ClientMode::Transaction => run_queueing(db, kind, args, client, server),
    };
    (
        after,
        match r {
            Ok(reply) => Ok((reply, forwarded(reply, args))),
            Err(e) => Err(e),
        },
    )
}

/// A request as it arrives.
pub open spec fn request(
    db: DbView,
    frame: RespView,
    client: ClientId,
    mode: ClientMode,
    may_wait: bool,
    server: InfoView,
) -> Executed {
    match parsed(frame) {
        Ok((kind, args)) => execute(db, kind, args, client, mode, may_wait, server),
        Err(e) => (db, Err(e)),
    }
}

} // verus!
