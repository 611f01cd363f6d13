//! Commands on streams.
use vstd::prelude::*;
use crate::client::ClientId;
use crate::command::common;
use crate::command::common::{is_word, BlockMode, CommandError, ErrorView, HandleCmdResult};
use crate::command::model;
use crate::db;
use crate::db::model::PositionView;
use crate::db::object;
use crate::db::reply;
use crate::db::{Db, Key, StreamId, StreamIdSpec, Value};
use crate::resp::{Reply, RespBody};
use crate::text;
use crate::time::Duration;

verus! {

fn bad_xread() -> (r: CommandError)
    ensures
        r@ == model::bad_xread(),
{
    CommandError::ParseStream("Invalid xread args".to_owned())
}

/// Splits a leading `BLOCK <ms>` off, if present. Returns how to wait, and the
/// index of the argument that follows.
fn parse_block_prefix(args: &[Vec<u8>]) -> (r: Result<(BlockMode, usize), CommandError>)
    ensures
        match r {
            Ok((block, at)) => {
                &&& at <= args@.len()
                &&& model::block_prefix(text::arg_views(args@)) == Ok::<_, ErrorView>(
                    (block, text::arg_views(args@).skip(at as int)),
                )
            },
            Err(e) => model::block_prefix(text::arg_views(args@)) == Err::<
                (BlockMode, Seq<Seq<u8>>),
                _,
            >(e@),
        },
{
    if args.len() == 0 {
        return Err(bad_xread());
    }
    let ghost views = text::arg_views(args@);
    assert(views[0] == args@[0]@);
    if !is_word(args[0].as_slice(), "block") {
        assert(views.skip(0) =~= views);
        return Ok((BlockMode::NotBlocking, 0));
    }
    if args.len() < 2 {
        let none: Vec<u8> = Vec::new();
        assert(none@ =~= Seq::empty());
        return Err(CommandError::WrongNumber(text::show(none.as_slice())));
    }
    let ms_bytes = args[1].as_slice();
    match text::parse_unsigned(ms_bytes, u64::MAX) {
        None => Err(CommandError::WrongNumber(text::show(ms_bytes))),
        Some(ms) => if ms == 0 {
            Ok((BlockMode::Forever, 2))
        } else {
            Ok((BlockMode::Timeout(Duration::from_millis(ms)), 2))
        },
    }
}

/// Expects the word STREAMS at index `at`, and as many ids as keys behind it.
/// Returns how many keys there are.
fn expect_streams_keyword(args: &[Vec<u8>], at: usize) -> (r: Result<usize, CommandError>)
    requires
        at <= args@.len(),
    ensures
        match r {
            Ok(half) => {
                let elems = text::arg_views(args@).skip(at + 1);
                &&& at < args@.len()
                &&& model::after_streams(text::arg_views(args@).skip(at as int)) == Ok::<
                    _,
                    ErrorView,
                >(elems)
                &&& elems.len() == 2 * half
            },
            Err(e) => model::after_streams(text::arg_views(args@).skip(at as int)) == Err::<
                Seq<Seq<u8>>,
                _,
            >(e@),
        },
{
    if at >= args.len() || !is_word(args[at].as_slice(), "streams") {
        return Err(bad_xread());
    }
    let count: usize = args.len() - at - 1;
    assert(text::arg_views(args@).skip(at as int).skip(1) =~= text::arg_views(args@).skip(at + 1));
    if count == 0 || count % 2 != 0 {
        return Err(bad_xread());
    }
    Ok(count / 2)
}

/// The first id to read.
fn id_behind(b: &[u8], last: Option<StreamId>) -> (r: Result<StreamId, CommandError>)
    ensures
        match r {
            Ok(id) => model::id_behind(b@, last) == Ok::<StreamId, ErrorView>(id),
            Err(e) => model::id_behind(b@, last) == Err::<StreamId, ErrorView>(e@),
        },
{
    let shown = text::show(b);
    let mut id = StreamId::parse_opt_seq(shown.as_str(), last)?;
    if id.seq() == u64::MAX {
        return Err(CommandError::ParseStream(shown));
    }
    id.incr_seq();
    Ok(id)
}

/// Where to read: the keys from index `at` on, and the ids behind them.
fn positions_of(db: &mut Db, args: &[Vec<u8>], at: usize, half: usize) -> (r: Result<
    Vec<(Key, StreamId)>,
    CommandError,
>)
    requires
        old(db).wf(),
        at + 2 * half == args@.len(),
    ensures
        final(db).wf(),
        ({
            let elems = text::arg_views(args@).skip(at as int);
            let outcome = model::positions(
                old(db)@,
                elems.take(half as int),
                elems.skip(half as int),
            );
            &&& final(db)@ == outcome.0
            &&& match r {
                Ok(found) => outcome.1 == Ok::<_, ErrorView>(db::positions_view(found@)),
                Err(e) => outcome.1 == Err::<Seq<PositionView>, _>(e@),
            }
        }),
{
    let ghost elems = text::arg_views(args@).skip(at as int);
    let ghost keys = elems.take(half as int);
    let ghost ids = elems.skip(half as int);
    let mut found: Vec<(Key, StreamId)> = Vec::new();
    let len: usize = args.len();
    let mut i: usize = 0;
    proof {
        assert(keys.skip(0) =~= keys);
        assert(ids.skip(0) =~= ids);
        assert(db::positions_view(found@) =~= Seq::empty());
        match model::positions(db@, keys, ids).1 {
            Ok(rest) => {
                assert(Seq::<PositionView>::empty() + rest =~= rest);
            },
            Err(_) => {},
        }
    }
    while i < half
        invariant
            i <= half,
            at + 2 * half == args@.len() == len,
            elems == text::arg_views(args@).skip(at as int),
            keys == elems.take(half as int),
            ids == elems.skip(half as int),
            db.wf(),
            model::positions(old(db)@, keys, ids) == (
                model::positions(db@, keys.skip(i as int), ids.skip(i as int)).0,
                joined(
                    db::positions_view(found@),
                    model::positions(db@, keys.skip(i as int), ids.skip(i as int)).1,
                ),
            ),
        decreases half - i,
    {
        let ghost before = db@;
        let ghost sofar = db::positions_view(found@);
        let key: Key = Key::from(args[at + i].as_slice());
        let id_bytes = args[at + half + i].as_slice();
        proof {
            assert(keys.skip(i as int)[0] == key@);
            assert(ids.skip(i as int)[0] == id_bytes@);
            assert(keys.skip(i as int).drop_first() =~= keys.skip(i + 1));
            assert(ids.skip(i as int).drop_first() =~= ids.skip(i + 1));
        }
        let stream = db.stream_or_create(&key)?;
        let last = stream.last_id();
        assert(db@ =~= before.stream_created(key@));
        let id = id_behind(id_bytes, last)?;
        found.push((key, id));
        proof {
            assert(db::positions_view(found@) =~= sofar.push((key@, id)));
            match model::positions(db@, keys.skip(i + 1), ids.skip(i + 1)).1 {
                Ok(rest) => {
                    assert(sofar + (seq![(key@, id)] + rest) =~= sofar.push((key@, id)) + rest);
                },
                Err(_) => {},
            }
        }
        i += 1;
    }
    proof {
        assert(keys.skip(i as int) =~= Seq::empty());
        let sofar = db::positions_view(found@);
        assert(sofar + Seq::empty() =~= sofar);
    }
    Ok(found)
}

/// The places in `found`, and those that follow.
spec fn joined(
    found: Seq<PositionView>,
    rest: Result<Seq<PositionView>, ErrorView>,
) -> Result<Seq<PositionView>, ErrorView> {
    match rest {
        Ok(more) => Ok(found + more),
        Err(e) => Err(e),
    }
}

/// Reads streams behind the given ids, waiting where it is asked to and may.
fn read(db: &mut Db, client_id: ClientId, args: &[Vec<u8>], may_wait: bool) -> (r: HandleCmdResult)
    requires
        old(db).wf(),
    ensures
        final(db).wf(),
        (final(db)@, common::result_view(r)) == model::xread(
            old(db)@,
            client_id,
            text::arg_views(args@),
            may_wait,
        ),
{
    let (block, at) = parse_block_prefix(args)?;
    let half: usize = expect_streams_keyword(args, at)?;
    let positions = positions_of(db, args, at + 1, half)?;
    if let Some(body) = db.xread_snapshot(positions.as_slice())? {
        return Ok(Reply::readonly(body));
    }
    if !may_wait {
        return Ok(Reply::readonly(RespBody::Array(None)));
    }
    match block {
        BlockMode::NotBlocking => Ok(Reply::readonly(RespBody::Array(None))),
        BlockMode::Forever => {
            db.xread_wait(client_id, positions, None);
            Ok(Reply::Blocked)
        },
        BlockMode::Timeout(timeout) => {
            db.xread_wait(client_id, positions, Some(timeout));
            Ok(Reply::Blocked)
        },
    }
}

/// Reads streams behind the given ids, or has the client wait for more.
pub fn xread(db: &mut Db, client_id: ClientId, args: &[Vec<u8>]) -> (r: HandleCmdResult)
    requires
        old(db).wf(),
    ensures
        final(db).wf(),
        (final(db)@, common::result_view(r)) == model::xread(
            old(db)@,
            client_id,
            text::arg_views(args@),
            true,
        ),
{
    read(db, client_id, args, true)
}

/// Reads streams behind the given ids, or answers that there is nothing.
pub fn xread_now(db: &mut Db, client_id: ClientId, args: &[Vec<u8>]) -> (r: HandleCmdResult)
    requires
        old(db).wf(),
    ensures
        final(db).wf(),
        (final(db)@, common::result_view(r)) == model::xread(
            old(db)@,
            client_id,
            text::arg_views(args@),
            false,
        ),
{
    read(db, client_id, args, false)
}

pub fn xrange(db: &mut Db, key: &[u8], start: &[u8], end: &[u8]) -> (r: HandleCmdResult)
    requires
        old(db).wf(),
    ensures
        final(db).wf(),
        (final(db)@, common::result_view(r)) == model::xrange(old(db)@, key@, start@, end@),
{
    let start_text = text::show(start);
    let end_text = text::show(end);
    let first = StreamId::parse_opt_seq(start_text.as_str(), None)?;
    let last = StreamId::parse_opt_seq(end_text.as_str(), None)?;
    if !last.is_valid(&first) {
        let head: String = "Invalid Id range from ".to_owned().concat(first.display().as_str());
        return Err(
            CommandError::ParseStream(head.concat(" to ").concat(last.display().as_str())),
        );
    }
    let key: Key = Key::from(key);
    let entries = db.stream_range(&key, first, last)?;
    Ok(Reply::readonly(reply::entries_reply(&entries)))
}

pub fn xadd(db: &mut Db, key: &[u8], id: &[u8], elems: &[Vec<u8>]) -> (r: HandleCmdResult)
    requires
        old(db).wf(),
    ensures
        final(db).wf(),
        (final(db)@, common::result_view(r)) == model::xadd(
            old(db)@,
            key@,
            id@,
            text::arg_views(elems@),
        ),
{
    let key: Key = Key::from(key);
    let id_text = text::show(id);
    let id_spec = StreamIdSpec::parse(id_text.as_str())?;
    if elems.len() % 2 != 0 {
        return Err(
            CommandError::WrongArity(
                "xadd".to_owned(),
                "key id field value [field value....]".to_owned(),
            ),
        );
    }
    let ghost views = text::arg_views(elems@);
    let len: usize = elems.len();
    let n: usize = len / 2;
    let mut fields: Vec<(Key, Value)> = Vec::new();
    let mut i: usize = 0;
    while i < n
        invariant
            i <= n,
            2 * n == elems@.len() == len,
            fields@.len() == i,
            forall|j: int|
                0 <= j < i ==> (#[trigger] fields@[j]).0@ == elems@[2 * j]@ && fields@[j].1@
                    == elems@[2 * j + 1]@,
        decreases n - i,
    {
        fields.push(
            (Key::from(elems[2 * i].as_slice()), Value::from(elems[2 * i + 1].as_slice())),
        );
        i += 1;
    }
    assert(object::fields_view(fields@) =~= model::pairs(views));
    let added = db.stream_add(&key, id_spec, fields)?;
    Ok(Reply::write(RespBody::from(added)))
}

} // verus!
