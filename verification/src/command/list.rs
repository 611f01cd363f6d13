//! Commands on lists.
use vstd::prelude::*;
use crate::client::ClientId;
use crate::command::common;
use crate::command::common::{get_ttl, CommandError, ErrorView, ExpCmd, HandleCmdResult};
use crate::command::model;
use crate::db::object;
use crate::db::reply;
use crate::db::{Db, Key, Value};
use crate::resp;
use crate::resp::{Reply, RespBody};
use crate::text;
use crate::time::Duration;

verus! {

/// The end of a list.
#[derive(Clone, Copy, Debug, PartialEq, Eq, Structural)]
pub enum Side {
    Front,
    Back,
}

/// Copies of the arguments, as values.
fn values_from(elems: &[Vec<u8>]) -> (r: Vec<Value>)
    ensures
        object::values_view(r@) == text::arg_views(elems@),
{
    let mut out: Vec<Value> = Vec::new();
    let mut i: usize = 0;
    while i < elems.len()
        invariant
            i <= elems@.len(),
            out@.len() == i,
            forall|j: int| 0 <= j < i ==> (#[trigger] out@[j])@ == elems@[j]@,
        decreases elems@.len() - i,
    {
        out.push(Value::from(elems[i].as_slice()));
        i += 1;
    }
    assert(object::values_view(out@) =~= text::arg_views(elems@));
    out
}

pub fn push(db: &mut Db, side: &Side, key: &[u8], elems: &[Vec<u8>]) -> (r: HandleCmdResult)
    requires
        old(db).wf(),
    ensures
        final(db).wf(),
        (final(db)@, common::result_view(r)) == model::push(
            old(db)@,
            *side,
            key@,
            text::arg_views(elems@),
        ),
{
    let key: Key = Key::from(key);
    let elems: Vec<Value> = values_from(elems);
    let out: i64 = match side {
        Side::Front => db.list_prepend(key, elems)?,
        Side::Back => db.list_append(key, elems)?,
    };
    Ok(Reply::write(RespBody::Integer(out)))
}

/// Reads an index.
fn index(b: &[u8]) -> (r: Result<i32, CommandError>)
    ensures
        match r {
            Ok(n) => model::index(b@) == Ok::<int, ErrorView>(n as int),
            Err(e) => model::index(b@) == Err::<int, ErrorView>(e@),
        },
{
    match text::parse_signed(b, i32::MIN as i64, i32::MAX as i64) {
        Some(n) => Ok(n as i32),
        None => Err(CommandError::WrongNumber(text::show(b))),
    }
}

pub fn lrange(db: &mut Db, key: &[u8], num_from: &[u8], num_to: &[u8]) -> (r: HandleCmdResult)
    requires
        old(db).wf(),
    ensures
        final(db).wf(),
        (final(db)@, common::result_view(r)) == model::lrange(
            old(db)@,
            key@,
            num_from@,
            num_to@,
        ),
{
    let from: i32 = index(num_from)?;
    let to: i32 = index(num_to)?;
    let key: Key = Key::from(key);
    let items = db.list_get(&key, from, to)?;
    let mut out: Vec<Vec<u8>> = Vec::new();
    let mut i: usize = 0;
    while i < items.len()
        invariant
            i <= items@.len(),
            out@.len() == i,
            forall|j: int| 0 <= j < i ==> (#[trigger] out@[j])@ == items@[j]@,
        decreases items@.len() - i,
    {
        out.push(Vec::<u8>::from(items[i]));
        i += 1;
    }
    assert(text::arg_views(out@) =~= crate::db::values_of(items@));
    Ok(Reply::readonly(resp::bulk_request(out)))
}

pub fn llen(db: &mut Db, key: &[u8]) -> (r: HandleCmdResult)
    requires
        old(db).wf(),
    ensures
        final(db).wf(),
        (final(db)@, common::result_view(r)) == model::llen(old(db)@, key@),
{
    let out: i64 = db.list_len(Key::from(key))?;
    Ok(Reply::readonly(RespBody::Integer(out)))
}

/// How long BLPOP waits.
fn patience(timeout: Option<&[u8]>) -> (r: Result<Option<Duration>, CommandError>)
    ensures
        match r {
            Ok(t) => model::patience(common::opt_view(timeout)) == Ok::<_, ErrorView>(t),
            Err(e) => model::patience(common::opt_view(timeout)) == Err::<Option<Duration>, _>(e@),
        },
{
    match get_ttl(&ExpCmd::Ex, timeout)? {
        Some(t) => if t.as_nanos() == 0 {
            Ok(None)
        } else {
            Ok(Some(t))
        },
        None => Ok(None),
    }
}

/// Takes the first element, or has the client wait for one.
pub fn blpop(db: &mut Db, key: &[u8], timeout: Option<&[u8]>, client_id: ClientId) -> (r:
    HandleCmdResult)
    requires
        old(db).wf(),
    ensures
        final(db).wf(),
        (final(db)@, common::result_view(r)) == model::blpop(
            old(db)@,
            key@,
            common::opt_view(timeout),
            client_id,
            true,
        ),
{
    let timeout: Option<Duration> = patience(timeout)?;
    let key: Key = Key::from(key);
    match db.blpop(key.clone(), timeout, client_id)? {
        Some(item) => Ok(Reply::write(reply::element_reply(&key, item))),
        None => Ok(Reply::Blocked),
    }
}

/// Takes the first element, or answers that there is none.
pub fn blpop_now(db: &mut Db, key: &[u8], timeout: Option<&[u8]>, client_id: ClientId) -> (r:
    HandleCmdResult)
    requires
        old(db).wf(),
    ensures
        final(db).wf(),
        (final(db)@, common::result_view(r)) == model::blpop(
            old(db)@,
            key@,
            common::opt_view(timeout),
            client_id,
            false,
        ),
{
    let _ = patience(timeout)?;
    let key: Key = Key::from(key);
    match db.list_take(&key)? {
        Some(item) => Ok(Reply::write(reply::element_reply(&key, item))),
        None => Ok(Reply::readonly(RespBody::Array(None))),
    }
}

/// How many elements LPOP takes.
fn pop_count(num: Option<&[u8]>) -> (r: Result<usize, CommandError>)
    ensures
        match r {
            Ok(n) => model::pop_count(common::opt_view(num)) == Ok::<nat, ErrorView>(n as nat),
            Err(e) => model::pop_count(common::opt_view(num)) == Err::<nat, ErrorView>(e@),
        },
{
    match num {
        None => Ok(1),
        Some(b) => match text::parse_unsigned(b, usize::MAX as u64) {
            Some(n) => Ok(n as usize),
            None => Err(CommandError::WrongNumber(text::show(b))),
        },
    }
}

pub fn lpop(db: &mut Db, key: &[u8], num: Option<&[u8]>) -> (r: HandleCmdResult)
    requires
        old(db).wf(),
    ensures
        final(db).wf(),
        (final(db)@, common::result_view(r)) == model::lpop(
            old(db)@,
            key@,
            common::opt_view(num),
        ),
{
    let count: usize = pop_count(num)?;
    let key: Key = Key::from(key);
    let popped: Vec<Value> = db.list_pop(&key, count)?;
    let mut items: Vec<Vec<u8>> = Vec::new();
    let mut i: usize = 0;
    while i < popped.len()
        invariant
            i <= popped@.len(),
            items@.len() == i,
            forall|j: int| 0 <= j < i ==> (#[trigger] items@[j])@ == popped@[j]@,
        decreases popped@.len() - i,
    {
        items.push(Vec::<u8>::from(&popped[i]));
        i += 1;
    }
    assert(text::arg_views(items@) =~= object::values_view(popped@));
    let body: RespBody = if items.len() == 1 {
        assert(object::values_view(popped@)[0] == items@[0]@);
        RespBody::Bulk(items.pop())
    } else {
        resp::bulk_request(items)
    };
    Ok(Reply::write(body))
}

} // verus!
