//! Commands on strings.
use vstd::prelude::*;
use crate::command::common;
use crate::command::common::{parse_ttl, HandleCmdResult};
use crate::command::model;
use crate::db::{Db, Key, Value};
use crate::resp::{Reply, RespBody};
use crate::time::Duration;

verus! {

pub fn get(db: &mut Db, key: &[u8]) -> (r: HandleCmdResult)
    requires
        old(db).wf(),
    ensures
        final(db).wf(),
        (final(db)@, common::result_view(r)) == model::get(old(db)@, key@),
{
    let key: Key = Key::from(key);
    let value: Option<Vec<u8>> = match db.as_string(&key)? {
        Some(value) => Some(Vec::<u8>::from(value)),
        None => None,
    };
    Ok(Reply::readonly(RespBody::Bulk(value)))
}

pub fn set(
    db: &mut Db,
    key: &[u8],
    value: &[u8],
    exp_cmd: Option<&[u8]>,
    exp: Option<&[u8]>,
) -> (r: HandleCmdResult)
    requires
        old(db).wf(),
    ensures
        final(db).wf(),
        (final(db)@, common::result_view(r)) == model::set(
            old(db)@,
            key@,
            value@,
            common::opt_view(exp_cmd),
            common::opt_view(exp),
        ),
{
    let expiry: Option<Duration> = match parse_ttl(exp_cmd, exp)? {
        Some(ttl) => Some(db.realtime_ms().saturating_add(ttl)),
        None => None,
    };
    db.setex(Key::from(key), Value::from(value), expiry);
    Ok(Reply::write(RespBody::new_ok()))
}

pub fn cmd_type(db: &mut Db, key: &[u8]) -> (r: Reply)
    requires
        old(db).wf(),
    ensures
        final(db).wf(),
        (final(db)@, common::result_view(Ok(r))) == model::kind_of_key(old(db)@, key@),
{
    let key: Key = Key::from(key);
    let kind = db.key_type(&key);
    Reply::readonly(RespBody::Simple(kind.to_owned()))
}

pub fn incr(db: &mut Db, key: &[u8]) -> (r: HandleCmdResult)
    requires
        old(db).wf(),
    ensures
        final(db).wf(),
        (final(db)@, common::result_view(r)) == model::incr(old(db)@, key@),
{
    let n: i64 = db.incr(Key::from(key))?;
    Ok(Reply::write(RespBody::Integer(n)))
}

} // verus!
