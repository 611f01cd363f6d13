//! Commands on lists.
use codecrafters_redis::client::ClientId;
use codecrafters_redis::command::list::{blpop, llen, lpop, lrange, push, Side};
use codecrafters_redis::command::CommandError;
use codecrafters_redis::db::Db;
use codecrafters_redis::resp::{Reply, RespBody};
use codecrafters_redis::time::Duration;
use std::time::{SystemTime, UNIX_EPOCH};

fn db() -> Db {
    let realtime = SystemTime::now().duration_since(UNIX_EPOCH).unwrap();
    Db::create(Duration::from_nanos(realtime.as_nanos()))
}

fn body(reply: Reply) -> RespBody {
    let Reply::Now(resp, _) = reply else {
        panic!("expected an immediate reply");
    };
    resp
}

#[test]
fn rpush_appends_and_reports_length() {
    let mut db = db();
    let resp = body(push(&mut db, &Side::Back, b"mylist".as_ref(), &[b"a".to_vec()]).unwrap());
    assert!(matches!(resp, RespBody::Integer(1)));
}

#[test]
fn lpush_prepends() {
    let mut db = db();
    push(&mut db, &Side::Back, b"mylist".as_ref(), &[b"b".to_vec()]).unwrap();
    push(&mut db, &Side::Front, b"mylist".as_ref(), &[b"a".to_vec()]).unwrap();

    let resp =
        body(lrange(&mut db, b"mylist".as_ref(), b"0".as_ref(), b"-1".as_ref()).unwrap());
    let RespBody::Array(Some(items)) = resp else {
        panic!("expected an array");
    };
    assert!(matches!(&items[0], RespBody::Bulk(Some(v)) if v == b"a"));
    assert!(matches!(&items[1], RespBody::Bulk(Some(v)) if v == b"b"));
}

#[test]
fn lrange_rejects_malformed_number() {
    let result = lrange(
        &mut db(),
        b"mylist".as_ref(),
        b"nope".as_ref(),
        b"-1".as_ref(),
    );
    assert!(matches!(result, Err(CommandError::WrongNumber(_))));
}

#[test]
fn llen_on_missing_key_is_zero() {
    let resp = body(llen(&mut db(), b"absent".as_ref()).unwrap());
    assert!(matches!(resp, RespBody::Integer(0)));
}

#[test]
fn lpop_default_count_returns_bulk() {
    let mut db = db();
    push(
        &mut db,
        &Side::Back,
        b"mylist".as_ref(),
        &[b"a".to_vec(), b"b".to_vec()],
    )
    .unwrap();

    let resp = body(lpop(&mut db, b"mylist".as_ref(), None).unwrap());
    assert!(matches!(resp, RespBody::Bulk(Some(v)) if v == b"a"));
}

#[test]
fn lpop_explicit_count_returns_array() {
    let mut db = db();
    push(
        &mut db,
        &Side::Back,
        b"mylist".as_ref(),
        &[b"a".to_vec(), b"b".to_vec()],
    )
    .unwrap();

    let resp = body(lpop(&mut db, b"mylist".as_ref(), Some(b"2".as_ref())).unwrap());
    let RespBody::Array(Some(items)) = resp else {
        panic!("expected an array");
    };
    assert_eq!(items.len(), 2);
}

#[test]
fn blpop_returns_now_when_list_has_items() {
    let mut db = db();
    push(&mut db, &Side::Back, b"mylist".as_ref(), &[b"a".to_vec()]).unwrap();

    let reply = blpop(&mut db, b"mylist".as_ref(), None, ClientId::new(1)).unwrap();
    assert!(matches!(reply, Reply::Now(_, _)));
}

#[test]
fn blpop_blocks_when_list_is_empty() {
    let mut db = db();
    let reply = blpop(&mut db, b"mylist".as_ref(), None, ClientId::new(1)).unwrap();
    assert!(matches!(reply, Reply::Blocked));
}
