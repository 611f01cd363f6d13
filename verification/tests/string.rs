//! Commands on strings.
use codecrafters_redis::command::string;
use codecrafters_redis::command::string::{cmd_type, get, incr};
use codecrafters_redis::command::CommandError;
use codecrafters_redis::db::Db;
use codecrafters_redis::resp::{Reply, RespBody};
use codecrafters_redis::time::Duration;
use std::time::{SystemTime, UNIX_EPOCH};

fn db() -> Db {
    let realtime = SystemTime::now().duration_since(UNIX_EPOCH).unwrap();
    Db::create(Duration::from_nanos(realtime.as_nanos()))
}

fn body(reply: Reply) -> RespBody {
    let Reply::Now(resp, _) = reply else {
        panic!("expected an immediate reply");
    };
    resp
}

#[test]
fn get_on_missing_key_is_null_bulk() {
    let mut db = db();
    let resp = body(get(&mut db, b"absent".as_ref()).unwrap());
    assert!(matches!(resp, RespBody::Bulk(None)));
}

#[test]
fn set_then_get_roundtrips() {
    let mut db = db();
    string::set(&mut db, b"greeting".as_ref(), b"hello".as_ref(), None, None).unwrap();

    let resp = body(get(&mut db, b"greeting".as_ref()).unwrap());
    assert!(matches!(resp, RespBody::Bulk(Some(v)) if v == b"hello"));
}

#[test]
fn set_with_ex_expires_the_key() {
    let mut db = db();
    string::set(
        &mut db,
        b"greeting".as_ref(),
        b"hello".as_ref(),
        Some(b"EX".as_ref()),
        Some(b"1".as_ref()),
    )
    .unwrap();

    let later = db.realtime_ms().saturating_add(Duration::from_secs(2));
    db.update_time(later);

    let resp = body(get(&mut db, b"greeting".as_ref()).unwrap());
    assert!(matches!(resp, RespBody::Bulk(None)));
}

#[test]
fn type_reports_none_string_and_list() {
    let mut db = db();
    assert!(
        matches!(cmd_type(&mut db, b"absent".as_ref()), Reply::Now(RespBody::Simple(s), _) if s == "none")
    );

    string::set(&mut db, b"str".as_ref(), b"hello".as_ref(), None, None).unwrap();
    assert!(
        matches!(cmd_type(&mut db, b"str".as_ref()), Reply::Now(RespBody::Simple(s), _) if s == "string")
    );

    db.list_append(b"list".to_vec().into(), vec![b"a".to_vec().into()])
        .unwrap();
    assert!(
        matches!(cmd_type(&mut db, b"list".as_ref()), Reply::Now(RespBody::Simple(s), _) if s == "list")
    );
}

#[test]
fn incr_on_missing_key_starts_at_one() {
    let mut db = db();
    let resp = body(incr(&mut db, b"counter".as_ref()).unwrap());
    assert!(matches!(resp, RespBody::Integer(1)));
}

#[test]
fn incr_on_numeric_key_increments() {
    let mut db = db();
    string::set(&mut db, b"counter".as_ref(), b"41".as_ref(), None, None).unwrap();

    let resp = body(incr(&mut db, b"counter".as_ref()).unwrap());
    assert!(matches!(resp, RespBody::Integer(42)));
}

#[test]
fn incr_on_non_numeric_key_is_not_an_integer() {
    let mut db = db();
    string::set(&mut db, b"foo".as_ref(), b"xyz".as_ref(), None, None).unwrap();

    assert!(matches!(
        incr(&mut db, b"foo".as_ref()),
        Err(CommandError::NotAnInteger)
    ));
}
