//! The keyspace.
use codecrafters_redis::client::ClientId;
use codecrafters_redis::command::common::CommandError;
use codecrafters_redis::db::{Db, HandleWaitersResult, Key, StreamId, StreamIdSpec};
use codecrafters_redis::resp::RespBody;
use codecrafters_redis::time::Duration;
use std::time::{SystemTime, UNIX_EPOCH};

fn db() -> Db {
    let realtime = SystemTime::now().duration_since(UNIX_EPOCH).unwrap();
    Db::create(Duration::from_nanos(realtime.as_nanos()))
}

#[test]
fn popping_an_emptied_list_again_does_not_panic() {
    let mut db = db();
    let key: Key = b"mylist".to_vec().into();
    db.list_append(key.clone(), vec![b"a".to_vec().into()])
        .unwrap();
    assert_eq!(db.list_pop(&key, 1).unwrap().len(), 1);
    // key stays in keyspace as an empty list — popping again must not underflow.
    assert_eq!(db.list_pop(&key, 1).unwrap().len(), 0);
}

#[test]
fn setex_roundtrips_through_as_string() {
    let mut db = db();
    let key: Key = b"greeting".to_vec().into();
    db.setex(key.clone(), b"hello".to_vec().into(), None);

    let got = db.as_string(&key).unwrap().unwrap();
    assert_eq!(Vec::<u8>::from(got), b"hello".to_vec());
}

#[test]
fn as_string_on_missing_key_is_ok_none() {
    let mut db = db();
    let key: Key = b"absent".to_vec().into();
    assert!(db.as_string(&key).unwrap().is_none());
}

#[test]
fn as_string_on_list_key_is_wrong_type() {
    let mut db = db();
    let key: Key = b"mylist".to_vec().into();
    db.list_append(key.clone(), vec![b"a".to_vec().into()])
        .unwrap();
    assert!(matches!(
        db.as_string(&key),
        Err(CommandError::WrongType(_))
    ));
}

#[test]
fn expired_key_reads_as_absent() {
    let mut db = db();
    let key: Key = b"greeting".to_vec().into();
    let now = db.realtime_ms();
    db.setex(key.clone(), b"hello".to_vec().into(), Some(now));

    db.update_time(now.saturating_add(Duration::from_millis(1)));

    assert!(db.as_string(&key).unwrap().is_none());
}

#[test]
fn list_append_and_prepend_order_elements() {
    let mut db = db();
    let key: Key = b"mylist".to_vec().into();
    db.list_append(key.clone(), vec![b"b".to_vec().into()])
        .unwrap();
    db.list_prepend(key.clone(), vec![b"a".to_vec().into()])
        .unwrap();

    let items = db.list_get(&key, 0, -1).unwrap();
    let items: Vec<Vec<u8>> = items.into_iter().map(Into::into).collect();
    assert_eq!(items, vec![b"a".to_vec(), b"b".to_vec()]);
}

#[test]
fn list_get_out_of_range_indices_yield_empty() {
    let mut db = db();
    let key: Key = b"mylist".to_vec().into();
    db.list_append(key.clone(), vec![b"a".to_vec().into()])
        .unwrap();

    assert!(db.list_get(&key, 10, 20).unwrap().is_empty());
}

#[test]
fn blpop_returns_immediately_when_list_has_items() {
    let mut db = db();
    let key: Key = b"mylist".to_vec().into();
    db.list_append(key.clone(), vec![b"a".to_vec().into()])
        .unwrap();

    let got = db.blpop(key, None, ClientId::new(1)).unwrap().unwrap();
    assert_eq!(Vec::<u8>::from(got), b"a".to_vec());
}

#[test]
fn stream_add_rejects_id_of_zero_zero() {
    let mut db = db();
    let key: Key = b"mystream".to_vec().into();
    assert!(matches!(
        db.stream_add(&key, StreamIdSpec::Explicit(StreamId::zero()), vec![]),
        Err(CommandError::InvalidStreamZero)
    ));
}

#[test]
fn stream_add_rejects_id_not_greater_than_top_item() {
    let mut db = db();
    let key: Key = b"mystream".to_vec().into();
    db.stream_add(&key, StreamIdSpec::Explicit(StreamId::new(1, 1)), vec![])
        .unwrap();

    assert!(matches!(
        db.stream_add(&key, StreamIdSpec::Explicit(StreamId::new(1, 1)), vec![]),
        Err(CommandError::InvalidStream)
    ));
    assert!(matches!(
        db.stream_add(&key, StreamIdSpec::Explicit(StreamId::new(0, 3)), vec![]),
        Err(CommandError::InvalidStream)
    ));
}

#[test]
fn stream_add_auto_seq_increments_within_same_ms() {
    let mut db = db();
    let key: Key = b"mystream".to_vec().into();

    let first = db
        .stream_add(&key, StreamIdSpec::AutoSeq(5), vec![])
        .unwrap();
    assert_eq!(String::from(first), "5-0");

    let second = db
        .stream_add(&key, StreamIdSpec::AutoSeq(5), vec![])
        .unwrap();
    assert_eq!(String::from(second), "5-1");
}

#[test]
fn stream_add_auto_seq_defaults_to_one_when_ms_is_zero() {
    let mut db = db();
    let key: Key = b"mystream".to_vec().into();

    let first = db
        .stream_add(&key, StreamIdSpec::AutoSeq(0), vec![])
        .unwrap();
    assert_eq!(String::from(first), "0-1");
}

#[test]
fn stream_add_auto_generates_id_from_current_time() {
    let mut db = db();
    let key: Key = b"mystream".to_vec().into();
    let now_ms = db.realtime_ms().as_millis() as u64;

    let first = db.stream_add(&key, StreamIdSpec::Auto, vec![]).unwrap();
    assert_eq!(String::from(first), format!("{now_ms}-0"));

    let second = db.stream_add(&key, StreamIdSpec::Auto, vec![]).unwrap();
    assert_eq!(String::from(second), format!("{now_ms}-1"));
}

#[test]
fn blpop_registers_a_waiter_when_list_is_empty() {
    let mut db = db();
    let key: Key = b"mylist".to_vec().into();

    assert!(
        db.blpop(key.clone(), None, ClientId::new(1))
            .unwrap()
            .is_none()
    );

    // a later push now delivers straight to the waiting client via the outbox.
    db.list_append(key.clone(), vec![b"a".to_vec().into()])
        .unwrap();
    let HandleWaitersResult {
        replies: mut delivered,
        deadline: _deadline,
    } = db.handle_list_waiters();
    let resp = delivered.remove(&ClientId::new(1)).unwrap();
    let RespBody::Array(Some(items)) = resp else {
        panic!("expected an array reply");
    };
    assert_eq!(items.len(), 2);
}
