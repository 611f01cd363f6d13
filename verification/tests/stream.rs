//! Commands on streams, and the ids of their entries.
use codecrafters_redis::client::ClientId;
use codecrafters_redis::command::stream::{xadd, xrange, xread, xread_now};
use codecrafters_redis::command::CommandError;
use codecrafters_redis::db::{Db, Key, StreamId, StreamIdSpec};
use codecrafters_redis::resp::{Propagate, Reply, RespBody};
use codecrafters_redis::time::Duration;

fn db() -> Db {
    Db::create(Duration::from_millis(1_700_000_000_000))
}

fn words(words: &[&str]) -> Vec<Vec<u8>> {
    words.iter().map(|w| w.as_bytes().to_vec()).collect()
}

fn wire(reply: Reply) -> String {
    let Reply::Now(body, _) = reply else {
        panic!("expected an immediate reply");
    };
    let mut out = Vec::new();
    body.encode(&mut out);
    String::from_utf8(out).unwrap()
}

fn add(db: &mut Db, key: &str, id: &str, fields: &[&str]) -> Result<Reply, CommandError> {
    xadd(db, key.as_bytes(), id.as_bytes(), &words(fields))
}

#[test]
fn xadd_then_xrange_reads_the_entry_back() {
    let mut db = db();
    let reply = add(&mut db, "s", "1-1", &["a", "1", "b", "2"]).unwrap();
    assert!(matches!(&reply, Reply::Now(_, Propagate::Replicate)));
    assert_eq!(wire(reply), "$3\r\n1-1\r\n");
    add(&mut db, "s", "2-0", &["c", "3"]).unwrap();
    let all = xrange(&mut db, b"s", b"-", b"+").unwrap();
    assert!(matches!(&all, Reply::Now(_, Propagate::Skip)));
    assert_eq!(
        wire(all),
        "*2\r\n*2\r\n$3\r\n1-1\r\n*4\r\n$1\r\na\r\n$1\r\n1\r\n$1\r\nb\r\n$1\r\n2\r\n*2\r\n$3\r\n2-0\r\n*2\r\n$1\r\nc\r\n$1\r\n3\r\n"
    );
    let one = xrange(&mut db, b"s", b"1-2", b"2-0").unwrap();
    assert_eq!(
        wire(one),
        "*1\r\n*2\r\n$3\r\n2-0\r\n*2\r\n$1\r\nc\r\n$1\r\n3\r\n"
    );
    let none = xrange(&mut db, b"absent", b"0-0", b"+").unwrap();
    assert_eq!(wire(none), "*0\r\n");
}

#[test]
fn xadd_refuses_what_it_cannot_add() {
    let mut db = db();
    assert!(matches!(
        add(&mut db, "s", "nonsense", &["a", "1"]),
        Err(CommandError::ParseStream(s)) if s == "nonsense"
    ));
    assert!(matches!(
        add(&mut db, "s", "x-1", &["a", "1"]),
        Err(CommandError::ParseStream(s)) if s == "x"
    ));
    assert!(matches!(
        add(&mut db, "s", "1-1", &["a"]),
        Err(CommandError::WrongArity(name, _)) if name == "xadd"
    ));
    assert!(matches!(
        add(&mut db, "s", "0-0", &["a", "1"]),
        Err(CommandError::InvalidStreamZero)
    ));
    db.setex(
        b"str".to_vec().into(),
        b"v".to_vec().into(),
        None,
    );
    assert!(matches!(
        add(&mut db, "str", "1-1", &["a", "1"]),
        Err(CommandError::WrongType(s)) if s == "stream"
    ));
}

#[test]
fn automatic_ids_follow_the_clock() {
    let mut db = db();
    assert_eq!(
        wire(add(&mut db, "s", "*", &["a", "1"]).unwrap()),
        "$15\r\n1700000000000-0\r\n"
    );
    assert_eq!(
        wire(add(&mut db, "s", "*", &["a", "1"]).unwrap()),
        "$15\r\n1700000000000-1\r\n"
    );
    assert_eq!(
        wire(add(&mut db, "t", "0-*", &["a", "1"]).unwrap()),
        "$3\r\n0-1\r\n"
    );
    assert_eq!(
        wire(add(&mut db, "t", "7-*", &["a", "1"]).unwrap()),
        "$3\r\n7-0\r\n"
    );
}

#[test]
fn a_millisecond_whose_sequence_numbers_are_used_up_has_no_next_id() {
    let mut db = db();
    let key: Key = b"s".to_vec().into();
    db.stream_add(
        &key,
        StreamIdSpec::Explicit(StreamId::new(5, u64::MAX)),
        vec![],
    )
    .unwrap();
    assert!(matches!(
        db.stream_add(&key, StreamIdSpec::AutoSeq(5), vec![]),
        Err(CommandError::InvalidStream)
    ));
}

#[test]
fn ids_in_a_stream_increase() {
    let mut db = db();
    for id in ["1-1", "1-2", "2-0", "2-*", "*"] {
        add(&mut db, "s", id, &["a", "1"]).unwrap();
    }
    let key: Key = b"s".to_vec().into();
    let entries = db
        .stream_range(&key, StreamId::zero(), StreamId::max())
        .unwrap();
    let ids: Vec<(u64, u64)> = entries.iter().map(|(id, _)| (id.ms(), id.seq())).collect();
    assert_eq!(
        ids,
        vec![(1, 1), (1, 2), (2, 0), (2, 1), (1_700_000_000_000, 0)]
    );
}

#[test]
fn xrange_refuses_bounds_out_of_order() {
    let mut db = db();
    for (start, end) in [("5-0", "1-0"), ("3-3", "3-3")] {
        assert!(matches!(
            xrange(&mut db, b"s", start.as_bytes(), end.as_bytes()),
            Err(CommandError::ParseStream(s)) if s == format!("Invalid Id range from {start} to {end}")
        ));
    }
    assert!(matches!(
        xrange(&mut db, b"s", b"7", b"+"),
        Err(CommandError::ParseStream(_))
    ));
    assert!(xrange(&mut db, b"s", b"70", b"+").is_ok());
}

#[test]
fn xread_reads_behind_the_given_id() {
    let mut db = db();
    add(&mut db, "s", "1-1", &["a", "1"]).unwrap();
    add(&mut db, "s", "1-2", &["b", "2"]).unwrap();
    let id = ClientId::new(7);
    let reply = xread(&mut db, id, &words(&["streams", "s", "t", "1-1", "0-0"])).unwrap();
    assert_eq!(
        wire(reply),
        "*1\r\n*2\r\n$1\r\ns\r\n*1\r\n*2\r\n$3\r\n1-2\r\n*2\r\n$1\r\nb\r\n$1\r\n2\r\n"
    );
    let reply = xread(&mut db, id, &words(&["STREAMS", "s", "$"])).unwrap();
    assert_eq!(wire(reply), "*-1\r\n");
}

#[test]
fn xread_refuses_malformed_requests() {
    let mut db = db();
    let id = ClientId::new(7);
    for args in [
        vec!["streams", "s"],
        vec!["streams"],
        vec!["keys", "s", "0-0"],
        vec!["block", "10"],
    ] {
        assert!(matches!(
            xread(&mut db, id, &words(&args)),
            Err(CommandError::ParseStream(s)) if s == "Invalid xread args"
        ));
    }
    assert!(matches!(
        xread(&mut db, id, &words(&["block", "soon", "streams", "s", "$"])),
        Err(CommandError::WrongNumber(s)) if s == "soon"
    ));
    assert!(matches!(
        xread(&mut db, id, &words(&["block"])),
        Err(CommandError::WrongNumber(s)) if s.is_empty()
    ));
    // There is no id behind the last of all.
    assert!(matches!(
        xread(&mut db, id, &words(&["streams", "s", "+"])),
        Err(CommandError::ParseStream(s)) if s == "+"
    ));
}

#[test]
fn a_blocked_reader_gets_the_next_entry() {
    let mut db = db();
    let id = ClientId::new(7);
    let reply = xread(&mut db, id, &words(&["block", "0", "streams", "s", "$"])).unwrap();
    assert!(matches!(reply, Reply::Blocked));
    let round = db.handle_stream_waiters();
    assert_eq!(round.replies.len(), 0);
    assert_eq!(round.deadline, None);

    add(&mut db, "s", "3-0", &["a", "1"]).unwrap();
    let mut round = db.handle_stream_waiters();
    let body = round.replies.remove(&id).unwrap();
    assert_eq!(
        wire(Reply::readonly(body)),
        "*1\r\n*2\r\n$1\r\ns\r\n*1\r\n*2\r\n$3\r\n3-0\r\n*2\r\n$1\r\na\r\n$1\r\n1\r\n"
    );
    assert_eq!(db.handle_stream_waiters().replies.len(), 0);
}

#[test]
fn a_blocked_reader_gives_up_in_time() {
    let mut db = db();
    let id = ClientId::new(7);
    xread(&mut db, id, &words(&["BLOCK", "100", "streams", "s", "$"])).unwrap();
    let start = db.realtime_ms();
    db.update_time(start.saturating_add(Duration::from_millis(40)));
    let round = db.handle_stream_waiters();
    assert_eq!(round.replies.len(), 0);
    assert_eq!(round.deadline, Some(Duration::from_millis(60)));
    db.update_time(start.saturating_add(Duration::from_millis(100)));
    let mut round = db.handle_stream_waiters();
    assert!(matches!(
        round.replies.remove(&id),
        Some(RespBody::Array(None))
    ));
    assert_eq!(round.deadline, None);
}

#[test]
fn xread_now_never_blocks() {
    let mut db = db();
    let reply = xread_now(
        &mut db,
        ClientId::new(7),
        &words(&["block", "0", "streams", "s", "$"]),
    )
    .unwrap();
    assert_eq!(wire(reply), "*-1\r\n");
    assert_eq!(db.handle_stream_waiters().replies.len(), 0);
}

#[test]
fn ids_are_read_as_they_are_shown() {
    for id in [
        StreamId::new(0, 0),
        StreamId::new(12, 345),
        StreamId::max(),
    ] {
        let text = id.display();
        assert_eq!(StreamId::parse_opt_seq(&text, None).unwrap(), id);
        assert_eq!(
            StreamIdSpec::parse(&text).unwrap(),
            StreamIdSpec::Explicit(id)
        );
    }
    assert_eq!(
        StreamId::parse_opt_seq("$", Some(StreamId::new(4, 2))).unwrap(),
        StreamId::new(4, 2)
    );
    assert_eq!(StreamId::parse_opt_seq("$", None).unwrap(), StreamId::zero());
    assert_eq!(
        StreamId::parse_opt_seq("15", None).unwrap(),
        StreamId::new(15, 0)
    );
    assert!(StreamId::new(1, 2).is_valid(&StreamId::new(1, 1)));
    assert!(!StreamId::new(1, 1).is_valid(&StreamId::new(1, 1)));
}
