//! What holds of the database as a whole, on chosen values.
use codecrafters_redis::client::{ClientId, ClientMode, PeerRole};
use codecrafters_redis::command::common::exec;
use codecrafters_redis::command::{ClientInfo, Command, CommandError};
use codecrafters_redis::db::{Db, Key, StreamId, StreamIdSpec, Value};
use codecrafters_redis::networking::{ServerInfo, ServerRole};
use codecrafters_redis::resp::{bulk_request, parse_resp, Reply, RespBody};
use codecrafters_redis::text;
use codecrafters_redis::time::{nearest, Duration};

fn at(ms: u64) -> Duration {
    Duration::from_millis(ms)
}

fn db() -> Db {
    Db::create(at(1000))
}

fn key(name: &str) -> Key {
    Key::from(name.as_bytes())
}

fn value(text: &str) -> Value {
    Value::from(text.as_bytes())
}

fn values(texts: &[&str]) -> Vec<Value> {
    texts.iter().map(|t| value(t)).collect()
}

fn list(db: &mut Db, name: &str) -> Vec<Vec<u8>> {
    db.list_get(&key(name), 0, -1)
        .unwrap()
        .into_iter()
        .map(Vec::<u8>::from)
        .collect()
}

fn info() -> ServerInfo {
    ServerInfo::new(
        ServerRole::Master,
        0,
        "id".into(),
        0,
        false,
        None,
        ".".into(),
        "dump.rdb".into(),
    )
}

/// Runs one request, and gives its reply and what goes on to the replicas, each
/// as it stands on the wire.
fn run(db: &mut Db, words: &[&str]) -> Result<(String, Option<String>), CommandError> {
    let server = info();
    let client = ClientInfo::new(
        ClientId::new(1),
        ClientMode::Normal,
        PeerRole::Normal,
        &server,
        true,
    );
    let frame = bulk_request(words.iter().map(|w| w.as_bytes().to_vec()).collect());
    let (reply, forward) = Command::new(frame, client)?.execute(db)?;
    let Reply::Now(body, _) = reply else {
        panic!("expected an immediate reply");
    };
    Ok((wire(&body), forward.map(|body| wire(&body))))
}

fn wire(body: &RespBody) -> String {
    let mut out = Vec::new();
    body.encode(&mut out);
    String::from_utf8(out).unwrap()
}

#[test]
fn a_value_is_read_until_it_expires() {
    let mut db = db();
    run(&mut db, &["SET", "k", "v", "PX", "50"]).unwrap();
    db.update_time(at(1049));
    assert_eq!(run(&mut db, &["GET", "k"]).unwrap().0, "$1\r\nv\r\n");
    db.update_time(at(1050));
    assert_eq!(run(&mut db, &["GET", "k"]).unwrap().0, "$-1\r\n");
    assert_eq!(run(&mut db, &["TYPE", "k"]).unwrap().0, "+none\r\n");
}

#[test]
fn a_plain_set_keeps_the_expiry_of_the_key() {
    let mut db = db();
    run(&mut db, &["SET", "k", "v", "PX", "50"]).unwrap();
    run(&mut db, &["SET", "k", "w"]).unwrap();
    assert_eq!(run(&mut db, &["GET", "k"]).unwrap().0, "$1\r\nw\r\n");
    db.update_time(at(1050));
    assert_eq!(run(&mut db, &["GET", "k"]).unwrap().0, "$-1\r\n");
}

#[test]
fn a_unit_without_a_number_means_nothing() {
    let mut db = db();
    run(&mut db, &["SET", "k", "v", "EX"]).unwrap();
    db.update_time(at(1_000_000));
    assert_eq!(run(&mut db, &["GET", "k"]).unwrap().0, "$1\r\nv\r\n");
    assert!(matches!(
        run(&mut db, &["SET", "k", "v", "KEEPTTL", "1"]),
        Err(CommandError::Unknown(s)) if s == "KEEPTTL"
    ));
    assert!(matches!(
        run(&mut db, &["SET", "k", "v", "EX", "soon"]),
        Err(CommandError::WrongNumber(s)) if s == "soon"
    ));
}

#[test]
fn incr_counts_and_knows_its_bounds() {
    let mut db = db();
    assert_eq!(run(&mut db, &["INCR", "n"]).unwrap().0, ":1\r\n");
    assert_eq!(run(&mut db, &["INCR", "n"]).unwrap().0, ":2\r\n");
    run(&mut db, &["SET", "n", "-1"]).unwrap();
    assert_eq!(run(&mut db, &["INCR", "n"]).unwrap().0, ":0\r\n");
    run(&mut db, &["SET", "n", "9223372036854775807"]).unwrap();
    assert!(matches!(
        run(&mut db, &["INCR", "n"]),
        Err(CommandError::NotAnInteger)
    ));
    assert_eq!(
        run(&mut db, &["GET", "n"]).unwrap().0,
        "$19\r\n9223372036854775807\r\n"
    );
}

#[test]
fn pushes_order_their_elements() {
    let mut db = db();
    assert_eq!(run(&mut db, &["RPUSH", "l", "c", "d"]).unwrap().0, ":2\r\n");
    assert_eq!(run(&mut db, &["LPUSH", "l", "b", "a"]).unwrap().0, ":4\r\n");
    assert_eq!(
        run(&mut db, &["LRANGE", "l", "0", "-1"]).unwrap().0,
        "*4\r\n$1\r\na\r\n$1\r\nb\r\n$1\r\nc\r\n$1\r\nd\r\n"
    );
    assert_eq!(
        run(&mut db, &["LRANGE", "l", "-3", "-2"]).unwrap().0,
        "*2\r\n$1\r\nb\r\n$1\r\nc\r\n"
    );
    assert_eq!(
        run(&mut db, &["LRANGE", "l", "-100", "0"]).unwrap().0,
        "*1\r\n$1\r\na\r\n"
    );
    assert_eq!(run(&mut db, &["LRANGE", "l", "2", "1"]).unwrap().0, "*0\r\n");
    assert_eq!(
        run(&mut db, &["LRANGE", "l", "-2147483648", "2147483647"])
            .unwrap()
            .0,
        run(&mut db, &["LRANGE", "l", "0", "9"]).unwrap().0
    );
    assert!(matches!(
        run(&mut db, &["LRANGE", "l", "0", "2147483648"]),
        Err(CommandError::WrongNumber(_))
    ));
}

#[test]
fn pops_take_the_front_and_leave_the_rest() {
    let mut db = db();
    db.list_append(key("l"), values(&["a", "b", "c"])).unwrap();
    assert_eq!(
        run(&mut db, &["LPOP", "l", "2"]).unwrap().0,
        "*2\r\n$1\r\na\r\n$1\r\nb\r\n"
    );
    assert_eq!(list(&mut db, "l"), vec![b"c".to_vec()]);
    assert_eq!(run(&mut db, &["LPOP", "l", "9"]).unwrap().0, "$1\r\nc\r\n");
    assert_eq!(run(&mut db, &["LPOP", "l"]).unwrap().0, "*0\r\n");
    assert!(matches!(
        run(&mut db, &["LPOP", "l", "-1"]),
        Err(CommandError::WrongNumber(s)) if s == "-1"
    ));
}

#[test]
fn waiters_are_served_in_the_order_in_which_they_came() {
    let mut db = db();
    for id in [3, 1, 2] {
        db.blpop(key("l"), None, ClientId::new(id)).unwrap();
    }
    db.list_append(key("l"), values(&["x", "y"])).unwrap();
    let mut round = db.handle_list_waiters();
    assert_eq!(
        wire(&round.replies.remove(&ClientId::new(3)).unwrap()),
        "*2\r\n$1\r\nl\r\n$1\r\nx\r\n"
    );
    assert_eq!(
        wire(&round.replies.remove(&ClientId::new(1)).unwrap()),
        "*2\r\n$1\r\nl\r\n$1\r\ny\r\n"
    );
    assert!(round.replies.remove(&ClientId::new(2)).is_none());
    assert!(list(&mut db, "l").is_empty());

    db.list_append(key("l"), values(&["z", "rest"])).unwrap();
    let mut round = db.handle_list_waiters();
    assert_eq!(
        wire(&round.replies.remove(&ClientId::new(2)).unwrap()),
        "*2\r\n$1\r\nl\r\n$1\r\nz\r\n"
    );
    assert_eq!(list(&mut db, "l"), vec![b"rest".to_vec()]);
}

#[test]
fn waiters_give_up_in_time() {
    let mut db = db();
    db.blpop(key("l"), Some(at(30)), ClientId::new(1)).unwrap();
    db.blpop(key("m"), Some(at(20)), ClientId::new(2)).unwrap();
    db.blpop(key("m"), None, ClientId::new(3)).unwrap();
    let round = db.handle_list_waiters();
    assert_eq!(round.replies.len(), 0);
    assert_eq!(round.deadline, Some(at(20)));

    db.update_time(at(1020));
    let mut round = db.handle_list_waiters();
    assert!(matches!(
        round.replies.remove(&ClientId::new(2)),
        Some(RespBody::Array(None))
    ));
    assert_eq!(round.replies.len(), 0);
    assert_eq!(round.deadline, Some(at(10)));

    // Who has given up gets nothing that comes later.
    db.list_append(key("m"), values(&["x"])).unwrap();
    let mut round = db.handle_list_waiters();
    assert!(round.replies.remove(&ClientId::new(2)).is_none());
    assert!(round.replies.remove(&ClientId::new(3)).is_some());
}

#[test]
fn blpop_waits_forever_on_zero() {
    let mut db = db();
    let server = info();
    let client = ClientInfo::new(
        ClientId::new(9),
        ClientMode::Normal,
        PeerRole::Normal,
        &server,
        true,
    );
    let frame = bulk_request(vec![b"BLPOP".to_vec(), b"l".to_vec(), b"0".to_vec()]);
    let (reply, forward) = Command::new(frame, client).unwrap().execute(&mut db).unwrap();
    assert!(matches!(reply, Reply::Blocked));
    assert!(forward.is_none());
    assert_eq!(db.handle_list_waiters().deadline, None);
}

#[test]
fn watchers_see_every_kind_of_write() {
    let writes: [fn(&mut Db); 7] = [
        |db| db.setex(key("k"), value("v"), None),
        |db| {
            db.list_append(key("k"), values(&["v"])).unwrap();
        },
        |db| {
            db.list_prepend(key("k"), values(&["v"])).unwrap();
        },
        |db| {
            db.list_pop(&key("k"), 1).unwrap();
        },
        |db| {
            db.incr(key("k")).unwrap();
        },
        |db| {
            db.list_take(&key("k")).unwrap();
        },
        |db| db.remove(&key("k")),
    ];
    for write in writes {
        let mut db = db();
        db.add_watchers(vec![key("k"), key("j")], ClientId::new(1));
        db.add_watchers(vec![key("j")], ClientId::new(2));
        assert!(!db.is_dirty(ClientId::new(1)));
        write(&mut db);
        assert!(db.is_dirty(ClientId::new(1)));
        assert!(!db.is_dirty(ClientId::new(2)));
        // To watch more takes nothing back.
        db.add_watchers(vec![key("i")], ClientId::new(1));
        assert!(db.is_dirty(ClientId::new(1)));
        db.remove_watcher(ClientId::new(1));
        assert!(!db.is_dirty(ClientId::new(1)));
    }
}

#[test]
fn expiry_is_seen_by_watchers() {
    let mut db = db();
    db.setex(key("k"), value("v"), Some(at(1010)));
    db.add_watchers(vec![key("k")], ClientId::new(1));
    db.update_time(at(1010));
    assert!(!db.is_dirty(ClientId::new(1)));
    assert!(db.as_string(&key("k")).unwrap().is_none());
    assert!(db.is_dirty(ClientId::new(1)));
}

#[test]
fn a_sweep_removes_expired_keys_and_no_others() {
    let mut db = db();
    for n in 0..10 {
        db.setex(key(&format!("old{n}")), value("v"), Some(at(1001)));
    }
    db.setex(key("young"), value("v"), Some(at(5000)));
    db.setex(key("plain"), value("v"), None);
    db.update_time(at(2000));
    assert_eq!(db.active_sweep(4), 4);
    assert_eq!(db.active_sweep(4), 4);
    assert_eq!(db.active_sweep(4), 2);
    assert_eq!(db.active_sweep(4), 0);
    assert!(db.as_string(&key("young")).unwrap().is_some());
    assert!(db.as_string(&key("plain")).unwrap().is_some());
}

#[test]
fn writes_go_on_as_they_came() {
    let mut db = db();
    assert_eq!(
        run(&mut db, &["Set", "k", "v"]).unwrap().1.unwrap(),
        "*3\r\n$3\r\nSet\r\n$1\r\nk\r\n$1\r\nv\r\n"
    );
    for words in [
        vec!["RPUSH", "l", "a", "b", "c"],
        vec!["LPUSH", "l", "a"],
        vec!["LPOP", "l"],
        vec!["BLPOP", "l", "0"],
        vec!["INCR", "n"],
        vec!["XADD", "s", "*", "a", "1"],
    ] {
        assert!(run(&mut db, &words).unwrap().1.is_some());
    }
    for words in [
        vec!["GET", "k"],
        vec!["LLEN", "l"],
        vec!["LRANGE", "l", "0", "-1"],
        vec!["TYPE", "k"],
        vec!["XRANGE", "s", "-", "+"],
        vec!["XREAD", "STREAMS", "s", "0-0"],
        vec!["PING"],
        vec!["ECHO", "x"],
        vec!["INFO"],
        vec!["WATCH", "k"],
        vec!["UNWATCH"],
        vec!["REPLCONF", "capa", "psync2"],
        vec!["PSYNC", "?", "-1"],
    ] {
        assert!(run(&mut db, &words).unwrap().1.is_none());
    }
}

#[test]
fn commands_answer_as_they_do() {
    let mut db = db();
    assert_eq!(run(&mut db, &["ping"]).unwrap().0, "+PONG\r\n");
    assert_eq!(
        run(&mut db, &["PSYNC", "?", "-1"]).unwrap().0,
        "+FULLRESYNC <REPL_ID> 0\r\n"
    );
    assert_eq!(
        run(&mut db, &["REPLCONF", "capa", "psync2"]).unwrap().0,
        "+OK\r\n"
    );
    assert_eq!(run(&mut db, &["XADD", "s", "1-1", "a", "1"]).unwrap().0, "$3\r\n1-1\r\n");
    assert_eq!(run(&mut db, &["TYPE", "s"]).unwrap().0, "+stream\r\n");
    assert!(matches!(run(&mut db, &["EXEC"]), Err(CommandError::ExecTransaction)));
    assert!(matches!(
        run(&mut db, &["DISCARD"]),
        Err(CommandError::DiscardTransaction)
    ));
    assert!(matches!(
        run(&mut db, &["XADD", "s", "1-1", "a", "1", "b", "2"]),
        Err(CommandError::WrongArity(name, argc)) if name == "XADD" && argc == "7"
    ));
    assert!(matches!(
        run(&mut db, &["\u{e9}"]),
        Err(CommandError::Unknown(s)) if s == "\u{e9}"
    ));
}

#[test]
fn exec_outside_of_a_transaction_is_refused() {
    let mut db = db();
    assert!(matches!(
        exec(&mut db, ClientMode::Normal),
        Err(CommandError::ExecTransaction)
    ));
    assert!(matches!(
        exec(&mut db, ClientMode::Transaction),
        Ok(Reply::Now(RespBody::Array(None), _))
    ));
}

#[test]
fn requests_are_read_as_they_were_sent() {
    let words = vec![b"SET".to_vec(), b"a key".to_vec(), b"\r\n\0\xff".to_vec(), Vec::new()];
    let mut out = Vec::new();
    bulk_request(words.clone()).encode(&mut out);
    let length = out.len();
    out.extend_from_slice(b"*1\r\n$4\r\nPI");
    let frame = parse_resp(&out).unwrap();
    assert_eq!(frame.consumed(), length);
    assert_eq!(frame.body().into_args().unwrap(), words);
}

#[test]
fn every_value_has_its_wire_form() {
    assert_eq!(wire(&RespBody::Integer(-7)), ":-7\r\n");
    assert_eq!(wire(&RespBody::Array(Some(vec![]))), "*0\r\n");
    assert_eq!(wire(&RespBody::Rdb(b"REDIS".to_vec())), "$5\r\nREDIS");
    assert_eq!(wire(&RespBody::new_queued()), "+QUEUED\r\n");
    assert_eq!(
        wire(&RespBody::Array(Some(vec![
            RespBody::Array(None),
            RespBody::Bulk(Some(Vec::new())),
        ]))),
        "*2\r\n*-1\r\n$0\r\n\r\n"
    );
}

#[test]
fn every_error_has_its_text() {
    let texts = [
        (CommandError::Unknown("x".into()), "unknown command 'x'"),
        (
            CommandError::WrongArity("GET".into(), "1".into()),
            "wrong number of arguments for 'GET', expected: '1'",
        ),
        (
            CommandError::WrongNumber("x".into()),
            "wrong argument format: expected number. actual 'x'",
        ),
        (
            CommandError::ParseStream("x".into()),
            "wrong argument format, could not parse stream: expected stream. actual 'x'",
        ),
        (
            CommandError::InvalidStream,
            "The ID specified in XADD is equal or smaller than the target stream top item",
        ),
        (
            CommandError::InvalidStreamZero,
            "The ID specified in XADD must be greater than 0-0",
        ),
        (
            CommandError::WrongType("list".into()),
            "key already exist with different type, expected: 'list'",
        ),
        (
            CommandError::NotAnInteger,
            "value is not an integer or out of range",
        ),
        (CommandError::ExecTransaction, "EXEC without MULTI"),
        (CommandError::DiscardTransaction, "DISCARD without MULTI"),
    ];
    for (error, text) in texts {
        assert_eq!(error.message(), text);
    }
}

#[test]
fn numbers_are_read_as_they_are_written() {
    for n in [0, 1, -1, 42, i64::MAX, i64::MIN] {
        assert_eq!(Value::from_int(n).parse_int().unwrap(), n);
        assert_eq!(text::signed_string(n), n.to_string());
    }
    for n in [0, 9, 10, u64::MAX] {
        assert_eq!(text::decimal_string(n), n.to_string());
        assert_eq!(
            text::parse_unsigned(n.to_string().as_bytes(), u64::MAX),
            Some(n)
        );
    }
    assert_eq!(text::parse_unsigned(b"18446744073709551616", u64::MAX), None);
    assert_eq!(text::parse_unsigned(b"+5", 9), Some(5));
    assert_eq!(text::parse_unsigned(b"10", 9), None);
    assert_eq!(text::parse_signed(b"-9223372036854775809", i64::MIN, i64::MAX), None);
    for bad in ["", "-", "+", "1.5", " 1", "x"] {
        assert!(matches!(
            value(bad).parse_int(),
            Err(CommandError::NotAnInteger)
        ));
    }
}

#[test]
fn keys_show_what_is_no_text() {
    assert_eq!(key("k").display(), "k");
    assert_eq!(Key::from(b"a\xffb".as_ref()).display(), "a\u{fffd}b");
    assert_eq!(Value::from(b"\xc3\xa9".as_ref()).display(), "\u{e9}");
}

#[test]
fn an_absent_deadline_hides_no_present_one() {
    assert_eq!(nearest(None, None), None);
    assert_eq!(nearest(Some(at(2)), None), Some(at(2)));
    assert_eq!(nearest(None, Some(at(3))), Some(at(3)));
    assert_eq!(nearest(Some(at(4)), Some(at(3))), Some(at(3)));
    assert_eq!(at(1).saturating_sub(at(2)), at(0));
    assert_eq!(
        Duration::from_nanos(u128::MAX).saturating_add(at(1)),
        Duration::from_nanos(u128::MAX)
    );
}

#[test]
fn commands_go_by_name() {
    let mut db = db();
    for name in ["PING", "ping", "pInG"] {
        assert_eq!(run(&mut db, &[name]).unwrap().0, "+PONG\r\n");
    }
    for name in ["PIN", "PINGG", "P\u{131}NG", ""] {
        assert!(matches!(
            run(&mut db, &[name]),
            Err(CommandError::Unknown(s)) if s == name
        ));
    }
}

#[test]
fn echo_repeats_one_word() {
    let mut db = db();
    assert_eq!(run(&mut db, &["ECHO", "a"]).unwrap().0, "$1\r\na\r\n");
    for (words, given) in [(vec!["echo"], "1"), (vec!["ECHO", "a", "b"], "3")] {
        assert!(matches!(
            run(&mut db, &words),
            Err(CommandError::WrongArity(name, argc)) if name == "ECHO" && argc == given
        ));
    }
}

#[test]
fn a_round_leaves_no_element_beside_a_waiter() {
    let mut db = db();
    for (name, id) in [("l", 1), ("m", 2), ("l", 3), ("m", 4)] {
        db.blpop(key(name), None, ClientId::new(id)).unwrap();
    }
    db.blpop(key("l"), Some(at(5)), ClientId::new(5)).unwrap();
    db.list_append(key("l"), values(&["a"])).unwrap();
    db.list_append(key("m"), values(&["b", "c", "d"])).unwrap();
    db.update_time(at(1005));
    let mut round = db.handle_list_waiters();
    let mut told = |id: usize| {
        round
            .replies
            .remove(&ClientId::new(id))
            .map(|body| wire(&body))
    };
    assert_eq!(told(1).unwrap(), "*2\r\n$1\r\nl\r\n$1\r\na\r\n");
    assert_eq!(told(2).unwrap(), "*2\r\n$1\r\nm\r\n$1\r\nb\r\n");
    assert_eq!(told(3), None);
    assert_eq!(told(4).unwrap(), "*2\r\n$1\r\nm\r\n$1\r\nc\r\n");
    assert_eq!(told(5).unwrap(), "*-1\r\n");
    assert!(list(&mut db, "l").is_empty());
    assert_eq!(list(&mut db, "m"), vec![b"d".to_vec()]);
    assert_eq!(db.handle_list_waiters().replies.len(), 0);
}

#[test]
fn a_round_goes_by_the_streams_before_it() {
    let mut db = db();
    let behind = |name: &str| vec![(key(name), StreamId::new(1, 1))];
    db.xread_wait(ClientId::new(1), behind("s"), None);
    db.xread_wait(ClientId::new(2), behind("t"), Some(at(10)));
    db.xread_wait(ClientId::new(3), behind("s"), Some(at(20)));
    db.xread_wait(ClientId::new(4), behind("t"), Some(at(30)));
    db.stream_add(
        &key("s"),
        StreamIdSpec::Explicit(StreamId::new(2, 0)),
        vec![],
    )
    .unwrap();
    db.update_time(at(1010));
    let mut round = db.handle_stream_waiters();
    assert_eq!(round.deadline, Some(at(20)));
    let read = "*1\r\n*2\r\n$1\r\ns\r\n*1\r\n*2\r\n$3\r\n2-0\r\n*0\r\n";
    for (id, text) in [(1, read), (2, "*-1\r\n"), (3, read)] {
        let body = round.replies.remove(&ClientId::new(id)).unwrap();
        assert_eq!(wire(&body), text);
    }
    assert_eq!(round.replies.len(), 0);
    let round = db.handle_stream_waiters();
    assert_eq!(round.replies.len(), 0);
    assert_eq!(round.deadline, Some(at(20)));
}
