//! The small command set.
use codecrafters_redis::command::CommandError;
use codecrafters_redis::db::Db;
use codecrafters_redis::dispatch::dispatch;
use codecrafters_redis::time::Duration;

fn db() -> Db {
    Db::create(Duration::from_millis(1000))
}

fn run(db: &mut Db, words: &[&str]) -> Result<String, CommandError> {
    let args: Vec<Vec<u8>> = words.iter().map(|w| w.as_bytes().to_vec()).collect();
    let mut out = b">".to_vec();
    let r = dispatch(db, &args, &mut out);
    let text = String::from_utf8(out).unwrap();
    match r {
        Ok(()) => Ok(text),
        Err(e) => {
            assert_eq!(text, ">");
            Err(e)
        }
    }
}

#[test]
fn the_set_answers() {
    let mut db = db();
    assert_eq!(run(&mut db, &["ping"]).unwrap(), ">+PONG\r\n");
    assert_eq!(run(&mut db, &["ECHO", "a", "b"]).unwrap(), ">$3\r\na b\r\n");
    assert_eq!(run(&mut db, &["ECHO"]).unwrap(), ">$0\r\n\r\n");
    assert_eq!(run(&mut db, &["SET", "k", "v"]).unwrap(), ">+OK\r\n");
    assert_eq!(run(&mut db, &["GET", "k"]).unwrap(), ">$1\r\nv\r\n");
    assert_eq!(run(&mut db, &["GET", "j"]).unwrap(), ">$-1\r\n");
    assert_eq!(run(&mut db, &["RPUSH", "l", "x"]).unwrap(), ">:1\r\n");
    assert_eq!(run(&mut db, &["RPUSH", "l", "y"]).unwrap(), ">:2\r\n");
}

#[test]
fn values_expire_in_whole_units() {
    let mut db = db();
    run(&mut db, &["SET", "k", "v", "px", "100"]).unwrap();
    run(&mut db, &["SET", "j", "v", "EX", "1"]).unwrap();
    db.update_time(Duration::from_millis(1100));
    assert_eq!(run(&mut db, &["GET", "k"]).unwrap(), ">$-1\r\n");
    assert_eq!(run(&mut db, &["GET", "j"]).unwrap(), ">$1\r\nv\r\n");
    db.update_time(Duration::from_millis(2000));
    assert_eq!(run(&mut db, &["GET", "j"]).unwrap(), ">$-1\r\n");
}

#[test]
fn what_the_set_refuses() {
    let mut db = db();
    assert!(matches!(run(&mut db, &[]), Err(CommandError::Unknown(s)) if s.is_empty()));
    assert!(matches!(run(&mut db, &["LPOP", "l"]), Err(CommandError::Unknown(s)) if s == "LPOP"));
    assert!(matches!(
        run(&mut db, &["RPUSH", "l", "x", "y"]),
        Err(CommandError::WrongArity(name, argc)) if name == "RPUSH" && argc == "4"
    ));
    assert!(matches!(
        run(&mut db, &["SET", "k", "v", "EX"]),
        Err(CommandError::WrongArity(name, argc)) if name == "SET" && argc == "4"
    ));
    assert!(matches!(
        run(&mut db, &["SET", "k", "v", "YX", "1"]),
        Err(CommandError::Unknown(s)) if s == "YX"
    ));
    for bad in ["1.5", "-1", "18446744073709551615"] {
        assert!(matches!(
            run(&mut db, &["SET", "k", "v", "EX", bad]),
            Err(CommandError::WrongNumber(s)) if s == bad
        ));
    }
    run(&mut db, &["RPUSH", "l", "x"]).unwrap();
    assert!(matches!(run(&mut db, &["GET", "l"]), Err(CommandError::WrongType(s)) if s == "string"));
    run(&mut db, &["SET", "k", "v"]).unwrap();
    assert!(matches!(run(&mut db, &["RPUSH", "k", "x"]), Err(CommandError::WrongType(s)) if s == "list"));
}
