//! The server, with every socket at the other end of two buffers.
use codecrafters_redis::cli::{port_in_range, Cli, CliError};
use codecrafters_redis::client::{
    ClientId, Disposition, FlushStep, PeerRole, ReadEvent, ReadStep, WriteEvent,
};
use codecrafters_redis::networking::handshake::{parse_rdb_header, Handshake, HandshakeError};
use codecrafters_redis::networking::{NetworkingError, Server, ServerRole};
use codecrafters_redis::resp::RespBody;
use codecrafters_redis::time::Duration;

fn at(ms: u64) -> Duration {
    Duration::from_millis(ms)
}

fn cli(replicaof: Option<&str>) -> Cli {
    Cli::new(
        6379,
        replicaof.map(str::to_owned),
        "/tmp".into(),
        "dump.rdb".into(),
    )
}

fn server() -> Server {
    Server::new(&cli(None), at(1000)).unwrap()
}

fn resp(args: &[&str]) -> Vec<u8> {
    let mut buf = format!("*{}\r\n", args.len()).into_bytes();
    for a in args {
        buf.extend_from_slice(format!("${}\r\n{a}\r\n", a.len()).as_bytes());
    }
    buf
}

/// The peer takes everything.
fn flush(server: &mut Server, id: ClientId) -> Vec<u8> {
    let mut out = Vec::new();
    let (mut flush, mut step) = server.client(id).unwrap().start_flush();
    while step == FlushStep::Continue {
        let unsent = server.client(id).unwrap().unsent(&flush).to_vec();
        out.extend_from_slice(&unsent);
        step = server.flush_client(id, &mut flush, WriteEvent::Wrote(unsent.len()));
    }
    assert_eq!(step, FlushStep::Done(Disposition::Keep));
    out
}

fn send(server: &mut Server, id: ClientId, args: &[&str]) -> Vec<u8> {
    let (step, forwards) = server
        .read_client(id, ReadEvent::Data(resp(args)))
        .unwrap();
    assert_eq!(step, ReadStep::Flush);
    let out = flush(server, id);
    let disposition = server
        .client(id)
        .unwrap()
        .after_flush(Disposition::Keep);
    server.service_client(id, disposition, &forwards);
    out
}

fn hang_up(server: &mut Server, id: ClientId) {
    let (step, forwards) = server.read_client(id, ReadEvent::Closed).unwrap();
    assert_eq!(step, ReadStep::Done(Disposition::Drop));
    server.service_client(id, Disposition::Drop, &forwards);
}

#[test]
fn clients_get_ids_of_their_own() {
    let mut server = server();
    let first = server.accept_client().unwrap();
    let second = server.accept_client().unwrap();
    assert_eq!(first.get(), 2);
    assert_eq!(second.get(), 3);
    assert!(server.client(ClientId::new(9)).is_none());
    assert!(server.read_client(ClientId::new(9), ReadEvent::Closed).is_none());
}

#[test]
fn an_id_is_not_given_twice() {
    let mut server = server();
    let first = server.accept_client().unwrap();
    let second = server.accept_client().unwrap();
    hang_up(&mut server, first);
    hang_up(&mut server, second);
    let third = server.accept_client().unwrap();
    assert_eq!(third.get(), 4);
    assert!(server.client(first).is_none());
    assert!(server.client(second).is_none());
    assert!(server.client(third).is_some());
}

#[test]
fn clients_share_one_database() {
    let mut server = server();
    let a = server.accept_client().unwrap();
    let b = server.accept_client().unwrap();
    assert_eq!(send(&mut server, a, &["SET", "k", "v"]), b"+OK\r\n");
    assert_eq!(send(&mut server, b, &["GET", "k"]), b"$1\r\nv\r\n");
}

#[test]
fn a_dropped_client_is_forgotten() {
    let mut server = server();
    let a = server.accept_client().unwrap();
    let b = server.accept_client().unwrap();
    send(&mut server, a, &["WATCH", "k"]);
    hang_up(&mut server, a);
    assert!(server.client(a).is_none());
    assert_eq!(send(&mut server, b, &["PING"]), b"+PONG\r\n");
}

#[test]
fn writes_move_the_offset_once_even_without_replicas() {
    let mut server = server();
    let a = server.accept_client().unwrap();
    let write = resp(&["SET", "k", "v"]);
    send(&mut server, a, &["SET", "k", "v"]);
    send(&mut server, a, &["GET", "k"]);
    assert_eq!(server.info().master_repl_offset(), write.len() as i64);
    assert_eq!(server.info().connected_slaves(), 0);
    assert!(server.slaves().is_empty());
}

#[test]
fn a_blocked_client_is_served_between_events() {
    let mut server = server();
    let a = server.accept_client().unwrap();
    let b = server.accept_client().unwrap();
    assert!(send(&mut server, a, &["BLPOP", "l", "0.5"]).is_empty());
    let (ids, deadline) = server.clients_key_waiters_cron();
    assert!(ids.is_empty());
    assert_eq!(deadline, Some(at(500)));
    send(&mut server, b, &["RPUSH", "l", "x"]);
    let (ids, deadline) = server.clients_key_waiters_cron();
    assert_eq!(ids, vec![a]);
    assert_eq!(deadline, Some(at(500)));
    assert_eq!(flush(&mut server, a), b"*2\r\n$1\r\nl\r\n$1\r\nx\r\n");
    server.key_waiter_flushed(a, Disposition::Keep);
    assert!(server.client(a).is_some());
    server.key_waiter_flushed(a, Disposition::Drop);
    assert!(server.client(a).is_none());
}

#[test]
fn the_nearest_deadline_of_lists_and_streams_counts() {
    let mut server = server();
    let a = server.accept_client().unwrap();
    let b = server.accept_client().unwrap();
    send(&mut server, a, &["BLPOP", "l", "3"]);
    send(&mut server, b, &["XREAD", "BLOCK", "2000", "STREAMS", "s", "$"]);
    assert_eq!(server.clients_key_waiters_cron().1, Some(at(2000)));
    server.set_current_time(at(3500));
    let (ids, deadline) = server.clients_key_waiters_cron();
    assert_eq!(ids, vec![b]);
    assert_eq!(deadline, Some(at(500)));
    assert_eq!(flush(&mut server, b), b"*-1\r\n");
}

#[test]
fn nobody_is_asked_for_offsets_without_need() {
    let mut server = server();
    assert!(!server.get_ack_from_slaves_cron());
    let (ids, deadline) = server.client_ack_waiters_cron();
    assert!(ids.is_empty());
    assert_eq!(deadline, None);
    server.ack_waiter_flushed(ClientId::new(9), Disposition::Drop);
    assert_eq!(server.info().master_repl_offset(), 0);
}

#[test]
fn expired_keys_are_swept_within_the_budget() {
    let mut server = server();
    server.before_sleep();
    let a = server.accept_client().unwrap();
    for n in 0..30 {
        send(&mut server, a, &["SET", &format!("k{n}"), "v", "PX", "10"]);
    }
    server.set_current_time(at(2000));
    assert!(!server.active_expire_cron(25)); // no time left
    assert!(server.active_expire_cron(0)); // twenty of twenty
    assert!(server.active_expire_cron(24)); // ten of twenty
    assert!(!server.active_expire_cron(24)); // none
}

#[test]
fn a_replica_is_told_by_its_settings() {
    let server = Server::new(&cli(Some("localhost 7000")), at(0)).unwrap();
    assert_eq!(server.info().role(), ServerRole::Slave);
    assert_eq!(server.info().replica_of(), Some("localhost:7000"));
    assert_eq!(server.info().dir(), "/tmp");
    assert_eq!(server.info().dbfilename(), "dump.rdb");
    assert_eq!(
        server.info().master_replid(),
        "8371b4fb1155b71f4a04d3e1bc3e18c4a990aeeb"
    );
    let master = Server::new(&cli(Some("localhost")), at(0)).unwrap();
    assert_eq!(master.info().role(), ServerRole::Master);
    assert_eq!(master.info().replica_of(), None);
    assert!(Server::new(&cli(Some("localhost 0")), at(0)).is_err());
}

#[test]
fn the_master_link_applies_writes() {
    let mut server = Server::new(&cli(Some("localhost 7000")), at(0)).unwrap();
    assert!(server.service_master(ReadEvent::NotReady).is_none());
    assert!(!server.write_master(&RespBody::new_ok()));
    server.link_master();
    assert!(server.write_master(&RespBody::new_ok()));
    assert_eq!(server.master().unwrap().peer_role(), PeerRole::Master);
    let (mut flush, step) = server.master().unwrap().start_flush();
    assert_eq!(step, FlushStep::Continue);
    assert_eq!(
        server.flush_master(&mut flush, WriteEvent::Wrote(5)),
        FlushStep::Done(Disposition::Keep)
    );
    assert_eq!(
        server.service_master(ReadEvent::Data(resp(&["SET", "k", "v"]))),
        Some(ReadStep::Flush)
    );
    assert_eq!(
        server.info().master_repl_offset(),
        resp(&["SET", "k", "v"]).len() as i64
    );
    let a = server.accept_client().unwrap();
    assert_eq!(send(&mut server, a, &["GET", "k"]), b"$1\r\nv\r\n");
}

#[test]
fn the_handshake_goes_step_by_step() {
    fn wire(step: Handshake) -> String {
        let mut out = Vec::new();
        step.request(6380).unwrap().encode(&mut out);
        String::from_utf8(out).unwrap()
    }
    let step = Handshake::start();
    assert_eq!(wire(step), "*1\r\n$4\r\nPING\r\n");
    let step = step.on_line("+PONG\r\n").unwrap();
    assert_eq!(
        wire(step),
        "*3\r\n$8\r\nREPLCONF\r\n$14\r\nlistening-port\r\n$4\r\n6380\r\n"
    );
    let step = step.on_line("+OK\r\n").unwrap();
    assert_eq!(
        wire(step),
        "*3\r\n$8\r\nREPLCONF\r\n$4\r\ncapa\r\n$6\r\npsync2\r\n"
    );
    let step = step.on_line("+OK\r\n").unwrap();
    assert_eq!(wire(step), "*3\r\n$5\r\nPSYNC\r\n$1\r\n?\r\n$2\r\n-1\r\n");
    let step = step.on_line("+FULLRESYNC abc 0\r\n").unwrap();
    assert!(step.request(6380).is_none());
    let step = step.on_line("$88\r\n").unwrap();
    assert_eq!(step, Handshake::Rdb(88));
    assert!(step.request(6380).is_none());
}

#[test]
fn the_handshake_stops_at_a_wrong_answer() {
    for (step, line) in [
        (Handshake::Ping, "+OK\r\n"),
        (Handshake::Ping, "+PONG"),
        (Handshake::ListeningPort, "-ERR\r\n"),
        (Handshake::Capa, "+PONG\r\n"),
        (Handshake::Psync, "+FULLRESYNC"),
        (Handshake::Rdb(3), "$3\r\n"),
    ] {
        assert!(matches!(
            step.on_line(line),
            Err(HandshakeError::Refused(NetworkingError::HandshakeUnfinished))
        ));
    }
    assert!(matches!(
        Handshake::RdbHeader.on_line("$x\r\n"),
        Err(HandshakeError::BadRdbHeader)
    ));
}

#[test]
fn the_header_of_a_snapshot() {
    for (line, len) in [
        ("$88\r\n", Some(88)),
        ("$$7\n", Some(7)),
        ("12 \t\u{a0}", Some(12)),
        ("$+5\r\n", Some(5)),
        ("$\r\n", None),
        ("", None),
        ("$-1\r\n", None),
        ("$ 5\r\n", None),
        ("$5$\r\n", None),
        ("$\u{663}\r\n", None),
        ("$99999999999999999999999\r\n", None),
    ] {
        let by_std: Option<usize> = line.trim_start_matches('$').trim_end().parse().ok();
        assert_eq!(by_std, len, "{line:?}");
        assert_eq!(parse_rdb_header(line), len, "{line:?}");
    }
}

#[test]
fn ports_have_a_range() {
    assert_eq!(port_in_range("1").unwrap(), 1);
    assert_eq!(port_in_range("65535").unwrap(), 65535);
    assert!(matches!(
        port_in_range("0"),
        Err(CliError::PortNotInRange(1, 65535))
    ));
    assert!(matches!(
        port_in_range("65536"),
        Err(CliError::PortNotInRange(1, 65535))
    ));
    let error = port_in_range("http").unwrap_err();
    assert_eq!(error.message(), "http isn't a number");
    assert_eq!(
        CliError::PortNotInRange(1, 65535).message(),
        "Port not in in range 1-65535"
    );
}

#[test]
fn the_master_is_a_host_and_a_port() {
    assert_eq!(cli(None).parse_replicaof().unwrap(), None);
    assert_eq!(cli(Some("localhost")).parse_replicaof().unwrap(), None);
    assert_eq!(
        cli(Some("h\u{f6}st 6379")).parse_replicaof().unwrap(),
        Some(("h\u{f6}st".to_owned(), 6379))
    );
    assert!(matches!(
        cli(Some("a b c")).parse_replicaof(),
        Err(CliError::NotANumber(s)) if s == "b c"
    ));
    assert_eq!(cli(None).port(), 6379);
    assert_eq!(cli(None).dir(), "/tmp");
    assert_eq!(cli(None).dbfilename(), "dump.rdb");
}

#[test]
fn every_networking_error_has_its_text() {
    assert_eq!(
        NetworkingError::NotValidAddr("x".into()).message(),
        "x - should be valid IPv4 or IPv6"
    );
    assert_eq!(
        NetworkingError::InvalidSlave.message(),
        "slave has invalid state"
    );
    assert_eq!(
        NetworkingError::MasterDisconnected.message(),
        "master disconnected"
    );
    assert_eq!(
        NetworkingError::HandshakeUnfinished.message(),
        "Handshake unfinished"
    );
    assert_eq!(ServerRole::Master.as_str(), "master");
    assert_eq!(PeerRole::Slave.as_str(), "slave");
}
