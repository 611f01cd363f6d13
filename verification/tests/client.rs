//! Connections, with the peer at the other end of two buffers.
use codecrafters_redis::client::{
    Client, ClientId, Disposition, FlushStep, PeerRole, ReadEvent, ReadStep, WriteEvent,
};
use codecrafters_redis::db::Db;
use codecrafters_redis::networking::{ServerInfo, ServerRole};
use codecrafters_redis::resp::RespBody;
use codecrafters_redis::time::Duration;
use std::time::{SystemTime, UNIX_EPOCH};

fn db() -> Db {
    let realtime = SystemTime::now()
        .duration_since(UNIX_EPOCH)
        .expect("the clock stands after the epoch");
    Db::create(Duration::from_nanos(realtime.as_nanos()))
}

fn info(role: ServerRole) -> ServerInfo {
    ServerInfo::new(
        role,
        0,
        "0".repeat(40),
        0,
        false,
        None,
        ".".into(),
        "dump.rdb".into(),
    )
}

/// Encodes a command as a RESP array of bulk strings — what real clients send.
fn resp(args: &[&[u8]]) -> Vec<u8> {
    let mut buf = format!("*{}\r\n", args.len()).into_bytes();
    for a in args {
        buf.extend_from_slice(format!("${}\r\n", a.len()).as_bytes());
        buf.extend_from_slice(a);
        buf.extend_from_slice(b"\r\n");
    }
    buf
}

/// The server's end of a connection, and what its peer has received.
struct Wire {
    client: Client,
    info: ServerInfo,
    received: Vec<u8>,
}

impl Wire {
    fn new() -> Self {
        Self::with(PeerRole::Normal, ServerRole::Master)
    }

    fn with(peer: PeerRole, role: ServerRole) -> Self {
        Self {
            client: Client::new(ClientId::new(1), peer),
            info: info(role),
            received: Vec::new(),
        }
    }

    /// The peer takes everything.
    fn flush(&mut self) -> Disposition {
        let (mut flush, mut step) = self.client.start_flush();
        while step == FlushStep::Continue {
            let unsent = self.client.unsent(&flush).to_vec();
            self.received.extend_from_slice(&unsent);
            step = self
                .client
                .flush_step(&mut flush, WriteEvent::Wrote(unsent.len()));
        }
        let FlushStep::Done(disposition) = step else {
            unreachable!()
        };
        disposition
    }

    fn on_readable(&mut self, db: &mut Db, event: ReadEvent) -> (Disposition, Vec<RespBody>) {
        let (step, forwards) = self.client.on_readable(db, &mut self.info, event);
        let disposition = match step {
            ReadStep::Done(disposition) => disposition,
            ReadStep::Flush => {
                let flushed = self.flush();
                self.client.after_flush(flushed)
            }
        };
        (disposition, forwards)
    }

    fn send(&mut self, db: &mut Db, frames: Vec<u8>) -> (Disposition, Vec<RespBody>) {
        self.on_readable(db, ReadEvent::Data(frames))
    }
}

fn wire_of(bodies: &[RespBody]) -> Vec<u8> {
    let mut out = Vec::new();
    for body in bodies {
        body.encode(&mut out);
    }
    out
}

#[test]
fn ping_round_trips() {
    let mut wire = Wire::new();

    assert!(matches!(
        wire.send(&mut db(), resp(&[b"PING"])),
        (Disposition::Keep, _)
    ));

    assert_eq!(wire.received, b"+PONG\r\n");
}

#[test]
fn echo_returns_bulk() {
    let mut wire = Wire::new();
    wire.send(&mut db(), resp(&[b"ECHO", b"hey"]));

    // Exactly one bulk frame, no trailing CRLF.
    assert_eq!(wire.received, b"$3\r\nhey\r\n");
}

#[test]
fn pipelined_commands_each_reply() {
    let mut wire = Wire::new();
    let mut frames = resp(&[b"PING"]); // two commands in one write,
    frames.extend(resp(&[b"PING"])); // delivered in a single read
    wire.send(&mut db(), frames);

    assert_eq!(wire.received.len(), 14);
    assert_eq!(wire.received, b"+PONG\r\n+PONG\r\n");
}

/// The output must clear between events or replies accumulate.
#[test]
fn outbuf_clears_between_events() {
    let mut wire = Wire::new();
    let mut db = db();
    wire.send(&mut db, resp(&[b"PING"]));
    wire.send(&mut db, resp(&[b"PING"]));

    assert_eq!(wire.received, b"+PONG\r\n+PONG\r\n"); // exactly two, not three
}

/// The block stays parked while replicas lag and pays out the tally once they
/// catch up.
#[test]
fn wait_settles_once_replicas_reach_the_offset() {
    let mut wire = Wire::new();
    let now = Duration::from_millis(0);
    wire.client
        .block_client(Some(Duration::from_millis(500)), 100, 2);

    // One replica at the offset, one behind it: still short, stays parked.
    assert_eq!(
        wire.client.settle_ack_block(&[100, 40], now),
        Some(Duration::from_millis(500))
    );
    assert!(wire.client.is_ack_blocked());

    // The second replica overtakes the offset — an acknowledgement past it counts too.
    assert_eq!(wire.client.settle_ack_block(&[100, 120], now), None);
    assert!(!wire.client.is_ack_blocked());

    wire.flush();
    assert_eq!(wire.received, b":2\r\n");
}

/// An expired deadline pays out whatever the tally is, rather than holding out
/// for a count that may never arrive.
#[test]
fn wait_times_out_with_the_partial_count() {
    let mut wire = Wire::new();
    wire.client
        .block_client(Some(Duration::from_millis(500)), 100, 3);

    assert_eq!(
        wire.client
            .settle_ack_block(&[100], Duration::from_millis(500)),
        None
    );

    wire.flush();
    assert_eq!(wire.received, b":1\r\n");
}

#[test]
fn eof_drops_client() {
    let mut wire = Wire::new();

    assert!(matches!(
        wire.on_readable(&mut db(), ReadEvent::Closed),
        (Disposition::Drop, _)
    ));
}

/// A blocking command queued in MULTI must not block at EXEC: it runs
/// non-blocking and returns nil, so the array keeps one element per command.
#[test]
fn blpop_in_transaction_runs_non_blocking() {
    let mut wire = Wire::new();
    let mut frames = resp(&[b"MULTI"]);
    frames.extend(resp(&[b"BLPOP", b"nokey", b"0"]));
    frames.extend(resp(&[b"EXEC"]));
    wire.send(&mut db(), frames);

    assert_eq!(wire.received, b"+OK\r\n+QUEUED\r\n*1\r\n*-1\r\n");
}

/// Same guarantee for the stream side: a queued `XREAD BLOCK` must run as a
/// one-shot read at EXEC.
#[test]
fn xread_block_in_transaction_runs_non_blocking() {
    let mut wire = Wire::new();
    let mut frames = resp(&[b"MULTI"]);
    frames.extend(resp(&[b"XREAD", b"BLOCK", b"0", b"STREAMS", b"s", b"0-0"]));
    frames.extend(resp(&[b"EXEC"]));
    wire.send(&mut db(), frames);

    assert_eq!(wire.received, b"+OK\r\n+QUEUED\r\n*1\r\n*-1\r\n");
}

#[test]
fn exec_runs_the_queue_in_order_with_one_reply_each() {
    let mut wire = Wire::new();
    let mut db = db();
    let mut frames = resp(&[b"MULTI"]);
    frames.extend(resp(&[b"SET", b"n", b"1"]));
    frames.extend(resp(&[b"INCR", b"n"]));
    frames.extend(resp(&[b"GET", b"n"]));
    frames.extend(resp(&[b"LLEN", b"n"]));
    frames.extend(resp(&[b"EXEC"]));
    let (_, forwards) = wire.send(&mut db, frames);

    assert_eq!(
        wire.received,
        b"+OK\r\n+QUEUED\r\n+QUEUED\r\n+QUEUED\r\n+QUEUED\r\n*4\r\n+OK\r\n:2\r\n$1\r\n2\r\n-ERR key already exist with different type, expected: 'list'\r\n"
    );
    // The two writes go on to the replicas, in their order; the reads do not.
    let mut want = resp(&[b"SET", b"n", b"1"]);
    want.extend(resp(&[b"INCR", b"n"]));
    assert_eq!(wire_of(&forwards), want);
}

#[test]
fn exec_aborts_when_a_watched_key_was_touched() {
    let mut watcher = Wire::new();
    let mut other = Wire::new();
    other.client = Client::new(ClientId::new(2), PeerRole::Normal);
    let mut db = db();
    watcher.send(&mut db, resp(&[b"WATCH", b"k"]));
    other.send(&mut db, resp(&[b"RPUSH", b"k", b"x"]));
    watcher.send(&mut db, resp(&[b"MULTI"]));
    watcher.send(&mut db, resp(&[b"SET", b"other", b"1"]));
    let (_, forwards) = watcher.send(&mut db, resp(&[b"EXEC"]));
    assert_eq!(watcher.received, b"+OK\r\n+OK\r\n+QUEUED\r\n*-1\r\n");
    assert!(forwards.is_empty());

    // Nothing was run, and nothing is watched any more.
    watcher.received.clear();
    watcher.send(&mut db, resp(&[b"GET", b"other"]));
    watcher.send(&mut db, resp(&[b"MULTI"]));
    watcher.send(&mut db, resp(&[b"EXEC"]));
    assert_eq!(watcher.received, b"$-1\r\n+OK\r\n*0\r\n");
}

#[test]
fn exec_runs_when_only_other_keys_were_touched() {
    let mut watcher = Wire::new();
    let mut other = Wire::new();
    other.client = Client::new(ClientId::new(2), PeerRole::Normal);
    let mut db = db();
    watcher.send(&mut db, resp(&[b"WATCH", b"k"]));
    other.send(&mut db, resp(&[b"SET", b"j", b"x"]));
    watcher.send(&mut db, resp(&[b"MULTI"]));
    watcher.send(&mut db, resp(&[b"PING"]));
    watcher.send(&mut db, resp(&[b"EXEC"]));
    assert_eq!(
        watcher.received,
        b"+OK\r\n+OK\r\n+QUEUED\r\n*1\r\n+PONG\r\n"
    );
}

#[test]
fn discard_drops_the_queue() {
    let mut wire = Wire::new();
    let mut db = db();
    wire.send(&mut db, resp(&[b"MULTI"]));
    wire.send(&mut db, resp(&[b"SET", b"k", b"v"]));
    wire.send(&mut db, resp(&[b"DISCARD"]));
    wire.send(&mut db, resp(&[b"GET", b"k"]));
    wire.send(&mut db, resp(&[b"EXEC"]));
    wire.send(&mut db, resp(&[b"DISCARD"]));
    assert_eq!(
        wire.received,
        b"+OK\r\n+QUEUED\r\n+OK\r\n$-1\r\n-ERR EXEC without MULTI\r\n-ERR DISCARD without MULTI\r\n"
    );
}

#[test]
fn commands_that_may_not_stand_in_a_transaction_are_refused() {
    let mut wire = Wire::new();
    let mut db = db();
    wire.send(&mut db, resp(&[b"MULTI"]));
    wire.received.clear();
    wire.send(&mut db, resp(&[b"WATCH", b"k"]));
    wire.send(&mut db, resp(&[b"PSYNC", b"?", b"-1"]));
    wire.send(&mut db, resp(&[b"MULTI"]));
    wire.send(&mut db, resp(&[b"EXEC"]));
    assert_eq!(
        wire.received,
        b"-ERR WATCH inside MULTI is not allowed\r\n-ERR replication commands are not allowed inside MULTI\r\n-ERR EXEC without MULTI\r\n*0\r\n"
    );
}

#[test]
fn input_in_pieces_is_answered_as_a_whole() {
    let mut frames = resp(&[b"SET", b"k", b"hello"]);
    frames.extend(resp(&[b"GET", b"k"]));
    frames.extend(resp(&[b"PING"]));
    let mut whole = Wire::new();
    whole.send(&mut db(), frames.clone());
    for cut in 0..=frames.len() {
        let mut pieces = Wire::new();
        let mut db = db();
        pieces.send(&mut db, frames[..cut].to_vec());
        pieces.send(&mut db, frames[cut..].to_vec());
        assert_eq!(pieces.received, whole.received);
    }
    assert_eq!(whole.received, b"+OK\r\n$5\r\nhello\r\n+PONG\r\n");
}

#[test]
fn flush_keeps_exactly_the_unsent_tail() {
    let mut wire = Wire::new();
    let mut db = db();
    let (step, _) = wire
        .client
        .on_readable(&mut db, &mut wire.info, ReadEvent::Data(resp(&[b"PING"])));
    assert_eq!(step, ReadStep::Flush);
    let (mut flush, step) = wire.client.start_flush();
    assert_eq!(step, FlushStep::Continue);
    assert_eq!(
        wire.client.flush_step(&mut flush, WriteEvent::Wrote(3)),
        FlushStep::Continue
    );
    assert_eq!(
        wire.client.flush_step(&mut flush, WriteEvent::Interrupted),
        FlushStep::Continue
    );
    assert_eq!(
        wire.client.flush_step(&mut flush, WriteEvent::WouldBlock),
        FlushStep::Done(Disposition::Keep)
    );
    assert_eq!(wire.flush(), Disposition::Keep);
    assert_eq!(wire.received, b"NG\r\n");
}

#[test]
fn a_write_that_fails_drops_the_client() {
    for event in [WriteEvent::Failed, WriteEvent::Wrote(0)] {
        let mut wire = Wire::new();
        let mut db = db();
        wire.client
            .on_readable(&mut db, &mut wire.info, ReadEvent::Data(resp(&[b"PING"])));
        let (mut flush, _) = wire.client.start_flush();
        assert_eq!(
            wire.client.flush_step(&mut flush, event),
            FlushStep::Done(Disposition::Drop)
        );
    }
}

#[test]
fn a_read_that_is_not_ready_keeps_the_client_and_one_that_fails_drops_it() {
    let mut wire = Wire::new();
    assert!(matches!(
        wire.on_readable(&mut db(), ReadEvent::NotReady),
        (Disposition::Keep, _)
    ));
    assert!(matches!(
        wire.on_readable(&mut db(), ReadEvent::Failed),
        (Disposition::Drop, _)
    ));
}

#[test]
fn a_replica_applies_writes_silently_and_counts_their_bytes() {
    let mut link = Wire::with(PeerRole::Master, ServerRole::Slave);
    let mut db = db();
    let write = resp(&[b"SET", b"k", b"v"]);
    link.send(&mut db, write.clone());
    assert!(link.received.is_empty());
    assert_eq!(link.info.master_repl_offset(), write.len() as i64);

    // A question for the offset is answered, and counts only afterwards.
    let ask = resp(&[b"REPLCONF", b"getack", b"*"]);
    link.send(&mut db, ask.clone());
    assert_eq!(link.received, b"+OK\r\n");
    assert_eq!(
        link.info.master_repl_offset(),
        (write.len() + ask.len()) as i64
    );

    let mut reader = Wire::new();
    reader.send(&mut db, resp(&[b"GET", b"k"]));
    assert_eq!(reader.received, b"$1\r\nv\r\n");
}

#[test]
fn a_master_does_not_count_what_its_clients_send() {
    let mut wire = Wire::new();
    wire.send(&mut db(), resp(&[b"SET", b"k", b"v"]));
    assert_eq!(wire.info.master_repl_offset(), 0);
}

#[test]
fn writes_are_forwarded_and_reads_are_not() {
    let mut wire = Wire::new();
    let mut db = db();
    let set = resp(&[b"set", b"k", b"v"]);
    let (_, forwards) = wire.send(&mut db, set.clone());
    assert_eq!(wire_of(&forwards), set);
    for read in [
        resp(&[b"GET", b"k"]),
        resp(&[b"TYPE", b"k"]),
        resp(&[b"PING"]),
        resp(&[b"LRANGE", b"l", b"0", b"-1"]),
        resp(&[b"BLPOP", b"l", b"0"]),
    ] {
        let (_, forwards) = wire.send(&mut db, read);
        assert!(forwards.is_empty());
    }
}

#[test]
fn malformed_requests_are_refused() {
    let mut wire = Wire::new();
    let mut db = db();
    wire.send(&mut db, b"*0\r\n".to_vec());
    wire.send(&mut db, resp(&[b"ECHO"]));
    wire.send(&mut db, resp(&[b"NOPE"]));
    wire.send(&mut db, resp(&[b"get"]));
    assert_eq!(
        String::from_utf8(wire.received).unwrap(),
        "-ERR unknown command ''\r\n-ERR wrong number of arguments for 'ECHO', expected: '1'\r\n-ERR unknown command 'NOPE'\r\n-ERR wrong number of arguments for 'GET', expected: '1'\r\n"
    );
}

#[test]
fn info_shows_replication() {
    let mut wire = Wire::new();
    let mut db = db();
    wire.send(&mut db, resp(&[b"INFO", b"replication"]));
    let text = format!(
        "role:master\r\nconnected_slaves:0\r\nmaster_replid:{}\r\nmaster_repl_offset:0",
        "0".repeat(40)
    );
    assert_eq!(
        String::from_utf8(wire.received.clone()).unwrap(),
        format!("${}\r\n{text}\r\n", text.len())
    );
    wire.received.clear();
    wire.send(&mut db, resp(&[b"INFO", b"weather"]));
    assert_eq!(wire.received, b"-ERR unknown INFO section 'weather'\r\n");
}
