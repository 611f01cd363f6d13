//! What the commands on the connection and the server answer.
use vstd::prelude::*;
use vstd::utf8::*;
use crate::client::{ClientId, ClientMode};
use crate::command::answers;
use crate::command::answers::Sender;
use crate::command::common::ErrorView;
use crate::command::kind;
use crate::command::kind::CommandKind;
use crate::command::laws;
use crate::command::model;
use crate::db::model::DbView;
use crate::networking::info::{InfoView, ServerRole};
use crate::resp;
use crate::resp::{ReplyView, RespView};
use crate::text;

verus! {

// ---------------------------------------------------------------
// Requests
// ---------------------------------------------------------------

/// Whether a command takes so many words, its own name among them.
pub open spec fn takes(kind: CommandKind, count: int) -> bool {
    match kind {
        CommandKind::Ping | CommandKind::Multi | CommandKind::Exec | CommandKind::Discard
        | CommandKind::Unwatch => count == 1,
        CommandKind::Echo | CommandKind::Get | CommandKind::Llen | CommandKind::Type
        | CommandKind::Incr => count == 2,
        CommandKind::Psync => count == 3,
        CommandKind::Lrange | CommandKind::Xrange => count == 4,
        CommandKind::Xadd => count == 5,
        CommandKind::Info => count >= 1,
        CommandKind::Lpop | CommandKind::Blpop | CommandKind::Watch => count >= 2,
        CommandKind::SetKey | CommandKind::Lpush | CommandKind::Rpush | CommandKind::Replconf =>
            count >= 3,
        CommandKind::Xread => count >= 4,
    }
}

/// Law: a request is run as the command that its first word names, if it has as
/// many words as that command takes. Otherwise it is refused, and so is one without
/// a word or with an unknown one; and then nothing changes.
pub proof fn law_requests_reach_commands(
    db: DbView,
    args: Seq<Seq<u8>>,
    client: ClientId,
    mode: ClientMode,
    may_wait: bool,
    server: InfoView,
)
    ensures
        ({
            let frame = answers::words(args);
            let r = model::request(db, frame, client, mode, may_wait, server);
            &&& args.len() == 0 ==> r == (
                db,
                Err::<(ReplyView, Option<RespView>), _>(ErrorView::Unknown(""@)),
            )
            &&& args.len() > 0 ==> match kind::kind_of(args[0]) {
                None => r == (
                    db,
                    Err::<(ReplyView, Option<RespView>), _>(
                        ErrorView::Unknown(text::shown(args[0])),
                    ),
                ),
                Some(kind) => if takes(kind, args.len() as int) {
                    r == model::execute(db, kind, args, client, mode, may_wait, server)
                } else {
                    &&& r.0 == db
                    &&& r.1 == Err::<(ReplyView, Option<RespView>), _>(
                        ErrorView::WrongArity(
                            kind.name(),
                            text::ascii_chars(text::decimal(args.len())),
                        ),
                    )
                },
            }
        }),
{
    answers::lemma_words(args);
    resp::lemma_request_args_of_bulk_array(args);
    reveal_strlit("");
    assert(""@ =~= Seq::empty());
}

// ---------------------------------------------------------------
// Plain answers
// ---------------------------------------------------------------

/// Law: PING is answered PONG, ECHO with the word behind it, REPLCONF with OK, and
/// PSYNC with a full synchronisation. They change nothing and go no further.
pub proof fn law_plain_answers(db: DbView, args: Seq<Seq<u8>>, by: Sender)
    ensures
        ({
            let ping = answers::run(db, CommandKind::Ping, args, by);
            let echo = answers::run(db, CommandKind::Echo, args, by);
            let replconf = answers::run(db, CommandKind::Replconf, args, by);
            let psync = answers::run(db, CommandKind::Psync, args, by);
            &&& ping.0 == db && answers::reads(ping, RespView::Simple("PONG"@))
            &&& args.len() == 2 ==> echo.0 == db && answers::reads(
                echo,
                RespView::Bulk(Some(args[1])),
            )
            &&& replconf.0 == db && answers::reads(replconf, RespView::Simple("OK"@))
            &&& psync.0 == db && answers::reads(
                psync,
                RespView::Simple("FULLRESYNC <REPL_ID> 0"@),
            )
        }),
{
}

// ---------------------------------------------------------------
// INFO
// ---------------------------------------------------------------

/// A line that names a figure.
pub open spec fn figure(name: Seq<char>, value: Seq<char>) -> Seq<char> {
    name + ":"@ + value
}

/// Lines, with a line end between any two.
pub open spec fn joined(lines: Seq<Seq<char>>) -> Seq<char>
    decreases lines.len(),
{
    if lines.len() == 0 {
        Seq::empty()
    } else if lines.len() == 1 {
        lines[0]
    } else {
        joined(lines.drop_last()) + "\r\n"@ + lines.last()
    }
}

/// The digits of a number, as text.
pub open spec fn digits(n: int) -> Seq<char> {
    decode_utf8(text::signed_decimal(n))
}

pub open spec fn role_name(role: ServerRole) -> Seq<char> {
    match role {
        ServerRole::Master => "master"@,
        ServerRole::Slave => "slave"@,
    }
}

/// The lines that INFO shows of a server.
pub open spec fn figures(server: InfoView) -> Seq<Seq<char>> {
    seq![
        figure("role"@, role_name(server.role)),
        figure("connected_slaves"@, digits(server.connected_slaves as int)),
        figure("master_replid"@, server.master_replid),
        figure("master_repl_offset"@, digits(server.master_repl_offset as int)),
    ]
}

proof fn lemma_digits(n: int)
    ensures
        digits(n) == text::ascii_chars(text::signed_decimal(n)),
        encode_utf8(digits(n)) == text::signed_decimal(n),
{
    let b = text::signed_decimal(n);
    if n < 0 {
        text::lemma_decimal_ascii((-n) as nat);
    } else {
        text::lemma_decimal_ascii(n as nat);
    }
    assert(text::is_ascii_bytes(b)) by {
        assert forall|i: int| 0 <= i < b.len() implies #[trigger] b[i] < 128 by {
            if n < 0 && i > 0 {
                assert(text::decimal((-n) as nat)[i - 1] < 128);
            }
        }
    }
    text::lemma_ascii_text(b);
}

proof fn lemma_replication_text(server: InfoView)
    ensures
        model::replication_text(server) == joined(figures(server)),
{
    reveal_with_fuel(joined, 5);
    lemma_digits(server.connected_slaves as int);
    lemma_digits(server.master_repl_offset as int);
    reveal_strlit(":");
    reveal_strlit("\r\n");
    reveal_strlit("role:");
    reveal_strlit("\r\nconnected_slaves:");
    reveal_strlit("\r\nmaster_replid:");
    reveal_strlit("\r\nmaster_repl_offset:");
    reveal_strlit("role");
    reveal_strlit("connected_slaves");
    reveal_strlit("master_replid");
    reveal_strlit("master_repl_offset");
    let lines = figures(server);
    let three = lines.drop_last();
    let two = three.drop_last();
    let one = two.drop_last();
    assert(one =~= seq![lines[0]]);
    assert(two.last() == lines[1] && three.last() == lines[2] && lines.last() == lines[3]);
    assert("role:"@ =~= "role"@ + ":"@);
    assert("\r\nconnected_slaves:"@ =~= "\r\n"@ + ("connected_slaves"@ + ":"@));
    assert("\r\nmaster_replid:"@ =~= "\r\n"@ + ("master_replid"@ + ":"@));
    assert("\r\nmaster_repl_offset:"@ =~= "\r\n"@ + ("master_repl_offset"@ + ":"@));
    let slaves = digits(server.connected_slaves as int);
    let offset = digits(server.master_repl_offset as int);
    assert(model::replication_text(server) =~= joined(lines));
}

/// Law: INFO shows the server's role, how many replicas it has, the identity of its
/// history, and its replication offset, each on a line of its own. It knows one
/// section, refuses any other, and changes nothing.
pub proof fn law_info(db: DbView, args: Seq<Seq<u8>>, by: Sender)
    requires
        args.len() >= 1,
    ensures
        ({
            let r = answers::run(db, CommandKind::Info, args, by);
            &&& r.0 == db
            &&& if args.len() == 1 || text::same_ignoring_case(
                args[1],
                encode_utf8("REPLICATION"@),
            ) {
                answers::reads(
                    r,
                    RespView::Bulk(Some(encode_utf8(joined(figures(by.server))))),
                )
            } else {
                answers::fails(r, ErrorView::Info(text::shown(args[1])))
            }
        }),
{
    lemma_replication_text(by.server);
}

/// Law: the figures that INFO shows are numbers that can be read back, and two
/// servers whose offsets or whose numbers of replicas differ are shown differently.
pub proof fn law_info_tells_servers_apart(a: InfoView, b: InfoView)
    ensures
        text::signed_value(encode_utf8(digits(a.master_repl_offset as int))) == Some(
            a.master_repl_offset as int,
        ),
        text::signed_value(encode_utf8(digits(a.connected_slaves as int))) == Some(
            a.connected_slaves as int,
        ),
        a.master_repl_offset != b.master_repl_offset && a.role == b.role && a.connected_slaves
            == b.connected_slaves && a.master_replid == b.master_replid ==> joined(figures(a))
            != joined(figures(b)),
        a.connected_slaves != b.connected_slaves ==> figures(a)[1] != figures(b)[1],
        a.master_repl_offset != b.master_repl_offset ==> figures(a)[3] != figures(b)[3],
{
    lemma_digits(a.master_repl_offset as int);
    lemma_digits(a.connected_slaves as int);
    text::law_signed_decimal_roundtrip(a.master_repl_offset as int);
    text::law_signed_decimal_roundtrip(a.connected_slaves as int);
    lemma_digits(b.master_repl_offset as int);
    lemma_digits(b.connected_slaves as int);
    text::law_signed_decimal_roundtrip(b.master_repl_offset as int);
    text::law_signed_decimal_roundtrip(b.connected_slaves as int);
    lemma_same_tail(
        "connected_slaves"@ + ":"@,
        digits(a.connected_slaves as int),
        digits(b.connected_slaves as int),
    );
    lemma_same_tail(
        "master_repl_offset"@ + ":"@,
        digits(a.master_repl_offset as int),
        digits(b.master_repl_offset as int),
    );
    reveal_with_fuel(joined, 2);
    let (x, y) = (figures(a), figures(b));
    if a.role == b.role && a.connected_slaves == b.connected_slaves && a.master_replid
        == b.master_replid {
        assert(x.drop_last() =~= y.drop_last());
        lemma_same_tail(joined(x.drop_last()) + "\r\n"@, x.last(), y.last());
    }
}

proof fn lemma_same_tail(head: Seq<char>, a: Seq<char>, b: Seq<char>)
    ensures
        head + a == head + b ==> a == b,
{
    if head + a == head + b {
        assert((head + a).skip(head.len() as int) =~= a);
        assert((head + b).skip(head.len() as int) =~= b);
    }
}

// ---------------------------------------------------------------
// Watching
// ---------------------------------------------------------------

/// Law: WATCH has the client watch each key behind it, along with those that it
/// watches already, and takes back nothing that it was told; UNWATCH ends all of
/// that. Nothing else changes, and nobody else is concerned.
pub proof fn law_watching(db: DbView, args: Seq<Seq<u8>>, by: Sender)
    requires
        args.len() >= 2,
    ensures
        ({
            let watch = answers::run(db, CommandKind::Watch, args, by);
            let unwatch = answers::run(db, CommandKind::Unwatch, args, by);
            let now = watch.0.watches;
            &&& answers::reads(watch, RespView::Simple("OK"@))
            &&& answers::reads(unwatch, RespView::Simple("OK"@))
            &&& watch.0 == (DbView { watches: now, ..db })
            &&& unwatch.0 == (DbView { watches: db.watches.remove(by.id), ..db })
            &&& now.contains_key(by.id)
            &&& now[by.id].dirty == (db.watches.contains_key(by.id) && db.watches[by.id].dirty)
            &&& forall|key: Seq<u8>| #[trigger]
                now[by.id].keys.contains(key) <==> args.skip(1).contains(key) || (
                db.watches.contains_key(by.id) && db.watches[by.id].keys.contains(key))
            &&& now.remove(by.id) == db.watches.remove(by.id)
        }),
{
    let now = answers::run(db, CommandKind::Watch, args, by).0.watches;
    assert(now.remove(by.id) =~= db.watches.remove(by.id));
    let keys = args.skip(1);
    assert forall|key: Seq<u8>| #[trigger]
        now[by.id].keys.contains(key) <==> keys.contains(key) || (db.watches.contains_key(by.id)
            && db.watches[by.id].keys.contains(key)) by {
        assert(keys.to_set().contains(key) == keys.contains(key));
    }
}

/// Law: once a key that a client watches was written to, by whatever command and
/// whomever, EXEC answers that client with a null array, and runs nothing.
#[verifier::spinoff_prover]
#[verifier::rlimit(40)]
pub proof fn law_watched_write_stops_exec(
    db: DbView,
    watch: Seq<Seq<u8>>,
    client: ClientId,
    kind: CommandKind,
    write: Seq<Seq<u8>>,
    by: Sender,
    server: InfoView,
    exec: Seq<Seq<u8>>,
)
    requires
        watch.len() >= 2,
        laws::is_write(kind),
        takes(kind, write.len() as int),
        watch.skip(1).contains(write[1]),
        answers::run(
            answers::run(
                db,
                CommandKind::Watch,
                watch,
                Sender { id: client, may_wait: true, server },
            ).0,
            kind,
            write,
            by,
        ).1 is Ok,
    ensures
        ({
            let watching = answers::run(
                db,
                CommandKind::Watch,
                watch,
                Sender { id: client, may_wait: true, server },
            ).0;
            let written = answers::run(watching, kind, write, by).0;
            model::execute(
                written,
                CommandKind::Exec,
                exec,
                client,
                ClientMode::Transaction,
                true,
                server,
            ) == (
                written,
                Ok::<(ReplyView, Option<RespView>), ErrorView>(
                    (ReplyView::DiscardTransaction(Some(RespView::Array(None))), None),
                ),
            )
        }),
{
    let from = Sender { id: client, may_wait: true, server };
    let watching = answers::run(db, CommandKind::Watch, watch, from).0;
    law_watching(db, watch, from);
    let key = write[1];
    assert(watching.watches[client].keys.contains(key));
    assert(watching.touched(key).is_dirty(client));
    assert(watching.touched(key).lapsed(key).is_dirty(client));
    assert(watching.lapsed(key).watches.contains_key(client) && watching.lapsed(
        key,
    ).watches[client].keys.contains(key));
    assert(watching.lapsed(key).touched(key).is_dirty(client));
    let written = answers::run(watching, kind, write, by).0;
    assert(written.is_dirty(client));
}

/// The kinds that look at the key behind their name.
pub open spec fn is_read(kind: CommandKind) -> bool {
    kind is Get || kind is Type || kind is Llen || kind is Lrange || kind is Xrange
}

/// Law: a command tells those who watch its key, and nobody else. A write that
/// succeeds tells all of them; a read tells them where the time of the key was over;
/// and what is told is never taken back.
#[verifier::spinoff_prover]
#[verifier::rlimit(40)]
pub proof fn law_who_is_told(
    db: DbView,
    kind: CommandKind,
    args: Seq<Seq<u8>>,
    by: Sender,
    client: ClientId,
)
    requires
        takes(kind, args.len() as int),
        laws::is_write(kind) || is_read(kind),
        db.watches.contains_key(client),
    ensures
        ({
            let r = answers::run(db, kind, args, by);
            let (before, after) = (db.watches[client], r.0.watches[client]);
            let watched = before.keys.contains(args[1]);
            &&& r.0.watches.contains_key(client)
            &&& after.keys == before.keys
            &&& before.dirty ==> after.dirty
            &&& after.dirty ==> before.dirty || watched
            &&& laws::is_write(kind) && r.1 is Ok && watched ==> after.dirty
            &&& is_read(kind) && !answers::over(db, args[1]) ==> after == before
            &&& is_read(kind) && answers::over(db, args[1]) && r.1 is Ok && watched ==> after.dirty
        }),
{
    let key = args[1];
    let told = db.touched(key);
    assert(told.watches[client].keys == db.watches[client].keys);
    assert(told.lapsed(key).watches[client].keys == db.watches[client].keys);
    assert(db.lapsed(key).watches[client].keys == db.watches[client].keys);
    assert(db.lapsed(key).touched(key).watches[client].keys == db.watches[client].keys);
    assert(db.is_expired(key) == answers::over(db, key));
}


// ---------------------------------------------------------------
// Transactions
// ---------------------------------------------------------------

/// Law: outside of a transaction MULTI begins one, and EXEC and DISCARD are
/// refused. Inside of one, MULTI, WATCH, UNWATCH, REPLCONF and PSYNC are refused,
/// DISCARD ends it, EXEC runs it unless a watched key was touched, and any other
/// request but INFO waits in the queue as it came.
pub proof fn law_transactions(
    db: DbView,
    kind: CommandKind,
    args: Seq<Seq<u8>>,
    by: Sender,
)
    ensures
        ({
            let r = answers::run(db, kind, args, by);
            let t = model::execute(
                db,
                kind,
                args,
                by.id,
                ClientMode::Transaction,
                by.may_wait,
                by.server,
            );
            let touched = db.watches.contains_key(by.id) && db.watches[by.id].dirty;
            &&& t.0 == db
            &&& match kind {
                CommandKind::Multi => {
                    &&& r == (
                        db,
                        Ok::<(ReplyView, Option<RespView>), ErrorView>(
                            (ReplyView::StartTransaction, None),
                        ),
                    )
                    &&& answers::fails(t, ErrorView::ExecTransaction)
                },
                CommandKind::Exec => {
                    &&& r.0 == db && answers::fails(r, ErrorView::ExecTransaction)
                    &&& t.1 == Ok::<(ReplyView, Option<RespView>), ErrorView>(
                        (
                            if touched {
                                ReplyView::DiscardTransaction(Some(RespView::Array(None)))
                            } else {
                                ReplyView::ExecTransaction
                            },
                            None,
                        ),
                    )
                },
                CommandKind::Discard => {
                    &&& r.0 == db && answers::fails(r, ErrorView::DiscardTransaction)
                    &&& t.1 == Ok::<(ReplyView, Option<RespView>), ErrorView>(
                        (ReplyView::DiscardTransaction(None), None),
                    )
                },
                CommandKind::Watch | CommandKind::Unwatch => answers::fails(
                    t,
                    ErrorView::WatchTransaction,
                ),
                CommandKind::Replconf | CommandKind::Psync => answers::fails(
                    t,
                    ErrorView::SlaveUnsupported,
                ),
                CommandKind::Info => t == r,
                _ => t.1 == Ok::<(ReplyView, Option<RespView>), ErrorView>(
                    (ReplyView::AddTransaction(answers::words(args)), None),
                ),
            }
        }),
{
    answers::lemma_words(args);
}

} // verus!
