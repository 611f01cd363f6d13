//! A small command set, straight from words to the wire.
use vstd::prelude::*;
use vstd::utf8::*;
use crate::command;
use crate::command::answers;
use crate::command::common::{is_word, CommandError, ErrorView, ExpCmd};
use crate::command::kind;
use crate::command::model;
use crate::db::model::DbView;
use crate::db::object;
use crate::db::object::ObjectView;
use crate::db::{Db, Key, Value};
use crate::resp;
use crate::resp::{ReplyView, RespBody, RespView};
use crate::text;
use crate::time::Duration;

verus! {

/// The commands of the set.
#[derive(Clone, Copy, Debug, PartialEq, Eq, Structural)]
pub enum Command {
    Ping,
    Echo,
    SetKey,
    Get,
    Rpush,
}

/// The command that `b` names, in capitals or not.
pub open spec fn command_of(b: Seq<u8>) -> Option<Command> {
    if model::is_word(b, "PING"@) {
        Some(Command::Ping)
    } else if model::is_word(b, "ECHO"@) {
        Some(Command::Echo)
    } else if model::is_word(b, "SET"@) {
        Some(Command::SetKey)
    } else if model::is_word(b, "GET"@) {
        Some(Command::Get)
    } else if model::is_word(b, "RPUSH"@) {
        Some(Command::Rpush)
    } else {
        None
    }
}

impl Command {
    pub open spec fn name(self) -> Seq<char> {
        match self {
            Command::Ping => "PING"@,
            Command::Echo => "ECHO"@,
            Command::SetKey => "SET"@,
            Command::Get => "GET"@,
            Command::Rpush => "RPUSH"@,
        }
    }

    pub open spec fn spec_arity(self) -> int {
        match self {
            Command::Ping => 1,
            Command::Echo => -1,
            Command::SetKey => -3,
            Command::Get => 2,
            Command::Rpush => 3,
        }
    }

    pub fn as_str(&self) -> (r: &'static str)
        ensures
            r@ == self.name(),
    {
        match self {
            Command::Ping => "PING",
            Command::Echo => "ECHO",
            Command::SetKey => "SET",
            Command::Get => "GET",
            Command::Rpush => "RPUSH",
        }
    }

    pub fn check_arity(&self, argc: usize) -> (r: Result<(), CommandError>)
        ensures
            match r {
                Ok(_) => kind::fits(self.spec_arity(), argc as int),
                Err(e) => !kind::fits(self.spec_arity(), argc as int) && e@ == wrong_arity(
                    *self,
                    argc as nat,
                ),
            },
    {
        let arity: i32 = self.arity();
        let fit: bool = if arity > 0 {
            argc == arity as usize
        } else {
            argc >= (-arity) as usize
        };
        if fit {
            Ok(())
        } else {
            Err(self.arity_error(argc))
        }
    }

    fn arity_error(&self, argc: usize) -> (r: CommandError)
        ensures
            r@ == wrong_arity(*self, argc as nat),
    {
        CommandError::WrongArity(self.as_str().to_owned(), text::decimal_string(argc as u64))
    }

    pub fn from_bytes(value: &[u8]) -> (r: Option<Self>)
        ensures
            r == command_of(value@),
    {
        if is_word(value, "PING") {
            Some(Command::Ping)
        } else if is_word(value, "ECHO") {
            Some(Command::Echo)
        } else if is_word(value, "SET") {
            Some(Command::SetKey)
        } else if is_word(value, "GET") {
            Some(Command::Get)
        } else if is_word(value, "RPUSH") {
            Some(Command::Rpush)
        } else {
            None
        }
    }

    pub fn arity(&self) -> (r: i32)
        ensures
            r == self.spec_arity(),
            -100 < r < 100,
    {
        match self {
            Command::Ping => 1,
            Command::Echo => -1,
            Command::SetKey => -3,
            Command::Get => 2,
            Command::Rpush => 3,
        }
    }
}

pub open spec fn wrong_arity(cmd: Command, argc: nat) -> ErrorView {
    ErrorView::WrongArity(cmd.name(), text::ascii_chars(text::decimal(argc)))
}

/// The words with a space between each two.
pub open spec fn spaced(words: Seq<Seq<u8>>) -> Seq<u8>
    decreases words.len(),
{
    if words.len() == 0 {
        Seq::empty()
    } else if words.len() == 1 {
        words[0]
    } else {
        spaced(words.drop_last()) + seq![32u8] + words.last()
    }
}

/// A time to live in whole seconds or milliseconds. One that is too long to
/// count in milliseconds is no number either.
pub open spec fn whole_ttl(unit: Seq<u8>, exp: Seq<u8>) -> Result<Duration, ErrorView> {
    match model::exp_cmd(unit) {
        None => Err(ErrorView::Unknown(text::shown(unit))),
        Some(cmd) => match text::unsigned_within(exp, u64::MAX as nat) {
            None => Err(ErrorView::WrongNumber(text::shown(exp))),
            Some(n) => {
                let ms = if cmd == ExpCmd::Ex {
                    n * 1000
                } else {
                    n
                };
                if ms <= u64::MAX {
                    Ok(Duration::spec_millis(ms as u64))
                } else {
                    Err(ErrorView::WrongNumber(text::shown(exp)))
                }
            },
        },
    }
}

/// What a request does to the database, and what it answers.
pub open spec fn dispatched(db: DbView, args: Seq<Seq<u8>>) -> (
    DbView,
    Result<RespView, ErrorView>,
) {
    if args.len() == 0 {
        (db, Err(ErrorView::Unknown(Seq::empty())))
    } else {
        match command_of(args[0]) {
            None => (db, Err(ErrorView::Unknown(text::shown(args[0])))),
            Some(cmd) => if !kind::fits(cmd.spec_arity(), args.len() as int) {
                (db, Err(wrong_arity(cmd, args.len())))
            } else {
                match cmd {
                    Command::Ping => (db, Ok(RespView::Simple("PONG"@))),
                    Command::Echo => (db, Ok(RespView::Bulk(Some(spaced(args.skip(1)))))),
                    Command::SetKey => if args.len() == 3 {
                        (db.setex(args[1], args[2], None), Ok(model::ok_body()))
                    } else if args.len() == 4 {
                        (db, Err(wrong_arity(cmd, args.len())))
                    } else {
                        match whole_ttl(args[3], args[4]) {
                            Ok(ttl) => (
                                db.setex(args[1], args[2], Some(db.now.plus(ttl))),
                                Ok(model::ok_body()),
                            ),
                            Err(e) => (db, Err(e)),
                        }
                    },
                    Command::Get => (
                        db.lapsed(args[1]),
                        match db.lapsed(args[1]).string_at(args[1]) {
                            Ok(value) => Ok(RespView::Bulk(value)),
                            Err(e) => Err(e),
                        },
                    ),
                    Command::Rpush => (
                        db.list_append(args[1], seq![args[2]]),
                        match db.list_or_empty(args[1]) {
                            Ok(list) => Ok(RespView::Integer((list.len() + 1) as i64)),
                            Err(e) => Err(e),
                        },
                    ),
                }
            },
        }
    }
}

/// Runs a request, and appends its answer to `out`. A request that is refused
/// leaves `out` as it is.
pub fn dispatch(db: &mut Db, args: &[Vec<u8>], out: &mut Vec<u8>) -> (r: Result<(), CommandError>)
    requires
        old(db).wf(),
    ensures
        final(db).wf(),
        ({
            let (after, answer) = dispatched(old(db)@, text::arg_views(args@));
            &&& final(db)@ == after
            &&& match r {
                Ok(_) => answer matches Ok(body) && final(out)@ == old(out)@ + resp::encoded(body),
                Err(e) => answer == Err::<RespView, _>(e@) && final(out)@ == old(out)@,
            }
        }),
{
    let body = answer(db, args)?;
    body.encode(out);
    Ok(())
}

/// Runs a request.
fn answer(db: &mut Db, args: &[Vec<u8>]) -> (r: Result<RespBody, CommandError>)
    requires
        old(db).wf(),
    ensures
        final(db).wf(),
        ({
            let (after, answer) = dispatched(old(db)@, text::arg_views(args@));
            &&& final(db)@ == after
            &&& match r {
                Ok(body) => answer == Ok::<_, ErrorView>(body@),
                Err(e) => answer == Err::<RespView, _>(e@),
            }
        }),
{
    let ghost views = text::arg_views(args@);
    assert forall|i: int| 0 <= i < args@.len() implies #[trigger] views[i] == args@[i]@ by {}
    if args.len() == 0 {
        let none: Vec<u8> = Vec::new();
        let empty = text::ascii_string(none.as_slice());
        assert(empty@ =~= Seq::empty());
        return Err(CommandError::Unknown(empty));
    }
    let cmd = match Command::from_bytes(args[0].as_slice()) {
        Some(cmd) => cmd,
        None => {
            return Err(CommandError::Unknown(text::show(args[0].as_slice())));
        },
    };
    cmd.check_arity(args.len())?;
    match cmd {
        Command::Ping => Ok(RespBody::Simple("PONG".to_owned())),
        Command::Echo => Ok(RespBody::Bulk(Some(join_words(args, 1)))),
        Command::SetKey => {
            if args.len() == 3 {
                cmd_set(db, args[1].as_slice(), args[2].as_slice());
            } else if args.len() == 4 {
                return Err(cmd.arity_error(args.len()));
            } else {
                cmd_setex(
                    db,
                    args[1].as_slice(),
                    args[2].as_slice(),
                    args[3].as_slice(),
                    args[4].as_slice(),
                )?;
            }
            Ok(RespBody::new_ok())
        },
        Command::Get => Ok(RespBody::Bulk(cmd_get(db, args[1].as_slice())?)),
        Command::Rpush => {
            let len: i64 = cmd_rpush(db, args[1].as_slice(), args[2].as_slice())?;
            Ok(RespBody::Integer(len))
        },
    }
}

/// The words from index `at` on, with a space between each two.
fn join_words(args: &[Vec<u8>], at: usize) -> (r: Vec<u8>)
    requires
        at <= args@.len(),
    ensures
        r@ == spaced(text::arg_views(args@).skip(at as int)),
{
    let ghost words = text::arg_views(args@).skip(at as int);
    let mut out: Vec<u8> = Vec::new();
    let mut i: usize = at;
    assert(words.take(0) =~= Seq::empty());
    assert(out@ =~= spaced(words.take(0)));
    while i < args.len()
        invariant
            at <= i <= args@.len(),
            words == text::arg_views(args@).skip(at as int),
            out@ == spaced(words.take(i - at)),
        decreases args@.len() - i,
    {
        let ghost next = words.take(i + 1 - at);
        assert(next.drop_last() =~= words.take(i - at));
        assert(next.last() == args@[i as int]@);
        if i > at {
            out.push(32);
        }
        text::push_bytes(&mut out, args[i].as_slice());
        assert(out@ =~= spaced(next));
        i += 1;
    }
    assert(words.take(i - at) =~= words);
    out
}

fn cmd_rpush(db: &mut Db, key: &[u8], elem: &[u8]) -> (r: Result<i64, CommandError>)
    requires
        old(db).wf(),
    ensures
        final(db).wf(),
        final(db)@ == old(db)@.list_append(key@, seq![elem@]),
        match r {
            Ok(n) => old(db)@.list_or_empty(key@) matches Ok(list) && n == (list.len() + 1) as i64,
            Err(e) => old(db)@.list_or_empty(key@) == Err::<Seq<Seq<u8>>, _>(e@),
        },
{
    let mut elems: Vec<Value> = Vec::new();
    elems.push(Value::from(elem));
    assert(object::values_view(elems@) =~= seq![elem@]);
    db.list_append(Key::from(key), elems)
}

fn cmd_get(db: &mut Db, key: &[u8]) -> (r: Result<Option<Vec<u8>>, CommandError>)
    requires
        old(db).wf(),
    ensures
        final(db).wf(),
        final(db)@ == old(db)@.lapsed(key@),
        match r {
            Ok(Some(value)) => final(db)@.string_at(key@) == Ok::<_, ErrorView>(Some(value@)),
            Ok(None) => final(db)@.string_at(key@) == Ok::<Option<Seq<u8>>, ErrorView>(None),
            Err(e) => final(db)@.string_at(key@) == Err::<Option<Seq<u8>>, _>(e@),
        },
{
    let key: Key = Key::from(key);
    match db.as_string(&key)? {
        Some(value) => Ok(Some(Vec::<u8>::from(value))),
        None => Ok(None),
    }
}

fn cmd_setex(db: &mut Db, key: &[u8], value: &[u8], exp_cmd: &[u8], exp: &[u8]) -> (r: Result<
    (),
    CommandError,
>)
    requires
        old(db).wf(),
    ensures
        final(db).wf(),
        match whole_ttl(exp_cmd@, exp@) {
            Ok(ttl) => r is Ok && final(db)@ == old(db)@.setex(
                key@,
                value@,
                Some(old(db)@.now.plus(ttl)),
            ),
            Err(e) => r matches Err(err) && err@ == e && final(db)@ == old(db)@,
        },
{
    let unit = match ExpCmd::from_bytes(exp_cmd) {
        Some(unit) => unit,
        None => {
            return Err(CommandError::Unknown(text::show(exp_cmd)));
        },
    };
    let number: u64 = match text::parse_unsigned(exp, u64::MAX) {
        Some(n) => n,
        None => {
            return Err(CommandError::WrongNumber(text::show(exp)));
        },
    };
    let ms: u64 = match unit {
        ExpCmd::Px => number,
        ExpCmd::Ex => match number.checked_mul(1000) {
            Some(ms) => ms,
            None => {
                return Err(CommandError::WrongNumber(text::show(exp)));
            },
        },
    };
    let at: Duration = db.realtime_ms().saturating_add(Duration::from_millis(ms));
    db.setex(Key::from(key), Value::from(value), Some(at));
    Ok(())
}

fn cmd_set(db: &mut Db, key: &[u8], value: &[u8])
    requires
        old(db).wf(),
    ensures
        final(db).wf(),
        final(db)@ == old(db)@.setex(key@, value@, None),
{
    db.setex(Key::from(key), Value::from(value), None);
}

/// What a request is answered as any other, where that is at once.
pub open spec fn as_any_other(
    db: DbView,
    args: Seq<Seq<u8>>,
    kind: kind::CommandKind,
    by: answers::Sender,
) -> (DbView, Result<RespView, ErrorView>) {
    let (after, r) = answers::run(db, kind, args, by);
    (
        after,
        match r {
            Ok((ReplyView::Now(body, _), _)) => Ok(body),
            Ok(_) => Err(ErrorView::Unknown(Seq::empty())),
            Err(e) => Err(e),
        },
    )
}

/// Law: PING, GET, SET without a time, and RPUSH of one element do and answer what
/// they do and answer elsewhere.
pub proof fn law_set_agrees(db: DbView, args: Seq<Seq<u8>>, by: answers::Sender)
    ensures
        args.len() == 1 && model::is_word(args[0], "PING"@) ==> dispatched(db, args)
            == as_any_other(db, args, kind::CommandKind::Ping, by),
        args.len() == 2 && command_of(args[0]) == Some(Command::Get) ==> dispatched(db, args)
            == as_any_other(db, args, kind::CommandKind::Get, by),
        args.len() == 3 && command_of(args[0]) == Some(Command::SetKey) ==> dispatched(db, args)
            == as_any_other(db, args, kind::CommandKind::SetKey, by),
        args.len() == 3 && command_of(args[0]) == Some(Command::Rpush) ==> dispatched(db, args)
            == as_any_other(db, args, kind::CommandKind::Rpush, by),
{
    if args.len() == 3 {
        assert(args.skip(2) =~= seq![args[2]]);
    }
}

/// Law: a command of the set is reached by its name, in capitals or not, and by no
/// other word.
pub proof fn law_set_goes_by_name(b: Seq<u8>)
    ensures
        command_of(b) == match kind::kind_of(b) {
            Some(kind::CommandKind::Ping) => Some(Command::Ping),
            Some(kind::CommandKind::Echo) => Some(Command::Echo),
            Some(kind::CommandKind::SetKey) => Some(Command::SetKey),
            Some(kind::CommandKind::Get) => Some(Command::Get),
            Some(kind::CommandKind::Rpush) => Some(Command::Rpush),
            _ => None::<Command>,
        },
{
    command::laws::law_commands_go_by_name(b, kind::CommandKind::Ping);
    command::laws::law_commands_go_by_name(b, kind::CommandKind::Echo);
    command::laws::law_commands_go_by_name(b, kind::CommandKind::SetKey);
    command::laws::law_commands_go_by_name(b, kind::CommandKind::Get);
    command::laws::law_commands_go_by_name(b, kind::CommandKind::Rpush);
}

/// Law: SET with a unit and a whole number has the key expire so many seconds or
/// milliseconds from now; what is no unit, no whole number, or too long is refused.
pub proof fn law_set_with_a_time(db: DbView, args: Seq<Seq<u8>>)
    requires
        args.len() >= 5,
        command_of(args[0]) == Some(Command::SetKey),
    ensures
        ({
            let (after, r) = dispatched(db, args);
            let seconds = text::same_ignoring_case(args[3], encode_utf8("EX"@));
            let millis = text::same_ignoring_case(args[3], encode_utf8("PX"@));
            let factor: int = if seconds {
                1000
            } else {
                1
            };
            if !seconds && !millis {
                after == db && r == Err::<RespView, _>(ErrorView::Unknown(text::shown(args[3])))
            } else {
                match text::unsigned_value(args[4]) {
                    Some(n) => if n * factor <= 0xffff_ffff_ffff_ffff {
                        &&& r == Ok::<_, ErrorView>(RespView::Simple("OK"@))
                        &&& answers::stored(after, args[1]) == Some(ObjectView::String(args[2]))
                        &&& answers::same_but(db, after, args[1])
                        &&& db.now.nanos + n * factor * 1_000_000 <= u128::MAX ==> after.expires
                            == db.expires.insert(
                            args[1],
                            Duration { nanos: (db.now.nanos + n * factor * 1_000_000) as u128 },
                        )
                    } else {
                        after == db && r == Err::<RespView, _>(
                            ErrorView::WrongNumber(text::shown(args[4])),
                        )
                    },
                    None => after == db && r == Err::<RespView, _>(
                        ErrorView::WrongNumber(text::shown(args[4])),
                    ),
                }
            }
        }),
{
}

/// Law: ECHO repeats all the words behind it, with a space between any two.
pub proof fn law_echo_repeats(db: DbView, args: Seq<Seq<u8>>)
    requires
        args.len() >= 1,
        command_of(args[0]) == Some(Command::Echo),
    ensures
        args.len() == 1 ==> dispatched(db, args) == (
            db,
            Ok::<_, ErrorView>(RespView::Bulk(Some(Seq::empty()))),
        ),
        args.len() == 2 ==> dispatched(db, args) == (
            db,
            Ok::<_, ErrorView>(RespView::Bulk(Some(args[1]))),
        ),
        args.len() > 2 ==> {
            &&& dispatched(db, args.drop_last()).1 matches Ok(RespView::Bulk(Some(front)))
            &&& dispatched(db, args) == (
                db,
                Ok::<_, ErrorView>(RespView::Bulk(Some(front + encode_utf8(" "@) + args.last()))),
            )
        },
{
    reveal_strlit(" ");
    is_ascii_chars_encode_utf8(" "@);
    assert(" "@[0] as u8 == encode_utf8(" "@)[0]);
    assert(encode_utf8(" "@) =~= seq![32u8]);
    if args.len() > 2 {
        assert(args.drop_last().skip(1) =~= args.skip(1).drop_last());
        assert(args.drop_last()[0] == args[0]);
    }
}

} // verus!
