//! What the command families share.
use vstd::prelude::*;
use crate::client::{ClientId, ClientMode};
use crate::command::model;
use crate::db::{Db, Key};
use crate::double;
use crate::networking::info::ServerInfo;
use crate::resp;
use crate::resp::{Reply, ReplyView, RespBody, RespView};
use crate::text;
use crate::time::Duration;

verus! {

/// Why a request was refused.
#[derive(Debug)]
pub enum CommandError {
    Unknown(String),
    WrongArity(String, String),
    WrongNumber(String),
    ParseStream(String),
    InvalidStream,
    InvalidStreamZero,
    WrongType(String),
    NotAnInteger,
    ExecTransaction,
    DiscardTransaction,
    WatchTransaction,
    SlaveUnsupported,
    Info(String),
}

/// A [`CommandError`] with its strings as character sequences.
#[verifier::ext_equal]
pub enum ErrorView {
    Unknown(Seq<char>),
    WrongArity(Seq<char>, Seq<char>),
    WrongNumber(Seq<char>),
    ParseStream(Seq<char>),
    InvalidStream,
    InvalidStreamZero,
    WrongType(Seq<char>),
    NotAnInteger,
    ExecTransaction,
    DiscardTransaction,
    WatchTransaction,
    SlaveUnsupported,
    Info(Seq<char>),
}

impl View for CommandError {
    type V = ErrorView;

    open spec fn view(&self) -> ErrorView {
        match self {
            CommandError::Unknown(s) => ErrorView::Unknown(s@),
            CommandError::WrongArity(s, t) => ErrorView::WrongArity(s@, t@),
            CommandError::WrongNumber(s) => ErrorView::WrongNumber(s@),
            CommandError::ParseStream(s) => ErrorView::ParseStream(s@),
            CommandError::InvalidStream => ErrorView::InvalidStream,
            CommandError::InvalidStreamZero => ErrorView::InvalidStreamZero,
            CommandError::WrongType(s) => ErrorView::WrongType(s@),
            CommandError::NotAnInteger => ErrorView::NotAnInteger,
            CommandError::ExecTransaction => ErrorView::ExecTransaction,
            CommandError::DiscardTransaction => ErrorView::DiscardTransaction,
            CommandError::WatchTransaction => ErrorView::WatchTransaction,
            CommandError::SlaveUnsupported => ErrorView::SlaveUnsupported,
            CommandError::Info(s) => ErrorView::Info(s@),
        }
    }
}

impl ErrorView {
    /// The text that a client is shown.
    pub open spec fn text(self) -> Seq<char> {
        match self {
            ErrorView::Unknown(s) => "unknown command '"@ + s + "'"@,
            ErrorView::WrongArity(s, t) => "wrong number of arguments for '"@ + s
                + "', expected: '"@ + t + "'"@,
            ErrorView::WrongNumber(s) => "wrong argument format: expected number. actual '"@ + s
                + "'"@,
            ErrorView::ParseStream(s) =>
            "wrong argument format, could not parse stream: expected stream. actual '"@ + s + "'"@,
            ErrorView::InvalidStream =>
            "The ID specified in XADD is equal or smaller than the target stream top item"@,
            ErrorView::InvalidStreamZero => "The ID specified in XADD must be greater than 0-0"@,
            ErrorView::WrongType(s) => "key already exist with different type, expected: '"@ + s
                + "'"@,
            ErrorView::NotAnInteger => "value is not an integer or out of range"@,
            ErrorView::ExecTransaction => "EXEC without MULTI"@,
            ErrorView::DiscardTransaction => "DISCARD without MULTI"@,
            ErrorView::WatchTransaction => "WATCH inside MULTI is not allowed"@,
            ErrorView::SlaveUnsupported => "replication commands are not allowed inside MULTI"@,
            ErrorView::Info(s) => "unknown INFO section '"@ + s + "'"@,
        }
    }
}

/// `prefix`, then `middle`, then a closing quote.
fn quoted(prefix: &str, middle: &str) -> (r: String)
    ensures
        r@ == prefix@ + middle@ + "'"@,
{
    prefix.to_owned().concat(middle).concat("'")
}

impl CommandError {
    /// The text that a client is shown.
    pub fn message(&self) -> (r: String)
        ensures
            r@ == self@.text(),
    {
        match self {
            CommandError::Unknown(s) => quoted("unknown command '", s.as_str()),
            CommandError::WrongArity(s, t) => {
                let head: String = "wrong number of arguments for '".to_owned().concat(s.as_str());
                head.concat("', expected: '").concat(t.as_str()).concat("'")
            },
            CommandError::WrongNumber(s) => quoted(
                "wrong argument format: expected number. actual '",
                s.as_str(),
            ),
            CommandError::ParseStream(s) => quoted(
                "wrong argument format, could not parse stream: expected stream. actual '",
                s.as_str(),
            ),
            CommandError::InvalidStream =>
            "The ID specified in XADD is equal or smaller than the target stream top item".to_owned(),
            CommandError::InvalidStreamZero =>
            "The ID specified in XADD must be greater than 0-0".to_owned(),
            CommandError::WrongType(s) => quoted(
                "key already exist with different type, expected: '",
                s.as_str(),
            ),
            CommandError::NotAnInteger => "value is not an integer or out of range".to_owned(),
            CommandError::ExecTransaction => "EXEC without MULTI".to_owned(),
            CommandError::DiscardTransaction => "DISCARD without MULTI".to_owned(),
            CommandError::WatchTransaction => "WATCH inside MULTI is not allowed".to_owned(),
            CommandError::SlaveUnsupported =>
            "replication commands are not allowed inside MULTI".to_owned(),
            CommandError::Info(s) => quoted("unknown INFO section '", s.as_str()),
        }
    }
}

/// The reply of a command, or why it was refused.
pub type HandleCmdResult = Result<Reply, CommandError>;

pub open spec fn result_view(r: HandleCmdResult) -> Result<ReplyView, ErrorView> {
    match r {
        Ok(reply) => Ok(reply@),
        Err(e) => Err(e@),
    }
}

/// Whether a command waits for something to read.
#[derive(Clone, Copy, Debug)]
pub enum BlockMode {
    NotBlocking,
    Forever,
    Timeout(Duration),
}

/// The unit of a time to live: seconds or milliseconds.
#[derive(Clone, Copy, Debug, PartialEq, Eq, Structural)]
pub enum ExpCmd {
    Ex,
    Px,
}

impl ExpCmd {
    pub fn from_bytes(value: &[u8]) -> (r: Option<Self>)
        ensures
            r == model::exp_cmd(value@),
    {
        if is_word(value, "EX") {
            Some(ExpCmd::Ex)
        } else if is_word(value, "PX") {
            Some(ExpCmd::Px)
        } else {
            None
        }
    }
}

/// Whether `value` is the word `name`, in capitals or not.
pub fn is_word(value: &[u8], name: &str) -> (r: bool)
    ensures
        r == model::is_word(value@, name@),
{
    text::eq_ignore_case(value, name.as_bytes())
}

/// The contents of an optional argument.
pub open spec fn opt_view(arg: Option<&[u8]>) -> Option<Seq<u8>> {
    match arg {
        Some(b) => Some(b@),
        None => None,
    }
}

/// A time to live, in the unit of `cmd`. Fractions count in double precision;
/// what is left of a millisecond is cut off, and nothing is less than zero.
pub fn get_ttl(cmd: &ExpCmd, exp: Option<&[u8]>) -> (r: Result<Option<Duration>, CommandError>)
    ensures
        match r {
            Ok(ttl) => model::ttl(*cmd, opt_view(exp)) == Ok::<_, ErrorView>(ttl),
            Err(e) => model::ttl(*cmd, opt_view(exp)) == Err::<Option<Duration>, _>(e@),
        },
{
    match exp {
        None => Ok(None),
        Some(b) => {
            let thousandfold: bool = match cmd {
                ExpCmd::Ex => true,
                ExpCmd::Px => false,
            };
            match double::parse_count(b, thousandfold) {
                Some(ms) => Ok(Some(Duration::from_millis(ms))),
                None => Err(CommandError::WrongNumber(text::show(b))),
            }
        },
    }
}

/// The time to live among the options of SET.
pub fn parse_ttl(exp_cmd: Option<&[u8]>, exp: Option<&[u8]>) -> (r: Result<
    Option<Duration>,
    CommandError,
>)
    ensures
        match r {
            Ok(ttl) => model::set_ttl(opt_view(exp_cmd), opt_view(exp)) == Ok::<_, ErrorView>(ttl),
            Err(e) => model::set_ttl(opt_view(exp_cmd), opt_view(exp)) == Err::<
                Option<Duration>,
                _,
            >(e@),
        },
{
    match (exp_cmd, exp) {
        (Some(unit), Some(exp)) => match ExpCmd::from_bytes(unit) {
            Some(cmd) => get_ttl(&cmd, Some(exp)),
            None => Err(CommandError::Unknown(text::show(unit))),
        },
        _ => Ok(None),
    }
}

// ---------------------------------------------------------------
// Transactions
// ---------------------------------------------------------------

/// EXEC outside of a transaction is refused; inside, it has no replies yet.
pub fn exec(db: &mut Db, mode: ClientMode) -> (r: HandleCmdResult)
    ensures
        *final(db) == *old(db),
        result_view(r) == (if mode == ClientMode::Transaction {
            Ok(model::readonly(RespView::Array(None)))
        } else {
            Err(ErrorView::ExecTransaction)
        }),
{
    if mode != ClientMode::Transaction {
        return Err(CommandError::ExecTransaction);
    }
    Ok(Reply::readonly(RespBody::Array(None)))
}

/// The request itself, for the queue of a transaction.
pub fn get_initial_request(elems: Vec<Vec<u8>>) -> (r: Reply)
    ensures
        r@ == ReplyView::AddTransaction(resp::bulk_array(text::arg_views(elems@))),
{
    Reply::AddTransaction(resp::bulk_request(elems))
}

/// EXEC: the queue is to be run, or dropped where a watched key was touched.
pub fn execute_transaction(db: &Db, client_id: ClientId) -> (r: Reply)
    requires
        db.wf(),
    ensures
        r@ == model::execute_transaction(db@, client_id),
{
    if db.is_dirty(client_id) {
        Reply::DiscardTransaction(Some(RespBody::Array(None)))
    } else {
        Reply::ExecTransaction
    }
}

pub fn watch_keys(db: &mut Db, client_id: ClientId, keys: &[Vec<u8>]) -> (r: Reply)
    requires
        old(db).wf(),
    ensures
        final(db).wf(),
        (final(db)@, result_view(Ok(r))) == model::watch_keys(
            old(db)@,
            client_id,
            text::arg_views(keys@),
        ),
{
    let mut watched: Vec<Key> = Vec::new();
    let mut i: usize = 0;
    while i < keys.len()
        invariant
            i <= keys@.len(),
            watched@.len() == i,
            forall|j: int| 0 <= j < i ==> (#[trigger] watched@[j])@ == keys@[j]@,
        decreases keys@.len() - i,
    {
        watched.push(Key::from(keys[i].as_slice()));
        i += 1;
    }
    assert(watched@.map_values(|key: Key| key@) =~= text::arg_views(keys@));
    db.add_watchers(watched, client_id);
    Reply::readonly(RespBody::new_ok())
}

pub fn unwatch(db: &mut Db, client_id: ClientId) -> (r: Reply)
    requires
        old(db).wf(),
    ensures
        final(db).wf(),
        (final(db)@, result_view(Ok(r))) == model::unwatch(old(db)@, client_id),
{
    db.remove_watcher(client_id);
    Reply::readonly(RespBody::new_ok())
}

// ---------------------------------------------------------------
// The server
// ---------------------------------------------------------------

/// The sections of INFO.
#[derive(Clone, Copy, Debug, PartialEq, Eq, Structural)]
pub enum InfoSection {
    Replication,
}

impl InfoSection {
    pub fn from_bytes(value: &[u8]) -> (r: Result<Self, CommandError>)
        ensures
            match r {
                Ok(_) => model::is_word(value@, "REPLICATION"@),
                Err(e) => !model::is_word(value@, "REPLICATION"@) && e@ == ErrorView::Info(
                    text::shown(value@),
                ),
            },
    {
        if is_word(value, "REPLICATION") {
            Ok(InfoSection::Replication)
        } else {
            Err(CommandError::Info(text::show(value)))
        }
    }
}

/// The lines of INFO on replication.
fn info_replication(info: &ServerInfo) -> (r: String)
    ensures
        r@ == model::replication_text(info@),
{
    let slaves: String = text::decimal_string(info.connected_slaves() as u64);
    let offset: String = text::signed_string(info.master_repl_offset());
    let role: String = "role:".to_owned().concat(info.role().as_str());
    let counted: String = role.concat("\r\nconnected_slaves:").concat(slaves.as_str());
    let named: String = counted.concat("\r\nmaster_replid:").concat(info.master_replid().as_str());
    named.concat("\r\nmaster_repl_offset:").concat(offset.as_str())
}

pub fn info(section: Option<&[u8]>, server: &ServerInfo) -> (r: HandleCmdResult)
    ensures
        result_view(r) == model::info(opt_view(section), server@),
{
    if let Some(name) = section {
        let _ = InfoSection::from_bytes(name)?;
    }
    let lines: String = info_replication(server);
    Ok(Reply::readonly(RespBody::from(lines.as_str())))
}

} // verus!
