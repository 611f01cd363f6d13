//! Commands: from a request to a reply.
pub mod answers;
pub mod common;
pub mod kind;
pub mod laws;
pub mod list;
pub mod model;
pub mod session_answers;
pub mod stream;
pub mod stream_answers;
pub mod string;

pub use common::CommandError;
pub use kind::CommandKind;

use vstd::prelude::*;
use crate::client::{ClientId, ClientMode, PeerRole};
use crate::command::common::ErrorView;
use crate::command::list::Side;
use crate::db::Db;
use crate::networking::info::ServerInfo;
use crate::resp;
use crate::resp::{Propagate, Reply, ReplyView, RespBody, RespView};
use crate::text;

verus! {

/// What a command knows of the connection that sent it.
#[derive(Clone, Copy)]
pub struct ClientInfo<'a> {
    pub id: ClientId,
    pub mode: ClientMode,
    pub role: PeerRole,
    pub server_info: &'a ServerInfo,
    pub allow_block: bool,
}

impl<'a> ClientInfo<'a> {
    pub fn new(
        id: ClientId,
        mode: ClientMode,
        role: PeerRole,
        server_info: &'a ServerInfo,
        allow_block: bool,
    ) -> (r: Self)
        ensures
            r == (ClientInfo { id, mode, role, server_info, allow_block }),
    {
        Self { id, mode, role, server_info, allow_block }
    }
}

/// A request on its way to the database.
pub struct Command<'a> {
    kind: CommandKind,
    pub client: ClientInfo<'a>,
    args: Vec<Vec<u8>>,
}

/// A reply, and what goes on to the replicas.
pub type ExecuteResult = Result<(Reply, Option<RespBody>), CommandError>;

pub open spec fn execute_view(r: ExecuteResult) -> Result<
    (ReplyView, Option<RespView>),
    ErrorView,
> {
    match r {
        Ok((reply, Some(body))) => Ok((reply@, Some(body@))),
        Ok((reply, None)) => Ok((reply@, None)),
        Err(e) => Err(e@),
    }
}

impl<'a> Command<'a> {
    pub closed spec fn sender(self) -> ClientInfo<'a> {
        self.client
    }

    pub closed spec fn spec_kind(self) -> CommandKind {
        self.kind
    }

    /// The words of the request, its name among them.
    pub closed spec fn words(self) -> Seq<Seq<u8>> {
        text::arg_views(self.args@)
    }

    /// There are as many words as the kind asks for.
    pub open spec fn wf(self) -> bool {
        self.words().len() > 0 && kind::fits(
            self.spec_kind().spec_arity(),
            self.words().len() as int,
        )
    }

    pub fn new(frame: RespBody, client: ClientInfo<'a>) -> (r: Result<Self, CommandError>)
        ensures
            match r {
                Ok(cmd) => {
                    &&& cmd.wf()
                    &&& cmd.sender() == client
                    &&& model::parsed(frame@) == Ok::<_, ErrorView>((cmd.spec_kind(), cmd.words()))
                },
                Err(e) => model::parsed(frame@) == Err::<(CommandKind, Seq<Seq<u8>>), _>(e@),
            },
    {
        match frame.into_args() {
            None => Err(unnamed()),
            Some(args) => {
                if args.len() == 0 {
                    return Err(unnamed());
                }
                assert(text::arg_views(args@)[0] == args@[0]@);
                let kind = CommandKind::new(args.len(), args[0].as_slice())?;
                Ok(Command { kind, client, args })
            },
        }
    }

    /// Runs the request, or queues it where the connection is in a transaction.
    /// Its words are used up.
    pub fn execute(&mut self, db: &mut Db) -> (r: ExecuteResult)
        requires
            old(self).wf(),
            old(db).wf(),
        ensures
            final(db).wf(),
            final(self).spec_kind() == old(self).spec_kind(),
            final(self).sender() == old(self).sender(),
            final(self).words() == Seq::<Seq<u8>>::empty(),
            (final(db)@, execute_view(r)) == model::execute(
                old(db)@,
                old(self).spec_kind(),
                old(self).words(),
                old(self).sender().id,
                old(self).sender().mode,
                old(self).sender().allow_block,
                old(self).sender().server_info@,
            ),
    {
        let mut args: Vec<Vec<u8>> = Vec::new();
        std::mem::swap(&mut args, &mut self.args);
        assert(self.words() =~= Seq::<Seq<u8>>::empty());
        match self.client.mode {
            ClientMode::Normal => self.handle_normal_mode(db, args),
            ClientMode::Transaction => self.handle_transaction_mode(db, args),
        }
    }

    fn handle_transaction_mode(&self, db: &mut Db, args: Vec<Vec<u8>>) -> (r: ExecuteResult)
        requires
            old(db).wf(),
        ensures
            final(db).wf(),
            (final(db)@, execute_view(r)) == model::execute(
                old(db)@,
                self.kind,
                text::arg_views(args@),
                self.client.id,
                ClientMode::Transaction,
                self.client.allow_block,
                self.client.server_info@,
            ),
    {
        let reply: Reply = match self.kind {
            CommandKind::Info => common::info(opt_arg(&args, 1), self.client.server_info)?,
            CommandKind::Exec => common::execute_transaction(&*db, self.client.id),
            CommandKind::Multi => {
                return Err(CommandError::ExecTransaction);
            },
            CommandKind::Discard => Reply::DiscardTransaction(None),
            CommandKind::Watch | CommandKind::Unwatch => {
                return Err(CommandError::WatchTransaction);
            },
            CommandKind::Replconf | CommandKind::Psync => {
                return Err(CommandError::SlaveUnsupported);
            },
            _ => common::get_initial_request(args),
        };
        Ok((reply, None))
    }

    fn handle_normal_mode(&self, db: &mut Db, args: Vec<Vec<u8>>) -> (r: ExecuteResult)
        requires
            old(db).wf(),
            kind::fits(self.kind.spec_arity(), args@.len() as int),
        ensures
            final(db).wf(),
            (final(db)@, execute_view(r)) == model::execute(
                old(db)@,
                self.kind,
                text::arg_views(args@),
                self.client.id,
                ClientMode::Normal,
                self.client.allow_block,
                self.client.server_info@,
            ),
    {
        let reply = self.run(db, &args)?;
        let writes: bool = match &reply {
            Reply::Now(_, propagate) => match propagate {
                Propagate::Replicate => true,
                Propagate::Skip => false,
            },
            _ => false,
        };
        if writes {
            Ok((reply, Some(resp::bulk_request(args))))
        } else {
            Ok((reply, None))
        }
    }

    fn run(&self, db: &mut Db, args: &Vec<Vec<u8>>) -> (r: Result<Reply, CommandError>)
        requires
            old(db).wf(),
            kind::fits(self.kind.spec_arity(), args@.len() as int),
        ensures
            final(db).wf(),
            (final(db)@, common::result_view(r)) == model::run_normal(
                old(db)@,
                self.kind,
                text::arg_views(args@),
                self.client.id,
                self.client.allow_block,
                self.client.server_info@,
            ),
    {
        let id = self.client.id;
        let ghost views = text::arg_views(args@);
        assert forall|i: int| 0 <= i < args@.len() implies #[trigger] views[i] == args@[i]@ by {}
        match self.kind {
            CommandKind::Info => common::info(opt_arg(args, 1), self.client.server_info),
            CommandKind::Ping => Ok(cmd_ping()),
            CommandKind::Echo => Ok(cmd_echo(args[1].as_slice())),
            CommandKind::Get => string::get(db, args[1].as_slice()),
            CommandKind::SetKey => string::set(
                db,
                args[1].as_slice(),
                args[2].as_slice(),
                opt_arg(args, 3),
                opt_arg(args, 4),
            ),
            CommandKind::Lpush => list::push(
                db,
                &Side::Front,
                args[1].as_slice(),
                args_from(args, 2),
            ),
            CommandKind::Rpush => list::push(
                db,
                &Side::Back,
                args[1].as_slice(),
                args_from(args, 2),
            ),
            CommandKind::Llen => list::llen(db, args[1].as_slice()),
            CommandKind::Lpop => list::lpop(db, args[1].as_slice(), opt_arg(args, 2)),
            CommandKind::Lrange => list::lrange(
                db,
                args[1].as_slice(),
                args[2].as_slice(),
                args[3].as_slice(),
            ),
            CommandKind::Blpop => if self.client.allow_block {
                list::blpop(db, args[1].as_slice(), opt_arg(args, 2), id)
            } else {
                list::blpop_now(db, args[1].as_slice(), opt_arg(args, 2), id)
            },
            CommandKind::Type => Ok(string::cmd_type(db, args[1].as_slice())),
            CommandKind::Xadd => stream::xadd(
                db,
                args[1].as_slice(),
                args[2].as_slice(),
                args_from(args, 3),
            ),
            CommandKind::Xrange => stream::xrange(
                db,
                args[1].as_slice(),
                args[2].as_slice(),
                args[3].as_slice(),
            ),
            CommandKind::Xread => if self.client.allow_block {
                stream::xread(db, id, args_from(args, 1))
            } else {
                stream::xread_now(db, id, args_from(args, 1))
            },
            CommandKind::Incr => string::incr(db, args[1].as_slice()),
            CommandKind::Multi => Ok(Reply::StartTransaction),
            CommandKind::Exec => Err(CommandError::ExecTransaction),
            CommandKind::Discard => Err(CommandError::DiscardTransaction),
            CommandKind::Watch => Ok(common::watch_keys(db, id, args_from(args, 1))),
            CommandKind::Unwatch => Ok(common::unwatch(db, id)),
            CommandKind::Replconf => Ok(repl_conf()),
            CommandKind::Psync => Ok(psync()),
        }
    }
}

/// A request without a name.
fn unnamed() -> (r: CommandError)
    ensures
        r@ == ErrorView::Unknown(Seq::empty()),
{
    let none: Vec<u8> = Vec::new();
    assert(none@ =~= Seq::empty());
    let text = text::ascii_string(none.as_slice());
    assert(text@ =~= Seq::empty());
    CommandError::Unknown(text)
}

/// The word at index `i`, if there is one.
fn opt_arg(args: &Vec<Vec<u8>>, i: usize) -> (r: Option<&[u8]>)
    ensures
        common::opt_view(r) == model::opt_arg(text::arg_views(args@), i as int),
{
    if i < args.len() {
        Some(args[i].as_slice())
    } else {
        None
    }
}

/// The words from index `i` on.
fn args_from(args: &Vec<Vec<u8>>, i: usize) -> (r: &[Vec<u8>])
    requires
        i <= args@.len(),
    ensures
        text::arg_views(r@) == text::arg_views(args@).skip(i as int),
{
    let r = vstd::slice::slice_subrange(args.as_slice(), i, args.len());
    assert(text::arg_views(r@) =~= text::arg_views(args@).skip(i as int));
    r
}

fn psync() -> (r: Reply)
    ensures
        r@ == model::readonly(RespView::Simple("FULLRESYNC <REPL_ID> 0"@)),
{
    Reply::readonly(RespBody::Simple("FULLRESYNC <REPL_ID> 0".to_owned()))
}

fn repl_conf() -> (r: Reply)
    ensures
        r@ == model::readonly(model::ok_body()),
{
    Reply::readonly(RespBody::new_ok())
}

fn cmd_ping() -> (r: Reply)
    ensures
        r@ == model::readonly(RespView::Simple("PONG"@)),
{
    Reply::readonly(RespBody::Simple("PONG".to_owned()))
}

fn cmd_echo(arg: &[u8]) -> (r: Reply)
    ensures
        r@ == model::readonly(RespView::Bulk(Some(arg@))),
{
    Reply::readonly(RespBody::Bulk(Some(vstd::slice::slice_to_vec(arg))))
}

} // verus!
