//! The commands by name.
use vstd::prelude::*;
use crate::command::common::{is_word, CommandError, ErrorView};
use crate::command::model;
use crate::text;

verus! {

/// The commands that the server knows.
#[derive(Clone, Copy, Debug, PartialEq, Eq, Structural)]
pub enum CommandKind {
    Info,
    Ping,
    Echo,
    SetKey,
    Get,
    Rpush,
    Lpush,
    Lrange,
    Llen,
    Lpop,
    Blpop,
    Type,
    Xadd,
    Xrange,
    Xread,
    Incr,
    Multi,
    Exec,
    Discard,
    Watch,
    Unwatch,
    Replconf,
    Psync,
}

/// The kind of command that `b` names, in capitals or not.
pub open spec fn kind_of(b: Seq<u8>) -> Option<CommandKind> {
    if model::is_word(b, "INFO"@) {
        Some(CommandKind::Info)
    } else if model::is_word(b, "PING"@) {
        Some(CommandKind::Ping)
    } else if model::is_word(b, "ECHO"@) {
        Some(CommandKind::Echo)
    } else if model::is_word(b, "SET"@) {
        Some(CommandKind::SetKey)
    } else if model::is_word(b, "GET"@) {
        Some(CommandKind::Get)
    } else if model::is_word(b, "RPUSH"@) {
        Some(CommandKind::Rpush)
    } else if model::is_word(b, "LPUSH"@) {
        Some(CommandKind::Lpush)
    } else if model::is_word(b, "LRANGE"@) {
        Some(CommandKind::Lrange)
    } else if model::is_word(b, "LLEN"@) {
        Some(CommandKind::Llen)
    } else if model::is_word(b, "LPOP"@) {
        Some(CommandKind::Lpop)
    } else if model::is_word(b, "BLPOP"@) {
        Some(CommandKind::Blpop)
    } else if model::is_word(b, "TYPE"@) {
        Some(CommandKind::Type)
    } else if model::is_word(b, "XADD"@) {
        Some(CommandKind::Xadd)
    } else if model::is_word(b, "XRANGE"@) {
        Some(CommandKind::Xrange)
    } else if model::is_word(b, "XREAD"@) {
        Some(CommandKind::Xread)
    } else if model::is_word(b, "INCR"@) {
        Some(CommandKind::Incr)
    } else if model::is_word(b, "MULTI"@) {
        Some(CommandKind::Multi)
    } else if model::is_word(b, "EXEC"@) {
        Some(CommandKind::Exec)
    } else if model::is_word(b, "DISCARD"@) {
        Some(CommandKind::Discard)
    } else if model::is_word(b, "WATCH"@) {
        Some(CommandKind::Watch)
    } else if model::is_word(b, "UNWATCH"@) {
        Some(CommandKind::Unwatch)
    } else if model::is_word(b, "REPLCONF"@) {
        Some(CommandKind::Replconf)
    } else if model::is_word(b, "PSYNC"@) {
        Some(CommandKind::Psync)
    } else {
        None
    }
}

/// Whether a request of `argc` words, the name among them, has the right length:
/// just `arity`, or at least `-arity` where that is negative.
pub open spec fn fits(arity: int, argc: int) -> bool {
    if arity > 0 {
        argc == arity
    } else {
        argc >= -arity
    }
}

/// The kind of a request of `argc` words that begins with `name`.
pub open spec fn kind_for(argc: nat, name: Seq<u8>) -> Result<CommandKind, ErrorView> {
    match kind_of(name) {
        None => Err(ErrorView::Unknown(text::shown(name))),
        Some(kind) => if fits(kind.spec_arity(), argc as int) {
            Ok(kind)
        } else {
            Err(ErrorView::WrongArity(kind.name(), text::ascii_chars(text::decimal(argc))))
        },
    }
}

impl CommandKind {
    pub open spec fn name(self) -> Seq<char> {
        match self {
            CommandKind::Info => "INFO"@,
            CommandKind::Ping => "PING"@,
            CommandKind::Echo => "ECHO"@,
            CommandKind::SetKey => "SET"@,
            CommandKind::Get => "GET"@,
            CommandKind::Rpush => "RPUSH"@,
            CommandKind::Lpush => "LPUSH"@,
            CommandKind::Lrange => "LRANGE"@,
            CommandKind::Llen => "LLEN"@,
            CommandKind::Lpop => "LPOP"@,
            CommandKind::Blpop => "BLPOP"@,
            CommandKind::Type => "TYPE"@,
            CommandKind::Xadd => "XADD"@,
            CommandKind::Xrange => "XRANGE"@,
            CommandKind::Xread => "XREAD"@,
            CommandKind::Incr => "INCR"@,
            CommandKind::Multi => "MULTI"@,
            CommandKind::Exec => "EXEC"@,
            CommandKind::Discard => "DISCARD"@,
            CommandKind::Watch => "WATCH"@,
            CommandKind::Unwatch => "UNWATCH"@,
            CommandKind::Replconf => "REPLCONF"@,
            CommandKind::Psync => "PSYNC"@,
        }
    }

    /// How many words a request has: just so many, or at least so many where the
    /// number is negative.
    pub open spec fn spec_arity(self) -> int {
        match self {
            CommandKind::Info => -1,
            CommandKind::Ping => 1,
            CommandKind::Echo => 2,
            CommandKind::SetKey => -3,
            CommandKind::Get => 2,
            CommandKind::Rpush => -3,
            CommandKind::Lpush => -3,
            CommandKind::Lrange => 4,
            CommandKind::Llen => 2,
            CommandKind::Lpop => -2,
            CommandKind::Blpop => -2,
            CommandKind::Type => 2,
            CommandKind::Xadd => 5,
            CommandKind::Xrange => 4,
            CommandKind::Xread => -4,
            CommandKind::Incr => 2,
            CommandKind::Multi => 1,
            CommandKind::Exec => 1,
            CommandKind::Discard => 1,
            CommandKind::Watch => -2,
            CommandKind::Unwatch => 1,
            CommandKind::Replconf => -3,
            CommandKind::Psync => 3,
        }
    }

    pub fn new(argc: usize, value: &[u8]) -> (r: Result<Self, CommandError>)
        ensures
            match r {
                Ok(kind) => kind_for(argc as nat, value@) == Ok::<_, ErrorView>(kind),
                Err(e) => kind_for(argc as nat, value@) == Err::<CommandKind, _>(e@),
            },
    {
        let kind = CommandKind::from_bytes(value)?;
        kind.check_arity(argc)?;
        Ok(kind)
    }

    pub fn arity(self) -> (r: i32)
        ensures
            r == self.spec_arity(),
            r != 0,
            -100 < r < 100,
    {
        match self {
            CommandKind::Info => -1,
            CommandKind::Ping => 1,
            CommandKind::Echo => 2,
            CommandKind::SetKey => -3,
            CommandKind::Get => 2,
            CommandKind::Rpush => -3,
            CommandKind::Lpush => -3,
            CommandKind::Lrange => 4,
            CommandKind::Llen => 2,
            CommandKind::Lpop => -2,
            CommandKind::Blpop => -2,
            CommandKind::Type => 2,
            CommandKind::Xadd => 5,
            CommandKind::Xrange => 4,
            CommandKind::Xread => -4,
            CommandKind::Incr => 2,
            CommandKind::Multi => 1,
            CommandKind::Exec => 1,
            CommandKind::Discard => 1,
            CommandKind::Watch => -2,
            CommandKind::Unwatch => 1,
            CommandKind::Replconf => -3,
            CommandKind::Psync => 3,
        }
    }

    pub fn check_arity(&self, argc: usize) -> (r: Result<(), CommandError>)
        ensures
            match r {
                Ok(_) => fits(self.spec_arity(), argc as int),
                Err(e) => {
                    &&& !fits(self.spec_arity(), argc as int)
                    &&& e@ == ErrorView::WrongArity(
                        self.name(),
                        text::ascii_chars(text::decimal(argc as nat)),
                    )
                },
            },
    {
        let arity: i32 = self.arity();
        let fit: bool = if arity > 0 {
            argc == arity as usize
        } else {
            argc >= (-arity) as usize
        };
        if !fit {
            return Err(
                CommandError::WrongArity(
                    self.as_str().to_owned(),
                    text::decimal_string(argc as u64),
                ),
            );
        }
        Ok(())
    }

    pub fn as_str(&self) -> (r: &'static str)
        ensures
            r@ == self.name(),
    {
        match self {
            CommandKind::Info => "INFO",
            CommandKind::Ping => "PING",
            CommandKind::Echo => "ECHO",
            CommandKind::SetKey => "SET",
            CommandKind::Get => "GET",
            CommandKind::Rpush => "RPUSH",
            CommandKind::Lpush => "LPUSH",
            CommandKind::Lrange => "LRANGE",
            CommandKind::Llen => "LLEN",
            CommandKind::Lpop => "LPOP",
            CommandKind::Blpop => "BLPOP",
            CommandKind::Type => "TYPE",
            CommandKind::Xadd => "XADD",
            CommandKind::Xrange => "XRANGE",
            CommandKind::Xread => "XREAD",
            CommandKind::Incr => "INCR",
            CommandKind::Multi => "MULTI",
            CommandKind::Exec => "EXEC",
            CommandKind::Discard => "DISCARD",
            CommandKind::Watch => "WATCH",
            CommandKind::Unwatch => "UNWATCH",
            CommandKind::Replconf => "REPLCONF",
            CommandKind::Psync => "PSYNC",
        }
    }

    pub fn from_bytes(value: &[u8]) -> (r: Result<Self, CommandError>)
        ensures
            match r {
                Ok(kind) => kind_of(value@) == Some(kind),
                Err(e) => kind_of(value@) is None && e@ == ErrorView::Unknown(text::shown(value@)),
            },
    {
        if is_word(value, "INFO") {
            Ok(CommandKind::Info)
        } else if is_word(value, "PING") {
            Ok(CommandKind::Ping)
        } else if is_word(value, "ECHO") {
            Ok(CommandKind::Echo)
        } else if is_word(value, "SET") {
            Ok(CommandKind::SetKey)
        } else if is_word(value, "GET") {
            Ok(CommandKind::Get)
        } else if is_word(value, "RPUSH") {
            Ok(CommandKind::Rpush)
        } else if is_word(value, "LPUSH") {
            Ok(CommandKind::Lpush)
        } else if is_word(value, "LRANGE") {
            Ok(CommandKind::Lrange)
        } else if is_word(value, "LLEN") {
            Ok(CommandKind::Llen)
        } else if is_word(value, "LPOP") {
            Ok(CommandKind::Lpop)
        } else if is_word(value, "BLPOP") {
            Ok(CommandKind::Blpop)
        } else if is_word(value, "TYPE") {
            Ok(CommandKind::Type)
        } else if is_word(value, "XADD") {
            Ok(CommandKind::Xadd)
        } else if is_word(value, "XRANGE") {
            Ok(CommandKind::Xrange)
        } else if is_word(value, "XREAD") {
            Ok(CommandKind::Xread)
        } else if is_word(value, "INCR") {
            Ok(CommandKind::Incr)
        } else if is_word(value, "MULTI") {
            Ok(CommandKind::Multi)
        } else if is_word(value, "EXEC") {
            Ok(CommandKind::Exec)
        } else if is_word(value, "DISCARD") {
            Ok(CommandKind::Discard)
        } else if is_word(value, "WATCH") {
            Ok(CommandKind::Watch)
        } else if is_word(value, "UNWATCH") {
            Ok(CommandKind::Unwatch)
        } else if is_word(value, "REPLCONF") {
            Ok(CommandKind::Replconf)
        } else if is_word(value, "PSYNC") {
            Ok(CommandKind::Psync)
        } else {
            Err(CommandError::Unknown(text::show(value)))
        }
    }
}

} // verus!
