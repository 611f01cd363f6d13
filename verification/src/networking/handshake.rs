//! How a replica introduces itself to its master.
use vstd::prelude::*;
use vstd::utf8::*;
use crate::command::answers;
use crate::networking::info::NetworkingError;
use crate::resp;
use crate::resp::{RespBody, RespView};
use crate::text;

verus! {

/// How far the handshake has come: what was sent last, and what is awaited.
#[derive(Debug, PartialEq, Eq, Structural, Clone, Copy)]
pub enum Handshake {
    /// PING was sent.
    Ping,
    /// REPLCONF listening-port was sent.
    ListeningPort,
    /// REPLCONF capa was sent.
    Capa,
    /// PSYNC was sent.
    Psync,
    /// The line that announces the snapshot is awaited.
    RdbHeader,
    /// So many bytes of the snapshot are awaited.
    Rdb(usize),
}

/// Why the handshake cannot go on.
#[derive(Debug)]
pub enum HandshakeError {
    Refused(NetworkingError),
    BadRdbHeader,
}

/// What has to be sent when a step begins.
pub open spec fn step_request(step: Handshake, port: u16) -> Option<RespView> {
    match step {
        Handshake::Ping => Some(resp::bulk_array(seq![encode_utf8("PING"@)])),
        Handshake::ListeningPort => Some(
            resp::bulk_array(
                seq![
                    encode_utf8("REPLCONF"@),
                    encode_utf8("listening-port"@),
                    text::decimal(port as nat),
                ],
            ),
        ),
        Handshake::Capa => Some(
            resp::bulk_array(
                seq![encode_utf8("REPLCONF"@), encode_utf8("capa"@), encode_utf8("psync2"@)],
            ),
        ),
        Handshake::Psync => Some(
            resp::bulk_array(seq![encode_utf8("PSYNC"@), encode_utf8("?"@), encode_utf8("-1"@)]),
        ),
        Handshake::RdbHeader => None,
        Handshake::Rdb(_) => None,
    }
}

/// A request of three words.
fn three_words(first: &str, second: &str, third: Vec<u8>) -> (r: RespBody)
    ensures
        r@ == resp::bulk_array(seq![encode_utf8(first@), encode_utf8(second@), third@]),
{
    let mut words: Vec<Vec<u8>> = Vec::new();
    words.push(vstd::slice::slice_to_vec(first.as_bytes()));
    words.push(vstd::slice::slice_to_vec(second.as_bytes()));
    words.push(third);
    assert(text::arg_views(words@) =~= seq![encode_utf8(first@), encode_utf8(second@), third@]);
    resp::bulk_request(words)
}

/// A whitespace character, as Unicode has it.
pub open spec fn is_white(c: char) -> bool {
    let n = c as u32;
    9 <= n <= 13 || n == 0x20 || n == 0x85 || n == 0xa0 || n == 0x1680 || 0x2000 <= n <= 0x200a
        || n == 0x2028 || n == 0x2029 || n == 0x202f || n == 0x205f || n == 0x3000
}

fn white(c: char) -> (r: bool)
    ensures
        r == is_white(c),
{
    let n: u32 = c as u32;
    (9 <= n && n <= 13) || n == 0x20 || n == 0x85 || n == 0xa0 || n == 0x1680 || (0x2000 <= n && n
        <= 0x200a) || n == 0x2028 || n == 0x2029 || n == 0x202f || n == 0x205f || n == 0x3000
}

/// Without the dollar signs in front.
pub open spec fn without_dollars(s: Seq<char>) -> Seq<char>
    decreases s.len(),
{
    if s.len() > 0 && s[0] == '$' {
        without_dollars(s.drop_first())
    } else {
        s
    }
}

/// Without the whitespace at the end.
pub open spec fn without_white(s: Seq<char>) -> Seq<char>
    decreases s.len(),
{
    if s.len() > 0 && is_white(s.last()) {
        without_white(s.drop_last())
    } else {
        s
    }
}

/// The length that the header of a snapshot announces: `$<len>` and a line end.
pub open spec fn rdb_length(line: Seq<char>) -> Option<nat> {
    text::unsigned_within(
        encode_utf8(without_white(without_dollars(line))),
        usize::MAX as nat,
    )
}

/// What is awaited after a line from the master.
pub open spec fn next_step(step: Handshake, line: Seq<char>) -> Result<Handshake, ()> {
    let begins = encode_utf8("+FULLRESYNC "@);
    match step {
        Handshake::Ping => if line == "+PONG\r\n"@ {
            Ok(Handshake::ListeningPort)
        } else {
            Err(())
        },
        Handshake::ListeningPort => if line == "+OK\r\n"@ {
            Ok(Handshake::Capa)
        } else {
            Err(())
        },
        Handshake::Capa => if line == "+OK\r\n"@ {
            Ok(Handshake::Psync)
        } else {
            Err(())
        },
        Handshake::Psync => if begins.is_prefix_of(encode_utf8(line)) {
            Ok(Handshake::RdbHeader)
        } else {
            Err(())
        },
        Handshake::RdbHeader => match rdb_length(line) {
            Some(len) => Ok(Handshake::Rdb(len as usize)),
            None => Err(()),
        },
        Handshake::Rdb(_) => Err(()),
    }
}

/// Whether `s` begins with `head`.
fn begins_with(s: &str, head: &str) -> (r: bool)
    ensures
        r == encode_utf8(head@).is_prefix_of(encode_utf8(s@)),
{
    let bytes = s.as_bytes();
    let want = head.as_bytes();
    if bytes.len() < want.len() {
        return false;
    }
    let front = vstd::slice::slice_subrange(bytes, 0, want.len());
    let r: bool = text::bytes_eq(front, want);
    assert(r == want@.is_prefix_of(bytes@)) by {
        assert(front@ == bytes@.subrange(0, want@.len() as int));
    }
    r
}

/// A text with another character than digits and signs is no number.
proof fn lemma_not_a_number(s: Seq<char>, k: int)
    requires
        0 <= k < s.len(),
        !(48 <= s[k] as u32 <= 57 || s[k] as u32 == 43),
    ensures
        text::unsigned_value(encode_utf8(s)) is None,
{
    let b = encode_utf8(s);
    if text::unsigned_value(b) is Some {
        assert forall|i: int| 0 <= i < b.len() implies text::is_digit(#[trigger] b[i]) || b[i]
            == 43 by {
            if b[0] == 43 && i > 0 {
                assert(b.skip(1)[i - 1] == b[i]);
            }
        }
        assert(text::is_ascii_bytes(b));
        text::lemma_ascii_text(b);
        encode_utf8_decode_utf8(s);
        assert(s == text::ascii_chars(b));
        assert(s[k] == b[k] as char);
    }
}

/// Reads the length that the header of a snapshot announces.
pub fn parse_rdb_header(line: &str) -> (r: Option<usize>)
    ensures
        match r {
            Some(len) => rdb_length(line@) == Some(len as nat),
            None => rdb_length(line@) is None,
        },
{
    let n: usize = line.unicode_len();
    let mut start: usize = 0;
    assert(line@.subrange(0, n as int) =~= line@);
    while start < n && line.get_char(start) == '$'
        invariant
            start <= n == line@.len(),
            without_dollars(line@) == without_dollars(line@.subrange(start as int, n as int)),
        decreases n - start,
    {
        assert(line@.subrange(start as int, n as int).drop_first() =~= line@.subrange(
            start + 1,
            n as int,
        ));
        start += 1;
    }
    let ghost front = line@.subrange(start as int, n as int);
    assert(front.len() > 0 ==> front[0] == line@[start as int]);
    assert(without_dollars(line@) == front);
    let mut end: usize = n;
    assert(front =~= line@.subrange(start as int, end as int));
    while end > start && white(line.get_char(end - 1))
        invariant
            start <= end <= n == line@.len(),
            front == line@.subrange(start as int, n as int),
            without_dollars(line@) == front,
            without_white(front) == without_white(line@.subrange(start as int, end as int)),
        decreases end,
    {
        assert(line@.subrange(start as int, end as int).drop_last() =~= line@.subrange(
            start as int,
            end - 1,
        ));
        end = end - 1;
    }
    let ghost core = line@.subrange(start as int, end as int);
    assert(core.len() > 0 ==> core.last() == line@[end - 1]);
    assert(without_white(without_dollars(line@)) == core);
    let mut bytes: Vec<u8> = Vec::new();
    let mut i: usize = start;
    while i < end
        invariant
            start <= i <= end <= n == line@.len(),
            core == line@.subrange(start as int, end as int),
            without_white(without_dollars(line@)) == core,
            bytes@.len() == i - start,
            forall|j: int| 0 <= j < i - start ==> #[trigger] core[j] == bytes@[j] as char,
            forall|j: int| 0 <= j < i - start ==> text::is_digit(#[trigger] bytes@[j]) || bytes@[j]
                == 43,
        decreases end - i,
    {
        let c: u32 = line.get_char(i) as u32;
        if !((48 <= c && c <= 57) || c == 43) {
            proof {
                lemma_not_a_number(core, i - start);
            }
            return None;
        }
        bytes.push(c as u8);
        i += 1;
    }
    proof {
        assert(text::is_ascii_bytes(bytes@));
        text::lemma_ascii_text(bytes@);
        assert(text::ascii_chars(bytes@) =~= core);
    }
    match text::parse_unsigned(bytes.as_slice(), usize::MAX as u64) {
        Some(len) => Some(len as usize),
        None => None,
    }
}

impl Handshake {
    pub fn start() -> (r: Self)
        ensures
            r == Handshake::Ping,
    {
        Handshake::Ping
    }

    /// What to send now, if anything.
    pub fn request(&self, port: u16) -> (r: Option<RespBody>)
        ensures
            match r {
                Some(body) => step_request(*self, port) == Some(body@),
                None => step_request(*self, port) is None,
            },
    {
        match self {
            Handshake::Ping => {
                let mut words: Vec<Vec<u8>> = Vec::new();
                words.push(vstd::slice::slice_to_vec("PING".as_bytes()));
                assert(text::arg_views(words@) =~= seq![encode_utf8("PING"@)]);
                Some(resp::bulk_request(words))
            },
            Handshake::ListeningPort => {
                let mut digits: Vec<u8> = Vec::new();
                text::push_decimal(&mut digits, port as u64);
                assert(digits@ =~= text::decimal(port as nat));
                Some(three_words("REPLCONF", "listening-port", digits))
            },
            Handshake::Capa => Some(
                three_words(
                    "REPLCONF",
                    "capa",
                    vstd::slice::slice_to_vec("psync2".as_bytes()),
                ),
            ),
            Handshake::Psync => Some(
                three_words("PSYNC", "?", vstd::slice::slice_to_vec("-1".as_bytes())),
            ),
            Handshake::RdbHeader => None,
            Handshake::Rdb(_) => None,
        }
    }

    /// A line from the master has arrived.
    pub fn on_line(&self, line: &str) -> (r: Result<Handshake, HandshakeError>)
        ensures
            match r {
                Ok(step) => next_step(*self, line@) == Ok::<Handshake, ()>(step),
                Err(e) => {
                    &&& next_step(*self, line@) is Err
                    &&& e is BadRdbHeader <==> *self is RdbHeader
                    &&& e matches HandshakeError::Refused(why) ==> why is HandshakeUnfinished
                },
            },
    {
        match self {
            Handshake::Ping => if text::same_text(line, "+PONG\r\n") {
                Ok(Handshake::ListeningPort)
            } else {
                Err(unfinished())
            },
            Handshake::ListeningPort => if text::same_text(line, "+OK\r\n") {
                Ok(Handshake::Capa)
            } else {
                Err(unfinished())
            },
            Handshake::Capa => if text::same_text(line, "+OK\r\n") {
                Ok(Handshake::Psync)
            } else {
                Err(unfinished())
            },
            Handshake::Psync => if begins_with(line, "+FULLRESYNC ") {
                Ok(Handshake::RdbHeader)
            } else {
                Err(unfinished())
            },
            Handshake::RdbHeader => match parse_rdb_header(line) {
                Some(len) => Ok(Handshake::Rdb(len)),
                None => Err(HandshakeError::BadRdbHeader),
            },
            Handshake::Rdb(_) => Err(unfinished()),
        }
    }
}

fn unfinished() -> (r: HandshakeError)
    ensures
        r matches HandshakeError::Refused(why) && why is HandshakeUnfinished,
{
    HandshakeError::Refused(NetworkingError::HandshakeUnfinished)
}

/// How far the handshake has come after some lines from the master.
pub open spec fn after_lines(step: Handshake, lines: Seq<Seq<char>>) -> Result<Handshake, ()>
    decreases lines.len(),
{
    if lines.len() == 0 {
        Ok(step)
    } else {
        match next_step(step, lines[0]) {
            Ok(next) => after_lines(next, lines.drop_first()),
            Err(e) => Err(e),
        }
    }
}

/// Law: the replica comes to the snapshot where the master has answered each of
/// the four requests as it should and has announced the length, and on no other
/// lines.
pub proof fn law_handshake_needs_every_answer(lines: Seq<Seq<char>>, len: usize)
    ensures
        after_lines(Handshake::Ping, lines) == Ok::<_, ()>(Handshake::Rdb(len)) <==> {
            &&& lines.len() == 5
            &&& lines[0] == "+PONG\r\n"@
            &&& lines[1] == "+OK\r\n"@
            &&& lines[2] == "+OK\r\n"@
            &&& encode_utf8("+FULLRESYNC "@).is_prefix_of(encode_utf8(lines[3]))
            &&& rdb_length(lines[4]) == Some(len as nat)
        },
{
    reveal_with_fuel(after_lines, 7);
    if lines.len() >= 1 {
        let second = lines.drop_first();
        if lines.len() >= 2 {
            assert(second[0] == lines[1]);
            let third = second.drop_first();
            if lines.len() >= 3 {
                assert(third[0] == lines[2]);
                let fourth = third.drop_first();
                if lines.len() >= 4 {
                    assert(fourth[0] == lines[3]);
                    let fifth = fourth.drop_first();
                    if lines.len() >= 5 {
                        assert(fifth[0] == lines[4]);
                        assert(fifth.drop_first().len() == lines.len() - 5);
                    }
                }
            }
        }
    }
}

/// Law: a replica greets its master, says where it listens and what it can do, and
/// asks for all that there is; behind that it asks for nothing.
pub proof fn law_handshake_asks(port: u16, len: usize)
    ensures
        ({
            let replconf = encode_utf8("REPLCONF"@);
            &&& step_request(Handshake::Ping, port) == Some(
                answers::words(seq![encode_utf8("PING"@)]),
            )
            &&& step_request(Handshake::ListeningPort, port) == Some(
                answers::words(
                    seq![replconf, encode_utf8("listening-port"@), text::decimal(port as nat)],
                ),
            )
            &&& step_request(Handshake::Capa, port) == Some(
                answers::words(seq![replconf, encode_utf8("capa"@), encode_utf8("psync2"@)]),
            )
            &&& step_request(Handshake::Psync, port) == Some(
                answers::words(
                    seq![encode_utf8("PSYNC"@), encode_utf8("?"@), encode_utf8("-1"@)],
                ),
            )
            &&& step_request(Handshake::RdbHeader, port) is None
            &&& step_request(Handshake::Rdb(len), port) is None
        }),
{
    let replconf = encode_utf8("REPLCONF"@);
    answers::lemma_words(seq![encode_utf8("PING"@)]);
    answers::lemma_words(
        seq![replconf, encode_utf8("listening-port"@), text::decimal(port as nat)],
    );
    answers::lemma_words(seq![replconf, encode_utf8("capa"@), encode_utf8("psync2"@)]);
    answers::lemma_words(seq![encode_utf8("PSYNC"@), encode_utf8("?"@), encode_utf8("-1"@)]);
}

/// Law: the header of a snapshot announces the number between its dollar sign and
/// its line end.
pub proof fn law_header_announces(n: nat)
    requires
        n <= usize::MAX,
    ensures
        rdb_length("$"@ + text::ascii_chars(text::decimal(n)) + "\r\n"@) == Some(n),
{
    let b = text::decimal(n);
    let digits = text::ascii_chars(b);
    let line = "$"@ + digits + "\r\n"@;
    text::lemma_decimal_digits(n);
    text::lemma_decimal_ascii(n);
    text::lemma_ascii_text(b);
    text::law_decimal_roundtrip(n);
    reveal_strlit("$");
    reveal_strlit("\r\n");
    let bare = digits + "\r\n"@;
    assert(line.drop_first() =~= bare);
    assert(text::is_digit(b[0]));
    assert(bare[0] == b[0] as char);
    reveal_with_fuel(without_dollars, 3);
    assert(without_dollars(line) == bare);
    let less = bare.drop_last();
    assert(less.drop_last() =~= digits);
    assert(bare.last() == '\n' && less.last() == '\r');
    assert(text::is_digit(b[b.len() - 1]));
    assert(digits.last() == b[b.len() - 1] as char);
    reveal_with_fuel(without_white, 4);
    assert(without_white(bare) == digits);
}

} // verus!
