//! The ids of stream entries.
use vstd::prelude::*;
use vstd::utf8::*;
use crate::command::common::{CommandError, ErrorView};
use crate::resp::{RespBody, RespView};
use crate::text;

verus! {

/// The id of a stream entry: a time in milliseconds, and a sequence number
/// among the entries of that millisecond.
#[derive(Clone, Copy, Debug, PartialEq, Eq, Structural)]
pub struct StreamId {
    pub ms: u64,
    pub seq: u64,
}

/// What an id in XADD may be: explicit, a time with an automatic sequence
/// number, or wholly automatic.
#[derive(Clone, Copy, Debug, PartialEq, Eq, Structural)]
pub enum StreamIdSpec {
    Explicit(StreamId),
    AutoSeq(u64),
    Auto,
}

/// `b` is cut at its first dash.
pub open spec fn parts_at_dash(b: Seq<u8>) -> Option<(Seq<u8>, Seq<u8>)> {
    text::parts_at(b, 45)
}

/// A number of 64 bits, or the error that quotes the text which is none.
pub open spec fn id_number(b: Seq<u8>) -> Result<u64, ErrorView> {
    match text::unsigned_within(b, u64::MAX as nat) {
        Some(n) => Ok(n as u64),
        None => Err(ErrorView::ParseStream(decode_utf8(b))),
    }
}

/// The id whose two numbers are written in `ms` and `seq`.
pub open spec fn id_of_parts(ms: Seq<u8>, seq: Seq<u8>) -> Result<StreamId, ErrorView> {
    match id_number(ms) {
        Err(e) => Err(e),
        Ok(ms) => match id_number(seq) {
            Err(e) => Err(e),
            Ok(seq) => Ok(StreamId { ms, seq }),
        },
    }
}

/// The id that a range bound denotes: `+` for the last of all, `-` for the
/// first, `$` for the last that the stream holds, `<ms>-<seq>`, or `<ms>`.
pub open spec fn bound_id(b: Seq<u8>, last: Option<StreamId>) -> Result<StreamId, ErrorView> {
    if b.len() == 1 {
        if b[0] == 43 {
            Ok(StreamId::last_of_all())
        } else if b[0] == 36 {
            match last {
                Some(id) => Ok(id),
                None => Ok(StreamId::first_of_all()),
            }
        } else if b[0] == 45 {
            Ok(StreamId::first_of_all())
        } else {
            Err(ErrorView::ParseStream(decode_utf8(b)))
        }
    } else {
        match parts_at_dash(b) {
            Some((ms, seq)) => id_of_parts(ms, seq),
            None => match id_number(b) {
                Ok(ms) => Ok(StreamId { ms, seq: 0 }),
                Err(e) => Err(e),
            },
        }
    }
}

/// The id that XADD asks for: `*`, `<ms>-*` or `<ms>-<seq>`.
pub open spec fn requested_id(b: Seq<u8>) -> Result<StreamIdSpec, ErrorView> {
    if b == seq![42u8] {
        Ok(StreamIdSpec::Auto)
    } else {
        match parts_at_dash(b) {
            None => Err(ErrorView::ParseStream(decode_utf8(b))),
            Some((ms, seq)) => if seq == seq![42u8] {
                match id_number(ms) {
                    Ok(ms) => Ok(StreamIdSpec::AutoSeq(ms)),
                    Err(e) => Err(e),
                }
            } else {
                match id_of_parts(ms, seq) {
                    Ok(id) => Ok(StreamIdSpec::Explicit(id)),
                    Err(e) => Err(e),
                }
            },
        }
    }
}

/// `<ms>-<seq>`.
pub open spec fn id_bytes(id: StreamId) -> Seq<u8> {
    text::decimal(id.ms as nat) + seq![45u8] + text::decimal(id.seq as nat)
}

fn number(s: &str) -> (r: Result<u64, CommandError>)
    ensures
        match r {
            Ok(n) => id_number(encode_utf8(s@)) == Ok::<u64, ErrorView>(n),
            Err(e) => id_number(encode_utf8(s@)) == Err::<u64, ErrorView>(e@),
        },
{
    proof {
        encode_utf8_decode_utf8(s@);
    }
    match text::parse_unsigned(s.as_bytes(), u64::MAX) {
        Some(n) => Ok(n),
        None => Err(CommandError::ParseStream(s.to_owned())),
    }
}

impl StreamId {
    pub open spec fn last_of_all() -> Self {
        StreamId { ms: u64::MAX, seq: u64::MAX }
    }

    pub open spec fn first_of_all() -> Self {
        StreamId { ms: 0, seq: 0 }
    }

    /// The order of ids: by time, then by sequence number.
    pub open spec fn precedes(self, other: Self) -> bool {
        self.ms < other.ms || (self.ms == other.ms && self.seq < other.seq)
    }

    pub open spec fn at_most(self, other: Self) -> bool {
        self == other || self.precedes(other)
    }

    /// The greatest id.
    pub fn max() -> (r: Self)
        ensures
            r == Self::last_of_all(),
    {
        StreamId { ms: u64::MAX, seq: u64::MAX }
    }

    /// The id 0-0, which no entry has.
    pub fn zero() -> (r: Self)
        ensures
            r == Self::first_of_all(),
    {
        StreamId { ms: 0, seq: 0 }
    }

    pub fn new(ms: u64, seq: u64) -> (r: Self)
        ensures
            r == (StreamId { ms, seq }),
    {
        StreamId { ms, seq }
    }

    pub fn ms(&self) -> (r: u64)
        ensures
            r == self.ms,
    {
        self.ms
    }

    pub fn seq(&self) -> (r: u64)
        ensures
            r == self.seq,
    {
        self.seq
    }

    pub fn incr_seq(&mut self)
        requires
            old(self).seq < u64::MAX,
        ensures
            final(self).ms == old(self).ms,
            final(self).seq == old(self).seq + 1,
    {
        self.seq = self.seq + 1;
    }

    pub fn parse(ms: &str, seq: &str) -> (r: Result<Self, CommandError>)
        ensures
            match r {
                Ok(id) => id_of_parts(encode_utf8(ms@), encode_utf8(seq@)) == Ok::<
                    StreamId,
                    ErrorView,
                >(id),
                Err(e) => id_of_parts(encode_utf8(ms@), encode_utf8(seq@)) == Err::<
                    StreamId,
                    ErrorView,
                >(e@),
            },
    {
        match number(ms) {
            Err(e) => Err(e),
            Ok(ms) => match number(seq) {
                Err(e) => Err(e),
                Ok(seq) => Ok(StreamId { ms, seq }),
            },
        }
    }

    pub fn parse_opt_seq(string: &str, last: Option<Self>) -> (r: Result<Self, CommandError>)
        ensures
            match r {
                Ok(id) => bound_id(encode_utf8(string@), last) == Ok::<StreamId, ErrorView>(id),
                Err(e) => bound_id(encode_utf8(string@), last) == Err::<StreamId, ErrorView>(e@),
            },
    {
        proof {
            encode_utf8_decode_utf8(string@);
        }
        let bytes = string.as_bytes();
        if bytes.len() == 1 {
            if bytes[0] == 43 {
                return Ok(Self::max());
            }
            if bytes[0] == 36 {
                return match last {
                    Some(other) => Ok(other),
                    None => Ok(Self::zero()),
                };
            }
            if bytes[0] == 45 {
                return Ok(Self::zero());
            }
            return Err(CommandError::ParseStream(string.to_owned()));
        }
        match text::split_once(string, 45) {
            Some((ms, seq)) => Self::parse(ms, seq),
            None => match number(string) {
                Ok(ms) => Ok(StreamId { ms, seq: 0 }),
                Err(e) => Err(e),
            },
        }
    }

    /// Whether this id may follow `other` in a stream: it is greater.
    pub fn is_valid(&self, other: &Self) -> (r: bool)
        ensures
            r == other.precedes(*self),
    {
        self.ms > other.ms || (self.ms == other.ms && self.seq > other.seq)
    }

    /// `<ms>-<seq>` as text.
    pub fn display(&self) -> (r: String)
        ensures
            r@ == text::ascii_chars(id_bytes(*self)),
            encode_utf8(r@) == id_bytes(*self),
    {
        let bytes: Vec<u8> = self.to_bytes();
        proof {
            lemma_id_bytes_ascii(*self);
        }
        text::ascii_string(bytes.as_slice())
    }

    fn to_bytes(&self) -> (r: Vec<u8>)
        ensures
            r@ == id_bytes(*self),
    {
        let mut out: Vec<u8> = Vec::new();
        text::push_decimal(&mut out, self.ms);
        out.push(45);
        text::push_decimal(&mut out, self.seq);
        assert(out@ =~= id_bytes(*self));
        out
    }
}

impl StreamIdSpec {
    pub fn parse(string: &str) -> (r: Result<Self, CommandError>)
        ensures
            match r {
                Ok(id) => requested_id(encode_utf8(string@)) == Ok::<StreamIdSpec, ErrorView>(id),
                Err(e) => requested_id(encode_utf8(string@)) == Err::<StreamIdSpec, ErrorView>(e@),
            },
    {
        proof {
            encode_utf8_decode_utf8(string@);
        }
        if is_star(string) {
            return Ok(StreamIdSpec::Auto);
        }
        match text::split_once(string, 45) {
            None => Err(CommandError::ParseStream(string.to_owned())),
            Some((ms, seq)) => {
                if is_star(seq) {
                    match number(ms) {
                        Ok(ms) => Ok(StreamIdSpec::AutoSeq(ms)),
                        Err(e) => Err(e),
                    }
                } else {
                    match StreamId::parse(ms, seq) {
                        Ok(id) => Ok(StreamIdSpec::Explicit(id)),
                        Err(e) => Err(e),
                    }
                }
            },
        }
    }
}

fn is_star(s: &str) -> (r: bool)
    ensures
        r == (encode_utf8(s@) == seq![42u8]),
{
    let bytes = s.as_bytes();
    let r: bool = bytes.len() == 1 && bytes[0] == 42;
    assert(r ==> bytes@ =~= seq![42u8]);
    r
}

// ---------------------------------------------------------------
// Laws
// ---------------------------------------------------------------

/// Law: ids are totally ordered, so of two ids exactly one comes first or they
/// are the same, and the order is transitive.
pub proof fn law_ids_totally_ordered(a: StreamId, b: StreamId, c: StreamId)
    ensures
        a.precedes(b) || a == b || b.precedes(a),
        !(a.precedes(b) && b.precedes(a)),
        !a.precedes(a),
        a.precedes(b) && b.precedes(c) ==> a.precedes(c),
        StreamId::first_of_all().at_most(a),
        a.at_most(StreamId::last_of_all()),
{
}

proof fn lemma_id_bytes_ascii(id: StreamId)
    ensures
        text::is_ascii_bytes(id_bytes(id)),
{
    text::lemma_decimal_ascii(id.ms as nat);
    text::lemma_decimal_ascii(id.seq as nat);
    let b = id_bytes(id);
    let ms = text::decimal(id.ms as nat);
    assert forall|i: int| 0 <= i < b.len() implies #[trigger] b[i] < 128 by {
        if i < ms.len() {
            assert(b[i] == ms[i]);
        } else if i > ms.len() {
            assert(b[i] == text::decimal(id.seq as nat)[i - ms.len() - 1]);
        }
    }
}

proof fn lemma_id_parts(id: StreamId)
    ensures
        parts_at_dash(id_bytes(id)) == Some(
            (text::decimal(id.ms as nat), text::decimal(id.seq as nat)),
        ),
        id_of_parts(text::decimal(id.ms as nat), text::decimal(id.seq as nat)) == Ok::<
            StreamId,
            ErrorView,
        >(id),
        id_bytes(id).len() >= 3,
{
    let ms = text::decimal(id.ms as nat);
    let seq = text::decimal(id.seq as nat);
    let b = id_bytes(id);
    text::lemma_decimal_digits(id.ms as nat);
    text::lemma_decimal_digits(id.seq as nat);
    assert forall|j: int| 0 <= j < ms.len() implies #[trigger] b[j] != 45 by {
        assert(b[j] == ms[j]);
        assert(text::is_digit(ms[j]));
    }
    text::lemma_first_from_is(b, 0, 45, ms.len() as int);
    assert(b.subrange(0, ms.len() as int) =~= ms);
    assert(b.subrange(ms.len() as int + 1, b.len() as int) =~= seq);
    text::law_decimal_roundtrip(id.ms as nat);
    text::law_decimal_roundtrip(id.seq as nat);
}

/// Law: the written form of an id is read back as that id, both as a range
/// bound and as the id that XADD asks for.
pub proof fn law_id_roundtrip(id: StreamId, last: Option<StreamId>)
    ensures
        bound_id(id_bytes(id), last) == Ok::<StreamId, ErrorView>(id),
        requested_id(id_bytes(id)) == Ok::<StreamIdSpec, ErrorView>(StreamIdSpec::Explicit(id)),
{
    lemma_id_parts(id);
    text::lemma_decimal_digits(id.seq as nat);
    assert(text::is_digit(text::decimal(id.seq as nat)[0]));
}

// ---------------------------------------------------------------
// Conversions
// ---------------------------------------------------------------

impl From<StreamId> for Vec<u8> {
    fn from(value: StreamId) -> (r: Self)
        ensures
            r@ == id_bytes(value),
    {
        value.to_bytes()
    }
}

impl vstd::std_specs::convert::FromSpecImpl<StreamId> for Vec<u8> {
    open spec fn obeys_from_spec() -> bool {
        false
    }

    open spec fn from_spec(value: StreamId) -> Self {
        arbitrary()
    }
}

impl From<StreamId> for String {
    fn from(value: StreamId) -> (r: Self)
        ensures
            r@ == text::ascii_chars(id_bytes(value)),
    {
        value.display()
    }
}

impl vstd::std_specs::convert::FromSpecImpl<StreamId> for String {
    open spec fn obeys_from_spec() -> bool {
        false
    }

    open spec fn from_spec(value: StreamId) -> Self {
        arbitrary()
    }
}

impl From<StreamId> for RespBody {
    fn from(value: StreamId) -> (r: Self)
        ensures
            r@ == RespView::Bulk(Some(id_bytes(value))),
    {
        RespBody::Bulk(Some(value.to_bytes()))
    }
}

impl vstd::std_specs::convert::FromSpecImpl<StreamId> for RespBody {
    open spec fn obeys_from_spec() -> bool {
        false
    }

    open spec fn from_spec(value: StreamId) -> Self {
        arbitrary()
    }
}

} // verus!
