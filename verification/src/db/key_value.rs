//! Keys and string values: plain byte strings.
use vstd::prelude::*;
use crate::command::common::{CommandError, ErrorView};
use crate::db::table::TableKey;
use crate::resp::{RespBody, RespView};
use crate::text;

verus! {

/// The name of an entry of the keyspace.
#[derive(Debug, Hash)]
pub struct Key {
    value: Vec<u8>,
}

/// A string value.
#[derive(Debug)]
pub struct Value {
    value: Vec<u8>,
}

impl View for Key {
    type V = Seq<u8>;

    closed spec fn view(&self) -> Seq<u8> {
        self.value@
    }
}

impl View for Value {
    type V = Seq<u8>;

    closed spec fn view(&self) -> Seq<u8> {
        self.value@
    }
}

impl Clone for Key {
    fn clone(&self) -> (r: Self)
        ensures
            r@ == self@,
    {
        let value: Vec<u8> = self.value.clone();
        assert(value@ =~= self.value@);
        Self { value }
    }
}

impl Clone for Value {
    fn clone(&self) -> (r: Self)
        ensures
            r@ == self@,
    {
        let value: Vec<u8> = self.value.clone();
        assert(value@ =~= self.value@);
        Self { value }
    }
}

impl PartialEq for Key {
    fn eq(&self, other: &Self) -> (r: bool) {
        text::bytes_eq(self.value.as_slice(), other.value.as_slice())
    }
}

impl vstd::std_specs::cmp::PartialEqSpecImpl for Key {
    open spec fn obeys_eq_spec() -> bool {
        true
    }

    open spec fn eq_spec(&self, other: &Self) -> bool {
        self@ == other@
    }
}

impl Eq for Key {}

impl PartialEq for Value {
    fn eq(&self, other: &Self) -> (r: bool) {
        text::bytes_eq(self.value.as_slice(), other.value.as_slice())
    }
}

impl vstd::std_specs::cmp::PartialEqSpecImpl for Value {
    open spec fn obeys_eq_spec() -> bool {
        true
    }

    open spec fn eq_spec(&self, other: &Self) -> bool {
        self@ == other@
    }
}

impl Eq for Value {}

impl TableKey for Key {
    fn same_key(&self, other: &Self) -> (r: bool) {
        text::bytes_eq(self.value.as_slice(), other.value.as_slice())
    }
}

impl Key {
    pub fn as_bytes(&self) -> (r: &[u8])
        ensures
            r@ == self@,
    {
        self.value.as_slice()
    }

    /// The key as text, for people to read.
    pub fn display(&self) -> (r: String)
        ensures
            r@ == text::shown(self@),
    {
        text::show(self.value.as_slice())
    }
}

impl Value {
    pub fn as_bytes(&self) -> (r: &[u8])
        ensures
            r@ == self@,
    {
        self.value.as_slice()
    }

    /// The value as text, for people to read.
    pub fn display(&self) -> (r: String)
        ensures
            r@ == text::shown(self@),
    {
        text::show(self.value.as_slice())
    }

    pub fn from_int(num: i64) -> (r: Self)
        ensures
            r@ == text::signed_decimal(num as int),
    {
        let mut value: Vec<u8> = Vec::new();
        text::push_signed(&mut value, num);
        assert(value@ =~= text::signed_decimal(num as int));
        Self { value }
    }

    pub fn parse_int(&self) -> (r: Result<i64, CommandError>)
        ensures
            match r {
                Ok(n) => value_int(self@) == Some(n as int),
                Err(e) => value_int(self@) is None && e@ == ErrorView::NotAnInteger,
            },
    {
        match text::parse_signed(self.value.as_slice(), i64::MIN, i64::MAX) {
            Some(n) => Ok(n),
            None => Err(CommandError::NotAnInteger),
        }
    }
}

/// The number that a value holds, if it holds one of 64 bits.
pub open spec fn value_int(value: Seq<u8>) -> Option<int> {
    text::signed_within(value, i64::MIN as int, i64::MAX as int)
}

/// Law: a value made from a number reads as that number.
pub proof fn law_value_int_roundtrip(num: i64)
    ensures
        value_int(text::signed_decimal(num as int)) == Some(num as int),
{
    text::law_signed_decimal_roundtrip(num as int);
}

// ---------------------------------------------------------------
// Conversions
// ---------------------------------------------------------------

impl From<Vec<u8>> for Key {
    fn from(value: Vec<u8>) -> (r: Self)
        ensures
            r@ == value@,
    {
        Self { value }
    }
}

impl vstd::std_specs::convert::FromSpecImpl<Vec<u8>> for Key {
    open spec fn obeys_from_spec() -> bool {
        false
    }

    open spec fn from_spec(value: Vec<u8>) -> Self {
        arbitrary()
    }
}

impl From<Vec<u8>> for Value {
    fn from(value: Vec<u8>) -> (r: Self)
        ensures
            r@ == value@,
    {
        Self { value }
    }
}

impl vstd::std_specs::convert::FromSpecImpl<Vec<u8>> for Value {
    open spec fn obeys_from_spec() -> bool {
        false
    }

    open spec fn from_spec(value: Vec<u8>) -> Self {
        arbitrary()
    }
}

impl From<&[u8]> for Key {
    fn from(value: &[u8]) -> (r: Self)
        ensures
            r@ == value@,
    {
        Self { value: vstd::slice::slice_to_vec(value) }
    }
}

impl vstd::std_specs::convert::FromSpecImpl<&[u8]> for Key {
    open spec fn obeys_from_spec() -> bool {
        false
    }

    open spec fn from_spec(value: &[u8]) -> Self {
        arbitrary()
    }
}

impl From<&[u8]> for Value {
    fn from(value: &[u8]) -> (r: Self)
        ensures
            r@ == value@,
    {
        Self { value: vstd::slice::slice_to_vec(value) }
    }
}

impl vstd::std_specs::convert::FromSpecImpl<&[u8]> for Value {
    open spec fn obeys_from_spec() -> bool {
        false
    }

    open spec fn from_spec(value: &[u8]) -> Self {
        arbitrary()
    }
}

impl From<Key> for Vec<u8> {
    fn from(value: Key) -> (r: Vec<u8>)
        ensures
            r@ == value@,
    {
        value.value
    }
}

impl vstd::std_specs::convert::FromSpecImpl<Key> for Vec<u8> {
    open spec fn obeys_from_spec() -> bool {
        false
    }

    open spec fn from_spec(value: Key) -> Self {
        arbitrary()
    }
}

impl From<Value> for Vec<u8> {
    fn from(value: Value) -> (r: Vec<u8>)
        ensures
            r@ == value@,
    {
        value.value
    }
}

impl vstd::std_specs::convert::FromSpecImpl<Value> for Vec<u8> {
    open spec fn obeys_from_spec() -> bool {
        false
    }

    open spec fn from_spec(value: Value) -> Self {
        arbitrary()
    }
}

impl From<&Key> for Vec<u8> {
    fn from(value: &Key) -> (r: Vec<u8>)
        ensures
            r@ == value@,
    {
        value.clone().value
    }
}

impl vstd::std_specs::convert::FromSpecImpl<&Key> for Vec<u8> {
    open spec fn obeys_from_spec() -> bool {
        false
    }

    open spec fn from_spec(value: &Key) -> Self {
        arbitrary()
    }
}

impl From<&Value> for Vec<u8> {
    fn from(value: &Value) -> (r: Vec<u8>)
        ensures
            r@ == value@,
    {
        value.clone().value
    }
}

impl vstd::std_specs::convert::FromSpecImpl<&Value> for Vec<u8> {
    open spec fn obeys_from_spec() -> bool {
        false
    }

    open spec fn from_spec(value: &Value) -> Self {
        arbitrary()
    }
}

impl From<Key> for RespBody {
    fn from(value: Key) -> (r: Self)
        ensures
            r@ == RespView::Bulk(Some(value@)),
    {
        RespBody::Bulk(Some(value.value))
    }
}

impl vstd::std_specs::convert::FromSpecImpl<Key> for RespBody {
    open spec fn obeys_from_spec() -> bool {
        false
    }

    open spec fn from_spec(value: Key) -> Self {
        arbitrary()
    }
}

impl From<Value> for RespBody {
    fn from(value: Value) -> (r: Self)
        ensures
            r@ == RespView::Bulk(Some(value@)),
    {
        RespBody::Bulk(Some(value.value))
    }
}

impl vstd::std_specs::convert::FromSpecImpl<Value> for RespBody {
    open spec fn obeys_from_spec() -> bool {
        false
    }

    open spec fn from_spec(value: Value) -> Self {
        arbitrary()
    }
}

impl From<&Key> for RespBody {
    fn from(value: &Key) -> (r: Self)
        ensures
            r@ == RespView::Bulk(Some(value@)),
    {
        RespBody::Bulk(Some(value.clone().value))
    }
}

impl vstd::std_specs::convert::FromSpecImpl<&Key> for RespBody {
    open spec fn obeys_from_spec() -> bool {
        false
    }

    open spec fn from_spec(value: &Key) -> Self {
        arbitrary()
    }
}

impl From<&Value> for RespBody {
    fn from(value: &Value) -> (r: Self)
        ensures
            r@ == RespView::Bulk(Some(value@)),
    {
        RespBody::Bulk(Some(value.clone().value))
    }
}

impl vstd::std_specs::convert::FromSpecImpl<&Value> for RespBody {
    open spec fn obeys_from_spec() -> bool {
        false
    }

    open spec fn from_spec(value: &Value) -> Self {
        arbitrary()
    }
}

} // verus!
