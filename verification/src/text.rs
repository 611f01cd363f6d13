//! Byte-string helpers: decimal numbers, ASCII case folding and UTF-8 text.
use vstd::prelude::*;
use vstd::utf8::*;

verus! {

// ---------------------------------------------------------------
// Decimal numbers
// ---------------------------------------------------------------

pub open spec fn is_digit(b: u8) -> bool {
    48 <= b <= 57
}

pub open spec fn all_digits(s: Seq<u8>) -> bool {
    forall|i: int| 0 <= i < s.len() ==> is_digit(#[trigger] s[i])
}

/// The number that a run of decimal digits denotes.
pub open spec fn digits_value(s: Seq<u8>) -> nat
    decreases s.len(),
{
    if s.len() == 0 {
        0
    } else {
        10 * digits_value(s.drop_last()) + (s.last() - 48) as nat
    }
}

/// The unsigned number that `s` denotes: one or more digits, perhaps after a
/// plus sign.
pub open spec fn unsigned_value(s: Seq<u8>) -> Option<nat> {
    let digits = if s.len() > 0 && s[0] == 43 {
        s.skip(1)
    } else {
        s
    };
    if digits.len() > 0 && all_digits(digits) {
        Some(digits_value(digits))
    } else {
        None
    }
}

/// [`unsigned_value`], if it is at most `max`.
pub open spec fn unsigned_within(s: Seq<u8>, max: nat) -> Option<nat> {
    match unsigned_value(s) {
        Some(n) => if n <= max {
            Some(n)
        } else {
            None
        },
        None => None,
    }
}

/// The signed number that `s` denotes: one or more digits, perhaps after a
/// plus or a minus sign.
pub open spec fn signed_value(s: Seq<u8>) -> Option<int> {
    if s.len() > 0 && s[0] == 45 {
        let digits = s.skip(1);
        if digits.len() > 0 && all_digits(digits) {
            Some(-(digits_value(digits) as int))
        } else {
            None
        }
    } else {
        match unsigned_value(s) {
            Some(n) => Some(n as int),
            None => None,
        }
    }
}

/// [`signed_value`], if it lies between `low` and `high`.
pub open spec fn signed_within(s: Seq<u8>, low: int, high: int) -> Option<int> {
    match signed_value(s) {
        Some(n) => if low <= n <= high {
            Some(n)
        } else {
            None
        },
        None => None,
    }
}

/// The shortest decimal notation of `n`.
pub open spec fn decimal(n: nat) -> Seq<u8>
    decreases n,
{
    if n < 10 {
        seq![(48 + n) as u8]
    } else {
        decimal(n / 10).push((48 + n % 10) as u8)
    }
}

/// The shortest decimal notation of `n`, with a minus sign where it is negative.
pub open spec fn signed_decimal(n: int) -> Seq<u8> {
    if n < 0 {
        seq![45u8] + decimal((-n) as nat)
    } else {
        decimal(n as nat)
    }
}

pub proof fn lemma_decimal_digits(n: nat)
    ensures
        decimal(n).len() > 0,
        all_digits(decimal(n)),
        digits_value(decimal(n)) == n,
    decreases n,
{
    if n < 10 {
        let d = decimal(n);
        assert(d.drop_last() =~= Seq::<u8>::empty());
        assert(digits_value(d.drop_last()) == 0);
        assert(d.last() == (48 + n) as u8);
    } else {
        lemma_decimal_digits(n / 10);
        let d = decimal(n);
        assert(d.drop_last() =~= decimal(n / 10));
        assert(d.last() == (48 + n % 10) as u8);
        assert forall|i: int| 0 <= i < d.len() implies is_digit(#[trigger] d[i]) by {
            if i < d.len() - 1 {
                assert(d[i] == decimal(n / 10)[i]);
            }
        }
    }
}

/// Law: reading the decimal notation of a number gives the number back.
pub proof fn law_decimal_roundtrip(n: nat)
    ensures
        unsigned_value(decimal(n)) == Some(n),
{
    lemma_decimal_digits(n);
    assert(is_digit(decimal(n)[0]));
}

/// Law: reading the signed decimal notation of a number gives the number back.
pub proof fn law_signed_decimal_roundtrip(n: int)
    ensures
        signed_value(signed_decimal(n)) == Some(n),
{
    if n < 0 {
        lemma_decimal_digits((-n) as nat);
        assert(signed_decimal(n).skip(1) =~= decimal((-n) as nat));
    } else {
        law_decimal_roundtrip(n as nat);
        lemma_decimal_digits(n as nat);
        assert(is_digit(decimal(n as nat)[0]));
    }
}

/// Law: a number below ten is one digit, from 0 to 9; ten times a number and a bit
/// more is its notation and one digit more; and a minus sign makes it negative.
pub proof fn law_decimal_places(n: nat, d: nat)
    requires
        d < 10,
        n > 0,
    ensures
        decimal(d) == seq![(48 + d) as u8],
        decimal(10 * n + d) == decimal(n).push((48 + d) as u8),
        signed_decimal(n as int) == decimal(n),
        signed_decimal(-(n as int)) == seq![45u8] + decimal(n),
        signed_decimal(0) == seq![48u8],
{
    assert((10 * n + d) / 10 == n && (10 * n + d) % 10 == d);
}

/// Law: numbers are read in base ten. A digit stands for itself, one digit more
/// makes ten times the number and the digit, a plus sign in front changes nothing, a
/// minus sign makes it negative, and whatever else follows makes it none.
pub proof fn law_digits_are_read(s: Seq<u8>, d: u8)
    ensures
        unsigned_value(Seq::empty()) is None,
        48 <= d <= 57 ==> unsigned_value(seq![d]) == Some((d - 48) as nat),
        48 <= d <= 57 && unsigned_value(s) is Some ==> unsigned_value(s.push(d)) == Some(
            (10 * unsigned_value(s)->0 + (d - 48)) as nat,
        ),
        !(48 <= d <= 57) && s.len() > 0 ==> unsigned_value(s.push(d)) is None
            && signed_value(s.push(d)) is None,
        unsigned_value(s) is Some ==> signed_value(s) == Some(unsigned_value(s)->0 as int),
        unsigned_value(s) is Some && s[0] != 43 ==> {
            &&& unsigned_value(seq![43u8] + s) == unsigned_value(s)
            &&& signed_value(seq![45u8] + s) == Some(-(unsigned_value(s)->0 as int))
        },
{
    let more = s.push(d);
    let one = seq![d];
    assert(one.drop_last() =~= Seq::<u8>::empty());
    assert(digits_value(one.drop_last()) == 0);
    if s.len() > 0 {
        assert(more[0] == s[0]);
        assert(more[s.len() as int] == d);
        assert(more.skip(1) =~= s.skip(1).push(d));
        assert(more.drop_last() =~= s);
        assert(s.skip(1).push(d).drop_last() =~= s.skip(1));
        if !is_digit(d) {
            assert(!all_digits(more)) by {
                assert(!is_digit(more[s.len() as int]));
            }
            assert(!all_digits(more.skip(1))) by {
                assert(more.skip(1)[s.len() - 1] == d);
            }
        } else if unsigned_value(s) is Some {
            let digits = if s[0] == 43 {
                s.skip(1)
            } else {
                s
            };
            assert(all_digits(digits.push(d))) by {
                assert forall|i: int| 0 <= i < digits.len() + 1 implies is_digit(
                    #[trigger] digits.push(d)[i],
                ) by {
                    if i < digits.len() {
                        assert(is_digit(digits[i]));
                    }
                }
            }
            assert(digits.push(d).drop_last() =~= digits);
        }
        if unsigned_value(s) is Some && s[0] != 43 {
            assert((seq![43u8] + s).skip(1) =~= s);
            assert((seq![45u8] + s).skip(1) =~= s);
        }
        if unsigned_value(s) is Some {
            if s[0] != 43 {
                assert(is_digit(s[0]));
            }
        }
    }
}

proof fn lemma_digits_value_grows(s: Seq<u8>, i: int)
    requires
        0 <= i <= s.len(),
    ensures
        digits_value(s.take(i)) <= digits_value(s),
    decreases s.len() - i,
{
    if i == s.len() {
        assert(s.take(i) =~= s);
    } else {
        lemma_digits_value_grows(s, i + 1);
        assert(s.take(i + 1).drop_last() =~= s.take(i));
    }
}

/// Reads a run of digits that starts at `start` and ends the slice.
fn parse_digits(buf: &[u8], start: usize, max: u64) -> (r: Option<u64>)
    requires
        start <= buf@.len(),
    ensures
        match r {
            Some(n) => {
                &&& start < buf@.len()
                &&& all_digits(buf@.skip(start as int))
                &&& digits_value(buf@.skip(start as int)) == n
                &&& n <= max
            },
            None => {
                ||| start == buf@.len()
                ||| !all_digits(buf@.skip(start as int))
                ||| digits_value(buf@.skip(start as int)) > max
            },
        },
{
    if start == buf.len() {
        return None;
    }
    let ghost digits = buf@.skip(start as int);
    let mut i: usize = start;
    let mut acc: u64 = 0;
    assert(digits.take(0) =~= Seq::<u8>::empty());
    while i < buf.len()
        invariant
            start <= i <= buf@.len(),
            digits == buf@.skip(start as int),
            all_digits(digits.take(i - start)),
            acc == digits_value(digits.take(i - start)),
            acc <= max,
        decreases buf@.len() - i,
    {
        let b = buf[i];
        assert(digits[i - start] == b);
        if b < 48 || b > 57 {
            return None;
        }
        let ghost next = digits.take(i - start + 1);
        assert(next.drop_last() =~= digits.take(i - start));
        assert(next.last() == b);
        proof {
            lemma_digits_value_grows(digits, i - start + 1);
        }
        let wide: u128 = acc as u128 * 10 + (b - 48) as u128;
        if wide > max as u128 {
            return None;
        }
        assert forall|j: int| 0 <= j < next.len() implies is_digit(#[trigger] next[j]) by {
            if j < i - start {
                assert(next[j] == digits.take(i - start)[j]);
            }
        }
        acc = wide as u64;
        i += 1;
    }
    assert(digits.take(i - start) =~= digits);
    Some(acc)
}

/// Reads an unsigned number of at most `max`.
pub fn parse_unsigned(buf: &[u8], max: u64) -> (r: Option<u64>)
    ensures
        match r {
            Some(n) => unsigned_within(buf@, max as nat) == Some(n as nat),
            None => unsigned_within(buf@, max as nat) is None,
        },
{
    let start: usize = if buf.len() > 0 && buf[0] == 43 {
        1
    } else {
        0
    };
    assert(buf@.skip(0) =~= buf@);
    parse_digits(buf, start, max)
}

/// Reads a signed number between `low` and `high`.
pub fn parse_signed(buf: &[u8], low: i64, high: i64) -> (r: Option<i64>)
    ensures
        match r {
            Some(n) => signed_within(buf@, low as int, high as int) == Some(n as int),
            None => signed_within(buf@, low as int, high as int) is None,
        },
{
    let top: u64 = 0x8000_0000_0000_0000;
    if buf.len() > 0 && buf[0] == 45 {
        match parse_digits(buf, 1, top) {
            Some(n) => {
                let v: i128 = -(n as i128);
                if (low as i128) <= v && v <= (high as i128) {
                    Some(v as i64)
                } else {
                    None
                }
            },
            None => None,
        }
    } else {
        match parse_unsigned(buf, top) {
            Some(n) => {
                let v: i128 = n as i128;
                if (low as i128) <= v && v <= (high as i128) {
                    Some(v as i64)
                } else {
                    None
                }
            },
            None => None,
        }
    }
}

/// Appends the decimal notation of `n`.
pub fn push_decimal(out: &mut Vec<u8>, n: u64)
    ensures
        final(out)@ == old(out)@ + decimal(n as nat),
    decreases n,
{
    if n >= 10 {
        push_decimal(out, n / 10);
    }
    out.push(48 + (n % 10) as u8);
    assert(out@ =~= old(out)@ + decimal(n as nat));
}

/// Appends the decimal notation of `n`, with its sign where it is negative.
pub fn push_signed(out: &mut Vec<u8>, n: i64)
    ensures
        final(out)@ == old(out)@ + signed_decimal(n as int),
{
    if n < 0 {
        out.push(45);
        let magnitude: u64 = (-(n as i128)) as u64;
        push_decimal(out, magnitude);
        assert(out@ =~= old(out)@ + signed_decimal(n as int));
    } else {
        push_decimal(out, n as u64);
    }
}

// ---------------------------------------------------------------
// Comparing and copying
// ---------------------------------------------------------------

/// The first index from `start` onward at which `byte` stands.
pub open spec fn first_from(s: Seq<u8>, start: int, byte: u8) -> Option<int>
    decreases s.len() - start,
{
    if start < 0 || start >= s.len() {
        None
    } else if s[start] == byte {
        Some(start)
    } else {
        first_from(s, start + 1, byte)
    }
}

pub proof fn lemma_first_from(s: Seq<u8>, start: int, byte: u8)
    requires
        0 <= start,
    ensures
        match first_from(s, start, byte) {
            Some(i) => start <= i < s.len() && s[i] == byte && forall|j: int|
                start <= j < i ==> #[trigger] s[j] != byte,
            None => forall|j: int| start <= j < s.len() ==> #[trigger] s[j] != byte,
        },
    decreases s.len() - start,
{
    if start < s.len() && s[start] != byte {
        lemma_first_from(s, start + 1, byte);
    }
}

/// The index found is the one given, if `byte` stands there and nowhere before.
pub proof fn lemma_first_from_is(s: Seq<u8>, start: int, byte: u8, at: int)
    requires
        0 <= start <= at < s.len(),
        s[at] == byte,
        forall|j: int| start <= j < at ==> #[trigger] s[j] != byte,
    ensures
        first_from(s, start, byte) == Some(at),
    decreases at - start,
{
    if start < at {
        lemma_first_from_is(s, start + 1, byte, at);
    }
}

/// Absolute index of the first `byte` in `buf`, searching from `start` onward.
pub fn find_from(buf: &[u8], start: usize, byte: u8) -> (r: Option<usize>)
    ensures
        match r {
            Some(i) => first_from(buf@, start as int, byte) == Some(i as int),
            None => first_from(buf@, start as int, byte) is None,
        },
{
    let mut i: usize = start;
    while i < buf.len()
        invariant
            start <= i,
            first_from(buf@, start as int, byte) == first_from(buf@, i as int, byte),
        decreases buf@.len() - i,
    {
        if buf[i] == byte {
            return Some(i);
        }
        i += 1;
    }
    None
}

pub fn bytes_eq(a: &[u8], b: &[u8]) -> (r: bool)
    ensures
        r == (a@ == b@),
{
    if a.len() != b.len() {
        return false;
    }
    let mut i: usize = 0;
    while i < a.len()
        invariant
            a@.len() == b@.len(),
            i <= a@.len(),
            forall|j: int| 0 <= j < i ==> a@[j] == b@[j],
        decreases a@.len() - i,
    {
        if a[i] != b[i] {
            return false;
        }
        i += 1;
    }
    assert(a@ =~= b@);
    true
}

/// An ASCII letter in lower case; any other byte as it is.
pub open spec fn lower(b: u8) -> u8 {
    if 65 <= b <= 90 {
        (b + 32) as u8
    } else {
        b
    }
}

/// Equal but for the case of ASCII letters.
pub open spec fn same_ignoring_case(a: Seq<u8>, b: Seq<u8>) -> bool {
    a.len() == b.len() && forall|i: int| 0 <= i < a.len() ==> lower(#[trigger] a[i]) == lower(b[i])
}

fn to_lower(b: u8) -> (r: u8)
    ensures
        r == lower(b),
{
    if 65 <= b && b <= 90 {
        b + 32
    } else {
        b
    }
}

pub fn eq_ignore_case(a: &[u8], b: &[u8]) -> (r: bool)
    ensures
        r == same_ignoring_case(a@, b@),
{
    if a.len() != b.len() {
        return false;
    }
    let mut i: usize = 0;
    while i < a.len()
        invariant
            a@.len() == b@.len(),
            i <= a@.len(),
            forall|j: int| 0 <= j < i ==> lower(#[trigger] a@[j]) == lower(b@[j]),
        decreases a@.len() - i,
    {
        if to_lower(a[i]) != to_lower(b[i]) {
            return false;
        }
        i += 1;
    }
    true
}

/// The contents of several byte strings.
pub open spec fn arg_views(args: Seq<Vec<u8>>) -> Seq<Seq<u8>> {
    args.map_values(|arg: Vec<u8>| arg@)
}

/// Appends a copy of `data`.
pub fn push_bytes(out: &mut Vec<u8>, data: &[u8])
    ensures
        final(out)@ == old(out)@ + data@,
{
    out.extend_from_slice(data);
    assert(out@ =~= old(out)@ + data@);
}

// ---------------------------------------------------------------
// Text
// ---------------------------------------------------------------

/// The characters of ASCII bytes.
pub open spec fn ascii_chars(s: Seq<u8>) -> Seq<char> {
    s.map_values(|b: u8| b as char)
}

pub open spec fn is_ascii_bytes(s: Seq<u8>) -> bool {
    forall|i: int| 0 <= i < s.len() ==> #[trigger] s[i] < 128
}

/// The text that [`String::from_utf8_lossy`] makes of bytes.
pub uninterp spec fn lossy_text(bytes: Seq<u8>) -> Seq<char>;

/// Calls [`String::from_utf8_lossy`]: the text is a function of the bytes, and
/// where they are valid UTF-8 it is the text that they encode.
#[verifier::external_body]
pub(crate) fn utf8_lossy(bytes: &[u8]) -> (text: String)
    ensures
        text@ == lossy_text(bytes@),
        valid_utf8(bytes@) ==> text@ == decode_utf8(bytes@),
{
    String::from_utf8_lossy(bytes).into_owned()
}

/// The text of bytes: what they encode, or what [`String::from_utf8_lossy`]
/// makes of them where they encode nothing.
pub open spec fn shown(bytes: Seq<u8>) -> Seq<char> {
    if valid_utf8(bytes) {
        decode_utf8(bytes)
    } else {
        lossy_text(bytes)
    }
}

/// The text of bytes.
pub fn show(bytes: &[u8]) -> (text: String)
    ensures
        text@ == shown(bytes@),
{
    utf8_lossy(bytes)
}

pub proof fn lemma_ascii_text(s: Seq<u8>)
    requires
        is_ascii_bytes(s),
    ensures
        encode_utf8(ascii_chars(s)) == s,
        valid_utf8(s),
        decode_utf8(s) == ascii_chars(s),
{
    let chars = ascii_chars(s);
    assert(is_ascii_chars(chars)) by {
        assert forall|i: int| 0 <= i < chars.len() implies '\0' <= #[trigger] chars[i]
            <= '\u{7f}' by {
            assert(s[i] < 128);
        }
    }
    vstd::utf8::is_ascii_chars_encode_utf8(chars);
    assert(encode_utf8(chars) =~= s) by {
        assert forall|i: int| 0 <= i < s.len() implies encode_utf8(chars)[i] == s[i] by {
            assert(s[i] < 128);
            assert(chars[i] as u8 == encode_utf8(chars)[i]);
        }
    }
    vstd::utf8::encode_utf8_valid_utf8(chars);
    vstd::utf8::encode_utf8_decode_utf8(chars);
}

/// ASCII bytes as a string.
pub fn ascii_string(bytes: &[u8]) -> (text: String)
    requires
        is_ascii_bytes(bytes@),
    ensures
        text@ == ascii_chars(bytes@),
        encode_utf8(text@) == bytes@,
{
    proof {
        lemma_ascii_text(bytes@);
    }
    utf8_lossy(bytes)
}

pub proof fn lemma_decimal_ascii(n: nat)
    ensures
        is_ascii_bytes(decimal(n)),
{
    lemma_decimal_digits(n);
    assert forall|i: int| 0 <= i < decimal(n).len() implies #[trigger] decimal(n)[i] < 128 by {
        assert(is_digit(decimal(n)[i]));
    }
}

/// The decimal notation of `n` as a string.
pub fn decimal_string(n: u64) -> (text: String)
    ensures
        text@ == ascii_chars(decimal(n as nat)),
{
    let mut out: Vec<u8> = Vec::new();
    push_decimal(&mut out, n);
    assert(out@ =~= decimal(n as nat));
    proof {
        lemma_decimal_ascii(n as nat);
    }
    ascii_string(out.as_slice())
}

/// The decimal notation of `n` as a string, with its sign where it is negative.
pub fn signed_string(n: i64) -> (text: String)
    ensures
        text@ == ascii_chars(signed_decimal(n as int)),
{
    let mut out: Vec<u8> = Vec::new();
    push_signed(&mut out, n);
    assert(out@ =~= signed_decimal(n as int));
    proof {
        if n < 0 {
            lemma_decimal_ascii((-n) as nat);
        } else {
            lemma_decimal_ascii(n as nat);
        }
    }
    ascii_string(out.as_slice())
}

// ---------------------------------------------------------------
// Splitting
// ---------------------------------------------------------------

/// What stands before the first `byte`, and what stands after it.
pub open spec fn parts_at(b: Seq<u8>, byte: u8) -> Option<(Seq<u8>, Seq<u8>)> {
    match first_from(b, 0, byte) {
        Some(at) => Some((b.subrange(0, at), b.subrange(at + 1, b.len() as int))),
        None => None,
    }
}

proof fn lemma_ascii_is_boundary(b: Seq<u8>, at: int)
    requires
        valid_utf8(b),
        0 <= at < b.len(),
        b[at] < 128,
    ensures
        is_char_boundary(b, at),
        is_char_boundary(b.subrange(at, b.len() as int), 1),
{
    let byte = b[at];
    assert(!is_continuation_byte(byte)) by (bit_vector)
        requires
            byte < 128,
    ;
    is_char_boundary_iff_not_is_continuation_byte(b, at);
    valid_utf8_split(b, at);
    let rest = b.subrange(at, b.len() as int);
    assert(is_leading_byte_width_1(byte)) by (bit_vector)
        requires
            byte < 128,
    ;
    assert(rest[0] == byte);
    reveal_with_fuel(is_char_boundary, 2);
    assert(length_of_first_scalar(rest) == 1);
    assert(is_char_boundary(pop_first_scalar(rest), 0));
}

/// The text before the first `byte`, an ASCII character, and the text after it.
pub fn split_once<'a>(s: &'a str, byte: u8) -> (r: Option<(&'a str, &'a str)>)
    requires
        byte < 128,
    ensures
        match r {
            Some((head, tail)) => parts_at(encode_utf8(s@), byte) == Some(
                (encode_utf8(head@), encode_utf8(tail@)),
            ),
            None => parts_at(encode_utf8(s@), byte) is None,
        },
{
    match find_from(s.as_bytes(), 0, byte) {
        None => None,
        Some(at) => {
            let ghost b = encode_utf8(s@);
            proof {
                encode_utf8_valid_utf8(s@);
                lemma_first_from(b, 0, byte);
                lemma_ascii_is_boundary(b, at as int);
            }
            let (head, rest) = s.split_at(at);
            let (_, tail) = rest.split_at(1);
            assert(encode_utf8(tail@) =~= b.subrange(at + 1, b.len() as int));
            Some((head, tail))
        },
    }
}

/// Whether two texts are equal.
pub fn same_text(a: &str, b: &str) -> (r: bool)
    ensures
        r == (a@ == b@),
{
    proof {
        encode_utf8_decode_utf8(a@);
        encode_utf8_decode_utf8(b@);
    }
    bytes_eq(a.as_bytes(), b.as_bytes())
}

/// Law: two words are the same but for case where they have the same length and each
/// byte of the one is that of the other, or the same letter as a capital or not.
pub proof fn law_case_is_ignored(a: Seq<u8>, b: Seq<u8>)
    ensures
        same_ignoring_case(a, b) <==> {
            &&& a.len() == b.len()
            &&& forall|i: int|
                0 <= i < a.len() ==> {
                    ||| (#[trigger] a[i]) == b[i]
                    ||| 65 <= a[i] <= 90 && b[i] == a[i] + 32
                    ||| 65 <= b[i] <= 90 && a[i] == b[i] + 32
                }
        },
{
    if a.len() == b.len() {
        assert forall|i: int| 0 <= i < a.len() implies (lower(#[trigger] a[i]) == lower(b[i])) == {
            ||| a[i] == b[i]
            ||| 65 <= a[i] <= 90 && b[i] == a[i] + 32
            ||| 65 <= b[i] <= 90 && a[i] == b[i] + 32
        } by {}
    }
}

} // verus!
