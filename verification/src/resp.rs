//! The RESP wire protocol: requests in, replies out.
use vstd::prelude::*;
use vstd::utf8::*;
use crate::command::common::CommandError;
use crate::text;
use crate::time::Duration;

verus! {

// ---------------------------------------------------------------
// Values
// ---------------------------------------------------------------

/// A value of the protocol.
pub enum RespBody {
    Simple(String),
    Rdb(Vec<u8>),
    Error(String),
    Integer(i64),
    Bulk(Option<Vec<u8>>),
    Array(Option<Vec<RespBody>>),
}

/// A [`RespBody`] with its strings and vectors as sequences.
#[verifier::ext_equal]
pub enum RespView {
    Simple(Seq<char>),
    Rdb(Seq<u8>),
    Error(Seq<char>),
    Integer(i64),
    Bulk(Option<Seq<u8>>),
    Array(Option<Seq<RespView>>),
}

/// What a value shows of itself.
pub open spec fn resp_view(body: RespBody) -> RespView
    decreases body,
{
    match body {
        RespBody::Simple(s) => RespView::Simple(s@),
        RespBody::Rdb(b) => RespView::Rdb(b@),
        RespBody::Error(s) => RespView::Error(s@),
        RespBody::Integer(n) => RespView::Integer(n),
        RespBody::Bulk(None) => RespView::Bulk(None),
        RespBody::Bulk(Some(b)) => RespView::Bulk(Some(b@)),
        RespBody::Array(None) => RespView::Array(None),
        RespBody::Array(Some(items)) => RespView::Array(
            Some(
                Seq::new(
                    items@.len(),
                    |i: int|
                        if 0 <= i < items@.len() {
                            resp_view(items@[i])
                        } else {
                            RespView::Bulk(None)
                        },
                ),
            ),
        ),
    }
}

impl View for RespBody {
    type V = RespView;

    open spec fn view(&self) -> RespView {
        resp_view(*self)
    }
}

/// The views of the elements.
pub open spec fn resp_views(items: Seq<RespBody>) -> Seq<RespView> {
    items.map_values(|item: RespBody| item@)
}

pub broadcast proof fn lemma_array_view(items: Vec<RespBody>)
    ensures
        #[trigger] RespBody::Array(Some(items))@ == RespView::Array(Some(resp_views(items@))),
{
    let body = RespBody::Array(Some(items));
    match body@ {
        RespView::Array(Some(seen)) => {
            assert(seen =~= resp_views(items@));
        },
        _ => {},
    }
}

/// The array of bulk strings that carries `items`: the shape of every request.
pub open spec fn bulk_array(items: Seq<Seq<u8>>) -> RespView {
    RespView::Array(Some(items.map_values(|b: Seq<u8>| RespView::Bulk(Some(b)))))
}

/// The arguments of a request: the contents of an array of bulk strings.
pub open spec fn request_args(v: RespView) -> Option<Seq<Seq<u8>>> {
    match v {
        RespView::Array(Some(items)) => if forall|i: int|
            0 <= i < items.len() ==> #[trigger] items[i] matches RespView::Bulk(Some(_)) {
            Some(items.map_values(|item: RespView| item->Bulk_0->0))
        } else {
            None
        },
        _ => None,
    }
}

pub proof fn lemma_request_args_of_bulk_array(items: Seq<Seq<u8>>)
    ensures
        request_args(bulk_array(items)) == Some(items),
{
    let carried = items.map_values(|b: Seq<u8>| RespView::Bulk(Some(b)));
    assert(carried.map_values(|item: RespView| item->Bulk_0->0) =~= items);
}

// ---------------------------------------------------------------
// Encoding
// ---------------------------------------------------------------

pub open spec fn crlf() -> Seq<u8> {
    seq![13u8, 10u8]
}

/// `$<length>`, the bytes, and a line end on either side of them.
pub open spec fn bulk_bytes(data: Seq<u8>) -> Seq<u8> {
    seq![36u8] + text::decimal(data.len()) + crlf() + data + crlf()
}

/// The wire form of a value.
pub open spec fn encoded(v: RespView) -> Seq<u8>
    decreases v,
{
    match v {
        RespView::Simple(s) => seq![43u8] + encode_utf8(s) + crlf(),
        RespView::Rdb(data) => seq![36u8] + text::decimal(data.len()) + crlf() + data,
        RespView::Error(s) => seq![45u8, 69u8, 82u8, 82u8, 32u8] + encode_utf8(s) + crlf(),
        RespView::Integer(n) => seq![58u8] + text::signed_decimal(n as int) + crlf(),
        RespView::Bulk(None) => seq![36u8, 45u8, 49u8, 13u8, 10u8],
        RespView::Bulk(Some(data)) => bulk_bytes(data),
        RespView::Array(None) => seq![42u8, 45u8, 49u8, 13u8, 10u8],
        RespView::Array(Some(items)) => seq![42u8] + text::decimal(items.len()) + crlf()
            + encoded_all(items),
    }
}

/// The wire forms of several values, one after the other.
pub open spec fn encoded_all(items: Seq<RespView>) -> Seq<u8>
    decreases items,
{
    if items.len() == 0 {
        Seq::empty()
    } else {
        encoded(items[0]) + encoded_all(items.subrange(1, items.len() as int))
    }
}

impl RespBody {
    pub fn new_error(error: &CommandError) -> (r: Self)
        ensures
            r@ == RespView::Error(error@.text()),
    {
        RespBody::Error(error.message())
    }

    pub fn new_queued() -> (r: Self)
        ensures
            r@ == RespView::Simple("QUEUED"@),
    {
        RespBody::Simple("QUEUED".to_owned())
    }

    pub fn new_ok() -> (r: Self)
        ensures
            r@ == RespView::Simple("OK"@),
    {
        RespBody::Simple("OK".to_owned())
    }

    /// Appends the wire form.
    pub fn encode(&self, out: &mut Vec<u8>)
        ensures
            final(out)@ == old(out)@ + encoded(self@),
        decreases self, 1nat,
    {
        match self {
            RespBody::Simple(s) => write_simple_string(out, s.as_str()),
            RespBody::Rdb(bytes) => write_rdb(out, bytes.as_slice()),
            RespBody::Error(s) => write_simple_error(out, s.as_str()),
            RespBody::Integer(num) => write_int(out, *num),
            RespBody::Bulk(None) => write_null_bulk(out),
            RespBody::Bulk(Some(bulk_str)) => write_bulk_string(out, bulk_str.as_slice()),
            RespBody::Array(None) => write_null_array(out),
            RespBody::Array(Some(value)) => {
                broadcast use lemma_array_view;

                write_arr(out, value);
            },
        }
    }

    /// A client request is an array of bulk strings: its arguments.
    pub fn into_args(self) -> (r: Option<Vec<Vec<u8>>>)
        ensures
            match r {
                Some(args) => request_args(self@) == Some(text::arg_views(args@)),
                None => request_args(self@) is None,
            },
    {
        match self {
            RespBody::Array(Some(items)) => {
                let ghost views = resp_views(items@);
                proof {
                    lemma_array_view(items);
                    assert(self@ == RespView::Array(Some(views)));
                }
                let mut args: Vec<Vec<u8>> = Vec::new();
                for item in it: items
                    invariant
                        it.seq() == items@,
                        views == resp_views(items@),
                        self@ == RespView::Array(Some(views)),
                        args@.len() == it.index(),
                        forall|i: int|
                            0 <= i < args@.len() ==> views[i] == RespView::Bulk(
                                Some(#[trigger] args@[i]@),
                            ),
                {
                    assert(views[it.index() as int] == item@);
                    assert(request_args(self@) is Some ==> views[it.index() as int] matches RespView::Bulk(Some(_)));
                    match item {
                        RespBody::Bulk(Some(bytes)) => {
                            args.push(bytes);
                        },
                        _ => {
                            return None;
                        },
                    }
                }
                assert forall|i: int| 0 <= i < views.len() implies #[trigger] views[i]
                    == RespView::Bulk(Some(args@[i]@)) by {}
                assert(views.map_values(|item: RespView| item->Bulk_0->0) =~= text::arg_views(
                    args@,
                ));
                Some(args)
            },
            _ => None,
        }
    }
}

fn write_crlf(out: &mut Vec<u8>)
    ensures
        final(out)@ == old(out)@ + crlf(),
{
    out.push(13);
    out.push(10);
    assert(out@ =~= old(out)@ + crlf());
}

fn write_arr(out: &mut Vec<u8>, items: &Vec<RespBody>)
    ensures
        final(out)@ == old(out)@ + encoded(RespView::Array(Some(resp_views(items@)))),
    decreases items, 0nat,
{
    let ghost views = resp_views(items@);
    out.push(42);
    text::push_decimal(out, items.len() as u64);
    write_crlf(out);
    let ghost head = out@;
    assert(head =~= old(out)@ + (seq![42u8] + text::decimal(views.len()) + crlf()));
    let mut i: usize = 0;
    assert(views.subrange(0, views.len() as int) =~= views);
    while i < items.len()
        invariant
            i <= items@.len(),
            views == resp_views(items@),
            out@ + encoded_all(views.subrange(i as int, views.len() as int)) == head + encoded_all(
                views,
            ),
        decreases items@.len() - i,
    {
        let ghost rest = views.subrange(i as int, views.len() as int);
        let ghost before = out@;
        assert(rest[0] == items@[i as int]@);
        items[i].encode(out);
        assert(rest.subrange(1, rest.len() as int) =~= views.subrange(
            i + 1,
            views.len() as int,
        ));
        assert(out@ + encoded_all(views.subrange(i + 1, views.len() as int)) =~= before
            + encoded_all(rest));
        i += 1;
    }
    assert(views.subrange(i as int, views.len() as int).len() == 0);
    assert(out@ =~= head + encoded_all(views));
    assert(out@ =~= old(out)@ + encoded(RespView::Array(Some(views))));
}

fn write_int(out: &mut Vec<u8>, num: i64)
    ensures
        final(out)@ == old(out)@ + encoded(RespView::Integer(num)),
{
    out.push(58);
    text::push_signed(out, num);
    write_crlf(out);
    assert(out@ =~= old(out)@ + encoded(RespView::Integer(num)));
}

fn write_null_bulk(out: &mut Vec<u8>)
    ensures
        final(out)@ == old(out)@ + encoded(RespView::Bulk(None)),
{
    text::push_bytes(out, [36u8, 45u8, 49u8, 13u8, 10u8].as_slice());
    assert(out@ =~= old(out)@ + encoded(RespView::Bulk(None)));
}

fn write_null_array(out: &mut Vec<u8>)
    ensures
        final(out)@ == old(out)@ + encoded(RespView::Array(None)),
{
    text::push_bytes(out, [42u8, 45u8, 49u8, 13u8, 10u8].as_slice());
    assert(out@ =~= old(out)@ + encoded(RespView::Array(None)));
}

fn write_simple_error(out: &mut Vec<u8>, msg: &str)
    ensures
        final(out)@ == old(out)@ + encoded(RespView::Error(msg@)),
{
    text::push_bytes(out, [45u8, 69u8, 82u8, 82u8, 32u8].as_slice());
    text::push_bytes(out, msg.as_bytes());
    write_crlf(out);
    assert(out@ =~= old(out)@ + encoded(RespView::Error(msg@)));
}

fn write_rdb(out: &mut Vec<u8>, data: &[u8])
    ensures
        final(out)@ == old(out)@ + encoded(RespView::Rdb(data@)),
{
    out.push(36);
    text::push_decimal(out, data.len() as u64);
    write_crlf(out);
    text::push_bytes(out, data);
    assert(out@ =~= old(out)@ + encoded(RespView::Rdb(data@)));
}

fn write_simple_string(out: &mut Vec<u8>, s: &str)
    ensures
        final(out)@ == old(out)@ + encoded(RespView::Simple(s@)),
{
    out.push(43);
    text::push_bytes(out, s.as_bytes());
    write_crlf(out);
    assert(out@ =~= old(out)@ + encoded(RespView::Simple(s@)));
}

fn write_bulk_string(out: &mut Vec<u8>, data: &[u8])
    ensures
        final(out)@ == old(out)@ + encoded(RespView::Bulk(Some(data@))),
{
    out.push(36);
    text::push_decimal(out, data.len() as u64);
    write_crlf(out);
    text::push_bytes(out, data);
    write_crlf(out);
    assert(out@ =~= old(out)@ + encoded(RespView::Bulk(Some(data@))));
}

// ---------------------------------------------------------------
// Parsing
// ---------------------------------------------------------------

pub open spec fn crlf_at(b: Seq<u8>, at: int) -> bool {
    0 <= at && at + 2 <= b.len() && b[at] == 13 && b[at + 1] == 10
}

/// The bulk string that the next `$` from `cursor` onward introduces, and the
/// position after it.
pub open spec fn parse_bulk(b: Seq<u8>, cursor: int) -> Option<(Seq<u8>, int)> {
    match text::first_from(b, cursor, 36) {
        None => None,
        Some(dollar) => match text::first_from(b, dollar + 1, 13) {
            None => None,
            Some(end) => match text::unsigned_within(
                b.subrange(dollar + 1, end),
                usize::MAX as nat,
            ) {
                None => None,
                Some(size) => if crlf_at(b, end) && crlf_at(b, end + 2 + size) {
                    Some((b.subrange(end + 2, end + 2 + size), end + 4 + size))
                } else {
                    None
                },
            },
        },
    }
}

/// `n` bulk strings from `cursor` onward, and the position after the last.
pub open spec fn parse_bulks(b: Seq<u8>, cursor: int, n: nat) -> Option<(Seq<Seq<u8>>, int)>
    decreases n,
{
    if n == 0 {
        Some((Seq::empty(), cursor))
    } else {
        match parse_bulk(b, cursor) {
            None => None,
            Some((item, next)) => match parse_bulks(b, next, (n - 1) as nat) {
                None => None,
                Some((items, end)) => Some((seq![item] + items, end)),
            },
        }
    }
}

/// The request at the start of a buffer, and its length: `*<count>` and a line
/// end, then so many bulk strings.
pub open spec fn parse_frame(b: Seq<u8>) -> Option<(Seq<Seq<u8>>, int)> {
    if b.len() == 0 || b[0] != 42 {
        None
    } else {
        match text::first_from(b, 1, 13) {
            None => None,
            Some(end) => match text::unsigned_within(b.subrange(1, end), usize::MAX as nat) {
                None => None,
                Some(n) => if crlf_at(b, end) {
                    parse_bulks(b, end + 2, n)
                } else {
                    None
                },
            },
        }
    }
}

/// `items` in front of what was parsed behind them.
spec fn behind(items: Seq<Seq<u8>>, rest: Option<(Seq<Seq<u8>>, int)>) -> Option<
    (Seq<Seq<u8>>, int),
> {
    match rest {
        None => None,
        Some((more, end)) => Some((items + more, end)),
    }
}

/// A request that was cut from a buffer.
pub struct Frame {
    body: RespBody,
    consumed: usize,
}

impl Frame {
    pub closed spec fn spec_body(self) -> RespView {
        self.body@
    }

    pub closed spec fn spec_consumed(self) -> int {
        self.consumed as int
    }

    fn new(items: Vec<Vec<u8>>, consumed: usize) -> (r: Self)
        ensures
            r.spec_body() == bulk_array(text::arg_views(items@)),
            r.spec_consumed() == consumed,
    {
        Self { body: bulk_request(items), consumed }
    }

    /// How many bytes of the buffer the request took.
    pub fn consumed(&self) -> (r: usize)
        ensures
            r == self.spec_consumed(),
    {
        self.consumed
    }

    pub fn body(self) -> (r: RespBody)
        ensures
            r@ == self.spec_body(),
    {
        self.body
    }
}

/// The array of bulk strings that carries `items`.
pub fn bulk_request(items: Vec<Vec<u8>>) -> (r: RespBody)
    ensures
        r@ == bulk_array(text::arg_views(items@)),
{
    let ghost args = text::arg_views(items@);
    let mut out: Vec<RespBody> = Vec::new();
    for item in it: items
        invariant
            it.seq() == items@,
            args == text::arg_views(items@),
            out@.len() == it.index(),
            forall|i: int|
                0 <= i < out@.len() ==> (#[trigger] out@[i])@ == RespView::Bulk(Some(args[i])),
    {
        out.push(RespBody::Bulk(Some(item)));
    }
    proof {
        lemma_array_view(out);
        assert(resp_views(out@) =~= args.map_values(|b: Seq<u8>| RespView::Bulk(Some(b))));
    }
    RespBody::Array(Some(out))
}

fn is_crlf(buf: &[u8], at: usize) -> (r: bool)
    requires
        at <= buf@.len(),
    ensures
        r == crlf_at(buf@, at as int),
{
    buf.len() - at >= 2 && buf[at] == 13 && buf[at + 1] == 10
}

fn parse_number(buf: &[u8], from: usize, to: usize) -> (r: Option<usize>)
    requires
        from <= to <= buf@.len(),
    ensures
        match r {
            Some(n) => text::unsigned_within(
                buf@.subrange(from as int, to as int),
                usize::MAX as nat,
            ) == Some(n as nat),
            None => text::unsigned_within(
                buf@.subrange(from as int, to as int),
                usize::MAX as nat,
            ) is None,
        },
{
    match text::parse_unsigned(vstd::slice::slice_subrange(buf, from, to), usize::MAX as u64) {
        Some(n) => Some(n as usize),
        None => None,
    }
}

/// Cuts one bulk string out of `buf`, from `cursor` onward.
fn take_bulk(buf: &[u8], cursor: usize) -> (r: Option<(Vec<u8>, usize)>)
    ensures
        match r {
            Some((item, next)) => {
                &&& parse_bulk(buf@, cursor as int) == Some((item@, next as int))
                &&& next <= buf@.len()
            },
            None => parse_bulk(buf@, cursor as int) is None,
        },
{
    let len: usize = buf.len();
    let dollar = match text::find_from(buf, cursor, 36) {
        Some(at) => at,
        None => {
            return None;
        },
    };
    proof {
        text::lemma_first_from(buf@, cursor as int, 36);
        text::lemma_first_from(buf@, dollar + 1, 13);
    }
    let num_start: usize = dollar + 1;
    let end = match text::find_from(buf, num_start, 13) {
        Some(at) => at,
        None => {
            return None;
        },
    };
    let size = match parse_number(buf, num_start, end) {
        Some(n) => n,
        None => {
            return None;
        },
    };
    if !is_crlf(buf, end) {
        return None;
    }
    let data_start: usize = end + 2;
    // The declared length comes straight from the client and has no upper
    // bound, so it is held against what is left instead of added to the cursor.
    if size > len - data_start {
        return None;
    }
    let data_end: usize = data_start + size;
    if !is_crlf(buf, data_end) {
        return None;
    }
    Some(
        (
            vstd::slice::slice_to_vec(vstd::slice::slice_subrange(buf, data_start, data_end)),
            data_end + 2,
        ),
    )
}

/// The request at the start of `buf`, or `None` where there is no whole one.
pub fn parse_resp(buf: &[u8]) -> (r: Option<Frame>)
    ensures
        match r {
            Some(frame) => match parse_frame(buf@) {
                Some((items, consumed)) => {
                    &&& frame.spec_body() == bulk_array(items)
                    &&& frame.spec_consumed() == consumed
                },
                None => false,
            },
            None => parse_frame(buf@) is None,
        },
{
    if buf.len() == 0 || buf[0] != 42 {
        return None;
    }
    let end = match text::find_from(buf, 1, 13) {
        Some(at) => at,
        None => {
            return None;
        },
    };
    proof {
        text::lemma_first_from(buf@, 1, 13);
    }
    if !is_crlf(buf, end) {
        return None;
    }
    let n_elems = match parse_number(buf, 1, end) {
        Some(n) => n,
        None => {
            return None;
        },
    };
    let mut cursor: usize = end + 2;
    let mut output: Vec<Vec<u8>> = Vec::new();
    let mut done: usize = 0;
    proof {
        let all = parse_bulks(buf@, end + 2, n_elems as nat);
        assert(behind(text::arg_views(output@), all) == all) by {
            match all {
                Some((more, _)) => {
                    assert(text::arg_views(output@) + more =~= more);
                },
                None => {},
            }
        }
    }
    while done < n_elems
        invariant
            done <= n_elems,
            cursor <= buf@.len(),
            parse_frame(buf@) == behind(
                text::arg_views(output@),
                parse_bulks(buf@, cursor as int, (n_elems - done) as nat),
            ),
        decreases n_elems - done,
    {
        let ghost seen = text::arg_views(output@);
        let ghost rest = parse_bulks(buf@, cursor as int, (n_elems - done) as nat);
        match take_bulk(buf, cursor) {
            Some((item, next)) => {
                let ghost tail = parse_bulks(buf@, next as int, (n_elems - done - 1) as nat);
                output.push(item);
                assert(text::arg_views(output@) =~= seen.push(item@));
                assert(behind(seen, rest) == behind(seen.push(item@), tail)) by {
                    match tail {
                        Some((more, _)) => {
                            assert(seen + (seq![item@] + more) =~= seen.push(item@) + more);
                        },
                        None => {},
                    }
                }
                cursor = next;
                done += 1;
            },
            None => {
                return None;
            },
        }
    }
    assert(text::arg_views(output@) + Seq::<Seq<u8>>::empty() =~= text::arg_views(output@));
    Some(Frame::new(output, cursor))
}

// ---------------------------------------------------------------
// Laws of the wire format
// ---------------------------------------------------------------

proof fn lemma_first_from_extends(b: Seq<u8>, c: Seq<u8>, start: int, byte: u8)
    requires
        0 <= start,
        text::first_from(b, start, byte) is Some,
    ensures
        text::first_from(b + c, start, byte) == text::first_from(b, start, byte),
{
    text::lemma_first_from(b, start, byte);
    let at = text::first_from(b, start, byte)->0;
    assert forall|j: int| start <= j < at implies #[trigger] (b + c)[j] != byte by {
        assert((b + c)[j] == b[j]);
    }
    text::lemma_first_from_is(b + c, start, byte, at);
}

proof fn lemma_parse_bulk_extends(b: Seq<u8>, c: Seq<u8>, cursor: int)
    requires
        0 <= cursor,
        parse_bulk(b, cursor) is Some,
    ensures
        parse_bulk(b + c, cursor) == parse_bulk(b, cursor),
        cursor < (parse_bulk(b, cursor)->0).1 <= b.len(),
{
    let dollar = text::first_from(b, cursor, 36)->0;
    lemma_first_from_extends(b, c, cursor, 36);
    text::lemma_first_from(b, cursor, 36);
    let end = text::first_from(b, dollar + 1, 13)->0;
    lemma_first_from_extends(b, c, dollar + 1, 13);
    text::lemma_first_from(b, dollar + 1, 13);
    assert((b + c).subrange(dollar + 1, end) =~= b.subrange(dollar + 1, end));
    let size = text::unsigned_within(b.subrange(dollar + 1, end), usize::MAX as nat)->0;
    assert((b + c).subrange(end + 2, end + 2 + size) =~= b.subrange(end + 2, end + 2 + size));
}

proof fn lemma_parse_bulks_extends(b: Seq<u8>, c: Seq<u8>, cursor: int, n: nat)
    requires
        0 <= cursor <= b.len(),
        parse_bulks(b, cursor, n) is Some,
    ensures
        parse_bulks(b + c, cursor, n) == parse_bulks(b, cursor, n),
        cursor <= (parse_bulks(b, cursor, n)->0).1 <= b.len(),
    decreases n,
{
    if n > 0 {
        lemma_parse_bulk_extends(b, c, cursor);
        lemma_parse_bulks_extends(b, c, (parse_bulk(b, cursor)->0).1, (n - 1) as nat);
    }
}

/// Law: a whole request is read the same whatever bytes follow it, and it takes
/// at least one byte and no more than there are.
pub proof fn law_parse_ignores_what_follows(b: Seq<u8>, c: Seq<u8>)
    requires
        parse_frame(b) is Some,
    ensures
        parse_frame(b + c) == parse_frame(b),
        0 < (parse_frame(b)->0).1 <= b.len(),
{
    lemma_first_from_extends(b, c, 1, 13);
    text::lemma_first_from(b, 1, 13);
    let end = text::first_from(b, 1, 13)->0;
    assert((b + c).subrange(1, end) =~= b.subrange(1, end));
    let n = text::unsigned_within(b.subrange(1, end), usize::MAX as nat)->0;
    lemma_parse_bulks_extends(b, c, end + 2, n);
}

/// The wire form of bulk strings, one after the other.
pub open spec fn bulks_bytes(items: Seq<Seq<u8>>) -> Seq<u8>
    decreases items.len(),
{
    if items.len() == 0 {
        Seq::empty()
    } else {
        bulk_bytes(items[0]) + bulks_bytes(items.drop_first())
    }
}

proof fn lemma_encoded_bulks(items: Seq<Seq<u8>>)
    ensures
        encoded_all(items.map_values(|b: Seq<u8>| RespView::Bulk(Some(b)))) == bulks_bytes(items),
    decreases items.len(),
{
    let carried = items.map_values(|b: Seq<u8>| RespView::Bulk(Some(b)));
    if items.len() > 0 {
        lemma_encoded_bulks(items.drop_first());
        assert(carried.subrange(1, carried.len() as int) =~= items.drop_first().map_values(
            |b: Seq<u8>| RespView::Bulk(Some(b)),
        ));
        assert(carried[0] == RespView::Bulk(Some(items[0])));
        assert(encoded(carried[0]) == bulk_bytes(items[0]));
    }
}

/// A decimal number and a line end, from `at` onward in `b`, are found and read.
proof fn lemma_number_line(b: Seq<u8>, at: int, n: nat)
    requires
        0 <= at,
        at + text::decimal(n).len() + 2 <= b.len(),
        b.subrange(at, at + text::decimal(n).len()) == text::decimal(n),
        crlf_at(b, at + text::decimal(n).len() as int),
        n <= usize::MAX,
    ensures
        text::first_from(b, at, 13) == Some(at + text::decimal(n).len()),
        text::unsigned_within(b.subrange(at, at + text::decimal(n).len()), usize::MAX as nat)
            == Some(n),
{
    let digits = text::decimal(n);
    let end = at + digits.len();
    text::lemma_decimal_digits(n);
    text::law_decimal_roundtrip(n);
    assert forall|j: int| at <= j < end implies #[trigger] b[j] != 13 by {
        assert(b.subrange(at, end)[j - at] == b[j]);
        assert(text::is_digit(digits[j - at]));
    }
    text::lemma_first_from_is(b, at, 13, end);
}

proof fn lemma_parse_bulk_of_encoded(b: Seq<u8>, pre: Seq<u8>, item: Seq<u8>, post: Seq<u8>)
    requires
        b == pre + bulk_bytes(item) + post,
        item.len() <= usize::MAX,
    ensures
        parse_bulk(b, pre.len() as int) == Some((item, (pre.len() + bulk_bytes(item).len()) as int)),
{
    let at = pre.len() as int;
    let digits = text::decimal(item.len());
    let wire = bulk_bytes(item);
    let end = at + 1 + digits.len();
    assert forall|i: int| 0 <= i < wire.len() implies #[trigger] b[at + i] == wire[i] by {}
    assert(b[at] == wire[0] == 36);
    text::lemma_first_from_is(b, at, 36, at);
    assert(b.subrange(at + 1, end) =~= digits) by {
        assert forall|i: int| 0 <= i < digits.len() implies b.subrange(at + 1, end)[i]
            == digits[i] by {
            assert(b[at + (1 + i)] == wire[1 + i]);
        }
    }
    assert(crlf_at(b, end)) by {
        assert(b[at + (1 + digits.len())] == wire[(1 + digits.len()) as int]);
        assert(b[at + (2 + digits.len())] == wire[(2 + digits.len()) as int]);
    }
    lemma_number_line(b, at + 1, item.len());
    let data_end = end + 2 + item.len();
    assert(crlf_at(b, data_end)) by {
        let k = (3 + digits.len() + item.len()) as int;
        assert(b[at + k] == wire[k]);
        assert(b[at + (k + 1)] == wire[k + 1]);
    }
    assert(b.subrange(end + 2, data_end) =~= item) by {
        assert forall|i: int| 0 <= i < item.len() implies b.subrange(end + 2, data_end)[i]
            == item[i] by {
            let k = (3 + digits.len() + i) as int;
            assert(b[at + k] == wire[k]);
        }
    }
}

#[verifier::rlimit(60)]
#[verifier::spinoff_prover]
proof fn lemma_parse_bulks_of_encoded(
    b: Seq<u8>,
    pre: Seq<u8>,
    items: Seq<Seq<u8>>,
    post: Seq<u8>,
)
    requires
        b == pre + bulks_bytes(items) + post,
        forall|i: int| 0 <= i < items.len() ==> (#[trigger] items[i]).len() <= usize::MAX,
    ensures
        parse_bulks(b, pre.len() as int, items.len()) == Some(
            (items, (pre.len() + bulks_bytes(items).len()) as int),
        ),
    decreases items.len(),
{
    if items.len() == 0 {
        assert(items =~= Seq::<Seq<u8>>::empty());
    } else {
        let first = bulk_bytes(items[0]);
        let rest = items.drop_first();
        assert(b =~= pre + first + (bulks_bytes(rest) + post));
        lemma_parse_bulk_of_encoded(b, pre, items[0], bulks_bytes(rest) + post);
        assert(b =~= (pre + first) + bulks_bytes(rest) + post);
        assert forall|i: int| 0 <= i < rest.len() implies (#[trigger] rest[i]).len()
            <= usize::MAX by {
            assert(rest[i] == items[i + 1]);
        }
        lemma_parse_bulks_of_encoded(b, pre + first, rest, post);
        assert(seq![items[0]] + rest =~= items);
    }
}

/// Law: what a client sends is what the server reads. The wire form of an array
/// of bulk strings, whatever follows it, parses to the same strings, and the
/// request ends where the wire form ends.
pub proof fn law_request_roundtrip(items: Seq<Seq<u8>>, post: Seq<u8>)
    requires
        items.len() <= usize::MAX,
        forall|i: int| 0 <= i < items.len() ==> (#[trigger] items[i]).len() <= usize::MAX,
    ensures
        parse_frame(encoded(bulk_array(items)) + post) == Some(
            (items, encoded(bulk_array(items)).len() as int),
        ),
{
    let wire = encoded(bulk_array(items));
    let b = wire + post;
    let digits = text::decimal(items.len());
    let head = seq![42u8] + digits + crlf();
    lemma_encoded_bulks(items);
    assert(wire =~= head + bulks_bytes(items));
    let end = (1 + digits.len()) as int;
    assert(b.subrange(1, end) =~= digits);
    assert(crlf_at(b, end));
    lemma_number_line(b, 1, items.len());
    assert(b =~= head + bulks_bytes(items) + post);
    lemma_parse_bulks_of_encoded(b, head, items, post);
}

/// Law: a request of which something is still missing is not read.
pub proof fn law_partial_request_waits(items: Seq<Seq<u8>>, n: int)
    requires
        items.len() <= usize::MAX,
        forall|i: int| 0 <= i < items.len() ==> (#[trigger] items[i]).len() <= usize::MAX,
        0 <= n < encoded(bulk_array(items)).len(),
    ensures
        parse_frame(encoded(bulk_array(items)).take(n)) is None,
{
    let wire = encoded(bulk_array(items));
    law_request_roundtrip(items, Seq::empty());
    assert(wire + Seq::<u8>::empty() =~= wire);
    if parse_frame(wire.take(n)) is Some {
        law_parse_ignores_what_follows(wire.take(n), wire.skip(n));
        assert(wire.take(n) + wire.skip(n) =~= wire);
    }
}

/// The number that stands in `b` from `start` to the line end at `end`.
pub open spec fn number_line(b: Seq<u8>, start: int, end: int) -> Option<nat> {
    if 0 <= start <= end && end + 1 < b.len() && b[end] == 13 && b[end + 1] == 10 {
        text::unsigned_value(b.subrange(start, end))
    } else {
        None
    }
}

/// Law: what is read as a bulk string is introduced by a dollar sign and its length
/// on a line, is as long as that, and has a line end behind it.
pub proof fn law_bulk_is_as_long_as_it_says(b: Seq<u8>, cursor: int)
    requires
        0 <= cursor,
        parse_bulk(b, cursor) is Some,
    ensures
        ({
            let (item, next) = parse_bulk(b, cursor)->0;
            exists|dollar: int, end: int|
                {
                    &&& cursor <= dollar < end
                    &&& b[dollar] == 36
                    &&& #[trigger] number_line(b, dollar + 1, end) == Some(item.len())
                    &&& end + 4 + item.len() == next <= b.len()
                    &&& item == b.subrange(end + 2, end + 2 + item.len())
                    &&& b[next - 2] == 13 && b[next - 1] == 10
                }
        }),
{
    text::lemma_first_from(b, cursor, 36);
    let dollar = text::first_from(b, cursor, 36)->0;
    text::lemma_first_from(b, dollar + 1, 13);
    let end = text::first_from(b, dollar + 1, 13)->0;
    assert(number_line(b, dollar + 1, end) is Some);
}

/// Law: a request begins with an asterisk and the number of its words on a line, and
/// has so many words, each a bulk string that begins where the one before it ends.
pub proof fn law_request_has_the_words_it_says(b: Seq<u8>)
    requires
        parse_frame(b) is Some,
    ensures
        ({
            let (items, consumed) = parse_frame(b)->0;
            &&& b[0] == 42
            &&& exists|end: int| #[trigger]
                number_line(b, 1, end) == Some(items.len()) && parse_bulks(
                    b,
                    end + 2,
                    items.len(),
                ) == Some((items, consumed))
        }),
{
    text::lemma_first_from(b, 1, 13);
    let end = text::first_from(b, 1, 13)->0;
    let n = text::unsigned_within(b.subrange(1, end), usize::MAX as nat)->0;
    lemma_parse_bulks_count(b, end + 2, n);
    assert(number_line(b, 1, end) == Some(n));
}

proof fn lemma_parse_bulks_count(b: Seq<u8>, cursor: int, n: nat)
    ensures
        parse_bulks(b, cursor, n) matches Some((items, _)) ==> items.len() == n,
    decreases n,
{
    if n > 0 {
        if let Some((item, next)) = parse_bulk(b, cursor) {
            lemma_parse_bulks_count(b, next, (n - 1) as nat);
        }
    }
}

/// Law: words are read one after the other: the first from where it is looked for,
/// and the others from where it ends.
pub proof fn law_words_follow_each_other(b: Seq<u8>, cursor: int, n: nat)
    ensures
        parse_bulks(b, cursor, 0) == Some((Seq::<Seq<u8>>::empty(), cursor)),
        parse_bulks(b, cursor, n + 1) matches Some((items, end)) ==> {
            &&& items.len() == n + 1
            &&& parse_bulk(b, cursor) matches Some((item, next)) && item == items[0]
                && parse_bulks(b, next, n) == Some((items.drop_first(), end))
        },
{
    if let Some((items, end)) = parse_bulks(b, cursor, n + 1) {
        lemma_parse_bulks_count(b, cursor, n + 1);
        let (item, next) = parse_bulk(b, cursor)->0;
        let rest = (parse_bulks(b, next, n)->0).0;
        assert((seq![item] + rest).drop_first() =~= rest);
    }
}

/// Law: the first byte of an answer tells its kind; a number, a text and an error
/// stand on one line; bytes and lists have their length in front; and an absence is
/// a length below zero.
pub proof fn law_wire_forms(
    s: Seq<char>,
    n: i64,
    data: Seq<u8>,
    first: RespView,
    rest: Seq<RespView>,
)
    ensures
        ({
            let line_end = encode_utf8("\r\n"@);
            let none = Seq::<RespView>::empty();
            let more = seq![first] + rest;
            &&& encoded(RespView::Simple(s)) == encode_utf8("+"@) + encode_utf8(s) + line_end
            &&& encoded(RespView::Error(s)) == encode_utf8("-ERR "@) + encode_utf8(s) + line_end
            &&& encoded(RespView::Integer(n)) == encode_utf8(":"@) + text::signed_decimal(
                n as int,
            ) + line_end
            &&& encoded(RespView::Bulk(Some(data))) == encode_utf8("$"@) + text::decimal(
                data.len(),
            ) + line_end + data + line_end
            &&& encoded(RespView::Rdb(data)) == encode_utf8("$"@) + text::decimal(data.len())
                + line_end + data
            &&& encoded(RespView::Bulk(None)) == encode_utf8("$-1\r\n"@)
            &&& encoded(RespView::Array(None)) == encode_utf8("*-1\r\n"@)
            &&& encoded(RespView::Array(Some(none))) == encode_utf8("*0\r\n"@)
            &&& encoded(RespView::Array(Some(more))) == encode_utf8("*"@) + text::decimal(
                rest.len() + 1,
            ) + line_end + encoded(first) + encoded_all(rest)
        }),
{
    reveal_strlit("\r\n");
    reveal_strlit("+");
    reveal_strlit("-ERR ");
    reveal_strlit(":");
    reveal_strlit("$");
    reveal_strlit("$-1\r\n");
    reveal_strlit("*-1\r\n");
    reveal_strlit("*0\r\n");
    reveal_strlit("*");
    lemma_ascii_literal("\r\n"@, seq![13u8, 10u8]);
    lemma_ascii_literal("+"@, seq![43u8]);
    lemma_ascii_literal("-ERR "@, seq![45u8, 69u8, 82u8, 82u8, 32u8]);
    lemma_ascii_literal(":"@, seq![58u8]);
    lemma_ascii_literal("$"@, seq![36u8]);
    lemma_ascii_literal("$-1\r\n"@, seq![36u8, 45u8, 49u8, 13u8, 10u8]);
    lemma_ascii_literal("*-1\r\n"@, seq![42u8, 45u8, 49u8, 13u8, 10u8]);
    lemma_ascii_literal("*0\r\n"@, seq![42u8, 48u8, 13u8, 10u8]);
    lemma_ascii_literal("*"@, seq![42u8]);
    let more = seq![first] + rest;
    assert(more.subrange(1, more.len() as int) =~= rest);
    assert(encoded_all(more) == encoded(first) + encoded_all(rest));
    let head = seq![42u8] + text::decimal(more.len()) + crlf();
    assert(head + (encoded(first) + encoded_all(rest)) =~= head + encoded(first) + encoded_all(
        rest,
    ));
    assert(encoded(RespView::Array(Some(Seq::empty()))) =~= seq![42u8, 48u8, 13u8, 10u8]);
}

proof fn lemma_ascii_literal(s: Seq<char>, b: Seq<u8>)
    requires
        is_ascii_chars(s),
        s.len() == b.len(),
        forall|i: int| 0 <= i < s.len() ==> #[trigger] s[i] as u8 == b[i],
    ensures
        encode_utf8(s) == b,
{
    is_ascii_chars_encode_utf8(s);
    assert forall|i: int| 0 <= i < s.len() implies encode_utf8(s)[i] == b[i] by {
        assert(s[i] as u8 == encode_utf8(s)[i]);
    }
    assert(encode_utf8(s) =~= b);
}

// ---------------------------------------------------------------
// Replies
// ---------------------------------------------------------------

/// Whether a request has to reach the replicas.
#[derive(Clone, Copy, Debug, PartialEq, Eq, Structural)]
pub enum Propagate {
    Skip,
    Replicate,
}

/// What a command asks of the connection that sent it.
pub enum Reply {
    Now(RespBody, Propagate),
    Rdb(RespBody, RespBody),
    StartTransaction,
    AddTransaction(RespBody),
    ExecTransaction,
    DiscardTransaction(Option<RespBody>),
    Blocked,
    BlockedOnAck { timeout: Option<Duration>, num_replicas: u32, repl_offset: i64 },
    AckOffset(i64),
}

/// A [`Reply`] with its values as [`RespView`]s.
#[verifier::ext_equal]
pub enum ReplyView {
    Now(RespView, Propagate),
    Rdb(RespView, RespView),
    StartTransaction,
    AddTransaction(RespView),
    ExecTransaction,
    DiscardTransaction(Option<RespView>),
    Blocked,
    BlockedOnAck { timeout: Option<Duration>, num_replicas: u32, repl_offset: i64 },
    AckOffset(i64),
}

impl View for Reply {
    type V = ReplyView;

    open spec fn view(&self) -> ReplyView {
        match self {
            Reply::Now(body, propagate) => ReplyView::Now(body@, *propagate),
            Reply::Rdb(sync, rdb) => ReplyView::Rdb(sync@, rdb@),
            Reply::StartTransaction => ReplyView::StartTransaction,
            Reply::AddTransaction(body) => ReplyView::AddTransaction(body@),
            Reply::ExecTransaction => ReplyView::ExecTransaction,
            Reply::DiscardTransaction(None) => ReplyView::DiscardTransaction(None),
            Reply::DiscardTransaction(Some(body)) => ReplyView::DiscardTransaction(Some(body@)),
            Reply::Blocked => ReplyView::Blocked,
            Reply::BlockedOnAck { timeout, num_replicas, repl_offset } => ReplyView::BlockedOnAck {
                timeout: *timeout,
                num_replicas: *num_replicas,
                repl_offset: *repl_offset,
            },
            Reply::AckOffset(offset) => ReplyView::AckOffset(*offset),
        }
    }
}

impl Reply {
    /// A reply that stays between this server and the client.
    pub fn readonly(body: RespBody) -> (r: Reply)
        ensures
            r@ == ReplyView::Now(body@, Propagate::Skip),
    {
        Reply::Now(body, Propagate::Skip)
    }

    /// The reply to a write, which the replicas have to repeat.
    pub fn write(body: RespBody) -> (r: Reply)
        ensures
            r@ == ReplyView::Now(body@, Propagate::Replicate),
    {
        Reply::Now(body, Propagate::Replicate)
    }
}

// ---------------------------------------------------------------
// Conversions
// ---------------------------------------------------------------

impl From<&str> for RespBody {
    fn from(value: &str) -> (r: Self)
        ensures
            r@ == RespView::Bulk(Some(encode_utf8(value@))),
    {
        RespBody::Bulk(Some(vstd::slice::slice_to_vec(value.as_bytes())))
    }
}

impl vstd::std_specs::convert::FromSpecImpl<&str> for RespBody {
    open spec fn obeys_from_spec() -> bool {
        false
    }

    open spec fn from_spec(value: &str) -> Self {
        arbitrary()
    }
}

impl From<Vec<u8>> for RespBody {
    fn from(v: Vec<u8>) -> (r: Self)
        ensures
            r@ == RespView::Bulk(Some(v@)),
    {
        RespBody::Bulk(Some(v))
    }
}

impl vstd::std_specs::convert::FromSpecImpl<Vec<u8>> for RespBody {
    open spec fn obeys_from_spec() -> bool {
        true
    }

    open spec fn from_spec(v: Vec<u8>) -> Self {
        RespBody::Bulk(Some(v))
    }
}

/// Law: a request is an array of bulk strings, and these are its words; nothing else
/// is one.
pub proof fn law_what_a_request_is(v: RespView, words: Seq<Seq<u8>>)
    ensures
        request_args(v) == Some(words) <==> {
            &&& v matches RespView::Array(Some(items))
            &&& items.len() == words.len()
            &&& forall|i: int|
                0 <= i < items.len() ==> #[trigger] items[i] == RespView::Bulk(Some(words[i]))
        },
{
    if let RespView::Array(Some(items)) = v {
        let seen = items.map_values(|item: RespView| item->Bulk_0->0);
        if request_args(v) == Some(words) {
            assert forall|i: int| 0 <= i < items.len() implies #[trigger] items[i]
                == RespView::Bulk(Some(words[i])) by {
                assert(seen[i] == words[i]);
            }
        }
        if items.len() == words.len() && (forall|i: int|
            0 <= i < items.len() ==> #[trigger] items[i] == RespView::Bulk(Some(words[i]))) {
            assert(seen =~= words);
        }
    }
}

} // verus!
