//! What the commands on streams answer and leave, said of the entries alone.
use vstd::prelude::*;
use vstd::utf8::*;
use crate::command::answers;
use crate::command::answers::Sender;
use crate::command::common::{BlockMode, ErrorView};
use crate::command::kind::CommandKind;
use crate::command::model;
use crate::db;
use crate::db::model::{DbView, PositionView};
use crate::db::object;
use crate::db::object::{EntryView, ObjectView};
use crate::db::stream_id;
use crate::db::stream_id::StreamId;
use crate::resp::{ReplyView, RespView};
use crate::text;
use crate::time::Duration;

verus! {

// ---------------------------------------------------------------
// The shape of an answer
// ---------------------------------------------------------------

/// `body` shows an entry: its id, and then its names and values in turn.
pub open spec fn shows_entry(body: RespView, entry: EntryView) -> bool {
    &&& body matches RespView::Array(Some(parts))
    &&& parts.len() == 2
    &&& parts[0] == RespView::Bulk(
        Some(
            text::decimal(entry.0.ms as nat) + encode_utf8("-"@) + text::decimal(
                entry.0.seq as nat,
            ),
        ),
    )
    &&& parts[1] matches RespView::Array(Some(fields))
    &&& fields.len() == 2 * entry.1.len()
    &&& forall|i: int|
        0 <= i < entry.1.len() ==> fields[2 * i] == RespView::Bulk(Some((#[trigger] entry.1[i]).0))
            && fields[2 * i + 1] == RespView::Bulk(Some(entry.1[i].1))
}

/// `body` shows some entries, one after the other.
pub open spec fn shows_entries(body: RespView, entries: Seq<EntryView>) -> bool {
    &&& body matches RespView::Array(Some(items))
    &&& items.len() == entries.len()
    &&& forall|i: int| 0 <= i < entries.len() ==> shows_entry(items[i], #[trigger] entries[i])
}

/// `body` shows a key and some entries of its stream.
pub open spec fn shows_stream(body: RespView, key: Seq<u8>, entries: Seq<EntryView>) -> bool {
    &&& body matches RespView::Array(Some(parts))
    &&& parts.len() == 2
    &&& parts[0] == RespView::Bulk(Some(key))
    &&& shows_entries(parts[1], entries)
}

proof fn lemma_dash()
    ensures
        encode_utf8("-"@) == seq![45u8],
{
    reveal_strlit("-");
    is_ascii_chars_encode_utf8("-"@);
    assert("-"@[0] as u8 == encode_utf8("-"@)[0]);
    assert(encode_utf8("-"@) =~= seq![45u8]);
}

proof fn lemma_shows(key: Seq<u8>, entries: Seq<EntryView>)
    ensures
        shows_entries(db::model::entries_reply(entries), entries),
        shows_stream(db::model::stream_reply(key, entries), key, entries),
{
    lemma_dash();
    let items = entries.map_values(|entry: EntryView| db::model::entry_reply(entry));
    assert(db::model::entries_reply(entries) == RespView::Array(Some(items)));
    assert forall|i: int| 0 <= i < entries.len() implies shows_entry(
        items[i],
        #[trigger] entries[i],
    ) by {
        let entry = entries[i];
        assert(items[i] == db::model::entry_reply(entry));
        let fields = db::model::fields_reply(entry.1)->Array_0->0;
        assert forall|j: int| 0 <= j < entry.1.len() implies fields[2 * j] == RespView::Bulk(
            Some((#[trigger] entry.1[j]).0),
        ) && fields[2 * j + 1] == RespView::Bulk(Some(entry.1[j].1)) by {
            assert((2 * j) / 2 == j && (2 * j) % 2 == 0);
            assert((2 * j + 1) / 2 == j && (2 * j + 1) % 2 == 1);
        }
    }
}

// ---------------------------------------------------------------
// Ids
// ---------------------------------------------------------------

/// One id comes before the other: by its time, then by its number.
pub open spec fn before(a: StreamId, b: StreamId) -> bool {
    a.ms < b.ms || (a.ms == b.ms && a.seq < b.seq)
}

pub open spec fn ascending(entries: Seq<EntryView>) -> bool {
    forall|i: int, j: int|
        0 <= i < j < entries.len() ==> before((#[trigger] entries[i]).0, (#[trigger] entries[j]).0)
}

/// `b` is cut at `at`, its first dash.
pub open spec fn dash_at(b: Seq<u8>, at: int) -> bool {
    0 <= at < b.len() && b[at] == 45 && forall|i: int| 0 <= i < at ==> #[trigger] b[i] != 45
}

/// `b` is a time, a dash and a number.
pub open spec fn spells(b: Seq<u8>, id: StreamId) -> bool {
    exists|at: int| #[trigger]
        dash_at(b, at) && text::unsigned_value(b.subrange(0, at)) == Some(id.ms as nat)
            && text::unsigned_value(b.subrange(at + 1, b.len() as int)) == Some(id.seq as nat)
}

/// The id that a word stands for in a stream whose last id is `last`.
pub open spec fn stands_for(b: Seq<u8>, last: Option<StreamId>, id: StreamId) -> bool {
    ||| b == seq![45u8] && id.ms == 0 && id.seq == 0
    ||| b == seq![43u8] && id.ms == 0xffff_ffff_ffff_ffff && id.seq == 0xffff_ffff_ffff_ffff
    ||| b == seq![36u8] && (last == Some(id) || (last is None && id.ms == 0 && id.seq == 0))
    ||| b.len() > 1 && spells(b, id)
    ||| b.len() > 1 && text::unsigned_value(b) == Some(id.ms as nat) && id.seq == 0
}

proof fn lemma_number_ascii(b: Seq<u8>)
    requires
        text::unsigned_value(b) is Some,
    ensures
        text::is_ascii_bytes(b),
        b.len() > 0,
        forall|i: int| 0 <= i < b.len() ==> #[trigger] b[i] != 45,
{
    assert forall|i: int| 0 <= i < b.len() implies #[trigger] b[i] < 128 && b[i] != 45 by {
        if b[0] == 43 {
            if i > 0 {
                assert(text::is_digit(b.skip(1)[i - 1]));
            }
        } else {
            assert(text::is_digit(b[i]));
        }
    }
}

proof fn lemma_spelled(b: Seq<u8>, id: StreamId)
    requires
        spells(b, id),
    ensures
        text::is_ascii_bytes(b),
        stream_id::parts_at_dash(b) matches Some((ms, seq)) && stream_id::id_of_parts(ms, seq)
            == Ok::<StreamId, ErrorView>(id) && seq != seq![42u8],
        b.len() > 1,
{
    let at = choose|at: int| #[trigger]
        dash_at(b, at) && text::unsigned_value(b.subrange(0, at)) == Some(id.ms as nat)
            && text::unsigned_value(b.subrange(at + 1, b.len() as int)) == Some(id.seq as nat);
    let (ms, seq) = (b.subrange(0, at), b.subrange(at + 1, b.len() as int));
    lemma_number_ascii(ms);
    lemma_number_ascii(seq);
    text::lemma_first_from_is(b, 0, 45, at);
    assert forall|i: int| 0 <= i < b.len() implies #[trigger] b[i] < 128 by {
        if i < at {
            assert(ms[i] < 128);
        } else if i > at {
            assert(seq[i - at - 1] < 128);
        }
    }
    if seq == seq![42u8] {
        assert(!text::is_digit(seq[0]));
    }
}

proof fn lemma_stands_for(b: Seq<u8>, last: Option<StreamId>, id: StreamId)
    requires
        stands_for(b, last, id),
    ensures
        stream_id::bound_id(model::text_bytes(b), last) == Ok::<StreamId, ErrorView>(id),
{
    if b.len() > 1 && spells(b, id) {
        lemma_spelled(b, id);
    } else if b.len() > 1 {
        lemma_number_ascii(b);
        text::lemma_first_from(b, 0, 45);
    }
    assert(text::is_ascii_bytes(b));
    text::lemma_ascii_text(b);
    assert(model::text_bytes(b) == b);
}

/// Law: the written form of an id stands for it.
pub proof fn law_written_id_stands_for_it(id: StreamId, last: Option<StreamId>)
    ensures
        stands_for(
            text::decimal(id.ms as nat) + seq![45u8] + text::decimal(id.seq as nat),
            last,
            id,
        ),
{
    let ms = text::decimal(id.ms as nat);
    let seq = text::decimal(id.seq as nat);
    let b = ms + seq![45u8] + seq;
    text::lemma_decimal_digits(id.ms as nat);
    text::law_decimal_roundtrip(id.ms as nat);
    text::law_decimal_roundtrip(id.seq as nat);
    assert forall|i: int| 0 <= i < ms.len() implies #[trigger] b[i] != 45 by {
        assert(text::is_digit(ms[i]));
    }
    assert(b.subrange(0, ms.len() as int) =~= ms);
    assert(b.subrange(ms.len() as int + 1, b.len() as int) =~= seq);
    assert(dash_at(b, ms.len() as int));
}

proof fn lemma_bounds_stand(b: Seq<u8>, last: Option<StreamId>)
    ensures
        stream_id::bound_id(b, last) matches Ok(id) ==> stands_for(b, last, id),
        stream_id::bound_id(b, last) matches Err(e) ==> e is ParseStream,
{
    text::lemma_first_from(b, 0, 45);
    if b.len() == 1 {
        assert(b =~= seq![b[0]]);
    } else if let Some(at) = text::first_from(b, 0, 45) {
        assert(dash_at(b, at));
    }
}

/// Law: a bound that stands for no id is refused, and nothing changes.
pub proof fn law_xrange_refuses(db: DbView, args: Seq<Seq<u8>>, by: Sender)
    requires
        args.len() == 4,
        valid_utf8(args[2]) && valid_utf8(args[3]),
        (forall|id: StreamId| !stands_for(args[2], None, id)) || (forall|id: StreamId|
            !stands_for(args[3], None, id)),
    ensures
        ({
            let r = answers::run(db, CommandKind::Xrange, args, by);
            r.0 == db && r.1 is Err && r.1->Err_0 is ParseStream
        }),
{
    decode_utf8_encode_utf8(args[2]);
    decode_utf8_encode_utf8(args[3]);
    lemma_bounds_stand(args[2], None);
    lemma_bounds_stand(args[3], None);
}

// ---------------------------------------------------------------
// Ranges
// ---------------------------------------------------------------

/// `shown` are the entries from `first` to `last`, both included, in order.
pub open spec fn is_range(
    entries: Seq<EntryView>,
    first: StreamId,
    last: StreamId,
    shown: Seq<EntryView>,
) -> bool {
    &&& ascending(shown)
    &&& forall|entry: EntryView| #[trigger]
        shown.contains(entry) <==> entries.contains(entry) && !before(entry.0, first) && !before(
            last,
            entry.0,
        )
}

proof fn lemma_range(entries: Seq<EntryView>, first: StreamId, last: StreamId)
    requires
        ascending(entries),
    ensures
        is_range(entries, first, last, object::entries_between(entries, first, last)),
{
    let shown = object::entries_between(entries, first, last);
    assert(object::ids_increase(entries));
    assert forall|entry: EntryView| #[trigger]
        shown.contains(entry) <==> entries.contains(entry) && !before(entry.0, first) && !before(
            last,
            entry.0,
        ) by {
        db::laws::law_range_is_exact(entries, first, last, entry);
    }
    db::laws::law_range_is_exact(entries, first, last, arbitrary());
}

/// The entries of the stream that can be read at `key`.
pub open spec fn entries_at(db: DbView, key: Seq<u8>) -> Seq<EntryView> {
    match answers::held(db, key) {
        Some(ObjectView::Stream(entries)) => entries,
        _ => Seq::empty(),
    }
}

/// Law: XRANGE answers with the entries of the stream whose ids lie between the
/// two that it is given, both included, all of them and no others, in order. Where
/// there is no stream there are none; on something else it fails; and where the second
/// id does not come behind the first it is refused. It changes nothing.
pub proof fn law_xrange(
    db: DbView,
    args: Seq<Seq<u8>>,
    by: Sender,
    first: StreamId,
    last: StreamId,
)
    requires
        args.len() == 4,
        stands_for(args[2], None, first),
        stands_for(args[3], None, last),
        ascending(entries_at(db, args[1])),
    ensures
        ({
            let r = answers::run(db, CommandKind::Xrange, args, by);
            let found = answers::held(db, args[1]);
            &&& answers::nothing_new(db, r.0)
            &&& !before(first, last) ==> r.1 is Err && r.1->Err_0 is ParseStream
            &&& before(first, last) && found is Some && !(found->0 is Stream) ==> answers::fails(
                r,
                ErrorView::WrongType("stream"@),
            )
            &&& before(first, last) && (found is None || found->0 is Stream) ==> exists|
                body: RespView,
                shown: Seq<EntryView>,
            |
                {
                    &&& #[trigger] shows_entries(body, shown)
                    &&& is_range(entries_at(db, args[1]), first, last, shown)
                    &&& answers::reads(r, body)
                }
        }),
{
    let key = args[1];
    lemma_stands_for(args[2], None, first);
    lemma_stands_for(args[3], None, last);
    answers::lemma_lapsed(db, key);
    let entries = entries_at(db, key);
    let shown = object::entries_between(entries, first, last);
    let body = db::model::entries_reply(shown);
    lemma_range(entries, first, last);
    lemma_shows(key, shown);
    let r = answers::run(db, CommandKind::Xrange, args, by);
    let found = answers::held(db, key);
    assert(answers::nothing_new(db, db));
    if before(first, last) && (found is None || found->0 is Stream) {
        assert(shows_entries(body, shown));
        assert(answers::reads(r, body));
    }
}

/// Law: an entry that stands at either end of a range is in it.
pub proof fn law_range_has_its_ends(
    entries: Seq<EntryView>,
    first: EntryView,
    last: EntryView,
    shown: Seq<EntryView>,
)
    requires
        entries.contains(first) && entries.contains(last),
        before(first.0, last.0),
        is_range(entries, first.0, last.0, shown),
    ensures
        shown.len() >= 2,
        shown[0] == first,
        shown.last() == last,
{
    assert(shown.contains(first) && shown.contains(last));
    let i = choose|i: int| 0 <= i < shown.len() && shown[i] == first;
    let j = choose|j: int| 0 <= j < shown.len() && shown[j] == last;
    if i > 0 {
        assert(before(shown[0].0, shown[i].0));
        assert(shown.contains(shown[0]));
    }
    let end = shown.len() - 1;
    if j < end {
        assert(before(shown[j].0, shown[end].0));
        assert(shown.contains(shown[end]));
    }
}

// ---------------------------------------------------------------
// Adding
// ---------------------------------------------------------------

/// The id that the next entry gets: the one that is asked for, or the one behind
/// the last of its millisecond. It has to come behind the last, and 0-0 is none.
pub open spec fn given_id(
    b: Seq<u8>,
    last: Option<StreamId>,
    now: Duration,
    id: StreamId,
) -> bool {
    let clock = (now.nanos / 1_000_000) as u64;
    ||| spells(b, id)
    ||| {
        &&& b == seq![42u8]
        &&& id.ms == clock
        &&& if last matches Some(top) && top.ms == clock {
            id.seq == (last->0).seq + 1
        } else {
            id.seq == 0
        }
    }
    ||| {
        &&& exists|at: int| #[trigger]
            dash_at(b, at) && b.subrange(at + 1, b.len() as int) == seq![42u8]
                && text::unsigned_value(b.subrange(0, at)) == Some(id.ms as nat)
        &&& if last matches Some(top) && top.ms == id.ms {
            id.seq == (last->0).seq + 1
        } else if id.ms == 0 {
            id.seq == 1
        } else {
            id.seq == 0
        }
    }
}

proof fn lemma_given_id(b: Seq<u8>, last: Option<StreamId>, now: Duration, id: StreamId)
    requires
        given_id(b, last, now, id),
    ensures
        stream_id::requested_id(model::text_bytes(b)) matches Ok(asked) && db::model::next_id(
            last,
            asked,
            (now.nanos / 1_000_000) as u64,
        ) == db::model::accepted_id(last, id),
{
    if spells(b, id) {
        lemma_spelled(b, id);
    } else if b != seq![42u8] {
        let at = choose|at: int| #[trigger]
            dash_at(b, at) && b.subrange(at + 1, b.len() as int) == seq![42u8]
                && text::unsigned_value(b.subrange(0, at)) == Some(id.ms as nat);
        let ms = b.subrange(0, at);
        let rest = b.subrange(at + 1, b.len() as int);
        lemma_number_ascii(ms);
        text::lemma_first_from_is(b, 0, 45, at);
        assert(rest.len() == 1 && rest[0] == 42);
        assert forall|i: int| 0 <= i < b.len() implies #[trigger] b[i] < 128 by {
            if i < at {
                assert(ms[i] < 128);
            } else if i > at {
                assert(rest[i - at - 1] < 128);
            }
        }
    }
    assert(text::is_ascii_bytes(b));
    text::lemma_ascii_text(b);
    assert(model::text_bytes(b) == b);
}

/// Law: XADD puts an entry with the name and the value behind all that the stream
/// holds, and answers with its id. An id that does not come behind the last is
/// refused, and so is 0-0; and then the stream stays as it was. On something else it
/// fails, and nothing changes.
pub proof fn law_xadd(db: DbView, args: Seq<Seq<u8>>, by: Sender, id: StreamId)
    requires
        args.len() == 5,
        ({
            let entries = match answers::stored(db, args[1]) {
                Some(ObjectView::Stream(entries)) => entries,
                _ => Seq::empty(),
            };
            given_id(
                args[2],
                if entries.len() > 0 {
                    Some(entries.last().0)
                } else {
                    None
                },
                db.now,
                id,
            )
        }),
    ensures
        ({
            let r = answers::run(db, CommandKind::Xadd, args, by);
            let key = args[1];
            let fits = answers::stored(db, key) is None || answers::stored(db, key)->0 is Stream;
            let entries = match answers::stored(db, key) {
                Some(ObjectView::Stream(entries)) => entries,
                _ => Seq::empty(),
            };
            &&& answers::same_but(db, r.0, key)
            &&& r.0.expires == db.expires
            &&& r.0.stream_waiters == db.stream_waiters
            &&& !fits ==> answers::fails(r, ErrorView::WrongType("stream"@)) && r.0.keyspace
                == db.keyspace
            &&& fits ==> if id.ms == 0 && id.seq == 0 {
                answers::fails(r, ErrorView::InvalidStreamZero) && answers::stored(r.0, key)
                    == Some(ObjectView::Stream(entries))
            } else if entries.len() > 0 && !before(entries.last().0, id) {
                answers::fails(r, ErrorView::InvalidStream) && answers::stored(r.0, key) == Some(
                    ObjectView::Stream(entries),
                )
            } else {
                &&& answers::writes(
                    r,
                    RespView::Bulk(
                        Some(
                            text::decimal(id.ms as nat) + encode_utf8("-"@) + text::decimal(
                                id.seq as nat,
                            ),
                        ),
                    ),
                    args,
                )
                &&& answers::stored(r.0, key) == Some(
                    ObjectView::Stream(entries.push((id, seq![(args[3], args[4])]))),
                )
            }
        }),
{
    let key = args[1];
    lemma_dash();
    answers::lemma_words(args);
    let entries = match answers::stored(db, key) {
        Some(ObjectView::Stream(entries)) => entries,
        _ => Seq::empty(),
    };
    lemma_given_id(args[2], object::last_entry_id(entries), db.now, id);
    assert(model::pairs(args.skip(3)) =~= seq![(args[3], args[4])]);
    assert(db.touched(key).stream_created(key).stream_or_empty(key) == db.stream_or_empty(key));
}

// ---------------------------------------------------------------
// Reading on
// ---------------------------------------------------------------

/// The entries behind `id`.
pub open spec fn behind(entries: Seq<EntryView>, id: StreamId) -> Seq<EntryView> {
    entries.filter(|entry: EntryView| before(id, entry.0))
}

/// The streams that have entries behind the ids, key by key.
pub open spec fn news(db: DbView, keys: Seq<Seq<u8>>, ids: Seq<StreamId>) -> Seq<
    (Seq<u8>, Seq<EntryView>),
>
    decreases keys.len(),
{
    if keys.len() == 0 {
        Seq::empty()
    } else {
        let found = behind(entries_at(db, keys[0]), ids[0]);
        let rest = news(db, keys.drop_first(), ids.drop_first());
        if found.len() > 0 {
            seq![(keys[0], found)] + rest
        } else {
            rest
        }
    }
}

/// `body` shows streams with their entries, one after the other.
pub open spec fn shows_streams(body: RespView, found: Seq<(Seq<u8>, Seq<EntryView>)>) -> bool {
    &&& body matches RespView::Array(Some(items))
    &&& items.len() == found.len()
    &&& forall|i: int|
        0 <= i < found.len() ==> shows_stream(
            items[i],
            (#[trigger] found[i]).0,
            found[i].1,
        )
}

/// The last id at `key`.
pub open spec fn last_at(db: DbView, key: Seq<u8>) -> Option<StreamId> {
    let entries = entries_at(db, key);
    if entries.len() > 0 {
        Some(entries.last().0)
    } else {
        None
    }
}

/// Every key holds a stream or nothing, no time is over, and every word stands for
/// an id that another can follow within its millisecond.
pub open spec fn can_read_on(
    db: DbView,
    keys: Seq<Seq<u8>>,
    wanted: Seq<Seq<u8>>,
    ids: Seq<StreamId>,
) -> bool {
    &&& wanted.len() == keys.len() && ids.len() == keys.len()
    &&& forall|i: int|
        0 <= i < keys.len() ==> {
            &&& !answers::over(db, #[trigger] keys[i])
            &&& answers::stored(db, keys[i]) is None || answers::stored(db, keys[i])->0 is Stream
            &&& stands_for(wanted[i], last_at(db, keys[i]), ids[i])
            &&& ids[i].seq < u64::MAX
        }
}

/// The first ids of interest.
pub open spec fn places(keys: Seq<Seq<u8>>, ids: Seq<StreamId>) -> Seq<PositionView> {
    Seq::new(
        keys.len(),
        |i: int| (keys[i], StreamId { ms: ids[i].ms, seq: (ids[i].seq + 1) as u64 }),
    )
}

/// `after` holds the streams of `db`, and perhaps empty ones where it held nothing.
pub open spec fn same_entries(db: DbView, after: DbView) -> bool {
    &&& after.expires == db.expires
    &&& after.now == db.now
    &&& after.watches == db.watches
    &&& after.list_waiters == db.list_waiters
    &&& after.stream_waiters == db.stream_waiters
    &&& after.outbox == db.outbox
    &&& forall|key: Seq<u8>|
        (#[trigger] answers::stored(after, key)) == answers::stored(db, key) || (answers::stored(
            db,
            key,
        ) is None && answers::stored(after, key) == Some(ObjectView::Stream(Seq::empty())))
}

proof fn lemma_same_entries(a: DbView, b: DbView, c: DbView)
    requires
        same_entries(a, b),
        same_entries(b, c),
    ensures
        same_entries(a, c),
{
    assert forall|key: Seq<u8>|
        (#[trigger] answers::stored(c, key)) == answers::stored(a, key) || (answers::stored(
            a,
            key,
        ) is None && answers::stored(c, key) == Some(ObjectView::Stream(Seq::empty()))) by {
        assert(answers::stored(b, key) == answers::stored(b, key));
    }
}

proof fn lemma_can_still(
    db: DbView,
    after: DbView,
    keys: Seq<Seq<u8>>,
    wanted: Seq<Seq<u8>>,
    ids: Seq<StreamId>,
)
    requires
        same_entries(db, after),
        can_read_on(db, keys, wanted, ids),
    ensures
        can_read_on(after, keys, wanted, ids),
        news(after, keys, ids) == news(db, keys, ids),
    decreases keys.len(),
{
    assert forall|key: Seq<u8>| entries_at(after, key) == #[trigger] entries_at(db, key) by {
        assert(answers::stored(after, key) == answers::stored(after, key));
    }
    assert forall|i: int| 0 <= i < keys.len() implies {
        &&& !answers::over(after, #[trigger] keys[i])
        &&& answers::stored(after, keys[i]) is None || answers::stored(
            after,
            keys[i],
        )->0 is Stream
        &&& stands_for(wanted[i], last_at(after, keys[i]), ids[i])
        &&& ids[i].seq < u64::MAX
    } by {
        assert(entries_at(after, keys[i]) == entries_at(db, keys[i]));
        assert(answers::stored(after, keys[i]) == answers::stored(after, keys[i]));
    }
    lemma_news_alike(db, after, keys, ids);
}

proof fn lemma_news_alike(db: DbView, after: DbView, keys: Seq<Seq<u8>>, ids: Seq<StreamId>)
    requires
        forall|key: Seq<u8>| entries_at(after, key) == #[trigger] entries_at(db, key),
    ensures
        news(after, keys, ids) == news(db, keys, ids),
    decreases keys.len(),
{
    if keys.len() > 0 {
        assert(entries_at(after, keys[0]) == entries_at(db, keys[0]));
        lemma_news_alike(db, after, keys.drop_first(), ids.drop_first());
    }
}

proof fn lemma_rest(
    db: DbView,
    keys: Seq<Seq<u8>>,
    wanted: Seq<Seq<u8>>,
    ids: Seq<StreamId>,
)
    requires
        can_read_on(db, keys, wanted, ids),
        keys.len() > 0,
    ensures
        can_read_on(db, keys.drop_first(), wanted.drop_first(), ids.drop_first()),
{
    let rest = keys.drop_first();
    assert forall|i: int| 0 <= i < rest.len() implies {
        &&& !answers::over(db, #[trigger] rest[i])
        &&& answers::stored(db, rest[i]) is None || answers::stored(db, rest[i])->0 is Stream
        &&& stands_for(wanted.drop_first()[i], last_at(db, rest[i]), ids.drop_first()[i])
        &&& ids.drop_first()[i].seq < u64::MAX
    } by {
        assert(keys[i + 1] == rest[i]);
    }
}

/// The places are found.
proof fn lemma_positions(
    db: DbView,
    keys: Seq<Seq<u8>>,
    wanted: Seq<Seq<u8>>,
    ids: Seq<StreamId>,
)
    requires
        can_read_on(db, keys, wanted, ids),
    ensures
        model::positions(db, keys, wanted).1 == Ok::<Seq<PositionView>, ErrorView>(
            places(keys, ids),
        ),
        same_entries(db, model::positions(db, keys, wanted).0),
    decreases keys.len(),
{
    if keys.len() == 0 {
        assert(places(keys, ids) =~= Seq::empty());
    } else {
        let key = keys[0];
        let created = db.stream_created(key);
        assert(!answers::over(db, keys[0]));
        assert(entries_at(db, key) == db.stream_or_empty(key)->Ok_0);
        lemma_stands_for(wanted[0], last_at(db, key), ids[0]);
        assert(same_entries(db, created));
        lemma_rest(db, keys, wanted, ids);
        lemma_can_still(db, created, keys.drop_first(), wanted.drop_first(), ids.drop_first());
        lemma_positions(created, keys.drop_first(), wanted.drop_first(), ids.drop_first());
        let rest = places(keys.drop_first(), ids.drop_first());
        assert(seq![places(keys, ids)[0]] + rest =~= places(keys, ids));
        lemma_same_entries(db, created, model::positions(db, keys, wanted).0);
    }
}

/// The entries from the place behind an id are those behind the id.
proof fn lemma_behind(entries: Seq<EntryView>, id: StreamId)
    requires
        id.seq < u64::MAX,
    ensures
        object::entries_between(
            entries,
            StreamId { ms: id.ms, seq: (id.seq + 1) as u64 },
            StreamId::last_of_all(),
        ) == behind(entries, id),
    decreases entries.len(),
{
    reveal(Seq::filter);
    if entries.len() > 0 {
        lemma_behind(entries.drop_last(), id);
    }
}

proof fn lemma_read(
    db: DbView,
    keys: Seq<Seq<u8>>,
    wanted: Seq<Seq<u8>>,
    ids: Seq<StreamId>,
)
    requires
        can_read_on(db, keys, wanted, ids),
    ensures
        ({
            let (after, found) = db::model::read_positions(db, places(keys, ids));
            &&& after == db
            &&& found matches Ok(items) && shows_streams(
                RespView::Array(Some(items)),
                news(db, keys, ids),
            )
        }),
    decreases keys.len(),
{
    let all = places(keys, ids);
    if keys.len() > 0 {
        let key = keys[0];
        assert(!answers::over(db, keys[0]));
        assert(db.lapsed(key) == db);
        lemma_rest(db, keys, wanted, ids);
        lemma_read(db, keys.drop_first(), wanted.drop_first(), ids.drop_first());
        assert(all.drop_first() =~= places(keys.drop_first(), ids.drop_first()));
        lemma_behind(entries_at(db, key), ids[0]);
        let found = behind(entries_at(db, key), ids[0]);
        assert(db.stream_range(key, all[0].1, StreamId::last_of_all()) == Ok::<_, ErrorView>(
            found,
        ));
        lemma_shows(key, found);
        let rest = db::model::read_positions(db, all.drop_first()).1->Ok_0;
        let later = news(db, keys.drop_first(), ids.drop_first());
        if found.len() > 0 {
            let items = seq![db::model::stream_reply(key, found)] + rest;
            let seen = seq![(key, found)] + later;
            assert forall|i: int| 0 <= i < seen.len() implies shows_stream(
                items[i],
                (#[trigger] seen[i]).0,
                seen[i].1,
            ) by {
                if i > 0 {
                    assert(later[i - 1] == seen[i]);
                }
            }
        }
    }
}

/// Law: XREAD answers with the entries behind the ids that it is given, stream by
/// stream, and leaves away the streams that have none. Where none has any, the answer
/// is a null array; but where BLOCK stands in front and the client may wait, it waits
/// so many milliseconds, or without limit where that is zero, for something behind
/// these ids. It changes no entry.
#[verifier::spinoff_prover]
#[verifier::rlimit(40)]
pub proof fn law_xread(
    db: DbView,
    args: Seq<Seq<u8>>,
    by: Sender,
    block: Option<u64>,
    keys: Seq<Seq<u8>>,
    wanted: Seq<Seq<u8>>,
    ids: Seq<StreamId>,
)
    requires
        keys.len() > 0,
        can_read_on(db, keys, wanted, ids),
        args.len() == 2 + 2 * keys.len() + if block is Some {
            2int
        } else {
            0
        },
        ({
            let at = if block is Some {
                3int
            } else {
                1
            };
            &&& block matches Some(ms) ==> {
                &&& text::same_ignoring_case(args[1], encode_utf8("block"@))
                &&& text::unsigned_value(args[2]) == Some(ms as nat)
            }
            &&& text::same_ignoring_case(args[at], encode_utf8("streams"@))
            &&& keys == args.subrange(at + 1, at + 1 + keys.len())
            &&& wanted == args.subrange(at + 1 + keys.len(), args.len() as int)
        }),
    ensures
        ({
            let r = answers::run(db, CommandKind::Xread, args, by);
            let found = news(db, keys, ids);
            if found.len() > 0 {
                &&& same_entries(db, r.0)
                &&& exists|body: RespView| #[trigger]
                    shows_streams(body, found) && answers::reads(r, body)
            } else if block is None || !by.may_wait {
                same_entries(db, r.0) && answers::reads(r, RespView::Array(None))
            } else {
                let wait = r.0.stream_waiters.last();
                &&& r.1 == Ok::<(ReplyView, Option<RespView>), ErrorView>(
                    (ReplyView::Blocked, None),
                )
                &&& same_entries(db, DbView { stream_waiters: db.stream_waiters, ..r.0 })
                &&& r.0.stream_waiters == db.stream_waiters.push(wait)
                &&& wait.client_id == by.id
                &&& wait.positions == places(keys, ids)
                &&& answers::in_millis(
                    db.now,
                    if block == Some(0u64) {
                        None
                    } else {
                        block
                    },
                    wait.deadline,
                )
            }
        }),
{
    lemma_xread_words(args, block, keys, wanted);
    lemma_positions(db, keys, wanted, ids);
    let next = model::positions(db, keys, wanted).0;
    lemma_can_still(db, next, keys, wanted, ids);
    lemma_read(next, keys, wanted, ids);
    let mode = asked_mode(block);
    assert(model::xread(db, by.id, args.skip(1), by.may_wait) == model::xread_at(
        next,
        by.id,
        places(keys, ids),
        mode,
        by.may_wait,
    ));
    let items = db::model::read_positions(next, places(keys, ids)).1->Ok_0;
    assert(shows_streams(RespView::Array(Some(items)), news(db, keys, ids)));
}

spec fn asked_mode(block: Option<u64>) -> BlockMode {
    match block {
        None => BlockMode::NotBlocking,
        Some(0) => BlockMode::Forever,
        Some(ms) => BlockMode::Timeout(Duration::spec_millis(ms)),
    }
}

/// The words of XREAD are taken apart.
proof fn lemma_xread_words(
    args: Seq<Seq<u8>>,
    block: Option<u64>,
    keys: Seq<Seq<u8>>,
    wanted: Seq<Seq<u8>>,
)
    requires
        keys.len() > 0,
        wanted.len() == keys.len(),
        args.len() == 2 + 2 * keys.len() + if block is Some {
            2int
        } else {
            0
        },
        ({
            let at = if block is Some {
                3int
            } else {
                1
            };
            &&& block matches Some(ms) ==> {
                &&& text::same_ignoring_case(args[1], encode_utf8("block"@))
                &&& text::unsigned_value(args[2]) == Some(ms as nat)
            }
            &&& text::same_ignoring_case(args[at], encode_utf8("streams"@))
            &&& keys == args.subrange(at + 1, at + 1 + keys.len())
            &&& wanted == args.subrange(at + 1 + keys.len(), args.len() as int)
        }),
    ensures
        ({
            let front = model::block_prefix(args.skip(1));
            let back = model::after_streams((front->Ok_0).1);
            let half = (back->Ok_0).len() as int / 2;
            &&& front is Ok && back is Ok
            &&& (front->Ok_0).0 == asked_mode(block)
            &&& (back->Ok_0).take(half) == keys
            &&& (back->Ok_0).skip(half) == wanted
        }),
{
    let given = args.skip(1);
    let rest = if block is Some {
        given.skip(2)
    } else {
        given
    };
    let at = if block is Some {
        3int
    } else {
        1
    };
    lemma_keywords(args[at]);
    assert(rest[0] == args[at]);
    if block is None {
        assert(given[0] == args[1]);
    } else {
        assert(given[0] == args[1] && given[1] == args[2]);
    }
    let elems = rest.skip(1);
    let half = elems.len() as int / 2;
    assert(half == keys.len());
    assert(elems.take(half) =~= keys);
    assert(elems.skip(half) =~= wanted);
    assert((rest.len() - 1) % 2 == 0);
}

/// Law: XREAD of a key that holds something other than a stream fails, and changes
/// nothing.
pub proof fn law_xread_needs_a_stream(db: DbView, args: Seq<Seq<u8>>, by: Sender)
    requires
        args.len() == 4,
        text::same_ignoring_case(args[1], encode_utf8("streams"@)),
        answers::stored(db, args[2]) is Some && !(answers::stored(db, args[2])->0 is Stream),
    ensures
        answers::fails(
            answers::run(db, CommandKind::Xread, args, by),
            ErrorView::WrongType("stream"@),
        ),
        answers::run(db, CommandKind::Xread, args, by).0 == db,
{
    let keys = seq![args[2]];
    let wanted = seq![args[3]];
    assert(keys =~= args.subrange(2, 3));
    assert(wanted =~= args.subrange(3, 4));
    lemma_xread_words(args, None, keys, wanted);
}

/// STREAMS is not BLOCK.
proof fn lemma_keywords(b: Seq<u8>)
    requires
        text::same_ignoring_case(b, encode_utf8("streams"@)),
    ensures
        !text::same_ignoring_case(b, encode_utf8("block"@)),
{
    reveal_strlit("streams");
    reveal_strlit("block");
    is_ascii_chars_encode_utf8("streams"@);
    is_ascii_chars_encode_utf8("block"@);
}

} // verus!
