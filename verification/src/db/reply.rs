//! Stream entries as replies.
use vstd::prelude::*;
use crate::db::key_value::{Key, Value};
use crate::db::model;
use crate::db::object;
use crate::db::stream_id::StreamId;
use crate::resp;
use crate::resp::RespBody;

verus! {

/// The fields of an entry, names and values in turn.
pub fn fields_reply(fields: &Vec<(Key, Value)>) -> (r: RespBody)
    ensures
        r@ == model::fields_reply(object::fields_view(fields@)),
{
    let mut out: Vec<RespBody> = Vec::new();
    let ghost view = object::fields_view(fields@);
    let mut i: usize = 0;
    while i < fields.len()
        invariant
            i <= fields@.len(),
            view == object::fields_view(fields@),
            out@.len() == 2 * i,
            forall|j: int|
                0 <= j < 2 * i ==> (#[trigger] out@[j])@ == resp::RespView::Bulk(
                    Some(
                        if j % 2 == 0 {
                            view[j / 2].0
                        } else {
                            view[j / 2].1
                        },
                    ),
                ),
        decreases fields@.len() - i,
    {
        assert(view[i as int] == (fields@[i as int].0@, fields@[i as int].1@));
        out.push(RespBody::from(&fields[i].0));
        out.push(RespBody::from(&fields[i].1));
        i += 1;
    }
    proof {
        resp::lemma_array_view(out);
        assert(resp::resp_views(out@) =~= model::fields_reply(view)->Array_0->0);
    }
    RespBody::Array(Some(out))
}

/// An entry: its id, and its fields.
pub fn entry_reply(id: &StreamId, fields: &Vec<(Key, Value)>) -> (r: RespBody)
    ensures
        r@ == model::entry_reply((*id, object::fields_view(fields@))),
{
    let mut out: Vec<RespBody> = Vec::new();
    out.push(RespBody::from(*id));
    out.push(fields_reply(fields));
    proof {
        resp::lemma_array_view(out);
        assert(resp::resp_views(out@) =~= model::entry_reply(
            (*id, object::fields_view(fields@)),
        )->Array_0->0);
    }
    RespBody::Array(Some(out))
}

/// The entries in their order.
pub fn entries_reply(entries: &Vec<(&StreamId, &Vec<(Key, Value)>)>) -> (r: RespBody)
    ensures
        r@ == model::entries_reply(object::range_view(entries@)),
{
    let mut out: Vec<RespBody> = Vec::new();
    let ghost view = object::range_view(entries@);
    let mut i: usize = 0;
    while i < entries.len()
        invariant
            i <= entries@.len(),
            view == object::range_view(entries@),
            out@.len() == i,
            forall|j: int|
                0 <= j < i ==> (#[trigger] out@[j])@ == model::entry_reply(view[j]),
        decreases entries@.len() - i,
    {
        let (id, fields) = entries[i];
        assert(view[i as int] == (*id, object::fields_view(fields@)));
        out.push(entry_reply(id, fields));
        i += 1;
    }
    proof {
        resp::lemma_array_view(out);
        assert(resp::resp_views(out@) =~= model::entries_reply(view)->Array_0->0);
    }
    RespBody::Array(Some(out))
}

/// A stream by its key, with some of its entries.
pub fn stream_reply(key: &Key, entries: &Vec<(&StreamId, &Vec<(Key, Value)>)>) -> (r: RespBody)
    ensures
        r@ == model::stream_reply(key@, object::range_view(entries@)),
{
    let mut out: Vec<RespBody> = Vec::new();
    out.push(RespBody::from(key));
    out.push(entries_reply(entries));
    proof {
        resp::lemma_array_view(out);
        assert(resp::resp_views(out@) =~= model::stream_reply(
            key@,
            object::range_view(entries@),
        )->Array_0->0);
    }
    RespBody::Array(Some(out))
}

/// An element and the key of the list that it came from.
pub fn element_reply(key: &Key, element: Value) -> (r: RespBody)
    ensures
        r@ == model::element_reply(key@, element@),
{
    let mut out: Vec<RespBody> = Vec::new();
    out.push(RespBody::from(key));
    out.push(RespBody::from(element));
    proof {
        resp::lemma_array_view(out);
        assert(resp::resp_views(out@) =~= model::element_reply(key@, element@)->Array_0->0);
    }
    RespBody::Array(Some(out))
}

} // verus!
