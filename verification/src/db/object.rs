//! What a key can hold.
use std::collections::VecDeque;
use vstd::prelude::*;
use crate::db::key_value::{Key, Value};
use crate::db::stream_id::StreamId;

verus! {

/// The fields of a stream entry, as byte sequences.
pub type FieldsView = Seq<(Seq<u8>, Seq<u8>)>;

/// A stream entry: its id and its fields.
pub type EntryView = (StreamId, Seq<(Seq<u8>, Seq<u8>)>);

pub open spec fn fields_view(fields: Seq<(Key, Value)>) -> FieldsView {
    fields.map_values(|field: (Key, Value)| (field.0@, field.1@))
}

pub open spec fn entry_view(entry: (StreamId, Vec<(Key, Value)>)) -> EntryView {
    (entry.0, fields_view(entry.1@))
}

/// Every id is greater than the ids before it.
pub open spec fn ids_increase(entries: Seq<EntryView>) -> bool {
    forall|i: int, j: int|
        0 <= i < j < entries.len() ==> (#[trigger] entries[i]).0.precedes(
            (#[trigger] entries[j]).0,
        )
}

/// The entries whose ids lie from `start` to `end`, both included.
pub open spec fn entries_between(
    entries: Seq<EntryView>,
    start: StreamId,
    end: StreamId,
) -> Seq<EntryView> {
    entries.filter(|entry: EntryView| start.at_most(entry.0) && entry.0.at_most(end))
}

pub open spec fn last_entry_id(entries: Seq<EntryView>) -> Option<StreamId> {
    if entries.len() == 0 {
        None
    } else {
        Some(entries.last().0)
    }
}

/// A log of entries, in the order of their ids.
pub struct Stream {
    entries: Vec<(StreamId, Vec<(Key, Value)>)>,
}

impl View for Stream {
    type V = Seq<EntryView>;

    closed spec fn view(&self) -> Seq<EntryView> {
        self.entries@.map_values(|entry: (StreamId, Vec<(Key, Value)>)| entry_view(entry))
    }
}

impl Stream {
    pub open spec fn wf(self) -> bool {
        ids_increase(self@)
    }

    pub fn new() -> (r: Self)
        ensures
            r.wf(),
            r@ == Seq::<EntryView>::empty(),
    {
        let r = Self { entries: Vec::new() };
        assert(r@ =~= Seq::<EntryView>::empty());
        r
    }

    pub fn len(&self) -> (r: usize)
        ensures
            r == self@.len(),
    {
        self.entries.len()
    }

    /// The greatest id in the stream.
    pub fn last_id(&self) -> (r: Option<StreamId>)
        ensures
            r == last_entry_id(self@),
    {
        if self.entries.len() == 0 {
            None
        } else {
            Some(self.entries[self.entries.len() - 1].0)
        }
    }

    /// Appends an entry, whose id is greater than all before it.
    pub fn push(&mut self, id: StreamId, fields: Vec<(Key, Value)>)
        requires
            old(self).wf(),
            last_entry_id(old(self)@) matches Some(last) ==> last.precedes(id),
        ensures
            final(self).wf(),
            final(self)@ == old(self)@.push((id, fields_view(fields@))),
    {
        self.entries.push((id, fields));
        assert(self@ =~= old(self)@.push((id, fields_view(fields@))));
        let ghost n = old(self)@.len() as int;
        assert(self.wf()) by {
            assert forall|i: int, j: int| 0 <= i < j < self@.len() implies (
            #[trigger] self@[i]).0.precedes((#[trigger] self@[j]).0) by {
                assert(self@[i] == old(self)@[i]);
                if j < n {
                    assert(self@[j] == old(self)@[j]);
                } else if i < n - 1 {
                    assert(old(self)@[i].0.precedes(old(self)@[n - 1].0));
                }
            }
        }
    }

    /// The entries whose ids lie from `start` to `end`, both included.
    pub fn range(&self, start: StreamId, end: StreamId) -> (r: Vec<
        (&StreamId, &Vec<(Key, Value)>),
    >)
        ensures
            range_view(r@) == entries_between(self@, start, end),
    {
        let mut out: Vec<(&StreamId, &Vec<(Key, Value)>)> = Vec::new();
        let ghost chosen = |entry: EntryView| start.at_most(entry.0) && entry.0.at_most(end);
        let mut i: usize = 0;
        assert(range_view(out@) =~= self@.take(0).filter(chosen)) by {
            reveal(Seq::filter);
        }
        while i < self.entries.len()
            invariant
                i <= self.entries@.len(),
                self.entries@.len() == self@.len(),
                chosen == (|entry: EntryView| start.at_most(entry.0) && entry.0.at_most(end)),
                range_view(out@) == self@.take(i as int).filter(chosen),
            decreases self.entries@.len() - i,
        {
            let entry = &self.entries[i];
            assert(self@[i as int] == entry_view(*entry));
            let ghost before = out@;
            let inside: bool = !start.is_valid(&entry.0) && !entry.0.is_valid(&end);
            if inside {
                out.push((&entry.0, &entry.1));
                assert(range_view(out@) =~= range_view(before).push(self@[i as int]));
            }
            proof {
                reveal(Seq::filter);
                let next = self@.take(i + 1);
                assert(next.drop_last() =~= self@.take(i as int));
                assert(next.last() == self@[i as int]);
                assert(chosen(self@[i as int]) == inside);
            }
            i += 1;
        }
        assert(self@.take(i as int) =~= self@);
        out
    }
}

pub open spec fn range_view(range: Seq<(&StreamId, &Vec<(Key, Value)>)>) -> Seq<EntryView> {
    range.map_values(
        |entry: (&StreamId, &Vec<(Key, Value)>)| (*entry.0, fields_view(entry.1@)),
    )
}

/// One type per key.
pub enum Object {
    String(Value),
    List(VecDeque<Value>),
    Stream(Stream),
}

/// An [`Object`] with its contents as sequences.
#[verifier::ext_equal]
pub enum ObjectView {
    String(Seq<u8>),
    List(Seq<Seq<u8>>),
    Stream(Seq<EntryView>),
}

pub open spec fn values_view(values: Seq<Value>) -> Seq<Seq<u8>> {
    values.map_values(|value: Value| value@)
}

impl View for Object {
    type V = ObjectView;

    open spec fn view(&self) -> ObjectView {
        match self {
            Object::String(value) => ObjectView::String(value@),
            Object::List(list) => ObjectView::List(values_view(list@)),
            Object::Stream(stream) => ObjectView::Stream(stream@),
        }
    }
}

impl ObjectView {
    pub open spec fn type_text(self) -> Seq<char> {
        match self {
            ObjectView::String(_) => "string"@,
            ObjectView::List(_) => "list"@,
            ObjectView::Stream(_) => "stream"@,
        }
    }
}

impl Object {
    pub open spec fn wf(self) -> bool {
        self matches Object::Stream(stream) ==> stream.wf()
    }

    pub fn kind_name(&self) -> (r: &'static str)
        ensures
            r@ == self@.type_text(),
    {
        match self {
            Object::String(_) => "string",
            Object::List(_) => "list",
            Object::Stream(_) => "stream",
        }
    }
}

} // verus!
