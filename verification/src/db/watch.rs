//! Which clients watch which keys.
use vstd::prelude::*;
use crate::client::ClientId;
use crate::db::key_value::Key;
use crate::db::model;
use crate::db::model::WatchView;
use crate::db::table;
use crate::db::table::Table;

verus! {

/// What one client watches, and whether any of it was touched since.
pub struct ClientWatch {
    keys: Table<Key, ()>,
    dirty: bool,
}

impl View for ClientWatch {
    type V = WatchView;

    closed spec fn view(&self) -> WatchView {
        WatchView { keys: self.keys@.dom(), dirty: self.dirty }
    }
}

impl ClientWatch {
    pub closed spec fn wf(self) -> bool {
        self.keys.wf()
    }

    fn new() -> (r: Self)
        ensures
            r.wf(),
            r@ == (WatchView { keys: Set::empty(), dirty: false }),
    {
        let r = Self { keys: Table::new(), dirty: false };
        assert(r@.keys =~= Set::empty());
        r
    }

    fn add(&mut self, key: Key)
        requires
            old(self).wf(),
        ensures
            final(self).wf(),
            final(self)@ == (WatchView {
                keys: old(self)@.keys.insert(key@),
                dirty: old(self)@.dirty,
            }),
    {
        self.keys.insert(key, ());
        assert(self@.keys =~= old(self)@.keys.insert(key@));
    }

    fn make_dirty(&mut self)
        requires
            old(self).wf(),
        ensures
            final(self).wf(),
            final(self)@ == (WatchView { keys: old(self)@.keys, dirty: true }),
    {
        self.dirty = true;
    }

    fn is_dirty(&self) -> (r: bool)
        ensures
            r == self@.dirty,
    {
        self.dirty
    }
}

/// The index between keys and the clients that watch them, both ways round.
pub struct Watches {
    by_key: Table<Key, Table<ClientId, ()>>,
    by_client: Table<ClientId, ClientWatch>,
}

impl View for Watches {
    type V = Map<ClientId, WatchView>;

    closed spec fn view(&self) -> Map<ClientId, WatchView> {
        self.by_client@.map_values(|watch: ClientWatch| watch@)
    }
}

impl Watches {
    /// `client` is filed under `key`.
    pub closed spec fn files(self, key: Seq<u8>, client: ClientId) -> bool {
        self.by_key@.contains_key(key) && self.by_key@[key]@.contains_key(client)
    }

    /// The keys under which some client is filed.
    pub closed spec fn filed_keys(self) -> Set<Seq<u8>> {
        self.by_key@.dom()
    }

    closed spec fn tables_wf(self) -> bool {
        &&& self.by_key.wf()
        &&& self.by_client.wf()
        &&& forall|key: Seq<u8>| #[trigger]
            self.by_key@.contains_key(key) ==> self.by_key@[key].wf()
        &&& forall|client: ClientId| #[trigger]
            self.by_client@.contains_key(client) ==> self.by_client@[client].wf()
    }

    /// A client is filed under the keys that it watches and no others, and no
    /// key is kept for nobody.
    pub closed spec fn wf(self) -> bool {
        &&& self.tables_wf()
        &&& forall|key: Seq<u8>, client: ClientId| #[trigger]
            self.files(key, client) <==> self@.contains_key(client) && self@[client].keys.contains(
                key,
            )
        &&& forall|key: Seq<u8>| #[trigger]
            self.by_key@.contains_key(key) ==> exists|client: ClientId| self.files(key, client)
    }

    pub fn new() -> (r: Self)
        ensures
            r.wf(),
            r@ == Map::<ClientId, WatchView>::empty(),
    {
        let r = Self { by_key: Table::new(), by_client: Table::new() };
        assert(r@ =~= Map::<ClientId, WatchView>::empty());
        r
    }

    /// Tells every client that watches `key` that it was touched.
    pub fn touch(&mut self, key: &Key)
        requires
            old(self).wf(),
        ensures
            final(self).wf(),
            final(self)@ == model::touch_watches(old(self)@, key@),
    {
        match self.by_key.get(key) {
            Some(watchers) => {
                let mut i: usize = 0;
                let n: usize = watchers.len();
                while i < n
                    invariant
                        old(self).wf(),
                        i <= n,
                        n == watchers.entries().len(),
                        watchers.wf(),
                        self.by_key == old(self).by_key,
                        old(self).by_key@.contains_key(key@),
                        *watchers == old(self).by_key@[key@],
                        self.tables_wf(),
                        self@.dom() == old(self)@.dom(),
                        forall|c: ClientId| #[trigger]
                            self@.contains_key(c) ==> {
                                &&& self@[c].keys == old(self)@[c].keys
                                &&& self@[c].dirty == (old(self)@[c].dirty || exists|j: int|
                                    0 <= j < i && (#[trigger] watchers.entries()[j]).0 == c)
                            },
                    decreases n - i,
                {
                    let client: &ClientId = watchers.key_at(i);
                    let ghost before = self@;
                    match self.by_client.get_mut(client) {
                        Some(watch) => watch.make_dirty(),
                        None => {},
                    }
                    proof {
                        assert forall|c: ClientId| #[trigger] self@.contains_key(c) implies {
                            &&& self@[c].keys == old(self)@[c].keys
                            &&& self@[c].dirty == (old(self)@[c].dirty || exists|j: int|
                                0 <= j < i + 1 && (#[trigger] watchers.entries()[j]).0 == c)
                        } by {
                            assert(before.contains_key(c));
                            if c == client {
                                assert(watchers.entries()[i as int].0 == c);
                            } else {
                                assert(self@[c] == before[c]);
                            }
                        }
                    }
                    i += 1;
                }
                proof {
                    let want = model::touch_watches(old(self)@, key@);
                    assert forall|c: ClientId| #[trigger] self@.contains_key(c) implies self@[c]
                        == want[c] by {
                        let watched = old(self)@[c].keys.contains(key@);
                        assert(watched == old(self).files(key@, c));
                        if watched {
                            table::lemma_entry_of(watchers.entries(), c);
                            let j = table::position(watchers.entries(), c);
                            assert(watchers.entries()[j].0 == c);
                        }
                        if exists|j: int|
                            0 <= j < n && (#[trigger] watchers.entries()[j]).0 == c {
                            let j = choose|j: int|
                                0 <= j < n && (#[trigger] watchers.entries()[j]).0 == c;
                            table::lemma_entry(watchers.entries(), j);
                        }
                    }
                    assert(self@ =~= want);
                    assert forall|k: Seq<u8>, c: ClientId| #[trigger] self.files(k, c) <==> (
                    self@.contains_key(c) && self@[c].keys.contains(k)) by {
                        assert(self.files(k, c) == old(self).files(k, c));
                    }
                    assert forall|k: Seq<u8>| #[trigger]
                        self.by_key@.contains_key(k) implies exists|c: ClientId|
                        self.files(k, c) by {
                        let c = choose|c: ClientId| old(self).files(k, c);
                        assert(self.files(k, c));
                    }
                }
            },
            None => {
                proof {
                    let want = model::touch_watches(old(self)@, key@);
                    assert forall|c: ClientId| #[trigger] self@.contains_key(c) implies self@[c]
                        == want[c] by {
                        assert(!old(self).files(key@, c));
                    }
                    assert(self@ =~= want);
                }
            },
        }
    }

    /// Adds `key` to what `client` watches.
    pub fn watch(&mut self, client: ClientId, key: &Key)
        requires
            old(self).wf(),
        ensures
            final(self).wf(),
            final(self)@ == model::watch_all(old(self)@, client, seq![key@]),
    {
        if !self.by_client.contains_key(&client) {
            self.by_client.insert(client, ClientWatch::new());
        }
        match self.by_client.get_mut(&client) {
            Some(watch) => watch.add(key.clone()),
            None => {},
        }
        if !self.by_key.contains_key(key) {
            self.by_key.insert(key.clone(), Table::new());
        }
        match self.by_key.get_mut(key) {
            Some(watchers) => watchers.insert(client, ()),
            None => {},
        }
        proof {
            let want = model::watch_all(old(self)@, client, seq![key@]);
            assert(seq![key@].to_set() =~= Set::empty().insert(key@)) by {
                assert(seq![key@][0] == key@);
            }
            assert(self@[client].keys =~= want[client].keys);
            assert(self@ =~= want);
            assert forall|k: Seq<u8>, c: ClientId| #[trigger] self.files(k, c) <==> (
            self@.contains_key(c) && self@[c].keys.contains(k)) by {
                assert(self.files(k, c) == (old(self).files(k, c) || (k == key@ && c == client)));
            }
            assert forall|k: Seq<u8>| #[trigger] self.by_key@.contains_key(k) implies exists|
                c: ClientId,
            | self.files(k, c) by {
                if k == key@ {
                    assert(self.files(k, client));
                } else {
                    let c = choose|c: ClientId| old(self).files(k, c);
                    assert(self.files(k, c));
                }
            }
        }
    }

    /// Forgets what `client` watches.
    pub fn unwatch(&mut self, client: ClientId)
        requires
            old(self).wf(),
        ensures
            final(self).wf(),
            final(self)@ == old(self)@.remove(client),
    {
        match self.by_client.remove(&client) {
            Some(watch) => {
                let keys = watch.keys;
                let n: usize = keys.len();
                let mut i: usize = 0;
                assert(watch.wf());
                proof {
                    assert forall|k: Seq<u8>| #[trigger]
                        self.by_key@.contains_key(k) implies exists|c: ClientId|
                        self.files(k, c) by {
                        let c = choose|c: ClientId| old(self).files(k, c);
                        assert(self.files(k, c));
                    }
                    assert forall|k: Seq<u8>, c: ClientId| #[trigger]
                        self.files(k, c) == old(self).files(k, c) by {}
                }
                while i < n
                    invariant
                        old(self).wf(),
                        i <= n,
                        n == keys.entries().len(),
                        keys.wf(),
                        self.tables_wf(),
                        old(self)@.contains_key(client),
                        keys@.dom() == old(self)@[client].keys,
                        self.by_client@ == old(self).by_client@.remove(client),
                        forall|k: Seq<u8>, c: ClientId| #[trigger]
                            self.files(k, c) <==> {
                                &&& old(self).files(k, c)
                                &&& c == client ==> !exists|j: int|
                                    0 <= j < i && (#[trigger] keys.entries()[j]).0@ == k
                            },
                        forall|k: Seq<u8>| #[trigger]
                            self.by_key@.contains_key(k) ==> exists|c: ClientId| self.files(k, c),
                    decreases n - i,
                {
                    let key: &Key = keys.key_at(i);
                    let ghost before = *self;
                    let empty: bool = match self.by_key.get_mut(key) {
                        Some(watchers) => {
                            watchers.remove(&client);
                            watchers.len() == 0
                        },
                        None => false,
                    };
                    let ghost middle = *self;
                    if empty {
                        self.by_key.remove(key);
                    }
                    proof {
                        assert forall|k: Seq<u8>, c: ClientId| #[trigger]
                            self.files(k, c) == (before.files(k, c) && !(k == key@ && c
                            == client)) by {
                            if empty && k == key@ && before.files(k, c) && c != client {
                                assert(middle.by_key@[k]@.contains_key(c));
                                table::lemma_entry_of(middle.by_key@[k].entries(), c);
                            }
                        }
                        assert forall|k: Seq<u8>, c: ClientId| #[trigger]
                            self.files(k, c) <==> {
                                &&& old(self).files(k, c)
                                &&& c == client ==> !exists|j: int|
                                    0 <= j < i + 1 && (#[trigger] keys.entries()[j]).0@ == k
                            } by {
                            assert(before.files(k, c) == {
                                &&& old(self).files(k, c)
                                &&& c == client ==> !exists|j: int|
                                    0 <= j < i && (#[trigger] keys.entries()[j]).0@ == k
                            });
                            assert(keys.entries()[i as int].0@ == key@);
                        }
                        assert forall|k: Seq<u8>| #[trigger]
                            self.by_key@.contains_key(k) implies exists|c: ClientId|
                            self.files(k, c) by {
                            let c = choose|c: ClientId| before.files(k, c);
                            if k != key@ {
                                assert(self.files(k, c));
                            } else {
                                let e = self.by_key@[k].entries();
                                assert(e.len() > 0);
                                table::lemma_entry(e, 0);
                                assert(self.files(k, e[0].0));
                            }
                        }
                    }
                    i += 1;
                }
                proof {
                    assert(self@ =~= old(self)@.remove(client));
                    assert forall|k: Seq<u8>, c: ClientId| #[trigger] self.files(k, c) <==> (
                    self@.contains_key(c) && self@[c].keys.contains(k)) by {
                        if c == client && old(self).files(k, c) {
                            assert(keys@.contains_key(k));
                            table::lemma_entry_of(keys.entries(), k);
                            let j = table::position(keys.entries(), k);
                            assert(keys.entries()[j].0@ == k);
                        }
                    }
                }
            },
            None => {
                assert(self@ =~= old(self)@.remove(client));
                assert forall|k: Seq<u8>, c: ClientId| #[trigger]
                    self.files(k, c) == old(self).files(k, c) by {}
                assert forall|k: Seq<u8>| #[trigger] self.by_key@.contains_key(k) implies exists|
                    c: ClientId,
                | self.files(k, c) by {
                    let c = choose|c: ClientId| old(self).files(k, c);
                    assert(self.files(k, c));
                }
            },
        }
    }

    pub fn is_dirty(&self, client: ClientId) -> (r: bool)
        requires
            self.wf(),
        ensures
            r == (self@.contains_key(client) && self@[client].dirty),
    {
        match self.by_client.get(&client) {
            Some(watch) => watch.is_dirty(),
            None => false,
        }
    }
}

/// Law: the index is consistent both ways. A client is filed under a key if and
/// only if it watches that key, and a key is kept only while somebody watches it.
pub proof fn law_index_is_consistent(watches: Watches, key: Seq<u8>, client: ClientId)
    requires
        watches.wf(),
    ensures
        watches.files(key, client) <==> watches@.contains_key(client)
            && watches@[client].keys.contains(key),
        watches.filed_keys().contains(key) <==> exists|other: ClientId| watches.files(key, other),
{
    if watches.filed_keys().contains(key) {
        assert(watches.by_key@.contains_key(key));
    }
}

} // verus!
