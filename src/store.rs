//! The two tables of the store: byte strings by key, and field maps by key.
use vstd::prelude::*;

verus! {

/// Whether two byte strings are equal.
pub fn bytes_eq(a: &Vec<u8>, b: &Vec<u8>) -> (r: bool)
    ensures
        r == (a@ == b@),
{
    if a.len() != b.len() {
        return false;
    }
    let mut i: usize = 0;
    while i < a.len()
        invariant
            a.len() == b.len(),
            i <= a.len(),
            forall|k: int| 0 <= k < i ==> a@[k] == b@[k],
        decreases a.len() - i,
    {
        if a[i] != b[i] {
            return false;
        }
        i = i + 1;
    }
    assert(a@ =~= b@);
    true
}

/// A copy of a byte string.
pub fn copy_bytes(a: &Vec<u8>) -> (r: Vec<u8>)
    ensures
        r@ == a@,
{
    let r = a.clone();
    assert(r@ =~= a@);
    r
}

/// Whether `ps` lists the entries of `m`, each key once, in some order.
pub open spec fn lists(ps: Seq<(Seq<u8>, Seq<u8>)>, m: Map<Seq<u8>, Seq<u8>>) -> bool {
    &&& forall|i: int, j: int| 0 <= i < j < ps.len() ==> ps[i].0 != ps[j].0
    &&& forall|i: int| 0 <= i < ps.len() ==> #[trigger] m.contains_key(ps[i].0) && m[ps[i].0] == ps[i].1
    &&& forall|k: Seq<u8>| #[trigger] m.contains_key(k) ==> exists|i: int| 0 <= i < ps.len() && ps[i].0 == k
}

/// A map from byte strings to byte strings.
pub struct Table {
    entries: Vec<(Vec<u8>, Vec<u8>)>,
    map: Ghost<Map<Seq<u8>, Seq<u8>>>,
}

impl View for Table {
    type V = Map<Seq<u8>, Seq<u8>>;

    closed spec fn view(&self) -> Map<Seq<u8>, Seq<u8>> {
        self.map@
    }
}

impl Table {
    /// The entries, in the order in which their keys were first written.
    pub closed spec fn pairs(&self) -> Seq<(Seq<u8>, Seq<u8>)> {
        Seq::new(self.entries@.len(), |i: int| (self.entries@[i].0@, self.entries@[i].1@))
    }

    /// The entries list the map, each key once.
    pub open spec fn wf(&self) -> bool {
        lists(self.pairs(), self@)
    }

    /// An empty table.
    pub fn new() -> (r: Table)
        ensures
            r.wf(),
            r@ == Map::<Seq<u8>, Seq<u8>>::empty(),
            r.pairs() == Seq::<(Seq<u8>, Seq<u8>)>::empty(),
    {
        let r = Table { entries: Vec::new(), map: Ghost(Map::empty()) };
        assert(r.pairs() =~= Seq::<(Seq<u8>, Seq<u8>)>::empty());
        r
    }

    /// The number of entries.
    pub fn len(&self) -> (r: usize)
        requires
            self.wf(),
        ensures
            r == self@.len(),
            r == self.pairs().len(),
    {
        proof {
            self.lemma_len();
        }
        self.entries.len()
    }

    proof fn lemma_len(&self)
        requires
            self.wf(),
        ensures
            self@.len() == self.pairs().len(),
            self@.dom().finite(),
    {
        let ps = self.pairs();
        let keys = Seq::new(ps.len(), |i: int| ps[i].0);
        assert(keys.no_duplicates());
        assert(keys.to_set() =~= self@.dom()) by {
            assert forall|k: Seq<u8>| self@.dom().contains(k) implies keys.to_set().contains(k) by {
                let i = choose|i: int| 0 <= i < ps.len() && ps[i].0 == k;
                assert(keys[i] == k);
            }
        }
        keys.unique_seq_to_set();
    }

    /// Where `key` stands among the entries, if it is there.
    fn find(&self, key: &Vec<u8>) -> (r: Option<usize>)
        requires
            self.wf(),
        ensures
            r is Some <==> self@.contains_key(key@),
            r is Some ==> r->0 < self.entries.len() && self.pairs()[r->0 as int].0 == key@,
    {
        let mut i: usize = 0;
        while i < self.entries.len()
            invariant
                self.wf(),
                i <= self.entries.len(),
                forall|k: int| 0 <= k < i ==> self.pairs()[k].0 != key@,
            decreases self.entries.len() - i,
        {
            if bytes_eq(&self.entries[i].0, key) {
                assert(self.pairs()[i as int].0 == key@);
                return Some(i);
            }
            i = i + 1;
        }
        None
    }

    /// The value under `key`.
    pub fn get(&self, key: &Vec<u8>) -> (r: Option<Vec<u8>>)
        requires
            self.wf(),
        ensures
            r is Some <==> self@.contains_key(key@),
            r is Some ==> r->0@ == self@[key@],
    {
        match self.find(key) {
            Some(i) => Some(copy_bytes(&self.entries[i].1)),
            None => None,
        }
    }

    /// The entry at `i`, in the order of `pairs`.
    pub fn entry_at(&self, i: usize) -> (r: (Vec<u8>, Vec<u8>))
        requires
            i < self.pairs().len(),
        ensures
            r.0@ == self.pairs()[i as int].0,
            r.1@ == self.pairs()[i as int].1,
    {
        (copy_bytes(&self.entries[i].0), copy_bytes(&self.entries[i].1))
    }

    /// Sets the value under `key`, adding the key if it is new.
    pub fn insert(&mut self, key: Vec<u8>, value: Vec<u8>)
        requires
            old(self).wf(),
        ensures
            final(self).wf(),
            final(self)@ == old(self)@.insert(key@, value@),
    {
        let ghost ps = self.pairs();
        let ghost m = self@;
        let ghost at: int;
        match self.find(&key) {
            Some(i) => {
                let (k, _) = self.entries.remove(i);
                self.entries.insert(i, (k, value));
                self.map = Ghost(m.insert(key@, value@));
                assert(self.pairs() =~= ps.update(i as int, (key@, value@)));
                proof {
                    at = i as int;
                }
            },
            None => {
                self.entries.push((key, value));
                self.map = Ghost(m.insert(key@, value@));
                assert(self.pairs() =~= ps.push((key@, value@)));
                proof {
                    at = ps.len() as int;
                }
            },
        }
        let ghost ps2 = self.pairs();
        assert forall|k: Seq<u8>| #[trigger] self@.contains_key(k) implies exists|i: int|
            0 <= i < ps2.len() && ps2[i].0 == k by {
            if k != key@ {
                let i = choose|i: int| 0 <= i < ps.len() && ps[i].0 == k;
                assert(ps2[i].0 == k);
            } else {
                assert(ps2[at].0 == k);
            }
        }
    }
}


/// A map from byte strings to field maps. A key is there only with at least
/// one field: a field map is made by the first write to it.
pub struct HashTable {
    entries: Vec<(Vec<u8>, Table)>,
    map: Ghost<Map<Seq<u8>, Map<Seq<u8>, Seq<u8>>>>,
}

impl View for HashTable {
    type V = Map<Seq<u8>, Map<Seq<u8>, Seq<u8>>>;

    closed spec fn view(&self) -> Map<Seq<u8>, Map<Seq<u8>, Seq<u8>>> {
        self.map@
    }
}

impl HashTable {
    /// The key of entry `i`.
    pub closed spec fn key_at(&self, i: int) -> Seq<u8> {
        self.entries@[i].0@
    }

    /// The entries hold each key once, with a well-formed field map that is
    /// the map's value for that key, and every key of the map has an entry.
    pub closed spec fn entries_wf(&self) -> bool {
        &&& forall|i: int, j: int|
            0 <= i < j < self.entries@.len() ==> self.key_at(i) != self.key_at(j)
        &&& forall|i: int|
            0 <= i < self.entries@.len() ==> {
                &&& (#[trigger] self.entries@[i]).1.wf()
                &&& self.map@.contains_key(self.key_at(i))
                &&& self.map@[self.key_at(i)] == self.entries@[i].1@
            }
        &&& forall|k: Seq<u8>|
            #[trigger] self.map@.contains_key(k) ==> exists|i: int|
                0 <= i < self.entries@.len() && self.key_at(i) == k
    }

    /// The entries are well formed, and no key has an empty field map.
    pub open spec fn wf(&self) -> bool {
        &&& self.entries_wf()
        &&& forall|k: Seq<u8>| #[trigger] self@.contains_key(k) ==> self@[k] != Map::<Seq<u8>, Seq<u8>>::empty()
    }

    /// An empty table.
    pub fn new() -> (r: HashTable)
        ensures
            r.wf(),
            r@ == Map::<Seq<u8>, Map<Seq<u8>, Seq<u8>>>::empty(),
    {
        HashTable { entries: Vec::new(), map: Ghost(Map::empty()) }
    }

    fn find(&self, key: &Vec<u8>) -> (r: Option<usize>)
        requires
            self.wf(),
        ensures
            r is Some <==> self@.contains_key(key@),
            r is Some ==> r->0 < self.entries.len() && self.key_at(r->0 as int) == key@,
    {
        let mut i: usize = 0;
        while i < self.entries.len()
            invariant
                self.wf(),
                i <= self.entries.len(),
                forall|k: int| 0 <= k < i ==> self.key_at(k) != key@,
            decreases self.entries.len() - i,
        {
            if bytes_eq(&self.entries[i].0, key) {
                assert(self.key_at(i as int) == key@);
                return Some(i);
            }
            i = i + 1;
        }
        None
    }

    /// The field map under `key`.
    pub fn get(&self, key: &Vec<u8>) -> (r: Option<&Table>)
        requires
            self.wf(),
        ensures
            r is Some <==> self@.contains_key(key@),
            r is Some ==> r->0.wf() && r->0@ == self@[key@],
    {
        match self.find(key) {
            Some(i) => {
                assert(self.entries@[i as int].1.wf());
                Some(&self.entries[i].1)
            },
            None => None,
        }
    }

    /// The value of `field` under `key`.
    pub fn get_field(&self, key: &Vec<u8>, field: &Vec<u8>) -> (r: Option<Vec<u8>>)
        requires
            self.wf(),
        ensures
            r is Some <==> self@.contains_key(key@) && self@[key@].contains_key(field@),
            r is Some ==> r->0@ == self@[key@][field@],
    {
        match self.get(key) {
            Some(t) => t.get(field),
            None => None,
        }
    }

    /// Sets `field` under `key` to `value`, making the field map of `key`
    /// first if there is none.
    pub fn set_field(&mut self, key: Vec<u8>, field: Vec<u8>, value: Vec<u8>)
        requires
            old(self).wf(),
        ensures
            final(self).wf(),
            final(self)@ == old(self)@.insert(
                key@,
                if old(self)@.contains_key(key@) {
                    old(self)@[key@]
                } else {
                    Map::empty()
                }.insert(field@, value@),
            ),
    {
        let ghost m = self@;
        let ghost old_entries = self.entries@;
        let ghost at: int;
        let ghost inner = if m.contains_key(key@) { m[key@] } else { Map::empty() };
        match self.find(&key) {
            Some(i) => {
                let (k, mut t) = self.entries.remove(i);
                assert(old_entries[i as int].1.wf());
                t.insert(field, value);
                self.entries.insert(i, (k, t));
                self.map = Ghost(m.insert(key@, inner.insert(field@, value@)));
                proof {
                    at = i as int;
                }
                assert forall|j: int| 0 <= j < self.entries@.len() && j != at implies self.entries@[j]
                    == old_entries[j] by {}
            },
            None => {
                let mut t = Table::new();
                t.insert(field, value);
                self.entries.push((key, t));
                self.map = Ghost(m.insert(key@, inner.insert(field@, value@)));
                proof {
                    at = old_entries.len() as int;
                }
                assert forall|j: int| 0 <= j < self.entries@.len() && j != at implies self.entries@[j]
                    == old_entries[j] by {}
            },
        }
        assert(self.key_at(at) == key@);
        assert forall|k: Seq<u8>| #[trigger] self@.contains_key(k) implies exists|i: int|
            0 <= i < self.entries@.len() && self.key_at(i) == k by {
            if k != key@ {
                let i = choose|i: int| 0 <= i < old_entries.len() && old_entries[i].0@ == k;
                assert(self.key_at(i) == k);
            }
        }
        assert(self@[key@].contains_key(field@));
    }
}

/// The model of a store: its two tables.
pub struct StoreView {
    pub strings: Map<Seq<u8>, Seq<u8>>,
    pub hashes: Map<Seq<u8>, Map<Seq<u8>, Seq<u8>>>,
}

/// The store: two tables, each written and read on its own.
pub struct Store {
    pub strings: Table,
    pub hashes: HashTable,
}

impl View for Store {
    type V = StoreView;

    open spec fn view(&self) -> StoreView {
        StoreView { strings: self.strings@, hashes: self.hashes@ }
    }
}

/// The model of a store with both tables empty.
pub open spec fn empty_store() -> StoreView {
    StoreView { strings: Map::empty(), hashes: Map::empty() }
}

impl Store {
    /// Both tables are well formed.
    pub open spec fn wf(&self) -> bool {
        self.strings.wf() && self.hashes.wf()
    }

    /// A store with both tables empty.
    pub fn new() -> (r: Store)
        ensures
            r.wf(),
            r@ == empty_store(),
    {
        Store { strings: Table::new(), hashes: HashTable::new() }
    }
}

} // verus!
