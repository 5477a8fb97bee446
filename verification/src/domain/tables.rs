//! Keyed collections of the domain: a set of identity names, held in a
//! std `HashSet<String>`, and a map from identity names to callback
//! records, held in a vector in which no key occurs twice.
use crate::domain::model::CallbackRecord;
use vstd::hash_set::StringHashSet;
use vstd::prelude::*;
use vstd::string::*;

verus! {

/// A record entry seen as plain values.
pub open spec fn entry_view(e: (String, CallbackRecord)) -> (Seq<char>, CallbackRecord) {
    (e.0@, e.1)
}

pub open spec fn entries_view(s: Seq<(String, CallbackRecord)>) -> Seq<(Seq<char>, CallbackRecord)> {
    s.map_values(|e: (String, CallbackRecord)| entry_view(e))
}

/// The map that a list of entries builds when they are inserted in order:
/// a later entry for a key replaces an earlier one.
pub open spec fn entries_map(s: Seq<(Seq<char>, CallbackRecord)>) -> Map<Seq<char>, CallbackRecord>
    decreases s.len(),
{
    if s.len() == 0 {
        Map::empty()
    } else {
        entries_map(s.drop_last()).insert(s.last().0, s.last().1)
    }
}

/// No key occurs twice.
pub open spec fn keys_distinct(s: Seq<(Seq<char>, CallbackRecord)>) -> bool {
    forall|i: int, j: int| 0 <= i < s.len() && 0 <= j < s.len() && i != j ==> s[i].0 != s[j].0
}

pub proof fn lemma_entries_map_dom(s: Seq<(Seq<char>, CallbackRecord)>, k: Seq<char>)
    ensures
        entries_map(s).contains_key(k) <==> exists|i: int| 0 <= i < s.len() && s[i].0 == k,
    decreases s.len(),
{
    if s.len() > 0 {
        lemma_entries_map_dom(s.drop_last(), k);
        if entries_map(s).contains_key(k) && s.last().0 != k {
            let i = choose|i: int| 0 <= i < s.drop_last().len() && s.drop_last()[i].0 == k;
            assert(s[i].0 == k);
        }
        if exists|i: int| 0 <= i < s.len() && s[i].0 == k {
            let i = choose|i: int| 0 <= i < s.len() && s[i].0 == k;
            if i < s.len() - 1 {
                assert(s.drop_last()[i].0 == k);
            }
        }
    }
}

pub proof fn lemma_entries_map_value(s: Seq<(Seq<char>, CallbackRecord)>, i: int)
    requires
        keys_distinct(s),
        0 <= i < s.len(),
    ensures
        entries_map(s).contains_key(s[i].0),
        entries_map(s)[s[i].0] == s[i].1,
    decreases s.len(),
{
    if i < s.len() - 1 {
        assert(s.drop_last()[i] == s[i]);
        lemma_entries_map_value(s.drop_last(), i);
    }
}

pub proof fn lemma_entries_map_finite(s: Seq<(Seq<char>, CallbackRecord)>)
    ensures
        entries_map(s).dom().finite(),
    decreases s.len(),
{
    if s.len() > 0 {
        lemma_entries_map_finite(s.drop_last());
    }
}

pub proof fn lemma_entries_map_len(s: Seq<(Seq<char>, CallbackRecord)>)
    requires
        keys_distinct(s),
    ensures
        entries_map(s).dom().len() == s.len(),
    decreases s.len(),
{
    if s.len() > 0 {
        let r = s.drop_last();
        assert(keys_distinct(r));
        lemma_entries_map_len(r);
        lemma_entries_map_finite(r);
        lemma_entries_map_dom(r, s.last().0);
        if entries_map(r).contains_key(s.last().0) {
            let i = choose|i: int| 0 <= i < r.len() && r[i].0 == s.last().0;
            assert(s[i].0 == s[s.len() - 1].0);
        }
    }
}

/// With distinct keys, the map a list of entries builds does not depend on
/// the order of the entries.
pub proof fn lemma_entries_order_free(
    s: Seq<(Seq<char>, CallbackRecord)>,
    t: Seq<(Seq<char>, CallbackRecord)>,
)
    requires
        keys_distinct(s),
        keys_distinct(t),
        s.to_set() == t.to_set(),
    ensures
        entries_map(s) == entries_map(t),
{
    assert forall|k: Seq<char>| #[trigger] entries_map(s).contains_key(k) implies entries_map(
        t,
    ).contains_key(k) && entries_map(s)[k] == entries_map(t)[k] by {
        lemma_entries_map_dom(s, k);
        let i = choose|i: int| 0 <= i < s.len() && s[i].0 == k;
        assert(s.to_set().contains(s[i]));
        assert(t.to_set().contains(s[i]));
        let j = choose|j: int| 0 <= j < t.len() && t[j] == s[i];
        lemma_entries_map_value(s, i);
        lemma_entries_map_value(t, j);
    }
    assert forall|k: Seq<char>| #[trigger] entries_map(t).contains_key(k) implies entries_map(
        s,
    ).contains_key(k) by {
        lemma_entries_map_dom(t, k);
        let j = choose|j: int| 0 <= j < t.len() && t[j].0 == k;
        assert(t.to_set().contains(t[j]));
        assert(s.to_set().contains(t[j]));
        let i = choose|i: int| 0 <= i < s.len() && s[i] == t[j];
        lemma_entries_map_dom(s, k);
    }
    assert(entries_map(s) =~= entries_map(t));
}

/// Replacing the value of one entry of a list with distinct keys is an
/// insertion into the map it builds.
proof fn lemma_entries_map_update(
    s: Seq<(Seq<char>, CallbackRecord)>,
    i: int,
    v: CallbackRecord,
)
    requires
        keys_distinct(s),
        0 <= i < s.len(),
    ensures
        keys_distinct(s.update(i, (s[i].0, v))),
        entries_map(s.update(i, (s[i].0, v))) == entries_map(s).insert(s[i].0, v),
    decreases s.len(),
{
    let t = s.update(i, (s[i].0, v));
    if i == s.len() - 1 {
        assert(t.drop_last() =~= s.drop_last());
        lemma_entries_map_dom(s.drop_last(), s[i].0);
        assert(entries_map(t) =~= entries_map(s).insert(s[i].0, v));
    } else {
        let r = s.drop_last();
        assert(t.drop_last() =~= r.update(i, (r[i].0, v)));
        lemma_entries_map_update(r, i, v);
        assert(s.last().0 != s[i].0);
        assert(entries_map(t) =~= entries_map(s).insert(s[i].0, v));
    }
}

/// A map from identity names to callback records, kept as a vector of
/// entries in which no name occurs twice.
///
/// It is not a std `HashMap<String, CallbackRecord>`: vstd specifies
/// `HashMap` only under `obeys_key_model::<Key>()`, which it establishes
/// for integer and `bool` keys but not for `String` (establishing it here
/// would take an `assume`), and its `StringHashMap` wrapper, which does
/// specify `String` keys, offers no way to list the entries, which the
/// listing of all records and the snapshot need.
#[derive(Debug)]
pub struct RecordMap {
    entries: Vec<(String, CallbackRecord)>,
}

impl View for RecordMap {
    type V = Map<Seq<char>, CallbackRecord>;

    closed spec fn view(&self) -> Map<Seq<char>, CallbackRecord> {
        entries_map(entries_view(self.entries@))
    }
}

impl RecordMap {
    #[verifier::type_invariant]
    closed spec fn inv(self) -> bool {
        keys_distinct(entries_view(self.entries@))
    }

    /// An empty map.
    pub fn new() -> (r: Self)
        ensures
            r@ == Map::<Seq<char>, CallbackRecord>::empty(),
    {
        let r = RecordMap { entries: Vec::new() };
        proof {
            assert(entries_view(r.entries@) =~= Seq::<(Seq<char>, CallbackRecord)>::empty());
        }
        r
    }

    /// The map built by inserting the entries in order; a later entry for
    /// a key replaces an earlier one.
    pub fn from_entries(v: Vec<(String, CallbackRecord)>) -> (r: Self)
        ensures
            r@ == entries_map(entries_view(v@)),
    {
        let mut m = RecordMap::new();
        let mut i: usize = 0;
        let n = v.len();
        proof {
            assert(entries_view(v@).take(0) =~= Seq::<(Seq<char>, CallbackRecord)>::empty());
        }
        while i < n
            invariant
                n == v.len(),
                i <= n,
                m@ == entries_map(entries_view(v@).take(i as int)),
            decreases n - i,
        {
            let (k, rec) = (v[i].0.clone(), v[i].1);
            m.insert(k, rec);
            proof {
                let ev = entries_view(v@);
                assert(ev.take(i + 1).drop_last() =~= ev.take(i as int));
                assert(ev.take(i + 1).last() == ev[i as int]);
            }
            i = i + 1;
        }
        proof {
            assert(entries_view(v@).take(n as int) =~= entries_view(v@));
        }
        m
    }

    /// The number of keys.
    pub fn len(&self) -> (n: usize)
        ensures
            n == self@.dom().len(),
    {
        proof {
            use_type_invariant(self);
            lemma_entries_map_len(entries_view(self.entries@));
        }
        self.entries.len()
    }

    /// Whether the map holds no key.
    pub fn is_empty(&self) -> (b: bool)
        ensures
            b == (self@.dom().len() == 0),
    {
        self.len() == 0
    }

    /// The position of `key` in the entry list.
    fn position(&self, key: &String) -> (r: Option<usize>)
        ensures
            match r {
                Some(i) => i < self.entries@.len() && self.entries@[i as int].0@ == key@,
                None => forall|i: int|
                    0 <= i < self.entries@.len() ==> self.entries@[i].0@ != key@,
            },
    {
        let mut i: usize = 0;
        while i < self.entries.len()
            invariant
                i <= self.entries@.len(),
                forall|j: int| 0 <= j < i ==> self.entries@[j].0@ != key@,
            decreases self.entries.len() - i,
        {
            if self.entries[i].0 == *key {
                return Some(i);
            }
            i = i + 1;
        }
        None
    }

    proof fn lemma_position_lookup(&self, i: int)
        requires
            keys_distinct(entries_view(self.entries@)),
            0 <= i < self.entries@.len(),
        ensures
            self@.contains_key(self.entries@[i].0@),
            self@[self.entries@[i].0@] == self.entries@[i].1,
    {
        let ev = entries_view(self.entries@);
        assert(ev[i] == entry_view(self.entries@[i]));
        lemma_entries_map_value(ev, i);
    }

    proof fn lemma_absent(&self, key: Seq<char>)
        requires
            forall|i: int| 0 <= i < self.entries@.len() ==> self.entries@[i].0@ != key,
        ensures
            !self@.contains_key(key),
    {
        let ev = entries_view(self.entries@);
        lemma_entries_map_dom(ev, key);
        if self@.contains_key(key) {
            let i = choose|i: int| 0 <= i < ev.len() && ev[i].0 == key;
            assert(ev[i] == entry_view(self.entries@[i]));
        }
    }

    /// The record stored for `key`, if any.
    pub fn get(&self, key: &str) -> (r: Option<CallbackRecord>)
        ensures
            r == if self@.contains_key(key@) {
                Some(self@[key@])
            } else {
                None::<CallbackRecord>
            },
    {
        proof {
            use_type_invariant(self);
        }
        let k = String::from_str(key);
        match self.position(&k) {
            Some(i) => {
                proof {
                    self.lemma_position_lookup(i as int);
                }
                Some(self.entries[i].1)
            },
            None => {
                proof {
                    self.lemma_absent(key@);
                }
                None
            },
        }
    }

    /// Whether a record is stored for `key`.
    pub fn contains_key(&self, key: &str) -> (b: bool)
        ensures
            b == self@.contains_key(key@),
    {
        self.get(key).is_some()
    }

    /// Stores `record` for `key`, and returns the record it replaces.
    pub fn insert(&mut self, key: String, record: CallbackRecord) -> (r: Option<CallbackRecord>)
        ensures
            final(self)@ == old(self)@.insert(key@, record),
            r == if old(self)@.contains_key(key@) {
                Some(old(self)@[key@])
            } else {
                None::<CallbackRecord>
            },
    {
        proof {
            use_type_invariant(&*self);
        }
        match self.position(&key) {
            Some(i) => {
                let previous = self.entries[i].1;
                proof {
                    self.lemma_position_lookup(i as int);
                    let ev = entries_view(self.entries@);
                    lemma_entries_map_update(ev, i as int, record);
                    assert(entries_view(self.entries@.update(i as int, (key, record))) =~= ev.update(
                        i as int,
                        (ev[i as int].0, record),
                    ));
                }
                let mut entries: Vec<(String, CallbackRecord)> = Vec::new();
                std::mem::swap(&mut entries, &mut self.entries);
                entries.set(i, (key, record));
                self.entries = entries;
                Some(previous)
            },
            None => {
                proof {
                    self.lemma_absent(key@);
                }
                let ghost ev = entries_view(self.entries@);
                let ghost k = key@;
                proof {
                    assert forall|j: int| 0 <= j < ev.len() implies ev[j].0 != k by {
                        assert(ev[j] == entry_view(self.entries@[j]));
                    }
                }
                let mut entries: Vec<(String, CallbackRecord)> = Vec::new();
                std::mem::swap(&mut entries, &mut self.entries);
                entries.push((key, record));
                proof {
                    let nv = entries_view(entries@);
                    assert(nv.drop_last() =~= ev);
                    assert(nv.last() == (k, record));
                    assert(nv =~= ev.push((k, record)));
                    assert(keys_distinct(nv)) by {
                        assert forall|a: int, b: int|
                            0 <= a < nv.len() && 0 <= b < nv.len() && a != b implies nv[a].0
                            != nv[b].0 by {
                            if a < ev.len() && b < ev.len() {
                                assert(nv[a] == ev[a] && nv[b] == ev[b]);
                            }
                        }
                    }
                }
                self.entries = entries;
                None
            },
        }
    }

    /// The entries of the map, each key once, in no particular order.
    pub fn to_entries(&self) -> (v: Vec<(String, CallbackRecord)>)
        ensures
            keys_distinct(entries_view(v@)),
            entries_map(entries_view(v@)) == self@,
    {
        proof {
            use_type_invariant(self);
        }
        let mut v: Vec<(String, CallbackRecord)> = Vec::new();
        let mut i: usize = 0;
        while i < self.entries.len()
            invariant
                i <= self.entries@.len(),
                entries_view(v@) == entries_view(self.entries@).take(i as int),
            decreases self.entries.len() - i,
        {
            let ghost prev = v@;
            let e = (self.entries[i].0.clone(), self.entries[i].1);
            proof {
                assert(entry_view(e) == entry_view(self.entries@[i as int]));
            }
            v.push(e);
            proof {
                assert(v@ =~= prev.push(e));
                assert(entries_view(v@) =~= entries_view(prev).push(entry_view(e)));
            }
            i = i + 1;
            proof {
                assert(entries_view(v@) =~= entries_view(self.entries@).take(i as int));
            }
        }
        proof {
            assert(entries_view(self.entries@).take(i as int) =~= entries_view(self.entries@));
        }
        v
    }
}

impl Clone for RecordMap {
    fn clone(&self) -> (r: Self)
        ensures
            r@ == self@,
    {
        RecordMap { entries: self.to_entries() }
    }
}

pub open spec fn names_view(s: Seq<String>) -> Seq<Seq<char>> {
    s.map_values(|x: String| x@)
}

/// A set of identity names, each held once: a std `HashSet<String>`, through
/// vstd's `StringHashSet`.
pub struct IdentitySet {
    names: StringHashSet,
}

impl View for IdentitySet {
    type V = Set<Seq<char>>;

    closed spec fn view(&self) -> Set<Seq<char>> {
        self.names@
    }
}

impl IdentitySet {
    /// An empty set.
    pub fn new() -> (r: Self)
        ensures
            r@ == Set::<Seq<char>>::empty(),
    {
        IdentitySet { names: StringHashSet::new() }
    }

    /// Whether `name` is in the set.
    pub fn contains(&self, name: &str) -> (b: bool)
        ensures
            b == self@.contains(name@),
    {
        self.names.contains(name)
    }

    /// Adds `name`; true when it was not in the set before.
    pub fn insert(&mut self, name: String) -> (added: bool)
        ensures
            final(self)@ == old(self)@.insert(name@),
            added == !old(self)@.contains(name@),
    {
        self.names.insert(name)
    }

    /// The number of names.
    pub fn len(&self) -> (n: usize)
        ensures
            n == self@.len(),
    {
        self.names.len()
    }

    /// Whether the set holds no name.
    pub fn is_empty(&self) -> (b: bool)
        ensures
            b == (self@.len() == 0),
    {
        self.names.len() == 0
    }
}

} // verus!
