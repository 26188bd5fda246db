//! A map from names to values, held as a list of entries in which no name
//! occurs twice.

use vstd::prelude::*;

verus! {

/// The index of the first entry of `s` whose key is `k`, or `-1`.
pub open spec fn key_index<K, V>(s: Seq<(K, V)>, k: K) -> int
    decreases s.len(),
{
    if s.len() == 0 {
        -1
    } else if s[0].0 == k {
        0
    } else {
        let r = key_index(s.drop_first(), k);
        if r < 0 {
            -1
        } else {
            r + 1
        }
    }
}

/// No key occurs in two entries of `s`.
pub open spec fn distinct_keys<K, V>(s: Seq<(K, V)>) -> bool {
    forall|i: int, j: int| 0 <= i < j < s.len() ==> s[i].0 != s[j].0
}

/// The map that a list of entries stands for: each key to the value of its
/// first entry.
pub open spec fn entries_map<K, V>(s: Seq<(K, V)>) -> Map<K, V> {
    Map::new(|k: K| key_index(s, k) >= 0, |k: K| s[key_index(s, k)].1)
}

/// `key_index` finds the first entry with the key, and only such an entry.
pub proof fn lemma_key_index<K, V>(s: Seq<(K, V)>, k: K)
    ensures
        -1 <= key_index(s, k) < s.len(),
        key_index(s, k) >= 0 ==> s[key_index(s, k)].0 == k,
        key_index(s, k) >= 0 ==> forall|j: int| 0 <= j < key_index(s, k) ==> s[j].0 != k,
        key_index(s, k) < 0 <==> forall|j: int| 0 <= j < s.len() ==> s[j].0 != k,
    decreases s.len(),
{
    if s.len() > 0 && s[0].0 != k {
        lemma_key_index(s.drop_first(), k);
        assert forall|j: int| 1 <= j < s.len() implies s[j] == s.drop_first()[j - 1] by {}
        if key_index(s, k) < 0 {
            assert forall|j: int| 0 <= j < s.len() implies s[j].0 != k by {
                if j > 0 {
                    assert(s[j] == s.drop_first()[j - 1]);
                }
            }
        }
    }
}

/// With distinct keys, the entry with key `s[i].0` is entry `i`.
pub proof fn lemma_key_index_at<K, V>(s: Seq<(K, V)>, i: int)
    requires
        distinct_keys(s),
        0 <= i < s.len(),
    ensures
        key_index(s, s[i].0) == i,
{
    lemma_key_index(s, s[i].0);
}

/// Removing the entry of a key from distinct entries removes the key from
/// the map, and keeps the keys distinct.
pub proof fn lemma_entries_map_remove<K, V>(s: Seq<(K, V)>, i: int)
    requires
        distinct_keys(s),
        0 <= i < s.len(),
    ensures
        distinct_keys(s.remove(i)),
        entries_map(s.remove(i)) == entries_map(s).remove(s[i].0),
{
    let t = s.remove(i);
    let k = s[i].0;
    assert forall|a: int, b: int| 0 <= a < b < t.len() implies t[a].0 != t[b].0 by {
        let a2 = if a < i { a } else { a + 1 };
        let b2 = if b < i { b } else { b + 1 };
        assert(t[a] == s[a2]);
        assert(t[b] == s[b2]);
    }
    assert forall|x: K| #[trigger] entries_map(t).contains_key(x) == entries_map(s).remove(k).contains_key(x)
        && (entries_map(t).contains_key(x) ==> entries_map(t)[x] == entries_map(s).remove(k)[x]) by {
        lemma_key_index(t, x);
        lemma_key_index(s, x);
        if key_index(t, x) >= 0 {
            let j = key_index(t, x);
            let j2 = if j < i { j } else { j + 1 };
            assert(t[j] == s[j2]);
            lemma_key_index_at(s, j2);
            lemma_key_index_at(t, j);
        } else if key_index(s, x) >= 0 && x != k {
            let j = key_index(s, x);
            let j2 = if j < i { j } else { j - 1 };
            assert(t[j2] == s[j]);
        }
    }
    assert(entries_map(t) =~= entries_map(s).remove(k));
}

/// Appending an entry with a new key keeps the keys distinct and adds the
/// key to the map.
pub proof fn lemma_entries_map_push<K, V>(s: Seq<(K, V)>, k: K, v: V)
    requires
        distinct_keys(s),
        key_index(s, k) < 0,
    ensures
        distinct_keys(s.push((k, v))),
        entries_map(s.push((k, v))) == entries_map(s).insert(k, v),
{
    let t = s.push((k, v));
    lemma_key_index(s, k);
    assert forall|x: K| #[trigger] entries_map(t).contains_key(x) == entries_map(s).insert(k, v).contains_key(x)
        && (entries_map(t).contains_key(x) ==> entries_map(t)[x] == entries_map(s).insert(k, v)[x]) by {
        lemma_key_index(t, x);
        lemma_key_index(s, x);
        if x == k {
            lemma_key_index_at(t, s.len() as int);
        } else if key_index(s, x) >= 0 {
            let j = key_index(s, x);
            assert(t[j] == s[j]);
            lemma_key_index_at(t, j);
        } else if key_index(t, x) >= 0 {
            assert(t[key_index(t, x)] == s[key_index(t, x)]);
        }
    }
    assert(entries_map(t) =~= entries_map(s).insert(k, v));
}

/// Entries with the same keys in the same places find a key at the same
/// index.
pub proof fn lemma_key_index_same_keys<K, V, W>(s: Seq<(K, V)>, t: Seq<(K, W)>, k: K)
    requires
        s.len() == t.len(),
        forall|i: int| 0 <= i < s.len() ==> (#[trigger] s[i]).0 == t[i].0,
    ensures
        key_index(s, k) == key_index(t, k),
    decreases s.len(),
{
    if s.len() > 0 {
        assert(s[0].0 == t[0].0);
        assert forall|i: int| 0 <= i < s.drop_first().len() implies (#[trigger] s.drop_first()[i]).0
            == t.drop_first()[i].0 by {
            assert(s[i + 1].0 == t[i + 1].0);
        }
        lemma_key_index_same_keys(s.drop_first(), t.drop_first(), k);
    }
}

/// The position of the first entry of `entries` named `name`.
pub fn position_of<V: View>(entries: &Vec<(String, V)>, name: &String) -> (r: Option<usize>)
    ensures
        match r {
            Some(i) => i as int == key_index(entries@.map_values(|e: (String, V)| (e.0@, e.1@)), name@),
            None => key_index(entries@.map_values(|e: (String, V)| (e.0@, e.1@)), name@) < 0,
        },
{
    let ghost s = entries@.map_values(|e: (String, V)| (e.0@, e.1@));
    proof {
        lemma_key_index(s, name@);
    }
    let mut i: usize = 0;
    while i < entries.len()
        invariant
            i <= entries@.len(),
            s == entries@.map_values(|e: (String, V)| (e.0@, e.1@)),
            s.len() == entries@.len(),
            forall|j: int| 0 <= j < i ==> s[j].0 != name@,
            -1 <= key_index(s, name@) < s.len(),
            key_index(s, name@) >= 0 ==> s[key_index(s, name@)].0 == name@,
            key_index(s, name@) >= 0 ==> forall|j: int| 0 <= j < key_index(s, name@) ==> s[j].0 != name@,
            key_index(s, name@) < 0 <==> forall|j: int| 0 <= j < s.len() ==> s[j].0 != name@,
        decreases entries@.len() - i,
    {
        assert(s[i as int].0 == entries@[i as int].0@);
        if entries[i].0 == *name {
            return Some(i);
        }
        i = i + 1;
    }
    None
}

/// A map from names to values.
///
/// The entries are kept in a `Vec` in which no name occurs twice (the type
/// invariant). It stands where a `HashMap<String, _>` would: vstd specifies
/// `HashMap`, but with `String` keys its contracts give nothing to prove
/// with, while a list of entries lets every operation state its result
/// exactly, and keeps the order in which the names came.
pub struct NameMap<V: View> {
    entries: Vec<(String, V)>,
}

impl<V: View> NameMap<V> {
    /// The entries, each name with the view of its value, in order.
    pub closed spec fn spec_entries(&self) -> Seq<(Seq<char>, V::V)> {
        self.entries@.map_values(|e: (String, V)| (e.0@, e.1@))
    }

    /// No name occurs twice; every map holds to it.
    #[verifier::type_invariant]
    pub open spec fn well_formed(&self) -> bool {
        distinct_keys(self.spec_entries())
    }
}

impl<V: View> View for NameMap<V> {
    type V = Map<Seq<char>, V::V>;

    open spec fn view(&self) -> Map<Seq<char>, V::V> {
        entries_map(self.spec_entries())
    }
}

impl<V: View> NameMap<V> {
    /// The map with no entries.
    pub fn new() -> (m: Self)
        ensures
            m.well_formed(),
            m.spec_entries() == Seq::<(Seq<char>, V::V)>::empty(),
            m@ == Map::<Seq<char>, V::V>::empty(),
    {
        let m = NameMap { entries: Vec::new() };
        assert(m.spec_entries() =~= Seq::<(Seq<char>, V::V)>::empty());
        assert(m@ =~= Map::<Seq<char>, V::V>::empty());
        m
    }

    /// The number of entries.
    pub fn len(&self) -> (n: usize)
        ensures
            n == self.spec_entries().len(),
    {
        self.entries.len()
    }

    /// The entries in order.
    pub fn entries(&self) -> (r: &[(String, V)])
        ensures
            r@.map_values(|e: (String, V)| (e.0@, e.1@)) == self.spec_entries(),
    {
        self.entries.as_slice()
    }

    /// The position of the entry named `name`.
    fn find(&self, name: &String) -> (r: Option<usize>)
        ensures
            match r {
                Some(i) => i as int == key_index(self.spec_entries(), name@),
                None => key_index(self.spec_entries(), name@) < 0,
            },
    {
        position_of(&self.entries, name)
    }

    /// Whether some entry is named `name`.
    pub fn contains_key(&self, name: &String) -> (r: bool)
        ensures
            r == self@.contains_key(name@),
    {
        self.find(name).is_some()
    }

    /// The value named `name`, if any.
    pub fn get(&self, name: &String) -> (r: Option<&V>)
        ensures
            match r {
                Some(v) => self@.contains_key(name@) && v@ == self@[name@],
                None => !self@.contains_key(name@),
            },
    {
        proof {
            use_type_invariant(self);
        }
        match self.find(name) {
            Some(i) => {
                proof {
                    lemma_key_index(self.spec_entries(), name@);
                }
                assert(self.spec_entries()[i as int].1 == self.entries@[i as int].1@);
                Some(&self.entries[i].1)
            },
            None => None,
        }
    }

    /// Takes out the value named `name`, if any; the other entries stay, in
    /// their order.
    pub fn remove(&mut self, name: &String) -> (r: Option<V>)
        ensures
            final(self).well_formed(),
            final(self)@ == old(self)@.remove(name@),
            match r {
                Some(v) => old(self)@.contains_key(name@) && v@ == old(self)@[name@]
                    && final(self).spec_entries() == old(self).spec_entries().remove(
                    key_index(old(self).spec_entries(), name@),
                ),
                None => !old(self)@.contains_key(name@) && final(self).spec_entries()
                    == old(self).spec_entries(),
            },
    {
        proof {
            use_type_invariant(&*self);
        }
        match self.find(name) {
            Some(i) => {
                let ghost s = self.spec_entries();
                proof {
                    lemma_key_index(s, name@);
                    lemma_entries_map_remove(s, i as int);
                }
                let mut entries: Vec<(String, V)> = Vec::new();
                std::mem::swap(&mut entries, &mut self.entries);
                let e = entries.remove(i);
                assert(entries@.map_values(|e: (String, V)| (e.0@, e.1@)) =~= s.remove(i as int));
                self.entries = entries;
                assert(self.spec_entries() =~= s.remove(i as int));
                Some(e.1)
            },
            None => {
                assert(self@ =~= old(self)@.remove(name@));
                None
            },
        }
    }

    /// Adds an entry for a name that has none yet.
    pub fn insert_new(&mut self, name: String, value: V)
        requires
            !old(self)@.contains_key(name@),
        ensures
            final(self).well_formed(),
            final(self).spec_entries() == old(self).spec_entries().push((name@, value@)),
            final(self)@ == old(self)@.insert(name@, value@),
    {
        proof {
            use_type_invariant(&*self);
        }
        let ghost s = self.spec_entries();
        let ghost (k, v) = (name@, value@);
        proof {
            lemma_entries_map_push(s, k, v);
        }
        let mut entries: Vec<(String, V)> = Vec::new();
        std::mem::swap(&mut entries, &mut self.entries);
        entries.push((name, value));
        assert(entries@.map_values(|e: (String, V)| (e.0@, e.1@)) =~= s.push((k, v)));
        self.entries = entries;
        assert(self.spec_entries() =~= s.push((k, v)));
    }

    /// The map of the given entries, whose names are distinct.
    pub fn from_entries(entries: Vec<(String, V)>) -> (m: Self)
        requires
            distinct_keys(entries@.map_values(|e: (String, V)| (e.0@, e.1@))),
        ensures
            m.well_formed(),
            m.spec_entries() == entries@.map_values(|e: (String, V)| (e.0@, e.1@)),
    {
        NameMap { entries }
    }

    /// The entries, taken out of the map.
    pub fn into_entries(self) -> (r: Vec<(String, V)>)
        ensures
            r@.map_values(|e: (String, V)| (e.0@, e.1@)) == self.spec_entries(),
            distinct_keys(self.spec_entries()),
    {
        proof {
            use_type_invariant(&self);
        }
        self.entries
    }
}

} // verus!
