//! Maps and sets of strings, kept in ascending order of their keys.

use vstd::prelude::*;

use crate::order;
use crate::text;
use crate::text::Duplicate;

verus! {

/// A map from strings to values. Its entries stand in ascending order of the keys.
#[derive(Debug, PartialEq, Eq)]
pub struct StringMap<V> {
    entries: Vec<(String, V)>,
}

/// The keys of a list of entries.
spec fn entry_keys<V>(entries: Seq<(String, V)>) -> Seq<Seq<char>> {
    Seq::new(entries.len(), |i: int| entries[i].0@)
}

/// The map that a list of entries with different keys stands for.
spec fn entry_map<V>(entries: Seq<(String, V)>) -> Map<Seq<char>, V> {
    Map::new(
        |k: Seq<char>| entry_keys(entries).contains(k),
        |k: Seq<char>| entries[entry_keys(entries).index_of(k)].1,
    )
}

proof fn lemma_entry_map<V>(entries: Seq<(String, V)>)
    requires
        order::ascending(entry_keys(entries)),
    ensures
        order::lists_in_order(entry_keys(entries), entry_map(entries).dom()),
        order::in_order(entry_map(entries).dom()) == entry_keys(entries),
        forall|i: int|
            0 <= i < entries.len() ==> {
                &&& entry_map(entries).contains_key(#[trigger] entries[i].0@)
                &&& entry_map(entries)[entries[i].0@] == entries[i].1
            },
{
    let keys = entry_keys(entries);
    let m = entry_map(entries);
    assert(order::lists_in_order(keys, m.dom()));
    order::lemma_in_order(keys, m.dom());
    assert forall|i: int| 0 <= i < entries.len() implies {
        &&& m.contains_key(#[trigger] entries[i].0@)
        &&& m[entries[i].0@] == entries[i].1
    } by {
        let k = entries[i].0@;
        assert(keys[i] == k);
        assert(keys.contains(k));
        let j = keys.index_of(k);
        assert(0 <= j < keys.len() && keys[j] == k);
        if j < i {
            assert(order::text_less(keys[j], keys[i]));
            order::lemma_text_less_irreflexive(k);
        }
        if i < j {
            assert(order::text_less(keys[i], keys[j]));
            order::lemma_text_less_irreflexive(k);
        }
    }
}

impl<V> View for StringMap<V> {
    type V = Map<Seq<char>, V>;

    closed spec fn view(&self) -> Map<Seq<char>, V> {
        entry_map(self.entries@)
    }
}

impl<V> StringMap<V> {
    #[verifier::type_invariant]
    spec fn ordered(self) -> bool {
        order::ascending(entry_keys(self.entries@))
    }

    /// The keys in ascending order.
    pub open spec fn keys(&self) -> Seq<Seq<char>> {
        order::in_order(self@.dom())
    }

    /// The empty map.
    pub fn new() -> (m: Self)
        ensures
            m@ == Map::<Seq<char>, V>::empty(),
    {
        let m = StringMap { entries: Vec::new() };
        proof {
            assert(m@ =~= Map::<Seq<char>, V>::empty());
        }
        m
    }

    /// The number of entries.
    pub fn len(&self) -> (n: usize)
        ensures
            n == self.keys().len(),
            order::lists_in_order(self.keys(), self@.dom()),
    {
        proof {
            use_type_invariant(self);
            lemma_entry_map(self.entries@);
        }
        self.entries.len()
    }

    /// Whether the map has no entries.
    pub fn is_empty(&self) -> (r: bool)
        ensures
            r == (self@ == Map::<Seq<char>, V>::empty()),
            r == (self.keys().len() == 0),
    {
        proof {
            use_type_invariant(self);
            lemma_entry_map(self.entries@);
            if self.entries@.len() == 0 {
                assert(self@ =~= Map::<Seq<char>, V>::empty());
            } else {
                assert(self@.contains_key(self.entries@[0].0@));
            }
        }
        self.entries.len() == 0
    }

    /// The key at a position of the ascending order.
    pub fn key_at(&self, i: usize) -> (k: &String)
        requires
            i < self.keys().len(),
        ensures
            k@ == self.keys()[i as int],
            self@.contains_key(k@),
    {
        proof {
            use_type_invariant(self);
            lemma_entry_map(self.entries@);
        }
        &self.entries[i].0
    }

    /// The value at a position of the ascending order.
    pub fn value_at(&self, i: usize) -> (v: &V)
        requires
            i < self.keys().len(),
        ensures
            *v == self@[self.keys()[i as int]],
            self@.contains_key(self.keys()[i as int]),
    {
        proof {
            use_type_invariant(self);
            lemma_entry_map(self.entries@);
        }
        &self.entries[i].1
    }

    /// The position at which `key` stands or would stand.
    fn position(&self, key: &str) -> (r: (usize, bool))
        ensures
            r.0 <= self.entries@.len(),
            r.1 == self@.contains_key(key@),
            r.1 ==> r.0 < self.entries@.len() && self.entries@[r.0 as int].0@ == key@,
            forall|j: int|
                0 <= j < r.0 ==> order::text_less(#[trigger] self.entries@[j].0@, key@),
            forall|j: int|
                r.0 <= j < self.entries@.len() && !(r.1 && j == r.0) ==> order::text_less(
                    key@,
                    #[trigger] self.entries@[j].0@,
                ),
    {
        proof {
            use_type_invariant(self);
            lemma_entry_map(self.entries@);
        }
        let ghost keys = entry_keys(self.entries@);
        let mut i: usize = 0;
        while i < self.entries.len() && order::str_less(self.entries[i].0.as_str(), key)
            invariant
                keys == entry_keys(self.entries@),
                i <= self.entries@.len(),
                forall|j: int|
                    0 <= j < i ==> order::text_less(#[trigger] self.entries@[j].0@, key@),
            decreases self.entries@.len() - i,
        {
            i += 1;
        }
        let found = i < self.entries.len() && text::str_eq(self.entries[i].0.as_str(), key);
        proof {
            if i < self.entries@.len() {
                order::lemma_text_less_total(self.entries@[i as int].0@, key@);
            }
            assert forall|j: int|
                i <= j < self.entries@.len() && !(found && j == i) implies order::text_less(
                key@,
                #[trigger] self.entries@[j].0@,
            ) by {
                if j > i {
                    assert(order::text_less(keys[i as int], keys[j]));
                    if !found {
                        order::lemma_text_less_trans(key@, keys[i as int], keys[j]);
                    }
                }
            }
            if !found {
                if keys.contains(key@) {
                    let j = choose|j: int| 0 <= j < keys.len() && keys[j] == key@;
                    assert(self.entries@[j].0@ == key@);
                    order::lemma_text_less_irreflexive(key@);
                }
            } else {
                assert(keys[i as int] == key@);
            }
        }
        (i, found)
    }

    /// The value of a key.
    pub fn get(&self, key: &str) -> (r: Option<&V>)
        ensures
            match r {
                Some(v) => self@.contains_key(key@) && *v == self@[key@],
                None => !self@.contains_key(key@),
            },
    {
        proof {
            use_type_invariant(self);
            lemma_entry_map(self.entries@);
        }
        let (i, found) = self.position(key);
        if found {
            Some(&self.entries[i].1)
        } else {
            None
        }
    }

    /// Whether a key has a value.
    pub fn contains_key(&self, key: &str) -> (r: bool)
        ensures
            r == self@.contains_key(key@),
    {
        self.position(key).1
    }

    /// Gives a key its value; the value it had before, if any, is handed out.
    pub fn insert(&mut self, key: String, value: V) -> (old_value: Option<V>)
        ensures
            final(self)@ == old(self)@.insert(key@, value),
            old_value == (if old(self)@.contains_key(key@) {
                Some(old(self)@[key@])
            } else {
                None
            }),
    {
        let taken = self.remove(key.as_str());
        let (i, found) = self.position(key.as_str());
        proof {
            use_type_invariant(&*self);
            lemma_entry_map(self.entries@);
        }
        let ghost before = self.entries@;
        let mut entries: Vec<(String, V)> = Vec::new();
        std::mem::swap(&mut entries, &mut self.entries);
        let ghost k = key@;
        entries.insert(i, (key, value));
        proof {
            let after = entries@;
            let keys = entry_keys(after);
            assert forall|a: int, b: int| 0 <= a < b < keys.len() implies order::text_less(
                #[trigger] keys[a],
                #[trigger] keys[b],
            ) by {
                let bk = entry_keys(before);
                let a0 = if a < i { a } else { a - 1 };
                let b0 = if b < i { b } else { b - 1 };
                if a != i {
                    assert(keys[a] == bk[a0]);
                    assert(before[a0].0@ == keys[a]);
                }
                if b != i {
                    assert(keys[b] == bk[b0]);
                    assert(before[b0].0@ == keys[b]);
                }
            }
            lemma_entry_map(after);
            assert(entry_map(after) =~= entry_map(before).insert(k, value)) by {
                assert forall|x: Seq<char>| #[trigger]
                    entry_map(after).contains_key(x) == entry_map(before).insert(
                        k,
                        value,
                    ).contains_key(x) by {
                    if entry_map(after).contains_key(x) && x != k {
                        let a = choose|a: int| 0 <= a < keys.len() && keys[a] == x;
                        let a0 = if a < i { a } else { a - 1 };
                        assert(before[a0].0@ == x);
                        assert(entry_keys(before)[a0] == x);
                    }
                    if entry_map(before).contains_key(x) {
                        let bk = entry_keys(before);
                        let a0 = choose|a: int| 0 <= a < bk.len() && bk[a] == x;
                        let a = if a0 < i { a0 } else { a0 + 1 };
                        assert(keys[a] == x);
                    }
                    assert(keys[i as int] == k);
                }
                assert forall|x: Seq<char>| #[trigger]
                    entry_map(after).contains_key(x) implies entry_map(after)[x] == entry_map(
                    before,
                ).insert(k, value)[x] by {
                    let a = choose|a: int| 0 <= a < keys.len() && keys[a] == x;
                    assert(after[a].0@ == x);
                    if a != i {
                        let a0 = if a < i { a } else { a - 1 };
                        assert(before[a0] == after[a]);
                        assert(before[a0].0@ == x);
                    }
                }
            }
        }
        self.entries = entries;
        taken
    }

    /// Takes a key and its value out of the map.
    pub fn remove(&mut self, key: &str) -> (old_value: Option<V>)
        ensures
            final(self)@ == old(self)@.remove(key@),
            old_value == (if old(self)@.contains_key(key@) {
                Some(old(self)@[key@])
            } else {
                None
            }),
    {
        let (i, found) = self.position(key);
        proof {
            use_type_invariant(&*self);
            lemma_entry_map(self.entries@);
        }
        if !found {
            proof {
                assert(self@.remove(key@) =~= self@);
            }
            return None;
        }
        let ghost before = self.entries@;
        let mut entries: Vec<(String, V)> = Vec::new();
        std::mem::swap(&mut entries, &mut self.entries);
        let (_, value) = entries.remove(i);
        proof {
            let after = entries@;
            let keys = entry_keys(after);
            let bk = entry_keys(before);
            assert forall|a: int, b: int| 0 <= a < b < keys.len() implies order::text_less(
                #[trigger] keys[a],
                #[trigger] keys[b],
            ) by {
                let a0 = if a < i { a } else { a + 1 };
                let b0 = if b < i { b } else { b + 1 };
                assert(keys[a] == bk[a0]);
                assert(keys[b] == bk[b0]);
            }
            lemma_entry_map(after);
            assert(entry_map(after) =~= entry_map(before).remove(key@)) by {
                assert forall|x: Seq<char>| #[trigger]
                    entry_map(after).contains_key(x) == entry_map(before).remove(
                        key@,
                    ).contains_key(x) by {
                    if entry_map(after).contains_key(x) {
                        let a = choose|a: int| 0 <= a < keys.len() && keys[a] == x;
                        let a0 = if a < i { a } else { a + 1 };
                        assert(bk[a0] == x);
                        assert(before[a0].0@ == x);
                        order::lemma_text_less_irreflexive(key@);
                    }
                    if entry_map(before).remove(key@).contains_key(x) {
                        let a0 = choose|a: int| 0 <= a < bk.len() && bk[a] == x;
                        let a = if a0 < i { a0 } else { a0 - 1 };
                        assert(keys[a] == x);
                    }
                }
                assert forall|x: Seq<char>| #[trigger]
                    entry_map(after).contains_key(x) implies entry_map(after)[x] == entry_map(
                    before,
                ).remove(key@)[x] by {
                    let a = choose|a: int| 0 <= a < keys.len() && keys[a] == x;
                    assert(after[a].0@ == x);
                    let a0 = if a < i { a } else { a + 1 };
                    assert(before[a0] == after[a]);
                    assert(before[a0].0@ == x);
                }
            }
        }
        self.entries = entries;
        Some(value)
    }
}

impl<V: DeepView> DeepView for StringMap<V> {
    type V = Map<Seq<char>, V::V>;

    open spec fn deep_view(&self) -> Map<Seq<char>, V::V> {
        text::map_models(self@)
    }
}

impl<V> Default for StringMap<V> {
    fn default() -> (m: Self)
        ensures
            m@ == Map::<Seq<char>, V>::empty(),
    {
        StringMap::new()
    }
}

impl<V: Duplicate> Duplicate for StringMap<V> {
    fn duplicate(&self) -> (r: Self) {
        let mut out: StringMap<V> = StringMap::new();
        let n = self.len();
        let ghost keys = self.keys();
        let mut i: usize = 0;
        while i < n
            invariant
                i <= n,
                n == keys.len(),
                keys == self.keys(),
                order::lists_in_order(keys, self@.dom()),
                forall|k: Seq<char>|
                    #![trigger out@.contains_key(k)]
                    out@.contains_key(k) <==> keys.take(i as int).contains(k),
                forall|k: Seq<char>|
                    #![trigger out@.contains_key(k)]
                    out@.contains_key(k) ==> self@.contains_key(k) && out@[k].deep_view()
                        == self@[k].deep_view(),
            decreases n - i,
        {
            let key = self.key_at(i).clone();
            let value = self.value_at(i).duplicate();
            let ghost before = out@;
            let ghost k0 = key@;
            out.insert(key, value);
            proof {
                assert forall|k: Seq<char>| #[trigger]
                    out@.contains_key(k) <==> keys.take(i + 1).contains(k) by {
                    if out@.contains_key(k) && k != k0 {
                        assert(before.contains_key(k));
                        let j = choose|j: int| 0 <= j < i && keys.take(i as int)[j] == k;
                        assert(keys.take(i + 1)[j] == k);
                    }
                    assert(keys.take(i + 1)[i as int] == k0);
                    if keys.take(i + 1).contains(k) && k != k0 {
                        let upto = keys.take(i + 1);
                        let j = choose|j: int| 0 <= j < upto.len() && upto[j] == k;
                        assert(keys.take(i as int)[j] == k);
                        assert(before.contains_key(k));
                    }
                }
                assert forall|k: Seq<char>| #[trigger]
                    out@.contains_key(k) implies self@.contains_key(k) && out@[k].deep_view()
                    == self@[k].deep_view() by {
                    if k != k0 {
                        assert(before.contains_key(k));
                    }
                }
            }
            i += 1;
        }
        proof {
            assert(keys.take(n as int) =~= keys);
            assert forall|k: Seq<char>| out@.contains_key(k) == #[trigger] self@.contains_key(k) by {
                assert(self@.dom().contains(k) <==> keys.contains(k));
            }
            assert(out.deep_view() =~= self.deep_view());
        }
        out
    }
}

impl<V: Duplicate> Clone for StringMap<V> {
    fn clone(&self) -> (r: Self)
        ensures
            r.deep_view() == self.deep_view(),
    {
        self.duplicate()
    }
}

/// A set of strings. Its members stand in ascending order.
#[derive(Debug, Clone, PartialEq, Eq)]
pub struct StringSet {
    members: StringMap<()>,
}

impl View for StringSet {
    type V = Set<Seq<char>>;

    closed spec fn view(&self) -> Set<Seq<char>> {
        self.members@.dom()
    }
}

impl DeepView for StringSet {
    type V = Set<Seq<char>>;

    open spec fn deep_view(&self) -> Set<Seq<char>> {
        self@
    }
}

impl StringSet {
    /// The members in ascending order.
    pub open spec fn items(&self) -> Seq<Seq<char>> {
        order::in_order(self@)
    }

    /// The empty set.
    pub fn new() -> (s: Self)
        ensures
            s@ == Set::<Seq<char>>::empty(),
    {
        let s = StringSet { members: StringMap::new() };
        proof {
            assert(s@ =~= Set::<Seq<char>>::empty());
        }
        s
    }

    /// The number of members.
    pub fn len(&self) -> (n: usize)
        ensures
            n == self.items().len(),
            order::lists_in_order(self.items(), self@),
    {
        self.members.len()
    }

    /// The member at a position of the ascending order.
    pub fn at(&self, i: usize) -> (m: &String)
        requires
            i < self.items().len(),
        ensures
            m@ == self.items()[i as int],
            self@.contains(m@),
    {
        self.members.key_at(i)
    }

    /// Whether a string is a member.
    pub fn contains(&self, member: &str) -> (r: bool)
        ensures
            r == self@.contains(member@),
    {
        self.members.contains_key(member)
    }

    /// Adds a member; tells whether it is new.
    pub fn insert(&mut self, member: String) -> (added: bool)
        ensures
            final(self)@ == old(self)@.insert(member@),
            added == !old(self)@.contains(member@),
    {
        let ghost m = member@;
        let before = self.members.insert(member, ());
        proof {
            assert(self@ =~= old(self)@.insert(m));
        }
        before.is_none()
    }
}

impl Default for StringSet {
    fn default() -> (s: Self)
        ensures
            s@ == Set::<Seq<char>>::empty(),
    {
        StringSet::new()
    }
}

impl Duplicate for StringSet {
    fn duplicate(&self) -> (r: Self) {
        let r = StringSet { members: self.members.duplicate() };
        proof {
            assert(r.members.deep_view().dom() == self.members.deep_view().dom());
            assert(r.members.deep_view().dom() =~= r.members@.dom());
            assert(self.members.deep_view().dom() =~= self.members@.dom());
        }
        r
    }
}

} // verus!
