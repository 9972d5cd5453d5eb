//! A small map from names to values that keeps its entries in insertion
//! order, so that everything computed from it is reproducible.

use vstd::prelude::*;

verus! {

/// The entries of a name map: pairs of a name and a value, in insertion order.
pub type Entries<V> = Seq<(Seq<char>, V)>;

/// Whether no name occurs twice among the entries.
pub open spec fn distinct_names<V>(s: Entries<V>) -> bool {
    forall|i: int, j: int| 0 <= i < j < s.len() ==> (#[trigger] s[i]).0 != (#[trigger] s[j]).0
}

/// Whether some entry carries `name`.
pub open spec fn has_name<V>(s: Entries<V>, name: Seq<char>) -> bool {
    exists|i: int| 0 <= i < s.len() && (#[trigger] s[i]).0 == name
}

/// The position of an entry that carries `name`; meaningful when there is one.
pub open spec fn position<V>(s: Entries<V>, name: Seq<char>) -> int {
    choose|i: int| 0 <= i < s.len() && (#[trigger] s[i]).0 == name
}

/// The value stored under `name`, if any.
pub open spec fn lookup<V>(s: Entries<V>, name: Seq<char>) -> Option<V> {
    if has_name(s, name) {
        Some(s[position(s, name)].1)
    } else {
        None
    }
}

/// The entries after storing `value` under `name`: an entry of that name is
/// replaced where it stands, a new name is appended.
pub open spec fn put<V>(s: Entries<V>, name: Seq<char>, value: V) -> Entries<V> {
    if has_name(s, name) {
        s.update(position(s, name), (name, value))
    } else {
        s.push((name, value))
    }
}

/// With distinct names, an entry found under a name is the one `position` names.
pub proof fn lemma_position_unique<V>(s: Entries<V>, name: Seq<char>, i: int)
    requires
        distinct_names(s),
        0 <= i < s.len(),
        s[i].0 == name,
    ensures
        has_name(s, name),
        position(s, name) == i,
        lookup(s, name) == Some(s[i].1),
{
    let p = position(s, name);
    assert(0 <= p < s.len() && s[p].0 == name);
    if p < i {
        assert(s[p].0 != s[i].0);
    } else if i < p {
        assert(s[i].0 != s[p].0);
    }
}

/// Storing a value keeps the names distinct, makes the value the one found
/// under its name, and leaves every other name as it was.
pub proof fn lemma_put<V>(s: Entries<V>, name: Seq<char>, value: V)
    requires
        distinct_names(s),
    ensures
        distinct_names(put(s, name, value)),
        lookup(put(s, name, value), name) == Some(value),
        forall|other: Seq<char>| other != name ==> lookup(put(s, name, value), other) == lookup(s, other),
        has_name(s, name) ==> put(s, name, value).len() == s.len(),
        !has_name(s, name) ==> put(s, name, value).len() == s.len() + 1,
{
    let t = put(s, name, value);
    if has_name(s, name) {
        let p = position(s, name);
        assert(0 <= p < s.len() && s[p].0 == name);
        assert forall|i: int, j: int| 0 <= i < j < t.len() implies (#[trigger] t[i]).0 != (#[trigger] t[j]).0 by {
            assert(s[i].0 != s[j].0);
        }
        lemma_position_unique(t, name, p);
        assert forall|other: Seq<char>| other != name implies lookup(t, other) == lookup(s, other) by {
            if has_name(s, other) {
                let q = position(s, other);
                assert(0 <= q < s.len() && s[q].0 == other);
                assert(t[q] == s[q]);
                lemma_position_unique(t, other, q);
            } else if has_name(t, other) {
                let q = position(t, other);
                assert(0 <= q < t.len() && t[q].0 == other);
                assert(s[q].0 == other);
            }
        }
    } else {
        let n = s.len() as int;
        assert forall|i: int, j: int| 0 <= i < j < t.len() implies (#[trigger] t[i]).0 != (#[trigger] t[j]).0 by {
            if j < n {
                assert(s[i].0 != s[j].0);
            } else {
                assert(t[i] == s[i]);
            }
        }
        lemma_position_unique(t, name, n);
        assert forall|other: Seq<char>| other != name implies lookup(t, other) == lookup(s, other) by {
            if has_name(s, other) {
                let q = position(s, other);
                assert(0 <= q < s.len() && s[q].0 == other);
                assert(t[q] == s[q]);
                lemma_position_unique(t, other, q);
            } else if has_name(t, other) {
                let q = position(t, other);
                assert(0 <= q < t.len() && t[q].0 == other);
                assert(s[q].0 == other);
            }
        }
    }
}

/// A map from names to values whose entries stay in insertion order.
#[derive(Debug, Clone)]
pub struct NameMap<V> {
    items: Vec<(String, V)>,
}

impl<V> NameMap<V> {
    /// Well-formedness: no name is stored twice.
    pub open spec fn wf(&self) -> bool {
        distinct_names(self@)
    }

    /// The entries in insertion order, each name as a sequence of characters.
    pub closed spec fn view(&self) -> Entries<V> {
        self.items@.map_values(|e: (String, V)| (e.0@, e.1))
    }

    /// A map without entries.
    pub fn new() -> (r: Self)
        ensures
            r@ == Seq::<(Seq<char>, V)>::empty(),
            r.wf(),
    {
        let r = NameMap { items: Vec::new() };
        assert(r@ =~= Seq::<(Seq<char>, V)>::empty());
        r
    }

    /// Number of entries.
    pub fn len(&self) -> (n: usize)
        ensures
            n == self@.len(),
    {
        self.items.len()
    }

    /// Whether the map has no entry.
    pub fn is_empty(&self) -> (b: bool)
        ensures
            b == (self@.len() == 0),
    {
        self.items.len() == 0
    }

    /// The name of the entry at position `i`.
    pub fn name_at(&self, i: usize) -> (name: &String)
        requires
            i < self@.len(),
        ensures
            name@ == self@[i as int].0,
    {
        &self.items[i].0
    }

    /// The value of the entry at position `i`.
    pub fn value_at(&self, i: usize) -> (value: &V)
        requires
            i < self@.len(),
        ensures
            *value == self@[i as int].1,
    {
        &self.items[i].1
    }

    /// The position of the entry stored under `name`, if there is one.
    pub fn find(&self, name: &str) -> (r: Option<usize>)
        requires
            self.wf(),
        ensures
            r is Some <==> has_name(self@, name@),
            r matches Some(i) ==> i == position(self@, name@) && i < self@.len(),
    {
        let wanted = name.to_owned();
        let mut i: usize = 0;
        while i < self.items.len()
            invariant
                i <= self.items.len(),
                wanted@ == name@,
                distinct_names(self@),
                forall|k: int| 0 <= k < i ==> (#[trigger] self@[k]).0 != name@,
            decreases self.items.len() - i,
        {
            if self.items[i].0 == wanted {
                proof {
                    lemma_position_unique(self@, name@, i as int);
                }
                return Some(i);
            }
            i += 1;
        }
        None
    }

    /// Whether an entry is stored under `name`.
    pub fn contains_key(&self, name: &str) -> (b: bool)
        requires
            self.wf(),
        ensures
            b == has_name(self@, name@),
    {
        self.find(name).is_some()
    }

    /// The value stored under `name`, if any.
    pub fn get(&self, name: &str) -> (r: Option<&V>)
        requires
            self.wf(),
        ensures
            r is Some <==> has_name(self@, name@),
            r matches Some(v) ==> lookup(self@, name@) == Some(*v),
    {
        match self.find(name) {
            Some(i) => Some(&self.items[i].1),
            None => None,
        }
    }

    /// Stores `value` under `name`. An entry of that name keeps its position
    /// and gets the new value; a new name is appended.
    pub fn insert(&mut self, name: String, value: V)
        requires
            old(self).wf(),
        ensures
            final(self)@ == put(old(self)@, name@, value),
            final(self).wf(),
    {
        proof {
            lemma_put(self@, name@, value);
        }
        let ghost before = self@;
        match self.find(name.as_str()) {
            Some(i) => {
                self.items.set(i, (name, value));
                assert(self@ =~= put(before, name@, value));
            },
            None => {
                self.items.push((name, value));
                assert(self@ =~= put(before, name@, value));
            },
        }
    }
}

} // verus!
