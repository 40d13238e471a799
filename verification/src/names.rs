//! Ordered collections keyed by name.

use crate::text::{
    lemma_text_lt_irreflexive, lemma_text_lt_total, lemma_text_lt_transitive, same_text,
    text_before, text_lt,
};
use vstd::prelude::*;

verus! {

/// Names in strictly increasing order: sorted, and none occurs twice.
pub open spec fn increasing(names: Seq<String>) -> bool {
    forall|i: int, j: int| 0 <= i < j < names.len() ==> text_lt(names[i]@, names[j]@)
}

/// Two places with the same name are the same place.
proof fn lemma_increasing_apart(names: Seq<String>, i: int, j: int)
    requires
        increasing(names),
        0 <= i < names.len(),
        0 <= j < names.len(),
        names[i]@ == names[j]@,
    ensures
        i == j,
{
    lemma_text_lt_irreflexive(names[i]@);
}

/// Whether `name` is one of `names`.
pub open spec fn listed(names: Seq<String>, name: Seq<char>) -> bool {
    exists|i: int| 0 <= i < names.len() && names[i]@ == name
}

/// The place of `name` in `names`: how many of them come before it.
fn place(names: &Vec<String>, name: &str) -> (pos: usize)
    requires
        increasing(names@),
    ensures
        pos <= names@.len(),
        forall|i: int| 0 <= i < pos ==> text_lt(names@[i]@, name@),
        forall|i: int| pos <= i < names@.len() ==> !text_lt(names@[i]@, name@),
{
    let mut lo: usize = 0;
    let mut hi: usize = names.len();
    while lo < hi
        invariant
            lo <= hi <= names@.len(),
            increasing(names@),
            forall|i: int| 0 <= i < lo ==> text_lt(names@[i]@, name@),
            forall|i: int| hi <= i < names@.len() ==> !text_lt(names@[i]@, name@),
        decreases hi - lo,
    {
        let mid: usize = lo + (hi - lo) / 2;
        if text_before(names[mid].as_str(), name) {
            assert forall|i: int| 0 <= i < mid + 1 implies text_lt(names@[i]@, name@) by {
                if i < mid {
                    lemma_text_lt_transitive(names@[i]@, names@[mid as int]@, name@);
                }
            }
            lo = mid + 1;
        } else {
            assert forall|i: int| mid <= i < names@.len() implies !text_lt(
                names@[i]@,
                name@,
            ) by {
                if mid < i && text_lt(names@[i]@, name@) {
                    lemma_text_lt_transitive(names@[mid as int]@, names@[i]@, name@);
                }
            }
            hi = mid;
        }
    }
    lo
}

/// A name that is not at its place is nowhere.
proof fn lemma_only_place(names: Seq<String>, name: Seq<char>, pos: int)
    requires
        increasing(names),
        0 <= pos <= names.len(),
        forall|i: int| 0 <= i < pos ==> text_lt(names[i]@, name),
        forall|i: int| pos <= i < names.len() ==> !text_lt(names[i]@, name),
    ensures
        listed(names, name) <==> pos < names.len() && names[pos]@ == name,
        forall|i: int|
            0 <= i < names.len() && #[trigger] names[i]@ == name ==> i == pos,
        pos < names.len() && names[pos]@ != name ==> text_lt(name, names[pos]@),
{
    lemma_text_lt_irreflexive(name);
    assert forall|i: int| 0 <= i < names.len() && #[trigger] names[i]@ == name implies i
        == pos by {
        if i > pos {
            assert(text_lt(names[pos]@, names[i]@));
        }
    }
    if pos < names.len() {
        lemma_text_lt_total(names[pos]@, name);
    }
}

/// Inserting a missing name at its place keeps the order.
proof fn lemma_insert_increasing(names: Seq<String>, name: String, pos: int)
    requires
        increasing(names),
        0 <= pos <= names.len(),
        forall|i: int| 0 <= i < pos ==> text_lt(names[i]@, name@),
        forall|i: int| pos <= i < names.len() ==> !text_lt(names[i]@, name@),
        pos < names.len() ==> names[pos]@ != name@,
    ensures
        increasing(names.insert(pos, name)),
{
    lemma_only_place(names, name@, pos);
    let after = names.insert(pos, name);
    assert forall|i: int, j: int| 0 <= i < j < after.len() implies text_lt(
        after[i]@,
        after[j]@,
    ) by {
        if i == pos {
            if j > pos + 1 {
                lemma_text_lt_transitive(name@, names[pos]@, names[j - 1]@);
            }
        }
    }
}

/// Inserting a name lists it, and changes nothing else.
proof fn lemma_insert_listed(names: Seq<String>, name: String, pos: int)
    requires
        0 <= pos <= names.len(),
    ensures
        forall|n: Seq<char>|
            listed(names.insert(pos, name), n) <==> listed(names, n) || n == name@,
{
    let after = names.insert(pos, name);
    assert forall|n: Seq<char>| listed(after, n) <==> listed(names, n) || n == name@ by {
        if listed(names, n) {
            let i = choose|i: int| 0 <= i < names.len() && names[i]@ == n;
            assert(after[if i < pos { i } else { i + 1 }]@ == n);
        }
        if n == name@ {
            assert(after[pos]@ == n);
        }
        if listed(after, n) && n != name@ {
            let i = choose|i: int| 0 <= i < after.len() && after[i]@ == n;
            assert(names[if i < pos { i } else { i - 1 }]@ == n);
        }
    }
}

/// Removing a name unlists it, and changes nothing else.
proof fn lemma_remove_listed(names: Seq<String>, pos: int)
    requires
        increasing(names),
        0 <= pos < names.len(),
    ensures
        increasing(names.remove(pos)),
        forall|n: Seq<char>|
            listed(names.remove(pos), n) <==> listed(names, n) && n != names[pos]@,
{
    let after = names.remove(pos);
    assert forall|n: Seq<char>| listed(after, n) <==> listed(names, n) && n
        != names[pos]@ by {
        if listed(names, n) && n != names[pos]@ {
            let i = choose|i: int| 0 <= i < names.len() && names[i]@ == n;
            assert(after[if i < pos { i } else { i - 1 }]@ == n);
        }
        if listed(after, n) {
            let i = choose|i: int| 0 <= i < after.len() && after[i]@ == n;
            let j = if i < pos { i } else { i + 1 };
            assert(names[j]@ == n);
            lemma_text_lt_irreflexive(n);
            assert(text_lt(names[pos]@, names[j]@) || text_lt(names[j]@, names[pos]@));
        }
    }
}

/// A set of names, held in order.
#[derive(Debug)]
pub struct NameSet {
    items: Vec<String>,
}

impl NameSet {
    #[verifier::type_invariant]
    spec fn wf(self) -> bool {
        increasing(self.items@)
    }
}

impl View for NameSet {
    type V = Set<Seq<char>>;

    closed spec fn view(&self) -> Set<Seq<char>> {
        Set::new(|name: Seq<char>| listed(self.items@, name))
    }
}

impl NameSet {
    /// The set without names.
    pub fn new() -> (set: NameSet)
        ensures
            set@ == Set::<Seq<char>>::empty(),
    {
        let set = NameSet { items: Vec::new() };
        assert(set@ == Set::<Seq<char>>::empty());
        set
    }

    /// Adds a name.
    pub fn insert(&mut self, name: String)
        ensures
            final(self)@ == old(self)@.insert(name@),
    {
        proof {
            use_type_invariant(&*self);
        }
        let pos = place(&self.items, name.as_str());
        proof {
            lemma_only_place(self.items@, name@, pos as int);
        }
        if pos < self.items.len() && same_text(self.items[pos].as_str(), name.as_str()) {
            assert(self@ == old(self)@.insert(name@));
            return ;
        }
        proof {
            lemma_insert_increasing(self.items@, name, pos as int);
        }
        let mut items: Vec<String> = Vec::new();
        std::mem::swap(&mut items, &mut self.items);
        let ghost before = items@;
        items.insert(pos, name);
        self.items = items;
        proof {
            lemma_insert_listed(before, name, pos as int);
        }
        assert(self@ == old(self)@.insert(name@));
    }

    /// Removes a name, if it is there.
    pub fn remove(&mut self, name: &str)
        ensures
            final(self)@ == old(self)@.remove(name@),
    {
        proof {
            use_type_invariant(&*self);
        }
        let pos = place(&self.items, name);
        proof {
            lemma_only_place(self.items@, name@, pos as int);
        }
        if pos < self.items.len() && same_text(self.items[pos].as_str(), name) {
            let mut items: Vec<String> = Vec::new();
            std::mem::swap(&mut items, &mut self.items);
            let ghost before = items@;
            items.remove(pos);
            proof {
                lemma_remove_listed(before, pos as int);
            }
            self.items = items;
        }
        assert(self@ == old(self)@.remove(name@));
    }

    /// Whether a name is in the set.
    pub fn contains(&self, name: &str) -> (found: bool)
        ensures
            found == self@.contains(name@),
    {
        proof {
            use_type_invariant(self);
        }
        let pos = place(&self.items, name);
        proof {
            lemma_only_place(self.items@, name@, pos as int);
        }
        pos < self.items.len() && same_text(self.items[pos].as_str(), name)
    }

    /// Whether the set has no names.
    pub fn is_empty(&self) -> (empty: bool)
        ensures
            empty == (self@ == Set::<Seq<char>>::empty()),
    {
        let empty = self.items.len() == 0;
        proof {
            if empty {
                assert(self@ == Set::<Seq<char>>::empty());
            } else {
                assert(listed(self.items@, self.items@[0]@));
                assert(self@.contains(self.items@[0]@));
            }
        }
        empty
    }

    /// Adds every name of `other`.
    pub fn extend(&mut self, other: &NameSet)
        ensures
            final(self)@ == old(self)@.union(other@),
    {
        let mut i: usize = 0;
        while i < other.items.len()
            invariant
                i <= other.items@.len(),
                forall|name: Seq<char>|
                    self@.contains(name) <==> old(self)@.contains(name) || listed(
                        other.items@.take(i as int),
                        name,
                    ),
            decreases other.items@.len() - i,
        {
            let name = other.items[i].clone();
            let ghost earlier = other.items@.take(i as int);
            proof {
                assert(other.items@.take(i as int + 1) == earlier.insert(i as int, name));
                lemma_insert_listed(earlier, name, i as int);
            }
            self.insert(name);
            i = i + 1;
        }
        assert(other.items@.take(i as int) == other.items@);
        assert(self@ == old(self)@.union(other@));
    }

    /// Whether every name of this set is in `other`.
    pub fn is_subset(&self, other: &NameSet) -> (subset: bool)
        ensures
            subset == self@.subset_of(other@),
    {
        let mut i: usize = 0;
        while i < self.items.len()
            invariant
                i <= self.items@.len(),
                forall|j: int| 0 <= j < i ==> other@.contains(#[trigger] self.items@[j]@),
            decreases self.items@.len() - i,
        {
            if !other.contains(self.items[i].as_str()) {
                assert(listed(self.items@, self.items@[i as int]@));
                assert(self@.contains(self.items@[i as int]@));
                return false;
            }
            i = i + 1;
        }
        true
    }

    /// Whether the two sets hold the same names.
    pub fn same_names(&self, other: &NameSet) -> (same: bool)
        ensures
            same == (self@ == other@),
    {
        let same = self.is_subset(other) && other.is_subset(self);
        proof {
            if same {
                assert(self@ == other@);
            }
        }
        same
    }
}

impl Clone for NameSet {
    fn clone(&self) -> (copy: NameSet)
        ensures
            copy@ == self@,
    {
        let mut copy = NameSet::new();
        copy.extend(self);
        copy
    }
}

/// A map from names, held in the order of the names.
#[derive(Debug)]
pub struct NameMap<V> {
    keys: Vec<String>,
    values: Vec<V>,
}

/// Where `name` stands in `names`.
spec fn position(names: Seq<String>, name: Seq<char>) -> int {
    choose|i: int| 0 <= i < names.len() && names[i]@ == name
}

impl<V> NameMap<V> {
    #[verifier::type_invariant]
    spec fn wf(self) -> bool {
        &&& increasing(self.keys@)
        &&& self.keys@.len() == self.values@.len()
    }
}

impl<V> View for NameMap<V> {
    type V = Map<Seq<char>, V>;

    closed spec fn view(&self) -> Map<Seq<char>, V> {
        Map::new(
            |name: Seq<char>| listed(self.keys@, name),
            |name: Seq<char>| self.values@[position(self.keys@, name)],
        )
    }
}

impl<V> NameMap<V> {
    /// The map without entries.
    pub fn new() -> (map: NameMap<V>)
        ensures
            map@ == Map::<Seq<char>, V>::empty(),
    {
        let map = NameMap { keys: Vec::new(), values: Vec::new() };
        assert(map@ == Map::<Seq<char>, V>::empty());
        map
    }

    /// Maps `name` to `value`, whatever it was mapped to before.
    pub fn insert(&mut self, name: String, value: V)
        ensures
            final(self)@ == old(self)@.insert(name@, value),
    {
        proof {
            use_type_invariant(&*self);
        }
        let mut taken: NameMap<V> = NameMap::new();
        std::mem::swap(self, &mut taken);
        let mut keys = taken.keys;
        let mut values = taken.values;
        let pos = place(&keys, name.as_str());
        proof {
            lemma_only_place(keys@, name@, pos as int);
        }
        if pos < keys.len() && same_text(keys[pos].as_str(), name.as_str()) {
            values.set(pos, value);
        } else {
            proof {
                lemma_insert_increasing(keys@, name, pos as int);
                lemma_insert_listed(keys@, name, pos as int);
            }
            keys.insert(pos, name);
            values.insert(pos, value);
        }
        *self = NameMap { keys, values };
        proof {
            let before = old(self);
            let after = self@;
            assert forall|n: Seq<char>| after.contains_key(n) implies #[trigger] after[n]
                == before@.insert(name@, value)[n] by {
                let i = position(keys@, n);
                assert(keys@[i]@ == n);
                if n == name@ {
                    lemma_increasing_apart(keys@, i, pos as int);
                } else {
                    assert(listed(before.keys@, n));
                    let j = position(before.keys@, n);
                    let k = if keys@.len() == before.keys@.len() || j < pos { j } else { j + 1 };
                    assert(keys@[k]@ == n);
                    lemma_increasing_apart(keys@, i, k);
                }
            }
            assert(after == before@.insert(name@, value));
        }
    }

    /// What `name` is mapped to.
    pub fn get(&self, name: &str) -> (value: Option<&V>)
        ensures
            value == if self@.contains_key(name@) {
                Some(&self@[name@])
            } else {
                None::<&V>
            },
    {
        proof {
            use_type_invariant(self);
        }
        let pos = place(&self.keys, name);
        proof {
            lemma_only_place(self.keys@, name@, pos as int);
        }
        if pos < self.keys.len() && same_text(self.keys[pos].as_str(), name) {
            Some(&self.values[pos])
        } else {
            None
        }
    }
}

impl<V: Clone> Clone for NameMap<V> {
    fn clone(&self) -> (copy: NameMap<V>)
        ensures
            copy@.dom() == self@.dom(),
            forall|name: Seq<char>|
                self@.contains_key(name) ==> cloned(self@[name], #[trigger] copy@[name]),
    {
        proof {
            use_type_invariant(self);
        }
        let mut keys: Vec<String> = Vec::new();
        let mut values: Vec<V> = Vec::new();
        let mut i: usize = 0;
        while i < self.keys.len()
            invariant
                i <= self.keys@.len() == self.values@.len(),
                keys@ == self.keys@.take(i as int),
                values@.len() == i,
                forall|j: int| 0 <= j < i ==> cloned(self.values@[j], #[trigger] values@[j]),
            decreases self.keys@.len() - i,
        {
            keys.push(self.keys[i].clone());
            values.push(self.values[i].clone());
            i = i + 1;
        }
        assert(keys@ == self.keys@);
        let copy = NameMap { keys, values };
        assert(copy@.dom() == self@.dom());
        copy
    }
}

} // verus!
