//! A map keyed by names that keeps its entries in the order of the names.

use crate::names::{
    lemma_name_lt_asymmetric, lemma_name_lt_total, lemma_name_lt_transitive, name_lt,
    name_precedes,
};
use crate::views::{lemma_empty, lemma_pushed};
use vstd::prelude::*;

verus! {

/// Whether each name comes strictly before all that follow it.
pub open spec fn ascending(names: Seq<Seq<char>>) -> bool {
    forall|i: int, j: int|
        #![trigger names[i], names[j]]
        0 <= i < j < names.len() ==> name_lt(names[i], names[j])
}

/// In an ascending sequence each name stands at one place only.
pub proof fn lemma_ascending_distinct(names: Seq<Seq<char>>)
    requires
        ascending(names),
    ensures
        names.no_duplicates(),
        forall|i: int| 0 <= i < names.len() ==> names.index_of(#[trigger] names[i]) == i,
{
    assert forall|i: int, j: int| 0 <= i < names.len() && 0 <= j < names.len() && i != j implies
        names[i] != names[j] by {
        if i < j {
            lemma_name_lt_asymmetric(names[i], names[j]);
        } else {
            lemma_name_lt_asymmetric(names[j], names[i]);
        }
    }
    assert forall|i: int| 0 <= i < names.len() implies names.index_of(#[trigger] names[i])
        == i by {
        let k = names.index_of(names[i]);
        assert(names.contains(names[i]));
        assert(0 <= k < names.len() && names[k] == names[i]);
    }
}

/// Two ascending sequences with the same names are the same sequence.
pub proof fn lemma_ascending_same(a: Seq<Seq<char>>, b: Seq<Seq<char>>)
    requires
        ascending(a),
        ascending(b),
        a.to_set() =~= b.to_set(),
    ensures
        a == b,
    decreases a.len(),
{
    lemma_ascending_distinct(a);
    lemma_ascending_distinct(b);
    a.unique_seq_to_set();
    b.unique_seq_to_set();
    if a.len() > 0 {
        // The last name of each is the greatest of the set.
        let x = a.last();
        let y = b.last();
        assert(a.to_set().contains(x));
        assert(b.to_set().contains(x));
        assert(b.to_set().contains(y));
        assert(a.to_set().contains(y));
        let i = b.index_of(x);
        let j = a.index_of(y);
        if x != y {
            lemma_name_lt_total(x, y);
            if name_lt(x, y) {
                assert(a[j] == y);
                if j < a.len() - 1 {
                    lemma_name_lt_asymmetric(a[j], a[a.len() - 1]);
                }
            } else {
                assert(b[i] == x);
                if i < b.len() - 1 {
                    lemma_name_lt_asymmetric(b[i], b[b.len() - 1]);
                }
            }
        }
        assert(x == y);
        let front_a = a.drop_last();
        let front_b = b.drop_last();
        assert forall|name: Seq<char>| front_a.to_set().contains(name) <==> front_b.to_set().contains(
            name,
        ) by {
            if front_a.contains(name) {
                let k = front_a.index_of(name);
                assert(a[k] == name);
                assert(a.to_set().contains(name));
                assert(b.to_set().contains(name));
                let m = b.index_of(name);
                assert(b[m] == name);
                assert(m < b.len() - 1);
                assert(front_b[m] == name);
            }
            if front_b.contains(name) {
                let k = front_b.index_of(name);
                assert(b[k] == name);
                assert(b.to_set().contains(name));
                assert(a.to_set().contains(name));
                let m = a.index_of(name);
                assert(a[m] == name);
                assert(m < a.len() - 1);
                assert(front_a[m] == name);
            }
        }
        assert(front_a.to_set() =~= front_b.to_set());
        lemma_ascending_same(front_a, front_b);
        assert(a =~= front_a.push(x));
        assert(b =~= front_b.push(y));
    } else {
        assert(a =~= b);
    }
}

/// A map from names to values, held in ascending order of the names.
pub struct NameMap<V> {
    names: Vec<String>,
    values: Vec<V>,
}

impl<V> View for NameMap<V> {
    type V = Map<Seq<char>, V>;

    open spec fn view(&self) -> Map<Seq<char>, V> {
        Map::new(
            |name: Seq<char>| self.names().contains(name),
            |name: Seq<char>| self.values()[self.names().index_of(name)],
        )
    }
}

impl<V: Clone> Clone for NameMap<V> {
    fn clone(&self) -> (r: Self)
        ensures
            r.names() == self.names(),
            r.values().len() == self.values().len(),
            forall|i: int|
                0 <= i < self.values().len() ==> cloned::<V>(
                    #[trigger] self.values()[i],
                    r.values()[i],
                ),
    {
        let r = NameMap { names: self.names.clone(), values: self.values.clone() };
        proof {
            assert(r.names() =~= self.names());
        }
        r
    }
}

impl<V: DeepView> DeepView for NameMap<V> {
    type V = Map<Seq<char>, V::V>;

    open spec fn deep_view(&self) -> Map<Seq<char>, V::V> {
        self@.map_values(|value: V| value.deep_view())
    }
}

impl<V: DeepView> NameMap<V> {
    /// The values as mathematical values, each at the place of its name.
    pub open spec fn deep_values(&self) -> Seq<V::V> {
        self.values().map_values(|value: V| value.deep_view())
    }
}

impl<V> NameMap<V> {
    /// The names, in the order in which the map holds them.
    pub closed spec fn names(&self) -> Seq<Seq<char>> {
        self.names.deep_view()
    }

    /// The values, each at the place of its name.
    pub closed spec fn values(&self) -> Seq<V> {
        self.values@
    }

    /// The invariant of the map: one value for each name, and the names
    /// in ascending order.
    pub open spec fn wf(&self) -> bool {
        &&& self.names().len() == self.values().len()
        &&& ascending(self.names())
    }

    /// The entry at place `i` of a well-formed map is the map's entry
    /// for the name at that place.
    pub proof fn lemma_entry(&self, i: int)
        requires
            self.wf(),
            0 <= i < self.names().len(),
        ensures
            self@.contains_key(self.names()[i]),
            self@[self.names()[i]] == self.values()[i],
    {
        lemma_ascending_distinct(self.names());
        assert(self.names().contains(self.names()[i]));
    }

    /// Each key of a well-formed map stands at some place.
    pub proof fn lemma_key_place(&self, name: Seq<char>) -> (i: int)
        requires
            self.wf(),
            self@.contains_key(name),
        ensures
            0 <= i < self.names().len(),
            self.names()[i] == name,
            self.values()[i] == self@[name],
    {
        let i = self.names().index_of(name);
        assert(self.names().contains(name));
        i
    }

    /// The keys are the names, and they are finitely many.
    pub proof fn lemma_dom(&self)
        ensures
            self@.dom() =~= self.names().to_set(),
            self@.dom().finite(),
    {
        vstd::seq_lib::seq_to_set_is_finite(self.names());
    }

    /// An empty map.
    pub fn new() -> (m: Self)
        ensures
            m.wf(),
            m.names() == Seq::<Seq<char>>::empty(),
            m.values() == Seq::<V>::empty(),
            m@ == Map::<Seq<char>, V>::empty(),
    {
        let m = NameMap { names: Vec::new(), values: Vec::new() };
        assert(m.names() =~= Seq::<Seq<char>>::empty());
        assert(m@ =~= Map::<Seq<char>, V>::empty());
        m
    }

    /// Whether two maps hold the same names in the same order.
    pub fn same_names<W>(&self, other: &NameMap<W>) -> (r: bool)
        ensures
            r == (self.names() == other.names()),
    {
        if self.names.len() != other.names.len() {
            assert(self.names().len() != other.names().len());
            return false;
        }
        let mut i: usize = 0;
        while i < self.names.len()
            invariant
                i <= self.names.len(),
                self.names.len() == other.names.len(),
                forall|k: int| 0 <= k < i ==> self.names()[k] == other.names()[k],
            decreases self.names.len() - i,
        {
            if !(self.names[i] == other.names[i]) {
                assert(self.names()[i as int] != other.names()[i as int]);
                return false;
            }
            i += 1;
        }
        assert(self.names() =~= other.names());
        true
    }

    /// The number of values, which is the number of entries in a
    /// well-formed map.
    pub fn values_len(&self) -> (n: usize)
        ensures
            n == self.values().len(),
    {
        self.values.len()
    }

    /// The number of entries.
    pub fn len(&self) -> (n: usize)
        ensures
            n == self.names().len(),
    {
        self.names.len()
    }

    /// The names, in ascending order.
    pub fn keys(&self) -> (names: Vec<String>)
        ensures
            names.deep_view() == self.names(),
    {
        let mut names: Vec<String> = Vec::new();
        let mut i: usize = 0;
        proof {
            lemma_empty(names);
            assert(self.names().take(0) =~= Seq::<Seq<char>>::empty());
        }
        while i < self.names.len()
            invariant
                i <= self.names.len(),
                names.deep_view() == self.names().take(i as int),
            decreases self.names.len() - i,
        {
            let ghost held = names;
            let name = self.names[i].clone();
            names.push(name);
            proof {
                lemma_pushed(held, names, name);
                assert(self.names().take(i as int).push(name@) =~= self.names().take(i as int + 1));
            }
            i += 1;
        }
        assert(self.names().take(i as int) =~= self.names());
        names
    }

    /// The name at place `i`.
    pub fn name_at(&self, i: usize) -> (name: &String)
        requires
            i < self.names().len(),
        ensures
            name@ == self.names()[i as int],
    {
        &self.names[i]
    }

    /// The value at place `i`.
    pub fn value_at(&self, i: usize) -> (value: &V)
        requires
            i < self.values().len(),
        ensures
            *value == self.values()[i as int],
    {
        &self.values[i]
    }

    /// Looks for `name`: `Ok` with its place where the map holds it, else
    /// `Err` with the place at which it would have to be inserted.
    pub fn position(&self, name: &str) -> (r: Result<usize, usize>)
        requires
            self.wf(),
        ensures
            match r {
                Ok(i) => i < self.names().len() && self.names()[i as int] == name@,
                Err(i) => {
                    &&& i <= self.names().len()
                    &&& !self.names().contains(name@)
                    &&& forall|k: int| 0 <= k < i ==> name_lt(#[trigger] self.names()[k], name@)
                    &&& forall|k: int|
                        i <= k < self.names().len() ==> name_lt(name@, #[trigger] self.names()[k])
                },
            },
    {
        let mut low: usize = 0;
        let mut high: usize = self.names.len();
        while low < high
            invariant
                self.wf(),
                low <= high <= self.names.len(),
                forall|k: int| 0 <= k < low ==> name_lt(#[trigger] self.names()[k], name@),
                forall|k: int|
                    high <= k < self.names().len() ==> name_lt(name@, #[trigger] self.names()[k]),
            decreases high - low,
        {
            let mid = low + (high - low) / 2;
            let ghost middle = self.names()[mid as int];
            if name_precedes(self.names[mid].as_str(), name) {
                proof {
                    assert forall|k: int| 0 <= k < mid + 1 implies name_lt(
                        #[trigger] self.names()[k],
                        name@,
                    ) by {
                        if k < mid {
                            lemma_name_lt_transitive(self.names()[k], middle, name@);
                        }
                    }
                }
                low = mid + 1;
            } else if name_precedes(name, self.names[mid].as_str()) {
                proof {
                    assert forall|k: int| mid <= k < self.names().len() implies name_lt(
                        name@,
                        #[trigger] self.names()[k],
                    ) by {
                        if k > mid {
                            lemma_name_lt_transitive(name@, middle, self.names()[k]);
                        }
                    }
                }
                high = mid;
            } else {
                proof {
                    lemma_name_lt_total(middle, name@);
                }
                return Ok(mid);
            }
        }
        proof {
            assert forall|k: int| 0 <= k < self.names().len() implies self.names()[k]
                != name@ by {
                if k < low {
                    lemma_name_lt_asymmetric(self.names()[k], name@);
                } else {
                    lemma_name_lt_asymmetric(name@, self.names()[k]);
                }
            }
        }
        Err(low)
    }

    /// The value at place `i`, to be changed in place.
    pub fn value_at_mut(&mut self, i: usize) -> (value: &mut V)
        requires
            i < old(self).values().len(),
        ensures
            *value == old(self).values()[i as int],
            final(self).names() == old(self).names(),
            final(self).values() == old(self).values().update(i as int, *final(value)),
    {
        &mut self.values[i]
    }

    /// Whether the map has an entry for `name`.
    pub fn contains_key(&self, name: &str) -> (r: bool)
        requires
            self.wf(),
        ensures
            r == self@.contains_key(name@),
    {
        self.position(name).is_ok()
    }

    /// The value for `name`, if the map has one.
    pub fn get(&self, name: &str) -> (r: Option<&V>)
        requires
            self.wf(),
        ensures
            match r {
                Some(value) => self@.contains_key(name@) && *value == self@[name@],
                None => !self@.contains_key(name@),
            },
    {
        match self.position(name) {
            Ok(i) => {
                proof {
                    self.lemma_entry(i as int);
                }
                Some(&self.values[i])
            },
            Err(_) => None,
        }
    }
}

impl<V> NameMap<V> {
    /// Appends an entry whose name comes after every name in the map.
    pub(crate) fn push(&mut self, name: String, value: V)
        requires
            old(self).wf(),
            forall|k: int|
                0 <= k < old(self).names().len() ==> name_lt(
                    #[trigger] old(self).names()[k],
                    name@,
                ),
        ensures
            final(self).wf(),
            final(self).names() == old(self).names().push(name@),
            final(self).values() == old(self).values().push(value),
            final(self)@ == old(self)@.insert(name@, value),
    {
        let ghost before = *self;
        self.names.push(name);
        self.values.push(value);
        proof {
            let n = before.names().len() as int;
            assert(self.names() =~= before.names().push(name@));
            assert(before.names().push(name@) =~= before.names().insert(n, name@));
            assert(before.values().push(value) =~= before.values().insert(n, value));
            lemma_inserted(before, *self, before.names().len() as int, name@, value);
        }
    }

    /// Sets the value for `name`, and returns the value that the map held
    /// for it before, if any.
    pub fn insert(&mut self, name: String, value: V) -> (r: Option<V>)
        requires
            old(self).wf(),
        ensures
            final(self).wf(),
            final(self)@ == old(self)@.insert(name@, value),
            match r {
                Some(held) => old(self)@.contains_key(name@) && held == old(self)@[name@],
                None => !old(self)@.contains_key(name@),
            },
    {
        let ghost before = *self;
        match self.position(name.as_str()) {
            Ok(i) => {
                let mut held = value;
                std::mem::swap(&mut self.values[i], &mut held);
                proof {
                    before.lemma_entry(i as int);
                    lemma_replaced(before, *self, i as int, value);
                }
                Some(held)
            },
            Err(i) => {
                let ghost key = name@;
                self.names.insert(i, name);
                self.values.insert(i, value);
                proof {
                    assert(self.names() =~= before.names().insert(i as int, key));
                    lemma_inserted(before, *self, i as int, key, value);
                }
                None
            },
        }
    }

    /// Takes out the entry for `name`, and returns its value, if the map
    /// held one.
    pub fn remove(&mut self, name: &str) -> (r: Option<V>)
        requires
            old(self).wf(),
        ensures
            final(self).wf(),
            final(self)@ == old(self)@.remove(name@),
            match r {
                Some(held) => old(self)@.contains_key(name@) && held == old(self)@[name@],
                None => !old(self)@.contains_key(name@),
            },
    {
        let ghost before = *self;
        match self.position(name) {
            Ok(i) => {
                self.names.remove(i);
                let held = self.values.remove(i);
                proof {
                    before.lemma_entry(i as int);
                    assert(self.names() =~= before.names().remove(i as int));
                    lemma_removed(before, *self, i as int);
                }
                Some(held)
            },
            Err(_) => {
                assert(self@ =~= before@.remove(name@));
                None
            },
        }
    }
}

/// Replacing the value at one place sets the map's entry for the name at
/// that place.
pub proof fn lemma_replaced<V>(before: NameMap<V>, after: NameMap<V>, i: int, value: V)
    requires
        before.wf(),
        0 <= i < before.names().len(),
        after.names() == before.names(),
        after.values() == before.values().update(i, value),
    ensures
        after.wf(),
        after@ == before@.insert(before.names()[i], value),
{
    lemma_ascending_distinct(before.names());
    assert(before.names().contains(before.names()[i]));
    assert(after@ =~= before@.insert(before.names()[i], value));
}

/// Inserting a name at the place where the order wants it adds an entry
/// and leaves the others as they were.
pub proof fn lemma_inserted<V>(
    before: NameMap<V>,
    after: NameMap<V>,
    i: int,
    name: Seq<char>,
    value: V,
)
    requires
        before.wf(),
        0 <= i <= before.names().len(),
        forall|k: int| 0 <= k < i ==> name_lt(#[trigger] before.names()[k], name),
        forall|k: int| i <= k < before.names().len() ==> name_lt(name, #[trigger] before.names()[k]),
        after.names() == before.names().insert(i, name),
        after.values() == before.values().insert(i, value),
    ensures
        after.wf(),
        after@ == before@.insert(name, value),
{
    let old_names = before.names();
    let new_names = after.names();
    assert forall|a: int, b: int| 0 <= a < b < new_names.len() implies name_lt(
        new_names[a],
        new_names[b],
    ) by {
        let a0 = if a < i { a } else { a - 1 };
        let b0 = if b < i { b } else { b - 1 };
        if a != i && b != i {
            assert(new_names[a] == old_names[a0]);
            assert(new_names[b] == old_names[b0]);
        } else if a == i {
            assert(new_names[b] == old_names[b0]);
        } else {
            assert(new_names[a] == old_names[a0]);
        }
    }
    lemma_ascending_distinct(old_names);
    lemma_ascending_distinct(new_names);
    assert forall|key: Seq<char>| #[trigger]
        after@.contains_key(key) <==> before@.insert(name, value).contains_key(key) by {
        if new_names.contains(key) {
            let k = new_names.index_of(key);
            if k != i {
                let k0 = if k < i { k } else { k - 1 };
                assert(old_names[k0] == key);
            }
        }
        if old_names.contains(key) {
            let k0 = old_names.index_of(key);
            let k = if k0 < i { k0 } else { k0 + 1 };
            assert(new_names[k] == key);
        }
        if key == name {
            assert(new_names[i] == key);
        }
    }
    assert forall|key: Seq<char>| #[trigger] after@.contains_key(key) implies after@[key]
        == before@.insert(name, value)[key] by {
        let k = new_names.index_of(key);
        assert(new_names.contains(key));
        if k == i {
        } else {
            let k0 = if k < i { k } else { k - 1 };
            assert(old_names[k0] == key);
            assert(old_names.index_of(key) == k0);
            if key == name {
                assert(new_names[i] == key);
            }
        }
    }
    assert(after@ =~= before@.insert(name, value));
}

/// Removing the entry at one place removes the name at that place from
/// the map and leaves the others as they were.
pub proof fn lemma_removed<V>(before: NameMap<V>, after: NameMap<V>, i: int)
    requires
        before.wf(),
        0 <= i < before.names().len(),
        after.names() == before.names().remove(i),
        after.values() == before.values().remove(i),
    ensures
        after.wf(),
        after@ == before@.remove(before.names()[i]),
{
    let old_names = before.names();
    let new_names = after.names();
    let name = old_names[i];
    assert forall|a: int, b: int| 0 <= a < b < new_names.len() implies name_lt(
        new_names[a],
        new_names[b],
    ) by {
        let a0 = if a < i { a } else { a + 1 };
        let b0 = if b < i { b } else { b + 1 };
        assert(new_names[a] == old_names[a0]);
        assert(new_names[b] == old_names[b0]);
    }
    lemma_ascending_distinct(old_names);
    lemma_ascending_distinct(new_names);
    assert forall|key: Seq<char>| #[trigger]
        after@.contains_key(key) <==> before@.remove(name).contains_key(key) by {
        if new_names.contains(key) {
            let k = new_names.index_of(key);
            let k0 = if k < i { k } else { k + 1 };
            assert(old_names[k0] == key);
        }
        if old_names.contains(key) && key != name {
            let k0 = old_names.index_of(key);
            let k = if k0 < i { k0 } else { k0 - 1 };
            assert(new_names[k] == key);
        }
    }
    assert forall|key: Seq<char>| #[trigger] after@.contains_key(key) implies after@[key]
        == before@.remove(name)[key] by {
        let k = new_names.index_of(key);
        assert(new_names.contains(key));
        let k0 = if k < i { k } else { k + 1 };
        assert(old_names[k0] == key);
        assert(old_names.index_of(key) == k0);
    }
    assert(after@ =~= before@.remove(name));
}

} // verus!
