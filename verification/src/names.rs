//! A table keyed by name, kept in the order of the names.
//!
//! It stands where a hash map would: one value per name, found by name. Its
//! entries can also be walked by position, and then come in name order, so
//! that what is derived from a walk does not depend on how the table was
//! filled.

use vstd::prelude::*;
use crate::text::{comes_before, lemma_name_order, name_before, same_name};

verus! {

/// Every earlier name comes before every later one.
pub open spec fn strictly_ordered(names: Seq<Seq<char>>) -> bool {
    forall|i: int, j: int| 0 <= i < j < names.len() ==> name_before(#[trigger] names[i], #[trigger] names[j])
}

/// No name occurs at two positions of a strictly ordered sequence.
pub proof fn lemma_ordered_distinct(names: Seq<Seq<char>>, i: int, j: int)
    requires
        strictly_ordered(names),
        0 <= i < names.len(),
        0 <= j < names.len(),
        names[i] == names[j],
    ensures
        i == j,
{
    lemma_name_order(names[i], names[j], names[i]);
}

/// A strictly ordered sequence is determined by the names it holds.
pub proof fn lemma_ordered_unique(a: Seq<Seq<char>>, b: Seq<Seq<char>>)
    requires
        strictly_ordered(a),
        strictly_ordered(b),
        forall|n: Seq<char>| a.contains(n) <==> b.contains(n),
    ensures
        a == b,
    decreases a.len(),
{
    if a.len() == 0 {
        if b.len() > 0 {
            assert(b.contains(b[0]));
        }
        assert(a =~= b);
    } else {
        assert(a.contains(a.last()));
        let j = b.index_of(a.last());
        assert(b.contains(b.last()));
        let i = a.index_of(b.last());
        lemma_name_order(a.last(), b.last(), a.last());
        assert(a.last() == b.last());
        let front_a = a.drop_last();
        let front_b = b.drop_last();
        assert forall|n: Seq<char>| front_a.contains(n) <==> front_b.contains(n) by {
            if front_a.contains(n) {
                let k = front_a.index_of(n);
                assert(a[k] == n);
                assert(a.contains(n));
                lemma_name_order(n, a.last(), n);
                let m = b.index_of(n);
                assert(front_b[m] == n);
            }
            if front_b.contains(n) {
                let k = front_b.index_of(n);
                assert(b[k] == n);
                assert(b.contains(n));
                lemma_name_order(n, b.last(), n);
                let m = a.index_of(n);
                assert(front_a[m] == n);
            }
        }
        lemma_ordered_unique(front_a, front_b);
        assert(a =~= front_a.push(a.last()));
        assert(b =~= front_b.push(b.last()));
    }
}

struct Entry<V> {
    name: String,
    value: V,
}

pub struct NameMap<V> {
    entries: Vec<Entry<V>>,
}

impl<V> NameMap<V> {
    /// The names of the table, by position.
    pub closed spec fn names(&self) -> Seq<Seq<char>> {
        Seq::new(self.entries@.len(), |i: int| self.entries@[i].name@)
    }

    /// The values of the table, by position.
    pub closed spec fn values(&self) -> Seq<V> {
        Seq::new(self.entries@.len(), |i: int| self.entries@[i].value)
    }

    /// The names are in strict order, so none occurs twice.
    pub closed spec fn wf(&self) -> bool {
        strictly_ordered(self.names())
    }

    /// The table as a map from name to value.
    pub closed spec fn view(&self) -> Map<Seq<char>, V> {
        Map::new(
            |n: Seq<char>| self.names().contains(n),
            |n: Seq<char>| self.values()[self.names().index_of(n)],
        )
    }

    /// How positions and names relate.
    pub proof fn lemma_positions(&self)
        requires
            self.wf(),
        ensures
            strictly_ordered(self.names()),
            self.names().len() == self.values().len(),
            forall|i: int|
                0 <= i < self.names().len() ==> self@.contains_key(#[trigger] self.names()[i])
                    && self@[self.names()[i]] == self.values()[i],
            forall|n: Seq<char>| #[trigger]
                self@.contains_key(n) ==> self.names().contains(n),
            forall|n: Seq<char>| #[trigger]
                self.names().contains(n) ==> self@.contains_key(n),
    {
        assert forall|i: int| 0 <= i < self.names().len() implies self@.contains_key(
            #[trigger] self.names()[i],
        ) && self@[self.names()[i]] == self.values()[i] by {
            let n = self.names()[i];
            assert(self.names().contains(n));
            let j = self.names().index_of(n);
            lemma_ordered_distinct(self.names(), i, j);
        }
    }

    /// An empty table.
    pub fn new() -> (table: Self)
        ensures
            table.wf(),
            table@ == Map::<Seq<char>, V>::empty(),
            table.names() == Seq::<Seq<char>>::empty(),
    {
        let table = NameMap { entries: Vec::new() };
        proof {
            assert(table.names() =~= Seq::<Seq<char>>::empty());
            assert(table@ =~= Map::<Seq<char>, V>::empty());
        }
        table
    }

    /// The number of names.
    pub fn len(&self) -> (n: usize)
        ensures
            n == self.names().len(),
    {
        self.entries.len()
    }

    /// The name at a position.
    pub fn name_at(&self, i: usize) -> (name: &String)
        requires
            i < self.names().len(),
        ensures
            name@ == self.names()[i as int],
    {
        &self.entries[i].name
    }

    /// The value at a position.
    pub fn value_at(&self, i: usize) -> (value: &V)
        requires
            self.wf(),
            i < self.names().len(),
        ensures
            self@.contains_key(self.names()[i as int]),
            *value == self@[self.names()[i as int]],
            *value == self.values()[i as int],
    {
        proof {
            self.lemma_positions();
        }
        &self.entries[i].value
    }

    /// The first position whose name does not come before `name`.
    fn lower_bound(&self, name: &str) -> (i: usize)
        requires
            self.wf(),
        ensures
            i <= self.names().len(),
            forall|k: int| 0 <= k < i ==> name_before(#[trigger] self.names()[k], name@),
            forall|k: int|
                i <= k < self.names().len() ==> !name_before(#[trigger] self.names()[k], name@),
    {
        let mut i: usize = 0;
        while i < self.entries.len() && comes_before(self.entries[i].name.as_str(), name)
            invariant
                i <= self.names().len(),
                forall|k: int| 0 <= k < i ==> name_before(#[trigger] self.names()[k], name@),
            decreases self.entries.len() - i,
        {
            i += 1;
        }
        proof {
            assert forall|k: int| i <= k < self.names().len() implies !name_before(
                #[trigger] self.names()[k],
                name@,
            ) by {
                if i < k {
                    lemma_name_order(self.names()[i as int], self.names()[k], name@);
                }
            }
        }
        i
    }

    /// The position of `name`, if the table holds it.
    pub fn position(&self, name: &str) -> (found: Option<usize>)
        requires
            self.wf(),
        ensures
            found is Some <==> self@.contains_key(name@),
            found is Some ==> found->0 < self.names().len() && self.names()[found->0 as int]
                == name@,
    {
        let i = self.lower_bound(name);
        proof {
            self.lemma_positions();
        }
        if i < self.entries.len() && same_name(self.entries[i].name.as_str(), name) {
            assert(self.names()[i as int] == name@);
            Some(i)
        } else {
            proof {
                if self.names().contains(name@) {
                    let j = self.names().index_of(name@);
                    assert(self.names()[j] == name@);
                    lemma_name_order(name@, name@, name@);
                    if j < i {
                        assert(name_before(self.names()[j], name@));
                    } else if i < j {
                        assert(!name_before(self.names()[i as int], name@));
                        assert(name_before(self.names()[i as int], self.names()[j]));
                        lemma_name_order(name@, self.names()[i as int], name@);
                    } else {
                        assert(self.names()[i as int] == self.entries@[i as int].name@);
                    }
                    assert(false);
                }
            }
            None
        }
    }

    /// The value under `name`, if the table holds it.
    pub fn get(&self, name: &str) -> (value: Option<&V>)
        requires
            self.wf(),
        ensures
            value is Some <==> self@.contains_key(name@),
            value is Some ==> *value->0 == self@[name@],
    {
        match self.position(name) {
            Some(i) => Some(self.value_at(i)),
            None => None,
        }
    }

    /// Whether the table holds `name`.
    pub fn contains(&self, name: &str) -> (found: bool)
        requires
            self.wf(),
        ensures
            found == self@.contains_key(name@),
    {
        self.position(name).is_some()
    }

    /// Puts `value` under `name`, in place of what was there.
    pub fn insert(&mut self, name: String, value: V)
        requires
            old(self).wf(),
        ensures
            final(self).wf(),
            final(self)@ == old(self)@.insert(name@, value),
    {
        let i = self.lower_bound(name.as_str());
        let ghost before = *self;
        proof {
            before.lemma_positions();
        }
        if i < self.entries.len() && same_name(self.entries[i].name.as_str(), name.as_str()) {
            self.entries.set(i, Entry { name, value });
            proof {
                assert(self.names() =~= before.names());
                assert(self.values() =~= before.values().update(i as int, value));
                self.lemma_positions();
                assert(before.names()[i as int] == name@);
                assert forall|n: Seq<char>| self@.contains_key(n) implies self@[n]
                    == before@.insert(name@, value)[n] by {
                    let k = self.names().index_of(n);
                    assert(self.names()[k] == n);
                    if n == name@ {
                        lemma_ordered_distinct(self.names(), k, i as int);
                    }
                }
                assert(self@ =~= before@.insert(name@, value));
            }
        } else {
            self.entries.insert(i, Entry { name, value });
            proof {
                assert(self.names() =~= before.names().insert(i as int, name@));
                assert(self.values() =~= before.values().insert(i as int, value));
                assert forall|a: int, b: int| 0 <= a < b < self.names().len() implies name_before(
                    #[trigger] self.names()[a],
                    #[trigger] self.names()[b],
                ) by {
                    if b == i {
                    } else if a == i {
                        let next = before.names()[i as int];
                        lemma_name_order(next, name@, next);
                        lemma_name_order(name@, next, self.names()[b]);
                    } else {
                    }
                }
                self.lemma_positions();
                assert forall|n: Seq<char>| self@.contains_key(n) == before@.insert(
                    name@,
                    value,
                ).contains_key(n) by {
                    if self@.contains_key(n) {
                        let k = self.names().index_of(n);
                    }
                    if before@.contains_key(n) {
                        let k = before.names().index_of(n);
                        if k < i {
                            assert(self.names()[k] == n);
                        } else {
                            assert(self.names()[k + 1] == n);
                        }
                    }
                    if n == name@ {
                        assert(self.names()[i as int] == n);
                    }
                }
                assert forall|n: Seq<char>| self@.contains_key(n) implies self@[n]
                    == before@.insert(name@, value)[n] by {
                    let k = self.names().index_of(n);
                    assert(self.names()[k] == n);
                    assert(self.names()[i as int] == name@);
                    if n == name@ {
                        lemma_ordered_distinct(self.names(), k, i as int);
                    }
                    if k < i {
                        assert(before.names()[k] == n);
                        assert(self.values()[k] == before.values()[k]);
                    } else if k > i {
                        assert(before.names()[k - 1] == n);
                        assert(self.values()[k] == before.values()[k - 1]);
                    }
                }
                assert(self@ =~= before@.insert(name@, value));
            }
        }
    }

    /// Takes `name` out of the table, with its value.
    pub fn take(&mut self, name: &str) -> (value: Option<V>)
        requires
            old(self).wf(),
        ensures
            final(self).wf(),
            final(self)@ == old(self)@.remove(name@),
            value is Some <==> old(self)@.contains_key(name@),
            value is Some ==> value->0 == old(self)@[name@],
    {
        let ghost before = *self;
        proof {
            before.lemma_positions();
        }
        match self.position(name) {
            None => {
                assert(self@ =~= before@.remove(name@));
                None
            },
            Some(i) => {
                let entry = self.entries.remove(i);
                proof {
                    assert(self.names() =~= before.names().remove(i as int));
                    assert(self.values() =~= before.values().remove(i as int));
                    self.lemma_positions();
                    assert forall|n: Seq<char>| self@.contains_key(n) == before@.remove(
                        name@,
                    ).contains_key(n) by {
                        if self@.contains_key(n) {
                            let k = self.names().index_of(n);
                            let at = if k < i { k } else { k + 1 };
                            assert(before.names()[at] == n);
                            if n == name@ {
                                lemma_ordered_distinct(before.names(), at, i as int);
                            }
                        }
                        if before@.contains_key(n) && n != name@ {
                            let k = before.names().index_of(n);
                            if k < i {
                                assert(self.names()[k] == n);
                            } else {
                                assert(self.names()[k - 1] == n);
                            }
                        }
                    }
                    assert forall|n: Seq<char>| self@.contains_key(n) implies self@[n]
                        == before@.remove(name@)[n] by {
                        let k = self.names().index_of(n);
                        if k < i {
                            assert(before.names()[k] == n);
                        } else {
                            assert(before.names()[k + 1] == n);
                        }
                    }
                    assert(self@ =~= before@.remove(name@));
                }
                Some(entry.value)
            },
        }
    }
}

} // verus!
