//! A map keyed by text, kept in the order of its keys.

use vstd::prelude::*;

#[allow(unused_imports)]
use crate::text;
use crate::text::{is_text_before, same_text};

verus! {

/// A map from texts to values. Its entries stand in the order of the UTF-8 bytes of their keys.
#[derive(Debug)]
pub struct TextMap<V> {
    entries: Vec<(String, V)>,
}

impl<V> TextMap<V> {
    /// The keys, in order.
    pub closed spec fn keys(self) -> Seq<Seq<char>> {
        Seq::new(self.entries@.len(), |i: int| self.entries@[i].0@)
    }

    /// The values, in the order of their keys.
    pub closed spec fn values(self) -> Seq<V> {
        Seq::new(self.entries@.len(), |i: int| self.entries@[i].1)
    }

    /// Whether the keys are in order, each once.
    pub open spec fn well_formed(self) -> bool {
        &&& self.keys().len() == self.values().len()
        &&& forall|i: int, j: int|
            0 <= i < j < self.keys().len() ==> text::text_before(self.keys()[i], self.keys()[j])
    }
}

impl<V> View for TextMap<V> {
    type V = Map<Seq<char>, V>;

    open spec fn view(&self) -> Map<Seq<char>, V> {
        Map::new(
            |key: Seq<char>| self.keys().contains(key),
            |key: Seq<char>| self.values()[self.keys().index_of(key)],
        )
    }
}

impl<V> TextMap<V> {
    /// Keys that are in order differ.
    proof fn lemma_keys_differ(self, i: int, j: int)
        requires
            self.well_formed(),
            0 <= i < self.keys().len(),
            0 <= j < self.keys().len(),
            i != j,
        ensures
            self.keys()[i] != self.keys()[j],
    {
        text::texts_are_ordered(self.keys()[i], self.keys()[j]);
        if i < j {
            assert(text::text_before(self.keys()[i], self.keys()[j]));
        } else {
            assert(text::text_before(self.keys()[j], self.keys()[i]));
        }
    }

    /// The entry at an index is the entry of its key.
    pub proof fn entry_at(self, i: int)
        requires
            self.well_formed(),
            0 <= i < self.keys().len(),
        ensures
            self@.contains_key(self.keys()[i]),
            self@[self.keys()[i]] == self.values()[i],
            self.keys().index_of(self.keys()[i]) == i,
    {
        let key = self.keys()[i];
        assert(self.keys().contains(key));
        let j = self.keys().index_of(key);
        if i != j {
            self.lemma_keys_differ(i, j);
        }
    }

    pub fn new() -> (map: Self)
        ensures
            map.well_formed(),
            map@ == Map::<Seq<char>, V>::empty(),
            map.keys() == Seq::<Seq<char>>::empty(),
    {
        let map = TextMap { entries: Vec::new() };
        assert(map.keys() =~= seq![]);
        assert(map@ =~= Map::<Seq<char>, V>::empty());
        map
    }

    pub fn len(&self) -> (len: usize)
        ensures
            len == self.keys().len(),
    {
        self.entries.len()
    }

    /// The key at an index of the order.
    pub fn key_at(&self, index: usize) -> (key: &String)
        requires
            index < self.keys().len(),
        ensures
            key@ == self.keys()[index as int],
    {
        &self.entries[index].0
    }

    /// The value at an index of the order.
    pub fn value_at(&self, index: usize) -> (value: &V)
        requires
            self.well_formed(),
            index < self.keys().len(),
        ensures
            *value == self.values()[index as int],
            *value == self@[self.keys()[index as int]],
            self@.contains_key(self.keys()[index as int]),
    {
        proof {
            self.entry_at(index as int);
        }
        &self.entries[index].1
    }

    /// Where a key stands, or belongs.
    fn find(&self, key: &str) -> (found: (usize, bool))
        requires
            self.well_formed(),
        ensures
            found.0 <= self.keys().len(),
            found.1 == self@.contains_key(key@),
            found.1 ==> found.0 < self.keys().len() && self.keys()[found.0 as int] == key@,
            !found.1 ==> (forall|i: int|
                0 <= i < found.0 ==> text::text_before(#[trigger] self.keys()[i], key@)) && (
            forall|i: int|
                found.0 <= i < self.keys().len() ==> text::text_before(
                    key@,
                    #[trigger] self.keys()[i],
                )),
    {
        let mut low: usize = 0;
        let mut high: usize = self.entries.len();
        while low < high
            invariant
                self.well_formed(),
                low <= high <= self.keys().len(),
                self.keys().len() == self.entries@.len(),
                forall|i: int| 0 <= i < low ==> text::text_before(#[trigger] self.keys()[i], key@),
                forall|i: int|
                    high <= i < self.keys().len() ==> text::text_before(
                        key@,
                        #[trigger] self.keys()[i],
                    ),
            decreases high - low,
        {
            let middle: usize = low + (high - low) / 2;
            let ghost at = self.keys()[middle as int];
            if same_text(self.entries[middle].0.as_str(), key) {
                proof {
                    self.entry_at(middle as int);
                }
                return (middle, true);
            }
            proof {
                text::texts_are_ordered(at, key@);
            }
            if is_text_before(self.entries[middle].0.as_str(), key) {
                assert forall|i: int| 0 <= i < middle + 1 implies text::text_before(
                    #[trigger] self.keys()[i],
                    key@,
                ) by {
                    if i < middle {
                        text::text_order_is_transitive(self.keys()[i], at, key@);
                    }
                }
                low = middle + 1;
            } else {
                assert forall|i: int| middle <= i < self.keys().len() implies text::text_before(
                    key@,
                    #[trigger] self.keys()[i],
                ) by {
                    if i > middle {
                        text::text_order_is_transitive(key@, at, self.keys()[i]);
                    }
                }
                high = middle;
            }
        }
        proof {
            if self@.contains_key(key@) {
                let i = self.keys().index_of(key@);
                text::texts_are_ordered(key@, key@);
            }
        }
        (low, false)
    }

    pub fn contains(&self, key: &str) -> (contains: bool)
        requires
            self.well_formed(),
        ensures
            contains == self@.contains_key(key@),
    {
        self.find(key).1
    }

    pub fn get(&self, key: &str) -> (value: Option<&V>)
        requires
            self.well_formed(),
        ensures
            match value {
                Some(value) => self@.contains_key(key@) && *value == self@[key@],
                None => !self@.contains_key(key@),
            },
    {
        let (index, found) = self.find(key);
        if found {
            Some(self.value_at(index))
        } else {
            None
        }
    }

    /// Puts a value at a key, in place of the value that was there.
    pub fn insert(&mut self, key: &str, value: V)
        requires
            old(self).well_formed(),
        ensures
            final(self).well_formed(),
            final(self)@ == old(self)@.insert(key@, value),
    {
        let (index, found) = self.find(key);
        let ghost before = *self;
        if found {
            proof {
                before.entry_at(index as int);
            }
            self.entries[index].1 = value;
            assert(self.keys() =~= before.keys());
            assert(self.values() =~= before.values().update(index as int, value));
            assert forall|k: Seq<char>| self@.contains_key(k) implies #[trigger] self@[k]
                == before@.insert(key@, value)[k] by {
                let i = before.keys().index_of(k);
                if k == key@ {
                    assert(i == index);
                } else {
                    assert(i != index);
                }
            }
            assert(self@ =~= before@.insert(key@, value));
        } else {
            self.entries.insert(index, (key.to_owned(), value));
            assert(self.keys() =~= before.keys().insert(index as int, key@));
            assert(self.values() =~= before.values().insert(index as int, value));
            assert forall|i: int, j: int| 0 <= i < j < self.keys().len() implies text::text_before(
                self.keys()[i],
                self.keys()[j],
            ) by {
                if i != index && j != index {
                    let a = if i < index {
                        i
                    } else {
                        i - 1
                    };
                    let b = if j < index {
                        j
                    } else {
                        j - 1
                    };
                    assert(text::text_before(before.keys()[a], before.keys()[b]));
                }
            }
            assert forall|k: Seq<char>| #![trigger self@.contains_key(k)]
                self@.contains_key(k) == before@.insert(key@, value).contains_key(k) && (
                self@.contains_key(k) ==> self@[k] == before@.insert(key@, value)[k]) by {
                if before.keys().contains(k) {
                    let i = before.keys().index_of(k);
                    let a = if i < index {
                        i
                    } else {
                        i + 1
                    };
                    assert(self.keys()[a] == k);
                    self.entry_at(a);
                    before.entry_at(i);
                }
                if self.keys().contains(k) {
                    let i = self.keys().index_of(k);
                    if i != index {
                        let a = if i < index {
                            i
                        } else {
                            i - 1
                        };
                        assert(before.keys()[a] == k);
                    }
                }
                assert(self.keys()[index as int] == key@);
                self.entry_at(index as int);
            }
            assert(self@ =~= before@.insert(key@, value));
        }
    }

    /// Takes the entry of a key out.
    pub fn remove(&mut self, key: &str) -> (value: Option<V>)
        requires
            old(self).well_formed(),
        ensures
            final(self).well_formed(),
            final(self)@ == old(self)@.remove(key@),
            match value {
                Some(value) => old(self)@.contains_key(key@) && value == old(self)@[key@],
                None => !old(self)@.contains_key(key@),
            },
    {
        let (index, found) = self.find(key);
        let ghost before = *self;
        if !found {
            assert(self@ =~= before@.remove(key@));
            return None;
        }
        proof {
            before.entry_at(index as int);
        }
        let (_, value) = self.entries.remove(index);
        proof {
            assert(self.keys() =~= before.keys().remove(index as int));
            assert(self.values() =~= before.values().remove(index as int));
            assert forall|i: int, j: int| 0 <= i < j < self.keys().len() implies text::text_before(
                self.keys()[i],
                self.keys()[j],
            ) by {
                let a = if i < index {
                    i
                } else {
                    i + 1
                };
                let b = if j < index {
                    j
                } else {
                    j + 1
                };
                assert(text::text_before(before.keys()[a], before.keys()[b]));
            }
            assert forall|k: Seq<char>| #![trigger self@.contains_key(k)]
                self@.contains_key(k) == before@.remove(key@).contains_key(k) && (
                self@.contains_key(k) ==> self@[k] == before@.remove(key@)[k]) by {
                if self.keys().contains(k) {
                    let i = self.keys().index_of(k);
                    let a = if i < index {
                        i
                    } else {
                        i + 1
                    };
                    assert(before.keys()[a] == k);
                    before.entry_at(a);
                    self.entry_at(i);
                    before.lemma_keys_differ(a, index as int);
                }
                if before.keys().contains(k) && k != key@ {
                    let i = before.keys().index_of(k);
                    let a = if i < index {
                        i
                    } else {
                        i - 1
                    };
                    assert(self.keys()[a] == k);
                }
            }
            assert(self@ =~= before@.remove(key@));
        }
        Some(value)
    }
}

} // verus!
