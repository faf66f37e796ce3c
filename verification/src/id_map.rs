//! A map keyed by numbers, kept in the order of its keys.

use vstd::prelude::*;

verus! {

/// A map from numbers to values. Its entries stand in the order of their keys.
#[derive(Debug)]
pub struct IdMap<V> {
    entries: Vec<(u64, V)>,
}

impl<V> IdMap<V> {
    /// The keys, in order.
    pub closed spec fn ids(self) -> Seq<u64> {
        Seq::new(self.entries@.len(), |i: int| self.entries@[i].0)
    }

    /// The values, in the order of their keys.
    pub closed spec fn values(self) -> Seq<V> {
        Seq::new(self.entries@.len(), |i: int| self.entries@[i].1)
    }

    /// Whether the keys are in order, each once.
    pub open spec fn well_formed(self) -> bool {
        &&& self.ids().len() == self.values().len()
        &&& forall|i: int, j: int| 0 <= i < j < self.ids().len() ==> self.ids()[i] < self.ids()[j]
    }

    /// How many keys are at most `id`.
    pub open spec fn count_up_to(self, id: u64) -> nat {
        ids_up_to(self.ids(), id)
    }
}

/// How many numbers in front of a list are at most `id`.
pub open spec fn ids_up_to(ids: Seq<u64>, id: u64) -> nat
    decreases ids.len(),
{
    if ids.len() > 0 && ids[0] <= id {
        1 + ids_up_to(ids.skip(1), id)
    } else {
        0
    }
}

proof fn lemma_ids_up_to(ids: Seq<u64>, id: u64, n: int)
    requires
        0 <= n <= ids.len(),
        forall|i: int| 0 <= i < n ==> ids[i] <= id,
        n < ids.len() ==> ids[n] > id,
    ensures
        ids_up_to(ids, id) == n,
    decreases n,
{
    if n > 0 {
        lemma_ids_up_to(ids.skip(1), id, n - 1);
    }
}

impl<V> View for IdMap<V> {
    type V = Map<u64, V>;

    open spec fn view(&self) -> Map<u64, V> {
        Map::new(
            |id: u64| self.ids().contains(id),
            |id: u64| self.values()[self.ids().index_of(id)],
        )
    }
}

impl<V> IdMap<V> {
    /// The entry at an index is the entry of its key.
    pub proof fn entry_at(self, i: int)
        requires
            self.well_formed(),
            0 <= i < self.ids().len(),
        ensures
            self@.contains_key(self.ids()[i]),
            self@[self.ids()[i]] == self.values()[i],
            self.ids().index_of(self.ids()[i]) == i,
    {
        let id = self.ids()[i];
        assert(self.ids().contains(id));
        let j = self.ids().index_of(id);
        assert(self.ids()[j] == id);
        if i < j {
            assert(self.ids()[i] < self.ids()[j]);
        } else if j < i {
            assert(self.ids()[j] < self.ids()[i]);
        }
    }

    pub fn new() -> (map: Self)
        ensures
            map.well_formed(),
            map@ == Map::<u64, V>::empty(),
            map.ids() == Seq::<u64>::empty(),
    {
        let map = IdMap { entries: Vec::new() };
        assert(map.ids() =~= seq![]);
        assert(map@ =~= Map::<u64, V>::empty());
        map
    }

    pub fn len(&self) -> (len: usize)
        ensures
            len == self.ids().len(),
    {
        self.entries.len()
    }

    /// The key at an index of the order.
    pub fn id_at(&self, index: usize) -> (id: u64)
        requires
            index < self.ids().len(),
        ensures
            id == self.ids()[index as int],
    {
        self.entries[index].0
    }

    /// The value at an index of the order.
    pub fn value_at(&self, index: usize) -> (value: &V)
        requires
            self.well_formed(),
            index < self.ids().len(),
        ensures
            *value == self.values()[index as int],
            *value == self@[self.ids()[index as int]],
            self@.contains_key(self.ids()[index as int]),
    {
        proof {
            self.entry_at(index as int);
        }
        &self.entries[index].1
    }

    /// Where a key stands, or belongs. Keys are mostly added behind the others, so the search
    /// starts there.
    fn find(&self, id: u64) -> (found: (usize, bool))
        requires
            self.well_formed(),
        ensures
            found.0 <= self.ids().len(),
            found.1 == self@.contains_key(id),
            found.1 ==> found.0 < self.ids().len() && self.ids()[found.0 as int] == id,
            !found.1 ==> (forall|i: int| 0 <= i < found.0 ==> #[trigger] self.ids()[i] < id) && (
            forall|i: int| found.0 <= i < self.ids().len() ==> id < #[trigger] self.ids()[i]),
    {
        let mut i: usize = self.entries.len();
        while i > 0 && self.entries[i - 1].0 > id
            invariant
                i <= self.entries@.len(),
                self.ids().len() == self.entries@.len(),
                forall|j: int| i <= j < self.ids().len() ==> id < #[trigger] self.ids()[j],
            decreases i,
        {
            i = i - 1;
        }
        if i > 0 && self.entries[i - 1].0 == id {
            proof {
                self.entry_at(i - 1);
            }
            return (i - 1, true);
        }
        proof {
            assert forall|j: int| 0 <= j < i implies #[trigger] self.ids()[j] < id by {
                if j < i - 1 {
                    assert(self.ids()[j] < self.ids()[i - 1]);
                }
            }
            if self@.contains_key(id) {
                let j = self.ids().index_of(id);
                assert(self.ids()[j] == id);
            }
        }
        (i, false)
    }

    pub fn get(&self, id: u64) -> (value: Option<&V>)
        requires
            self.well_formed(),
        ensures
            match value {
                Some(value) => self@.contains_key(id) && *value == self@[id],
                None => !self@.contains_key(id),
            },
    {
        let (index, found) = self.find(id);
        if found {
            Some(self.value_at(index))
        } else {
            None
        }
    }

    /// Puts a value at a key, in place of the value that was there.
    pub fn insert(&mut self, id: u64, value: V)
        requires
            old(self).well_formed(),
        ensures
            final(self).well_formed(),
            final(self)@ == old(self)@.insert(id, value),
    {
        let (index, found) = self.find(id);
        let ghost before = *self;
        if found {
            proof {
                before.entry_at(index as int);
            }
            self.entries[index].1 = value;
            assert(self.ids() =~= before.ids());
            assert(self.values() =~= before.values().update(index as int, value));
            assert forall|k: u64| self@.contains_key(k) implies #[trigger] self@[k]
                == before@.insert(id, value)[k] by {
                let i = before.ids().index_of(k);
                if k == id {
                    assert(i == index);
                } else {
                    assert(i != index);
                }
            }
            assert(self@ =~= before@.insert(id, value));
        } else {
            self.entries.insert(index, (id, value));
            assert(self.ids() =~= before.ids().insert(index as int, id));
            assert(self.values() =~= before.values().insert(index as int, value));
            assert forall|i: int, j: int| 0 <= i < j < self.ids().len() implies self.ids()[i]
                < self.ids()[j] by {
                if i != index && j != index {
                    let a = if i < index {
                        i
                    } else {
                        i - 1
                    };
                    let b = if j < index {
                        j
                    } else {
                        j - 1
                    };
                    assert(before.ids()[a] < before.ids()[b]);
                }
            }
            assert forall|k: u64| #![trigger self@.contains_key(k)]
                self@.contains_key(k) == before@.insert(id, value).contains_key(k) && (
                self@.contains_key(k) ==> self@[k] == before@.insert(id, value)[k]) by {
                if before.ids().contains(k) {
                    let i = before.ids().index_of(k);
                    let a = if i < index {
                        i
                    } else {
                        i + 1
                    };
                    assert(self.ids()[a] == k);
                    self.entry_at(a);
                    before.entry_at(i);
                }
                if self.ids().contains(k) {
                    let i = self.ids().index_of(k);
                    if i != index {
                        let a = if i < index {
                            i
                        } else {
                            i - 1
                        };
                        assert(before.ids()[a] == k);
                    }
                }
                assert(self.ids()[index as int] == id);
                self.entry_at(index as int);
            }
            assert(self@ =~= before@.insert(id, value));
        }
    }

    /// Takes the entry of a key out.
    pub fn remove(&mut self, id: u64) -> (value: Option<V>)
        requires
            old(self).well_formed(),
        ensures
            final(self).well_formed(),
            final(self)@ == old(self)@.remove(id),
            match value {
                Some(value) => old(self)@.contains_key(id) && value == old(self)@[id],
                None => !old(self)@.contains_key(id),
            },
    {
        let (index, found) = self.find(id);
        let ghost before = *self;
        if !found {
            assert(self@ =~= before@.remove(id));
            return None;
        }
        proof {
            before.entry_at(index as int);
        }
        let (_, value) = self.entries.remove(index);
        proof {
            assert(self.ids() =~= before.ids().remove(index as int));
            assert(self.values() =~= before.values().remove(index as int));
            assert forall|i: int, j: int| 0 <= i < j < self.ids().len() implies self.ids()[i]
                < self.ids()[j] by {
                let a = if i < index {
                    i
                } else {
                    i + 1
                };
                let b = if j < index {
                    j
                } else {
                    j + 1
                };
                assert(before.ids()[a] < before.ids()[b]);
            }
            assert forall|k: u64| #![trigger self@.contains_key(k)]
                self@.contains_key(k) == before@.remove(id).contains_key(k) && (
                self@.contains_key(k) ==> self@[k] == before@.remove(id)[k]) by {
                if self.ids().contains(k) {
                    let i = self.ids().index_of(k);
                    let a = if i < index {
                        i
                    } else {
                        i + 1
                    };
                    assert(before.ids()[a] == k);
                    before.entry_at(a);
                    self.entry_at(i);
                    if a < index {
                        assert(before.ids()[a] < before.ids()[index as int]);
                    } else {
                        assert(before.ids()[index as int] < before.ids()[a]);
                    }
                }
                if before.ids().contains(k) && k != id {
                    let i = before.ids().index_of(k);
                    let a = if i < index {
                        i
                    } else {
                        i - 1
                    };
                    assert(self.ids()[a] == k);
                }
            }
            assert(self@ =~= before@.remove(id));
        }
        Some(value)
    }

    /// Takes every entry up to a key out, and returns their values in the order of their keys.
    pub fn drain_up_to(&mut self, id: u64) -> (drained: Vec<V>)
        requires
            old(self).well_formed(),
        ensures
            final(self).well_formed(),
            old(self).count_up_to(id) <= old(self).ids().len(),
            drained@ == old(self).values().take(old(self).count_up_to(id) as int),
            final(self).ids() == old(self).ids().skip(old(self).count_up_to(id) as int),
            final(self).values() == old(self).values().skip(old(self).count_up_to(id) as int),
            forall|k: u64| #[trigger] final(self)@.contains_key(k) <==> old(self)@.contains_key(k) && k
                > id,
            forall|k: u64| #[trigger] final(self)@.contains_key(k) ==> final(self)@[k] == old(
                self,
            )@[k],
    {
        let mut n: usize = 0;
        while n < self.entries.len() && self.entries[n].0 <= id
            invariant
                n <= self.entries@.len(),
                self.ids().len() == self.entries@.len(),
                forall|i: int| 0 <= i < n ==> #[trigger] self.ids()[i] <= id,
            decreases self.entries@.len() - n,
        {
            n = n + 1;
        }
        let ghost before = *self;
        proof {
            lemma_ids_up_to(before.ids(), id, n as int);
        }
        let later = self.entries.split_off(n);
        let mut entries = later;
        std::mem::swap(&mut entries, &mut self.entries);
        assert(self.ids() =~= before.ids().skip(n as int));
        assert(self.values() =~= before.values().skip(n as int));
        assert forall|i: int, j: int| 0 <= i < j < self.ids().len() implies self.ids()[i]
            < self.ids()[j] by {
            assert(before.ids()[i + n] < before.ids()[j + n]);
        }
        assert forall|k: u64| #[trigger] self@.contains_key(k) implies before@.contains_key(k) && k
            > id && self@[k] == before@[k] by {
            let i = self.ids().index_of(k);
            assert(before.ids()[i + n] == k);
            before.entry_at(i + n);
            self.entry_at(i);
            if i > 0 {
                assert(before.ids()[n as int] < before.ids()[i + n]);
            }
        }
        assert forall|k: u64| before@.contains_key(k) && k > id implies #[trigger] self@.contains_key(
            k,
        ) by {
            let i = before.ids().index_of(k);
            assert(before.ids()[i] == k);
            assert(i >= n);
            assert(self.ids()[i - n] == k);
        }
        let mut drained: Vec<V> = Vec::new();
        let ghost taken = entries@;
        assert(drained@ =~= before.values().take(0));
        while entries.len() > 0
            invariant
                drained@.len() + entries@.len() == n,
                n <= before.values().len(),
                drained@ == before.values().take(drained@.len() as int),
                forall|i: int|
                    0 <= i < entries@.len() ==> (#[trigger] entries@[i]).1
                        == before.values()[drained@.len() + i],
            decreases entries@.len(),
        {
            let (_, value) = entries.remove(0);
            let ghost len = drained@.len() as int;
            drained.push(value);
            assert(drained@ =~= before.values().take(len + 1));
        }
        drained
    }
}

/// In an ascending list, the numbers up to a number are those in front: all of them are at most that
/// number, and all others are beyond it.
pub proof fn numbers_up_to_a_number_are_in_front(ids: Seq<u64>, id: u64, k: int)
    requires
        forall|i: int, j: int| 0 <= i < j < ids.len() ==> ids[i] < ids[j],
        0 <= k < ids.len(),
    ensures
        ids_up_to(ids, id) <= ids.len(),
        k < ids_up_to(ids, id) <==> ids[k] <= id,
    decreases ids.len(),
{
    if ids[0] <= id {
        let rest = ids.skip(1);
        if k > 0 {
            numbers_up_to_a_number_are_in_front(rest, id, k - 1);
        } else if rest.len() > 0 {
            numbers_up_to_a_number_are_in_front(rest, id, 0);
        }
    } else {
        assert(ids[0] <= ids[k]);
    }
}

} // verus!
