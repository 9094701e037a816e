//! A map from text to values that keeps its keys in the order in which
//! they came.

use crate::ordering::{
    arranged_by, keys_view, lemma_picked, picked, picked_keys, rank_order, SortKey,
};
use crate::text::texts;
use vstd::hash_map::StringHashMap;
use vstd::prelude::*;

verus! {

/// The position of `key` among the first `n` entries.
pub open spec fn key_position<V>(entries: Seq<(Seq<char>, V)>, n: nat, key: Seq<char>) -> Option<
    int,
>
    decreases n,
{
    if n == 0 || n > entries.len() {
        None
    } else {
        match key_position(entries, (n - 1) as nat, key) {
            Some(i) => Some(i),
            None => if entries[n - 1].0 == key {
                Some(n - 1)
            } else {
                None
            },
        }
    }
}

pub proof fn lemma_key_position_found<V>(entries: Seq<(Seq<char>, V)>, n: nat, key: Seq<char>)
    requires
        n <= entries.len(),
    ensures
        match key_position(entries, n, key) {
            Some(i) => 0 <= i < n && entries[i].0 == key && forall|k: int|
                0 <= k < i ==> (#[trigger] entries[k]).0 != key,
            None => forall|k: int| 0 <= k < n ==> (#[trigger] entries[k]).0 != key,
        },
    decreases n,
{
    if n > 0 {
        lemma_key_position_found(entries, (n - 1) as nat, key);
    }
}

pub proof fn lemma_key_position_is<V>(entries: Seq<(Seq<char>, V)>, n: nat, key: Seq<char>, i: int)
    requires
        0 <= i < n <= entries.len(),
        entries[i].0 == key,
        forall|k: int| 0 <= k < i ==> (#[trigger] entries[k]).0 != key,
    ensures
        key_position(entries, n, key) == Some(i),
    decreases n,
{
    lemma_key_position_found(entries, (n - 1) as nat, key);
    if n - 1 > i {
        lemma_key_position_is(entries, (n - 1) as nat, key, i);
    }
}

/// The keys of the entries, in order.
pub open spec fn entry_names<V>(entries: Seq<(Seq<char>, V)>) -> Seq<Seq<char>> {
    Seq::new(entries.len(), |i: int| entries[i].0)
}

/// A map from text to values, the keys in the order in which they came.
#[verifier::reject_recursive_types(V)]
pub struct OrderedMap<V> {
    keys: Vec<String>,
    values: Vec<V>,
    index: StringHashMap<usize>,
}

impl<V> View for OrderedMap<V> {
    type V = Seq<(Seq<char>, V)>;

    closed spec fn view(&self) -> Seq<(Seq<char>, V)> {
        Seq::new(self.keys@.len(), |i: int| (self.keys@[i]@, self.values@[i]))
    }
}

impl<V> OrderedMap<V> {
    /// Every key has its value and is found at its place.
    pub closed spec fn wf(&self) -> bool {
        &&& self.keys@.len() == self.values@.len()
        &&& forall|i: int|
            0 <= i < self.keys@.len() ==> self.index@.contains_key(
                #[trigger] texts(self.keys@)[i],
            ) && self.index@[texts(self.keys@)[i]] == i
        &&& forall|k: Seq<char>| #[trigger]
            self.index@.contains_key(k) ==> self.index@[k] < self.keys@.len() && texts(
                self.keys@,
            )[self.index@[k] as int] == k
    }

    /// No key stands twice.
    pub proof fn lemma_keys_distinct(&self)
        requires
            self.wf(),
        ensures
            forall|i: int, j: int|
                0 <= i < self@.len() && 0 <= j < self@.len() && i != j ==> (#[trigger] self@[i]).0
                    != (#[trigger] self@[j]).0,
    {
        assert forall|i: int, j: int|
            0 <= i < self@.len() && 0 <= j < self@.len() && i != j implies (#[trigger] self@[i]).0
            != (#[trigger] self@[j]).0 by {
            assert(texts(self.keys@)[i] == self@[i].0);
            assert(texts(self.keys@)[j] == self@[j].0);
        }
    }

    /// A map without entries.
    pub fn new() -> (map: OrderedMap<V>)
        ensures
            map.wf(),
            map@ == Seq::<(Seq<char>, V)>::empty(),
    {
        let map = OrderedMap { keys: Vec::new(), values: Vec::new(), index: StringHashMap::new() };
        assert(map@ =~= Seq::<(Seq<char>, V)>::empty());
        map
    }

    /// The number of entries.
    pub fn len(&self) -> (n: usize)
        requires
            self.wf(),
        ensures
            n == self@.len(),
    {
        self.keys.len()
    }

    /// The place of `key`.
    pub fn position(&self, key: &str) -> (r: Option<usize>)
        requires
            self.wf(),
        ensures
            match r {
                Some(i) => key_position(self@, self@.len(), key@) == Some(i as int) && i
                    < self@.len(),
                None => key_position(self@, self@.len(), key@) is None,
            },
    {
        proof {
            lemma_key_position_found(self@, self@.len(), key@);
            match key_position(self@, self@.len(), key@) {
                Some(i) => {
                    assert(texts(self.keys@)[i] == key@);
                },
                None => {
                    if self.index@.contains_key(key@) {
                        let j = self.index@[key@] as int;
                        assert(self@[j].0 == key@);
                    }
                },
            }
        }
        match self.index.get(key) {
            Some(i) => Some(*i),
            None => None,
        }
    }

    /// The key at place `i`.
    pub fn key(&self, i: usize) -> (k: &String)
        requires
            self.wf(),
            i < self@.len(),
        ensures
            k@ == self@[i as int].0,
    {
        &self.keys[i]
    }

    /// The value at place `i`.
    pub fn value(&self, i: usize) -> (v: &V)
        requires
            self.wf(),
            i < self@.len(),
        ensures
            *v == self@[i as int].1,
    {
        &self.values[i]
    }

    /// Puts `value` at place `i` and hands out what was there.
    pub fn replace(&mut self, i: usize, value: V) -> (was: V)
        requires
            old(self).wf(),
            i < old(self)@.len(),
        ensures
            final(self).wf(),
            was == old(self)@[i as int].1,
            final(self)@ == old(self)@.update(i as int, (old(self)@[i as int].0, value)),
    {
        let mut held = value;
        core::mem::swap(&mut self.values[i], &mut held);
        assert(self@ =~= old(self)@.update(i as int, (old(self)@[i as int].0, value)));
        held
    }

    /// Adds an entry for a key that has none, behind the others, and says
    /// where it stands.
    pub fn push(&mut self, key: &str, value: V) -> (i: usize)
        requires
            old(self).wf(),
            key_position(old(self)@, old(self)@.len(), key@) is None,
        ensures
            final(self).wf(),
            i == old(self)@.len(),
            final(self)@ == old(self)@.push((key@, value)),
    {
        let ghost before = self@;
        let ghost old_keys = texts(self.keys@);
        let ghost old_index = self.index@;
        proof {
            lemma_key_position_found(before, before.len(), key@);
            if old_index.contains_key(key@) {
                let j = old_index[key@] as int;
                assert(before[j].0 == key@);
            }
        }
        let i: usize = self.keys.len();
        self.keys.push(key.to_owned());
        self.values.push(value);
        self.index.insert(key.to_owned(), i);
        proof {
            let new_keys = texts(self.keys@);
            assert(new_keys =~= old_keys.push(key@));
            assert(self@ =~= before.push((key@, value)));
            assert forall|j: int| 0 <= j < self.keys@.len() implies self.index@.contains_key(
                #[trigger] new_keys[j],
            ) && self.index@[new_keys[j]] == j by {
                if j < i {
                    assert(new_keys[j] == old_keys[j]);
                    assert(old_keys[j] != key@) by {
                        assert(before[j].0 == old_keys[j]);
                    }
                }
            }
            assert forall|k: Seq<char>| #[trigger]
                self.index@.contains_key(k) implies self.index@[k] < self.keys@.len()
                && new_keys[self.index@[k] as int] == k by {
                if k != key@ {
                    assert(old_index.contains_key(k));
                    assert(new_keys[old_index[k] as int] == old_keys[old_index[k] as int]);
                }
            }
        }
        i
    }

    /// The places of the wanted entries in rank: by falling count, then by
    /// the name of the key.
    pub fn arranged(&self, wanted: &Vec<bool>, counts: &Vec<u64>) -> (places: Vec<usize>)
        requires
            self.wf(),
            wanted@.len() == self@.len(),
            counts@.len() == self@.len(),
        ensures
            places@ == arranged_by(entry_names(self@), wanted@, counts@),
            forall|k: int|
                0 <= k < places@.len() ==> (#[trigger] places@[k]) < self@.len()
                    && wanted@[places@[k] as int],
    {
        let ghost names = entry_names(self@);
        let n: usize = self.keys.len();
        let mut chosen: Vec<usize> = Vec::new();
        let mut keys: Vec<SortKey> = Vec::new();
        let mut i: usize = 0;
        while i < n
            invariant
                self.wf(),
                n == self@.len(),
                n == wanted@.len(),
                n == counts@.len(),
                names == entry_names(self@),
                0 <= i <= n,
                chosen@ == picked(wanted@, i as nat),
                keys@.len() == chosen@.len(),
                forall|k: int|
                    0 <= k < chosen@.len() ==> #[trigger] keys_view(keys@)[k] == picked_keys(
                        names,
                        counts@,
                        chosen@,
                    )[k],
            decreases n - i,
        {
            proof {
                lemma_picked(wanted@, i as nat);
            }
            if wanted[i] {
                let ghost old_keys = keys_view(keys@);
                let ghost old_chosen = chosen@;
                chosen.push(i);
                keys.push(SortKey { count: counts[i], name: self.keys[i].clone() });
                assert forall|k: int| 0 <= k < chosen@.len() implies #[trigger] keys_view(
                    keys@,
                )[k] == picked_keys(names, counts@, chosen@)[k] by {
                    if k < old_chosen.len() {
                        assert(keys_view(keys@)[k] == old_keys[k]);
                        assert(chosen@[k] == old_chosen[k]);
                    } else {
                        assert(names[i as int] == self.keys@[i as int]@);
                    }
                }
            }
            i += 1;
        }
        proof {
            lemma_picked(wanted@, n as nat);
            assert(keys_view(keys@) =~= picked_keys(names, counts@, chosen@));
        }
        let order = rank_order(&keys);
        let m: usize = chosen.len();
        let mut places: Vec<usize> = Vec::new();
        let mut k: usize = 0;
        while k < m
            invariant
                m == chosen@.len(),
                order@.len() == m,
                forall|x: int| 0 <= x < m ==> (#[trigger] order@[x]) < m,
                0 <= k <= m,
                places@.len() == k,
                forall|x: int| 0 <= x < k ==> #[trigger] places@[x] == chosen@[order@[x] as int],
            decreases m - k,
        {
            places.push(chosen[order[k]]);
            k += 1;
        }
        assert(places@ =~= arranged_by(names, wanted@, counts@));
        places
    }
}

} // verus!
