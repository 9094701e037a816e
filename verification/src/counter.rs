//! Counting by text: how often each key was seen, the keys kept in the
//! order in which they were first seen.

use crate::ordered_map::{key_position, lemma_key_position_found, OrderedMap};
use crate::ordering::{keys_view, rank_order, ranking, SortKey};
use vstd::prelude::*;

verus! {

/// The count of `key`: zero where it was never seen.
pub open spec fn count_of(entries: Seq<(Seq<char>, u64)>, key: Seq<char>) -> u64 {
    match key_position(entries, entries.len(), key) {
        Some(i) => entries[i].1,
        None => 0,
    }
}

/// One more than `n`, as far as the machine can count.
pub open spec fn one_more(n: u64) -> u64 {
    if n < u64::MAX {
        (n + 1) as u64
    } else {
        n
    }
}

/// The entries after `key` was seen once more: its count is one higher, or
/// it is added behind the others with the count one.
pub open spec fn bumped(entries: Seq<(Seq<char>, u64)>, key: Seq<char>) -> Seq<(Seq<char>, u64)> {
    match key_position(entries, entries.len(), key) {
        Some(i) => entries.update(i, (key, one_more(entries[i].1))),
        None => entries.push((key, 1)),
    }
}

/// The entries after `key` was seen once more, if there is a key.
pub open spec fn bumped_by(entries: Seq<(Seq<char>, u64)>, key: Option<Seq<char>>) -> Seq<
    (Seq<char>, u64),
> {
    match key {
        Some(k) => bumped(entries, k),
        None => entries,
    }
}

/// What the entries are ranked by: their names, and their counts too
/// where `by_count` says so.
pub open spec fn listing_keys(entries: Seq<(Seq<char>, u64)>, by_count: bool) -> Seq<
    (u64, Seq<char>),
> {
    Seq::new(
        entries.len(),
        |i: int|
            (
                if by_count {
                    entries[i].1
                } else {
                    0
                },
                entries[i].0,
            ),
    )
}

/// The entries in rank: by falling count and then by name where
/// `by_count` says so, else by name alone.
pub open spec fn listed(entries: Seq<(Seq<char>, u64)>, by_count: bool) -> Seq<(Seq<char>, u64)> {
    let order = ranking(listing_keys(entries, by_count));
    Seq::new(entries.len(), |k: int| entries[order[k] as int])
}

/// The names and counts of a list of entries.
pub open spec fn pairs_view(list: Seq<(String, u64)>) -> Seq<(Seq<char>, u64)> {
    Seq::new(list.len(), |i: int| (list[i].0@, list[i].1))
}

/// One more than `n`, as far as the machine can count.
pub fn increment(n: u64) -> (m: u64)
    ensures
        m == one_more(n),
{
    if n < u64::MAX {
        n + 1
    } else {
        n
    }
}

/// Counts by key.
pub struct Counter {
    map: OrderedMap<u64>,
}

impl View for Counter {
    type V = Seq<(Seq<char>, u64)>;

    closed spec fn view(&self) -> Seq<(Seq<char>, u64)> {
        self.map@
    }
}

impl Counter {
    /// Every key stands once.
    pub closed spec fn wf(&self) -> bool {
        self.map.wf()
    }

    /// No key stands twice among the entries.
    pub proof fn lemma_keys_distinct(&self)
        requires
            self.wf(),
        ensures
            forall|i: int, j: int|
                0 <= i < self@.len() && 0 <= j < self@.len() && i != j ==> (#[trigger] self@[i]).0
                    != (#[trigger] self@[j]).0,
    {
        self.map.lemma_keys_distinct();
    }

    /// A counter that has seen nothing.
    pub fn new() -> (counter: Counter)
        ensures
            counter.wf(),
            counter@ == Seq::<(Seq<char>, u64)>::empty(),
    {
        Counter { map: OrderedMap::new() }
    }

    /// The number of distinct keys.
    pub fn len(&self) -> (n: usize)
        requires
            self.wf(),
        ensures
            n == self@.len(),
    {
        self.map.len()
    }

    /// The count of `key`.
    pub fn get(&self, key: &str) -> (n: u64)
        requires
            self.wf(),
        ensures
            n == count_of(self@, key@),
    {
        match self.map.position(key) {
            Some(i) => *self.map.value(i),
            None => 0,
        }
    }

    /// Counts `key` once more.
    pub fn add(&mut self, key: &str)
        requires
            old(self).wf(),
        ensures
            final(self).wf(),
            final(self)@ == bumped(old(self)@, key@),
    {
        proof {
            lemma_key_position_found(self@, self@.len(), key@);
        }
        match self.map.position(key) {
            Some(i) => {
                let n: u64 = *self.map.value(i);
                self.map.replace(i, increment(n));
            },
            None => {
                self.map.push(key, 1);
            },
        }
    }

    /// The key at place `i`.
    pub fn key(&self, i: usize) -> (k: &String)
        requires
            self.wf(),
            i < self@.len(),
        ensures
            k@ == self@[i as int].0,
    {
        self.map.key(i)
    }

    /// The count at place `i`.
    pub fn count(&self, i: usize) -> (n: u64)
        requires
            self.wf(),
            i < self@.len(),
        ensures
            n == self@[i as int].1,
    {
        *self.map.value(i)
    }

    /// The entries in rank: by falling count and then by name where
    /// `by_count` says so, else by name alone.
    pub fn listing(&self, by_count: bool) -> (list: Vec<(String, u64)>)
        requires
            self.wf(),
        ensures
            pairs_view(list@) == listed(self@, by_count),
    {
        let n: usize = self.map.len();
        let mut keys: Vec<SortKey> = Vec::new();
        let mut i: usize = 0;
        while i < n
            invariant
                self.wf(),
                n == self@.len(),
                0 <= i <= n,
                keys@.len() == i,
                forall|k: int|
                    0 <= k < i ==> #[trigger] keys_view(keys@)[k] == listing_keys(
                        self@,
                        by_count,
                    )[k],
            decreases n - i,
        {
            let count: u64 = if by_count {
                *self.map.value(i)
            } else {
                0
            };
            let ghost before = keys_view(keys@);
            keys.push(SortKey { count, name: self.map.key(i).clone() });
            assert forall|k: int| 0 <= k < i + 1 implies #[trigger] keys_view(keys@)[k]
                == listing_keys(self@, by_count)[k] by {
                if k < i {
                    assert(keys_view(keys@)[k] == before[k]);
                }
            }
            i += 1;
        }
        assert(keys_view(keys@) =~= listing_keys(self@, by_count));
        let order = rank_order(&keys);
        let mut list: Vec<(String, u64)> = Vec::new();
        let mut k: usize = 0;
        while k < n
            invariant
                self.wf(),
                n == self@.len(),
                order@.len() == n,
                order@ == ranking(listing_keys(self@, by_count)),
                forall|x: int| 0 <= x < n ==> (#[trigger] order@[x]) < n,
                0 <= k <= n,
                list@.len() == k,
                forall|x: int|
                    0 <= x < k ==> #[trigger] pairs_view(list@)[x] == listed(self@, by_count)[x],
            decreases n - k,
        {
            let at: usize = order[k];
            let ghost before = pairs_view(list@);
            list.push((self.map.key(at).clone(), *self.map.value(at)));
            assert forall|x: int| 0 <= x < k + 1 implies #[trigger] pairs_view(list@)[x] == listed(
                self@,
                by_count,
            )[x] by {
                if x < k {
                    assert(pairs_view(list@)[x] == before[x]);
                }
            }
            k += 1;
        }
        assert(pairs_view(list@) =~= listed(self@, by_count));
        list
    }

    /// The entries, in the order in which the keys were first seen.
    pub fn entries(&self) -> (list: Vec<(String, u64)>)
        requires
            self.wf(),
        ensures
            list@.len() == self@.len(),
            forall|i: int|
                0 <= i < list@.len() ==> (#[trigger] list@[i]).0@ == self@[i].0 && list@[i].1
                    == self@[i].1,
    {
        let mut list: Vec<(String, u64)> = Vec::new();
        let n: usize = self.map.len();
        let mut i: usize = 0;
        while i < n
            invariant
                self.wf(),
                n == self@.len(),
                0 <= i <= n,
                list@.len() == i,
                forall|k: int|
                    0 <= k < i ==> (#[trigger] list@[k]).0@ == self@[k].0 && list@[k].1
                        == self@[k].1,
            decreases n - i,
        {
            list.push((self.map.key(i).clone(), *self.map.value(i)));
            i += 1;
        }
        list
    }
}

} // verus!
