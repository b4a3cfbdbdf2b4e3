//! The table: an array of buckets, each a chain of entries, and the number of
//! entries in all of them.

use crate::chain::{
    chain_has, chains_insert, chains_map, chains_remove, lemma_chain_pos, lemma_empty_chains,
    lemma_hash_index_range, spec_hash_index,
};
use crate::growth::{
    chains_after_insert, empty_chains, grows_on_insert, lemma_insert, lemma_place_all_push,
    lemma_rehash, lemma_remove, load_limit, place_all, rehash, table_wf, INITIAL_NUM_BUCKETS,
};
use crate::key::Key;
use crate::order::{lemma_empty_chains_flatten, lemma_entries_before_next};
use vstd::prelude::*;

verus! {

/// The chains that an array of buckets holds.
spec fn chains_of<K, V>(buckets: Seq<Vec<(K, V)>>) -> Seq<Seq<(K, V)>> {
    Seq::new(buckets.len(), |b: int| buckets[b]@)
}

/// A map from keys to values, kept in an array of buckets that doubles as the
/// table fills.
pub struct HashMap<K, V> {
    buckets: Vec<Vec<(K, V)>>,
    items: usize,
}

impl<K: Key, V> View for HashMap<K, V> {
    type V = Map<K::V, V>;

    /// The map from the views of the keys to the values.
    open spec fn view(&self) -> Map<K::V, V> {
        chains_map(self.chains())
    }
}

/// What the map holds under `k`.
pub open spec fn spec_get<A, V>(m: Map<A, V>, k: A) -> Option<V> {
    if m.contains_key(k) {
        Some(m[k])
    } else {
        None
    }
}

/// The position in `bucket` of the entry for `key`, if there is one.
fn position<K: Key, V>(bucket: &Vec<(K, V)>, key: &K) -> (found: Option<usize>)
    ensures
        match found {
            Some(i) => i < bucket@.len() && bucket@[i as int].0@ == key@,
            None => !chain_has(bucket@, key@),
        },
{
    let mut i: usize = 0;
    while i < bucket.len()
        invariant
            i <= bucket@.len(),
            forall|j: int| 0 <= j < i ==> (#[trigger] bucket@[j]).0@ != key@,
        decreases bucket@.len() - i,
    {
        if bucket[i].0.same(key) {
            return Some(i);
        }
        i += 1;
    }
    None
}

/// Three quarters of `n`, rounded down.
fn limit_of(n: usize) -> (limit: usize)
    ensures
        limit == load_limit(n as nat),
{
    (n / 4) * 3 + (n % 4) * 3 / 4
}

impl<K: Key, V> HashMap<K, V> {
    /// The contents of the buckets, in the order of the array.
    pub closed spec fn chains(&self) -> Seq<Seq<(K, V)>> {
        chains_of(self.buckets@)
    }

    /// The number of buckets.
    pub open spec fn spec_bucket_count(&self) -> nat {
        self.chains().len()
    }

    /// The number of buckets.
    pub fn bucket_count(&self) -> (n: usize)
        ensures
            n == self.spec_bucket_count(),
    {
        self.buckets.len()
    }

    /// The entries in the order in which a cursor yields them: bucket after
    /// bucket, each from its first entry on.
    pub open spec fn entries(&self) -> Seq<(K, V)> {
        self.chains().flatten()
    }

    /// Whether storing a value makes the array grow first: with one more entry
    /// the table would exceed its load limit.
    pub open spec fn grows_on_insert(&self) -> bool {
        grows_on_insert(self.chains())
    }

    /// The count that the table keeps is the number of its keys.
    pub closed spec fn counted(&self) -> bool {
        self.items == self@.len()
    }

    /// The table's invariant: the chains are well formed, the table has
    /// finitely many keys and as many entries, its load is within its bounds,
    /// and it has counted its keys.
    pub open spec fn wf(&self) -> bool {
        &&& table_wf(self.chains())
        &&& self.counted()
    }

    /// A table with fewer than a quarter of `usize::MAX` entries can take one
    /// more: if its array has to grow, the doubled size is a `usize`.
    pub proof fn lemma_room_to_grow(&self)
        requires
            self.wf(),
            self@.len() < usize::MAX / 4,
        ensures
            self.grows_on_insert() ==> 2 * self.spec_bucket_count() <= usize::MAX,
    {
    }

    /// An empty table without buckets.
    pub fn new() -> (map: Self)
        ensures
            map.wf(),
            map.chains() == Seq::<Seq<(K, V)>>::empty(),
            map@ == Map::<K::V, V>::empty(),
    {
        let map = HashMap { buckets: Vec::new(), items: 0 };
        proof {
            assert(map.chains() =~= Seq::<Seq<(K, V)>>::empty());
            lemma_empty_chains(map.chains());
            lemma_empty_chains_flatten(map.chains());
        }
        map
    }

    /// The bucket for `key` in an array of `table_size` buckets: the key's
    /// hash modulo the number of buckets.
    pub fn hash_index(key: &K, table_size: usize) -> (index: usize)
        requires
            table_size > 0,
        ensures
            index == spec_hash_index::<K>(key@, table_size as int),
            index < table_size,
    {
        (key.hash_code() % (table_size as u64)) as usize
    }

    /// The bucket at `index`, if the array has one there.
    pub(crate) fn bucket(&self, index: usize) -> (bucket: Option<&Vec<(K, V)>>)
        ensures
            self.spec_bucket_count() <= usize::MAX,
            match bucket {
                Some(b) => index < self.spec_bucket_count() && b@ == self.chains()[index as int],
                None => index >= self.spec_bucket_count(),
            },
    {
        if index < self.buckets.len() {
            Some(&self.buckets[index])
        } else {
            None
        }
    }

    /// The number of entries.
    pub fn len(&self) -> (n: usize)
        requires
            self.wf(),
        ensures
            n == self@.len(),
    {
        self.items
    }

    /// Whether the table has no entry.
    pub fn is_empty(&self) -> (empty: bool)
        requires
            self.wf(),
        ensures
            empty == (self@.len() == 0),
    {
        self.items == 0
    }

    /// The value stored under `key`, if there is one. A table without buckets
    /// holds no key.
    pub fn get(&self, key: &K) -> (value: Option<&V>)
        requires
            self.wf(),
        ensures
            value == match spec_get(self@, key@) {
                Some(v) => Some(&v),
                None => None,
            },
    {
        if self.buckets.len() == 0 {
            return None;
        }
        let index = Self::hash_index(key, self.buckets.len());
        let bucket = &self.buckets[index];
        assert(self.chains()[index as int] == bucket@);
        match position(bucket, key) {
            Some(i) => {
                proof {
                    lemma_chain_pos(bucket@, i as int);
                }
                Some(&bucket[i].1)
            },
            None => None,
        }
    }

    /// Whether a value is stored under `key`.
    pub fn contains_key(&self, key: &K) -> (present: bool)
        requires
            self.wf(),
        ensures
            present == self@.contains_key(key@),
    {
        self.get(key).is_some()
    }

    /// Removes the entry for `key`, if there is one, and returns its value.
    /// The last entry of the bucket takes the place of the removed one; the
    /// array keeps its size.
    pub fn remove(&mut self, key: &K) -> (value: Option<V>)
        requires
            old(self).wf(),
        ensures
            final(self).wf(),
            final(self).chains() == chains_remove(old(self).chains(), key@),
            final(self)@ == old(self)@.remove(key@),
            value == spec_get(old(self)@, key@),
    {
        proof {
            lemma_remove(self.chains(), key@);
        }
        if self.buckets.len() == 0 {
            return None;
        }
        let index = Self::hash_index(key, self.buckets.len());
        assert(self.chains()[index as int] == self.buckets@[index as int]@);
        match position(&self.buckets[index], key) {
            Some(i) => {
                proof {
                    lemma_chain_pos(self.buckets@[index as int]@, i as int);
                }
                let (_, value) = self.buckets[index].swap_remove(i);
                self.items -= 1;
                assert(self.chains() =~= chains_remove(old(self).chains(), key@));
                Some(value)
            },
            None => None,
        }
    }

    /// Grows the array to `grown` of its size and places every entry anew, in
    /// the order of the entries.
    fn resize(&mut self)
        requires
            old(self).wf(),
            2 * old(self).spec_bucket_count() <= usize::MAX,
        ensures
            final(self).wf(),
            final(self).chains() == rehash(old(self).chains()),
            final(self)@ == old(self)@,
    {
        let target_size: usize = match self.buckets.len() {
            0 => INITIAL_NUM_BUCKETS,
            n => n * 2,
        };
        let ghost start = empty_chains::<K, V>(target_size as nat);
        let ghost chains = self.chains();
        let mut new_buckets: Vec<Vec<(K, V)>> = Vec::with_capacity(target_size);
        let mut made: usize = 0;
        while made < target_size
            invariant
                made <= target_size,
                new_buckets@.len() == made,
                forall|b: int| 0 <= b < made ==> (#[trigger] new_buckets@[b])@.len() == 0,
            decreases target_size - made,
        {
            new_buckets.push(Vec::new());
            made += 1;
        }
        assert(chains_of(new_buckets@) =~~= start);
        let mut old_buckets: Vec<Vec<(K, V)>> = Vec::new();
        core::mem::swap(&mut self.buckets, &mut old_buckets);
        assert(chains == chains_of(old_buckets@));

        for bucket in outer: old_buckets
            invariant
                outer.seq() == old_buckets@,
                chains == chains_of(old_buckets@),
                target_size > 0,
                start.len() == target_size,
                chains_of(new_buckets@) == place_all(
                    start,
                    chains.take(outer.index() as int).flatten(),
                ),
                place_all(start, chains.take(outer.index() as int).flatten()).len()
                    == target_size,
        {
            let ghost done = chains.take(outer.index() as int).flatten();
            let ghost b = outer.index() as int;
            assert(bucket == old_buckets@[b]);
            assert(chains[b] == bucket@);
            for entry in inner: bucket
                invariant
                    inner.seq() == bucket@,
                    target_size > 0,
                    start.len() == target_size,
                    chains_of(new_buckets@) == place_all(
                        start,
                        done + bucket@.take(inner.index() as int),
                    ),
                    place_all(start, done + bucket@.take(inner.index() as int)).len()
                        == target_size,
            {
                let ghost placed = done + bucket@.take(inner.index() as int);
                proof {
                    assert(entry == bucket@[inner.index() as int]);
                    assert(done + bucket@.take(inner.index() as int + 1) =~= placed.push(entry));
                    lemma_place_all_push(start, placed, entry);
                    lemma_hash_index_range::<K>(entry.0@, target_size as int);
                }
                let index = Self::hash_index(&entry.0, target_size);
                new_buckets[index].push(entry);
                assert(chains_of(new_buckets@) =~= place_all(start, placed.push(entry)));
            }
            proof {
                assert(bucket@.take(bucket@.len() as int) =~= bucket@);
                lemma_entries_before_next(chains, b);
            }
        }
        proof {
            assert(chains.take(chains.len() as int) =~= chains);
            lemma_rehash(chains);
        }
        self.buckets = new_buckets;
    }

    /// Stores `value` under `key` and returns the value that was stored there
    /// before, if there was one. The array grows first where one more entry
    /// would exceed the load limit, whether or not the key then proves to be
    /// present; the number of entries grows only with a new key.
    pub fn insert(&mut self, key: K, value: V) -> (previous: Option<V>)
        requires
            old(self).wf(),
            old(self).grows_on_insert() ==> 2 * old(self).spec_bucket_count() <= usize::MAX,
        ensures
            final(self).wf(),
            final(self).chains() == chains_after_insert(old(self).chains(), key, value),
            final(self)@ == old(self)@.insert(key@, value),
            previous == spec_get(old(self)@, key@),
    {
        let limit = limit_of(self.buckets.len());
        assert(self.spec_bucket_count() == self.buckets@.len());
        if self.items + 1 > limit {
            self.resize();
        }
        let ghost before = self.chains();
        proof {
            lemma_rehash(old(self).chains());
            lemma_insert(old(self).chains(), key, value);
            lemma_hash_index_range::<K>(key@, before.len() as int);
        }
        let index = Self::hash_index(&key, self.buckets.len());
        assert(before[index as int] == self.buckets@[index as int]@);
        match position(&self.buckets[index], &key) {
            Some(i) => {
                proof {
                    lemma_chain_pos(before[index as int], i as int);
                }
                let mut stored = value;
                core::mem::swap(&mut self.buckets[index][i].1, &mut stored);
                assert(self.chains() =~= chains_insert(before, key, value));
                Some(stored)
            },
            None => {
                self.buckets[index].push((key, value));
                self.items += 1;
                assert(self.chains() =~= chains_insert(before, key, value));
                None
            },
        }
    }
}

} // verus!
