//! The cursor: a walk over the entries of a table that it borrows.

use crate::key::Key;
use crate::map::HashMap;
use crate::order::{
    entries_before, lemma_entries_before_end, lemma_entries_before_next, lemma_entry_at,
};
use vstd::prelude::*;

verus! {

/// A cursor over the entries of a table, bucket after bucket and each bucket
/// from its first entry on. It reads the table and never changes it.
pub struct Iter<'a, K, V> {
    map: &'a HashMap<K, V>,
    bucket_index: usize,
    elem_index: usize,
}

impl<'a, K: Key, V> Iter<'a, K, V> {
    /// The table that the cursor walks.
    pub closed spec fn table(&self) -> HashMap<K, V> {
        *self.map
    }

    /// The bucket that the cursor stands in; the number of buckets once it
    /// stands behind the last.
    pub closed spec fn bucket_index(&self) -> nat {
        self.bucket_index as nat
    }

    /// The number of entries of its bucket that the cursor has passed.
    pub closed spec fn elem_index(&self) -> nat {
        self.elem_index as nat
    }

    /// The number of entries that the cursor has passed: those of the buckets
    /// before its own, and those passed in its own.
    pub open spec fn position(&self) -> nat {
        entries_before(self.table().chains(), self.bucket_index() as int) + self.elem_index()
    }

    /// The cursor's invariant: it stands in a bucket, at or behind one of its
    /// entries, or behind the last bucket.
    pub open spec fn wf(&self) -> bool {
        let chains = self.table().chains();
        &&& self.bucket_index() <= chains.len()
        &&& self.bucket_index() < chains.len() ==> self.elem_index()
            <= chains[self.bucket_index() as int].len()
        &&& self.bucket_index() == chains.len() ==> self.elem_index() == 0
    }

    /// A cursor has never passed more entries than its table has.
    pub proof fn lemma_position_bound(&self)
        requires
            self.wf(),
        ensures
            self.position() <= self.table().entries().len(),
    {
        let chains = self.table().chains();
        let b = self.bucket_index() as int;
        lemma_entries_before_end(chains);
        if b < chains.len() {
            lemma_entries_before_next(chains, b);
            Self::lemma_before_bound(chains, b + 1);
        }
    }

    proof fn lemma_before_bound(chains: Seq<Seq<(K, V)>>, b: int)
        requires
            0 <= b <= chains.len(),
        ensures
            entries_before(chains, b) <= chains.flatten().len(),
        decreases chains.len() - b,
    {
        lemma_entries_before_end(chains);
        if b < chains.len() {
            lemma_entries_before_next(chains, b);
            Self::lemma_before_bound(chains, b + 1);
        }
    }

    /// A cursor before the first entry of `map`: in the first bucket, with no
    /// entry passed.
    pub fn new(map: &'a HashMap<K, V>) -> (cursor: Self)
        ensures
            cursor.wf(),
            cursor.table() == *map,
            cursor.bucket_index() == 0,
            cursor.elem_index() == 0,
            cursor.position() == 0,
    {
        proof {
            lemma_entries_before_end(map.chains());
        }
        Iter { map, bucket_index: 0, elem_index: 0 }
    }

    /// Yields the next entry and steps behind it.
    ///
    /// Where its bucket has an entry left, the cursor yields that one. Else it
    /// goes on to the first later bucket that has an entry and yields its
    /// first. Where there is none, it comes to stand behind the last bucket
    /// and yields nothing, now and ever after.
    pub fn next(&mut self) -> (item: Option<(&'a K, &'a V)>)
        requires
            old(self).wf(),
        ensures
            final(self).wf(),
            final(self).table() == old(self).table(),
            match item {
                Some(entry) => {
                    let chains = old(self).table().chains();
                    let from = old(self).bucket_index() as int;
                    let b = final(self).bucket_index() as int;
                    let e = final(self).elem_index() as int;
                    &&& from <= b < chains.len()
                    &&& 1 <= e <= chains[b].len()
                    &&& *entry.0 == chains[b][e - 1].0
                    &&& *entry.1 == chains[b][e - 1].1
                    &&& b == from ==> e == old(self).elem_index() + 1
                    &&& b > from ==> e == 1 && old(self).elem_index() == chains[from].len()
                    &&& forall|x: int| from < x < b ==> (#[trigger] chains[x]).len() == 0
                    &&& old(self).position() < old(self).table().entries().len()
                    &&& (*entry.0, *entry.1) == old(self).table().entries()[old(
                        self,
                    ).position() as int]
                    &&& final(self).position() == old(self).position() + 1
                },
                None => {
                    let chains = old(self).table().chains();
                    let from = old(self).bucket_index() as int;
                    &&& final(self).bucket_index() == chains.len()
                    &&& final(self).elem_index() == 0
                    &&& from < chains.len() ==> old(self).elem_index() == chains[from].len()
                    &&& forall|x: int|
                        from < x < chains.len() ==> (#[trigger] chains[x]).len() == 0
                    &&& old(self).position() == old(self).table().entries().len()
                    &&& final(self).position() == old(self).position()
                },
            },
    {
        let ghost chains = self.map.chains();
        let ghost from = self.bucket_index as int;
        loop
            invariant
                self.wf(),
                self.map == old(self).map,
                chains == self.map.chains(),
                from == old(self).bucket_index(),
                self.position() == old(self).position(),
                from <= self.bucket_index,
                self.bucket_index == from ==> self.elem_index == old(self).elem_index,
                self.bucket_index > from ==> self.elem_index == 0 && old(self).elem_index()
                    == chains[from].len(),
                forall|x: int| from < x < self.bucket_index ==> (#[trigger] chains[x]).len() == 0,
            decreases chains.len() - self.bucket_index,
        {
            match self.map.bucket(self.bucket_index) {
                Some(bucket) => {
                    if self.elem_index < bucket.len() {
                        proof {
                            lemma_entry_at(
                                chains,
                                self.bucket_index as int,
                                self.elem_index as int,
                            );
                        }
                        let entry = &bucket[self.elem_index];
                        self.elem_index += 1;
                        return Some((&entry.0, &entry.1));
                    } else {
                        proof {
                            lemma_entries_before_next(chains, self.bucket_index as int);
                        }
                        self.bucket_index += 1;
                        self.elem_index = 0;
                    }
                },
                None => {
                    proof {
                        lemma_entries_before_end(chains);
                    }
                    return None;
                },
            }
        }
    }
}

impl<K: Key, V> HashMap<K, V> {
    /// A cursor before the first entry of the table: in the first bucket,
    /// with no entry passed.
    pub fn iter(&self) -> (cursor: Iter<'_, K, V>)
        ensures
            cursor.wf(),
            cursor.table() == *self,
            cursor.bucket_index() == 0,
            cursor.elem_index() == 0,
            cursor.position() == 0,
    {
        Iter::new(self)
    }
}

} // verus!
