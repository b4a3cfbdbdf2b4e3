//! What holds of every table, stated over the chains that the contracts of
//! `new`, `insert`, `get` and `remove` speak of.
//!
//! A table's chains `cs` satisfy `table_wf(cs)`, and `chains_map(cs)` is the
//! table's view. `insert` takes the chains to `chains_after_insert`, `remove`
//! to `chains_remove`, and `get` returns `spec_get` of the view. None of the
//! laws depends on the size of a machine word.

use crate::chain::{chains_map, chains_remove, lemma_empty_chains};
use crate::growth::{
    chains_after_insert, grown, grows_on_insert, lemma_insert, lemma_rehash, lemma_remove,
    load_limit, rehash, table_wf,
};
use crate::key::Key;
use crate::map::{spec_get, HashMap};
use crate::order::{lemma_empty_chains_flatten, lemma_entries_cover_map};
use vstd::prelude::*;

verus! {

/// A new table is a table without entries, and `get` finds nothing in it
/// under any key.
pub proof fn lemma_new_is_empty<K: Key, V>(key: K)
    ensures
        table_wf(Seq::<Seq<(K, V)>>::empty()),
        chains_map(Seq::<Seq<(K, V)>>::empty()).len() == 0,
        spec_get(chains_map(Seq::<Seq<(K, V)>>::empty()), key@) == None::<V>,
{
    let cs = Seq::<Seq<(K, V)>>::empty();
    lemma_empty_chains(cs);
    lemma_empty_chains_flatten(cs);
}

/// Round trip: after `insert(key, value)`, `get(key)` gives `value`, whether
/// or not the array grew.
pub proof fn lemma_get_after_insert<K: Key, V>(cs: Seq<Seq<(K, V)>>, key: K, value: V)
    requires
        table_wf(cs),
    ensures
        spec_get(chains_map(chains_after_insert(cs, key, value)), key@) == Some(value),
{
    lemma_insert(cs, key, value);
}

/// `insert(key, value)` leaves what `get` finds under every other key,
/// whether or not the array grew.
pub proof fn lemma_get_other_after_insert<K: Key, V>(
    cs: Seq<Seq<(K, V)>>,
    key: K,
    value: V,
    other: K,
)
    requires
        table_wf(cs),
        other@ != key@,
    ensures
        spec_get(chains_map(chains_after_insert(cs, key, value)), other@) == spec_get(
            chains_map(cs),
            other@,
        ),
{
    lemma_insert(cs, key, value);
}

/// Update: `insert` on a key that is present returns the value stored
/// before, `get` then gives the new value, and the number of entries stays.
pub proof fn lemma_insert_present<K: Key, V>(cs: Seq<Seq<(K, V)>>, key: K, value: V)
    requires
        table_wf(cs),
        chains_map(cs).contains_key(key@),
    ensures
        spec_get(chains_map(cs), key@) == Some(chains_map(cs)[key@]),
        spec_get(chains_map(chains_after_insert(cs, key, value)), key@) == Some(value),
        chains_map(chains_after_insert(cs, key, value)).len() == chains_map(cs).len(),
{
    lemma_insert(cs, key, value);
}

/// `insert` on a key that is absent returns nothing and adds one entry.
pub proof fn lemma_insert_absent<K: Key, V>(cs: Seq<Seq<(K, V)>>, key: K, value: V)
    requires
        table_wf(cs),
        !chains_map(cs).contains_key(key@),
    ensures
        spec_get(chains_map(cs), key@) == None::<V>,
        chains_map(chains_after_insert(cs, key, value)).len() == chains_map(cs).len() + 1,
{
    lemma_insert(cs, key, value);
}

/// The array grows by doubling and only where one more entry would exceed the
/// load limit: `insert` leaves the number of buckets or takes it to `grown`.
pub proof fn lemma_insert_growth<K: Key, V>(cs: Seq<Seq<(K, V)>>, key: K, value: V)
    requires
        table_wf(cs),
    ensures
        chains_after_insert(cs, key, value).len() == if grows_on_insert(cs) {
            grown(cs.len())
        } else {
            cs.len()
        },
        chains_after_insert(cs, key, value).len() >= cs.len(),
{
    lemma_insert(cs, key, value);
}

/// The load after `insert`: a table with a bucket whose entries are within the
/// load limit is within it after a new key too, grown or not; and so is every
/// table after an `insert` that did not make it grow.
pub proof fn lemma_insert_load<K: Key, V>(cs: Seq<Seq<(K, V)>>, key: K, value: V)
    requires
        table_wf(cs),
        !grows_on_insert(cs) || (cs.len() >= 1 && chains_map(cs).len() <= load_limit(cs.len())),
    ensures
        chains_map(chains_after_insert(cs, key, value)).len() <= load_limit(
            chains_after_insert(cs, key, value).len(),
        ),
{
    lemma_insert(cs, key, value);
}

/// `remove` on a key that is absent returns nothing and leaves the table as
/// it is, the number of its entries too.
pub proof fn lemma_remove_absent<K: Key, V>(cs: Seq<Seq<(K, V)>>, key: K)
    requires
        table_wf(cs),
        !chains_map(cs).contains_key(key@),
    ensures
        spec_get(chains_map(cs), key@) == None::<V>,
        chains_remove(cs, key@) == cs,
        chains_map(chains_remove(cs, key@)).len() == chains_map(cs).len(),
{
}

/// `remove` on a key that is present returns the stored value, `get` then
/// finds nothing under the key, the table has one entry less and as many
/// buckets as before.
pub proof fn lemma_remove_present<K: Key, V>(cs: Seq<Seq<(K, V)>>, key: K)
    requires
        table_wf(cs),
        chains_map(cs).contains_key(key@),
    ensures
        spec_get(chains_map(cs), key@) == Some(chains_map(cs)[key@]),
        spec_get(chains_map(chains_remove(cs, key@)), key@) == None::<V>,
        chains_map(chains_remove(cs, key@)).len() == chains_map(cs).len() - 1,
        chains_remove(cs, key@).len() == cs.len(),
{
    lemma_remove(cs, key@);
}

/// `remove` leaves what `get` finds under every other key.
pub proof fn lemma_get_other_after_remove<K: Key, V>(cs: Seq<Seq<(K, V)>>, key: K, other: K)
    requires
        table_wf(cs),
        other@ != key@,
    ensures
        spec_get(chains_map(chains_remove(cs, key@)), other@) == spec_get(
            chains_map(cs),
            other@,
        ),
{
    lemma_remove(cs, key@);
}

/// Removing a key twice: the second `remove` returns nothing and changes
/// nothing.
pub proof fn lemma_remove_twice<K: Key, V>(cs: Seq<Seq<(K, V)>>, key: K)
    requires
        table_wf(cs),
    ensures
        spec_get(chains_map(chains_remove(cs, key@)), key@) == None::<V>,
        chains_remove(chains_remove(cs, key@), key@) == chains_remove(cs, key@),
{
    lemma_remove(cs, key@);
}

/// Growth keeps every key and its value: `get` finds after it what it found
/// before.
pub proof fn lemma_get_after_growth<K: Key, V>(cs: Seq<Seq<(K, V)>>, key: K)
    requires
        table_wf(cs),
    ensures
        spec_get(chains_map(rehash(cs)), key@) == spec_get(chains_map(cs), key@),
        rehash(cs).len() == grown(cs.len()),
{
    lemma_rehash(cs);
}

impl<K: Key, V> HashMap<K, V> {
    /// The load of a table: the number of its entries is at most three
    /// quarters of the number of its buckets. The tables of one bucket with
    /// one entry and of two buckets with two entries are left out: they are
    /// what the first and the second new key leave behind.
    pub proof fn lemma_load(&self)
        requires
            self.wf(),
            !(1 <= self.spec_bucket_count() <= 2 && self@.len() == self.spec_bucket_count()),
        ensures
            self@.len() <= load_limit(self.spec_bucket_count()),
    {
    }

    /// The entries that a cursor walks are those of the map, each key once:
    /// there are as many as the table has entries, each is stored in the map,
    /// no two have the same key, and every key of the map is among them.
    pub proof fn lemma_entries(&self)
        requires
            self.wf(),
        ensures
            self.entries().len() == self@.len(),
            forall|i: int|
                0 <= i < self.entries().len() ==> spec_get(
                    self@,
                    (#[trigger] self.entries()[i]).0@,
                ) == Some(self.entries()[i].1),
            forall|i: int, j: int|
                0 <= i < self.entries().len() && 0 <= j < self.entries().len() && i != j ==> (
                #[trigger] self.entries()[i]).0@ != (#[trigger] self.entries()[j]).0@,
            forall|kv: K::V| #[trigger]
                self@.contains_key(kv) ==> exists|i: int|
                    0 <= i < self.entries().len() && (#[trigger] self.entries()[i]).0@ == kv,
    {
        lemma_entries_cover_map(self.chains());
    }
}

} // verus!
