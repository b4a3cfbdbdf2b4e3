//! Growth of the bucket array: when it grows, to what size, and where the
//! entries go.

use crate::chain::{
    chains_insert, chains_map, chains_push, chains_remove, chains_wf, lemma_chains_insert,
    lemma_chains_push, lemma_chains_remove, lemma_empty_chains, lemma_hash_index_range,
    spec_hash_index,
};
use crate::key::Key;
use crate::order::{lemma_empty_chains_flatten, lemma_entries_cover_map, lemma_update_len};
use vstd::prelude::*;

verus! {

/// The number of buckets that the first entry of a table gets.
pub const INITIAL_NUM_BUCKETS: usize = 1;

/// The most entries that `n` buckets take before the array grows: three
/// quarters of `n`, rounded down.
pub open spec fn load_limit(n: nat) -> nat {
    n * 3 / 4
}

/// The size that an array of `n` buckets grows to: the initial size for an
/// array without buckets, else twice as many.
pub open spec fn grown(n: nat) -> nat {
    if n == 0 {
        INITIAL_NUM_BUCKETS as nat
    } else {
        2 * n
    }
}

/// What holds of the number of entries `len` in every table of `n` buckets:
/// it is within the load limit, or the table has one or two buckets and as
/// many entries. The second case is that of a table after its first or second
/// new key: one doubling does not bring so small an array under the limit.
pub open spec fn within_load(len: nat, n: nat) -> bool {
    len <= load_limit(n) || (n <= 2 && len == n)
}

/// `n` chains without entries.
pub open spec fn empty_chains<K: Key, V>(n: nat) -> Seq<Seq<(K, V)>> {
    Seq::new(n, |b: int| Seq::<(K, V)>::empty())
}

/// The chains after the entries `es` were appended, one after the other, each
/// to the chain that its key hashes to.
pub open spec fn place_all<K: Key, V>(cs: Seq<Seq<(K, V)>>, es: Seq<(K, V)>) -> Seq<Seq<(K, V)>>
    decreases es.len(),
{
    if es.len() == 0 {
        cs
    } else {
        chains_push(place_all(cs, es.drop_last()), es.last())
    }
}

/// The grown array: the entries of `cs`, taken in their order, placed into
/// `grown(cs.len())` empty chains.
pub open spec fn rehash<K: Key, V>(cs: Seq<Seq<(K, V)>>) -> Seq<Seq<(K, V)>> {
    place_all(empty_chains(grown(cs.len())), cs.flatten())
}

/// Placing one more entry.
pub proof fn lemma_place_all_push<K: Key, V>(cs: Seq<Seq<(K, V)>>, es: Seq<(K, V)>, entry: (K, V))
    ensures
        place_all(cs, es.push(entry)) == chains_push(place_all(cs, es), entry),
{
    assert(es.push(entry).drop_last() =~= es);
}

/// Entries with distinct keys, placed into `n` empty chains, give well-formed
/// chains that hold these entries and no others.
pub proof fn lemma_place_all<K: Key, V>(n: nat, es: Seq<(K, V)>)
    requires
        n > 0,
        forall|i: int, j: int|
            0 <= i < es.len() && 0 <= j < es.len() && i != j ==> (#[trigger] es[i]).0@ != (
            #[trigger] es[j]).0@,
    ensures
        place_all(empty_chains(n), es).len() == n,
        chains_wf(place_all(empty_chains(n), es)),
        place_all(empty_chains(n), es).flatten().len() == es.len(),
        forall|kv: K::V| #[trigger]
            chains_map(place_all(empty_chains(n), es)).contains_key(kv) <==> exists|i: int|
                0 <= i < es.len() && (#[trigger] es[i]).0@ == kv,
        forall|i: int|
            0 <= i < es.len() ==> chains_map(place_all(empty_chains(n), es))[(
            #[trigger] es[i]).0@] == es[i].1,
    decreases es.len(),
{
    let start = empty_chains::<K, V>(n);
    let r = place_all(start, es);
    if es.len() == 0 {
        lemma_empty_chains(start);
        lemma_empty_chains_flatten(start);
    } else {
        let front = es.drop_last();
        let last = es.last();
        let rf = place_all(start, front);
        assert forall|i: int, j: int|
            0 <= i < front.len() && 0 <= j < front.len() && i != j implies (
        #[trigger] front[i]).0@ != (#[trigger] front[j]).0@ by {
            assert(front[i] == es[i] && front[j] == es[j]);
        }
        lemma_place_all(n, front);
        if chains_map(rf).contains_key(last.0@) {
            let i = choose|i: int| 0 <= i < front.len() && (#[trigger] front[i]).0@ == last.0@;
            assert(es[i].0@ == es[es.len() - 1].0@);
        }
        lemma_chains_push(rf, last);
        let b = spec_hash_index::<K>(last.0@, n as int);
        lemma_hash_index_range::<K>(last.0@, n as int);
        lemma_update_len(rf, b, rf[b].push(last));
        assert forall|kv: K::V| #[trigger]
            chains_map(r).contains_key(kv) <==> exists|i: int|
                0 <= i < es.len() && (#[trigger] es[i]).0@ == kv by {
            if chains_map(r).contains_key(kv) {
                if kv == last.0@ {
                    assert(es[es.len() - 1].0@ == kv);
                } else {
                    let i = choose|i: int| 0 <= i < front.len() && (#[trigger] front[i]).0@ == kv;
                    assert(es[i].0@ == kv);
                }
            }
            if exists|i: int| 0 <= i < es.len() && (#[trigger] es[i]).0@ == kv {
                let i = choose|i: int| 0 <= i < es.len() && (#[trigger] es[i]).0@ == kv;
                if i < front.len() {
                    assert(front[i].0@ == kv);
                }
            }
        }
        assert forall|i: int| 0 <= i < es.len() implies chains_map(r)[(#[trigger] es[i]).0@]
            == es[i].1 by {
            if i < front.len() {
                assert(front[i] == es[i]);
                assert(es[i].0@ != es[es.len() - 1].0@);
            }
        }
    }
}

/// Growing well-formed chains keeps their map and the number of their entries.
pub proof fn lemma_rehash<K: Key, V>(cs: Seq<Seq<(K, V)>>)
    requires
        chains_wf(cs),
    ensures
        rehash(cs).len() == grown(cs.len()),
        chains_wf(rehash(cs)),
        chains_map(rehash(cs)) == chains_map(cs),
        rehash(cs).flatten().len() == cs.flatten().len(),
{
    let es = cs.flatten();
    let r = rehash(cs);
    lemma_entries_cover_map(cs);
    lemma_place_all::<K, V>(grown(cs.len()), es);
    assert forall|kv: K::V| chains_map(r).contains_key(kv) == #[trigger] chains_map(
        cs,
    ).contains_key(kv) by {
        if chains_map(r).contains_key(kv) {
            let i = choose|i: int| 0 <= i < es.len() && (#[trigger] es[i]).0@ == kv;
            assert(chains_map(cs).contains_key(es[i].0@));
        }
    }
    assert forall|kv: K::V| #[trigger] chains_map(cs).contains_key(kv) implies chains_map(r)[kv]
        == chains_map(cs)[kv] by {
        let i = choose|i: int| 0 <= i < es.len() && (#[trigger] es[i]).0@ == kv;
        assert(chains_map(r)[es[i].0@] == es[i].1);
    }
    assert(chains_map(r) =~= chains_map(cs));
}

/// The chains of a table: well formed, with finitely many keys and as many
/// entries, and a load within its bounds.
pub open spec fn table_wf<K: Key, V>(cs: Seq<Seq<(K, V)>>) -> bool {
    &&& chains_wf(cs)
    &&& chains_map(cs).dom().finite()
    &&& cs.flatten().len() == chains_map(cs).len()
    &&& within_load(chains_map(cs).len(), cs.len())
}

/// Whether storing a value makes the array grow first: with one more entry
/// the table would exceed its load limit.
pub open spec fn grows_on_insert<K: Key, V>(cs: Seq<Seq<(K, V)>>) -> bool {
    chains_map(cs).len() + 1 > load_limit(cs.len())
}

/// The chains of a table after `value` was stored under `key`: the array
/// grows first where it has to, then the value goes to the key's chain.
pub open spec fn chains_after_insert<K: Key, V>(cs: Seq<Seq<(K, V)>>, key: K, value: V) -> Seq<
    Seq<(K, V)>,
> {
    chains_insert(
        if grows_on_insert(cs) {
            rehash(cs)
        } else {
            cs
        },
        key,
        value,
    )
}

/// Storing a value in a table gives a table, whose map is the old one with
/// the value under the key.
pub proof fn lemma_insert<K: Key, V>(cs: Seq<Seq<(K, V)>>, key: K, value: V)
    requires
        table_wf(cs),
    ensures
        table_wf(chains_after_insert(cs, key, value)),
        chains_after_insert(cs, key, value).len() == if grows_on_insert(cs) {
            grown(cs.len())
        } else {
            cs.len()
        },
        chains_map(chains_after_insert(cs, key, value)) == chains_map(cs).insert(key@, value),
{
    lemma_rehash(cs);
    let mid = if grows_on_insert(cs) {
        rehash(cs)
    } else {
        cs
    };
    lemma_chains_insert(mid, key, value);
    let b = spec_hash_index::<K>(key@, mid.len() as int);
    lemma_hash_index_range::<K>(key@, mid.len() as int);
    lemma_update_len(mid, b, chains_insert(mid, key, value)[b]);
}

/// Removing a key from a table gives a table, whose map is the old one
/// without the key; the array keeps its size.
pub proof fn lemma_remove<K: Key, V>(cs: Seq<Seq<(K, V)>>, kv: K::V)
    requires
        table_wf(cs),
    ensures
        table_wf(chains_remove(cs, kv)),
        chains_remove(cs, kv).len() == cs.len(),
        chains_map(chains_remove(cs, kv)) == chains_map(cs).remove(kv),
{
    lemma_chains_remove(cs, kv);
    if cs.len() > 0 {
        let b = spec_hash_index::<K>(kv, cs.len() as int);
        lemma_hash_index_range::<K>(kv, cs.len() as int);
        lemma_update_len(cs, b, chains_remove(cs, kv)[b]);
    }
}

} // verus!
