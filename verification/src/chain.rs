//! The bucket array as a mathematical value.
//!
//! A table's storage is a sequence of chains, each a sequence of entries. This
//! module says which such sequences are well formed, which map one stands
//! for, and how the three elementary steps on a chain (append an entry,
//! replace a value, remove an entry by swapping in the last) change that map.

use crate::key::Key;
use vstd::prelude::*;

verus! {

/// The index of the bucket for a key with view `kv` among `n` buckets.
pub open spec fn spec_hash_index<K: Key>(kv: K::V, n: int) -> int {
    K::hash_spec(kv) as int % n
}

pub proof fn lemma_hash_index_range<K: Key>(kv: K::V, n: int)
    requires
        n > 0,
    ensures
        0 <= spec_hash_index::<K>(kv, n) < n,
{
    let h = K::hash_spec(kv) as int;
    assert(0 <= h % n < n) by (nonlinear_arith)
        requires
            0 <= h,
            n > 0,
    ;
}

/// Whether some entry of the chain has a key with view `kv`.
pub open spec fn chain_has<K: Key, V>(c: Seq<(K, V)>, kv: K::V) -> bool {
    exists|i: int| 0 <= i < c.len() && (#[trigger] c[i]).0@ == kv
}

/// The position in the chain of an entry whose key has view `kv`.
pub open spec fn chain_pos<K: Key, V>(c: Seq<(K, V)>, kv: K::V) -> int {
    choose|i: int| 0 <= i < c.len() && (#[trigger] c[i]).0@ == kv
}

/// The value that the chain holds for the key with view `kv`.
pub open spec fn chain_value<K: Key, V>(c: Seq<(K, V)>, kv: K::V) -> V {
    c[chain_pos(c, kv)].1
}

/// No two entries of the chain have the same key.
pub open spec fn chain_distinct<K: Key, V>(c: Seq<(K, V)>) -> bool {
    forall|i: int, j: int|
        0 <= i < c.len() && 0 <= j < c.len() && i != j ==> (#[trigger] c[i]).0@ != (
        #[trigger] c[j]).0@
}

/// Every entry sits in the chain that its key hashes to.
pub open spec fn chains_placed<K: Key, V>(cs: Seq<Seq<(K, V)>>) -> bool {
    forall|b: int, e: int|
        0 <= b < cs.len() && 0 <= e < cs[b].len() ==> spec_hash_index::<K>(
            (#[trigger] cs[b][e]).0@,
            cs.len() as int,
        ) == b
}

/// Every entry sits in the chain that its key hashes to, and no chain holds a
/// key twice. A key then occurs at most once in the whole array.
pub open spec fn chains_wf<K: Key, V>(cs: Seq<Seq<(K, V)>>) -> bool {
    &&& chains_placed(cs)
    &&& forall|b: int| 0 <= b < cs.len() ==> chain_distinct(#[trigger] cs[b])
}

/// The map that the chains stand for: a key is looked up in its own chain only.
pub open spec fn chains_map<K: Key, V>(cs: Seq<Seq<(K, V)>>) -> Map<K::V, V> {
    Map::new(
        |kv: K::V| cs.len() > 0 && chain_has(cs[spec_hash_index::<K>(kv, cs.len() as int)], kv),
        |kv: K::V| chain_value(cs[spec_hash_index::<K>(kv, cs.len() as int)], kv),
    )
}

/// In a chain without repeated keys, an entry is found at its own position.
pub proof fn lemma_chain_pos<K: Key, V>(c: Seq<(K, V)>, i: int)
    requires
        chain_distinct(c),
        0 <= i < c.len(),
    ensures
        chain_has(c, c[i].0@),
        chain_pos(c, c[i].0@) == i,
        chain_value(c, c[i].0@) == c[i].1,
{
    let kv = c[i].0@;
    assert(chain_has(c, kv));
    let p = chain_pos(c, kv);
    assert(0 <= p < c.len() && c[p].0@ == kv);
}

/// Appending an entry with a new key.
pub proof fn lemma_chain_push<K: Key, V>(c: Seq<(K, V)>, entry: (K, V))
    requires
        chain_distinct(c),
        !chain_has(c, entry.0@),
    ensures
        chain_distinct(c.push(entry)),
        forall|kv: K::V| #[trigger]
            chain_has(c.push(entry), kv) <==> kv == entry.0@ || chain_has(c, kv),
        forall|kv: K::V| #[trigger]
            chain_has(c.push(entry), kv) ==> chain_value(c.push(entry), kv) == if kv
                == entry.0@ {
                entry.1
            } else {
                chain_value(c, kv)
            },
{
    let d = c.push(entry);
    assert forall|i: int, j: int| 0 <= i < d.len() && 0 <= j < d.len() && i != j implies (
    #[trigger] d[i]).0@ != (#[trigger] d[j]).0@ by {
        if i < c.len() && j < c.len() {
            assert(c[i].0@ != c[j].0@);
        } else if i < c.len() {
            assert(c[i].0@ != entry.0@);
        } else {
            assert(c[j].0@ != entry.0@);
        }
    }
    assert forall|kv: K::V| #[trigger]
        chain_has(d, kv) <==> kv == entry.0@ || chain_has(c, kv) by {
        if chain_has(d, kv) {
            let i = chain_pos(d, kv);
            if i < c.len() {
                assert(c[i].0@ == kv);
            }
        }
        if kv == entry.0@ {
            assert(d[c.len() as int].0@ == kv);
        }
        if chain_has(c, kv) {
            let i = chain_pos(c, kv);
            assert(d[i].0@ == kv);
        }
    }
    assert forall|kv: K::V| #[trigger] chain_has(d, kv) implies chain_value(d, kv) == if kv
        == entry.0@ {
        entry.1
    } else {
        chain_value(c, kv)
    } by {
        let i = chain_pos(d, kv);
        lemma_chain_pos(d, i);
        if kv == entry.0@ {
            lemma_chain_pos(d, c.len() as int);
        } else {
            assert(c[i].0@ == kv);
            lemma_chain_pos(c, i);
        }
    }
}

/// Replacing the value of the entry at position `e`.
pub proof fn lemma_chain_set<K: Key, V>(c: Seq<(K, V)>, e: int, value: V)
    requires
        chain_distinct(c),
        0 <= e < c.len(),
    ensures
        chain_distinct(c.update(e, (c[e].0, value))),
        forall|kv: K::V| #[trigger]
            chain_has(c.update(e, (c[e].0, value)), kv) <==> chain_has(c, kv),
        forall|kv: K::V| #[trigger]
            chain_has(c.update(e, (c[e].0, value)), kv) ==> chain_value(
                c.update(e, (c[e].0, value)),
                kv,
            ) == if kv == c[e].0@ {
                value
            } else {
                chain_value(c, kv)
            },
{
    let d = c.update(e, (c[e].0, value));
    assert forall|i: int, j: int| 0 <= i < d.len() && 0 <= j < d.len() && i != j implies (
    #[trigger] d[i]).0@ != (#[trigger] d[j]).0@ by {
        assert(d[i].0@ == c[i].0@);
        assert(d[j].0@ == c[j].0@);
    }
    assert forall|kv: K::V| #[trigger] chain_has(d, kv) <==> chain_has(c, kv) by {
        if chain_has(d, kv) {
            let i = chain_pos(d, kv);
            assert(c[i].0@ == kv);
        }
        if chain_has(c, kv) {
            let i = chain_pos(c, kv);
            assert(d[i].0@ == kv);
        }
    }
    assert forall|kv: K::V| #[trigger] chain_has(d, kv) implies chain_value(d, kv) == if kv
        == c[e].0@ {
        value
    } else {
        chain_value(c, kv)
    } by {
        let i = chain_pos(d, kv);
        lemma_chain_pos(d, i);
        assert(c[i].0@ == kv);
        lemma_chain_pos(c, i);
        lemma_chain_pos(c, e);
    }
}

/// The chain after the entry at position `e` gave way to the last entry.
pub open spec fn chain_swap_remove<K: Key, V>(c: Seq<(K, V)>, e: int) -> Seq<(K, V)> {
    c.update(e, c.last()).drop_last()
}

/// Removing the entry at position `e` by moving the last entry into its place.
pub proof fn lemma_chain_swap_remove<K: Key, V>(c: Seq<(K, V)>, e: int)
    requires
        chain_distinct(c),
        0 <= e < c.len(),
    ensures
        chain_distinct(chain_swap_remove(c, e)),
        forall|kv: K::V| #[trigger]
            chain_has(chain_swap_remove(c, e), kv) <==> kv != c[e].0@ && chain_has(c, kv),
        forall|kv: K::V| #[trigger]
            chain_has(chain_swap_remove(c, e), kv) ==> chain_value(chain_swap_remove(c, e), kv)
                == chain_value(c, kv),
{
    let d = chain_swap_remove(c, e);
    let last = c.len() - 1;
    // where the entry at position `i` of `d` stood in `c`
    let from = |i: int| if i == e { last } else { i };
    assert forall|i: int| 0 <= i < d.len() implies #[trigger] d[i] == c[from(i)] by {}
    assert forall|i: int, j: int| 0 <= i < d.len() && 0 <= j < d.len() && i != j implies (
    #[trigger] d[i]).0@ != (#[trigger] d[j]).0@ by {
        assert(d[i] == c[from(i)]);
        assert(d[j] == c[from(j)]);
        assert(c[from(i)].0@ != c[from(j)].0@);
    }
    assert forall|kv: K::V| #[trigger]
        chain_has(d, kv) <==> kv != c[e].0@ && chain_has(c, kv) by {
        if chain_has(d, kv) {
            let i = chain_pos(d, kv);
            assert(d[i] == c[from(i)]);
            assert(c[from(i)].0@ == kv);
            if kv == c[e].0@ {
                assert(c[from(i)].0@ != c[e].0@);
            }
        }
        if kv != c[e].0@ && chain_has(c, kv) {
            let i = chain_pos(c, kv);
            if i == last {
                assert(d[e] == c[from(e)]);
                assert(d[e].0@ == kv);
            } else {
                assert(d[i] == c[from(i)]);
                assert(d[i].0@ == kv);
            }
        }
    }
    assert forall|kv: K::V| #[trigger] chain_has(d, kv) implies chain_value(d, kv)
        == chain_value(c, kv) by {
        let i = chain_pos(d, kv);
        lemma_chain_pos(d, i);
        assert(d[i] == c[from(i)]);
        lemma_chain_pos(c, from(i));
    }
}

/// The chains after `entry` was appended to the chain that its key hashes to.
pub open spec fn chains_push<K: Key, V>(cs: Seq<Seq<(K, V)>>, entry: (K, V)) -> Seq<Seq<(K, V)>> {
    let b = spec_hash_index::<K>(entry.0@, cs.len() as int);
    cs.update(b, cs[b].push(entry))
}

/// The chains after the entry at position `e` of chain `b` got the value `value`.
pub open spec fn chains_set<K: Key, V>(cs: Seq<Seq<(K, V)>>, b: int, e: int, value: V) -> Seq<
    Seq<(K, V)>,
> {
    cs.update(b, cs[b].update(e, (cs[b][e].0, value)))
}

/// The chains after the entry at position `e` of chain `b` was removed, the
/// last entry of that chain taking its place.
pub open spec fn chains_swap_remove<K: Key, V>(cs: Seq<Seq<(K, V)>>, b: int, e: int) -> Seq<
    Seq<(K, V)>,
> {
    cs.update(b, chain_swap_remove(cs[b], e))
}

/// An entry of well-formed chains is an entry of their map.
pub proof fn lemma_entry_in_map<K: Key, V>(cs: Seq<Seq<(K, V)>>, b: int, e: int)
    requires
        chains_wf(cs),
        0 <= b < cs.len(),
        0 <= e < cs[b].len(),
    ensures
        chains_map(cs).contains_key(cs[b][e].0@),
        chains_map(cs)[cs[b][e].0@] == cs[b][e].1,
{
    let kv = cs[b][e].0@;
    assert(spec_hash_index::<K>(cs[b][e].0@, cs.len() as int) == b);
    lemma_chain_pos(cs[b], e);
}

/// A key of the map has an entry in the chain that it hashes to.
pub proof fn lemma_key_has_entry<K: Key, V>(cs: Seq<Seq<(K, V)>>, kv: K::V) -> (pos: (int, int))
    requires
        chains_map(cs).contains_key(kv),
    ensures
        cs.len() > 0,
        pos.0 == spec_hash_index::<K>(kv, cs.len() as int),
        0 <= pos.0 < cs.len(),
        0 <= pos.1 < cs[pos.0].len(),
        cs[pos.0][pos.1].0@ == kv,
        cs[pos.0][pos.1].1 == chains_map(cs)[kv],
{
    lemma_hash_index_range::<K>(kv, cs.len() as int);
    let b = spec_hash_index::<K>(kv, cs.len() as int);
    (b, chain_pos(cs[b], kv))
}

/// Chains that are all empty stand for the empty map.
pub proof fn lemma_empty_chains<K: Key, V>(cs: Seq<Seq<(K, V)>>)
    requires
        forall|b: int| 0 <= b < cs.len() ==> (#[trigger] cs[b]).len() == 0,
    ensures
        chains_wf(cs),
        chains_map(cs) == Map::<K::V, V>::empty(),
{
    assert forall|kv: K::V| !(#[trigger] chains_map(cs).contains_key(kv)) by {
        if cs.len() > 0 {
            lemma_hash_index_range::<K>(kv, cs.len() as int);
            let b = spec_hash_index::<K>(kv, cs.len() as int);
            assert(cs[b].len() == 0);
        }
    }
    assert(chains_map(cs) =~= Map::<K::V, V>::empty());
}

/// Appending an entry whose key is new adds it to the map.
pub proof fn lemma_chains_push<K: Key, V>(cs: Seq<Seq<(K, V)>>, entry: (K, V))
    requires
        chains_wf(cs),
        cs.len() > 0,
        !chains_map(cs).contains_key(entry.0@),
    ensures
        chains_wf(chains_push(cs, entry)),
        chains_map(chains_push(cs, entry)) == chains_map(cs).insert(entry.0@, entry.1),
{
    let n = cs.len() as int;
    let b = spec_hash_index::<K>(entry.0@, n);
    lemma_hash_index_range::<K>(entry.0@, n);
    let d = chains_push(cs, entry);
    lemma_chain_push(cs[b], entry);
    assert forall|x: int, e: int| 0 <= x < d.len() && 0 <= e < d[x].len() implies spec_hash_index::<
        K,
    >((#[trigger] d[x][e]).0@, d.len() as int) == x by {
        if x == b && e < cs[b].len() {
            assert(d[x][e] == cs[x][e]);
        } else if x != b {
            assert(d[x][e] == cs[x][e]);
        }
    }
    assert forall|x: int| 0 <= x < d.len() implies chain_distinct(#[trigger] d[x]) by {
        if x != b {
            assert(d[x] == cs[x]);
        }
    }
    assert forall|kv: K::V|
        chains_map(d).contains_key(kv) == #[trigger] chains_map(cs).insert(
            entry.0@,
            entry.1,
        ).contains_key(kv) by {
        lemma_hash_index_range::<K>(kv, n);
        let x = spec_hash_index::<K>(kv, n);
        if x != b {
            assert(d[x] == cs[x]);
        }
    }
    assert forall|kv: K::V| #[trigger] chains_map(d).contains_key(kv) implies chains_map(d)[kv]
        == chains_map(cs).insert(entry.0@, entry.1)[kv] by {
        lemma_hash_index_range::<K>(kv, n);
        let x = spec_hash_index::<K>(kv, n);
        if x != b {
            assert(d[x] == cs[x]);
        }
    }
    assert(chains_map(d) =~= chains_map(cs).insert(entry.0@, entry.1));
}

/// Replacing the value of an entry maps its key to the new value.
pub proof fn lemma_chains_set<K: Key, V>(cs: Seq<Seq<(K, V)>>, b: int, e: int, value: V)
    requires
        chains_wf(cs),
        0 <= b < cs.len(),
        0 <= e < cs[b].len(),
    ensures
        chains_wf(chains_set(cs, b, e, value)),
        chains_map(chains_set(cs, b, e, value)) == chains_map(cs).insert(cs[b][e].0@, value),
{
    let n = cs.len() as int;
    let key = cs[b][e].0@;
    let d = chains_set(cs, b, e, value);
    assert(spec_hash_index::<K>(cs[b][e].0@, n) == b);
    lemma_chain_set(cs[b], e, value);
    lemma_chain_pos(cs[b], e);
    assert forall|x: int, i: int| 0 <= x < d.len() && 0 <= i < d[x].len() implies spec_hash_index::<
        K,
    >((#[trigger] d[x][i]).0@, d.len() as int) == x by {
        assert(d[x][i].0@ == cs[x][i].0@);
    }
    assert forall|x: int| 0 <= x < d.len() implies chain_distinct(#[trigger] d[x]) by {
        if x != b {
            assert(d[x] == cs[x]);
        }
    }
    assert forall|kv: K::V|
        chains_map(d).contains_key(kv) == #[trigger] chains_map(cs).insert(
            key,
            value,
        ).contains_key(kv) by {
        lemma_hash_index_range::<K>(kv, n);
        let x = spec_hash_index::<K>(kv, n);
        if x != b {
            assert(d[x] == cs[x]);
        }
    }
    assert forall|kv: K::V| #[trigger] chains_map(d).contains_key(kv) implies chains_map(d)[kv]
        == chains_map(cs).insert(key, value)[kv] by {
        lemma_hash_index_range::<K>(kv, n);
        let x = spec_hash_index::<K>(kv, n);
        if x != b {
            assert(d[x] == cs[x]);
        }
    }
    assert(chains_map(d) =~= chains_map(cs).insert(key, value));
}

/// Removing an entry removes its key from the map.
pub proof fn lemma_chains_swap_remove<K: Key, V>(cs: Seq<Seq<(K, V)>>, b: int, e: int)
    requires
        chains_wf(cs),
        0 <= b < cs.len(),
        0 <= e < cs[b].len(),
    ensures
        chains_wf(chains_swap_remove(cs, b, e)),
        chains_map(chains_swap_remove(cs, b, e)) == chains_map(cs).remove(cs[b][e].0@),
{
    let n = cs.len() as int;
    let key = cs[b][e].0@;
    let d = chains_swap_remove(cs, b, e);
    let last = cs[b].len() - 1;
    assert(spec_hash_index::<K>(cs[b][e].0@, n) == b);
    lemma_chain_swap_remove(cs[b], e);
    assert forall|x: int, i: int| 0 <= x < d.len() && 0 <= i < d[x].len() implies spec_hash_index::<
        K,
    >((#[trigger] d[x][i]).0@, d.len() as int) == x by {
        if x == b && i == e {
            assert(d[x][i] == cs[b][last]);
        } else {
            assert(d[x][i] == cs[x][i]);
        }
    }
    assert forall|x: int| 0 <= x < d.len() implies chain_distinct(#[trigger] d[x]) by {
        if x != b {
            assert(d[x] == cs[x]);
        }
    }
    assert forall|kv: K::V|
        chains_map(d).contains_key(kv) == #[trigger] chains_map(cs).remove(key).contains_key(
            kv,
        ) by {
        lemma_hash_index_range::<K>(kv, n);
        let x = spec_hash_index::<K>(kv, n);
        if x != b {
            assert(d[x] == cs[x]);
        }
    }
    assert forall|kv: K::V| #[trigger] chains_map(d).contains_key(kv) implies chains_map(d)[kv]
        == chains_map(cs).remove(key)[kv] by {
        lemma_hash_index_range::<K>(kv, n);
        let x = spec_hash_index::<K>(kv, n);
        if x != b {
            assert(d[x] == cs[x]);
        }
    }
    assert(chains_map(d) =~= chains_map(cs).remove(key));
}

/// The chains after `value` was stored under `key`: in place where the key
/// has an entry, else in a new entry at the end of the key's chain.
pub open spec fn chains_insert<K: Key, V>(cs: Seq<Seq<(K, V)>>, key: K, value: V) -> Seq<
    Seq<(K, V)>,
> {
    let b = spec_hash_index::<K>(key@, cs.len() as int);
    if chain_has(cs[b], key@) {
        chains_set(cs, b, chain_pos(cs[b], key@), value)
    } else {
        chains_push(cs, (key, value))
    }
}

/// The chains after the entry for the key with view `kv`, if there is one, was
/// removed, the last entry of its chain taking its place.
pub open spec fn chains_remove<K: Key, V>(cs: Seq<Seq<(K, V)>>, kv: K::V) -> Seq<Seq<(K, V)>> {
    let b = spec_hash_index::<K>(kv, cs.len() as int);
    if cs.len() > 0 && chain_has(cs[b], kv) {
        chains_swap_remove(cs, b, chain_pos(cs[b], kv))
    } else {
        cs
    }
}

/// Storing a value under a key in well-formed chains.
pub proof fn lemma_chains_insert<K: Key, V>(cs: Seq<Seq<(K, V)>>, key: K, value: V)
    requires
        chains_wf(cs),
        cs.len() > 0,
    ensures
        chains_wf(chains_insert(cs, key, value)),
        chains_insert(cs, key, value).len() == cs.len(),
        chains_map(chains_insert(cs, key, value)) == chains_map(cs).insert(key@, value),
{
    let b = spec_hash_index::<K>(key@, cs.len() as int);
    lemma_hash_index_range::<K>(key@, cs.len() as int);
    if chain_has(cs[b], key@) {
        lemma_chains_set(cs, b, chain_pos(cs[b], key@), value);
    } else {
        lemma_chains_push(cs, (key, value));
    }
}

/// Removing a key from well-formed chains.
pub proof fn lemma_chains_remove<K: Key, V>(cs: Seq<Seq<(K, V)>>, kv: K::V)
    requires
        chains_wf(cs),
    ensures
        chains_wf(chains_remove(cs, kv)),
        chains_remove(cs, kv).len() == cs.len(),
        chains_map(chains_remove(cs, kv)) == chains_map(cs).remove(kv),
{
    let b = spec_hash_index::<K>(kv, cs.len() as int);
    if cs.len() > 0 && chain_has(cs[b], kv) {
        lemma_hash_index_range::<K>(kv, cs.len() as int);
        lemma_chains_swap_remove(cs, b, chain_pos(cs[b], kv));
    } else {
        assert(chains_map(cs).remove(kv) =~= chains_map(cs));
    }
}

} // verus!
