//! The order of the entries: chain after chain, each from its first entry on.
//!
//! `cs.flatten()` lists the entries of the chains `cs` in that order. This
//! module relates a position in the list to a chain and a position in it, and
//! shows that the list of well-formed chains holds each key of their map once.

use crate::chain::{
    chains_map, chains_wf, lemma_entry_in_map, lemma_key_has_entry, spec_hash_index,
};
use crate::key::Key;
use vstd::prelude::*;

verus! {

/// The number of entries in the chains before chain `b`.
pub open spec fn entries_before<T>(cs: Seq<Seq<T>>, b: int) -> nat {
    cs.take(b).flatten().len()
}

/// Chain `b` follows directly on the entries before it.
pub proof fn lemma_entries_before_next<T>(cs: Seq<Seq<T>>, b: int)
    requires
        0 <= b < cs.len(),
    ensures
        cs.take(b + 1).flatten() == cs.take(b).flatten() + cs[b],
        entries_before(cs, b + 1) == entries_before(cs, b) + cs[b].len(),
{
    assert(cs.take(b + 1) =~= cs.take(b).push(cs[b]));
    cs.take(b).lemma_flatten_push(cs[b]);
}

/// All entries lie before the end of the chains.
pub proof fn lemma_entries_before_end<T>(cs: Seq<Seq<T>>)
    ensures
        entries_before(cs, 0) == 0,
        entries_before(cs, cs.len() as int) == cs.flatten().len(),
{
    assert(cs.take(cs.len() as int) =~= cs);
    assert(cs.take(0) =~= Seq::<Seq<T>>::empty());
}

proof fn lemma_entry_in_prefix<T>(cs: Seq<Seq<T>>, b: int, e: int, m: int)
    requires
        0 <= b < m <= cs.len(),
        0 <= e < cs[b].len(),
    ensures
        entries_before(cs, b) + e < entries_before(cs, m),
        cs.take(m).flatten()[entries_before(cs, b) + e] == cs[b][e],
    decreases m,
{
    lemma_entries_before_next(cs, m - 1);
    if m - 1 > b {
        lemma_entry_in_prefix(cs, b, e, m - 1);
    }
}

/// The entry at position `e` of chain `b` is the entry of the list that comes
/// `e` places after the entries before chain `b`.
pub proof fn lemma_entry_at<T>(cs: Seq<Seq<T>>, b: int, e: int)
    requires
        0 <= b < cs.len(),
        0 <= e < cs[b].len(),
    ensures
        entries_before(cs, b) + e < cs.flatten().len(),
        cs.flatten()[entries_before(cs, b) + e] == cs[b][e],
{
    lemma_entry_in_prefix(cs, b, e, cs.len() as int);
    lemma_entries_before_end(cs);
    assert(cs.take(cs.len() as int) =~= cs);
}

proof fn lemma_locate_in_prefix<T>(cs: Seq<Seq<T>>, m: int, i: int) -> (pos: (int, int))
    requires
        0 <= m <= cs.len(),
        0 <= i < entries_before(cs, m),
    ensures
        0 <= pos.0 < m,
        0 <= pos.1 < cs[pos.0].len(),
        i == entries_before(cs, pos.0) + pos.1,
    decreases m,
{
    if m == 0 {
        lemma_entries_before_end(cs);
        (0, 0)
    } else {
        lemma_entries_before_next(cs, m - 1);
        if i >= entries_before(cs, m - 1) {
            (m - 1, i - entries_before(cs, m - 1))
        } else {
            lemma_locate_in_prefix(cs, m - 1, i)
        }
    }
}

/// Every entry of the list is an entry of some chain.
pub proof fn lemma_locate<T>(cs: Seq<Seq<T>>, i: int) -> (pos: (int, int))
    requires
        0 <= i < cs.flatten().len(),
    ensures
        0 <= pos.0 < cs.len(),
        0 <= pos.1 < cs[pos.0].len(),
        i == entries_before(cs, pos.0) + pos.1,
        cs.flatten()[i] == cs[pos.0][pos.1],
{
    lemma_entries_before_end(cs);
    let pos = lemma_locate_in_prefix(cs, cs.len() as int, i);
    lemma_entry_at(cs, pos.0, pos.1);
    pos
}

/// Replacing one chain changes the number of entries by the difference of the
/// two chains' lengths.
pub proof fn lemma_update_len<T>(cs: Seq<Seq<T>>, b: int, c: Seq<T>)
    requires
        0 <= b < cs.len(),
    ensures
        cs.update(b, c).flatten().len() == cs.flatten().len() - cs[b].len() + c.len(),
{
    let head = cs.take(b);
    let tail = cs.skip(b + 1);
    assert(cs =~= head + seq![cs[b]] + tail);
    assert(cs.update(b, c) =~= head + seq![c] + tail);
    vstd::seq_lib::lemma_flatten_concat(head + seq![cs[b]], tail);
    vstd::seq_lib::lemma_flatten_concat(head, seq![cs[b]]);
    vstd::seq_lib::lemma_flatten_concat(head + seq![c], tail);
    vstd::seq_lib::lemma_flatten_concat(head, seq![c]);
    seq![cs[b]].lemma_flatten_singleton();
    seq![c].lemma_flatten_singleton();
}

/// Chains that are all empty have no entries.
pub proof fn lemma_empty_chains_flatten<T>(cs: Seq<Seq<T>>)
    requires
        forall|b: int| 0 <= b < cs.len() ==> (#[trigger] cs[b]).len() == 0,
    ensures
        cs.flatten().len() == 0,
{
    if cs.flatten().len() > 0 {
        let pos = lemma_locate(cs, 0);
        assert(cs[pos.0].len() == 0);
    }
}

/// The list of the entries of well-formed chains holds exactly the entries of
/// their map, each key once.
pub proof fn lemma_entries_cover_map<K: Key, V>(cs: Seq<Seq<(K, V)>>)
    requires
        chains_wf(cs),
    ensures
        forall|i: int|
            0 <= i < cs.flatten().len() ==> chains_map(cs).contains_key(
                (#[trigger] cs.flatten()[i]).0@,
            ) && chains_map(cs)[cs.flatten()[i].0@] == cs.flatten()[i].1,
        forall|i: int, j: int|
            0 <= i < cs.flatten().len() && 0 <= j < cs.flatten().len() && i != j ==> (
            #[trigger] cs.flatten()[i]).0@ != (#[trigger] cs.flatten()[j]).0@,
        forall|kv: K::V| #[trigger]
            chains_map(cs).contains_key(kv) ==> exists|i: int|
                0 <= i < cs.flatten().len() && (#[trigger] cs.flatten()[i]).0@ == kv,
{
    let es = cs.flatten();
    assert forall|i: int| 0 <= i < es.len() implies chains_map(cs).contains_key(
        (#[trigger] es[i]).0@,
    ) && chains_map(cs)[es[i].0@] == es[i].1 by {
        let pos = lemma_locate(cs, i);
        lemma_entry_in_map(cs, pos.0, pos.1);
    }
    assert forall|i: int, j: int| 0 <= i < es.len() && 0 <= j < es.len() && i != j implies (
    #[trigger] es[i]).0@ != (#[trigger] es[j]).0@ by {
        let p = lemma_locate(cs, i);
        let q = lemma_locate(cs, j);
        if es[i].0@ == es[j].0@ {
            assert(spec_hash_index::<K>(cs[p.0][p.1].0@, cs.len() as int) == p.0);
            assert(spec_hash_index::<K>(cs[q.0][q.1].0@, cs.len() as int) == q.0);
            assert(p.1 != q.1);
            assert(cs[p.0][p.1].0@ != cs[p.0][q.1].0@);
        }
    }
    assert forall|kv: K::V| #[trigger] chains_map(cs).contains_key(kv) implies exists|i: int|
        0 <= i < es.len() && (#[trigger] es[i]).0@ == kv by {
        let pos = lemma_key_has_entry(cs, kv);
        lemma_entry_at(cs, pos.0, pos.1);
        let i = entries_before(cs, pos.0) + pos.1;
        assert(es[i].0@ == kv);
    }
}

} // verus!
