//! Laws of storing and looking up, proved of the model that the contracts
//! of the trie are stated in.

use crate::model::{
    below, below_or_leaf, found, grafted, inserted, inserted_all, leaf, lemma_prefix_split,
    lemma_stored_inserted, stored, valid_key, Nodes,
};
use crate::trie::TrieMap;
use vstd::prelude::*;

verus! {

/// After storing `value` at `key`, the key is present and a lookup of it
/// yields `value`.
pub proof fn lemma_stored_then_found<T>(m: Nodes<T>, key: Seq<usize>, value: T)
    ensures
        stored(inserted(m, key, value)).dom().contains(key),
        found(stored(inserted(m, key, value)), key) == Some(value),
{
    lemma_stored_inserted(m, key, value);
}

/// A new trie holds no key.
pub proof fn lemma_leaf_stores_nothing<T>()
    ensures
        stored(leaf::<T>()) == Map::<Seq<usize>, T>::empty(),
{
    assert(stored(leaf::<T>()) =~= Map::<Seq<usize>, T>::empty());
}

/// A key that was never stored is absent: after any run of stores into a
/// new trie, a key that is not among them is not present, and a lookup of it
/// yields nothing.
pub proof fn lemma_never_stored_absent<T>(entries: Seq<(Seq<usize>, T)>, key: Seq<usize>)
    requires
        forall|i: int| 0 <= i < entries.len() ==> (#[trigger] entries[i]).0 != key,
    ensures
        !stored(inserted_all(leaf::<T>(), entries)).dom().contains(key),
        found(stored(inserted_all(leaf::<T>(), entries)), key) is None,
    decreases entries.len(),
{
    if entries.len() == 0 {
        lemma_leaf_stores_nothing::<T>();
    } else {
        let rest = entries.drop_last();
        lemma_never_stored_absent(rest, key);
        lemma_stored_inserted(inserted_all(leaf::<T>(), rest), entries.last().0, entries.last().1);
    }
}

/// Storing twice at one key is storing the later value once: the trie has
/// the same nodes as after the later store alone, and the key holds the
/// later value.
pub proof fn lemma_stored_twice<T>(m: Nodes<T>, key: Seq<usize>, first: T, second: T)
    ensures
        inserted(inserted(m, key, first), key, second) == inserted(m, key, second),
        inserted(inserted(m, key, first), key, second).dom() == inserted(m, key, first).dom(),
        stored(inserted(inserted(m, key, first), key, second)) == stored(m).insert(key, second),
{
    assert(inserted(inserted(m, key, first), key, second) =~= inserted(m, key, second));
    assert(inserted(m, key, second).dom() =~= inserted(m, key, first).dom());
    lemma_stored_inserted(m, key, second);
}

/// Storing at one key changes nothing at any other key, be it a prefix or
/// an extension of the first: whether it is present, what a lookup of it
/// yields, and the value slot of its node where there was one.
pub proof fn lemma_stored_elsewhere<T>(m: Nodes<T>, key: Seq<usize>, value: T, other: Seq<usize>)
    requires
        other != key,
    ensures
        stored(inserted(m, key, value)).dom().contains(other) == stored(m).dom().contains(other),
        found(stored(inserted(m, key, value)), other) == found(stored(m), other),
        m.dom().contains(other) ==> inserted(m, key, value).dom().contains(other) && inserted(
            m,
            key,
            value,
        )[other] == m[other],
{
    lemma_stored_inserted(m, key, value);
}

/// With branching factor 0 the empty key is the only key, and the root the
/// only node of a well-formed trie.
pub proof fn lemma_factor_zero<T>(map: TrieMap<T>)
    requires
        map.wf(),
        map.factor() == 0,
    ensures
        forall|key: Seq<usize>| #[trigger] valid_key(key, 0) <==> key.len() == 0,
        forall|p: Seq<usize>| #[trigger] map.nodes().dom().contains(p) <==> p.len() == 0,
        forall|key: Seq<usize>| #[trigger] map@.dom().contains(key) ==> key.len() == 0,
{
    map.lemma_nodes();
    assert forall|key: Seq<usize>| #[trigger] valid_key(key, 0) <==> key.len() == 0 by {
        if key.len() > 0 && valid_key(key, 0) {
            assert(key[0] < 0);
        }
    }
    assert forall|p: Seq<usize>| #[trigger] map.nodes().dom().contains(p) <==> p.len() == 0 by {
        if p.len() == 0 {
            assert(p =~= Seq::<usize>::empty());
        }
    }
}

/// Descending to a child that exists and changing nothing below it leaves
/// the trie as it was.
pub proof fn lemma_grafted_same<T>(m: Nodes<T>, k: usize)
    requires
        m.dom().contains(seq![k]),
    ensures
        grafted(m, seq![k], below(m, seq![k])) == m,
{
    let g = grafted(m, seq![k], below(m, seq![k]));
    assert forall|p: Seq<usize>|
        #![trigger g.dom().contains(p)]
        #![trigger m.dom().contains(p)]
        g.dom().contains(p) == m.dom().contains(p) && (g.dom().contains(p) ==> g[p] == m[p]) by {
        if seq![k].is_prefix_of(p) {
            lemma_prefix_split(seq![k], p);
        }
    }
}

/// Descending a second time by the same symbol reaches what the first
/// descent left there: no second node is made, and no subtree is lost.
pub proof fn lemma_below_grafted<T>(m: Nodes<T>, k: usize, sub: Nodes<T>)
    requires
        sub.dom().contains(Seq::<usize>::empty()),
    ensures
        grafted(m, seq![k], sub).dom().contains(seq![k]),
        below_or_leaf(grafted(m, seq![k], sub), seq![k]) == sub,
{
    let one = seq![k];
    let g = grafted(m, one, sub);
    assert forall|p: Seq<usize>| one.is_prefix_of(one + p) && (one + p).skip(1) == p by {}
    assert(below(g, one) =~= sub);
}

} // verus!
