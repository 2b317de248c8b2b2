//! The mathematical model of a trie: its nodes as a map from paths to value
//! slots, and the operations on such maps that the contracts speak of.

use vstd::prelude::*;

verus! {

/// The nodes of a (sub)tree: every path that leads from its root to a node,
/// mapped to the optional value which that node holds.
pub type Nodes<T> = Map<Seq<usize>, Option<T>>;

/// Every symbol of `key` lies in `[0, factor)`.
pub open spec fn valid_key(key: Seq<usize>, factor: nat) -> bool {
    forall|i: int| 0 <= i < key.len() ==> #[trigger] key[i] < factor
}

/// Every prefix of a path is a path.
pub open spec fn prefix_closed<T>(m: Nodes<T>) -> bool {
    forall|p: Seq<usize>, q: Seq<usize>|
        #![trigger m.dom().contains(p), q.is_prefix_of(p)]
        m.dom().contains(p) && q.is_prefix_of(p) ==> m.dom().contains(q)
}

/// A single node without a value and without children.
pub open spec fn leaf<T>() -> Nodes<T> {
    Map::<Seq<usize>, Option<T>>::empty().insert(Seq::<usize>::empty(), None)
}

/// The subtree of `m` that hangs at path `q`, with paths taken from there.
pub open spec fn below<T>(m: Nodes<T>, q: Seq<usize>) -> Nodes<T> {
    Map::new(|p: Seq<usize>| m.dom().contains(q + p), |p: Seq<usize>| m[q + p])
}

/// The subtree that a growing descent along `q` reaches: the one that hangs
/// there, or a fresh leaf where `m` has no node at `q`.
pub open spec fn below_or_leaf<T>(m: Nodes<T>, q: Seq<usize>) -> Nodes<T> {
    if m.dom().contains(q) {
        below(m, q)
    } else {
        leaf()
    }
}

/// `m` with everything at and under path `q` replaced by the subtree `sub`.
pub open spec fn grafted<T>(m: Nodes<T>, q: Seq<usize>, sub: Nodes<T>) -> Nodes<T> {
    Map::new(
        |p: Seq<usize>|
            if q.is_prefix_of(p) {
                sub.dom().contains(p.skip(q.len() as int))
            } else {
                m.dom().contains(p)
            },
        |p: Seq<usize>|
            if q.is_prefix_of(p) {
                sub[p.skip(q.len() as int)]
            } else {
                m[p]
            },
    )
}

/// `m` with a node at every prefix of `q`; the nodes that are new hold no value.
pub open spec fn extended<T>(m: Nodes<T>, q: Seq<usize>) -> Nodes<T> {
    Map::new(
        |p: Seq<usize>| m.dom().contains(p) || p.is_prefix_of(q),
        |p: Seq<usize>|
            if m.dom().contains(p) {
                m[p]
            } else {
                None
            },
    )
}

/// `m` after storing `value` at `key`: the path to `key` exists, `key` holds
/// `value`, and every other node is as before.
pub open spec fn inserted<T>(m: Nodes<T>, key: Seq<usize>, value: T) -> Nodes<T> {
    extended(m, key).insert(key, Some(value))
}

/// The keys that hold a value, each with its value.
pub open spec fn stored<T>(m: Nodes<T>) -> Map<Seq<usize>, T> {
    Map::new(
        |p: Seq<usize>| m.dom().contains(p) && m[p] is Some,
        |p: Seq<usize>| m[p]->Some_0,
    )
}

/// `m` after storing each of `entries` in turn, a key with its value.
pub open spec fn inserted_all<T>(m: Nodes<T>, entries: Seq<(Seq<usize>, T)>) -> Nodes<T>
    decreases entries.len(),
{
    if entries.len() == 0 {
        m
    } else {
        inserted(inserted_all(m, entries.drop_last()), entries.last().0, entries.last().1)
    }
}

/// What a lookup of `key` yields on the stored keys `m`.
pub open spec fn found<T>(m: Map<Seq<usize>, T>, key: Seq<usize>) -> Option<T> {
    if m.dom().contains(key) {
        Some(m[key])
    } else {
        None
    }
}

/// Descending by one symbol from the subtree at `q` reaches the subtree at
/// `q` followed by that symbol.
pub proof fn lemma_below_push<T>(m: Nodes<T>, q: Seq<usize>, k: usize)
    ensures
        below(m, q).dom().contains(seq![k]) == m.dom().contains(q.push(k)),
        below(below(m, q), seq![k]) == below(m, q.push(k)),
{
    assert(q + seq![k] =~= q.push(k));
    assert forall|p: Seq<usize>| q + (seq![k] + p) == q.push(k) + p by {}
}

/// A path with prefix `q` is `q` followed by the rest of the path, and the
/// rest is empty only where the path is `q`.
pub proof fn lemma_prefix_split(q: Seq<usize>, p: Seq<usize>)
    requires
        q.is_prefix_of(p),
    ensures
        q + p.skip(q.len() as int) == p,
        p.skip(q.len() as int) == Seq::<usize>::empty() <==> p == q,
{
    let rest = p.skip(q.len() as int);
    assert(rest.len() == 0 <==> rest =~= Seq::<usize>::empty());
    assert(rest.len() == 0 ==> p =~= q);
}

/// `q` followed by `k` is a prefix of `p` exactly if `q` is one and the rest
/// of `p` begins with `k`.
pub proof fn lemma_push_is_prefix(q: Seq<usize>, k: usize, p: Seq<usize>)
    ensures
        q.push(k).is_prefix_of(p) <==> q.is_prefix_of(p) && seq![k].is_prefix_of(
            p.skip(q.len() as int),
        ),
        q.push(k).is_prefix_of(p) ==> p.skip(q.len() as int).skip(1) == p.skip(q.len() as int + 1),
{
    let qk = q.push(k);
    let rest = p.skip(q.len() as int);
    if qk.is_prefix_of(p) {
        assert(q =~= p.subrange(0, q.len() as int)) by {
            assert forall|i: int| 0 <= i < q.len() implies q[i] == p[i] by {
                assert(qk[i] == p.subrange(0, qk.len() as int)[i]);
            }
        }
        assert(qk[q.len() as int] == p.subrange(0, qk.len() as int)[q.len() as int]);
    }
    if q.is_prefix_of(p) && seq![k].is_prefix_of(rest) {
        assert(seq![k][0] == rest.subrange(0, 1)[0]);
    }
}

/// The prefixes of `q` followed by `k` are the prefixes of `q`, and the
/// whole of it.
pub proof fn lemma_prefix_of_push(p: Seq<usize>, q: Seq<usize>, k: usize)
    ensures
        p.is_prefix_of(q.push(k)) <==> p.is_prefix_of(q) || p == q.push(k),
{
    if p.is_prefix_of(q.push(k)) && p.len() == q.len() + 1 {
        assert(p =~= q.push(k));
    }
}

/// Grafting at the root replaces the whole tree.
pub proof fn lemma_grafted_empty<T>(m: Nodes<T>, sub: Nodes<T>)
    ensures
        grafted(m, Seq::<usize>::empty(), sub) == sub,
{
    assert forall|p: Seq<usize>| Seq::<usize>::empty().is_prefix_of(p) && p.skip(0) == p by {}
}

/// One step of a growing descent. The subtree reached from the one at `q`
/// by the symbol `k` is the one at `q` followed by `k`; and what is grafted
/// there shows in the whole tree as a graft at the longer path, with the
/// tree extended along it.
pub proof fn lemma_grafted_push<T>(m: Nodes<T>, q: Seq<usize>, k: usize, sub: Nodes<T>)
    requires
        prefix_closed(m),
    ensures
        below_or_leaf(below_or_leaf(m, q), seq![k]) == below_or_leaf(m, q.push(k)),
        grafted(extended(m, q), q, grafted(below_or_leaf(m, q), seq![k], sub)) == grafted(
            extended(m, q.push(k)),
            q.push(k),
            sub,
        ),
{
    let qk = q.push(k);
    lemma_below_push(m, q, k);
    lemma_prefix_of_push(q, q, k);
    let lhs = grafted(extended(m, q), q, grafted(below_or_leaf(m, q), seq![k], sub));
    let rhs = grafted(extended(m, qk), qk, sub);
    assert forall|p: Seq<usize>|
        #![trigger lhs.dom().contains(p)]
        #![trigger rhs.dom().contains(p)]
        lhs.dom().contains(p) == rhs.dom().contains(p) && (lhs.dom().contains(p) ==> lhs[p]
            == rhs[p]) by {
        lemma_push_is_prefix(q, k, p);
        lemma_prefix_of_push(p, q, k);
        if q.is_prefix_of(p) {
            lemma_prefix_split(q, p);
        }
    }
}

/// Writing a value at the end of a growing descent along `key` stores the
/// value at `key`.
pub proof fn lemma_grafted_value<T>(m: Nodes<T>, key: Seq<usize>, value: T)
    requires
        prefix_closed(m),
    ensures
        grafted(
            extended(m, key),
            key,
            below_or_leaf(m, key).insert(Seq::<usize>::empty(), Some(value)),
        ) == inserted(m, key, value),
{
    let sub = below_or_leaf(m, key).insert(Seq::<usize>::empty(), Some(value));
    let lhs = grafted(extended(m, key), key, sub);
    let rhs = inserted(m, key, value);
    assert forall|p: Seq<usize>|
        #![trigger lhs.dom().contains(p)]
        #![trigger rhs.dom().contains(p)]
        lhs.dom().contains(p) == rhs.dom().contains(p) && (lhs.dom().contains(p) ==> lhs[p]
            == rhs[p]) by {
        if key.is_prefix_of(p) {
            lemma_prefix_split(key, p);
        }
    }
}

/// Storing a value at `key` sets `key` among the stored keys and changes no
/// other: the nodes that the path adds hold no value.
pub proof fn lemma_stored_inserted<T>(m: Nodes<T>, key: Seq<usize>, value: T)
    ensures
        stored(inserted(m, key, value)) == stored(m).insert(key, value),
{
    assert(stored(inserted(m, key, value)) =~= stored(m).insert(key, value));
}

} // verus!
