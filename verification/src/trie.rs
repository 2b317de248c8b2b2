//! The trie: its nodes, the cursors that walk them, and the map that owns
//! the root.
//!
//! Contracts speak of a subtree through its view, a [`Nodes`] map from every
//! path that leads to a node to the value slot of that node. A mutable
//! cursor is a mutable borrow of a node: what is written through it, or
//! through any cursor obtained from it, shows in the tree it was borrowed
//! from once the borrow ends, and the contracts say how.

use crate::model::{
    below, below_or_leaf, extended, found, grafted, inserted, leaf, lemma_below_push,
    lemma_grafted_empty, lemma_grafted_push, lemma_grafted_value, lemma_stored_inserted,
    prefix_closed, stored, valid_key, Nodes,
};
use std::ops::Index;
use vstd::prelude::*;

verus! {

/// A trie node may have a value, and owns one optional child per symbol.
#[derive(Debug, PartialEq, Eq)]
pub struct Node<T> {
    value: Option<T>,
    children: Vec<Option<Box<Node<T>>>>,
}

/// A cursor marks a position in the trie and can be used to traverse it.
/// In particular, we can find out the value at the current node, and we
/// can descend to a child node based on the child index.
#[derive(Copy, Clone, Debug)]
pub struct Cursor<'a, T: 'a> {
    node: &'a Node<T>,
}

/// A mutable cursor marks a position in the trie, and can be used to
/// traverse and modify the trie.
///
/// In a contract, `cursor.node@` is the subtree under the cursor as it is,
/// and `final(cursor.node)@` the same subtree as it will be when the cursor
/// and all cursors obtained from it are gone.
#[derive(Debug)]
pub struct CursorMut<'a, T: 'a> {
    /// The node that the cursor points to.
    pub node: &'a mut Node<T>,
    /// The branching factor, with which new nodes are made.
    pub factor: usize,
}

/// A `TrieMap<T>` maps sequences of natural numbers to `T`s. The trie
/// has a branching factor, `factor`, that determines the range of
/// natural numbers accepted: `[0, factor)`.
#[derive(Debug, PartialEq, Eq)]
pub struct TrieMap<T> {
    /// The root node of the trie.
    node: Node<T>,
    /// The branching factor (size of the alphabet).
    factor: usize,
    /// The value `None`, which allows us to return a `None` borrowed
    /// from the map when necessary.
    none: Option<T>,
}

impl<T> View for Node<T> {
    type V = Nodes<T>;

    /// The nodes at and below this one, by their paths from here.
    closed spec fn view(&self) -> Nodes<T> {
        Map::new(|p: Seq<usize>| self.has_path(p), |p: Seq<usize>| self.slot(p))
    }
}

impl<T> Node<T> {
    /// The child that hangs at symbol `k`, if there is one.
    spec fn child_at(self, k: usize) -> Option<Node<T>> {
        if k < self.children@.len() {
            match self.children@[k as int] {
                Some(c) => Some(*c),
                None => None,
            }
        } else {
            None
        }
    }

    /// A node exists at the end of path `p`.
    spec fn has_path(self, p: Seq<usize>) -> bool
        decreases p.len(),
    {
        if p.len() == 0 {
            true
        } else {
            match self.child_at(p[0]) {
                Some(c) => c.has_path(p.skip(1)),
                None => false,
            }
        }
    }

    /// The value slot of the node at the end of path `p`.
    spec fn slot(self, p: Seq<usize>) -> Option<T>
        decreases p.len(),
    {
        if p.len() == 0 {
            self.value
        } else {
            match self.child_at(p[0]) {
                Some(c) => c.slot(p.skip(1)),
                None => None,
            }
        }
    }

    /// This node and all below it have exactly `n` child slots.
    spec fn uniform(self, n: nat) -> bool
        decreases self,
    {
        &&& self.children@.len() == n
        &&& forall|i: int|
            0 <= i < self.children@.len() ==> match #[trigger] self.children@[i] {
                Some(c) => c.uniform(n),
                None => true,
            }
    }

    /// `self` is `before` with `c` as its child at `k`.
    spec fn replaces_child(self, before: Node<T>, k: usize, c: Node<T>) -> bool {
        &&& self.value == before.value
        &&& self.children@ == before.children@.update(k as int, Some(Box::new(c)))
    }

    /// The number of child slots of this node.
    pub closed spec fn factor(self) -> nat {
        self.children@.len()
    }

    /// Every node of this subtree has as many child slots as this node.
    pub closed spec fn wf(self) -> bool {
        self.uniform(self.children@.len())
    }

    /// Well-formed, with branching factor `factor`.
    pub open spec fn wf_for(self, factor: usize) -> bool {
        self.wf() && self.factor() == factor
    }

    /// The root of a subtree is a node of it.
    pub proof fn lemma_view_root(self)
        ensures
            self@.dom().contains(Seq::<usize>::empty()),
    {
    }

    /// Every prefix of a path to a node is a path to a node.
    pub proof fn lemma_view_prefix_closed(self)
        ensures
            prefix_closed(self@),
    {
        assert forall|p: Seq<usize>, q: Seq<usize>|
            self@.dom().contains(p) && q.is_prefix_of(p) implies self@.dom().contains(q) by {
            self.lemma_prefix_has_path(p, q);
        }
    }

    /// In a well-formed subtree every symbol of every path lies below the
    /// branching factor.
    pub proof fn lemma_view_valid_keys(self)
        requires
            self.wf(),
        ensures
            forall|p: Seq<usize>| #[trigger]
                self@.dom().contains(p) ==> valid_key(p, self.factor()),
    {
        assert forall|p: Seq<usize>| #[trigger] self@.dom().contains(p) implies valid_key(
            p,
            self.factor(),
        ) by {
            self.lemma_path_valid(p, self.factor());
        }
    }

    proof fn lemma_prefix_has_path(self, p: Seq<usize>, q: Seq<usize>)
        requires
            self.has_path(p),
            q.is_prefix_of(p),
        ensures
            self.has_path(q),
        decreases p.len(),
    {
        if q.len() > 0 {
            let c = self.child_at(p[0])->Some_0;
            c.lemma_prefix_has_path(p.skip(1), q.skip(1));
        }
    }

    proof fn lemma_path_valid(self, p: Seq<usize>, n: nat)
        requires
            self.uniform(n),
            self.has_path(p),
        ensures
            valid_key(p, n),
        decreases p.len(),
    {
        if p.len() > 0 {
            let c = self.child_at(p[0])->Some_0;
            c.lemma_path_valid(p.skip(1), n);
            assert forall|i: int| 0 <= i < p.len() implies #[trigger] p[i] < n by {
                if i > 0 {
                    assert(p[i] == p.skip(1)[i - 1]);
                }
            }
        }
    }

    /// The view of a child is the part of the parent's view under its symbol.
    proof fn lemma_child_view(self, k: usize)
        ensures
            match self.child_at(k) {
                Some(c) => self@.dom().contains(seq![k]) && c@ == below(self@, seq![k]),
                None => !self@.dom().contains(seq![k]),
            },
    {
        let one = seq![k];
        if let Some(c) = self.child_at(k) {
            assert forall|p: Seq<usize>|
                c.has_path(p) == self.has_path(one + p) && c.slot(p) == self.slot(one + p) by {
                assert((one + p).skip(1) =~= p);
            }
            assert(self.has_path(one) == c.has_path(Seq::<usize>::empty()));
        }
    }

    /// A child of a well-formed node is well-formed, with the same
    /// branching factor.
    proof fn lemma_child_wf(self, k: usize)
        requires
            self.wf(),
        ensures
            match self.child_at(k) {
                Some(c) => c.wf() && c.factor() == self.factor(),
                None => true,
            },
    {
        reveal_with_fuel(Node::uniform, 2);
    }

    /// Replacing the value of a node replaces the root's slot in the view.
    proof fn lemma_replaced_value(self, after: Node<T>)
        requires
            after.children == self.children,
        ensures
            after@ == self@.insert(Seq::<usize>::empty(), after.value),
            after.wf() == self.wf(),
            after.factor() == self.factor(),
    {
        assert forall|p: Seq<usize>| p.len() == 0 implies p == Seq::<usize>::empty() by {}
    }

    /// Replacing the child at `k` replaces the part of the view under `k`.
    proof fn lemma_replaced_child(self, after: Node<T>, k: usize, c: Node<T>)
        requires
            k < self.children@.len(),
            after.replaces_child(self, k, c),
        ensures
            after@ == grafted(self@, seq![k], c@),
            after.factor() == self.factor(),
            self.wf() && c.wf() && c.factor() == self.factor() ==> after.wf(),
    {
        let one = seq![k];
        let g = grafted(self@, one, c@);
        assert forall|p: Seq<usize>|
            after.has_path(p) == g.dom().contains(p) && (after.has_path(p) ==> after.slot(p)
                == g[p]) by {
            if p.len() > 0 && p[0] != k {
                assert(one[0] != p.subrange(0, 1)[0]);
            }
        }
    }

    /// Whatever comes to stand as the child at `k`, the view changes under
    /// `k` alone, and the node stays well-formed if the child is.
    proof fn lemma_any_replaced_child(self, k: usize)
        requires
            k < self.children@.len(),
        ensures
            forall|after: Node<T>, c: Node<T>|
                #![trigger after@, c@]
                after.replaces_child(self, k, c) ==> {
                    &&& after@ == grafted(self@, seq![k], c@)
                    &&& after.factor() == self.factor()
                    &&& self.wf() && c.wf() && c.factor() == self.factor() ==> after.wf()
                },
    {
        assert forall|after: Node<T>, c: Node<T>|
            #![trigger after@, c@]
            after.replaces_child(self, k, c) implies {
            &&& after@ == grafted(self@, seq![k], c@)
            &&& after.factor() == self.factor()
            &&& self.wf() && c.wf() && c.factor() == self.factor() ==> after.wf()
        } by {
            self.lemma_replaced_child(after, k, c);
        }
    }

    /// Creates a new node with the given branching factor.
    pub fn new(factor: usize) -> (node: Self)
        ensures
            node.wf(),
            node.factor() == factor,
            node@ == leaf::<T>(),
    {
        let mut children: Vec<Option<Box<Node<T>>>> = Vec::with_capacity(factor);
        for i in 0..factor
            invariant
                children@.len() == i,
                forall|j: int| 0 <= j < i ==> children@[j] is None,
        {
            children.push(None);
        }
        let node = Node { value: None, children: children };
        proof {
            assert forall|p: Seq<usize>| node.has_path(p) <==> p == Seq::<usize>::empty() by {
                if p.len() == 0 {
                    assert(p =~= Seq::<usize>::empty());
                }
            }
        }
        node
    }

    /// Gets a cursor pointing to this node.
    pub fn cursor(&self) -> (cursor: Cursor<'_, T>)
        ensures
            cursor@ == self@,
            cursor.factor() == self.factor(),
            cursor.wf() == self.wf(),
    {
        Cursor { node: self }
    }

    /// Gets a mutable cursor pointing to this mutable node, with the given
    /// branching factor. (The branching factor is needed in order to
    /// create new nodes.)
    pub fn cursor_mut(&mut self, factor: usize) -> (cursor: CursorMut<'_, T>)
        ensures
            *cursor.node == *old(self),
            *final(cursor.node) == *final(self),
            cursor.factor == factor,
    {
        CursorMut { node: &mut *self, factor: factor }
    }

    /// Looks up a key in the trie, returning its value or the given default.
    ///
    /// Where the path of `key` ends at a node, the result is that node's
    /// value slot, empty or not; the default is returned only where the
    /// path leaves the trie.
    pub fn lookup<'a>(&'a self, key: &[usize], default: &'a Option<T>) -> (slot: &'a Option<T>)
        requires
            self.wf(),
            valid_key(key@, self.factor()),
        ensures
            *slot == if self@.dom().contains(key@) {
                self@[key@]
            } else {
                *default
            },
    {
        let mut cursor = self.cursor();
        let mut i: usize = 0;
        while i < key.len()
            invariant
                i <= key.len(),
                valid_key(key@, self.factor()),
                cursor.wf(),
                cursor.factor() == self.factor(),
                self@.dom().contains(key@.take(i as int)),
                cursor@ == below(self@, key@.take(i as int)),
            decreases key.len() - i,
        {
            proof {
                lemma_below_push(self@, key@.take(i as int), key@[i as int]);
                assert(key@.take(i as int).push(key@[i as int]) =~= key@.take(i + 1));
            }
            if !cursor.descend(key[i]) {
                proof {
                    self.lemma_view_prefix_closed();
                    assert(key@.take(i + 1).is_prefix_of(key@));
                }
                return default;
            }
            i += 1;
        }
        proof {
            assert(key@.take(i as int) =~= key@);
        }
        cursor.value()
    }
}

impl<'a, T> View for Cursor<'a, T> {
    type V = Nodes<T>;

    /// The nodes at and below the cursor, by their paths from the cursor.
    closed spec fn view(&self) -> Nodes<T> {
        self.node@
    }
}

impl<'a, T> Cursor<'a, T> {
    /// The branching factor of the node that the cursor points to.
    pub closed spec fn factor(self) -> nat {
        self.node.factor()
    }

    /// The subtree that the cursor points to is well-formed.
    pub closed spec fn wf(self) -> bool {
        self.node.wf()
    }

    /// Gets the value of the node this cursor points to.
    pub fn value(&self) -> (value: &'a Option<T>)
        ensures
            self@.dom().contains(Seq::<usize>::empty()),
            *value == self@[Seq::<usize>::empty()],
    {
        proof {
            self.node.lemma_view_root();
        }
        &self.node.value
    }

    /// Gets a cursor to the `key`th child.
    pub fn child(&self, key: usize) -> (child: Option<Self>)
        requires
            self.wf(),
            key < self.factor(),
        ensures
            match child {
                Some(c) => {
                    &&& self@.dom().contains(seq![key])
                    &&& c@ == below(self@, seq![key])
                    &&& c.wf()
                    &&& c.factor() == self.factor()
                },
                None => !self@.dom().contains(seq![key]),
            },
    {
        proof {
            self.node.lemma_child_view(key);
            self.node.lemma_child_wf(key);
        }
        match &self.node.children[key] {
            Some(child) => Some(child.cursor()),
            None => None,
        }
    }

    /// Updates this cursor to point to the `key`th child.
    /// Returns whether the cursor actually moved; the result will be
    /// `false` if the child doesn't exist.
    pub fn descend(&mut self, key: usize) -> (moved: bool)
        requires
            old(self).wf(),
            key < old(self).factor(),
        ensures
            moved == old(self)@.dom().contains(seq![key]),
            moved ==> final(self)@ == below(old(self)@, seq![key]),
            !moved ==> *final(self) == *old(self),
            final(self).wf(),
            final(self).factor() == old(self).factor(),
    {
        match self.child(key) {
            None => false,
            Some(cursor) => {
                *self = cursor;
                true
            },
        }
    }
}

impl<'a, T> CursorMut<'a, T> {
    /// The subtree that the cursor points to is well-formed, and its
    /// branching factor is the one that the cursor carries.
    pub open spec fn wf(self) -> bool {
        self.node.wf_for(self.factor)
    }

    /// Borrows an immutable cursor from this mutable cursor.
    pub fn freeze(&self) -> (cursor: Cursor<'_, T>)
        ensures
            cursor@ == old(self.node)@,
            cursor.factor() == old(self.node).factor(),
            cursor.wf() == old(self.node).wf(),
    {
        self.node.cursor()
    }

    /// Gets the value of the node this cursor points to.
    ///
    /// What the caller leaves in the slot becomes the value of the node;
    /// nothing else changes.
    pub fn value(&mut self) -> (value: &mut Option<T>)
        ensures
            old(self).node@.dom().contains(Seq::<usize>::empty()),
            *value == old(self).node@[Seq::<usize>::empty()],
            final(self).node@ == old(self).node@.insert(Seq::<usize>::empty(), *final(value)),
            final(self).node.wf() == old(self).node.wf(),
            final(self).node.factor() == old(self).node.factor(),
            final(self).factor == old(self).factor,
            *final(final(self).node) == *final(old(self).node),
    {
        proof {
            let before = *self.node;
            assert forall|after: Node<T>| after.children == before.children implies #[trigger] after@
                == before@.insert(Seq::<usize>::empty(), after.value) && after.wf() == before.wf()
                && after.factor() == before.factor() by {
                before.lemma_replaced_value(after);
            }
        }
        &mut self.node.value
    }

    /// Borrows a cursor to the `key`th child.
    ///
    /// Where the child exists, this cursor stands, once the child cursor is
    /// gone, on the same node with whatever the child cursor left below
    /// `key`. Where it does not, nothing is created.
    pub fn child(&'a mut self, key: usize) -> (child: Option<Self>)
        requires
            old(self).wf(),
            key < old(self).factor,
        ensures
            final(self).factor == old(self).factor,
            final(self).node.factor() == old(self).node.factor(),
            *final(final(self).node) == *final(old(self).node),
            match child {
                Some(c) => {
                    &&& old(self).node@.dom().contains(seq![key])
                    &&& c.node@ == below(old(self).node@, seq![key])
                    &&& c.factor == old(self).factor
                    &&& c.wf()
                    &&& final(self).node@ == grafted(old(self).node@, seq![key], final(c.node)@)
                    &&& final(c.node).wf_for(c.factor) ==> final(self).wf()
                },
                None => {
                    &&& !old(self).node@.dom().contains(seq![key])
                    &&& *final(self).node == *old(self).node
                },
            },
    {
        let factor = self.factor;
        proof {
            self.node.lemma_child_view(key);
            self.node.lemma_child_wf(key);
            self.node.lemma_any_replaced_child(key);
        }
        if self.node.children[key].is_none() {
            return None;
        }
        let child = self.node.children[key].as_mut().unwrap();
        Some(child.cursor_mut(factor))
    }

    /// Consumes a cursor, returning a cursor to the `key`th child.
    ///
    /// Where the child exists, the node that this cursor stood on ends with
    /// whatever the child cursor leaves below `key`. Where it does not,
    /// nothing is created and the node stays as it is.
    pub fn into_child(self, key: usize) -> (child: Option<Self>)
        requires
            self.wf(),
            key < self.factor,
        ensures
            final(self.node).factor() == old(self.node).factor(),
            match child {
                Some(c) => {
                    &&& old(self.node)@.dom().contains(seq![key])
                    &&& c.node@ == below(old(self.node)@, seq![key])
                    &&& c.factor == self.factor
                    &&& c.wf()
                    &&& final(self.node)@ == grafted(old(self.node)@, seq![key], final(c.node)@)
                    &&& final(c.node).wf_for(c.factor) ==> final(self.node).wf_for(self.factor)
                },
                None => {
                    &&& !old(self.node)@.dom().contains(seq![key])
                    &&& *final(self.node) == *old(self.node)
                },
            },
    {
        let factor = self.factor;
        proof {
            self.node.lemma_child_view(key);
            self.node.lemma_child_wf(key);
            self.node.lemma_any_replaced_child(key);
        }
        if self.node.children[key].is_none() {
            return None;
        }
        let child = self.node.children[key].as_mut().unwrap();
        Some(child.cursor_mut(factor))
    }

    /// Adds a child at the given key position, if there isn't one
    /// already, and returns a `CursorMut` pointing to the child.
    ///
    /// The child cursor stands on the subtree that was below `key`, or on a
    /// fresh leaf. Once it is gone, this cursor stands on the same node with
    /// whatever the child cursor left below `key`.
    pub fn child_add(&'a mut self, key: usize) -> (child: Self)
        requires
            old(self).wf(),
            key < old(self).factor,
        ensures
            child.node@ == below_or_leaf(old(self).node@, seq![key]),
            child.factor == old(self).factor,
            child.wf(),
            final(self).node@ == grafted(old(self).node@, seq![key], final(child.node)@),
            final(self).factor == old(self).factor,
            final(self).node.factor() == old(self).node.factor(),
            final(child.node).wf_for(child.factor) ==> final(self).wf(),
            *final(final(self).node) == *final(old(self).node),
    {
        let factor = self.factor;
        proof {
            self.node.lemma_child_view(key);
            self.node.lemma_child_wf(key);
            self.node.lemma_any_replaced_child(key);
        }
        let slot = &mut self.node.children[key];
        if slot.is_none() {
            *slot = Some(Box::new(Node::new(factor)));
        }
        let child = slot.as_mut().unwrap();
        child.cursor_mut(factor)
    }

    /// Consumes the cursor and adds a child at the given key position
    /// if there isn't one already, returning a `CursorMut` pointing
    /// to the child.
    ///
    /// The child cursor stands on the subtree that was below `key`, or on a
    /// fresh leaf. The node that this cursor stood on ends with whatever
    /// the child cursor leaves below `key`.
    pub fn into_child_add(self, key: usize) -> (child: Self)
        requires
            self.wf(),
            key < self.factor,
        ensures
            child.node@ == below_or_leaf(old(self.node)@, seq![key]),
            child.factor == self.factor,
            child.wf(),
            final(self.node)@ == grafted(old(self.node)@, seq![key], final(child.node)@),
            final(self.node).factor() == old(self.node).factor(),
            final(child.node).wf_for(child.factor) ==> final(self.node).wf_for(self.factor),
    {
        let factor = self.factor;
        proof {
            self.node.lemma_child_view(key);
            self.node.lemma_child_wf(key);
            self.node.lemma_any_replaced_child(key);
        }
        let slot = &mut self.node.children[key];
        if slot.is_none() {
            *slot = Some(Box::new(Node::new(factor)));
        }
        let child = slot.as_mut().unwrap();
        child.cursor_mut(factor)
    }
}

impl<T> View for TrieMap<T> {
    type V = Map<Seq<usize>, T>;

    /// The keys that hold a value, each with its value.
    open spec fn view(&self) -> Map<Seq<usize>, T> {
        stored(self.nodes())
    }
}

impl<T> TrieMap<T> {
    /// The nodes of the trie: every path that leads to a node, with the
    /// optional value which that node holds.
    pub closed spec fn nodes(self) -> Nodes<T> {
        self.node@
    }

    /// The branching factor: keys are made of symbols in `[0, factor)`.
    pub closed spec fn factor(self) -> usize {
        self.factor
    }

    /// Every node has `factor` child slots, and the placeholder is empty.
    pub closed spec fn wf(self) -> bool {
        self.node.wf_for(self.factor) && self.none is None
    }

    /// What holds of the nodes of every trie: the root is a node, every
    /// prefix of a path to a node leads to a node, and in a well-formed trie
    /// every path is made of symbols below the branching factor.
    pub proof fn lemma_nodes(self)
        ensures
            self.nodes().dom().contains(Seq::<usize>::empty()),
            prefix_closed(self.nodes()),
            self.wf() ==> forall|p: Seq<usize>| #[trigger]
                self.nodes().dom().contains(p) ==> valid_key(p, self.factor() as nat),
    {
        self.node.lemma_view_root();
        self.node.lemma_view_prefix_closed();
        if self.wf() {
            self.node.lemma_view_valid_keys();
        }
    }

    /// Creates a new, empty `TrieMap` with the given branching factor.
    pub fn new(factor: usize) -> (map: Self)
        ensures
            map.wf(),
            map.factor() == factor,
            map.nodes() == leaf::<T>(),
            map@ == Map::<Seq<usize>, T>::empty(),
    {
        let map = TrieMap { node: Node::new(factor), factor: factor, none: None };
        map
    }

    /// Returns a cursor pointing to the root of the trie.
    pub fn cursor(&self) -> (cursor: Cursor<'_, T>)
        ensures
            cursor@ == self.nodes(),
            self.wf() ==> cursor.wf() && cursor.factor() == self.factor(),
    {
        self.node.cursor()
    }

    /// Returns a mutable cursor pointing to the root of the trie.
    ///
    /// The trie ends with the nodes that the cursor leaves, and is
    /// well-formed if they are.
    pub fn cursor_mut(&mut self) -> (cursor: CursorMut<'_, T>)
        ensures
            cursor.node@ == old(self).nodes(),
            cursor.factor == old(self).factor(),
            old(self).wf() ==> cursor.wf(),
            final(self).nodes() == final(cursor.node)@,
            final(self).factor() == old(self).factor(),
            old(self).wf() && final(cursor.node).wf_for(cursor.factor) ==> final(self).wf(),
    {
        self.node.cursor_mut(self.factor)
    }

    /// Stores `value` at `key`: descends from the root along `key`, adding
    /// the nodes that are missing, and writes the value at the last node.
    pub fn insert(&mut self, key: &[usize], value: T)
        requires
            old(self).wf(),
            valid_key(key@, old(self).factor() as nat),
        ensures
            final(self).wf(),
            final(self).factor() == old(self).factor(),
            final(self).nodes() == inserted(old(self).nodes(), key@, value),
            final(self)@ == old(self)@.insert(key@, value),
    {
        let ghost orig = self.node@;
        let factor = self.factor;
        proof {
            self.node.lemma_view_prefix_closed();
            self.node.lemma_view_root();
        }
        let mut cursor = self.node.cursor_mut(factor);
        proof {
            lemma_grafted_empty(extended(orig, Seq::<usize>::empty()), final(cursor.node)@);
        }
        let mut i: usize = 0;
        while i < key.len()
            invariant
                i <= key.len(),
                valid_key(key@, factor as nat),
                prefix_closed(orig),
                cursor.factor == factor,
                cursor.wf(),
                cursor.node@ == below_or_leaf(orig, key@.take(i as int)),
                after_borrow(self.node)@ == grafted(
                    extended(orig, key@.take(i as int)),
                    key@.take(i as int),
                    final(cursor.node)@,
                ),
                final(cursor.node).wf_for(factor) ==> after_borrow(self.node).wf_for(factor),
            decreases key.len() - i,
        {
            cursor = cursor.into_child_add(key[i]);
            proof {
                lemma_grafted_push(orig, key@.take(i as int), key@[i as int], final(cursor.node)@);
                assert(key@.take(i as int).push(key@[i as int]) =~= key@.take(i + 1));
            }
            i += 1;
        }
        proof {
            lemma_grafted_value(orig, key@, value);
            lemma_stored_inserted(orig, key@, value);
        }
        *cursor.value() = Some(value);
    }

    /// Checks whether the trie contains a particular key.
    ///
    /// A key whose path leaves the trie and a key whose node holds no value
    /// are both absent.
    pub fn contains(&self, key: &[usize]) -> (present: bool)
        requires
            self.wf(),
            valid_key(key@, self.factor() as nat),
        ensures
            present == self@.dom().contains(key@),
            present == (self.nodes().dom().contains(key@) && self.nodes()[key@] is Some),
    {
        self.index(key).is_some()
    }
}

impl<'a, T> vstd::std_specs::core::IndexSpecImpl<&'a [usize]> for TrieMap<T> {
    /// Indexing asks for a well-formed trie and a key of symbols below the
    /// branching factor.
    open spec fn index_req(&self, key: &&[usize]) -> bool {
        self.wf() && valid_key(key@, self.factor() as nat)
    }
}

impl<'a, T> Index<&'a [usize]> for TrieMap<T> {
    type Output = Option<T>;

    /// The value slot of the node at `key`, or the empty placeholder where
    /// the path of `key` leaves the trie: the value stored at `key`, if any.
    fn index(&self, key: &[usize]) -> (slot: &Option<T>)
        ensures
            *slot == if self.nodes().dom().contains(key@) {
                self.nodes()[key@]
            } else {
                None
            },
            *slot == found(self@, key@),
    {
        self.node.lookup(key, &self.none)
    }
}

} // verus!
