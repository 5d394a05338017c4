//! A vertex of the search tree and the subtree that it roots.
//!
//! A subtree is an `Option<Box<Node>>`: absent, or a node with its own two
//! subtrees. The free spec functions of this module speak of such optional
//! subtrees, the spec functions of [`Node`] of a subtree that is present.

use crate::errors::Errors;
use vstd::prelude::*;

verus! {

/// One entry of the tree, owning the subtrees to its left and right.
#[derive(Debug)]
pub struct Node {
    pub left: Option<Box<Node>>,
    pub right: Option<Box<Node>>,
    pub key: i32,
    pub value: i32,
}

impl View for Node {
    type V = Map<i32, i32>;

    /// The map from keys to values that the subtree rooted here holds.
    open spec fn view(&self) -> Map<i32, i32> {
        self.entries()
    }
}

/// The map from keys to values that an optional subtree holds.
pub open spec fn entries(tree: Option<Box<Node>>) -> Map<i32, i32>
    decreases tree,
{
    match tree {
        None => Map::empty(),
        Some(node) => node.entries(),
    }
}

/// Whether an optional subtree keeps the search-tree invariant.
pub open spec fn well_formed(tree: Option<Box<Node>>) -> bool
    decreases tree,
{
    match tree {
        None => true,
        Some(node) => node.well_formed(),
    }
}

/// The optional subtree with `entry`, a pair of value and key, added: a new
/// leaf where the search for the key ends, or the same subtree if the key is
/// already bound.
pub open spec fn inserted(tree: Option<Box<Node>>, entry: (i32, i32)) -> Node
    decreases tree,
{
    match tree {
        None => Node::leaf(entry),
        Some(node) => node.inserted(entry),
    }
}

/// The optional subtree with the entry of `key` taken out, or the same
/// subtree if the key is not bound.
pub open spec fn removed(tree: Option<Box<Node>>, key: i32) -> Option<Box<Node>>
    decreases tree,
{
    match tree {
        None => None,
        Some(node) => node.removed(key),
    }
}

/// What looking `key` up among `entries` answers: the value bound to it, or
/// `KeyNotFound`.
pub open spec fn lookup(entries: Map<i32, i32>, key: i32) -> Result<i32, Errors> {
    if entries.contains_key(key) {
        Ok(entries[key])
    } else {
        Err(Errors::KeyNotFound)
    }
}

/// What adding an entry for `key` to `entries` answers: `DuplicateKey` if
/// the key is bound already.
pub open spec fn vacancy(entries: Map<i32, i32>, key: i32) -> Result<(), Errors> {
    if entries.contains_key(key) {
        Err(Errors::DuplicateKey)
    } else {
        Ok(())
    }
}

impl Node {
    /// The map from keys to values that the subtree rooted here holds.
    pub open spec fn entries(self) -> Map<i32, i32>
        decreases self,
    {
        entries(self.left).union_prefer_right(entries(self.right)).insert(self.key, self.value)
    }

    /// The search-tree invariant of the subtree rooted here: at every node,
    /// all keys to the left are smaller and all keys to the right are
    /// greater than the node's own.
    pub open spec fn well_formed(self) -> bool
        decreases self,
    {
        &&& forall|k: i32| entries(self.left).contains_key(k) ==> k < self.key
        &&& forall|k: i32| entries(self.right).contains_key(k) ==> self.key < k
        &&& well_formed(self.left)
        &&& well_formed(self.right)
    }

    /// A node without children that binds `entry.1`, the key, to `entry.0`,
    /// the value.
    pub open spec fn leaf(entry: (i32, i32)) -> Node {
        Node { left: None, right: None, key: entry.1, value: entry.0 }
    }

    /// This subtree with `entry`, a pair of value and key, added below it.
    /// Only the child on the search path changes; a key that is already
    /// bound changes nothing.
    pub open spec fn inserted(self, entry: (i32, i32)) -> Node
        decreases self,
    {
        if entry.1 < self.key {
            Node { left: Some(Box::new(inserted(self.left, entry))), ..self }
        } else if entry.1 > self.key {
            Node { right: Some(Box::new(inserted(self.right, entry))), ..self }
        } else {
            self
        }
    }

    /// The node reached by following left children to the end.
    pub open spec fn leftmost(self) -> Node
        decreases self,
    {
        match self.left {
            None => self,
            Some(child) => child.leftmost(),
        }
    }

    /// The node reached by following right children to the end.
    pub open spec fn rightmost(self) -> Node
        decreases self,
    {
        match self.right {
            None => self,
            Some(child) => child.rightmost(),
        }
    }

    /// What takes this subtree's place once the entry of `key` is removed.
    ///
    /// A smaller or greater key is removed from the left or right subtree.
    /// For the node's own key, a node with at most one child gives way to
    /// that child, if any. A node with two children takes over key and value
    /// of its in-order successor, the leftmost node of its right subtree,
    /// and the successor is removed from there.
    pub open spec fn removed(self, key: i32) -> Option<Box<Node>>
        decreases self,
    {
        if key < self.key {
            Some(Box::new(Node { left: removed(self.left, key), ..self }))
        } else if key > self.key {
            Some(Box::new(Node { right: removed(self.right, key), ..self }))
        } else {
            match (self.left, self.right) {
                (None, None) => None,
                (Some(child), None) => Some(child),
                (None, Some(child)) => Some(child),
                (Some(below), Some(above)) => {
                    let next = above.leftmost();
                    Some(
                        Box::new(
                            Node {
                                left: Some(below),
                                right: above.removed(next.key),
                                key: next.key,
                                value: next.value,
                            },
                        ),
                    )
                },
            }
        }
    }

    /// Adding an entry keeps the invariant. It binds the key to the value if
    /// the key was not bound, and changes nothing if it was.
    pub proof fn lemma_inserted(self, entry: (i32, i32))
        requires
            self.well_formed(),
        ensures
            self.inserted(entry).well_formed(),
            self@.contains_key(entry.1) ==> self.inserted(entry) == self,
            !self@.contains_key(entry.1) ==> self.inserted(entry)@ == self@.insert(
                entry.1,
                entry.0,
            ),
        decreases self,
    {
        let after = self.inserted(entry);
        if entry.1 < self.key {
            if let Some(child) = self.left {
                child.lemma_inserted(entry);
            }
            assert(!entries(self.right).contains_key(entry.1));
            assert(well_formed(after.left));
            assert(after.left == self.left || entries(after.left) =~= entries(self.left).insert(
                entry.1,
                entry.0,
            ));
        } else if entry.1 > self.key {
            if let Some(child) = self.right {
                child.lemma_inserted(entry);
            }
            assert(!entries(self.left).contains_key(entry.1));
            assert(well_formed(after.right));
            assert(after.right == self.right || entries(after.right) =~= entries(
                self.right,
            ).insert(entry.1, entry.0));
        }
    }

    /// The leftmost node holds the least key of a well-formed subtree, with
    /// the value bound to it, and has no left child.
    pub proof fn lemma_leftmost(self)
        requires
            self.well_formed(),
        ensures
            self.leftmost().left is None,
            self@.contains_key(self.leftmost().key),
            self@[self.leftmost().key] == self.leftmost().value,
            forall|k: i32| self@.contains_key(k) ==> self.leftmost().key <= k,
        decreases self,
    {
        let least = self.leftmost().key;
        if let Some(child) = self.left {
            child.lemma_leftmost();
            assert(entries(self.left).contains_key(least));
            assert(!entries(self.right).contains_key(least));
        }
        assert forall|k: i32| self@.contains_key(k) implies least <= k by {
            assert(k == self.key || entries(self.left).contains_key(k) || entries(
                self.right,
            ).contains_key(k));
        }
    }

    /// The rightmost node holds the greatest key of a well-formed subtree,
    /// with the value bound to it, and has no right child.
    pub proof fn lemma_rightmost(self)
        requires
            self.well_formed(),
        ensures
            self.rightmost().right is None,
            self@.contains_key(self.rightmost().key),
            self@[self.rightmost().key] == self.rightmost().value,
            forall|k: i32| self@.contains_key(k) ==> k <= self.rightmost().key,
        decreases self,
    {
        let greatest = self.rightmost().key;
        if let Some(child) = self.right {
            child.lemma_rightmost();
            assert(entries(self.right).contains_key(greatest));
        }
        assert forall|k: i32| self@.contains_key(k) implies k <= greatest by {
            assert(k == self.key || entries(self.left).contains_key(k) || entries(
                self.right,
            ).contains_key(k));
        }
    }

    /// Removing a key keeps the invariant. It unbinds that key and no other,
    /// and changes nothing if the key was not bound.
    pub proof fn lemma_removed(self, key: i32)
        requires
            self.well_formed(),
        ensures
            well_formed(self.removed(key)),
            entries(self.removed(key)) == self@.remove(key),
            !self@.contains_key(key) ==> self.removed(key) == Some(Box::new(self)),
        decreases self,
    {
        if key < self.key {
            if let Some(child) = self.left {
                child.lemma_removed(key);
            }
            assert(entries(removed(self.left, key)) =~= entries(self.left).remove(key));
            assert(!entries(self.right).contains_key(key));
        } else if key > self.key {
            if let Some(child) = self.right {
                child.lemma_removed(key);
            }
            assert(entries(removed(self.right, key)) =~= entries(self.right).remove(key));
            assert(!entries(self.left).contains_key(key));
        } else {
            assert(!entries(self.left).contains_key(key));
            assert(!entries(self.right).contains_key(key));
            if let (Some(_), Some(above)) = (self.left, self.right) {
                // The successor is the least key above, so it is greater
                // than all keys below and smaller than the rest above.
                let next = above.leftmost();
                above.lemma_leftmost();
                above.lemma_removed(next.key);
                assert(entries(self.right).contains_key(next.key));
                assert(!entries(self.left).contains_key(next.key));
                assert forall|k: i32| entries(above.removed(next.key)).contains_key(
                    k,
                ) implies next.key < k by {
                    assert(above@.contains_key(k) && k != next.key);
                }
            }
        }
        assert(entries(self.removed(key)) =~= self@.remove(key));
    }

    /// Makes a node without children from `entry`, a pair of value and key.
    pub fn new(entry: (i32, i32)) -> (node: Box<Node>)
        ensures
            *node == Node::leaf(entry),
            node.well_formed(),
            node@ == Map::<i32, i32>::empty().insert(entry.1, entry.0),
    {
        Box::new(Node { left: None, right: None, key: entry.1, value: entry.0 })
    }

    /// Adds `entry` to the left subtree.
    fn add_left(&mut self, entry: (i32, i32)) -> (res: Result<(), Errors>)
        requires
            well_formed(old(self).left),
        ensures
            res == vacancy(entries(old(self).left), entry.1),
            *final(self) == (Node {
                left: Some(Box::new(inserted(old(self).left, entry))),
                ..*old(self)
            }),
        decreases *old(self), 0int,
    {
        if let Some(child) = &mut self.left {
            child.add(entry)
        } else {
            self.left = Some(Node::new(entry));
            Ok(())
        }
    }

    /// Adds `entry` to the right subtree.
    fn add_right(&mut self, entry: (i32, i32)) -> (res: Result<(), Errors>)
        requires
            well_formed(old(self).right),
        ensures
            res == vacancy(entries(old(self).right), entry.1),
            *final(self) == (Node {
                right: Some(Box::new(inserted(old(self).right, entry))),
                ..*old(self)
            }),
        decreases *old(self), 0int,
    {
        if let Some(child) = &mut self.right {
            child.add(entry)
        } else {
            self.right = Some(Node::new(entry));
            Ok(())
        }
    }

    /// Adds `entry`, a pair of value and key, below this node.
    ///
    /// A key that is not yet bound gets a new leaf where the search for it
    /// ends, and nothing else changes. A key that is already bound is
    /// refused with `DuplicateKey`, and the subtree stays as it was.
    pub fn add(&mut self, entry: (i32, i32)) -> (res: Result<(), Errors>)
        requires
            old(self).well_formed(),
        ensures
            final(self).well_formed(),
            res == vacancy(old(self)@, entry.1),
            *final(self) == old(self).inserted(entry),
            res is Ok ==> final(self)@ == old(self)@.insert(entry.1, entry.0),
            res is Err ==> *final(self) == *old(self),
        decreases *old(self), 1int,
    {
        proof {
            self.lemma_inserted(entry);
        }
        if entry.1 < self.key {
            assert(!entries(self.right).contains_key(entry.1));
            self.add_left(entry)
        } else if entry.1 > self.key {
            assert(!entries(self.left).contains_key(entry.1));
            self.add_right(entry)
        } else {
            Err(Errors::DuplicateKey)
        }
    }

    /// Looks `key` up in the left subtree.
    fn get_left(&self, key: i32) -> (res: Result<i32, Errors>)
        requires
            well_formed(self.left),
        ensures
            res == lookup(entries(self.left), key),
        decreases self, 0int,
    {
        if let Some(child) = &self.left {
            child.get(key)
        } else {
            Err(Errors::KeyNotFound)
        }
    }

    /// Looks `key` up in the right subtree.
    fn get_right(&self, key: i32) -> (res: Result<i32, Errors>)
        requires
            well_formed(self.right),
        ensures
            res == lookup(entries(self.right), key),
        decreases self, 0int,
    {
        if let Some(child) = &self.right {
            child.get(key)
        } else {
            Err(Errors::KeyNotFound)
        }
    }

    /// Looks up the value bound to `key` in the subtree rooted here.
    ///
    /// Fails with `KeyNotFound` exactly when the key is not bound.
    pub fn get(&self, key: i32) -> (res: Result<i32, Errors>)
        requires
            self.well_formed(),
        ensures
            res == lookup(self@, key),
        decreases self, 1int,
    {
        if key < self.key {
            assert(!entries(self.right).contains_key(key));
            self.get_left(key)
        } else if key > self.key {
            assert(!entries(self.left).contains_key(key));
            self.get_right(key)
        } else {
            Ok(self.value)
        }
    }

    /// The last node on the way down through right children. In a
    /// well-formed subtree it holds the greatest key.
    pub fn get_last_right(&self) -> (last: &Node)
        ensures
            *last == self.rightmost(),
            last.right is None,
            self.well_formed() ==> lookup(self@, last.key) == Ok::<i32, Errors>(last.value)
                && forall|k: i32| self@.contains_key(k) ==> k <= last.key,
        decreases self,
    {
        proof {
            if self.well_formed() {
                self.lemma_rightmost();
            }
        }
        match &self.right {
            Some(child) => child.get_last_right(),
            None => self,
        }
    }

    /// The last node on the way down through left children. In a
    /// well-formed subtree it holds the least key.
    pub fn get_last_left(&self) -> (last: &Node)
        ensures
            *last == self.leftmost(),
            last.left is None,
            self.well_formed() ==> lookup(self@, last.key) == Ok::<i32, Errors>(last.value)
                && forall|k: i32| self@.contains_key(k) ==> last.key <= k,
        decreases self,
    {
        proof {
            if self.well_formed() {
                self.lemma_leftmost();
            }
        }
        match &self.left {
            Some(child) => child.get_last_left(),
            None => self,
        }
    }

    /// Removes the entry of `target_key` from the subtree rooted here and
    /// hands back what takes the subtree's place, with the removed value.
    ///
    /// If the key is not bound, the subtree comes back unchanged, with
    /// `KeyNotFound`.
    pub fn remove_node(mut self: Box<Self>, target_key: i32) -> (out: (
        Option<Box<Node>>,
        Result<i32, Errors>,
    ))
        requires
            self.well_formed(),
        ensures
            well_formed(out.0),
            out.0 == self.removed(target_key),
            out.1 == lookup(self@, target_key),
            entries(out.0) == self@.remove(target_key),
            out.1 is Err ==> out.0 == Some(self),
        decreases self, 2int,
    {
        proof {
            self.lemma_removed(target_key);
        }
        if self.key == target_key {
            let val = self.value;
            let node = *self;
            (
                match (node.left, node.right) {
                    (None, None) => None,
                    (Some(child), None) => Some(child),
                    (None, Some(child)) => Some(child),
                    (Some(child_left), Some(child_right)) => {
                        let key = child_right.get_last_left().key;
                        let (rest, taken) = child_right.remove_node(key);
                        let value = taken.unwrap();
                        Some(Box::new(Node { value, key, left: Some(child_left), right: rest }))
                    },
                },
                Ok(val),
            )
        } else {
            let resp = self.remove(target_key);
            (Some(self), resp)
        }
    }

    /// Removes the entry of `target_key` from the left subtree.
    fn remove_left(&mut self, target_key: i32) -> (res: Result<i32, Errors>)
        requires
            well_formed(old(self).left),
        ensures
            res == lookup(entries(old(self).left), target_key),
            *final(self) == (Node { left: removed(old(self).left, target_key), ..*old(self) }),
        decreases *old(self), 0int,
    {
        let left = self.left.take();
        let (new_left, outcome) = if let Some(child) = left {
            child.remove_node(target_key)
        } else {
            (None, Err(Errors::KeyNotFound))
        };
        self.left = new_left;
        outcome
    }

    /// Removes the entry of `target_key` from the right subtree.
    fn remove_right(&mut self, target_key: i32) -> (res: Result<i32, Errors>)
        requires
            well_formed(old(self).right),
        ensures
            res == lookup(entries(old(self).right), target_key),
            *final(self) == (Node { right: removed(old(self).right, target_key), ..*old(self) }),
        decreases *old(self), 0int,
    {
        let right = self.right.take();
        let (new_right, outcome) = if let Some(child) = right {
            child.remove_node(target_key)
        } else {
            (None, Err(Errors::KeyNotFound))
        };
        self.right = new_right;
        outcome
    }

    /// Removes the entry of `key` from below this node and hands back its
    /// value.
    ///
    /// A node cannot give up its own place: for its own key it answers
    /// `WrongLevel` and changes nothing. Any other key is removed from the
    /// left or right subtree; if it is not bound there, the answer is
    /// `KeyNotFound` and nothing changes.
    pub fn remove(&mut self, key: i32) -> (res: Result<i32, Errors>)
        requires
            old(self).well_formed(),
        ensures
            final(self).well_formed(),
            res == (if key == old(self).key {
                Err(Errors::WrongLevel)
            } else {
                lookup(old(self)@, key)
            }),
            key != old(self).key ==> Some(Box::new(*final(self))) == old(self).removed(key),
            res is Ok ==> final(self)@ == old(self)@.remove(key),
            res is Err ==> *final(self) == *old(self),
        decreases *old(self), 1int,
    {
        proof {
            self.lemma_removed(key);
        }
        if key < self.key {
            assert(!entries(self.right).contains_key(key));
            self.remove_left(key)
        } else if key > self.key {
            assert(!entries(self.left).contains_key(key));
            self.remove_right(key)
        } else {
            Err(Errors::WrongLevel)
        }
    }
}

} // verus!
