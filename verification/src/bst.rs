//! The container: an optional root node and the three operations on it,
//! `add`, `get` and `remove`.
//!
//! Each operation says which tree it leaves behind and what it answers,
//! through spec functions of [`BST`]. The proof functions of this module
//! state, over those spec functions, what holds of the operations taken
//! together.

use crate::errors::Errors;
use crate::node::{entries, inserted, lookup, removed, vacancy, well_formed, Node};
use crate::walk::{in_order, lemma_in_order, strictly_increasing};
use vstd::prelude::*;

verus! {

/// A binary search tree from `i32` keys to `i32` values. It is empty
/// exactly when it has no root.
pub struct BST {
    pub root: Option<Box<Node>>,
}

/// One step in a history of calls that change a tree.
pub enum Operation {
    /// A call of `add` with this value and this key.
    Add(i32, i32),
    /// A call of `remove` with this key.
    Remove(i32),
}

impl View for BST {
    type V = Map<i32, i32>;

    /// The map from keys to values that the tree holds.
    open spec fn view(&self) -> Map<i32, i32> {
        entries(self.root)
    }
}

impl BST {
    /// The search-tree invariant of the whole tree.
    pub open spec fn well_formed(self) -> bool {
        well_formed(self.root)
    }

    /// The tree without entries.
    pub open spec fn empty() -> BST {
        BST { root: None }
    }

    /// What `add` answers for `entry`, a pair of value and key.
    pub open spec fn add_result(self, entry: (i32, i32)) -> Result<(), Errors> {
        vacancy(self@, entry.1)
    }

    /// The tree that `add` leaves behind for `entry`, a pair of value and
    /// key.
    pub open spec fn inserted(self, entry: (i32, i32)) -> BST {
        BST { root: Some(Box::new(inserted(self.root, entry))) }
    }

    /// What `get` answers for `key`, and what `remove` answers for it too:
    /// the value bound to the key, `EmptyTree` if no key is bound at all,
    /// `KeyNotFound` if others are but not this one.
    pub open spec fn get_result(self, key: i32) -> Result<i32, Errors> {
        match self.root {
            None => Err(Errors::EmptyTree),
            Some(_) => lookup(self@, key),
        }
    }

    /// The tree that `remove` leaves behind for `key`.
    pub open spec fn removed(self, key: i32) -> BST {
        BST { root: removed(self.root, key) }
    }

    /// The tree that one operation leaves behind, whether it succeeds or is
    /// refused.
    pub open spec fn after(self, op: Operation) -> BST {
        match op {
            Operation::Add(value, key) => self.inserted((value, key)),
            Operation::Remove(key) => self.removed(key),
        }
    }

    /// The tree that a history of operations leaves behind, the first of
    /// them applied first.
    pub open spec fn after_all(self, ops: Seq<Operation>) -> BST
        decreases ops.len(),
    {
        if ops.len() == 0 {
            self
        } else {
            self.after(ops.first()).after_all(ops.drop_first())
        }
    }

    /// Adding an entry keeps the invariant. It binds the key to the value
    /// if the key was not bound, and changes nothing if it was.
    pub proof fn lemma_inserted(self, entry: (i32, i32))
        requires
            self.well_formed(),
        ensures
            self.inserted(entry).well_formed(),
            self.add_result(entry) is Ok ==> self.inserted(entry)@ == self@.insert(
                entry.1,
                entry.0,
            ),
            self.add_result(entry) is Err ==> self.inserted(entry) == self,
    {
        match self.root {
            Some(node) => node.lemma_inserted(entry),
            None => assert(self.inserted(entry)@ =~= self@.insert(entry.1, entry.0)),
        }
    }

    /// Removing a key keeps the invariant. It unbinds that key and no
    /// other, and changes nothing if the key was not bound.
    pub proof fn lemma_removed(self, key: i32)
        requires
            self.well_formed(),
        ensures
            self.removed(key).well_formed(),
            self.removed(key)@ == self@.remove(key),
            self.get_result(key) is Err ==> self.removed(key) == self,
    {
        match self.root {
            Some(node) => node.lemma_removed(key),
            None => assert(self.removed(key)@ =~= self@.remove(key)),
        }
    }

    /// The tree is empty exactly when it binds no key. `add` never leaves
    /// it empty, and `remove` leaves it empty exactly when no key but the
    /// removed one was bound.
    pub proof fn lemma_emptiness(self, entry: (i32, i32), key: i32)
        requires
            self.well_formed(),
        ensures
            self.root is None <==> self@ == Map::<i32, i32>::empty(),
            self.inserted(entry).root is Some,
            self.removed(key).root is None <==> (forall|k: i32| self@.contains_key(k) ==> k == key),
    {
        self.lemma_removed(key);
        if let Some(node) = self.root {
            assert(self@.contains_key(node.key));
        }
        let after = self.removed(key);
        if let Some(node) = after.root {
            assert(after@.contains_key(node.key));
        } else {
            assert forall|k: i32| self@.contains_key(k) implies k == key by {
                assert(!after@.contains_key(k));
            }
        }
    }

    /// An empty tree answers every lookup and every removal with
    /// `EmptyTree`, and a removal leaves it empty.
    pub proof fn lemma_empty_refuses(key: i32)
        ensures
            BST::empty().well_formed(),
            BST::empty().get_result(key) == Err::<i32, Errors>(Errors::EmptyTree),
            BST::empty().removed(key) == BST::empty(),
    {
    }

    /// Right after `add` of an entry, looking its key up gives its value.
    /// That holds whenever the key was not bound to another value before.
    pub proof fn lemma_add_then_get(self, entry: (i32, i32))
        requires
            self.well_formed(),
            self@.contains_key(entry.1) ==> self@[entry.1] == entry.0,
        ensures
            self.inserted(entry).get_result(entry.1) == Ok::<i32, Errors>(entry.0),
    {
        self.lemma_inserted(entry);
    }

    /// After `add` of an entry, a second `add` of its key, with any value,
    /// is refused with `DuplicateKey` and changes nothing. A lookup then
    /// still gives the value of the first entry, whenever the key was not
    /// bound to another value before.
    pub proof fn lemma_duplicate_refused(self, entry: (i32, i32), again: i32)
        requires
            self.well_formed(),
            self@.contains_key(entry.1) ==> self@[entry.1] == entry.0,
        ensures
            self.inserted(entry).add_result((again, entry.1)) == Err::<(), Errors>(
                Errors::DuplicateKey,
            ),
            self.inserted(entry).inserted((again, entry.1)) == self.inserted(entry),
            self.inserted(entry).inserted((again, entry.1)).get_result(entry.1) == Ok::<
                i32,
                Errors,
            >(entry.0),
    {
        self.lemma_inserted(entry);
        self.inserted(entry).lemma_inserted((again, entry.1));
    }

    /// `remove` of a bound key answers with the value bound to it.
    /// Afterwards the key is not bound, so that a lookup of it fails, with
    /// `EmptyTree` if it was the only key and with `KeyNotFound` otherwise,
    /// and every other key is still bound to the value it had.
    pub proof fn lemma_remove_then_get(self, key: i32)
        requires
            self.well_formed(),
            self@.contains_key(key),
        ensures
            self.get_result(key) == Ok::<i32, Errors>(self@[key]),
            !self.removed(key)@.contains_key(key),
            self.removed(key).get_result(key) == Err::<i32, Errors>(
                if self@.remove(key) == Map::<i32, i32>::empty() {
                    Errors::EmptyTree
                } else {
                    Errors::KeyNotFound
                },
            ),
            forall|other: i32|
                other != key && self@.contains_key(other) ==> #[trigger] self.removed(
                    key,
                ).get_result(other) == Ok::<i32, Errors>(self@[other]),
    {
        self.lemma_removed(key);
        self.removed(key).lemma_emptiness((0, 0), key);
    }

    /// A `remove` that is refused, with `KeyNotFound` or on an empty tree
    /// with `EmptyTree`, leaves the tree as it was. So it is refused with
    /// the same error when it is repeated, and any number of repetitions
    /// leaves the tree as it was.
    pub proof fn lemma_failed_remove_repeats(self, key: i32, times: nat)
        requires
            self.well_formed(),
            self.get_result(key) is Err,
        ensures
            self.get_result(key) == Err::<i32, Errors>(
                if self.root is None {
                    Errors::EmptyTree
                } else {
                    Errors::KeyNotFound
                },
            ),
            self.removed(key) == self,
            self.after_all(Seq::new(times, |i: int| Operation::Remove(key))) == self,
        decreases times,
    {
        self.lemma_removed(key);
        if times > 0 {
            let ops = Seq::new(times, |i: int| Operation::Remove(key));
            let rest = Seq::new((times - 1) as nat, |i: int| Operation::Remove(key));
            assert(ops.drop_first() =~= rest);
            self.lemma_failed_remove_repeats(key, (times - 1) as nat);
        }
    }

    /// Whatever operations are applied to a well-formed tree, in whatever
    /// order, the tree that they leave behind is well-formed, and an
    /// in-order walk of it meets its keys in strictly increasing order.
    pub proof fn lemma_history_keeps_order(self, ops: Seq<Operation>)
        requires
            self.well_formed(),
        ensures
            self.after_all(ops).well_formed(),
            strictly_increasing(in_order(self.after_all(ops).root)),
        decreases ops.len(),
    {
        if ops.len() == 0 {
            lemma_in_order(self.root);
        } else {
            match ops.first() {
                Operation::Add(value, key) => self.lemma_inserted((value, key)),
                Operation::Remove(key) => self.lemma_removed(key),
            }
            self.after(ops.first()).lemma_history_keeps_order(ops.drop_first());
        }
    }

    /// Makes an empty tree.
    pub fn new() -> (tree: BST)
        ensures
            tree == BST::empty(),
            tree.well_formed(),
            tree@ == Map::<i32, i32>::empty(),
    {
        BST { root: None }
    }

    /// Whether the tree holds no entry.
    pub fn is_empty(&self) -> (empty: bool)
        ensures
            empty == (self.root is None),
            empty == (self@ == Map::<i32, i32>::empty()),
    {
        match self.root {
            Some(_) => {
                assert(self@.contains_key(self.root.unwrap().key));
                false
            },
            None => true,
        }
    }

    /// Adds `entry`, a pair of value and key.
    ///
    /// On an empty tree the entry becomes the root. Otherwise it becomes a
    /// new leaf where the search for its key ends. A key that is already
    /// bound is refused with `DuplicateKey`, and the tree stays as it was.
    pub fn add(&mut self, entry: (i32, i32)) -> (res: Result<(), Errors>)
        requires
            old(self).well_formed(),
        ensures
            final(self).well_formed(),
            res == old(self).add_result(entry),
            *final(self) == old(self).inserted(entry),
            res is Ok ==> final(self)@ == old(self)@.insert(entry.1, entry.0),
            res is Err ==> *final(self) == *old(self),
    {
        if let Some(node) = &mut self.root {
            node.add(entry)
        } else {
            self.root = Some(Node::new(entry));
            Ok(())
        }
    }

    /// Looks up the value bound to `key`.
    ///
    /// Fails with `EmptyTree` on an empty tree, and with `KeyNotFound` if
    /// the tree has entries but none for `key`.
    pub fn get(&self, key: i32) -> (res: Result<i32, Errors>)
        requires
            self.well_formed(),
        ensures
            res == self.get_result(key),
    {
        match &self.root {
            Some(node) => node.get(key),
            None => Err(Errors::EmptyTree),
        }
    }

    /// Removes the entry of `target_key` and hands back its value.
    ///
    /// Fails with `EmptyTree` on an empty tree, and with `KeyNotFound` if
    /// the tree has entries but none for `target_key`; the tree then stays
    /// as it was. Removing the root's key puts the root's replacement in
    /// its place, which leaves the tree empty if the root was alone.
    pub fn remove(&mut self, target_key: i32) -> (res: Result<i32, Errors>)
        requires
            old(self).well_formed(),
        ensures
            final(self).well_formed(),
            res == old(self).get_result(target_key),
            *final(self) == old(self).removed(target_key),
            final(self)@ == old(self)@.remove(target_key),
            res is Err ==> *final(self) == *old(self),
    {
        match self.root.take() {
            Some(node) => {
                let (replacement, outcome) = node.remove_node(target_key);
                self.root = replacement;
                outcome
            },
            None => Err(Errors::EmptyTree),
        }
    }
}

} // verus!
