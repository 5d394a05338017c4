//! The in-order walk of a subtree, and the search-tree invariant stated
//! through it: a subtree is well-formed exactly when the walk meets its keys
//! in strictly increasing order.

use crate::node::{entries, well_formed, Node};
use vstd::prelude::*;

verus! {

/// The keys of an optional subtree as an in-order walk meets them: those of
/// the left subtree, then the node's own, then those of the right subtree.
pub open spec fn in_order(tree: Option<Box<Node>>) -> Seq<i32>
    decreases tree,
{
    match tree {
        None => Seq::empty(),
        Some(node) => node.in_order(),
    }
}

/// Whether each key of the sequence is smaller than all that follow it.
pub open spec fn strictly_increasing(keys: Seq<i32>) -> bool {
    forall|i: int, j: int| 0 <= i < j < keys.len() ==> keys[i] < keys[j]
}

/// A key occurs in `before`, `key`, `after` joined exactly when it occurs in
/// one of the three.
proof fn lemma_joined_contains(before: Seq<i32>, key: i32, after: Seq<i32>, k: i32)
    ensures
        (before.push(key) + after).contains(k) <==> before.contains(k) || k == key
            || after.contains(k),
{
    let joined = before.push(key) + after;
    let mid = before.len() as int;
    if before.contains(k) {
        let i = choose|i: int| 0 <= i < before.len() && before[i] == k;
        assert(joined[i] == k);
    }
    if k == key {
        assert(joined[mid] == k);
    }
    if after.contains(k) {
        let j = choose|j: int| 0 <= j < after.len() && after[j] == k;
        assert(joined[mid + 1 + j] == k);
    }
    if joined.contains(k) {
        let i = choose|i: int| 0 <= i < joined.len() && joined[i] == k;
        if i < mid {
            assert(before[i] == k);
        } else if i > mid {
            assert(after[i - mid - 1] == k);
        }
    }
}

/// `before`, `key`, `after` joined are strictly increasing exactly when
/// both parts are and `key` lies strictly between them.
proof fn lemma_joined_increasing(before: Seq<i32>, key: i32, after: Seq<i32>)
    ensures
        strictly_increasing(before.push(key) + after) <==> {
            &&& strictly_increasing(before)
            &&& strictly_increasing(after)
            &&& forall|k: i32| before.contains(k) ==> k < key
            &&& forall|k: i32| after.contains(k) ==> key < k
        },
{
    let joined = before.push(key) + after;
    let mid = before.len() as int;
    if strictly_increasing(joined) {
        assert forall|i: int, j: int| 0 <= i < j < before.len() implies before[i] < before[j] by {
            assert(joined[i] < joined[j]);
        }
        assert forall|i: int, j: int| 0 <= i < j < after.len() implies after[i] < after[j] by {
            assert(joined[mid + 1 + i] < joined[mid + 1 + j]);
        }
        assert forall|k: i32| before.contains(k) implies k < key by {
            let i = choose|i: int| 0 <= i < before.len() && before[i] == k;
            assert(joined[i] < joined[mid]);
        }
        assert forall|k: i32| after.contains(k) implies key < k by {
            let j = choose|j: int| 0 <= j < after.len() && after[j] == k;
            assert(joined[mid] < joined[mid + 1 + j]);
        }
    }
    if strictly_increasing(before) && strictly_increasing(after) && (forall|k: i32|
        before.contains(k) ==> k < key) && (forall|k: i32| after.contains(k) ==> key < k) {
        assert forall|i: int, j: int| 0 <= i < j < joined.len() implies joined[i] < joined[j] by {
            if i < mid {
                assert(before.contains(before[i]));
            }
            if j > mid {
                assert(after.contains(after[j - mid - 1]));
            }
        }
    }
}

impl Node {
    /// The keys of the subtree rooted here as an in-order walk meets them.
    pub open spec fn in_order(self) -> Seq<i32>
        decreases self,
    {
        in_order(self.left).push(self.key) + in_order(self.right)
    }

    /// An in-order walk meets exactly the bound keys, and the subtree keeps
    /// the search-tree invariant exactly when the walk meets them in
    /// strictly increasing order.
    pub proof fn lemma_in_order(self)
        ensures
            forall|k: i32| self@.contains_key(k) <==> #[trigger] self.in_order().contains(k),
            self.well_formed() <==> strictly_increasing(self.in_order()),
        decreases self,
    {
        let before = in_order(self.left);
        let after = in_order(self.right);
        if let Some(child) = self.left {
            child.lemma_in_order();
        }
        if let Some(child) = self.right {
            child.lemma_in_order();
        }
        assert forall|k: i32|
            #![trigger entries(self.left).contains_key(k)]
            #![trigger before.contains(k)]
            entries(self.left).contains_key(k) <==> before.contains(k) by {}
        assert forall|k: i32|
            #![trigger entries(self.right).contains_key(k)]
            #![trigger after.contains(k)]
            entries(self.right).contains_key(k) <==> after.contains(k) by {}
        assert forall|k: i32| self@.contains_key(k) <==> #[trigger] self.in_order().contains(
            k,
        ) by {
            lemma_joined_contains(before, self.key, after, k);
        }
        lemma_joined_increasing(before, self.key, after);
    }
}

/// The same for an optional subtree: the walk meets exactly the bound keys,
/// and the subtree is well-formed exactly when the walk is strictly
/// increasing.
pub proof fn lemma_in_order(tree: Option<Box<Node>>)
    ensures
        forall|k: i32| entries(tree).contains_key(k) <==> #[trigger] in_order(tree).contains(k),
        well_formed(tree) <==> strictly_increasing(in_order(tree)),
{
    if let Some(node) = tree {
        node.lemma_in_order();
    }
}

} // verus!
