//! A key-only B-tree over unsigned 32-bit integers.
//!
//! The tree stores a multiset of keys in a recursive node structure with a
//! fixed branching limit.  All mutation is expressed as whole-value
//! replacement: an operation builds a new subtree and the tree swaps it in
//! as its root.  Every operation's contract pins its result down against
//! the ghost model in `model`.
use vstd::prelude::*;

pub mod capacity;
pub mod laws;
mod lemmas;
pub mod model;
pub mod node;
mod ops;
mod sorting;

pub use model::NodeModel;
pub use node::Node;
pub use node::Nodeable;

use model::accepts;
use model::all_accepted;
use model::all_removes_safe;
use model::default_model;
use model::insert_all;
use model::insert_model;
use model::keyset;
use model::remove_all;
use model::remove_model;
use model::remove_safe;
use model::remove_step;
use model::total;
use lemmas::lemma_insert_all_snoc;
use lemmas::lemma_remove_all_snoc;
use vstd::pervasive::unreached;

verus! {

/// An ordered key container with one root node.  Inserts and removals
/// replace the root with the node the operation returns; a removal that
/// reports absence leaves the root as it was.
pub struct BTree {
    root_node: Node,
}

impl View for BTree {
    type V = NodeModel;

    /// A tree stands for the model of its root.
    closed spec fn view(&self) -> NodeModel {
        self.root_node@
    }
}

impl Default for BTree {
    /// A tree whose root is an empty leaf.
    fn default() -> (r: BTree)
        ensures
            r@ == default_model(),
    {
        BTree { root_node: Node::default() }
    }
}

impl BTree {
    /// The number of keys stored in the whole tree.
    pub fn count(&self) -> (r: usize)
        requires
            total(self@) <= usize::MAX,
        ensures
            r == total(self@),
    {
        Node::count(self.root_node.clone())
    }

    /// Insert `value`, replacing the root with the rebuilt node.  The root
    /// must accept the value: it does whenever it is empty, an internal
    /// node, or a leaf whose first key does not exceed the value.
    pub fn insert(&mut self, value: u32)
        requires
            accepts(old(self)@, value),
        ensures
            final(self)@ == insert_model(value, old(self)@).unwrap(),
    {
        match Node::insert(value, self.root_node.clone()) {
            Some(new_root) => {
                self.root_node = new_root;
            },
            None => unreached(),
        }
    }

    /// Insert every value, in the order given.
    pub fn bulk_insert(&mut self, values: Vec<u32>)
        requires
            all_accepted(old(self)@, values@),
        ensures
            final(self)@ == insert_all(old(self)@, values@),
    {
        proof {
            assert(values@.subrange(0, 0) =~= Seq::<u32>::empty());
        }
        let mut i: usize = 0;
        while i < values.len()
            invariant
                i <= values@.len(),
                all_accepted(old(self)@, values@),
                self@ == insert_all(old(self)@, values@.subrange(0, i as int)),
            decreases values@.len() - i,
        {
            proof {
                assert(accepts(insert_all(old(self)@, values@.subrange(0, i as int)), values@[i as int]));
                lemma_insert_all_snoc(old(self)@, values@.subrange(0, i as int), values@[i as int]);
                assert(values@.subrange(0, i as int).push(values@[i as int]) =~= values@.subrange(
                    0,
                    i + 1,
                ));
            }
            self.insert(values[i]);
            i = i + 1;
        }
        proof {
            assert(values@.subrange(0, values@.len() as int) =~= values@);
        }
    }

    /// Remove one occurrence of `value`.  When the value is absent the
    /// tree is left unchanged.  The removal must be able to run to
    /// completion on the tree as it stands.
    pub fn remove(&mut self, value: u32)
        requires
            remove_safe(value, old(self)@),
        ensures
            final(self)@ == remove_step(value, old(self)@),
            (match remove_model(value, old(self)@) {
                Some(m) => final(self)@ == m,
                None => final(self)@ == old(self)@,
            }),
    {
        match Node::remove(value, self.root_node.clone()) {
            Some(new_root) => {
                self.root_node = new_root;
            },
            None => {},
        }
    }

    /// Remove the values one after another, each from the tree the
    /// previous removal left behind.
    pub fn bulk_remove(&mut self, values: Vec<u32>)
        requires
            all_removes_safe(old(self)@, values@),
        ensures
            final(self)@ == remove_all(old(self)@, values@),
    {
        proof {
            assert(values@.subrange(0, 0) =~= Seq::<u32>::empty());
        }
        let mut i: usize = 0;
        while i < values.len()
            invariant
                i <= values@.len(),
                all_removes_safe(old(self)@, values@),
                self@ == remove_all(old(self)@, values@.subrange(0, i as int)),
            decreases values@.len() - i,
        {
            proof {
                assert(remove_safe(values@[i as int], remove_all(old(self)@, values@.subrange(0, i as int))));
                lemma_remove_all_snoc(old(self)@, values@.subrange(0, i as int), values@[i as int]);
                assert(values@.subrange(0, i as int).push(values@[i as int]) =~= values@.subrange(
                    0,
                    i + 1,
                ));
            }
            self.remove(values[i]);
            i = i + 1;
        }
        proof {
            assert(values@.subrange(0, values@.len() as int) =~= values@);
        }
    }

    /// Whether `value` is stored anywhere in the tree.
    pub fn contains(&self, value: u32) -> (r: bool)
        ensures
            r == (keyset(self@).count(value) > 0),
    {
        Node::contains(value, &self.root_node)
    }

    /// The list of leaf nodes the tree exposes; collection is not
    /// implemented, so the list is empty.
    pub fn leaf_nodes(&self) -> (r: Vec<Node>)
        ensures
            r@.len() == 0,
    {
        let leaf_nodes: Vec<Node> = Vec::new();
        leaf_nodes
    }
}

} // verus!
