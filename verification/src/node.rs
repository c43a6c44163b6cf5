//! The executable tree node and its operations.
use vstd::prelude::*;

use crate::model::NodeModel;

verus! {

/// The operations a root node offers a tree.  `Node` provides them as
/// inherent functions whose contracts speak of its model; the trait form
/// is the seam a caller can implement for a stand-in root of its own.
pub trait Nodeable<T> {
    /// Insert `value`, yielding the rebuilt node, or nothing when the node
    /// does not accept the value.
    fn insert(value: u32, into_node: T) -> Option<T>;

    /// Remove one occurrence of `value`, yielding the rebuilt node, or
    /// nothing when the value is absent.
    fn remove(value: u32, from_node: T) -> Option<T>;

    /// The number of keys stored in the subtree.
    fn count(node: T) -> usize;

    /// Whether `value` is stored anywhere in the subtree.
    fn contains(value: u32, in_node: &T) -> bool;
}

/// One node of the tree: a run of keys and, on internal nodes, an ordered
/// run of children.  A node with no children is a leaf.
pub struct Node {
    pub max_keys: usize,
    pub keys: Vec<u32>,
    pub children: Vec<Node>,
}

/// The ghost models of every node in `s`, in order.
pub open spec fn models_of(s: Seq<Node>) -> Seq<NodeModel>
    decreases s,
{
    if s.len() == 0 {
        Seq::empty()
    } else {
        models_of(s.subrange(0, s.len() - 1)).push(s[s.len() - 1]@)
    }
}

impl View for Node {
    type V = NodeModel;

    open spec fn view(&self) -> NodeModel
        decreases self,
    {
        NodeModel {
            max_keys: self.max_keys as nat,
            keys: self.keys@,
            children: models_of(self.children@),
        }
    }
}

pub broadcast proof fn lemma_models_of_len(s: Seq<Node>)
    ensures
        (#[trigger] models_of(s)).len() == s.len(),
    decreases s,
{
    if s.len() > 0 {
        lemma_models_of_len(s.subrange(0, s.len() - 1));
        assert(models_of(s) == models_of(s.subrange(0, s.len() - 1)).push(s[s.len() - 1]@));
        assert(models_of(s.subrange(0, s.len() - 1)).len() == s.len() - 1);
    }
}

pub broadcast proof fn lemma_models_of_index(s: Seq<Node>, i: int)
    requires
        0 <= i < s.len(),
    ensures
        #[trigger] models_of(s)[i] == s[i]@,
    decreases s,
{
    lemma_models_of_len(s.subrange(0, s.len() - 1));
    assert(models_of(s) == models_of(s.subrange(0, s.len() - 1)).push(s[s.len() - 1]@));
    if i < s.len() - 1 {
        lemma_models_of_index(s.subrange(0, s.len() - 1), i);
        assert(s.subrange(0, s.len() - 1)[i] == s[i]);
    }
}

pub broadcast proof fn lemma_models_of_push(s: Seq<Node>, x: Node)
    ensures
        #[trigger] models_of(s.push(x)) == models_of(s).push(x@),
{
    broadcast use {lemma_models_of_len, lemma_models_of_index};

    assert(models_of(s.push(x)) =~= models_of(s).push(x@));
}

pub broadcast proof fn lemma_models_of_insert(s: Seq<Node>, i: int, x: Node)
    requires
        0 <= i <= s.len(),
    ensures
        #[trigger] models_of(s.insert(i, x)) == models_of(s).insert(i, x@),
{
    broadcast use {lemma_models_of_len, lemma_models_of_index};

    assert(models_of(s.insert(i, x)) =~= models_of(s).insert(i, x@));
}

pub broadcast proof fn lemma_models_of_subrange(s: Seq<Node>, a: int, b: int)
    requires
        0 <= a <= b <= s.len(),
    ensures
        #[trigger] models_of(s.subrange(a, b)) == models_of(s).subrange(a, b),
{
    broadcast use {lemma_models_of_len, lemma_models_of_index};

    assert(models_of(s.subrange(a, b)) =~= models_of(s).subrange(a, b));
}

pub broadcast proof fn lemma_models_of_add(s: Seq<Node>, t: Seq<Node>)
    ensures
        #[trigger] models_of(s + t) == models_of(s) + models_of(t),
{
    broadcast use {lemma_models_of_len, lemma_models_of_index};

    assert(models_of(s + t) =~= models_of(s) + models_of(t));
}

/// Bridge between a node's view and its fields: whenever a view appears,
/// its parts are the views of the fields.
pub broadcast proof fn lemma_view_parts(n: Node)
    ensures
        (#[trigger] n@).max_keys == n.max_keys as nat,
        n@.keys == n.keys@,
        n@.children == models_of(n.children@),
        n@.children.len() == n.children@.len(),
        forall|i: int| 0 <= i < n.children@.len() ==> n@.children[i] == #[trigger] n.children@[i]@,
{
    broadcast use {lemma_models_of_len, lemma_models_of_index};

    assert(n@.children == models_of(n.children@));
}

} // verus!
