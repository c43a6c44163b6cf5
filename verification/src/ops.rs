//! The executable operations on tree nodes.
use vstd::prelude::*;

use crate::model::NodeModel;
use crate::model::can_accept;
use crate::model::default_model;
use crate::model::insert_into_children_model;
use crate::model::insert_model;
use crate::model::leaf_insert;
use crate::model::leaf_model;
use crate::model::needs_split;
use crate::model::remove_at;
use crate::model::sort_keys;
use crate::model::split_model;
use crate::model::with_sorted_children;
use crate::model::flatten;
use crate::model::gather;
use crate::model::keyset;
use crate::model::keyset_of_children;
use crate::model::sorted;
use crate::model::total;
use crate::model::total_of_children;
use crate::lemmas::lemma_flatten_keyset;
use crate::lemmas::lemma_keyset_children_contains;
use crate::lemmas::lemma_keyset_children_member;
use crate::lemmas::lemma_keyset_children_snoc;
use crate::lemmas::lemma_last_accepting_at;
use crate::lemmas::lemma_last_accepting_none;
use crate::lemmas::lemma_total_children_snoc;
use crate::lemmas::lemma_total_children_split;
use crate::sorting::lemma_sort_keys_facts;
use crate::sorting::lemma_sorted_is_sort_keys;
use vstd::seq_lib::lemma_multiset_commutative;
use crate::model::candidate_range;
use crate::model::cleared;
use crate::model::first_key_index;
use crate::model::rebalance_model;
use crate::model::insert_all;
use crate::model::rebuild_ready;
use crate::model::remove_model;
use crate::model::remove_safe;
use crate::model::remove_scan;
use crate::model::scan_safe;
use crate::lemmas::lemma_first_key_index_at;
use crate::lemmas::lemma_first_key_index_exists;
use crate::lemmas::lemma_first_key_index_none;
use crate::lemmas::lemma_insert_all_snoc;
use crate::lemmas::lemma_rebuild_step;
use crate::lemmas::lemma_remove_some_present;
use crate::lemmas::lemma_scan_prefix;
use crate::lemmas::lemma_scan_safe_descend;
use crate::sorting::sort_children_vec;
use crate::sorting::sort_keys_vec;
use vstd::pervasive::unreached;
use crate::node::Node;
use crate::node::models_of;
use crate::node::lemma_models_of_len;
use crate::node::lemma_models_of_index;
use crate::node::lemma_models_of_insert;
use crate::node::lemma_models_of_push;
use crate::node::lemma_models_of_subrange;
use crate::node::lemma_models_of_add;
use crate::node::lemma_view_parts;

verus! {

broadcast use
    {lemma_models_of_len, lemma_models_of_index, lemma_models_of_insert, lemma_models_of_push,
    lemma_models_of_subrange, lemma_models_of_add, lemma_view_parts};

impl Clone for Node {
    /// A structural copy whose model is the model of the original.
    fn clone(&self) -> (r: Node)
        ensures
            r@ == self@,
        decreases *self,
    {
        broadcast use lemma_models_of_len, lemma_models_of_index;

        let mut keys: Vec<u32> = Vec::new();
        let mut i: usize = 0;
        while i < self.keys.len()
            invariant
                i <= self.keys.len(),
                keys@ == self.keys@.subrange(0, i as int),
            decreases self.keys.len() - i,
        {
            keys.push(self.keys[i]);
            proof {
                assert(keys@ =~= self.keys@.subrange(0, i + 1));
            }
            i = i + 1;
        }
        let mut children: Vec<Node> = Vec::new();
        let mut j: usize = 0;
        while j < self.children.len()
            invariant
                j <= self.children.len(),
                children@.len() == j,
                forall|k: int| 0 <= k < j ==> children@[k]@ == self.children@[k]@,
            decreases self.children.len() - j,
        {
            children.push(self.children[j].clone());
            j = j + 1;
        }
        let r = Node { max_keys: self.max_keys, keys, children };
        proof {
            assert(keys@ =~= self.keys@);
            assert(models_of(children@) =~= models_of(self.children@));
            assert(r@ =~= self@);
        }
        r
    }
}

impl Default for Node {
    /// An empty leaf with the default branching limit.
    fn default() -> (r: Node)
        ensures
            r@ == default_model(),
    {
        Node::new(Vec::new())
    }
}

impl Node {
    /// A leaf holding `keys`, with the default branching limit.
    pub fn new(keys: Vec<u32>) -> (r: Node)
        ensures
            r@ == leaf_model(keys@),
    {
        let r = Node { max_keys: 4, keys, children: Vec::new() };
        proof {
            assert(r@ =~= leaf_model(r.keys@));
        }
        r
    }

    /// The smallest key count a node may fall to before a removal triggers
    /// a rebuild: half the branching limit, rounded down.
    pub fn min_keys(&self) -> (r: usize)
        ensures
            r as nat == self@.max_keys / 2,
    {
        self.max_keys / 2
    }

    /// Whether this node's own key list may take `v` directly.
    fn can_be_inserted(&self, value: &u32) -> (r: bool)
        ensures
            r == can_accept(self@, *value),
    {
        if self.keys.len() == 0 {
            true
        } else {
            *value >= self.keys[0] && self.children.len() == 0
        }
    }

    /// Whether the node has children.
    fn is_parent(&self) -> (r: bool)
        ensures
            r == (self@.children.len() > 0),
    {
        self.children.len() > 0
    }

    /// Whether the node holds more keys than its branching limit allows.
    fn requires_splitting(&self) -> (r: bool)
        ensures
            r == needs_split(self@),
    {
        self.keys.len() > self.max_keys
    }
}

/// Copy of the key range `v[a..b]`.
fn copy_range(v: &Vec<u32>, a: usize, b: usize) -> (r: Vec<u32>)
    requires
        a <= b <= v@.len(),
    ensures
        r@ == v@.subrange(a as int, b as int),
{
    let mut out: Vec<u32> = Vec::new();
    let mut i: usize = a;
    while i < b
        invariant
            a <= i <= b <= v@.len(),
            out@ == v@.subrange(a as int, i as int),
        decreases b - i,
    {
        out.push(v[i]);
        proof {
            assert(out@ =~= v@.subrange(a as int, i + 1));
        }
        i = i + 1;
    }
    out
}

/// Copies of every node of `v`.
fn clone_children(v: &Vec<Node>) -> (r: Vec<Node>)
    ensures
        models_of(r@) == models_of(v@),
{
    let mut out: Vec<Node> = Vec::new();
    let mut i: usize = 0;
    while i < v.len()
        invariant
            i <= v.len(),
            out@.len() == i,
            forall|k: int| 0 <= k < i ==> out@[k]@ == v@[k]@,
        decreases v.len() - i,
    {
        out.push(v[i].clone());
        i = i + 1;
    }
    proof {
        assert(models_of(out@) =~= models_of(v@));
    }
    out
}

impl Node {
    /// Take over the keys of `node`, add `value`, and sort ascending.
    fn insert_keys_from_node_and_sort(&mut self, value: u32, node: Node)
        ensures
            final(self)@ == (NodeModel { keys: sort_keys(node@.keys.push(value)), ..old(self)@ }),
    {
        let mut ks = node.keys;
        ks.push(value);
        self.keys = sort_keys_vec(ks);
        proof {
            assert(self@ =~= (NodeModel { keys: sort_keys(node.keys@.push(value)), ..old(self)@ }));
        }
    }

    /// Split a node that exceeds its branching limit: promote the middle
    /// key and partition the rest into two fresh leaves.
    fn split_if_needed(node: Node) -> (r: Node)
        ensures
            r@ == split_model(node@),
    {
        if !node.requires_splitting() {
            return node;
        }
        let key_middle_index = node.keys.len() / 2;
        let middle_key = node.keys[key_middle_index];
        let left_keys = copy_range(&node.keys, 0, key_middle_index);
        let right_keys = copy_range(&node.keys, key_middle_index + 1, node.keys.len());
        let split_node = Node::new(left_keys);
        let right_node = Node::new(right_keys);
        let mut keys: Vec<u32> = Vec::new();
        keys.push(middle_key);
        let mut children: Vec<Node> = Vec::new();
        children.push(split_node);
        children.push(right_node);
        let r = Node { max_keys: 4, keys, children };
        proof {
            assert(r.keys@ =~= seq![node.keys@[key_middle_index as int]]);
            assert(r@.children =~= split_model(node@).children);
            assert(r@ =~= split_model(node@));
        }
        r
    }

    /// The children list without the entry at `index`.
    fn remaining_children(&self, index: usize) -> (r: Vec<Node>)
        requires
            index < self.children@.len(),
        ensures
            models_of(r@) == remove_at(self@.children, index as int),
    {
        let mut remaining = clone_children(&self.children);
        remaining.remove(index);
        proof {
            assert(models_of(remaining@) =~= remove_at(self@.children, index as int));
        }
        remaining
    }

    /// A copy of the parent whose key list is extended by the child's keys.
    fn combine_parent_and_child(parent_node: &Node, child_node: &Node) -> (r: Node)
        ensures
            r@ == (NodeModel { keys: parent_node@.keys + child_node@.keys, ..parent_node@ }),
    {
        let mut new_node = parent_node.clone();
        let mut i: usize = 0;
        while i < child_node.keys.len()
            invariant
                i <= child_node.keys@.len(),
                new_node.max_keys == parent_node.max_keys,
                new_node.keys@ == parent_node.keys@ + child_node.keys@.subrange(0, i as int),
                models_of(new_node.children@) == parent_node@.children,
        decreases child_node.keys@.len() - i,
        {
            new_node.keys.push(child_node.keys[i]);
            proof {
                assert(new_node.keys@ =~= parent_node.keys@ + child_node.keys@.subrange(
                    0,
                    i + 1,
                ));
            }
            i = i + 1;
        }
        proof {
            assert(child_node.keys@.subrange(0, child_node.keys@.len() as int) =~= child_node.keys@);
            assert(new_node@ =~= (NodeModel {
                keys: parent_node@.keys + child_node@.keys,
                ..parent_node@
            }));
        }
        new_node
    }

    /// Route `value` into the last child that accepts it, absorbing a split
    /// of that child into this node.  When no child accepts, the node is
    /// returned unchanged.
    fn insert_into_children(value: u32, node: &Node) -> (r: Node)
        ensures
            r@ == insert_into_children_model(value, node@),
        decreases node@, 0int,
    {
        let mut i: usize = node.children.len();
        let mut j_opt: Option<usize> = None;
        while i > 0 && j_opt.is_none()
            invariant
                i <= node.children@.len(),
                match j_opt {
                    None => forall|q: int|
                        i <= q < node@.children.len() ==> !can_accept(
                            #[trigger] node@.children[q],
                            value,
                        ),
                    Some(j) => {
                        &&& j < node.children@.len()
                        &&& i == j
                        &&& can_accept(node@.children[j as int], value)
                        &&& forall|q: int|
                            j < q < node@.children.len() ==> !can_accept(
                                #[trigger] node@.children[q],
                                value,
                            )
                    },
                },
            decreases i,
        {
            let k = i - 1;
            if node.children[k].can_be_inserted(&value) {
                j_opt = Some(k);
            }
            i = k;
        }
        match j_opt {
            None => {
                proof {
                    lemma_last_accepting_none(node@.children, value);
                }
                node.clone()
            },
            Some(j) => {
                proof {
                    lemma_last_accepting_at(node@.children, value, j as int);
                }
                let child = node.children[j].clone();
                match Node::insert(value, child) {
                    Some(child_node) => {
                        let child_was_split = child_node.is_parent();
                        let remaining = node.remaining_children(j);
                        if child_was_split {
                            let mut new_node = Node::combine_parent_and_child(node, &child_node);
                            let mut cs = clone_children(&child_node.children);
                            let mut rem = remaining;
                            cs.append(&mut rem);
                            new_node.children = cs;
                            proof {
                                assert(new_node@ =~= (NodeModel {
                                    max_keys: node@.max_keys,
                                    keys: node@.keys + leaf_insert(value, node@.children[j as int]).keys,
                                    children: leaf_insert(value, node@.children[j as int]).children
                                        + remove_at(node@.children, j as int),
                                }));
                            }
                            let new_node = Node::split_if_needed(new_node);
                            proof {
                                assert(new_node@ == insert_into_children_model(value, node@));
                            }
                            new_node
                        } else {
                            let mut new_node = node.clone();
                            let mut cs: Vec<Node> = Vec::new();
                            cs.push(child_node);
                            let mut rem = remaining;
                            cs.append(&mut rem);
                            new_node.children = cs;
                            proof {
                                assert(models_of(cs@) =~= seq![
                                    leaf_insert(value, node@.children[j as int]),
                                ] + remove_at(node@.children, j as int));
                                assert(new_node@ =~= insert_into_children_model(value, node@));
                            }
                            new_node
                        }
                    },
                    None => unreached(),
                }
            },
        }
    }

    /// Insert `value` into the subtree.  A node whose own key list accepts
    /// the value takes it directly, splitting when overfull; an internal
    /// node routes the value into a child; a non-empty leaf whose first key
    /// exceeds the value yields no result.
    pub fn insert(value: u32, into_node: Node) -> (r: Option<Node>)
        ensures
            match r {
                Some(n) => insert_model(value, into_node@) == Some(n@),
                None => insert_model(value, into_node@) is None,
            },
        decreases into_node@, 1int,
    {
        let ghost m0 = into_node@;
        if into_node.can_be_inserted(&value) {
            let mut new_node = Node::default();
            new_node.insert_keys_from_node_and_sort(value, into_node);
            proof {
                assert(new_node@ =~= leaf_model(sort_keys(m0.keys.push(value))));
            }
            let new_node = Node::split_if_needed(new_node);
            let Node { max_keys, keys, children } = new_node;
            let children = sort_children_vec(children);
            let r = Node { max_keys, keys, children };
            proof {
                assert(r@ =~= leaf_insert(value, m0));
            }
            Some(r)
        } else if into_node.is_parent() {
            let new_node = Node::insert_into_children(value, &into_node);
            let Node { max_keys, keys, children } = new_node;
            let children = sort_children_vec(children);
            let r = Node { max_keys, keys, children };
            proof {
                assert(r@ =~= with_sorted_children(insert_into_children_model(value, m0)));
            }
            Some(r)
        } else {
            None
        }
    }
}

impl Node {
    /// The number of keys stored in the whole subtree.
    pub fn count(node: Node) -> (r: usize)
        requires
            total(node@) <= usize::MAX,
        ensures
            r == total(node@),
    {
        Node::count_of(&node)
    }

    /// Key count of the subtree, summed over the node and its children.
    fn count_of(node: &Node) -> (r: usize)
        requires
            total(node@) <= usize::MAX,
        ensures
            r == total(node@),
        decreases *node,
    {
        let mut result = node.keys.len();
        let mut i: usize = 0;
        while i < node.children.len()
            invariant
                i <= node.children@.len(),
                total(node@) <= usize::MAX,
                result == node@.keys.len() + total_of_children(
                    node@.children.subrange(0, i as int),
                ),
            decreases node.children@.len() - i,
        {
            proof {
                let cs = node@.children;
                assert(cs.subrange(0, i + 1) =~= cs.subrange(0, i as int).push(cs[i as int]));
                lemma_total_children_snoc(cs.subrange(0, i as int), cs[i as int]);
                lemma_total_children_split(cs, i + 1);
            }
            result = result + Node::count_of(&node.children[i]);
            i = i + 1;
        }
        proof {
            assert(node@.children.subrange(0, node@.children.len() as int) =~= node@.children);
        }
        result
    }

    /// Whether `value` is stored anywhere in the subtree.
    pub fn contains(value: u32, in_node: &Node) -> (r: bool)
        ensures
            r == (keyset(in_node@).count(value) > 0),
        decreases *in_node,
    {
        broadcast use vstd::multiset::group_multiset_axioms, vstd::seq_lib::group_to_multiset_ensures;

        let mut i: usize = 0;
        while i < in_node.keys.len()
            invariant
                i <= in_node.keys@.len(),
                forall|q: int| 0 <= q < i ==> in_node.keys@[q] != value,
            decreases in_node.keys@.len() - i,
        {
            if in_node.keys[i] == value {
                proof {
                    assert(in_node@.keys[i as int] == value);
                    assert(in_node@.keys.contains(value));
                    vstd::seq_lib::to_multiset_contains(in_node@.keys, value);
                    assert(in_node@.keys.to_multiset().count(value) > 0);
                    assert(keyset(in_node@).count(value) == in_node@.keys.to_multiset().count(
                        value,
                    ) + keyset_of_children(in_node@.children).count(value));
                }
                return true;
            }
            i = i + 1;
        }
        let mut j: usize = 0;
        while j < in_node.children.len()
            invariant
                j <= in_node.children@.len(),
                forall|q: int| 0 <= q < j ==> keyset(#[trigger] in_node@.children[q]).count(value)
                    == 0,
            decreases in_node.children@.len() - j,
        {
            if Node::contains(value, &in_node.children[j]) {
                proof {
                    lemma_keyset_children_member(in_node@.children, j as int, value);
                }
                return true;
            }
            j = j + 1;
        }
        proof {
            assert(!in_node@.keys.contains(value));
            vstd::seq_lib::to_multiset_contains(in_node@.keys, value);
            assert(in_node@.keys.to_multiset().count(value) == 0);
            lemma_keyset_children_contains(in_node@.children, value);
        }
        false
    }

    /// Every key of the subtree, in ascending order.
    pub(crate) fn gather_keys(node: &Node) -> (r: Vec<u32>)
        ensures
            r@ == gather(node@),
            sorted(r@),
            r@.to_multiset() == keyset(node@),
        decreases *node,
    {
        let mut acc = copy_range(&node.keys, 0, node.keys.len());
        proof {
            assert(acc@ =~= node@.keys);
            assert(node@.children.subrange(0, 0) =~= Seq::<NodeModel>::empty());
        }
        let mut j: usize = 0;
        while j < node.children.len()
            invariant
                j <= node.children@.len(),
                acc@.to_multiset() == node@.keys.to_multiset().add(
                    keyset_of_children(node@.children.subrange(0, j as int)),
                ),
            decreases node.children@.len() - j,
        {
            let ghost acc0 = acc@;
            let mut g = Node::gather_keys(&node.children[j]);
            let ghost g0 = g@;
            acc.append(&mut g);
            proof {
                let cs = node@.children;
                lemma_multiset_commutative(acc0, g0);
                assert(cs.subrange(0, j + 1) =~= cs.subrange(0, j as int).push(cs[j as int]));
                lemma_keyset_children_snoc(cs.subrange(0, j as int), cs[j as int]);
                assert(acc@.to_multiset() =~= node@.keys.to_multiset().add(
                    keyset_of_children(cs.subrange(0, j + 1)),
                ));
            }
            j = j + 1;
        }
        proof {
            assert(node@.children.subrange(0, node@.children.len() as int) =~= node@.children);
        }
        let r = sort_keys_vec(acc);
        proof {
            lemma_sort_keys_facts(acc@);
            lemma_flatten_keyset(node@);
            lemma_sorted_is_sort_keys(r@, flatten(node@));
        }
        r
    }
}

/// The index of the first occurrence of `value` in `keys`, when there is one.
fn position_of_key(keys: &Vec<u32>, value: u32) -> (r: Option<usize>)
    ensures
        match r {
            Some(i) => i < keys@.len() && first_key_index(keys@, value) == i,
            None => first_key_index(keys@, value) == -1,
        },
{
    let mut i: usize = 0;
    while i < keys.len()
        invariant
            i <= keys@.len(),
            forall|q: int| 0 <= q < i ==> keys@[q] != value,
        decreases keys@.len() - i,
    {
        if keys[i] == value {
            proof {
                lemma_first_key_index_at(keys@, value, i as int);
            }
            return Some(i);
        }
        i = i + 1;
    }
    proof {
        lemma_first_key_index_none(keys@, value);
    }
    None
}

impl Node {
    /// The half-open range of child indices a removal of `value` may
    /// descend into: the midpoint of this node's own key list partitions
    /// the children list.
    fn possible_children_for_removal(value: u32, from_node: &Node) -> (r: (usize, usize))
        requires
            from_node@.keys.len() >= 1,
            from_node@.keys.len() / 2 + 1 <= from_node@.children.len(),
        ensures
            (r.0 as int, r.1 as int) == candidate_range(from_node@, value),
            r.0 <= r.1 <= from_node.children@.len(),
    {
        let middle_index = from_node.keys.len() / 2;
        let middle_key = from_node.keys[middle_index];
        if value > middle_key {
            (middle_index + 1, from_node.children.len())
        } else {
            (0, middle_index + 1)
        }
    }

    /// Rebuild the whole node after an underfull removal: gather every key
    /// of the subtree in order, drop the first occurrence of the removed
    /// value, clear the node and reinsert the rest one at a time.
    fn rebalance_after_removal(removed_key: u32, node: &Node) -> (r: Node)
        requires
            keyset(node@).count(removed_key) >= 1,
        ensures
            r@ == rebalance_model(removed_key, node@),
    {
        broadcast use vstd::seq_lib::group_to_multiset_ensures;

        let mut gathered = Node::gather_keys(node);
        proof {
            assert(gathered@.to_multiset().count(removed_key) >= 1);
            assert(gathered@.contains(removed_key));
            lemma_first_key_index_exists(gathered@, removed_key);
        }
        let ghost g_full = gathered@;
        let idx = match position_of_key(&gathered, removed_key) {
            Some(i) => i,
            None => unreached(),
        };
        gathered.remove(idx);
        proof {
            assert(gathered@ =~= g_full.remove(first_key_index(g_full, removed_key)));
            assert forall|a: int, b: int| 0 <= a <= b < gathered@.len() implies gathered@[a]
                <= gathered@[b] by {
                assert(gathered@[a] == if a < idx {
                    g_full[a]
                } else {
                    g_full[a + 1]
                });
                assert(gathered@[b] == if b < idx {
                    g_full[b]
                } else {
                    g_full[b + 1]
                });
            }
        }
        let mut new_node = node.clone();
        new_node.children = Vec::new();
        new_node.keys = Vec::new();
        proof {
            assert(new_node@ =~= cleared(node@));
        }
        let ghost base = cleared(node@);
        let ghost g = gathered@;
        proof {
            assert(g.subrange(0, 0) =~= Seq::<u32>::empty());
        }
        let mut i: usize = 0;
        while i < gathered.len()
            invariant
                i <= g.len(),
                gathered@ == g,
                sorted(g),
                new_node@ == insert_all(base, g.subrange(0, i as int)),
                i < g.len() ==> rebuild_ready(new_node@, g[i as int]),
        decreases g.len() - i,
        {
            proof {
                let w: u32 = if i + 1 < g.len() {
                    g[i as int + 1]
                } else {
                    g[i as int]
                };
                lemma_rebuild_step(new_node@, g[i as int], w);
                lemma_insert_all_snoc(base, g.subrange(0, i as int), g[i as int]);
                assert(g.subrange(0, i as int).push(g[i as int]) =~= g.subrange(0, i + 1));
            }
            let v = gathered[i];
            new_node = match Node::insert(v, new_node) {
                Some(n) => n,
                None => unreached(),
            };
            i = i + 1;
        }
        proof {
            assert(g.subrange(0, g.len() as int) =~= g);
        }
        new_node
    }

    /// Remove one occurrence of `value` from the subtree.  A key held in
    /// this node's own list is removed in place; otherwise the candidate
    /// children are scanned, and a removal that left a child underfull
    /// rebuilds this whole node.  Absence yields no result.
    pub fn remove(value: u32, from_node: Node) -> (r: Option<Node>)
        requires
            remove_safe(value, from_node@),
        ensures
            (match remove_model(value, from_node@) {
                Some(m) => r is Some && r.unwrap()@ == m,
                None => r is None,
            }),
        decreases from_node@,
    {
        broadcast use vstd::multiset::group_multiset_axioms;

        let ghost m = from_node@;
        match position_of_key(&from_node.keys, value) {
            Some(idx) => {
                let mut node = from_node;
                node.keys.remove(idx);
                proof {
                    assert(node@ =~= (NodeModel {
                        keys: m.keys.remove(first_key_index(m.keys, value)),
                        ..m
                    }));
                }
                Some(node)
            },
            None => {
                if from_node.children.len() > 0 {
                    let (lo, hi) = Node::possible_children_for_removal(value, &from_node);
                    let mut j = lo;
                    while j < hi
                        invariant
                            m == from_node@,
                            lo <= j <= hi,
                            (lo as int, hi as int) == candidate_range(m, value),
                            hi <= from_node.children@.len(),
                            first_key_index(m.keys, value) == -1,
                            scan_safe(value, m, lo as int),
                            forall|q: int|
                                lo <= q < j ==> remove_model(
                                    value,
                                    #[trigger] m.children[q],
                                ) is None,
                        decreases hi - j,
                    {
                        proof {
                            lemma_scan_safe_descend(value, m, lo as int, j as int);
                        }
                        let child = from_node.children[j].clone();
                        match Node::remove(value, child) {
                            Some(removed_from) => {
                                proof {
                                    lemma_scan_prefix(value, m, lo as int, j as int);
                                    assert(remove_scan(value, m, lo as int) == Some(
                                        (j as int, removed_from@),
                                    ));
                                }
                                if removed_from.keys.len() < removed_from.min_keys() {
                                    proof {
                                        lemma_remove_some_present(value, m.children[j as int]);
                                        lemma_keyset_children_member(m.children, j as int, value);
                                    }
                                    let reb = Node::rebalance_after_removal(value, &from_node);
                                    return Some(reb);
                                } else {
                                    let mut node = from_node;
                                    let ghost removed_view = removed_from@;
                                    node.children.remove(j);
                                    node.children.insert(j, removed_from);
                                    proof {
                                        assert(node@.children =~= m.children.update(
                                            j as int,
                                            removed_view,
                                        ));
                                        assert(node@ =~= (NodeModel {
                                            children: m.children.update(j as int, removed_view),
                                            ..m
                                        }));
                                    }
                                    return Some(node);
                                }
                            },
                            None => {
                                j = j + 1;
                            },
                        }
                    }
                    proof {
                        lemma_scan_prefix(value, m, lo as int, hi as int);
                        assert(remove_scan(value, m, lo as int) is None);
                    }
                    None
                } else {
                    None
                }
            },
        }
    }
}

} // verus!
