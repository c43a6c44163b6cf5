//! The mathematical model of a tree node.
//!
//! `NodeModel` mirrors the executable `Node` structure with ghost types:
//! a sequence of keys, a sequence of child models and the branching limit.
//! Every contract of the executable code speaks about this model.  The
//! functions here give an exact, deterministic account of what each tree
//! operation returns, so the executable contracts pin their results down
//! completely.
use vstd::prelude::*;
use vstd::multiset::Multiset;

verus! {

/// Ghost mirror of a tree node: the value `node@` of an executable `Node`.
#[verifier::ext_equal]
pub struct NodeModel {
    pub max_keys: nat,
    pub keys: Seq<u32>,
    pub children: Seq<NodeModel>,
}

/// The branching limit every freshly built node receives.
pub open spec fn default_limit() -> nat {
    4
}

/// A leaf with the default branching limit, as `Node::new` builds it.
pub open spec fn leaf_model(keys: Seq<u32>) -> NodeModel {
    NodeModel { max_keys: default_limit(), keys, children: Seq::empty() }
}

/// The model of a default-constructed node: an empty leaf.
pub open spec fn default_model() -> NodeModel {
    leaf_model(Seq::empty())
}

/// The multiset of every key stored in the subtree rooted at `m`.
pub open spec fn keyset(m: NodeModel) -> Multiset<u32>
    decreases m,
{
    m.keys.to_multiset().add(keyset_of_children(m.children))
}

/// The multiset of every key stored below any node of `s`.
pub open spec fn keyset_of_children(s: Seq<NodeModel>) -> Multiset<u32>
    decreases s,
{
    if s.len() == 0 {
        Multiset::empty()
    } else {
        keyset(s[0]).add(keyset_of_children(s.subrange(1, s.len() as int)))
    }
}

/// The number of keys stored in the subtree rooted at `m`.
pub open spec fn total(m: NodeModel) -> nat
    decreases m,
{
    m.keys.len() + total_of_children(m.children)
}

/// The number of keys stored below any node of `s`.
pub open spec fn total_of_children(s: Seq<NodeModel>) -> nat
    decreases s,
{
    if s.len() == 0 {
        0
    } else {
        total(s[0]) + total_of_children(s.subrange(1, s.len() as int))
    }
}

/// Every key of the subtree, in node-before-children order, unsorted.
pub open spec fn flatten(m: NodeModel) -> Seq<u32>
    decreases m,
{
    m.keys + flatten_children(m.children)
}

/// The concatenation of the flattened subtrees of `s`.
pub open spec fn flatten_children(s: Seq<NodeModel>) -> Seq<u32>
    decreases s,
{
    if s.len() == 0 {
        Seq::empty()
    } else {
        flatten(s[0]) + flatten_children(s.subrange(1, s.len() as int))
    }
}

/// A key sequence in ascending order.
pub open spec fn sorted(s: Seq<u32>) -> bool {
    forall|i: int, j: int| 0 <= i <= j < s.len() ==> s[i] <= s[j]
}

/// Place `v` into `s` directly before the first element greater than `v`.
/// On a sorted sequence this is sorted insertion; together with `sort_keys`
/// it defines the stable sort the key lists go through.
pub open spec fn insert_key_sorted(s: Seq<u32>, v: u32) -> Seq<u32>
    decreases s.len(),
{
    if s.len() == 0 {
        seq![v]
    } else if s[0] <= v {
        seq![s[0]] + insert_key_sorted(s.subrange(1, s.len() as int), v)
    } else {
        seq![v] + s
    }
}

/// Stable insertion sort of a key sequence, processing left to right.
pub open spec fn sort_keys(s: Seq<u32>) -> Seq<u32>
    decreases s.len(),
{
    if s.len() == 0 {
        Seq::empty()
    } else {
        insert_key_sorted(sort_keys(s.subrange(0, s.len() - 1)), s[s.len() - 1])
    }
}

/// The order the children lists are kept in: lexicographic by key list,
/// shorter prefixes first.
pub open spec fn key_seq_le(a: Seq<u32>, b: Seq<u32>) -> bool
    decreases a.len(),
{
    if a.len() == 0 {
        true
    } else if b.len() == 0 {
        false
    } else if a[0] < b[0] {
        true
    } else if b[0] < a[0] {
        false
    } else {
        key_seq_le(a.subrange(1, a.len() as int), b.subrange(1, b.len() as int))
    }
}

/// Node order used for the children lists.
pub open spec fn node_le(a: NodeModel, b: NodeModel) -> bool {
    key_seq_le(a.keys, b.keys)
}

/// Place `x` into `s` directly before the first node greater than `x`.
pub open spec fn insert_child_sorted(s: Seq<NodeModel>, x: NodeModel) -> Seq<NodeModel>
    decreases s.len(),
{
    if s.len() == 0 {
        seq![x]
    } else if node_le(s[0], x) {
        seq![s[0]] + insert_child_sorted(s.subrange(1, s.len() as int), x)
    } else {
        seq![x] + s
    }
}

/// Stable insertion sort of a children list by `node_le`.
pub open spec fn sort_children(s: Seq<NodeModel>) -> Seq<NodeModel>
    decreases s.len(),
{
    if s.len() == 0 {
        Seq::empty()
    } else {
        insert_child_sorted(sort_children(s.subrange(0, s.len() - 1)), s[s.len() - 1])
    }
}

/// A children list in the node order.
pub open spec fn sorted_nodes(s: Seq<NodeModel>) -> bool {
    forall|i: int, j: int| 0 <= i <= j < s.len() ==> node_le(s[i], s[j])
}

/// `m` with its children list sorted.
pub open spec fn with_sorted_children(m: NodeModel) -> NodeModel {
    NodeModel { children: sort_children(m.children), ..m }
}

/// Whether a plain key insertion into this node itself is allowed: the node
/// holds no keys yet, or it is a leaf whose first key does not exceed `v`.
pub open spec fn can_accept(m: NodeModel, v: u32) -> bool {
    m.keys.len() == 0 || (v >= m.keys[0] && m.children.len() == 0)
}

/// Whether the node holds more keys than its branching limit allows.
pub open spec fn needs_split(m: NodeModel) -> bool {
    m.keys.len() > m.max_keys
}

/// Split an overfull node: promote the middle key and partition the rest
/// into two fresh leaves.  Children the node had before are not carried
/// over.  A node within its limit is returned unchanged.
pub open spec fn split_model(m: NodeModel) -> NodeModel {
    if !needs_split(m) {
        m
    } else {
        let mid: int = m.keys.len() as int / 2;
        NodeModel {
            max_keys: default_limit(),
            keys: seq![m.keys[mid]],
            children: seq![
                leaf_model(m.keys.subrange(0, mid)),
                leaf_model(m.keys.subrange(mid + 1, m.keys.len() as int)),
            ],
        }
    }
}

/// Insertion of `v` into the node's own key list: a fresh default node takes
/// the sorted keys, splits if it became overfull, and its children list is
/// sorted.  This is the accepted branch of `insert_model`.
pub open spec fn leaf_insert(v: u32, m: NodeModel) -> NodeModel {
    with_sorted_children(split_model(leaf_model(sort_keys(m.keys.push(v)))))
}

/// The index of the last child that accepts `v`, or `-1` when none does.
/// The reverse scan of the children list stops at the first hit.
pub open spec fn last_accepting(s: Seq<NodeModel>, v: u32) -> int
    decreases s.len(),
{
    if s.len() == 0 {
        -1
    } else if can_accept(s[s.len() - 1], v) {
        s.len() - 1
    } else {
        last_accepting(s.subrange(0, s.len() - 1), v)
    }
}

/// `s` without its element at `i`.
pub open spec fn remove_at(s: Seq<NodeModel>, i: int) -> Seq<NodeModel> {
    s.subrange(0, i) + s.subrange(i + 1, s.len() as int)
}

/// Route `v` into the last accepting child.  When the child splits, the
/// parent absorbs the promoted key and the two new children and may split
/// in turn; otherwise the rebuilt child takes the front of the children
/// list.  When no child accepts, the node is returned unchanged.
pub open spec fn insert_into_children_model(v: u32, m: NodeModel) -> NodeModel {
    let j: int = last_accepting(m.children, v);
    if j < 0 {
        m
    } else {
        let inserted = leaf_insert(v, m.children[j]);
        let remaining = remove_at(m.children, j);
        if inserted.children.len() > 0 {
            split_model(
                NodeModel {
                    max_keys: m.max_keys,
                    keys: m.keys + inserted.keys,
                    children: inserted.children + remaining,
                },
            )
        } else {
            NodeModel { children: seq![inserted] + remaining, ..m }
        }
    }
}

/// What `Node::insert` returns: the accepted branch inserts into this node's
/// own key list, an internal node routes into a child, and a non-empty leaf
/// whose first key exceeds `v` yields no result.
pub open spec fn insert_model(v: u32, m: NodeModel) -> Option<NodeModel> {
    if can_accept(m, v) {
        Some(leaf_insert(v, m))
    } else if m.children.len() > 0 {
        Some(with_sorted_children(insert_into_children_model(v, m)))
    } else {
        None
    }
}

/// Whether an insertion yields a result at all.
pub open spec fn accepts(m: NodeModel, v: u32) -> bool {
    can_accept(m, v) || m.children.len() > 0
}

/// An insertion that stores the value and loses nothing.  The accepted
/// branch starts from a fresh leaf, so a keyless node with children would
/// lose them; in the routed branch some child must accept, that child must
/// be a loss-free leaf insertion itself, and when the child splits the
/// absorbed key must not overflow this node, whose own split would drop
/// every child.
pub open spec fn insert_clean(m: NodeModel, v: u32) -> bool {
    if can_accept(m, v) {
        m.keys.len() > 0 || m.children.len() == 0
    } else if m.children.len() > 0 {
        let j = last_accepting(m.children, v);
        &&& j >= 0
        &&& (m.children[j].keys.len() > 0 || m.children[j].children.len() == 0)
        &&& (m.children[j].keys.len() + 1 > default_limit() ==> m.keys.len() + 1 <= m.max_keys)
    } else {
        false
    }
}

/// The index of the first occurrence of `v` in `s`, or `-1` when absent.
pub open spec fn first_key_index(s: Seq<u32>, v: u32) -> int
    decreases s.len(),
{
    if s.len() == 0 {
        -1
    } else if s[0] == v {
        0
    } else if first_key_index(s.subrange(1, s.len() as int), v) < 0 {
        -1
    } else {
        1 + first_key_index(s.subrange(1, s.len() as int), v)
    }
}

/// The half-open range of child indices a removal of `v` may descend into:
/// children past the midpoint when `v` exceeds the middle key, otherwise
/// the children up to and including the midpoint.
pub open spec fn candidate_range(m: NodeModel, v: u32) -> (int, int) {
    let mid: int = m.keys.len() as int / 2;
    if v > m.keys[mid] {
        (mid + 1, m.children.len() as int)
    } else {
        (0, mid + 1)
    }
}

/// The node with its key list and children cleared, keeping the limit.
pub open spec fn cleared(m: NodeModel) -> NodeModel {
    NodeModel { keys: Seq::empty(), children: Seq::empty(), ..m }
}

/// Insert `vs` left to right, starting from `base`.  A value whose
/// insertion yields no result leaves the node unchanged; a rebuild after
/// an underfull removal reinserts its gathered keys this way.
pub open spec fn insert_all(base: NodeModel, vs: Seq<u32>) -> NodeModel
    decreases vs.len(),
{
    if vs.len() == 0 {
        base
    } else {
        let prev = insert_all(base, vs.subrange(0, vs.len() - 1));
        match insert_model(vs[vs.len() - 1], prev) {
            Some(next) => next,
            None => prev,
        }
    }
}

/// Every value of `vs` is accepted by the tree as it stands when that
/// value's turn comes.
pub open spec fn all_accepted(m: NodeModel, vs: Seq<u32>) -> bool {
    forall|i: int| 0 <= i < vs.len() ==> accepts(insert_all(m, #[trigger] vs.subrange(0, i)), vs[i])
}

/// Every insertion of `vs` is loss-free on the tree as it stands when its
/// turn comes.
pub open spec fn all_inserts_clean(m: NodeModel, vs: Seq<u32>) -> bool {
    forall|i: int|
        0 <= i < vs.len() ==> insert_clean(insert_all(m, #[trigger] vs.subrange(0, i)), vs[i])
}

/// The node after removing one occurrence of `v`: unchanged when the
/// removal reports absence.
pub open spec fn remove_step(v: u32, m: NodeModel) -> NodeModel {
    match remove_model(v, m) {
        Some(n) => n,
        None => m,
    }
}

/// Remove the values of `vs` left to right, starting from `base`.
pub open spec fn remove_all(base: NodeModel, vs: Seq<u32>) -> NodeModel
    decreases vs.len(),
{
    if vs.len() == 0 {
        base
    } else {
        remove_step(vs[vs.len() - 1], remove_all(base, vs.subrange(0, vs.len() - 1)))
    }
}

/// Every removal of `vs` runs to completion on the tree as it stands when
/// that value's turn comes.
pub open spec fn all_removes_safe(m: NodeModel, vs: Seq<u32>) -> bool {
    forall|i: int|
        0 <= i < vs.len() ==> remove_safe(vs[i], remove_all(m, #[trigger] vs.subrange(0, i)))
}

/// A removal that removes exactly one occurrence of `v` and loses nothing
/// else: the value sits in this node's own key list, or the scan finds a
/// child whose removal is itself exact, and an underfull child triggers a
/// rebuild whose reinsertions are all loss-free.
pub open spec fn remove_clean(v: u32, m: NodeModel) -> bool
    decreases m, 1int, 0int,
{
    if first_key_index(m.keys, v) >= 0 {
        true
    } else if m.children.len() > 0 {
        match remove_scan(v, m, candidate_range(m, v).0) {
            Some(jrm) => {
                let j = jrm.0;
                if 0 <= j < m.children.len() {
                    &&& remove_clean(v, m.children[j])
                    &&& (jrm.1.keys.len() < jrm.1.max_keys / 2 ==> all_inserts_clean(
                        cleared(m),
                        gather(m).remove(first_key_index(gather(m), v)),
                    ))
                } else {
                    false
                }
            },
            None => false,
        }
    } else {
        false
    }
}

/// Every removal of `vs` is exact on the tree as it stands when its turn
/// comes.
pub open spec fn all_removes_clean(m: NodeModel, vs: Seq<u32>) -> bool {
    forall|i: int|
        0 <= i < vs.len() ==> remove_clean(vs[i], remove_all(m, #[trigger] vs.subrange(0, i)))
}

/// The sorted sequence of every key of the subtree.
pub open spec fn gather(m: NodeModel) -> Seq<u32> {
    sort_keys(flatten(m))
}

/// Rebuild the whole node after an underfull removal: gather every key of
/// the subtree in order, drop the first occurrence of the removed value,
/// clear the node and reinsert the rest one at a time.
pub open spec fn rebalance_model(v: u32, m: NodeModel) -> NodeModel {
    let g = gather(m);
    let i: int = first_key_index(g, v);
    let rest = if i >= 0 {
        g.remove(i)
    } else {
        g
    };
    insert_all(cleared(m), rest)
}

/// Scan the candidate children from `j` upward for the first whose removal
/// succeeds; the result carries that child's index and its rebuilt value.
pub open spec fn remove_scan(v: u32, m: NodeModel, j: int) -> Option<(int, NodeModel)>
    decreases m, 0int, m.children.len() - j,
{
    let hi: int = candidate_range(m, v).1;
    if j < 0 || j >= hi || j >= m.children.len() {
        None
    } else {
        match remove_model(v, m.children[j]) {
            Some(rm) => Some((j, rm)),
            None => remove_scan(v, m, j + 1),
        }
    }
}

/// What `Node::remove` returns.  A key held directly in this node is
/// removed in place.  Otherwise an internal node scans its candidate
/// children; a successful child removal that left the child underfull
/// triggers a full rebuild of this node, and one that did not replaces the
/// child slot.  When nothing succeeds the value is reported absent.
pub open spec fn remove_model(v: u32, m: NodeModel) -> Option<NodeModel>
    decreases m, 1int, 0int,
{
    if first_key_index(m.keys, v) >= 0 {
        Some(NodeModel { keys: m.keys.remove(first_key_index(m.keys, v)), ..m })
    } else if m.children.len() > 0 {
        match remove_scan(v, m, candidate_range(m, v).0) {
            Some(jrm) => {
                let rm = jrm.1;
                if rm.keys.len() < rm.max_keys / 2 {
                    Some(rebalance_model(v, m))
                } else {
                    Some(NodeModel { children: m.children.update(jrm.0, rm), ..m })
                }
            },
            None => None,
        }
    } else {
        None
    }
}

/// A node a rebuild can continue from, given that `v` is the next value
/// to reinsert: an internal node, a node with no keys yet, or a leaf whose
/// first key does not exceed `v`.
pub open spec fn rebuild_ready(m: NodeModel, v: u32) -> bool {
    m.children.len() > 0 || m.keys.len() == 0 || m.keys[0] <= v
}

/// Scan prefix of `remove_safe`: every candidate inspected before the scan
/// stops is itself safe to descend into.
pub open spec fn scan_safe(v: u32, m: NodeModel, j: int) -> bool
    decreases m, 0int, m.children.len() - j,
{
    let hi: int = candidate_range(m, v).1;
    if j < 0 || j >= hi || j >= m.children.len() {
        true
    } else {
        remove_safe(v, m.children[j]) && match remove_model(v, m.children[j]) {
            Some(_) => true,
            None => scan_safe(v, m, j + 1),
        }
    }
}

/// The inputs on which a removal runs to completion.  An internal node that
/// does not hold `v` directly must still hold at least one key, its
/// children list must cover the candidate range, and every candidate the
/// scan reaches must be safe in turn.  A node whose key list holds `v`, and
/// any leaf, is always safe.
pub open spec fn remove_safe(v: u32, m: NodeModel) -> bool
    decreases m, 1int, 0int,
{
    if first_key_index(m.keys, v) >= 0 {
        true
    } else if m.children.len() > 0 {
        &&& m.keys.len() >= 1
        &&& m.keys.len() as int / 2 + 1 <= m.children.len() as int
        &&& scan_safe(v, m, candidate_range(m, v).0)
    } else {
        true
    }
}

} // verus!
