//! Proof lemmas about the node model.
use vstd::prelude::*;
use vstd::multiset::Multiset;
use vstd::seq_lib::lemma_multiset_commutative;

use crate::model::NodeModel;
use crate::model::can_accept;
use crate::model::cleared;
use crate::model::candidate_range;
use crate::model::first_key_index;
use crate::model::flatten;
use crate::model::flatten_children;
use crate::model::keyset;
use crate::model::keyset_of_children;
use crate::model::last_accepting;
use crate::model::remove_all;
use crate::model::remove_model;
use crate::model::remove_step;
use crate::model::remove_safe;
use crate::model::remove_scan;
use crate::model::scan_safe;
use crate::model::total;
use crate::model::total_of_children;
use crate::model::default_limit;
use crate::model::insert_into_children_model;
use crate::model::insert_model;
use crate::model::leaf_insert;
use crate::model::leaf_model;
use crate::model::insert_all;
use crate::model::rebuild_ready;
use crate::model::accepts;
use crate::model::all_accepted;
use crate::model::all_inserts_clean;
use crate::model::insert_child_sorted;
use crate::model::insert_clean;
use crate::model::all_removes_clean;
use crate::model::gather;
use crate::model::remove_at;
use crate::model::remove_clean;
use crate::model::node_le;
use crate::model::sort_children;
use crate::model::sort_keys;
use crate::model::sorted;
use crate::model::split_model;
use crate::model::with_sorted_children;
use crate::sorting::lemma_sort_children_len;
use crate::sorting::lemma_sort_keys_facts;

verus! {

/// The reverse scan stops at `j` exactly when `j` accepts and nothing
/// after it does.
pub proof fn lemma_last_accepting_at(s: Seq<NodeModel>, v: u32, j: int)
    requires
        0 <= j < s.len(),
        can_accept(s[j], v),
        forall|q: int| j < q < s.len() ==> !can_accept(s[q], v),
    ensures
        last_accepting(s, v) == j,
    decreases s.len(),
{
    if j < s.len() - 1 {
        let s0 = s.subrange(0, s.len() - 1);
        lemma_last_accepting_at(s0, v, j);
    }
}

/// When no child accepts, the reverse scan reports none.
pub proof fn lemma_last_accepting_none(s: Seq<NodeModel>, v: u32)
    requires
        forall|q: int| 0 <= q < s.len() ==> !can_accept(s[q], v),
    ensures
        last_accepting(s, v) == -1,
    decreases s.len(),
{
    if s.len() > 0 {
        lemma_last_accepting_none(s.subrange(0, s.len() - 1), v);
    }
}

/// The key count of a children list splits at any point.
pub proof fn lemma_total_children_split(s: Seq<NodeModel>, i: int)
    requires
        0 <= i <= s.len(),
    ensures
        total_of_children(s) == total_of_children(s.subrange(0, i)) + total_of_children(
            s.subrange(i, s.len() as int),
        ),
    decreases i,
{
    if i == 0 {
        assert(s.subrange(0, 0) =~= Seq::<NodeModel>::empty());
        assert(s.subrange(0, s.len() as int) =~= s);
    } else {
        let s1 = s.subrange(1, s.len() as int);
        lemma_total_children_split(s1, i - 1);
        assert(s.subrange(0, i).subrange(1, i) =~= s1.subrange(0, i - 1));
        assert(s1.subrange(i - 1, s1.len() as int) =~= s.subrange(i, s.len() as int));
        assert(total_of_children(s.subrange(0, i)) == total(s[0]) + total_of_children(
            s1.subrange(0, i - 1),
        ));
    }
}

/// A child's keys count into the keys of the children list.
pub proof fn lemma_keyset_children_member(s: Seq<NodeModel>, i: int, v: u32)
    requires
        0 <= i < s.len(),
    ensures
        keyset_of_children(s).count(v) >= keyset(s[i]).count(v),
    decreases s.len(),
{
    broadcast use vstd::multiset::group_multiset_axioms;

    if i > 0 {
        lemma_keyset_children_member(s.subrange(1, s.len() as int), i - 1, v);
    }
}

/// A key is stored below a children list exactly when some child's
/// subtree stores it.
pub proof fn lemma_keyset_children_contains(s: Seq<NodeModel>, v: u32)
    ensures
        keyset_of_children(s).count(v) > 0 <==> exists|i: int|
            0 <= i < s.len() && keyset(#[trigger] s[i]).count(v) > 0,
    decreases s.len(),
{
    broadcast use vstd::multiset::group_multiset_axioms;

    if s.len() > 0 {
        let s1 = s.subrange(1, s.len() as int);
        lemma_keyset_children_contains(s1, v);
        if keyset_of_children(s).count(v) > 0 {
            if keyset(s[0]).count(v) > 0 {
                assert(keyset(s[0]).count(v) > 0 && s[0] == s[0]);
            } else {
                let i = choose|i: int| 0 <= i < s1.len() && keyset(#[trigger] s1[i]).count(v) > 0;
                assert(s[i + 1] == s1[i]);
                assert(keyset(s[i + 1]).count(v) > 0);
            }
        }
        if exists|i: int| 0 <= i < s.len() && keyset(#[trigger] s[i]).count(v) > 0 {
            let i = choose|i: int| 0 <= i < s.len() && keyset(#[trigger] s[i]).count(v) > 0;
            if i > 0 {
                assert(s1[i - 1] == s[i]);
                assert(keyset(s1[i - 1]).count(v) > 0);
            }
        }
    }
}

/// Appending one node to a children list adds its key count.
pub proof fn lemma_total_children_snoc(s: Seq<NodeModel>, x: NodeModel)
    ensures
        total_of_children(s.push(x)) == total_of_children(s) + total(x),
    decreases s.len(),
{
    reveal_with_fuel(total_of_children, 3);
    if s.len() == 0 {
        assert(s.push(x).subrange(1, 1) =~= Seq::<NodeModel>::empty());
        assert(s.push(x)[0] == x);
    } else {
        let s1 = s.subrange(1, s.len() as int);
        lemma_total_children_snoc(s1, x);
        assert(s.push(x).subrange(1, s.len() as int + 1) =~= s1.push(x));
    }
}

/// Appending one node to a children list adds its key multiset.
pub proof fn lemma_keyset_children_snoc(s: Seq<NodeModel>, x: NodeModel)
    ensures
        keyset_of_children(s.push(x)) == keyset_of_children(s).add(keyset(x)),
    decreases s.len(),
{
    broadcast use vstd::multiset::group_multiset_axioms;

    reveal_with_fuel(keyset_of_children, 3);
    if s.len() == 0 {
        assert(s.push(x).subrange(1, 1) =~= Seq::<NodeModel>::empty());
        assert(s.push(x)[0] == x);
        assert(keyset_of_children(s.push(x)) =~= keyset_of_children(s).add(keyset(x)));
    } else {
        let s1 = s.subrange(1, s.len() as int);
        lemma_keyset_children_snoc(s1, x);
        assert(s.push(x).subrange(1, s.len() as int + 1) =~= s1.push(x));
        assert(keyset_of_children(s.push(x)) =~= keyset_of_children(s).add(keyset(x)));
    }
}

/// The multiset of the flattened subtree is the subtree's key multiset.
pub proof fn lemma_flatten_keyset(m: NodeModel)
    ensures
        flatten(m).to_multiset() == keyset(m),
    decreases m,
{
    lemma_flatten_children_keyset(m.children);
    lemma_multiset_commutative(m.keys, flatten_children(m.children));
    assert(flatten(m).to_multiset() =~= keyset(m));
}

/// The multiset of the flattened children is their key multiset.
pub proof fn lemma_flatten_children_keyset(s: Seq<NodeModel>)
    ensures
        flatten_children(s).to_multiset() == keyset_of_children(s),
    decreases s,
{
    broadcast use vstd::seq_lib::group_to_multiset_ensures;

    if s.len() == 0 {
        assert(flatten_children(s).to_multiset() =~= keyset_of_children(s));
    } else {
        let s1 = s.subrange(1, s.len() as int);
        lemma_flatten_keyset(s[0]);
        lemma_flatten_children_keyset(s1);
        lemma_multiset_commutative(flatten(s[0]), flatten_children(s1));
        assert(flatten_children(s).to_multiset() =~= keyset_of_children(s));
    }
}

/// The key count of a subtree is the size of its key multiset.
pub proof fn lemma_total_is_keyset_len(m: NodeModel)
    ensures
        total(m) == keyset(m).len(),
    decreases m,
{
    broadcast use vstd::multiset::group_multiset_axioms, vstd::seq_lib::group_to_multiset_ensures;

    lemma_total_children_is_keyset_len(m.children);
}

/// The key count below a children list is the size of its key multiset.
pub proof fn lemma_total_children_is_keyset_len(s: Seq<NodeModel>)
    ensures
        total_of_children(s) == keyset_of_children(s).len(),
    decreases s,
{
    broadcast use vstd::multiset::group_multiset_axioms, vstd::seq_lib::group_to_multiset_ensures;

    if s.len() > 0 {
        lemma_total_is_keyset_len(s[0]);
        lemma_total_children_is_keyset_len(s.subrange(1, s.len() as int));
    }
}

/// The first-occurrence search reports `i` exactly when `s[i]` is the value
/// and nothing before it is.
pub proof fn lemma_first_key_index_at(s: Seq<u32>, v: u32, i: int)
    requires
        0 <= i < s.len(),
        s[i] == v,
        forall|q: int| 0 <= q < i ==> s[q] != v,
    ensures
        first_key_index(s, v) == i,
    decreases i,
{
    if i > 0 {
        lemma_first_key_index_at(s.subrange(1, s.len() as int), v, i - 1);
    }
}

/// When the value occurs nowhere, the search reports none.
pub proof fn lemma_first_key_index_none(s: Seq<u32>, v: u32)
    requires
        forall|q: int| 0 <= q < s.len() ==> s[q] != v,
    ensures
        first_key_index(s, v) == -1,
    decreases s.len(),
{
    if s.len() > 0 {
        lemma_first_key_index_none(s.subrange(1, s.len() as int), v);
    }
}

/// A successful scan pins the first succeeding candidate: everything
/// before it failed, and the result comes from that child.
pub proof fn lemma_remove_scan_some(v: u32, m: NodeModel, j0: int)
    requires
        remove_scan(v, m, j0) is Some,
    ensures
        ({
            let (j, rm) = remove_scan(v, m, j0).unwrap();
            &&& j0 <= j < candidate_range(m, v).1
            &&& j < m.children.len()
            &&& remove_model(v, m.children[j]) == Some(rm)
            &&& forall|q: int| j0 <= q < j ==> remove_model(v, #[trigger] m.children[q]) is None
        }),
    decreases m, 0int, m.children.len() - j0,
{
    if remove_model(v, m.children[j0]) is None {
        lemma_remove_scan_some(v, m, j0 + 1);
    }
}

/// Candidates that failed do not change the rest of the scan.
pub proof fn lemma_scan_prefix(v: u32, m: NodeModel, j0: int, j: int)
    requires
        0 <= j0 <= j <= candidate_range(m, v).1,
        candidate_range(m, v).1 <= m.children.len(),
        forall|q: int| j0 <= q < j ==> remove_model(v, #[trigger] m.children[q]) is None,
    ensures
        remove_scan(v, m, j0) == remove_scan(v, m, j),
    decreases j - j0,
{
    if j0 < j {
        lemma_scan_prefix(v, m, j0 + 1, j);
    }
}

/// Along a scan whose earlier candidates failed, every candidate reached
/// is safe to descend into.
pub proof fn lemma_scan_safe_descend(v: u32, m: NodeModel, j0: int, j: int)
    requires
        scan_safe(v, m, j0),
        0 <= j0 <= j < candidate_range(m, v).1,
        j < m.children.len(),
        forall|q: int| j0 <= q < j ==> remove_model(v, #[trigger] m.children[q]) is None,
    ensures
        remove_safe(v, m.children[j]),
    decreases j - j0,
{
    if j0 < j {
        lemma_scan_safe_descend(v, m, j0 + 1, j);
    }
}

/// A removal only succeeds when the value is stored in the subtree.
pub proof fn lemma_remove_some_present(v: u32, m: NodeModel)
    requires
        remove_model(v, m) is Some,
    ensures
        keyset(m).count(v) >= 1,
    decreases m,
{
    broadcast use vstd::multiset::group_multiset_axioms, vstd::seq_lib::group_to_multiset_ensures;

    if first_key_index(m.keys, v) >= 0 {
        lemma_first_key_index_found(m.keys, v);
        assert(m.keys.to_multiset().count(v) >= 1);
    } else {
        let jrm = remove_scan(v, m, candidate_range(m, v).0).unwrap();
        lemma_remove_scan_some(v, m, candidate_range(m, v).0);
        lemma_remove_some_present(v, m.children[jrm.0]);
        lemma_keyset_children_member(m.children, jrm.0, v);
    }
}

/// A non-negative first-occurrence index points at the value.
pub proof fn lemma_first_key_index_found(s: Seq<u32>, v: u32)
    requires
        first_key_index(s, v) >= 0,
    ensures
        0 <= first_key_index(s, v) < s.len(),
        s[first_key_index(s, v)] == v,
        s.contains(v),
    decreases s.len(),
{
    if s.len() > 0 && s[0] != v {
        lemma_first_key_index_found(s.subrange(1, s.len() as int), v);
    }
}

/// The reverse scan reports none or a valid index.
pub proof fn lemma_last_accepting_bounds(s: Seq<NodeModel>, v: u32)
    ensures
        -1 <= last_accepting(s, v) < s.len(),
    decreases s.len(),
{
    if s.len() > 0 && !can_accept(s[s.len() - 1], v) {
        lemma_last_accepting_bounds(s.subrange(0, s.len() - 1), v);
    }
}

/// When the value occurs in the sequence, the search finds it.
pub proof fn lemma_first_key_index_exists(s: Seq<u32>, v: u32)
    requires
        s.contains(v),
    ensures
        first_key_index(s, v) >= 0,
    decreases s.len(),
{
    if s.len() > 0 && s[0] != v {
        let s1 = s.subrange(1, s.len() as int);
        let i = choose|i: int| 0 <= i < s.len() && s[i] == v;
        assert(s1[i - 1] == v);
        lemma_first_key_index_exists(s1, v);
    }
}

/// One step of a rebuild: a ready node accepts the next value, and the
/// result is ready for any value at least as large.
pub proof fn lemma_rebuild_step(m: NodeModel, v: u32, w: u32)
    requires
        rebuild_ready(m, v),
        v <= w,
    ensures
        insert_model(v, m) is Some,
        rebuild_ready(insert_model(v, m).unwrap(), w),
{
    broadcast use vstd::seq_lib::group_to_multiset_ensures, vstd::multiset::group_multiset_axioms;

    if can_accept(m, v) {
        let pushed = m.keys.push(v);
        let ks = sort_keys(pushed);
        lemma_sort_keys_facts(pushed);
        let lm = leaf_model(ks);
        let r = leaf_insert(v, m);
        if ks.len() <= default_limit() {
            assert(split_model(lm) == lm);
            assert(sort_children(Seq::<NodeModel>::empty()) == Seq::<NodeModel>::empty());
            assert(r =~= lm);
            assert(pushed[pushed.len() - 1] == v);
            assert(pushed.contains(v));
            assert(pushed.to_multiset().count(v) > 0);
            assert(ks.to_multiset().count(v) > 0);
            assert(ks.contains(v));
            let idx = choose|idx: int| 0 <= idx < ks.len() && ks[idx] == v;
            assert(ks[0] <= ks[idx]);
            assert(r.keys[0] <= w);
        } else {
            lemma_sort_children_len(split_model(lm).children);
            assert(split_model(lm).children.len() == 2);
            assert(r.children.len() == 2);
        }
    } else {
        assert(m.keys.len() > 0);
        if m.children.len() == 0 {
            assert(m.keys[0] <= v);
            assert(can_accept(m, v));
        }
        assert(m.children.len() > 0);
        let t = insert_into_children_model(v, m);
        let j = last_accepting(m.children, v);
        lemma_last_accepting_bounds(m.children, v);
        if j >= 0 {
            let inserted = leaf_insert(v, m.children[j]);
            if inserted.children.len() > 0 {
                let combined = NodeModel {
                    max_keys: m.max_keys,
                    keys: m.keys + inserted.keys,
                    children: inserted.children + crate::model::remove_at(m.children, j),
                };
                assert(combined.children.len() > 0);
                assert(split_model(combined).children.len() > 0);
            }
        }
        assert(t.children.len() > 0);
        lemma_sort_children_len(t.children);
        assert(insert_model(v, m).unwrap().children.len() > 0);
    }
}

/// Extending a left-to-right insertion by one value applies one insertion
/// to its result.
pub proof fn lemma_insert_all_snoc(base: NodeModel, vs: Seq<u32>, v: u32)
    ensures
        insert_all(base, vs.push(v)) == (match insert_model(v, insert_all(base, vs)) {
            Some(n) => n,
            None => insert_all(base, vs),
        }),
{
    let t = vs.push(v);
    assert(t.subrange(0, t.len() - 1) =~= vs);
    assert(t[t.len() - 1] == v);
}

/// Extending a left-to-right removal by one value applies one removal to
/// its result.
pub proof fn lemma_remove_all_snoc(base: NodeModel, vs: Seq<u32>, v: u32)
    ensures
        remove_all(base, vs.push(v)) == remove_step(v, remove_all(base, vs)),
{
    let t = vs.push(v);
    assert(t.subrange(0, t.len() - 1) =~= vs);
    assert(t[t.len() - 1] == v);
}

/// The key multiset of a concatenated children list adds up.
pub proof fn lemma_keyset_children_add(a: Seq<NodeModel>, b: Seq<NodeModel>)
    ensures
        keyset_of_children(a + b) == keyset_of_children(a).add(keyset_of_children(b)),
    decreases a.len(),
{
    broadcast use vstd::multiset::group_multiset_axioms;

    if a.len() == 0 {
        assert(a + b =~= b);
        assert(keyset_of_children(a + b) =~= keyset_of_children(a).add(keyset_of_children(b)));
    } else {
        let a1 = a.subrange(1, a.len() as int);
        lemma_keyset_children_add(a1, b);
        assert((a + b)[0] == a[0]);
        assert((a + b).subrange(1, (a + b).len() as int) =~= a1 + b);
        assert(keyset_of_children(a + b) =~= keyset_of_children(a).add(keyset_of_children(b)));
    }
}

/// Sorted insertion of a child adds its keys to the list's key multiset.
pub proof fn lemma_insert_child_sorted_keyset(s: Seq<NodeModel>, x: NodeModel)
    ensures
        keyset_of_children(insert_child_sorted(s, x)) == keyset_of_children(s).add(keyset(x)),
    decreases s.len(),
{
    broadcast use vstd::multiset::group_multiset_axioms;

    reveal_with_fuel(keyset_of_children, 3);
    if s.len() == 0 {
        assert(insert_child_sorted(s, x) == seq![x]);
        assert(seq![x].subrange(1, 1) =~= Seq::<NodeModel>::empty());
        assert(keyset_of_children(insert_child_sorted(s, x)) =~= keyset_of_children(s).add(
            keyset(x),
        ));
    } else if node_le(s[0], x) {
        let s1 = s.subrange(1, s.len() as int);
        lemma_insert_child_sorted_keyset(s1, x);
        let r = insert_child_sorted(s, x);
        assert(r == seq![s[0]] + insert_child_sorted(s1, x));
        assert(r[0] == s[0]);
        assert(r.subrange(1, r.len() as int) =~= insert_child_sorted(s1, x));
        assert(keyset_of_children(r) =~= keyset_of_children(s).add(keyset(x)));
    } else {
        let r = insert_child_sorted(s, x);
        assert(r == seq![x] + s);
        assert(r[0] == x);
        assert(r.subrange(1, r.len() as int) =~= s);
        assert(keyset_of_children(r) =~= keyset_of_children(s).add(keyset(x)));
    }
}

/// Sorting a children list keeps its key multiset.
pub proof fn lemma_sort_children_keyset(s: Seq<NodeModel>)
    ensures
        keyset_of_children(sort_children(s)) == keyset_of_children(s),
    decreases s.len(),
{
    broadcast use vstd::multiset::group_multiset_axioms;

    if s.len() > 0 {
        let s0 = s.subrange(0, s.len() - 1);
        lemma_sort_children_keyset(s0);
        lemma_insert_child_sorted_keyset(sort_children(s0), s[s.len() - 1]);
        lemma_keyset_children_snoc(s0, s[s.len() - 1]);
        assert(s0.push(s[s.len() - 1]) =~= s);
    }
}

/// A non-negative reverse-scan result points at an accepting child.
pub proof fn lemma_last_accepting_found(s: Seq<NodeModel>, v: u32)
    requires
        last_accepting(s, v) >= 0,
    ensures
        last_accepting(s, v) < s.len(),
        can_accept(s[last_accepting(s, v)], v),
    decreases s.len(),
{
    if s.len() > 0 && !can_accept(s[s.len() - 1], v) {
        lemma_last_accepting_found(s.subrange(0, s.len() - 1), v);
    }
}

/// The shape of a leaf insertion: it splits exactly when the widened key
/// list exceeds the default limit, a split leaves one key and two
/// children, and without a split the node is the sorted leaf itself.
pub proof fn lemma_leaf_insert_shape(c: NodeModel, v: u32)
    ensures
        leaf_insert(v, c).children.len() > 0 <==> c.keys.len() + 1 > default_limit(),
        leaf_insert(v, c).children.len() > 0 ==> leaf_insert(v, c).keys.len() == 1
            && leaf_insert(v, c).children.len() == 2,
        leaf_insert(v, c).children.len() == 0 ==> leaf_insert(v, c).keys == sort_keys(
            c.keys.push(v),
        ),
{
    let ks = sort_keys(c.keys.push(v));
    lemma_sort_keys_facts(c.keys.push(v));
    let lm = leaf_model(ks);
    if ks.len() <= default_limit() {
        assert(split_model(lm) == lm);
        assert(sort_children(Seq::<NodeModel>::empty()) == Seq::<NodeModel>::empty());
    } else {
        lemma_sort_children_len(split_model(lm).children);
    }
}

/// A leaf insertion into a childless node adds exactly the value.
pub proof fn lemma_leaf_insert_keyset(c: NodeModel, v: u32)
    requires
        c.children.len() == 0,
    ensures
        keyset(leaf_insert(v, c)) == keyset(c).insert(v),
{
    broadcast use vstd::multiset::group_multiset_axioms, vstd::seq_lib::group_to_multiset_ensures;

    let pushed = c.keys.push(v);
    let ks = sort_keys(pushed);
    lemma_sort_keys_facts(pushed);
    let lm = leaf_model(ks);
    assert(keyset_of_children(c.children) == Multiset::<u32>::empty());
    assert(keyset(c) =~= c.keys.to_multiset());
    assert(pushed.to_multiset() == c.keys.to_multiset().insert(v));
    if ks.len() <= default_limit() {
        assert(split_model(lm) == lm);
        assert(sort_children(Seq::<NodeModel>::empty()) == Seq::<NodeModel>::empty());
        assert(keyset_of_children(lm.children) == Multiset::<u32>::empty());
        assert(keyset(leaf_insert(v, c)) =~= keyset(c).insert(v));
    } else {
        let mid: int = ks.len() as int / 2;
        let left = ks.subrange(0, mid);
        let right = ks.subrange(mid + 1, ks.len() as int);
        let sp = split_model(lm);
        assert(sp.children == seq![leaf_model(left), leaf_model(right)]);
        lemma_sort_children_keyset(sp.children);
        assert(keyset_of_children(sp.children) =~= keyset(leaf_model(left)).add(
            keyset(leaf_model(right)),
        )) by {
            reveal_with_fuel(keyset_of_children, 3);
            assert(sp.children.subrange(1, 2) =~= seq![leaf_model(right)]);
            assert(seq![leaf_model(right)].subrange(1, 1) =~= Seq::<NodeModel>::empty());
        }
        assert(keyset(leaf_model(left)) =~= left.to_multiset());
        assert(keyset(leaf_model(right)) =~= right.to_multiset());
        assert(ks =~= left + seq![ks[mid]] + right);
        lemma_multiset_commutative(left + seq![ks[mid]], right);
        lemma_multiset_commutative(left, seq![ks[mid]]);
        assert(seq![ks[mid]].to_multiset() =~= Multiset::<u32>::empty().insert(ks[mid]));
        assert(keyset(leaf_insert(v, c)) =~= keyset(c).insert(v));
    }
}

/// A loss-free insertion stores exactly one more occurrence of the value.
pub proof fn lemma_insert_clean_keyset(m: NodeModel, v: u32)
    requires
        insert_clean(m, v),
    ensures
        insert_model(v, m) is Some,
        keyset(insert_model(v, m).unwrap()) == keyset(m).insert(v),
{
    broadcast use vstd::multiset::group_multiset_axioms, vstd::seq_lib::group_to_multiset_ensures;

    if can_accept(m, v) {
        if m.keys.len() > 0 {
            assert(m.children.len() == 0);
        }
        lemma_leaf_insert_keyset(m, v);
    } else {
        let s = m.children;
        let j = last_accepting(s, v);
        lemma_last_accepting_found(s, v);
        let c = s[j];
        assert(c.children.len() == 0);
        let inserted = leaf_insert(v, c);
        lemma_leaf_insert_keyset(c, v);
        lemma_leaf_insert_shape(c, v);
        let remaining = remove_at(s, j);
        assert(s =~= s.subrange(0, j) + seq![c] + s.subrange(j + 1, s.len() as int));
        lemma_keyset_children_add(s.subrange(0, j) + seq![c], s.subrange(j + 1, s.len() as int));
        lemma_keyset_children_add(s.subrange(0, j), seq![c]);
        lemma_keyset_children_add(s.subrange(0, j), s.subrange(j + 1, s.len() as int));
        assert(keyset_of_children(seq![c]) =~= keyset(c)) by {
            reveal_with_fuel(keyset_of_children, 2);
            assert(seq![c].subrange(1, 1) =~= Seq::<NodeModel>::empty());
        }
        let t = insert_into_children_model(v, m);
        if inserted.children.len() > 0 {
            let combined = NodeModel {
                max_keys: m.max_keys,
                keys: m.keys + inserted.keys,
                children: inserted.children + remaining,
            };
            assert(m.keys.len() + 1 <= m.max_keys);
            assert(inserted.keys.len() == 1);
            assert(!crate::model::needs_split(combined));
            assert(t == combined);
            lemma_keyset_children_add(inserted.children, remaining);
            lemma_multiset_commutative(m.keys, inserted.keys);
            assert(keyset_of_children(s) =~= keyset_of_children(s.subrange(0, j)).add(
                keyset(c),
            ).add(keyset_of_children(s.subrange(j + 1, s.len() as int))));
            assert(keyset_of_children(remaining) =~= keyset_of_children(s.subrange(0, j)).add(
                keyset_of_children(s.subrange(j + 1, s.len() as int)),
            ));
            assert(keyset(combined) == (m.keys + inserted.keys).to_multiset().add(
                keyset_of_children(inserted.children + remaining),
            ));
            assert(keyset(inserted) == inserted.keys.to_multiset().add(
                keyset_of_children(inserted.children),
            ));
            assert(keyset(m) == m.keys.to_multiset().add(keyset_of_children(s)));
            assert forall|x: u32| keyset(t).count(x) == keyset(m).insert(v).count(x) by {
                assert(keyset(t).count(x) == m.keys.to_multiset().count(x)
                    + inserted.keys.to_multiset().count(x) + keyset_of_children(
                    inserted.children,
                ).count(x) + keyset_of_children(s.subrange(0, j)).count(x) + keyset_of_children(
                    s.subrange(j + 1, s.len() as int),
                ).count(x));
                assert(keyset(inserted).count(x) == keyset(c).insert(v).count(x));
                assert(keyset(m).insert(v).count(x) == m.keys.to_multiset().count(x)
                    + keyset_of_children(s.subrange(0, j)).count(x) + keyset(c).count(x)
                    + keyset_of_children(s.subrange(j + 1, s.len() as int)).count(x) + (if x == v {
                    1int
                } else {
                    0int
                }));
            }
            assert(keyset(t) =~= keyset(m).insert(v));
        } else {
            assert(t == (NodeModel { children: seq![inserted] + remaining, ..m }));
            lemma_keyset_children_add(seq![inserted], remaining);
            assert(keyset_of_children(seq![inserted]) =~= keyset(inserted)) by {
                reveal_with_fuel(keyset_of_children, 2);
                assert(seq![inserted].subrange(1, 1) =~= Seq::<NodeModel>::empty());
            }
            assert(keyset(t) =~= keyset(m).insert(v));
        }
        lemma_sort_children_keyset(t.children);
        assert(keyset(with_sorted_children(t)) =~= keyset(t));
    }
}

/// A chain of loss-free insertions is accepted throughout and adds
/// exactly the inserted multiset.
pub proof fn lemma_insert_all_keyset(m: NodeModel, vs: Seq<u32>)
    requires
        all_inserts_clean(m, vs),
    ensures
        all_accepted(m, vs),
        keyset(insert_all(m, vs)) == keyset(m).add(vs.to_multiset()),
    decreases vs.len(),
{
    broadcast use vstd::multiset::group_multiset_axioms, vstd::seq_lib::group_to_multiset_ensures;

    if vs.len() == 0 {
        assert(vs.to_multiset() =~= Multiset::<u32>::empty());
        assert(keyset(insert_all(m, vs)) =~= keyset(m).add(vs.to_multiset()));
        assert(all_accepted(m, vs));
    } else {
        let vs0 = vs.subrange(0, vs.len() - 1);
        let last = vs[vs.len() - 1];
        assert(all_inserts_clean(m, vs0)) by {
            assert forall|i: int| 0 <= i < vs0.len() implies insert_clean(
                insert_all(m, #[trigger] vs0.subrange(0, i)),
                vs0[i],
            ) by {
                assert(vs0.subrange(0, i) =~= vs.subrange(0, i));
                assert(insert_clean(insert_all(m, vs.subrange(0, i)), vs[i]));
            }
        }
        lemma_insert_all_keyset(m, vs0);
        let prev = insert_all(m, vs0);
        assert(vs.subrange(0, vs.len() - 1) =~= vs0);
        assert(insert_clean(prev, last));
        lemma_insert_clean_keyset(prev, last);
        assert(insert_all(m, vs) == insert_model(last, prev).unwrap());
        assert(vs =~= vs0.push(last));
        assert(vs.to_multiset() == vs0.to_multiset().insert(last));
        assert(keyset(insert_all(m, vs)) =~= keyset(m).add(vs.to_multiset()));
        assert(all_accepted(m, vs)) by {
            assert forall|i: int| 0 <= i < vs.len() implies accepts(
                insert_all(m, #[trigger] vs.subrange(0, i)),
                vs[i],
            ) by {
                assert(insert_clean(insert_all(m, vs.subrange(0, i)), vs[i]));
            }
        }
    }
}

/// An exact removal takes away exactly one occurrence of the value.
pub proof fn lemma_remove_clean_keyset(v: u32, m: NodeModel)
    requires
        remove_clean(v, m),
    ensures
        remove_model(v, m) is Some,
        keyset(m).count(v) >= 1,
        keyset(remove_model(v, m).unwrap()) == keyset(m).remove(v),
    decreases m,
{
    broadcast use vstd::multiset::group_multiset_axioms, vstd::seq_lib::group_to_multiset_ensures;

    let s = m.children;
    if first_key_index(m.keys, v) >= 0 {
        let i = first_key_index(m.keys, v);
        lemma_first_key_index_found(m.keys, v);
        assert(m.keys.remove(i).to_multiset() == m.keys.to_multiset().remove(v));
        assert(m.keys.to_multiset().count(v) >= 1);
        let r = remove_model(v, m).unwrap();
        assert(r == (NodeModel { keys: m.keys.remove(i), ..m }));
        assert(keyset(r) =~= keyset(m).remove(v));
    } else {
        let jrm = remove_scan(v, m, candidate_range(m, v).0).unwrap();
        lemma_remove_scan_some(v, m, candidate_range(m, v).0);
        let j = jrm.0;
        let c = s[j];
        let rm = jrm.1;
        lemma_remove_clean_keyset(v, c);
        assert(keyset(rm) == keyset(c).remove(v));
        lemma_keyset_children_member(s, j, v);
        assert(keyset(m).count(v) >= 1);
        assert(s =~= s.subrange(0, j) + seq![c] + s.subrange(j + 1, s.len() as int));
        lemma_keyset_children_add(s.subrange(0, j) + seq![c], s.subrange(j + 1, s.len() as int));
        lemma_keyset_children_add(s.subrange(0, j), seq![c]);
        assert(keyset_of_children(seq![c]) =~= keyset(c)) by {
            reveal_with_fuel(keyset_of_children, 2);
            assert(seq![c].subrange(1, 1) =~= Seq::<NodeModel>::empty());
        }
        if rm.keys.len() < rm.max_keys / 2 {
            let g = gather(m);
            lemma_sort_keys_facts(flatten(m));
            lemma_flatten_keyset(m);
            assert(g.to_multiset() == keyset(m));
            assert(g.contains(v));
            lemma_first_key_index_exists(g, v);
            let idx = first_key_index(g, v);
            lemma_first_key_index_found(g, v);
            let rest = g.remove(idx);
            assert(rest.to_multiset() == g.to_multiset().remove(v));
            lemma_insert_all_keyset(cleared(m), rest);
            assert(keyset(cleared(m)) =~= Multiset::<u32>::empty()) by {
                assert(Seq::<u32>::empty().to_multiset() =~= Multiset::<u32>::empty());
            }
            assert(remove_model(v, m).unwrap() == crate::model::rebalance_model(v, m));
            assert(keyset(crate::model::rebalance_model(v, m)) =~= keyset(m).remove(v));
        } else {
            let r = remove_model(v, m).unwrap();
            assert(r == (NodeModel { children: s.update(j, rm), ..m }));
            assert(s.update(j, rm) =~= s.subrange(0, j) + seq![rm] + s.subrange(
                j + 1,
                s.len() as int,
            ));
            lemma_keyset_children_add(
                s.subrange(0, j) + seq![rm],
                s.subrange(j + 1, s.len() as int),
            );
            lemma_keyset_children_add(s.subrange(0, j), seq![rm]);
            assert(keyset_of_children(seq![rm]) =~= keyset(rm)) by {
                reveal_with_fuel(keyset_of_children, 2);
                assert(seq![rm].subrange(1, 1) =~= Seq::<NodeModel>::empty());
            }
            assert(keyset(c).count(v) >= 1);
            assert forall|x: u32| keyset(r).count(x) == keyset(m).remove(v).count(x) by {
                assert(keyset(r).count(x) == m.keys.to_multiset().count(x) + keyset_of_children(
                    s.subrange(0, j),
                ).count(x) + keyset(rm).count(x) + keyset_of_children(
                    s.subrange(j + 1, s.len() as int),
                ).count(x));
                assert(keyset(m).count(x) == m.keys.to_multiset().count(x) + keyset_of_children(
                    s.subrange(0, j),
                ).count(x) + keyset(c).count(x) + keyset_of_children(
                    s.subrange(j + 1, s.len() as int),
                ).count(x));
                assert(keyset(rm).count(x) == keyset(c).remove(v).count(x));
            }
            assert(keyset(r) =~= keyset(m).remove(v));
        }
    }
}

/// A chain of exact removals takes away exactly one key per value.
pub proof fn lemma_remove_all_len(m: NodeModel, vs: Seq<u32>)
    requires
        all_removes_clean(m, vs),
    ensures
        keyset(remove_all(m, vs)).len() + vs.len() == keyset(m).len(),
    decreases vs.len(),
{
    broadcast use vstd::multiset::group_multiset_axioms;

    if vs.len() > 0 {
        let vs0 = vs.subrange(0, vs.len() - 1);
        let last = vs[vs.len() - 1];
        assert(all_removes_clean(m, vs0)) by {
            assert forall|i: int| 0 <= i < vs0.len() implies remove_clean(
                vs0[i],
                remove_all(m, #[trigger] vs0.subrange(0, i)),
            ) by {
                assert(vs0.subrange(0, i) =~= vs.subrange(0, i));
                assert(remove_clean(vs[i], remove_all(m, vs.subrange(0, i))));
            }
        }
        lemma_remove_all_len(m, vs0);
        let prev = remove_all(m, vs0);
        assert(vs.subrange(0, vs.len() - 1) =~= vs0);
        assert(remove_clean(last, prev));
        lemma_remove_clean_keyset(last, prev);
        let nxt = remove_all(m, vs);
        assert(nxt == remove_model(last, prev).unwrap());
        assert(keyset(nxt) == keyset(prev).remove(last));
        assert(Multiset::<u32>::singleton(last).subset_of(keyset(prev))) by {
            assert(Multiset::<u32>::singleton(last).count(last) == 1);
            assert forall|x: u32|
                Multiset::<u32>::singleton(last).count(x) <= keyset(prev).count(x) by {
                if x != last {
                    assert(Multiset::<u32>::singleton(last).count(x) == 0);
                }
            }
        }
        assert(keyset(nxt).len() == keyset(prev).len() - 1);
    }
}

/// A value stored nowhere in a subtree cannot be removed from it.
pub proof fn lemma_absent_remove_none(v: u32, m: NodeModel)
    requires
        keyset(m).count(v) == 0,
    ensures
        remove_model(v, m) is None,
    decreases m, 1int, 0int,
{
    broadcast use vstd::multiset::group_multiset_axioms, vstd::seq_lib::group_to_multiset_ensures;

    assert(m.keys.to_multiset().count(v) == 0);
    assert(!m.keys.contains(v));
    if first_key_index(m.keys, v) >= 0 {
        lemma_first_key_index_found(m.keys, v);
    }
    if m.children.len() > 0 {
        lemma_absent_scan_none(v, m, candidate_range(m, v).0);
    }
}

/// No candidate child of a subtree that lacks the value can remove it.
proof fn lemma_absent_scan_none(v: u32, m: NodeModel, j: int)
    requires
        keyset(m).count(v) == 0,
    ensures
        remove_scan(v, m, j) is None,
    decreases m, 0int, m.children.len() - j,
{
    broadcast use vstd::multiset::group_multiset_axioms;

    let hi = candidate_range(m, v).1;
    if !(j < 0 || j >= hi || j >= m.children.len()) {
        lemma_keyset_children_member(m.children, j, v);
        lemma_absent_remove_none(v, m.children[j]);
        lemma_absent_scan_none(v, m, j + 1);
    }
}

/// Taking one element out of a sorted run leaves it sorted.
pub proof fn lemma_sorted_remove_keeps_sorted(s: Seq<u32>, i: int)
    requires
        sorted(s),
        0 <= i < s.len(),
    ensures
        sorted(s.remove(i)),
{
    let rest = s.remove(i);
    assert forall|a: int, b: int| 0 <= a <= b < rest.len() implies rest[a] <= rest[b] by {
        assert(rest[a] == if a < i {
            s[a]
        } else {
            s[a + 1]
        });
        assert(rest[b] == if b < i {
            s[b]
        } else {
            s[b + 1]
        });
    }
}

} // verus!
