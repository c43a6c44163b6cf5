//! Laws of the tree, stated over the model and proved once and for all.
//!
//! Each law speaks about the model functions that the executable
//! operations' contracts pin their results to, so it carries over to any
//! run of the executable tree.  Insertions and removals here are
//! restricted to *loss-free* steps (`insert_clean`, `remove_clean`): the
//! tree's ad hoc splitting drops an overfull root's children and its
//! reverse-scan routing can drop a value no child accepts, so the laws
//! hold exactly on the steps that stay within those bounds.
use vstd::prelude::*;
use vstd::multiset::Multiset;

use crate::model::NodeModel;
use crate::model::all_inserts_clean;
use crate::model::all_removes_clean;
use crate::model::cleared;
use crate::model::default_model;
use crate::model::first_key_index;
use crate::model::flatten;
use crate::model::gather;
use crate::model::insert_all;
use crate::model::keyset;
use crate::model::rebalance_model;
use crate::model::remove_all;
use crate::model::remove_model;
use crate::model::remove_step;
use crate::model::total;
use crate::lemmas::lemma_absent_remove_none;
use crate::lemmas::lemma_first_key_index_exists;
use crate::lemmas::lemma_first_key_index_found;
use crate::lemmas::lemma_flatten_keyset;
use crate::lemmas::lemma_insert_all_keyset;
use crate::lemmas::lemma_remove_all_len;
use crate::lemmas::lemma_total_is_keyset_len;
use crate::sorting::lemma_sort_keys_facts;
use crate::sorting::lemma_sorted_is_sort_keys;
use crate::capacity::lemma_sorted_small_rebuild_clean;
use crate::lemmas::lemma_sorted_remove_keeps_sorted;
use crate::model::sorted;

verus! {

/// The empty tree stores nothing.
pub proof fn law_default_tree_is_empty()
    ensures
        keyset(default_model()) == Multiset::<u32>::empty(),
        total(default_model()) == 0,
{
    broadcast use vstd::seq_lib::group_to_multiset_ensures;

    lemma_total_is_keyset_len(default_model());
    assert(keyset(default_model()) =~= Multiset::<u32>::empty());
}

/// Count/insert agreement: a sequence of loss-free insertions into an
/// empty tree leaves the tree holding exactly as many keys as were
/// inserted.
pub proof fn law_count_after_inserts(vs: Seq<u32>)
    requires
        all_inserts_clean(default_model(), vs),
    ensures
        total(insert_all(default_model(), vs)) == vs.len(),
{
    broadcast use vstd::multiset::group_multiset_axioms, vstd::seq_lib::group_to_multiset_ensures;

    law_default_tree_is_empty();
    lemma_insert_all_keyset(default_model(), vs);
    lemma_total_is_keyset_len(insert_all(default_model(), vs));
    assert(keyset(insert_all(default_model(), vs)) =~= vs.to_multiset());
}

/// Remove/count agreement: after loss-free insertions into an empty tree,
/// a chain of exact removals leaves the count lower by exactly the number
/// of removals.
pub proof fn law_count_after_removals(ins: Seq<u32>, rem: Seq<u32>)
    requires
        all_inserts_clean(default_model(), ins),
        all_removes_clean(insert_all(default_model(), ins), rem),
    ensures
        total(remove_all(insert_all(default_model(), ins), rem)) + rem.len() == ins.len(),
{
    broadcast use vstd::seq_lib::group_to_multiset_ensures;

    let t = insert_all(default_model(), ins);
    law_count_after_inserts(ins);
    lemma_remove_all_len(t, rem);
    lemma_total_is_keyset_len(t);
    lemma_total_is_keyset_len(remove_all(t, rem));
}

/// A loss-free insertion makes the value a member; an exact removal of a
/// value stored once makes it a non-member.
pub proof fn law_membership_after_mutation(m: NodeModel, v: u32)
    requires
        crate::model::insert_clean(m, v),
    ensures
        keyset(crate::model::insert_model(v, m).unwrap()).count(v) > 0,
{
    broadcast use vstd::multiset::group_multiset_axioms;

    crate::lemmas::lemma_insert_clean_keyset(m, v);
}

/// An exact removal of a value the tree stores exactly once makes it a
/// non-member.
pub proof fn law_member_gone_after_exact_removal(v: u32, m: NodeModel)
    requires
        crate::model::remove_clean(v, m),
        keyset(m).count(v) == 1,
    ensures
        remove_model(v, m) is Some,
        keyset(remove_model(v, m).unwrap()).count(v) == 0,
{
    broadcast use vstd::multiset::group_multiset_axioms;

    crate::lemmas::lemma_remove_clean_keyset(v, m);
}

/// Idempotent no-op removal: removing a value the tree does not store
/// reports absence and leaves every stored key, and hence the count,
/// unchanged.
pub proof fn law_absent_removal_is_noop(v: u32, m: NodeModel)
    requires
        keyset(m).count(v) == 0,
    ensures
        remove_model(v, m) is None,
        remove_step(v, m) == m,
{
    lemma_absent_remove_none(v, m);
}

/// Order independence of final content: two loss-free insertion sequences
/// over the same multiset of values, starting from the empty tree, store
/// the same keys, and their flattened sorted key sequences are identical,
/// whatever shapes the two trees took.
pub proof fn law_insert_order_independent(vs1: Seq<u32>, vs2: Seq<u32>)
    requires
        vs1.to_multiset() == vs2.to_multiset(),
        all_inserts_clean(default_model(), vs1),
        all_inserts_clean(default_model(), vs2),
    ensures
        keyset(insert_all(default_model(), vs1)) == keyset(insert_all(default_model(), vs2)),
        gather(insert_all(default_model(), vs1)) == gather(insert_all(default_model(), vs2)),
{
    broadcast use vstd::multiset::group_multiset_axioms;

    law_default_tree_is_empty();
    lemma_insert_all_keyset(default_model(), vs1);
    lemma_insert_all_keyset(default_model(), vs2);
    let a = insert_all(default_model(), vs1);
    let b = insert_all(default_model(), vs2);
    assert(keyset(a) =~= keyset(b));
    lemma_flatten_keyset(a);
    lemma_flatten_keyset(b);
    lemma_sort_keys_facts(flatten(a));
    lemma_sorted_is_sort_keys(gather(a), flatten(b));
}

/// Underflow rebuild preserves remaining keys: when a removal triggers the
/// full rebuild of a node and the reinsertions of the rebuild are all
/// loss-free, the rebuilt subtree stores the old keys minus exactly one
/// occurrence of the removed value, and its flattened sorted key sequence
/// is the old one with that single occurrence taken out.
pub proof fn law_underflow_rebuild_preserves_keys(v: u32, m: NodeModel)
    requires
        keyset(m).count(v) >= 1,
        all_inserts_clean(cleared(m), gather(m).remove(first_key_index(gather(m), v))),
    ensures
        keyset(rebalance_model(v, m)) == keyset(m).remove(v),
        gather(rebalance_model(v, m)) == gather(m).remove(first_key_index(gather(m), v)),
{
    broadcast use vstd::multiset::group_multiset_axioms, vstd::seq_lib::group_to_multiset_ensures;

    let g = gather(m);
    lemma_sort_keys_facts(flatten(m));
    lemma_flatten_keyset(m);
    assert(g.to_multiset() == keyset(m));
    assert(g.contains(v));
    lemma_first_key_index_exists(g, v);
    let idx = first_key_index(g, v);
    lemma_first_key_index_found(g, v);
    let rest = g.remove(idx);
    assert(rest.to_multiset() == g.to_multiset().remove(v));
    lemma_insert_all_keyset(cleared(m), rest);
    assert(keyset(cleared(m)) =~= Multiset::<u32>::empty()) by {
        assert(Seq::<u32>::empty().to_multiset() =~= Multiset::<u32>::empty());
    }
    assert(keyset(rebalance_model(v, m)) =~= keyset(m).remove(v));
    let r = rebalance_model(v, m);
    assert forall|a: int, b: int| 0 <= a <= b < rest.len() implies rest[a] <= rest[b] by {
        assert(rest[a] == if a < idx {
            g[a]
        } else {
            g[a + 1]
        });
        assert(rest[b] == if b < idx {
            g[b]
        } else {
            g[b + 1]
        });
    }
    lemma_flatten_keyset(r);
    lemma_sorted_is_sort_keys(rest, flatten(r));
}

/// A concrete family the count law applies to outright: any ascending run
/// of at most sixteen keys is loss-free from the empty tree, so the tree
/// then holds exactly as many keys as were inserted.
pub proof fn law_count_after_sorted_inserts(vs: Seq<u32>)
    requires
        sorted(vs),
        vs.len() <= 16,
    ensures
        crate::model::all_inserts_clean(default_model(), vs),
        total(insert_all(default_model(), vs)) == vs.len(),
{
    lemma_sorted_small_rebuild_clean(default_model(), vs);
    law_count_after_inserts(vs);
}

/// A concrete family the rebuild law applies to outright: a subtree of at
/// most seventeen keys rebuilds exactly, since the sixteen or fewer keys
/// it reinserts go back in ascending order and stay within capacity.
pub proof fn law_small_underflow_rebuild(v: u32, m: NodeModel)
    requires
        keyset(m).count(v) >= 1,
        total(m) <= 17,
    ensures
        keyset(rebalance_model(v, m)) == keyset(m).remove(v),
        gather(rebalance_model(v, m)) == gather(m).remove(first_key_index(gather(m), v)),
{
    broadcast use vstd::multiset::group_multiset_axioms, vstd::seq_lib::group_to_multiset_ensures;

    let g = gather(m);
    lemma_sort_keys_facts(flatten(m));
    crate::lemmas::lemma_flatten_keyset(m);
    lemma_total_is_keyset_len(m);
    assert(g.to_multiset() == keyset(m));
    assert(g.len() == total(m));
    assert(g.contains(v));
    lemma_first_key_index_exists(g, v);
    let idx = first_key_index(g, v);
    lemma_first_key_index_found(g, v);
    lemma_sorted_remove_keeps_sorted(g, idx);
    let rest = g.remove(idx);
    assert(rest.len() <= 16);
    lemma_sorted_small_rebuild_clean(cleared(m), rest);
    law_underflow_rebuild_preserves_keys(v, m);
}

} // verus!
