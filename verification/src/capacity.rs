//! How many sorted keys a rebuild can take without loss.
//!
//! Reinserting keys in ascending order grows a leaf to five keys, splits
//! it, and then fills and splits the rightmost child over and over, the
//! root absorbing one key per split.  The root itself would split — and
//! drop its children — on the seventeenth key.  The lemmas here pin the
//! shape of every intermediate tree and show that up to sixteen sorted
//! insertions into an empty node are all loss-free.
use vstd::prelude::*;

use crate::model::NodeModel;
use crate::model::all_inserts_clean;
use crate::model::can_accept;
use crate::model::default_limit;
use crate::model::insert_all;
use crate::model::insert_clean;
use crate::model::insert_into_children_model;
use crate::model::insert_model;
use crate::model::key_seq_le;
use crate::model::last_accepting;
use crate::model::leaf_insert;
use crate::model::leaf_model;
use crate::model::node_le;
use crate::model::remove_at;
use crate::model::sort_children;
use crate::model::sort_keys;
use crate::model::sorted;
use crate::model::sorted_nodes;
use crate::model::split_model;
use crate::model::with_sorted_children;
use crate::lemmas::lemma_insert_all_snoc;
use crate::lemmas::lemma_last_accepting_at;
use crate::sorting::lemma_key_seq_le_antisym;
use crate::sorting::lemma_key_seq_le_extend;
use crate::sorting::lemma_key_seq_le_refl;
use crate::sorting::lemma_key_seq_le_trans;
use crate::sorting::lemma_sort_children_append_max;
use crate::sorting::lemma_sort_children_facts;
use crate::sorting::lemma_sort_children_len;
use crate::sorting::lemma_sort_keys_push_end;

verus! {

/// Every key of `s` is at most `b`.
pub open spec fn keys_le(s: Seq<u32>, b: u32) -> bool {
    forall|q: int| 0 <= q < s.len() ==> s[q] <= b
}

/// The shape a rebuild's tree has after `k` ascending insertions, every
/// inserted key at most `b`: first a growing sorted leaf, then a root
/// whose children are two-key leaves except for the rightmost, which
/// fills from two to four keys before it splits and hands the root one
/// more key.
pub open spec fn rebuild_shape(m: NodeModel, k: int, b: u32) -> bool {
    if k <= 0 {
        m.keys.len() == 0 && m.children.len() == 0
    } else if k <= 4 {
        &&& m.max_keys == default_limit()
        &&& m.children.len() == 0
        &&& m.keys.len() == k
        &&& sorted(m.keys)
        &&& keys_le(m.keys, b)
    } else {
        let r = m.keys.len() as int;
        let n = m.children.len() as int;
        &&& m.max_keys == default_limit()
        &&& r >= 1
        &&& n == r + 1
        &&& k == 3 * r + m.children[n - 1].keys.len()
        &&& 2 <= m.children[n - 1].keys.len() <= 4
        &&& (forall|q: int| 0 <= q < n - 1 ==> (#[trigger] m.children[q]).keys.len() == 2)
        &&& (forall|q: int| 0 <= q < n ==> (#[trigger] m.children[q]).children.len() == 0)
        &&& (forall|q: int| 0 <= q < n ==> sorted((#[trigger] m.children[q]).keys))
        &&& (forall|q: int| 0 <= q < n ==> keys_le((#[trigger] m.children[q]).keys, b))
        &&& sorted_nodes(m.children)
    }
}

/// An overfull five-key sorted run splits into two-key halves around its
/// middle, and the left half does not exceed the right one.
proof fn lemma_five_key_split(ks: Seq<u32>)
    requires
        ks.len() == 5,
        sorted(ks),
    ensures
        node_le(leaf_model(ks.subrange(0, 2)), leaf_model(ks.subrange(3, 5))),
        sort_children(seq![leaf_model(ks.subrange(0, 2)), leaf_model(ks.subrange(3, 5))])
            == seq![leaf_model(ks.subrange(0, 2)), leaf_model(ks.subrange(3, 5))],
        split_model(leaf_model(ks)) == (NodeModel {
            max_keys: default_limit(),
            keys: seq![ks[2]],
            children: seq![leaf_model(ks.subrange(0, 2)), leaf_model(ks.subrange(3, 5))],
        }),
{
    let left = ks.subrange(0, 2);
    let right = ks.subrange(3, 5);
    assert(key_seq_le(left, right)) by {
        reveal_with_fuel(key_seq_le, 4);
        assert(left[0] == ks[0] && left[1] == ks[1]);
        assert(right[0] == ks[3] && right[1] == ks[4]);
        if ks[0] == ks[3] {
            assert(ks[1] == ks[3]);
            assert(left.subrange(1, 2) =~= seq![ks[1]]);
            assert(right.subrange(1, 2) =~= seq![ks[4]]);
            assert(seq![ks[1]].subrange(1, 1) =~= Seq::<u32>::empty());
        }
    }
    assert(sort_children(seq![leaf_model(left), leaf_model(right)]) == seq![
        leaf_model(left),
        leaf_model(right),
    ]) by {
        reveal_with_fuel(sort_children, 3);
        reveal_with_fuel(crate::model::insert_child_sorted, 3);
        let pair = seq![leaf_model(left), leaf_model(right)];
        assert(pair.subrange(0, 1) =~= seq![leaf_model(left)]);
        assert(seq![leaf_model(left)].subrange(0, 0) =~= Seq::<NodeModel>::empty());
        assert(sort_children(seq![leaf_model(left)]) == seq![leaf_model(left)]);
        assert(insert_child_sorted_pair(leaf_model(left), leaf_model(right)) == pair);
    }
    assert(split_model(leaf_model(ks)).children =~= seq![leaf_model(left), leaf_model(right)]);
    assert(split_model(leaf_model(ks)) =~= (NodeModel {
        max_keys: default_limit(),
        keys: seq![ks[2]],
        children: seq![leaf_model(left), leaf_model(right)],
    }));
}

/// Sorted insertion of `b` into the singleton list holding `a`.
spec fn insert_child_sorted_pair(a: NodeModel, b: NodeModel) -> Seq<NodeModel> {
    crate::model::insert_child_sorted(seq![a], b)
}

/// One ascending insertion into a tree of rebuild shape is loss-free and
/// keeps the shape.
proof fn lemma_rebuild_shape_step(m: NodeModel, k: int, v: u32, w: u32)
    requires
        rebuild_shape(m, k, v),
        0 <= k <= 15,
        v <= w,
    ensures
        insert_clean(m, v),
        insert_model(v, m) is Some,
        rebuild_shape(insert_model(v, m).unwrap(), k + 1, w),
{
    broadcast use vstd::seq_lib::group_to_multiset_ensures;

    if k == 0 {
        assert(can_accept(m, v));
        let pushed = m.keys.push(v);
        assert(pushed =~= seq![v]);
        lemma_sort_keys_push_end(m.keys, v);
        let ks = sort_keys(pushed);
        assert(ks == pushed);
        assert(!crate::model::needs_split(leaf_model(ks)));
        assert(sort_children(Seq::<NodeModel>::empty()) == Seq::<NodeModel>::empty());
        let r = leaf_insert(v, m);
        assert(r =~= leaf_model(ks));
        assert(rebuild_shape(r, 1, w));
    } else if k <= 4 {
        assert(m.keys[0] <= v);
        assert(can_accept(m, v));
        assert(insert_clean(m, v));
        lemma_sort_keys_push_end(m.keys, v);
        let pushed = m.keys.push(v);
        let ks = sort_keys(pushed);
        assert(ks == pushed);
        assert(sorted(ks));
        assert(keys_le(ks, w));
        if k <= 3 {
            assert(!crate::model::needs_split(leaf_model(ks)));
            assert(sort_children(Seq::<NodeModel>::empty()) == Seq::<NodeModel>::empty());
            let r = leaf_insert(v, m);
            assert(r =~= leaf_model(ks));
            assert(rebuild_shape(r, k + 1, w));
        } else {
            assert(ks.len() == 5);
            lemma_five_key_split(ks);
            let left = ks.subrange(0, 2);
            let right = ks.subrange(3, 5);
            let sp = split_model(leaf_model(ks));
            let r = leaf_insert(v, m);
            assert(r == with_sorted_children(sp));
            assert(r.children == seq![leaf_model(left), leaf_model(right)]);
            assert(r.keys == seq![ks[2]]);
            assert(rebuild_shape(r, 5, w)) by {
                assert(r.children[1] == leaf_model(right));
                assert(r.children[1].keys.len() == 2);
                assert(r.children[0].keys.len() == 2);
                assert(sorted(left));
                assert(sorted(right));
                assert(keys_le(left, w));
                assert(keys_le(right, w));
                assert(sorted_nodes(r.children)) by {
                    lemma_key_seq_le_refl(left);
                    lemma_key_seq_le_refl(right);
                }
            }
        }
    } else {
        let r = m.keys.len() as int;
        let n = m.children.len() as int;
        let c = m.children[n - 1];
        assert(!can_accept(m, v));
        assert(can_accept(c, v)) by {
            assert(c.keys[0] <= v);
        }
        lemma_last_accepting_at(m.children, v, n - 1);
        assert(last_accepting(m.children, v) == n - 1);
        let l = c.keys.len() as int;
        assert(insert_clean(m, v)) by {
            if l + 1 > 4 {
                assert(k == 3 * r + 4);
                assert(3 * r <= 11);
                assert(r <= 3);
            }
        }
        lemma_sort_keys_push_end(c.keys, v);
        let pushed = c.keys.push(v);
        let ks = sort_keys(pushed);
        assert(ks == pushed);
        let inserted = leaf_insert(v, c);
        let remaining = remove_at(m.children, n - 1);
        assert(remaining =~= m.children.subrange(0, n - 1));
        let t = insert_into_children_model(v, m);
        let result = insert_model(v, m).unwrap();
        assert(result == with_sorted_children(t));
        if l <= 3 {
            assert(!crate::model::needs_split(leaf_model(ks)));
            assert(sort_children(Seq::<NodeModel>::empty()) == Seq::<NodeModel>::empty());
            assert(inserted =~= leaf_model(ks));
            assert(inserted.children.len() == 0);
            assert(t == (NodeModel { children: seq![inserted] + remaining, ..m }));
            assert(sorted_nodes(remaining));
            assert forall|i: int| 0 <= i < remaining.len() implies node_le(
                #[trigger] remaining[i],
                inserted,
            ) by {
                assert(remaining[i] == m.children[i]);
                assert(node_le(m.children[i], c));
                assert(c.keys + seq![v] =~= inserted.keys);
                lemma_key_seq_le_extend(c.keys, seq![v]);
                lemma_key_seq_le_trans(m.children[i].keys, c.keys, inserted.keys);
            }
            assert forall|i: int| 0 <= i < remaining.len() implies (node_le(
                inserted,
                #[trigger] remaining[i],
            ) ==> remaining[i] == inserted) by {
                if node_le(inserted, remaining[i]) {
                    lemma_key_seq_le_antisym(inserted.keys, remaining[i].keys);
                    assert(remaining[i].keys.len() == 2);
                    assert(inserted.keys.len() == l + 1);
                    assert(false);
                }
            }
            lemma_sort_children_append_max(remaining, inserted);
            assert(result.children == remaining.push(inserted));
            assert(rebuild_shape(result, k + 1, w)) by {
                assert(result.keys.len() == r);
                assert(result.children.len() == n);
                assert(result.children[n - 1] == inserted);
                assert(inserted.keys.len() == l + 1);
                assert(forall|q: int|
                    0 <= q < n - 1 ==> #[trigger] result.children[q] == m.children[q]);
                assert(sorted(inserted.keys));
                assert(keys_le(inserted.keys, w)) by {
                    assert(forall|q: int| 0 <= q < l ==> #[trigger] inserted.keys[q] == c.keys[q]);
                    assert(inserted.keys[l] == v);
                }
                assert(sorted_nodes(result.children)) by {
                    assert forall|i: int, j: int|
                        0 <= i <= j < result.children.len() implies node_le(
                        result.children[i],
                        result.children[j],
                    ) by {
                        if j < n - 1 {
                            assert(node_le(m.children[i], m.children[j]));
                        } else if i < n - 1 {
                            assert(node_le(remaining[i], inserted));
                        } else {
                            lemma_key_seq_le_refl(inserted.keys);
                        }
                    }
                }
            }
        } else {
            assert(l == 4);
            assert(ks.len() == 5);
            lemma_five_key_split(ks);
            let left = ks.subrange(0, 2);
            let right = ks.subrange(3, 5);
            let sp = split_model(leaf_model(ks));
            assert(inserted == with_sorted_children(sp));
            assert(inserted.children == seq![leaf_model(left), leaf_model(right)]);
            assert(inserted.keys == seq![ks[2]]);
            assert(inserted.children.len() == 2);
            let combined = NodeModel {
                max_keys: m.max_keys,
                keys: m.keys + inserted.keys,
                children: inserted.children + remaining,
            };
            assert(r + 1 <= 4);
            assert(!crate::model::needs_split(combined));
            assert(t == combined);
            lemma_sort_children_facts(combined.children);
            lemma_sort_children_len(combined.children);
            assert(result.children == sort_children(combined.children));
            assert(result.children.len() == n + 1);
            assert(result.keys.len() == r + 1);
            assert(k + 1 == 3 * (r + 1) + 2);
            assert forall|q: int| 0 <= q < combined.children.len() implies two_key_leaf(
                #[trigger] combined.children[q],
                w,
            ) by {
                if q == 0 {
                    assert(combined.children[0] == leaf_model(left));
                } else if q == 1 {
                    assert(combined.children[1] == leaf_model(right));
                } else {
                    assert(combined.children[q] == m.children[q - 2]);
                }
            }
            assert forall|q: int| 0 <= q < result.children.len() implies two_key_leaf(
                #[trigger] result.children[q],
                w,
            ) by {
                assert(result.children.contains(result.children[q]));
                assert(result.children.to_multiset().count(result.children[q]) > 0);
                assert(combined.children.to_multiset().count(result.children[q]) > 0);
                assert(combined.children.contains(result.children[q]));
                let p = choose|p: int|
                    0 <= p < combined.children.len() && combined.children[p] == result.children[q];
                assert(two_key_leaf(combined.children[p], w));
            }
            assert(rebuild_shape(result, k + 1, w)) by {
                assert(result.children[result.children.len() - 1].keys.len() == 2);
            }
        }
    }
}

/// A two-key leaf with sorted keys bounded by `b`.
spec fn two_key_leaf(c: NodeModel, b: u32) -> bool {
    &&& c.keys.len() == 2
    &&& c.children.len() == 0
    &&& sorted(c.keys)
    &&& keys_le(c.keys, b)
}

/// Up to sixteen insertions in ascending order into an empty node are all
/// loss-free: none is rejected and none drops a key.
pub proof fn lemma_sorted_small_rebuild_clean(base: NodeModel, vs: Seq<u32>)
    requires
        base.keys.len() == 0,
        base.children.len() == 0,
        sorted(vs),
        vs.len() <= 16,
    ensures
        all_inserts_clean(base, vs),
{
    assert forall|i: int| 0 <= i < vs.len() implies insert_clean(
        insert_all(base, #[trigger] vs.subrange(0, i)),
        vs[i],
    ) by {
        lemma_rebuild_chain(base, vs, i);
        lemma_rebuild_shape_step(insert_all(base, vs.subrange(0, i)), i, vs[i], vs[i]);
    }
}

/// After `i` insertions of a sorted run the tree has rebuild shape for
/// the next value.
proof fn lemma_rebuild_chain(base: NodeModel, vs: Seq<u32>, i: int)
    requires
        base.keys.len() == 0,
        base.children.len() == 0,
        sorted(vs),
        vs.len() <= 16,
        0 <= i < vs.len(),
    ensures
        rebuild_shape(insert_all(base, vs.subrange(0, i)), i, vs[i]),
    decreases i,
{
    if i == 0 {
        assert(vs.subrange(0, 0) =~= Seq::<u32>::empty());
        assert(insert_all(base, vs.subrange(0, 0)) == base);
    } else {
        lemma_rebuild_chain(base, vs, i - 1);
        let prev = insert_all(base, vs.subrange(0, i - 1));
        lemma_rebuild_shape_step(prev, i - 1, vs[i - 1], vs[i]);
        lemma_insert_all_snoc(base, vs.subrange(0, i - 1), vs[i - 1]);
        assert(vs.subrange(0, i - 1).push(vs[i - 1]) =~= vs.subrange(0, i));
        assert(insert_all(base, vs.subrange(0, i)) == insert_model(vs[i - 1], prev).unwrap());
    }
}

} // verus!
