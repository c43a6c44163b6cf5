//! Sorted insertion and stable sorting of key lists and children lists.
use vstd::prelude::*;
use vstd::multiset::Multiset;
use vstd::seq_lib::lemma_multiset_commutative;
use vstd::seq_lib::lemma_sorted_unique;

use crate::model::NodeModel;
use crate::model::insert_child_sorted;
use crate::model::insert_key_sorted;
use crate::model::key_seq_le;
use crate::model::node_le;
use crate::model::sort_children;
use crate::model::sort_keys;
use crate::model::sorted;
use crate::model::sorted_nodes;
use crate::node::Node;
use crate::node::models_of;
use crate::node::lemma_models_of_len;
use crate::node::lemma_models_of_index;
use crate::node::lemma_models_of_insert;
use crate::node::lemma_models_of_push;
use crate::node::lemma_models_of_subrange;
use crate::node::lemma_view_parts;

verus! {

broadcast use
    {lemma_models_of_len, lemma_models_of_index, lemma_models_of_insert, lemma_models_of_push,
    lemma_models_of_subrange, lemma_view_parts};

/// Sorted insertion keeps the length, adds the value to the multiset,
/// keeps order, and introduces no foreign elements.
pub proof fn lemma_insert_key_sorted_facts(s: Seq<u32>, v: u32)
    ensures
        insert_key_sorted(s, v).len() == s.len() + 1,
        insert_key_sorted(s, v).to_multiset() == s.to_multiset().insert(v),
        sorted(s) ==> sorted(insert_key_sorted(s, v)),
        forall|i: int|
            0 <= i < insert_key_sorted(s, v).len() ==> (#[trigger] insert_key_sorted(s, v)[i] == v
                || s.contains(insert_key_sorted(s, v)[i])),
    decreases s.len(),
{
    broadcast use vstd::seq_lib::group_to_multiset_ensures;

    let r = insert_key_sorted(s, v);
    if s.len() == 0 {
        assert(r =~= Seq::empty().push(v));
        assert(r.to_multiset() =~= s.to_multiset().insert(v));
    } else if s[0] <= v {
        let s1 = s.subrange(1, s.len() as int);
        lemma_insert_key_sorted_facts(s1, v);
        let r1 = insert_key_sorted(s1, v);
        assert(r == seq![s[0]] + r1);
        lemma_multiset_commutative(seq![s[0]], r1);
        lemma_multiset_commutative(seq![s[0]], s1);
        assert(s =~= seq![s[0]] + s1);
        assert(seq![s[0]].to_multiset() =~= Multiset::empty().insert(s[0]));
        assert(r.to_multiset() =~= s.to_multiset().insert(v));
        assert forall|i: int| 0 <= i < r.len() implies (#[trigger] r[i] == v || s.contains(
            r[i],
        )) by {
            if i == 0 {
                assert(s[0] == r[0]);
            } else {
                assert(r[i] == r1[i - 1]);
                if r1[i - 1] != v {
                    let j = choose|j: int| 0 <= j < s1.len() && s1[j] == r1[i - 1];
                    assert(s[j + 1] == r[i]);
                }
            }
        }
        if sorted(s) {
            assert(sorted(s1));
            assert forall|i: int, j: int| 0 <= i <= j < r.len() implies r[i] <= r[j] by {
                if i == 0 && j > 0 {
                    if r1[j - 1] != v {
                        let k = choose|k: int| 0 <= k < s1.len() && s1[k] == r1[j - 1];
                        assert(s[0] <= s[k + 1]);
                    }
                }
            }
        }
    } else {
        assert(r == seq![v] + s);
        lemma_multiset_commutative(seq![v], s);
        assert(seq![v].to_multiset() =~= Multiset::empty().insert(v));
        assert(r.to_multiset() =~= s.to_multiset().insert(v));
    }
}

/// Where the scan for the insertion point stopped, the inserted sequence
/// decomposes around that point.
pub proof fn lemma_insert_key_sorted_at(s: Seq<u32>, v: u32, p: int)
    requires
        0 <= p <= s.len(),
        forall|q: int| 0 <= q < p ==> s[q] <= v,
        p < s.len() ==> s[p] > v,
    ensures
        insert_key_sorted(s, v) == s.insert(p, v),
    decreases p,
{
    if p == 0 {
        if s.len() == 0 {
            assert(insert_key_sorted(s, v) =~= s.insert(0, v));
        } else {
            assert(insert_key_sorted(s, v) =~= s.insert(0, v));
        }
    } else {
        let s1 = s.subrange(1, s.len() as int);
        lemma_insert_key_sorted_at(s1, v, p - 1);
        assert(insert_key_sorted(s, v) == seq![s[0]] + insert_key_sorted(s1, v));
        assert(seq![s[0]] + s1.insert(p - 1, v) =~= s.insert(p, v));
    }
}

/// Sorting one more element on the right is sorted insertion into the
/// sorted prefix.
pub proof fn lemma_sort_keys_push(s: Seq<u32>, v: u32)
    ensures
        sort_keys(s.push(v)) == insert_key_sorted(sort_keys(s), v),
{
    let t = s.push(v);
    assert(t.subrange(0, t.len() - 1) =~= s);
    assert(t[t.len() - 1] == v);
}

/// The sort is sorted, keeps the multiset, and keeps the length.
pub proof fn lemma_sort_keys_facts(s: Seq<u32>)
    ensures
        sorted(sort_keys(s)),
        sort_keys(s).to_multiset() == s.to_multiset(),
        sort_keys(s).len() == s.len(),
    decreases s.len(),
{
    broadcast use vstd::seq_lib::group_to_multiset_ensures;

    if s.len() == 0 {
        assert(sort_keys(s).to_multiset() =~= s.to_multiset());
    } else {
        let s0 = s.subrange(0, s.len() - 1);
        lemma_sort_keys_facts(s0);
        lemma_insert_key_sorted_facts(sort_keys(s0), s[s.len() - 1]);
        assert(s =~= s0.push(s[s.len() - 1]));
        assert(s.to_multiset() == s0.to_multiset().insert(s[s.len() - 1]));
    }
}

/// A sorted sequence with the multiset of `s` is exactly `sort_keys(s)`.
pub proof fn lemma_sorted_is_sort_keys(r: Seq<u32>, s: Seq<u32>)
    requires
        sorted(r),
        r.to_multiset() == s.to_multiset(),
    ensures
        r == sort_keys(s),
{
    lemma_sort_keys_facts(s);
    let leq = |x: u32, y: u32| x <= y;
    assert(vstd::relations::total_ordering(leq));
    assert(vstd::relations::sorted_by(r, leq));
    assert(vstd::relations::sorted_by(sort_keys(s), leq));
    lemma_sorted_unique(r, sort_keys(s), leq);
    assert(r =~= sort_keys(s));
}

/// Sort the keys of a list into a fresh list.
pub fn sort_keys_vec(input: Vec<u32>) -> (r: Vec<u32>)
    ensures
        r@ == sort_keys(input@),
{
    let mut out: Vec<u32> = Vec::new();
    let mut i: usize = 0;
    while i < input.len()
        invariant
            i <= input.len(),
            out@ == sort_keys(input@.subrange(0, i as int)),
        decreases input.len() - i,
    {
        let v = input[i];
        let mut p: usize = 0;
        while p < out.len() && out[p] <= v
            invariant
                p <= out.len(),
                forall|q: int| 0 <= q < p ==> out@[q] <= v,
            decreases out.len() - p,
        {
            p = p + 1;
        }
        proof {
            lemma_insert_key_sorted_at(out@, v, p as int);
            lemma_sort_keys_push(input@.subrange(0, i as int), v);
            assert(input@.subrange(0, i as int).push(v) =~= input@.subrange(0, i + 1));
        }
        out.insert(p, v);
        i = i + 1;
    }
    proof {
        assert(input@.subrange(0, input@.len() as int) =~= input@);
    }
    out
}

/// One step of the lexicographic comparison: once the prefixes agree, the
/// comparison is decided by the first difference, or by the lengths.
proof fn lemma_key_seq_le_decide(a: Seq<u32>, b: Seq<u32>, i: int)
    requires
        0 <= i <= a.len(),
        i <= b.len(),
        forall|q: int| 0 <= q < i ==> a[q] == b[q],
    ensures
        i == a.len() ==> key_seq_le(a, b),
        i < a.len() && i == b.len() ==> !key_seq_le(a, b),
        i < a.len() && i < b.len() && a[i] < b[i] ==> key_seq_le(a, b),
        i < a.len() && i < b.len() && b[i] < a[i] ==> !key_seq_le(a, b),
    decreases i,
{
    if i > 0 {
        let a1 = a.subrange(1, a.len() as int);
        let b1 = b.subrange(1, b.len() as int);
        lemma_key_seq_le_decide(a1, b1, i - 1);
    }
}

/// Whether `a` precedes `b` in the children order: lexicographic by keys.
fn node_le_exec(a: &Node, b: &Node) -> (r: bool)
    ensures
        r == node_le(a@, b@),
{
    let mut i: usize = 0;
    loop
        invariant
            i <= a.keys.len(),
            i <= b.keys.len(),
            forall|q: int| 0 <= q < i ==> a.keys@[q] == b.keys@[q],
        decreases a.keys.len() - i,
    {
        if i >= a.keys.len() {
            proof {
                lemma_key_seq_le_decide(a.keys@, b.keys@, i as int);
            }
            return true;
        }
        if i >= b.keys.len() {
            proof {
                lemma_key_seq_le_decide(a.keys@, b.keys@, i as int);
            }
            return false;
        }
        if a.keys[i] < b.keys[i] {
            proof {
                lemma_key_seq_le_decide(a.keys@, b.keys@, i as int);
            }
            return true;
        }
        if b.keys[i] < a.keys[i] {
            proof {
                lemma_key_seq_le_decide(a.keys@, b.keys@, i as int);
            }
            return false;
        }
        i = i + 1;
    }
}

/// Where the scan for the insertion point stopped, the inserted children
/// list decomposes around that point.
pub proof fn lemma_insert_child_sorted_at(s: Seq<NodeModel>, x: NodeModel, p: int)
    requires
        0 <= p <= s.len(),
        forall|q: int| 0 <= q < p ==> node_le(s[q], x),
        p < s.len() ==> !node_le(s[p], x),
    ensures
        insert_child_sorted(s, x) == s.insert(p, x),
    decreases p,
{
    if p == 0 {
        assert(insert_child_sorted(s, x) =~= s.insert(0, x));
    } else {
        let s1 = s.subrange(1, s.len() as int);
        lemma_insert_child_sorted_at(s1, x, p - 1);
        assert(insert_child_sorted(s, x) == seq![s[0]] + insert_child_sorted(s1, x));
        assert(seq![s[0]] + s1.insert(p - 1, x) =~= s.insert(p, x));
    }
}

/// Sorting one more child on the right is sorted insertion into the
/// sorted prefix.
pub proof fn lemma_sort_children_push(s: Seq<NodeModel>, x: NodeModel)
    ensures
        sort_children(s.push(x)) == insert_child_sorted(sort_children(s), x),
{
    let t = s.push(x);
    assert(t.subrange(0, t.len() - 1) =~= s);
    assert(t[t.len() - 1] == x);
}

/// Sorted insertion of a child adds one to the length.
pub proof fn lemma_insert_child_sorted_len(s: Seq<NodeModel>, x: NodeModel)
    ensures
        insert_child_sorted(s, x).len() == s.len() + 1,
    decreases s.len(),
{
    if s.len() > 0 && node_le(s[0], x) {
        lemma_insert_child_sorted_len(s.subrange(1, s.len() as int), x);
    }
}

/// Sorting a children list keeps its length.
pub proof fn lemma_sort_children_len(s: Seq<NodeModel>)
    ensures
        sort_children(s).len() == s.len(),
    decreases s.len(),
{
    if s.len() > 0 {
        lemma_sort_children_len(s.subrange(0, s.len() - 1));
        lemma_insert_child_sorted_len(sort_children(s.subrange(0, s.len() - 1)), s[s.len() - 1]);
    }
}

/// The lexicographic key order is reflexive.
pub proof fn lemma_key_seq_le_refl(a: Seq<u32>)
    ensures
        key_seq_le(a, a),
    decreases a.len(),
{
    if a.len() > 0 {
        lemma_key_seq_le_refl(a.subrange(1, a.len() as int));
    }
}

/// The lexicographic key order is total.
pub proof fn lemma_key_seq_le_total(a: Seq<u32>, b: Seq<u32>)
    ensures
        key_seq_le(a, b) || key_seq_le(b, a),
    decreases a.len(),
{
    if a.len() > 0 && b.len() > 0 && a[0] == b[0] {
        lemma_key_seq_le_total(a.subrange(1, a.len() as int), b.subrange(1, b.len() as int));
    }
}

/// Two key lists below each other are the same list.
pub proof fn lemma_key_seq_le_antisym(a: Seq<u32>, b: Seq<u32>)
    requires
        key_seq_le(a, b),
        key_seq_le(b, a),
    ensures
        a == b,
    decreases a.len(),
{
    if a.len() > 0 && b.len() > 0 && a[0] == b[0] {
        lemma_key_seq_le_antisym(a.subrange(1, a.len() as int), b.subrange(1, b.len() as int));
        assert(a =~= seq![a[0]] + a.subrange(1, a.len() as int));
        assert(b =~= seq![b[0]] + b.subrange(1, b.len() as int));
    } else {
        assert(a.len() == 0 && b.len() == 0);
        assert(a =~= b);
    }
}

/// The lexicographic key order is transitive.
pub proof fn lemma_key_seq_le_trans(a: Seq<u32>, b: Seq<u32>, c: Seq<u32>)
    requires
        key_seq_le(a, b),
        key_seq_le(b, c),
    ensures
        key_seq_le(a, c),
    decreases a.len(),
{
    if a.len() > 0 && b.len() > 0 && c.len() > 0 && a[0] == b[0] && b[0] == c[0] {
        lemma_key_seq_le_trans(
            a.subrange(1, a.len() as int),
            b.subrange(1, b.len() as int),
            c.subrange(1, c.len() as int),
        );
    }
}

/// A key list precedes any extension of itself.
pub proof fn lemma_key_seq_le_extend(a: Seq<u32>, t: Seq<u32>)
    ensures
        key_seq_le(a, a + t),
    decreases a.len(),
{
    if a.len() == 0 {
    } else {
        lemma_key_seq_le_extend(a.subrange(1, a.len() as int), t);
        assert((a + t)[0] == a[0]);
        assert((a + t).subrange(1, (a + t).len() as int) =~= a.subrange(1, a.len() as int) + t);
    }
}

/// Sorted insertion of a child adds it to the element multiset.
pub proof fn lemma_insert_child_sorted_elems(s: Seq<NodeModel>, x: NodeModel)
    ensures
        insert_child_sorted(s, x).to_multiset() == s.to_multiset().insert(x),
        forall|i: int|
            0 <= i < insert_child_sorted(s, x).len() ==> (#[trigger] insert_child_sorted(s, x)[i]
                == x || s.contains(insert_child_sorted(s, x)[i])),
        sorted_nodes(s) ==> sorted_nodes(insert_child_sorted(s, x)),
    decreases s.len(),
{
    broadcast use vstd::seq_lib::group_to_multiset_ensures;

    let r = insert_child_sorted(s, x);
    if s.len() == 0 {
        assert(r =~= Seq::empty().push(x));
        assert(r.to_multiset() =~= s.to_multiset().insert(x));
        lemma_key_seq_le_refl(x.keys);
    } else if node_le(s[0], x) {
        let s1 = s.subrange(1, s.len() as int);
        lemma_insert_child_sorted_elems(s1, x);
        let r1 = insert_child_sorted(s1, x);
        assert(r == seq![s[0]] + r1);
        lemma_multiset_commutative(seq![s[0]], r1);
        lemma_multiset_commutative(seq![s[0]], s1);
        assert(s =~= seq![s[0]] + s1);
        assert(seq![s[0]].to_multiset() =~= Multiset::empty().insert(s[0]));
        assert(r.to_multiset() =~= s.to_multiset().insert(x));
        assert forall|i: int| 0 <= i < r.len() implies (#[trigger] r[i] == x || s.contains(
            r[i],
        )) by {
            if i == 0 {
                assert(s[0] == r[0]);
            } else {
                assert(r[i] == r1[i - 1]);
                if r1[i - 1] != x {
                    let j = choose|j: int| 0 <= j < s1.len() && s1[j] == r1[i - 1];
                    assert(s[j + 1] == r[i]);
                }
            }
        }
        if sorted_nodes(s) {
            assert(sorted_nodes(s1));
            assert(sorted_nodes(r1));
            assert forall|i: int, j: int| 0 <= i <= j < r.len() implies node_le(r[i], r[j]) by {
                if i == 0 {
                    lemma_key_seq_le_refl(s[0].keys);
                    assert(r[0] == s[0]);
                    if j == 0 {
                        assert(node_le(r[i], r[j]));
                    } else {
                        assert(r[j] == r1[j - 1]);
                        if r1[j - 1] != x {
                            let k = choose|k: int| 0 <= k < s1.len() && s1[k] == r1[j - 1];
                            assert(s[k + 1] == s1[k]);
                            assert(node_le(s[0], s[k + 1]));
                            assert(node_le(r[i], r[j]));
                        } else {
                            assert(node_le(s[0], x));
                            assert(node_le(r[i], r[j]));
                        }
                    }
                } else {
                    assert(r[i] == r1[i - 1]);
                    assert(r[j] == r1[j - 1]);
                    assert(node_le(r1[i - 1], r1[j - 1]));
                    assert(node_le(r[i], r[j]));
                }
            }
        }
    } else {
        assert(r == seq![x] + s);
        lemma_multiset_commutative(seq![x], s);
        assert(seq![x].to_multiset() =~= Multiset::empty().insert(x));
        assert(r.to_multiset() =~= s.to_multiset().insert(x));
        if sorted_nodes(s) {
            lemma_key_seq_le_total(x.keys, s[0].keys);
            assert(key_seq_le(x.keys, s[0].keys));
            assert forall|i: int, j: int| 0 <= i <= j < r.len() implies node_le(r[i], r[j]) by {
                if i == 0 {
                    lemma_key_seq_le_refl(x.keys);
                    if j > 0 {
                        assert(r[j] == s[j - 1]);
                        assert(node_le(s[0], s[j - 1]));
                        lemma_key_seq_le_trans(x.keys, s[0].keys, s[j - 1].keys);
                    }
                } else {
                    assert(r[i] == s[i - 1]);
                    assert(r[j] == s[j - 1]);
                    assert(node_le(s[i - 1], s[j - 1]));
                }
            }
        }
    }
}

/// The sort keeps the element multiset and leaves the list in order.
pub proof fn lemma_sort_children_facts(s: Seq<NodeModel>)
    ensures
        sort_children(s).to_multiset() == s.to_multiset(),
        sorted_nodes(sort_children(s)),
    decreases s.len(),
{
    broadcast use vstd::seq_lib::group_to_multiset_ensures;

    if s.len() == 0 {
        assert(sort_children(s).to_multiset() =~= s.to_multiset());
    } else {
        let s0 = s.subrange(0, s.len() - 1);
        lemma_sort_children_facts(s0);
        lemma_insert_child_sorted_elems(sort_children(s0), s[s.len() - 1]);
        assert(s =~= s0.push(s[s.len() - 1]));
        assert(s.to_multiset() == s0.to_multiset().insert(s[s.len() - 1]));
    }
}

/// Sorting a list whose head is greatest moves the head to the end and
/// keeps the rest, which was already in order.
pub proof fn lemma_sort_children_append_max(t: Seq<NodeModel>, x: NodeModel)
    requires
        sorted_nodes(t),
        forall|i: int| 0 <= i < t.len() ==> node_le(#[trigger] t[i], x),
        forall|i: int| 0 <= i < t.len() ==> (node_le(x, #[trigger] t[i]) ==> t[i] == x),
    ensures
        sort_children(seq![x] + t) == t.push(x),
    decreases t.len(),
{
    reveal_with_fuel(sort_children, 3);
    reveal_with_fuel(insert_child_sorted, 3);
    let u = seq![x] + t;
    if t.len() == 0 {
        assert(u =~= seq![x]);
        assert(u.subrange(0, 0) =~= Seq::<NodeModel>::empty());
        assert(sort_children(u) == insert_child_sorted(sort_children(Seq::<NodeModel>::empty()), x));
        assert(sort_children(u) =~= t.push(x));
    } else {
        let t0 = t.subrange(0, t.len() - 1);
        let last = t[t.len() - 1];
        assert(u.subrange(0, u.len() - 1) =~= seq![x] + t0);
        assert(u[u.len() - 1] == last);
        lemma_sort_children_append_max(t0, x);
        let w = t0.push(x);
        assert(sort_children(u) == insert_child_sorted(w, last));
        if key_seq_le(x.keys, last.keys) {
            assert(node_le(x, last));
            assert(last == x);
            lemma_insert_child_sorted_at(w, last, w.len() as int);
            assert(w.push(last) =~= t.push(x));
        } else {
            lemma_insert_child_sorted_at(w, last, t0.len() as int);
            assert(w.insert(t0.len() as int, last) =~= t.push(x));
        }
    }
}

/// Pushing a greatest key onto a sorted list is already sorted.
pub proof fn lemma_sort_keys_push_end(s: Seq<u32>, v: u32)
    requires
        sorted(s),
        forall|q: int| 0 <= q < s.len() ==> s[q] <= v,
    ensures
        sort_keys(s.push(v)) == s.push(v),
{
    broadcast use vstd::seq_lib::group_to_multiset_ensures;

    lemma_sort_keys_push(s, v);
    lemma_sorted_is_sort_keys(s, s);
    lemma_insert_key_sorted_at(s, v, s.len() as int);
    assert(s.insert(s.len() as int, v) =~= s.push(v));
}

/// Sort a children list by the node order, stably.
pub fn sort_children_vec(input: Vec<Node>) -> (r: Vec<Node>)
    ensures
        models_of(r@) == sort_children(models_of(input@)),
{
    let ghost orig: Seq<Node> = input@;
    let mut input = input;
    let mut out: Vec<Node> = Vec::new();
    let ghost mut done: int = 0;
    proof {
        assert(models_of(orig).subrange(0, 0) =~= Seq::<NodeModel>::empty());
        assert(models_of(out@) =~= Seq::<NodeModel>::empty());
    }
    while input.len() > 0
        invariant
            0 <= done <= orig.len(),
            input@ == orig.subrange(done, orig.len() as int),
            models_of(out@) == sort_children(models_of(orig).subrange(0, done)),
        decreases input.len(),
    {
        let x = input.remove(0);
        proof {
            assert(x == orig[done]);
            assert(input@ =~= orig.subrange(done + 1, orig.len() as int));
        }
        let mut p: usize = 0;
        while p < out.len() && node_le_exec(&out[p], &x)
            invariant
                p <= out.len(),
                forall|q: int| 0 <= q < p ==> node_le(models_of(out@)[q], x@),
            decreases out.len() - p,
        {
            p = p + 1;
        }
        let ghost out0: Seq<Node> = out@;
        proof {
            lemma_insert_child_sorted_at(models_of(out0), x@, p as int);
            lemma_sort_children_push(models_of(orig).subrange(0, done), x@);
            assert(models_of(orig).subrange(0, done).push(x@) =~= models_of(orig).subrange(
                0,
                done + 1,
            ));
        }
        out.insert(p, x);
        proof {
            done = done + 1;
        }
    }
    proof {
        assert(orig.subrange(0, orig.len() as int) =~= orig);
        assert(models_of(orig).subrange(0, orig.len() as int) =~= models_of(orig));
    }
    out
}

} // verus!
