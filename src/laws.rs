//! Properties that relate several operations of the tree.

use crate::order::{lemma_total_order, lt, strictly_ascending, total_order};
use crate::tree::AvlTree;
use vstd::prelude::*;

verus! {

/// Two strictly ascending sequences with the same elements are equal.
pub proof fn lemma_ascending_unique<V: Ord>(s1: Seq<V>, s2: Seq<V>)
    requires
        total_order::<V>(),
        strictly_ascending(s1),
        strictly_ascending(s2),
        s1.to_set() == s2.to_set(),
    ensures
        s1 == s2,
    decreases s1.len(),
{
    lemma_total_order::<V>();
    if s1.len() == 0 {
        if s2.len() > 0 {
            assert(s2.to_set().contains(s2[0]));
        }
        assert(s1 =~= s2);
    } else {
        assert(s1.to_set().contains(s1[0]));
        assert(s2.len() > 0);
        assert(s2.to_set().contains(s2[0]));
        let j = choose|j: int| 0 <= j < s2.len() && s2[j] == s1[0];
        let i = choose|i: int| 0 <= i < s1.len() && s1[i] == s2[0];
        if j > 0 {
            assert(lt(s2[0], s2[j]));
            if i > 0 {
                assert(lt(s1[0], s1[i]));
            }
            assert(false);
        }
        let t1 = s1.drop_first();
        let t2 = s2.drop_first();
        assert forall|i: int, j: int| 0 <= i < j < t1.len() implies lt(#[trigger] t1[i], #[trigger] t1[j]) by {
            assert(lt(s1[i + 1], s1[j + 1]));
        }
        assert forall|i: int, j: int| 0 <= i < j < t2.len() implies lt(#[trigger] t2[i], #[trigger] t2[j]) by {
            assert(lt(s2[i + 1], s2[j + 1]));
        }
        assert forall|e: V| t1.to_set().contains(e) implies t2.to_set().contains(e) by {
            let k = choose|k: int| 0 <= k < t1.len() && t1[k] == e;
            assert(s1[k + 1] == e);
            assert(s2.to_set().contains(e));
            let m = choose|m: int| 0 <= m < s2.len() && s2[m] == e;
            if m == 0 {
                assert(lt(s1[0], s1[k + 1]));
            } else {
                assert(t2[m - 1] == e);
            }
        }
        assert forall|e: V| t2.to_set().contains(e) implies t1.to_set().contains(e) by {
            let k = choose|k: int| 0 <= k < t2.len() && t2[k] == e;
            assert(s2[k + 1] == e);
            assert(s1.to_set().contains(e));
            let m = choose|m: int| 0 <= m < s1.len() && s1[m] == e;
            if m == 0 {
                assert(lt(s2[0], s2[k + 1]));
            } else {
                assert(t1[m - 1] == e);
            }
        }
        assert(t1.to_set() =~= t2.to_set());
        lemma_ascending_unique(t1, t2);
        assert(s1 =~= seq![s1[0]] + t1);
        assert(s2 =~= seq![s2[0]] + t2);
    }
}

/// Two well-formed trees that hold the same elements give the same ordered
/// extraction, whatever their shapes.
pub proof fn lemma_same_elements_same_order<V: Ord>(a: AvlTree<V>, b: AvlTree<V>)
    requires
        a.well_formed(),
        b.well_formed(),
        a@ == b@,
    ensures
        a.in_order() == b.in_order(),
{
    a.lemma_in_order_ascending();
    b.lemma_in_order_ascending();
    lemma_ascending_unique(a.in_order(), b.in_order());
}

/// Inserting `v` a second time leaves the ordered extraction as after the
/// first insertion: `t1` is `t0` after one `insert(v)`, `t2` is `t1` after
/// another.
pub proof fn lemma_insert_twice<V: Ord>(t0: AvlTree<V>, t1: AvlTree<V>, t2: AvlTree<V>, v: V)
    requires
        t1.well_formed(),
        t2.well_formed(),
        t1@ == t0@.insert(v),
        t2@ == t1@.insert(v),
    ensures
        t2.in_order() == t1.in_order(),
{
    assert(t2@ =~= t1@);
    lemma_same_elements_same_order(t1, t2);
}

/// Removing a value that is not in the tree leaves the ordered extraction
/// as it was: `t1` is `t0` after `remove(v)`.
pub proof fn lemma_remove_absent<V: Ord>(t0: AvlTree<V>, t1: AvlTree<V>, v: V)
    requires
        t0.well_formed(),
        t1.well_formed(),
        !t0@.contains(v),
        t1@ == t0@.remove(v),
    ensures
        t1.in_order() == t0.in_order(),
{
    assert(t1@ =~= t0@);
    lemma_same_elements_same_order(t0, t1);
}

/// After the values of `vals` are inserted one by one into an empty tree
/// (`trees[i + 1]` is `trees[i]` after `insert(vals[i])`), exactly those
/// values are members.
pub proof fn lemma_members_after_inserts<V: Ord>(trees: Seq<AvlTree<V>>, vals: Seq<V>)
    requires
        trees.len() == vals.len() + 1,
        trees[0]@ == Set::<V>::empty(),
        forall|i: int| 0 <= i < vals.len() ==> #[trigger] trees[i + 1]@ == trees[i]@.insert(vals[i]),
    ensures
        forall|q: V| trees.last()@.contains(q) <==> vals.contains(q),
    decreases vals.len(),
{
    if vals.len() > 0 {
        let n = vals.len() - 1;
        let ts = trees.drop_last();
        let vs = vals.drop_last();
        assert forall|i: int| 0 <= i < vs.len() implies #[trigger] ts[i + 1]@ == ts[i]@.insert(vs[i]) by {
            assert(trees[i + 1]@ == trees[i]@.insert(vals[i]));
        }
        lemma_members_after_inserts(ts, vs);
        assert(trees[n + 1]@ == trees[n]@.insert(vals[n]));
        assert forall|q: V| trees.last()@.contains(q) <==> vals.contains(q) by {
            if vs.contains(q) {
                let k = choose|k: int| 0 <= k < vs.len() && vs[k] == q;
                assert(vals[k] == q);
            }
            if vals.contains(q) && q != vals[n] {
                let k = choose|k: int| 0 <= k < vals.len() && vals[k] == q;
                assert(vs[k] == q);
            }
            assert(vals[n] == vals.last());
        }
    }
}

} // verus!
