//! The tree, its nodes, and the public operations.

use crate::model::slot_value;
use crate::order::{lemma_total_order, lt, strictly_ascending, total_order};
use core::cmp::Ordering;
use vstd::prelude::*;

verus! {

/// An AVL tree: empty, or one node that owns its two subtrees.
pub struct AvlTree<V> {
    pub(crate) root: Option<Box<AvlTreeNode<V>>>,
}

/// A node: an element, the cached height of the subtree it roots, and the
/// two subtrees it owns.
pub(crate) struct AvlTreeNode<V> {
    pub(crate) val: V,
    pub(crate) height: usize,
    pub(crate) left: AvlTree<V>,
    pub(crate) right: AvlTree<V>,
}

impl<V> AvlTreeNode<V> {
    fn new(value: V) -> (n: AvlTreeNode<V>)
        ensures
            n.val == value,
            n.height == 1,
            n.left.root.is_none(),
            n.right.root.is_none(),
    {
        AvlTreeNode { val: value, height: 1, left: AvlTree { root: None }, right: AvlTree { root: None } }
    }
}

impl<V: Ord> AvlTreeNode<V> {
    /// The leftmost value below this node, which is the least.
    fn min(&self) -> (m: &V)
        requires
            total_order::<V>(),
            self.node_ordered(),
        ensures
            self.node_elems().contains(*m),
            forall|e: V| #[trigger] self.node_elems().contains(e) && e != *m ==> lt(*m, e),
    {
        let mut cur = self;
        while cur.left.root.is_some()
            invariant
                total_order::<V>(),
                cur.node_ordered(),
                forall|e: V| #[trigger] cur.node_elems().contains(e) ==> self.node_elems().contains(e),
                forall|e: V|
                    #[trigger] self.node_elems().contains(e) ==> cur.node_elems().contains(e) || lt(cur.val, e),
            decreases cur.left.size(),
        {
            match &cur.left.root {
                Some(next) => {
                    proof {
                        lemma_total_order::<V>();
                        let l = cur.left;
                        assert(l.elems() == next.node_elems());
                        assert(l.elems().contains(next.val));
                        assert(next.node_ordered());
                        assert forall|e: V| #[trigger] next.node_elems().contains(e) implies self.node_elems().contains(e) by {
                            assert(cur.node_elems().contains(e));
                        }
                        assert forall|e: V| #[trigger] self.node_elems().contains(e) implies next.node_elems().contains(e)
                            || lt(next.val, e) by {
                            assert(lt(next.val, cur.val));
                            if !next.node_elems().contains(e) {
                                if cur.node_elems().contains(e) {
                                    assert(!cur.left.elems().contains(e));
                                    if e != cur.val {
                                        assert(cur.right.elems().contains(e));
                                        assert(lt(cur.val, e));
                                    }
                                } else {
                                    assert(lt(cur.val, e));
                                }
                            }
                        }
                    }
                    cur = &**next;
                },
                None => {},
            }
        }
        proof {
            assert(cur.node_elems().contains(cur.val));
            assert(cur.left.elems() == Set::<V>::empty());
        }
        &cur.val
    }

    /// The rightmost value below this node, which is the greatest.
    fn max(&self) -> (m: &V)
        requires
            total_order::<V>(),
            self.node_ordered(),
        ensures
            self.node_elems().contains(*m),
            forall|e: V| #[trigger] self.node_elems().contains(e) && e != *m ==> lt(e, *m),
    {
        let mut cur = self;
        while cur.right.root.is_some()
            invariant
                total_order::<V>(),
                cur.node_ordered(),
                forall|e: V| #[trigger] cur.node_elems().contains(e) ==> self.node_elems().contains(e),
                forall|e: V|
                    #[trigger] self.node_elems().contains(e) ==> cur.node_elems().contains(e) || lt(e, cur.val),
            decreases cur.right.size(),
        {
            match &cur.right.root {
                Some(next) => {
                    proof {
                        lemma_total_order::<V>();
                        let r = cur.right;
                        assert(r.elems() == next.node_elems());
                        assert(r.elems().contains(next.val));
                        assert(next.node_ordered());
                        assert forall|e: V| #[trigger] next.node_elems().contains(e) implies self.node_elems().contains(e) by {
                            assert(cur.node_elems().contains(e));
                        }
                        assert forall|e: V| #[trigger] self.node_elems().contains(e) implies next.node_elems().contains(e)
                            || lt(e, next.val) by {
                            assert(lt(cur.val, next.val));
                            if !next.node_elems().contains(e) {
                                if cur.node_elems().contains(e) {
                                    assert(!cur.right.elems().contains(e));
                                    if e != cur.val {
                                        assert(cur.left.elems().contains(e));
                                        assert(lt(e, cur.val));
                                    }
                                } else {
                                    assert(lt(e, cur.val));
                                }
                            }
                        }
                    }
                    cur = &**next;
                },
                None => {},
            }
        }
        proof {
            assert(cur.node_elems().contains(cur.val));
            assert(cur.right.elems() == Set::<V>::empty());
        }
        &cur.val
    }
}

impl<V: Ord> AvlTree<V> {
    /// An empty tree.
    pub fn new() -> (t: AvlTree<V>)
        requires
            total_order::<V>(),
        ensures
            t.well_formed(),
            t@ == Set::<V>::empty(),
    {
        AvlTree { root: None }
    }

    /// The least element, or `None` for an empty tree.
    pub fn min(&self) -> (r: Option<&V>)
        requires
            self.well_formed(),
        ensures
            r is None <==> self@ == Set::<V>::empty(),
            r matches Some(m) ==> self@.contains(*m),
            r matches Some(m) ==> forall|e: V| #[trigger] self@.contains(e) && e != *m ==> lt(*m, e),
    {
        match &self.root {
            None => None,
            Some(node) => {
                proof {
                    assert(self@.contains(node.val));
                }
                Some(node.min())
            },
        }
    }

    /// The greatest element, or `None` for an empty tree.
    pub fn max(&self) -> (r: Option<&V>)
        requires
            self.well_formed(),
        ensures
            r is None <==> self@ == Set::<V>::empty(),
            r matches Some(m) ==> self@.contains(*m),
            r matches Some(m) ==> forall|e: V| #[trigger] self@.contains(e) && e != *m ==> lt(e, *m),
    {
        match &self.root {
            None => None,
            Some(node) => {
                proof {
                    assert(self@.contains(node.val));
                }
                Some(node.max())
            },
        }
    }

    /// Whether `value` is in the tree.
    pub fn contains(&self, value: &V) -> (r: bool)
        requires
            self.well_formed(),
        ensures
            r == self@.contains(*value),
        decreases self,
    {
        match &self.root {
            None => false,
            Some(node) => {
                proof {
                    lemma_total_order::<V>();
                }
                match value.cmp(&node.val) {
                    Ordering::Less => {
                        proof {
                            if node.right.elems().contains(*value) {
                                assert(lt(node.val, *value));
                            }
                        }
                        node.left.contains(value)
                    },
                    Ordering::Greater => {
                        proof {
                            if node.left.elems().contains(*value) {
                                assert(lt(*value, node.val));
                            }
                        }
                        node.right.contains(value)
                    },
                    Ordering::Equal => true,
                }
            },
        }
    }

    /// Detaches the node that holds the least element, splicing its right
    /// subtree into its place and rebalancing on the way back up.
    fn take_min_node(&mut self) -> (m: Box<AvlTreeNode<V>>)
        requires
            total_order::<V>(),
            old(self).root.is_some(),
            old(self).is_ordered(),
            old(self).heights_correct(),
            old(self).is_balanced(),
        ensures
            final(self).is_ordered(),
            final(self).heights_correct(),
            final(self).is_balanced(),
            old(self).elems().contains(m.val),
            forall|e: V| #[trigger] old(self).elems().contains(e) && e != m.val ==> lt(m.val, e),
            final(self).elems() == old(self).elems().remove(m.val),
            final(self).ht() == old(self).ht() || final(self).ht() + 1 == old(self).ht(),
        decreases old(self).size(),
    {
        proof {
            lemma_total_order::<V>();
            old(self).lemma_unfold();
            old(self).lemma_unfold_ordered();
        }
        let mut node = self.root.take().unwrap();
        if node.left.root.is_none() {
            self.root = node.right.root.take();
            proof {
                let o = *old(self);
                assert(o.l().elems() == Set::<V>::empty());
                assert(!o.r().elems().contains(o.v()));
                assert(self.elems() =~= o.elems().remove(o.v()));
            }
            return node;
        }
        let min_node = node.left.take_min_node();
        node.update_height();
        self.root = Some(node);
        let ghost mid = *self;
        proof {
            let o = *old(self);
            mid.lemma_unfold();
            mid.lemma_unfold_ordered();
            assert(lt(min_node.val, o.v()));
            assert(mid.elems() =~= o.elems().remove(min_node.val));
            assert(mid.is_ordered());
        }
        self.remove_balance();
        min_node
    }

    /// Removes `value` from the tree; returns whether it was there.
    pub fn remove(&mut self, value: &V) -> (removed: bool)
        requires
            old(self).well_formed(),
        ensures
            final(self).well_formed(),
            removed == old(self)@.contains(*value),
            final(self)@ == old(self)@.remove(*value),
            !removed ==> *final(self) == *old(self),
    {
        self.remove_at(value)
    }

    /// Recursive descent of `remove`, rebalancing each node on the way back.
    fn remove_at(&mut self, value: &V) -> (removed: bool)
        requires
            total_order::<V>(),
            old(self).is_ordered(),
            old(self).heights_correct(),
            old(self).is_balanced(),
        ensures
            final(self).is_ordered(),
            final(self).heights_correct(),
            final(self).is_balanced(),
            removed == old(self).elems().contains(*value),
            final(self).elems() == old(self).elems().remove(*value),
            !removed ==> *final(self) == *old(self),
            final(self).ht() == old(self).ht() || final(self).ht() + 1 == old(self).ht(),
        decreases old(self).size(),
    {
        if self.root.is_none() {
            proof {
                assert(self.elems() =~= old(self).elems().remove(*value));
            }
            return false;
        }
        proof {
            lemma_total_order::<V>();
            old(self).lemma_unfold();
            old(self).lemma_unfold_ordered();
        }
        let ghost o = *old(self);
        let mut node = self.root.take().unwrap();
        let removed = match value.cmp(&node.val) {
            Ordering::Less => node.left.remove_at(value),
            Ordering::Greater => node.right.remove_at(value),
            Ordering::Equal => {
                if node.left.root.is_none() {
                    self.root = node.right.root.take();
                    proof {
                        assert(o.l().elems() == Set::<V>::empty());
                        assert(!o.r().elems().contains(o.v()));
                        assert(self.elems() =~= o.elems().remove(*value));
                    }
                    return true;
                }
                if node.right.root.is_none() {
                    self.root = node.left.root.take();
                    proof {
                        assert(o.r().elems() == Set::<V>::empty());
                        assert(!o.l().elems().contains(o.v()));
                        assert(self.elems() =~= o.elems().remove(*value));
                    }
                    return true;
                }
                let mut right_tree = AvlTree { root: node.right.root.take() };
                let mut successor = right_tree.take_min_node();
                successor.left = AvlTree { root: node.left.root.take() };
                successor.right = right_tree;
                node = successor;
                true
            },
        };
        node.update_height();
        self.root = Some(node);
        let ghost mid = *self;
        proof {
            mid.lemma_unfold();
            mid.lemma_unfold_ordered();
            assert(mid.elems() =~= o.elems().remove(*value));
            assert(mid.is_ordered());
        }
        self.remove_balance();
        removed
    }
}

impl<V: Ord + Copy> AvlTree<V> {
    /// Inserts `value` into the tree; does nothing if it is already there.
    pub fn insert(&mut self, value: V)
        requires
            old(self).well_formed(),
            old(self)@.len() < usize::MAX,
        ensures
            final(self).well_formed(),
            final(self)@ == old(self)@.insert(value),
            old(self)@.contains(value) ==> *final(self) == *old(self),
    {
        proof {
            old(self).lemma_in_order_sorted();
            old(self).lemma_height_le_size();
        }
        self.insert_at(value);
    }

    /// Recursive descent of `insert`, rebalancing each node on the way back.
    fn insert_at(&mut self, value: V)
        requires
            total_order::<V>(),
            old(self).is_ordered(),
            old(self).heights_correct(),
            old(self).is_balanced(),
            old(self).ht() < usize::MAX,
        ensures
            final(self).is_ordered(),
            final(self).heights_correct(),
            final(self).is_balanced(),
            final(self).elems() == old(self).elems().insert(value),
            old(self).elems().contains(value) ==> *final(self) == *old(self),
            final(self).ht() == old(self).ht() || final(self).ht() == old(self).ht() + 1,
            final(self).ht() == old(self).ht() + 1 ==> final(self).grew_toward(value),
        decreases old(self).size(),
    {
        if self.root.is_none() {
            let leaf = AvlTreeNode::new(value);
            self.root = Some(Box::new(leaf));
            proof {
                let f = *self;
                f.lemma_unfold();
                assert(f.l().elems() == Set::<V>::empty());
                assert(f.r().elems() == Set::<V>::empty());
                assert(f.elems() =~= old(self).elems().insert(value));
            }
            return;
        }
        proof {
            lemma_total_order::<V>();
            old(self).lemma_unfold();
            old(self).lemma_unfold_ordered();
        }
        let mut node = self.root.take().unwrap();
        match value.cmp(&node.val) {
            Ordering::Less => {
                node.left.insert_at(value);
            },
            Ordering::Greater => {
                node.right.insert_at(value);
            },
            Ordering::Equal => {
                self.root = Some(node);
                return;
            },
        }
        node.update_height();
        self.root = Some(node);
        let ghost mid = *self;
        proof {
            let o = *old(self);
            mid.lemma_unfold();
            mid.lemma_unfold_ordered();
            assert(mid.elems() =~= o.elems().insert(value));
            assert(mid.is_ordered());
        }
        self.balance(&value);
    }
}

/// The in-order elements of the subtree a link points to.
spec fn link_in_order<V>(link: Option<Box<AvlTreeNode<V>>>) -> Seq<V> {
    (AvlTree { root: link }).in_order()
}

/// The number of nodes below a link.
spec fn link_size<V>(link: Option<Box<AvlTreeNode<V>>>) -> nat {
    (AvlTree { root: link }).size()
}

/// What the explicit stack of an in-order walk still has to produce: from
/// the top down, each node's value followed by its right subtree.
spec fn pending<V>(stack: Seq<AvlTreeNode<V>>) -> Seq<V>
    decreases stack.len(),
{
    if stack.len() == 0 {
        Seq::empty()
    } else {
        let top = stack.last();
        seq![top.val] + top.right.in_order() + pending(stack.drop_last())
    }
}

impl<V: Ord> AvlTree<V> {
    /// Consumes the tree and returns its elements in ascending order.
    /// The walk is iterative, with an explicit stack of nodes whose left
    /// subtrees have been detached.
    pub fn into_ordered_sequence(self) -> (r: Vec<V>)
        requires
            self.well_formed(),
        ensures
            r@ == self.in_order(),
            strictly_ascending(r@),
            r@.to_set() == self@,
            r@.len() == self@.len(),
    {
        proof {
            self.lemma_in_order_sorted();
            self.lemma_in_order_elems();
        }
        let ghost whole = self.in_order();
        let mut tree = self;
        let mut cur = tree.root.take();
        let mut stack: Vec<AvlTreeNode<V>> = Vec::new();
        let mut out: Vec<V> = Vec::new();
        loop
            invariant
                out@ + link_in_order(cur) + pending(stack@) == whole,
            ensures
                out@ == whole,
            decreases whole.len() - out@.len(),
        {
            while cur.is_some()
                invariant
                    out@ + link_in_order(cur) + pending(stack@) == whole,
                decreases link_size(cur),
            {
                let mut node = cur.take().unwrap();
                cur = node.left.root.take();
                let ghost before = stack@;
                stack.push(*node);
                proof {
                    assert(pending(stack@) == seq![node.val] + node.right.in_order() + pending(before)) by {
                        assert(stack@.drop_last() == before);
                    }
                    assert(out@ + link_in_order(cur) + pending(stack@) =~= whole);
                }
            }
            match stack.pop() {
                Some(mut node) => {
                    out.push(node.val);
                    cur = node.right.root.take();
                    proof {
                        assert(out@ + link_in_order(cur) + pending(stack@) =~= whole);
                    }
                },
                None => {
                    proof {
                        assert(out@ =~= whole);
                    }
                    break;
                },
            }
        }
        out
    }
}

impl<V> AvlTree<V> {
    /// The height of the tree: zero when empty, else the number of levels.
    pub fn height(&self) -> (h: usize)
        requires
            self.heights_correct(),
        ensures
            h as nat == self.ht(),
            h == 0 <==> self@ == Set::<V>::empty(),
    {
        proof {
            if self.root.is_some() {
                assert(self@.contains(self.root.unwrap().val));
            }
        }
        self.get_height()
    }

    /// The positions of one level of the tree, as a renderer lays them out.
    pub fn level_slots(&self, depth: usize) -> (r: Vec<Option<&V>>)
        ensures
            r@.len() == self.slots(depth as nat).len(),
            forall|i: int| 0 <= i < r@.len() ==> slot_value(#[trigger] r@[i]) == self.slots(depth as nat)[i],
        decreases depth,
    {
        match &self.root {
            None => {
                if depth == 0 {
                    let mut r: Vec<Option<&V>> = Vec::new();
                    r.push(None);
                    r
                } else {
                    let mut a = self.level_slots(depth - 1);
                    let mut b = self.level_slots(depth - 1);
                    let ghost (sa, sb) = (a@, b@);
                    a.append(&mut b);
                    proof {
                        assert forall|i: int| 0 <= i < a@.len() implies slot_value(#[trigger] a@[i])
                            == self.slots(depth as nat)[i] by {
                            if i >= sa.len() {
                                assert(a@[i] == sb[i - sa.len()]);
                            }
                        }
                    }
                    a
                }
            },
            Some(node) => {
                if depth == 0 {
                    let mut r: Vec<Option<&V>> = Vec::new();
                    r.push(Some(&node.val));
                    r
                } else {
                    let mut a = node.left.level_slots(depth - 1);
                    let mut b = node.right.level_slots(depth - 1);
                    let ghost (sa, sb) = (a@, b@);
                    a.append(&mut b);
                    proof {
                        assert forall|i: int| 0 <= i < a@.len() implies slot_value(#[trigger] a@[i])
                            == self.slots(depth as nat)[i] by {
                            if i >= sa.len() {
                                assert(a@[i] == sb[i - sa.len()]);
                            }
                        }
                    }
                    a
                }
            },
        }
    }
}

} // verus!
