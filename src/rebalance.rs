//! The balancing engine: cached heights, rotations, and the two
//! rebalancing rules, one for insertion and one for removal.

use crate::model::max_height;
use crate::order::{lemma_total_order, lt, total_order};
use crate::tree::{AvlTree, AvlTreeNode};
use core::cmp::Ordering;
use vstd::prelude::*;

verus! {

impl<V> AvlTreeNode<V> {
    /// Sets the cached height from the two subtrees' cached heights.
    pub(crate) fn update_height(&mut self)
        requires
            old(self).left.ht() < usize::MAX,
            old(self).right.ht() < usize::MAX,
        ensures
            final(self).height as nat == 1 + max_height(old(self).left.ht(), old(self).right.ht()),
            final(self).val == old(self).val,
            final(self).left == old(self).left,
            final(self).right == old(self).right,
    {
        let lh = self.left.get_height();
        let rh = self.right.get_height();
        self.height = 1 + if lh >= rh { lh } else { rh };
    }
}

impl<V> AvlTree<V> {
    /// The cached height of the root; zero for an empty tree.
    pub(crate) fn get_height(&self) -> (h: usize)
        ensures
            h as nat == self.ht(),
    {
        match &self.root {
            None => 0,
            Some(node) => node.height,
        }
    }

    /// The value at the root, if any.
    pub(crate) fn get_val(&self) -> (r: Option<&V>)
        ensures
            r matches Some(v) <==> self.root.is_some(),
            r matches Some(v) ==> *v == self.v(),
    {
        match &self.root {
            None => None,
            Some(node) => Some(&node.val),
        }
    }
}

impl<V: Ord> AvlTree<V> {
    /// Right rotation: the left child `x` of the root `y` becomes the root,
    /// `x`'s right subtree becomes `y`'s left subtree, and `y` becomes `x`'s
    /// right child.
    pub(crate) fn rotate_right(&mut self)
        requires
            old(self).root.is_some(),
            old(self).l().root.is_some(),
            old(self).l().l().ht() < usize::MAX - 1,
            old(self).l().r().ht() < usize::MAX - 1,
            old(self).r().ht() < usize::MAX - 1,
        ensures
            final(self).root.is_some(),
            final(self).r().root.is_some(),
            final(self).v() == old(self).l().v(),
            final(self).l() == old(self).l().l(),
            final(self).r().v() == old(self).v(),
            final(self).r().l() == old(self).l().r(),
            final(self).r().r() == old(self).r(),
            final(self).r().ht() == 1 + max_height(old(self).l().r().ht(), old(self).r().ht()),
            final(self).ht() == 1 + max_height(old(self).l().l().ht(), final(self).r().ht()),
            final(self).elems() == old(self).elems(),
            final(self).in_order() == old(self).in_order(),
            total_order::<V>() && old(self).is_ordered() ==> final(self).is_ordered(),
    {
        let mut y = self.root.take().unwrap();
        let mut x = y.left.root.take().unwrap();
        y.left.root = x.right.root.take();
        y.update_height();
        x.right.root = Some(y);
        x.update_height();
        self.root = Some(x);
        proof {
            let o = *old(self);
            let f = *final(self);
            assert(f.r().elems() == o.l().r().elems().union(o.r().elems()).insert(o.v()));
            assert(o.l().elems() == o.l().l().elems().union(o.l().r().elems()).insert(o.l().v()));
            assert(f.elems() =~= o.elems());
            assert(f.r().in_order() == o.l().r().in_order().push(o.v()) + o.r().in_order());
            assert(o.l().in_order() == o.l().l().in_order().push(o.l().v()) + o.l().r().in_order());
            assert(f.in_order() =~= o.in_order());
            if total_order::<V>() && o.is_ordered() {
                lemma_total_order::<V>();
                assert(o.l().elems().contains(o.l().v()));
                assert forall|e: V| o.l().r().elems().contains(e) implies lt(e, o.v()) by {
                    assert(o.l().elems().contains(e));
                }
                assert forall|e: V| #[trigger] f.r().elems().contains(e) implies lt(f.v(), e) by {
                    assert(o.l().is_ordered());
                    if o.r().elems().contains(e) {
                        assert(lt(o.v(), e));
                    } else if o.l().r().elems().contains(e) {
                        assert(lt(o.l().v(), e));
                    }
                }
                assert(o.l().is_ordered());
                assert(o.l().l().is_ordered() && o.l().r().is_ordered() && o.r().is_ordered());
                assert(f.r().l() == o.l().r() && f.r().r() == o.r() && f.r().v() == o.v());
                assert(f.r().is_ordered());
                assert(f.is_ordered());
            }
        }
    }

    /// Left rotation: the mirror image of `rotate_right`.
    pub(crate) fn rotate_left(&mut self)
        requires
            old(self).root.is_some(),
            old(self).r().root.is_some(),
            old(self).l().ht() < usize::MAX - 1,
            old(self).r().l().ht() < usize::MAX - 1,
            old(self).r().r().ht() < usize::MAX - 1,
        ensures
            final(self).root.is_some(),
            final(self).l().root.is_some(),
            final(self).v() == old(self).r().v(),
            final(self).r() == old(self).r().r(),
            final(self).l().v() == old(self).v(),
            final(self).l().r() == old(self).r().l(),
            final(self).l().l() == old(self).l(),
            final(self).l().ht() == 1 + max_height(old(self).l().ht(), old(self).r().l().ht()),
            final(self).ht() == 1 + max_height(final(self).l().ht(), old(self).r().r().ht()),
            final(self).elems() == old(self).elems(),
            final(self).in_order() == old(self).in_order(),
            total_order::<V>() && old(self).is_ordered() ==> final(self).is_ordered(),
    {
        let mut x = self.root.take().unwrap();
        let mut y = x.right.root.take().unwrap();
        x.right.root = y.left.root.take();
        x.update_height();
        y.left.root = Some(x);
        y.update_height();
        self.root = Some(y);
        proof {
            let o = *old(self);
            let f = *final(self);
            assert(f.l().elems() == o.l().elems().union(o.r().l().elems()).insert(o.v()));
            assert(o.r().elems() == o.r().l().elems().union(o.r().r().elems()).insert(o.r().v()));
            assert(f.elems() =~= o.elems());
            assert(f.l().in_order() == o.l().in_order().push(o.v()) + o.r().l().in_order());
            assert(o.r().in_order() == o.r().l().in_order().push(o.r().v()) + o.r().r().in_order());
            assert(f.in_order() =~= o.in_order());
            if total_order::<V>() && o.is_ordered() {
                lemma_total_order::<V>();
                assert(o.r().elems().contains(o.r().v()));
                assert forall|e: V| o.r().l().elems().contains(e) implies lt(o.v(), e) by {
                    assert(o.r().elems().contains(e));
                }
                assert forall|e: V| #[trigger] f.l().elems().contains(e) implies lt(e, f.v()) by {
                    assert(o.r().is_ordered());
                    if o.l().elems().contains(e) {
                        assert(lt(e, o.v()));
                    } else if o.r().l().elems().contains(e) {
                        assert(lt(e, o.r().v()));
                    }
                }
                assert(o.r().is_ordered());
                assert(o.r().l().is_ordered() && o.r().r().is_ordered() && o.l().is_ordered());
                assert(f.l().r() == o.r().l() && f.l().l() == o.l() && f.l().v() == o.v());
                assert(f.l().is_ordered());
                assert(f.is_ordered());
            }
        }
    }
}

impl<V> AvlTree<V> {
    /// The balance factor at the root, for a root whose subtrees differ in
    /// height by at most two.
    pub(crate) fn get_balance(&self) -> (b: isize)
        requires
            -2 <= self.bal() <= 2,
        ensures
            b == self.bal(),
    {
        match &self.root {
            None => 0,
            Some(node) => {
                let lh = node.left.get_height();
                let rh = node.right.get_height();
                if lh >= rh {
                    (lh - rh) as isize
                } else {
                    -((rh - lh) as isize)
                }
            },
        }
    }
}

impl<V: Ord> AvlTree<V> {
    /// Restores the balance condition at the root after `value` was inserted
    /// below it, choosing single or double rotation by where `value` went.
    pub(crate) fn balance(&mut self, value: &V)
        requires
            total_order::<V>(),
            old(self).is_ordered(),
            old(self).balanced_below(),
            old(self).bal() == 2 ==> old(self).l().grew_toward(*value),
            old(self).bal() == -2 ==> old(self).r().grew_toward(*value),
        ensures
            final(self).is_ordered(),
            final(self).heights_correct(),
            final(self).is_balanced(),
            final(self).elems() == old(self).elems(),
            -1 <= old(self).bal() <= 1 ==> *final(self) == *old(self),
            old(self).bal() == 2 || old(self).bal() == -2 ==> final(self).ht() + 1 == old(self).ht(),
    {
        if self.root.is_none() {
            return;
        }
        let b = self.get_balance();
        proof {
            lemma_total_order::<V>();
            old(self).lemma_unfold();
            old(self).lemma_unfold_ordered();
        }
        if b >= 2 {
            let ghost o = *old(self);
            proof {
                o.l().lemma_unfold();
                o.l().lemma_unfold_ordered();
            }
            let mut node = self.root.take().unwrap();
            let go_right = match node.left.get_val() {
                Some(left_val) => match value.cmp(left_val) {
                    Ordering::Less => false,
                    Ordering::Greater => true,
                    Ordering::Equal => {
                        proof {
                            assert(false);
                        }
                        false
                    },
                },
                None => false,
            };
            if go_right {
                proof {
                    o.l().r().lemma_unfold();
                }
                node.left.rotate_left();
            }
            self.root = Some(node);
            let ghost mid = *self;
            proof {
                mid.lemma_unfold_ordered();
                mid.l().lemma_unfold();
                assert(mid.is_ordered());
            }
            self.rotate_right();
            proof {
                let f = *self;
                f.lemma_unfold();
                f.r().lemma_unfold();
                if go_right {
                    mid.l().l().lemma_unfold();
                    o.l().r().lemma_unfold();
                }
            }
        } else if b <= -2 {
            let ghost o = *old(self);
            proof {
                o.r().lemma_unfold();
                o.r().lemma_unfold_ordered();
            }
            let mut node = self.root.take().unwrap();
            let go_left = match node.right.get_val() {
                Some(right_val) => match value.cmp(right_val) {
                    Ordering::Less => true,
                    Ordering::Greater => false,
                    Ordering::Equal => {
                        proof {
                            assert(false);
                        }
                        false
                    },
                },
                None => false,
            };
            if go_left {
                proof {
                    o.r().l().lemma_unfold();
                }
                node.right.rotate_right();
            }
            self.root = Some(node);
            let ghost mid = *self;
            proof {
                mid.lemma_unfold_ordered();
                mid.r().lemma_unfold();
                assert(mid.is_ordered());
            }
            self.rotate_left();
            proof {
                let f = *self;
                f.lemma_unfold();
                f.l().lemma_unfold();
                if go_left {
                    mid.r().r().lemma_unfold();
                    o.r().l().lemma_unfold();
                }
            }
        }
    }

    /// Restores the balance condition at the root after a removal below it,
    /// choosing single or double rotation by the balance of the taller child.
    pub(crate) fn remove_balance(&mut self)
        requires
            total_order::<V>(),
            old(self).is_ordered(),
            old(self).balanced_below(),
        ensures
            final(self).is_ordered(),
            final(self).heights_correct(),
            final(self).is_balanced(),
            final(self).elems() == old(self).elems(),
            -1 <= old(self).bal() <= 1 ==> *final(self) == *old(self),
            final(self).ht() == old(self).ht() || final(self).ht() + 1 == old(self).ht(),
    {
        if self.root.is_none() {
            return;
        }
        let b = self.get_balance();
        proof {
            lemma_total_order::<V>();
            old(self).lemma_unfold();
            old(self).lemma_unfold_ordered();
        }
        if b >= 2 {
            let ghost o = *old(self);
            proof {
                o.l().lemma_unfold();
                o.l().lemma_unfold_ordered();
            }
            let mut node = self.root.take().unwrap();
            let double = node.left.get_balance() <= -1;
            if double {
                proof {
                    o.l().r().lemma_unfold();
                }
                node.left.rotate_left();
            }
            self.root = Some(node);
            let ghost mid = *self;
            proof {
                mid.lemma_unfold_ordered();
                mid.l().lemma_unfold();
                assert(mid.is_ordered());
            }
            self.rotate_right();
            proof {
                let f = *self;
                f.lemma_unfold();
                f.r().lemma_unfold();
                if double {
                    mid.l().l().lemma_unfold();
                    o.l().r().lemma_unfold();
                }
            }
        } else if b <= -2 {
            let ghost o = *old(self);
            proof {
                o.r().lemma_unfold();
                o.r().lemma_unfold_ordered();
            }
            let mut node = self.root.take().unwrap();
            let double = node.right.get_balance() >= 1;
            if double {
                proof {
                    o.r().l().lemma_unfold();
                }
                node.right.rotate_right();
            }
            self.root = Some(node);
            let ghost mid = *self;
            proof {
                mid.lemma_unfold_ordered();
                mid.r().lemma_unfold();
                assert(mid.is_ordered());
            }
            self.rotate_left();
            proof {
                let f = *self;
                f.lemma_unfold();
                f.l().lemma_unfold();
                if double {
                    mid.r().r().lemma_unfold();
                    o.r().l().lemma_unfold();
                }
            }
        }
    }
}

} // verus!
