//! The mathematical model of a tree: its elements, its in-order sequence,
//! its heights, and the invariants that every operation keeps.

use crate::order::{lemma_total_order, lt, strictly_ascending, total_order};
use crate::tree::{AvlTree, AvlTreeNode};
use vstd::prelude::*;

verus! {

/// The larger of two heights.
pub open spec fn max_height(a: nat, b: nat) -> nat {
    if a >= b { a } else { b }
}

impl<V> AvlTree<V> {
    /// The elements held by the tree.
    pub open(crate) spec fn elems(self) -> Set<V>
        decreases self,
    {
        match self.root {
            None => Set::empty(),
            Some(n) => n.left.elems().union(n.right.elems()).insert(n.val),
        }
    }

    /// The elements in in-order (left subtree, node, right subtree).
    pub open(crate) spec fn in_order(self) -> Seq<V>
        decreases self,
    {
        match self.root {
            None => Seq::empty(),
            Some(n) => n.left.in_order().push(n.val) + n.right.in_order(),
        }
    }

    /// The number of nodes.
    pub open(crate) spec fn size(self) -> nat
        decreases self,
    {
        match self.root {
            None => 0,
            Some(n) => 1 + n.left.size() + n.right.size(),
        }
    }

    /// The height cached at the root; zero for an empty tree.
    pub open(crate) spec fn ht(self) -> nat {
        match self.root {
            None => 0,
            Some(n) => n.height as nat,
        }
    }

    /// The value at the root of a non-empty tree.
    pub(crate) open spec fn v(self) -> V {
        self.root.unwrap().val
    }

    /// The left subtree of the root of a non-empty tree.
    pub(crate) open spec fn l(self) -> AvlTree<V> {
        self.root.unwrap().left
    }

    /// The right subtree of the root of a non-empty tree.
    pub(crate) open spec fn r(self) -> AvlTree<V> {
        self.root.unwrap().right
    }

    /// Every node's cached height is one more than the larger height of its
    /// two subtrees (an empty subtree has height zero).
    pub open(crate) spec fn heights_correct(self) -> bool
        decreases self,
    {
        match self.root {
            None => true,
            Some(n) => {
                &&& n.height as nat == 1 + max_height(n.left.ht(), n.right.ht())
                &&& n.left.heights_correct()
                &&& n.right.heights_correct()
            },
        }
    }

    /// At every node the heights of the two subtrees differ by at most one.
    pub open(crate) spec fn is_balanced(self) -> bool
        decreases self,
    {
        match self.root {
            None => true,
            Some(n) => {
                &&& n.left.ht() <= n.right.ht() + 1
                &&& n.right.ht() <= n.left.ht() + 1
                &&& n.left.is_balanced()
                &&& n.right.is_balanced()
            },
        }
    }
}

impl<V: Ord> AvlTree<V> {
    /// At every node, the left subtree holds only smaller elements and the
    /// right subtree only greater ones.
    pub open(crate) spec fn is_ordered(self) -> bool
        decreases self,
    {
        match self.root {
            None => true,
            Some(n) => {
                &&& forall|e: V| #[trigger] n.left.elems().contains(e) ==> lt(e, n.val)
                &&& forall|e: V| #[trigger] n.right.elems().contains(e) ==> lt(n.val, e)
                &&& n.left.is_ordered()
                &&& n.right.is_ordered()
            },
        }
    }

    /// The invariant that every public operation keeps: the elements are
    /// totally ordered, and the tree is a search tree with correct cached
    /// heights and the AVL balance condition at every node.
    pub open spec fn well_formed(self) -> bool {
        &&& total_order::<V>()
        &&& self.is_ordered()
        &&& self.heights_correct()
        &&& self.is_balanced()
    }
}

impl<V> AvlTree<V> {
    /// The in-order sequence has one entry per node and holds exactly the
    /// tree's elements.
    pub(crate) proof fn lemma_in_order_elems(self)
        ensures
            self.in_order().len() == self.size(),
            self.in_order().to_set() == self.elems(),
            self.elems().finite(),
        decreases self,
    {
        match self.root {
            None => {
                assert(self.in_order().to_set() =~= self.elems());
            },
            Some(n) => {
                n.left.lemma_in_order_elems();
                n.right.lemma_in_order_elems();
                let a = n.left.in_order();
                let b = n.right.in_order();
                let s = a.push(n.val) + b;
                assert(s == self.in_order());
                assert forall|e: V| s.contains(e) <==> self.elems().contains(e) by {
                    if s.contains(e) {
                        let i = choose|i: int| 0 <= i < s.len() && s[i] == e;
                        if i < a.len() {
                            assert(a.contains(e));
                        } else if i > a.len() {
                            assert(b[i - a.len() - 1] == e);
                            assert(b.contains(e));
                        }
                    }
                    if a.contains(e) {
                        let i = choose|i: int| 0 <= i < a.len() && a[i] == e;
                        assert(s[i] == e);
                    }
                    if b.contains(e) {
                        let i = choose|i: int| 0 <= i < b.len() && b[i] == e;
                        assert(s[i + a.len() + 1] == e);
                    }
                    if e == n.val {
                        assert(s[a.len() as int] == e);
                    }
                }
                assert(s.to_set() =~= self.elems());
            },
        }
    }

    /// A tree with correct cached heights is no higher than it has nodes.
    pub(crate) proof fn lemma_height_le_size(self)
        requires
            self.heights_correct(),
        ensures
            self.ht() <= self.size(),
        decreases self,
    {
        if let Some(n) = self.root {
            n.left.lemma_height_le_size();
            n.right.lemma_height_le_size();
        }
    }
}

impl<V: Ord> AvlTree<V> {
    /// An ordered tree lists its elements in strictly ascending order, and
    /// has as many elements as nodes.
    pub(crate) proof fn lemma_in_order_sorted(self)
        requires
            total_order::<V>(),
            self.is_ordered(),
        ensures
            strictly_ascending(self.in_order()),
            self.elems().len() == self.size(),
        decreases self,
    {
        lemma_total_order::<V>();
        self.lemma_in_order_elems();
        if let Some(n) = self.root {
            n.left.lemma_in_order_sorted();
            n.right.lemma_in_order_sorted();
            n.left.lemma_in_order_elems();
            n.right.lemma_in_order_elems();
            let a = n.left.in_order();
            let b = n.right.in_order();
            let s = a.push(n.val) + b;
            assert(s == self.in_order());
            assert forall|i: int| 0 <= i < a.len() implies lt(#[trigger] a[i], n.val) by {
                assert(a.to_set().contains(a[i]));
            }
            assert forall|j: int| 0 <= j < b.len() implies lt(n.val, #[trigger] b[j]) by {
                assert(b.to_set().contains(b[j]));
            }
            assert forall|i: int, j: int| 0 <= i < j < s.len() implies lt(#[trigger] s[i], #[trigger] s[j]) by {
                if j < a.len() {
                    assert(lt(a[i], a[j]));
                } else if j == a.len() {
                    assert(lt(a[i], n.val));
                } else if i > a.len() {
                    assert(lt(b[i - a.len() - 1], b[j - a.len() - 1]));
                } else if i == a.len() {
                    assert(lt(n.val, b[j - a.len() - 1]));
                } else {
                    assert(lt(a[i], n.val));
                    assert(lt(n.val, b[j - a.len() - 1]));
                }
            }
            assert(s.no_duplicates()) by {
                assert forall|i: int, j: int| 0 <= i < s.len() && 0 <= j < s.len() && i != j implies s[i] != s[j] by {
                    if i < j {
                        assert(lt(s[i], s[j]));
                    } else {
                        assert(lt(s[j], s[i]));
                    }
                }
            }
            s.unique_seq_to_set();
        }
    }
}

impl<V> AvlTreeNode<V> {
    /// The elements of the tree rooted at this node.
    pub(crate) open spec fn node_elems(self) -> Set<V> {
        self.left.elems().union(self.right.elems()).insert(self.val)
    }
}

impl<V: Ord> AvlTreeNode<V> {
    /// The search order holds at this node and below it.
    pub(crate) open spec fn node_ordered(self) -> bool {
        &&& forall|e: V| #[trigger] self.left.elems().contains(e) ==> lt(e, self.val)
        &&& forall|e: V| #[trigger] self.right.elems().contains(e) ==> lt(self.val, e)
        &&& self.left.is_ordered()
        &&& self.right.is_ordered()
    }
}

impl<V> AvlTree<V> {
    /// One step of each recursive definition at a non-empty root.
    pub(crate) proof fn lemma_unfold(self)
        requires
            self.root.is_some(),
        ensures
            self.elems() == self.l().elems().union(self.r().elems()).insert(self.v()),
            self.in_order() == self.l().in_order().push(self.v()) + self.r().in_order(),
            self.size() == 1 + self.l().size() + self.r().size(),
            self.heights_correct() <==> {
                &&& self.ht() == 1 + max_height(self.l().ht(), self.r().ht())
                &&& self.l().heights_correct()
                &&& self.r().heights_correct()
            },
            self.is_balanced() <==> {
                &&& self.l().ht() <= self.r().ht() + 1
                &&& self.r().ht() <= self.l().ht() + 1
                &&& self.l().is_balanced()
                &&& self.r().is_balanced()
            },
    {
    }

    /// The balance factor at the root: left height minus right height.
    pub(crate) open spec fn bal(self) -> int {
        match self.root {
            None => 0,
            Some(n) => n.left.ht() - n.right.ht(),
        }
    }

    /// The tree is well formed except perhaps for the balance condition at
    /// its root.
    pub(crate) open spec fn balanced_below(self) -> bool {
        &&& self.heights_correct()
        &&& self.root.is_some() ==> self.l().is_balanced() && self.r().is_balanced()
        &&& -2 <= self.bal() <= 2
    }
}

impl<V: Ord> AvlTree<V> {
    /// One step of the search-order definition at a non-empty root.
    pub(crate) proof fn lemma_unfold_ordered(self)
        requires
            self.root.is_some(),
        ensures
            self.is_ordered() <==> {
                &&& forall|e: V| #[trigger] self.l().elems().contains(e) ==> lt(e, self.v())
                &&& forall|e: V| #[trigger] self.r().elems().contains(e) ==> lt(self.v(), e)
                &&& self.l().is_ordered()
                &&& self.r().is_ordered()
            },
    {
    }

    /// The shape that an insertion of `value` leaves in a subtree whose height
    /// it raised: a fresh leaf, or a root leaning by one to the side that
    /// `value` went to.
    pub(crate) open spec fn grew_toward(self, value: V) -> bool {
        &&& self.root.is_some()
        &&& {
            ||| self.ht() == 1 && self.v() == value
            ||| lt(value, self.v()) && self.l().ht() == self.r().ht() + 1
            ||| lt(self.v(), value) && self.r().ht() == self.l().ht() + 1
        }
    }
}

/// The value a slot shows, if any.
pub open spec fn slot_value<V>(slot: Option<&V>) -> Option<V> {
    match slot {
        Some(v) => Some(*v),
        None => None,
    }
}

impl<V> AvlTree<V> {
    /// The `2^depth` positions of level `depth` below the root, from left to
    /// right, each holding the value of the node there or `None` where the
    /// tree has no node.
    pub open(crate) spec fn slots(self, depth: nat) -> Seq<Option<V>>
        decreases depth,
    {
        if depth == 0 {
            match self.root {
                None => seq![None],
                Some(n) => seq![Some(n.val)],
            }
        } else {
            match self.root {
                None => self.slots((depth - 1) as nat) + self.slots((depth - 1) as nat),
                Some(n) => n.left.slots((depth - 1) as nat) + n.right.slots((depth - 1) as nat),
            }
        }
    }
}

impl<V: Ord> AvlTree<V> {
    /// A well-formed tree lists its elements, each once, in strictly
    /// ascending order.
    pub proof fn lemma_in_order_ascending(self)
        requires
            self.well_formed(),
        ensures
            strictly_ascending(self.in_order()),
            self.in_order().to_set() == self@,
            self.in_order().len() == self@.len(),
    {
        self.lemma_in_order_sorted();
        self.lemma_in_order_elems();
    }
}

impl<V> View for AvlTree<V> {
    type V = Set<V>;

    open spec fn view(&self) -> Set<V> {
        self.elems()
    }
}

} // verus!
