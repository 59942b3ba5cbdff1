//! An unbalanced binary search tree over `u64` elements, with duplicates
//! routed to the right.  The mathematical model of a tree is the sequence of
//! its elements in in-order; every operation states its effect on that
//! sequence (or on its multiset, where the exact positions of duplicates are
//! immaterial).

use vstd::arithmetic::power2::pow2;
use vstd::multiset::Multiset;
use vstd::prelude::*;

verus! {

/// One node: an element and two optional, exclusively owned subtrees.
pub struct TreeNode {
    pub element: u64,
    pub left: Option<Box<TreeNode>>,
    pub right: Option<Box<TreeNode>>,
}

/// The tree itself: an optional root node.
pub struct BinarySearchTree {
    pub root: Option<Box<TreeNode>>,
}

/// A sequence is non-decreasing.
pub open spec fn sorted(s: Seq<u64>) -> bool {
    forall|i: int, j: int| 0 <= i <= j < s.len() ==> s[i] <= s[j]
}

/// The in-order element sequence of an optional subtree.
pub open spec fn subtree_elements(o: Option<Box<TreeNode>>) -> Seq<u64>
    decreases o,
{
    match o {
        None => Seq::empty(),
        Some(n) => n.elements(),
    }
}

/// Whether an optional subtree satisfies the order invariant.
pub open spec fn subtree_wf(o: Option<Box<TreeNode>>) -> bool
    decreases o,
{
    match o {
        None => true,
        Some(n) => n.wf(),
    }
}

/// Whether an optional subtree is balanced to within one level.
pub open spec fn subtree_balanced(o: Option<Box<TreeNode>>) -> bool
    decreases o,
{
    match o {
        None => true,
        Some(n) => n.balanced(),
    }
}

impl TreeNode {
    /// Balanced to within one level, everywhere: each node's left subtree
    /// holds either as many elements as its right subtree or one fewer —
    /// the shape the midpoint rule of the balanced construction produces.
    pub open spec fn balanced(self) -> bool
        decreases self,
    {
        &&& subtree_elements(self.left).len() <= subtree_elements(self.right).len()
        &&& subtree_elements(self.right).len() <= subtree_elements(self.left).len() + 1
        &&& subtree_balanced(self.left)
        &&& subtree_balanced(self.right)
    }

    /// The in-order element sequence: left subtree, then this node's
    /// element, then the right subtree.
    pub open spec fn elements(self) -> Seq<u64>
        decreases self,
    {
        subtree_elements(self.left) + seq![self.element] + subtree_elements(self.right)
    }

    /// The order invariant: everything on the left is at most this node's
    /// element, everything on the right at least, recursively.
    pub open spec fn wf(self) -> bool
        decreases self,
    {
        &&& forall|i: int|
            0 <= i < subtree_elements(self.left).len() ==> subtree_elements(self.left)[i]
                <= self.element
        &&& forall|i: int|
            0 <= i < subtree_elements(self.right).len() ==> self.element
                <= subtree_elements(self.right)[i]
        &&& subtree_wf(self.left)
        &&& subtree_wf(self.right)
    }
}

/// The subtree at which a search through an optional subtree stops, if any.
pub open spec fn subtree_found(o: Option<Box<TreeNode>>, v: u64) -> Option<TreeNode>
    decreases o,
{
    match o {
        None => None,
        Some(n) => n.found(v),
    }
}

/// The in-order index at which a search through an optional subtree stops,
/// or `-1` when the value is absent.
pub open spec fn subtree_find_pos(o: Option<Box<TreeNode>>, v: u64) -> int
    decreases o,
{
    match o {
        None => -1,
        Some(n) => n.find_pos(v),
    }
}

impl TreeNode {
    /// The subtree at which a search below this node stops: this node when
    /// the element matches, else the left or right subtree as the
    /// comparison directs.
    pub open spec fn found(self, v: u64) -> Option<TreeNode>
        decreases self,
    {
        if v == self.element {
            Some(self)
        } else if v < self.element {
            subtree_found(self.left, v)
        } else {
            subtree_found(self.right, v)
        }
    }

    /// The in-order index of the node a search below this node stops at,
    /// or `-1` when the value is absent.
    pub open spec fn find_pos(self, v: u64) -> int
        decreases self,
    {
        if v == self.element {
            subtree_elements(self.left).len() as int
        } else if v < self.element {
            subtree_find_pos(self.left, v)
        } else {
            let p = subtree_find_pos(self.right, v);
            if p >= 0 {
                subtree_elements(self.left).len() + 1 + p
            } else {
                -1
            }
        }
    }
}

/// How a node's in-order sequence decomposes into its parts, stated for its
/// length, its multiset and its membership at once.
pub proof fn lemma_elements_decompose(n: TreeNode)
    ensures
        n.elements().len() == subtree_elements(n.left).len() + 1 + subtree_elements(n.right).len(),
        n.elements().to_multiset() == subtree_elements(n.left).to_multiset().insert(
            n.element,
        ).add(subtree_elements(n.right).to_multiset()),
        forall|x: u64|
            n.elements().contains(x) <==> (subtree_elements(n.left).contains(x) || x == n.element
                || subtree_elements(n.right).contains(x)),
{
    broadcast use vstd::seq_lib::group_to_multiset_ensures;
    broadcast use vstd::seq_lib::lemma_multiset_commutative;
    broadcast use vstd::multiset::group_multiset_axioms;

    let ls = subtree_elements(n.left);
    let rs = subtree_elements(n.right);
    let e = n.element;
    assert(seq![e] =~= Seq::<u64>::empty().push(e));
    assert(seq![e].to_multiset() =~= Multiset::<u64>::empty().insert(e));
    assert((ls + seq![e]).to_multiset() =~= ls.to_multiset().insert(e));
    assert(n.elements().to_multiset() =~= ls.to_multiset().insert(e).add(rs.to_multiset()));
    assert forall|x: u64|
        n.elements().contains(x) <==> (ls.contains(x) || x == e || rs.contains(x)) by {
        assert(n.elements().to_multiset().count(x) == ls.to_multiset().count(x) + (if x == e {
            1int
        } else {
            0int
        }) + rs.to_multiset().count(x));
    }
}

/// On a well-formed node, membership in a subtree bounds the member against
/// the node's element.
pub proof fn lemma_wf_contains_bounds(n: TreeNode)
    requires
        n.wf(),
    ensures
        forall|x: u64| subtree_elements(n.left).contains(x) ==> x <= n.element,
        forall|x: u64| subtree_elements(n.right).contains(x) ==> n.element <= x,
{
    let ls = subtree_elements(n.left);
    let rs = subtree_elements(n.right);
    assert forall|x: u64| ls.contains(x) implies x <= n.element by {
        let i = choose|i: int| 0 <= i < ls.len() && ls[i] == x;
        assert(ls[i] <= n.element);
    }
    assert forall|x: u64| rs.contains(x) implies n.element <= x by {
        let i = choose|i: int| 0 <= i < rs.len() && rs[i] == x;
        assert(n.element <= rs[i]);
    }
}

/// On a well-formed node, a search stops exactly when the value occurs, and
/// it stops at an in-order index holding that value.
pub proof fn lemma_find_pos(n: TreeNode, v: u64)
    requires
        n.wf(),
    ensures
        (n.find_pos(v) >= 0) <==> n.elements().contains(v),
        (n.found(v) is Some) <==> (n.find_pos(v) >= 0),
        n.find_pos(v) >= 0 ==> 0 <= n.find_pos(v) < n.elements().len() && n.elements()[n.find_pos(
            v,
        )] == v,
        n.found(v) matches Some(f) ==> f.element == v && f.wf(),
    decreases n,
{
    let ls = subtree_elements(n.left);
    let rs = subtree_elements(n.right);
    let s = n.elements();
    let m = ls.len() as int;
    let e = n.element;
    if v == e {
        assert(s[m] == v);
        assert(s.contains(v));
    } else if v < e {
        match n.left {
            Some(l) => {
                lemma_find_pos(*l, v);
                if l.find_pos(v) >= 0 {
                    let p = l.find_pos(v);
                    assert(s[p] == ls[p]);
                    assert(s.contains(v));
                } else {
                    assert forall|i: int| 0 <= i < s.len() implies s[i] != v by {
                        if i < m {
                            assert(s[i] == ls[i]);
                            assert(ls.contains(ls[i]));
                        } else if i > m {
                            assert(s[i] == rs[i - m - 1]);
                            assert(e <= rs[i - m - 1]);
                        }
                    }
                    assert(!s.contains(v));
                }
            },
            None => {
                assert forall|i: int| 0 <= i < s.len() implies s[i] != v by {
                    if i > m {
                        assert(s[i] == rs[i - m - 1]);
                        assert(e <= rs[i - m - 1]);
                    }
                }
                assert(!s.contains(v));
            },
        }
    } else {
        match n.right {
            Some(r) => {
                lemma_find_pos(*r, v);
                if r.find_pos(v) >= 0 {
                    let p = r.find_pos(v);
                    assert(s[m + 1 + p] == rs[p]);
                    assert(s.contains(v));
                } else {
                    assert forall|i: int| 0 <= i < s.len() implies s[i] != v by {
                        if i < m {
                            assert(s[i] == ls[i]);
                            assert(ls[i] <= e);
                        } else if i > m {
                            assert(s[i] == rs[i - m - 1]);
                            assert(rs.contains(rs[i - m - 1]));
                        }
                    }
                    assert(!s.contains(v));
                }
            },
            None => {
                assert forall|i: int| 0 <= i < s.len() implies s[i] != v by {
                    if i < m {
                        assert(s[i] == ls[i]);
                        assert(ls[i] <= e);
                    }
                }
                assert(!s.contains(v));
            },
        }
    }
}

impl View for BinarySearchTree {
    type V = Seq<u64>;

    open spec fn view(&self) -> Seq<u64> {
        subtree_elements(self.root)
    }
}

impl BinarySearchTree {
    /// The tree's order invariant.
    pub open spec fn wf(self) -> bool {
        subtree_wf(self.root)
    }

    /// Whether the tree is balanced to within one level at every node, as
    /// the balanced construction leaves it.  Later insertions and
    /// deletions need not keep it.
    pub open spec fn balanced(self) -> bool {
        subtree_balanced(self.root)
    }

    /// Creates an empty tree.
    pub fn new() -> (t: Self)
        ensures
            t.wf(),
            t.balanced(),
            t@ == Seq::<u64>::empty(),
    {
        BinarySearchTree { root: None }
    }
}

/// How an insertion rewrites an optional subtree: an empty slot acquires a
/// single new leaf holding the value, and a node keeps its element and the
/// child away from the descent untouched while the child in the descent's
/// direction is rewritten the same way.  This pins the new tree node for
/// node: nothing but the one empty slot on the search path changes.
pub open spec fn inserted_subtree(
    before: Option<Box<TreeNode>>,
    after: Option<Box<TreeNode>>,
    value: u64,
) -> bool
    decreases before,
{
    match before {
        None => (after matches Some(leaf) && leaf.element == value && leaf.left is None
            && leaf.right is None),
        Some(b) => (after matches Some(a) && inserted_node(*b, *a, value)),
    }
}

/// How an insertion rewrites a node: see [`inserted_subtree`].
pub open spec fn inserted_node(before: TreeNode, after: TreeNode, value: u64) -> bool
    decreases before,
{
    if value < before.element {
        after.element == before.element && after.right == before.right && inserted_subtree(
            before.left,
            after.left,
            value,
        )
    } else {
        after.element == before.element && after.left == before.left && inserted_subtree(
            before.right,
            after.right,
            value,
        )
    }
}

impl TreeNode {
    /// Descends to the empty slot that the comparisons pick and attaches a
    /// new leaf there.  Strictly smaller values go left; equal and greater
    /// values go right.
    fn insert_into(node: &mut Option<Box<TreeNode>>, value: u64)
        requires
            subtree_wf(*old(node)),
        ensures
            subtree_wf(*final(node)),
            subtree_elements(*final(node)).to_multiset() == subtree_elements(
                *old(node),
            ).to_multiset().insert(value),
            subtree_elements(*final(node)).len() == subtree_elements(*old(node)).len() + 1,
            forall|x: u64|
                subtree_elements(*final(node)).contains(x) ==> subtree_elements(
                    *old(node),
                ).contains(x) || x == value,
            inserted_subtree(*old(node), *final(node), value),
        decreases *old(node),
    {
        broadcast use vstd::seq_lib::group_to_multiset_ensures;
        broadcast use vstd::seq_lib::lemma_multiset_commutative;
        broadcast use vstd::multiset::group_multiset_axioms;

        match node.take() {
            None => {
                let leaf = TreeNode { element: value, left: None, right: None };
                proof {
                    lemma_elements_decompose(leaf);
                    assert(Seq::<u64>::empty().to_multiset() =~= Multiset::<u64>::empty());
                    assert(leaf.elements().to_multiset() =~= Seq::<u64>::empty().to_multiset().insert(
                        value,
                    ));
                }
                *node = Some(Box::new(leaf));
            },
            Some(mut boxed) => {
                (&mut *boxed).insert(value);
                *node = Some(boxed);
            },
        }
    }

    /// Inserts one value below this node, per the right-biased duplicate
    /// policy.
    pub fn insert(&mut self, value: u64)
        requires
            old(self).wf(),
        ensures
            final(self).wf(),
            final(self).elements().to_multiset() == old(self).elements().to_multiset().insert(
                value,
            ),
            final(self).elements().len() == old(self).elements().len() + 1,
            forall|x: u64|
                final(self).elements().contains(x) ==> old(self).elements().contains(x) || x
                    == value,
            inserted_node(*old(self), *final(self), value),
        decreases *old(self),
    {
        broadcast use vstd::seq_lib::group_to_multiset_ensures;
        broadcast use vstd::seq_lib::lemma_multiset_commutative;
        broadcast use vstd::multiset::group_multiset_axioms;

        let ghost ls = subtree_elements(self.left);
        let ghost rs = subtree_elements(self.right);
        let ghost e = self.element;
        if value < self.element {
            Self::insert_into(&mut self.left, value);
            proof {
                let ls2 = subtree_elements(self.left);
                assert forall|i: int| 0 <= i < ls2.len() implies ls2[i] <= e by {
                    assert(ls2.contains(ls2[i]));
                }
                assert(final(self).elements() == ls2 + seq![e] + rs);
                assert((ls2 + seq![e] + rs).to_multiset() =~= (ls + seq![e]
                    + rs).to_multiset().insert(value));
                assert forall|x: u64| (ls2 + seq![e] + rs).contains(x) implies (ls + seq![e]
                    + rs).contains(x) || x == value by {
                    assert((ls2 + seq![e] + rs).to_multiset().count(x) > 0);
                }
            }
        } else {
            Self::insert_into(&mut self.right, value);
            proof {
                let rs2 = subtree_elements(self.right);
                assert forall|i: int| 0 <= i < rs2.len() implies e <= rs2[i] by {
                    assert(rs2.contains(rs2[i]));
                }
                assert(final(self).elements() == ls + seq![e] + rs2);
                assert((ls + seq![e] + rs2).to_multiset() =~= (ls + seq![e]
                    + rs).to_multiset().insert(value));
                assert forall|x: u64| (ls + seq![e] + rs2).contains(x) implies (ls + seq![e]
                    + rs).contains(x) || x == value by {
                    assert((ls + seq![e] + rs2).to_multiset().count(x) > 0);
                }
            }
        }
    }
}

impl TreeNode {
    /// Descends as the comparisons direct until the value is met or an
    /// empty slot shows it absent.
    fn find(&self, value: u64) -> (r: Option<&TreeNode>)
        requires
            self.wf(),
        ensures
            match r {
                Some(f) => self.found(value) == Some(*f),
                None => self.found(value) is None,
            },
        decreases *self,
    {
        if value == self.element {
            Some(self)
        } else if value < self.element {
            match &self.left {
                Some(l) => l.find(value),
                None => None,
            }
        } else {
            match &self.right {
                Some(r) => r.find(value),
                None => None,
            }
        }
    }

    /// Walks left as far as possible: the node reached has no left child
    /// and holds the least element of this subtree.
    pub fn minimum_node(&self) -> (r: &TreeNode)
        requires
            self.wf(),
        ensures
            r.element == self.elements()[0],
            r.left is None,
            r.wf(),
            forall|i: int| 0 <= i < self.elements().len() ==> r.element <= self.elements()[i],
        decreases *self,
    {
        proof {
            lemma_wf_elements_sorted(*self);
        }
        match &self.left {
            Some(l) => {
                let r = l.minimum_node();
                proof {
                    assert(self.elements()[0] == subtree_elements(self.left)[0]);
                }
                r
            },
            None => {
                proof {
                    assert(subtree_elements(self.left).len() == 0);
                }
                self
            },
        }
    }
}

impl TreeNode {
    /// Builds a balanced subtree over the sorted slice `arr[start..=end]`:
    /// the midpoint (rounded down) becomes the root, the halves on either
    /// side become the subtrees.
    fn build_range(arr: &Vec<u64>, start: usize, end: usize) -> (n: Box<TreeNode>)
        requires
            sorted(arr@),
            start <= end < arr@.len(),
        ensures
            n.wf(),
            n.balanced(),
            n.elements() == arr@.subrange(start as int, end as int + 1),
        decreases end - start,
    {
        let mid = start + (end - start) / 2;
        let left = if start < mid {
            Some(Self::build_range(arr, start, mid - 1))
        } else {
            None
        };
        let right = if end > mid {
            Some(Self::build_range(arr, mid + 1, end))
        } else {
            None
        };
        let n = TreeNode { element: arr[mid], left, right };
        proof {
            let all = arr@.subrange(start as int, end as int + 1);
            let lpart = arr@.subrange(start as int, mid as int);
            let rpart = arr@.subrange(mid as int + 1, end as int + 1);
            assert(subtree_elements(n.left) == lpart) by {
                if start >= mid {
                    assert(subtree_elements(n.left) =~= lpart);
                }
            }
            assert(subtree_elements(n.right) == rpart) by {
                if end <= mid {
                    assert(subtree_elements(n.right) =~= rpart);
                }
            }
            assert(n.elements() =~= all);
        }
        Box::new(n)
    }
}

impl BinarySearchTree {
    /// Replaces the tree's contents with a balanced binary search tree
    /// over `arr[start..=end]`, which must be sorted in ascending order.
    pub fn bst(&mut self, arr: &Vec<u64>, start: usize, end: usize)
        requires
            sorted(arr@),
            start <= end < arr@.len(),
        ensures
            final(self).wf(),
            final(self).balanced(),
            final(self)@ == arr@.subrange(start as int, end as int + 1),
    {
        self.root = Some(TreeNode::build_range(arr, start, end));
    }
}

impl TreeNode {
    /// Removes one occurrence of a value from the subtree rooted here and
    /// returns the root of the rewritten subtree, which the caller
    /// reattaches in place of this node.  A node with two children is not
    /// unlinked itself: its element is overwritten with the least element
    /// of its right subtree, and that element's node is deleted from the
    /// right subtree instead.  Deleting an absent value changes nothing.
    pub fn delete(node: Box<TreeNode>, value: u64) -> (r: Option<Box<TreeNode>>)
        requires
            node.wf(),
        ensures
            subtree_wf(r),
            subtree_elements(r).to_multiset() == (if node.elements().contains(value) {
                node.elements().to_multiset().remove(value)
            } else {
                node.elements().to_multiset()
            }),
            subtree_elements(r).len() == node.elements().len() - (if node.elements().contains(
                value,
            ) {
                1int
            } else {
                0int
            }),
            forall|x: u64| subtree_elements(r).contains(x) ==> node.elements().contains(x),
            !node.elements().contains(value) ==> r == Some(node),
            (node.element == value && node.left is Some && node.right is Some) ==> (r matches Some(
                m,
            ) && m.element == subtree_elements(node.right)[0] && m.left == node.left
                && subtree_elements(m.right).to_multiset() == subtree_elements(
                node.right,
            ).to_multiset().remove(subtree_elements(node.right)[0])),
        decreases node.elements().len(),
    {
        broadcast use vstd::seq_lib::group_to_multiset_ensures;
        broadcast use vstd::multiset::group_multiset_axioms;

        let ghost s = node.elements();
        let ghost ls = subtree_elements(node.left);
        let ghost rs = subtree_elements(node.right);
        let ghost e = node.element;
        proof {
            lemma_elements_decompose(*node);
            lemma_wf_contains_bounds(*node);
        }
        let mut n: TreeNode = *node;
        if value > n.element {
            match n.right.take() {
                Some(rt) => {
                    let ghost rt0 = rt;
                    n.right = Self::delete(rt, value);
                    proof {
                        lemma_elements_decompose(n);
                        let rs2 = subtree_elements(n.right);
                        assert forall|i: int| 0 <= i < rs2.len() implies e <= rs2[i] by {
                            assert(rs2.contains(rs2[i]));
                        }
                        assert(!ls.contains(value) && e != value);
                        if rs.contains(value) {
                            assert(n.elements().to_multiset() =~= s.to_multiset().remove(value));
                        } else {
                            assert(!s.contains(value));
                            assert(n.elements().to_multiset() =~= s.to_multiset());
                            assert(n.right == Some(rt0));
                            assert(n == *node);
                        }
                    }
                    Some(Box::new(n))
                },
                None => {
                    proof {
                        assert(!s.contains(value));
                        assert(n == *node);
                    }
                    Some(Box::new(n))
                },
            }
        } else if value < n.element {
            match n.left.take() {
                Some(lt) => {
                    let ghost lt0 = lt;
                    n.left = Self::delete(lt, value);
                    proof {
                        lemma_elements_decompose(n);
                        let ls2 = subtree_elements(n.left);
                        assert forall|i: int| 0 <= i < ls2.len() implies ls2[i] <= e by {
                            assert(ls2.contains(ls2[i]));
                        }
                        assert(!rs.contains(value) && e != value);
                        if ls.contains(value) {
                            assert(n.elements().to_multiset() =~= s.to_multiset().remove(value));
                        } else {
                            assert(!s.contains(value));
                            assert(n.elements().to_multiset() =~= s.to_multiset());
                            assert(n.left == Some(lt0));
                            assert(n == *node);
                        }
                    }
                    Some(Box::new(n))
                },
                None => {
                    proof {
                        assert(!s.contains(value));
                        assert(n == *node);
                    }
                    Some(Box::new(n))
                },
            }
        } else {
            // The target is this node's own element.
            if n.left.is_none() {
                proof {
                    assert(s.contains(value));
                    assert(subtree_elements(n.right).to_multiset() =~= s.to_multiset().remove(
                        value,
                    ));
                }
                n.right
            } else if n.right.is_none() {
                proof {
                    assert(s.contains(value));
                    assert(subtree_elements(n.left).to_multiset() =~= s.to_multiset().remove(
                        value,
                    ));
                }
                n.left
            } else {
                match n.right.take() {
                    Some(rt) => {
                        let m: u64 = rt.minimum_node().element;
                        proof {
                            lemma_elements_decompose(*rt);
                            assert(rs == rt.elements());
                            assert(rs.len() > 0);
                            assert(rs.contains(m)) by { assert(rs[0] == m) };
                            assert(e <= m);
                        }
                        n.element = m;
                        n.right = Self::delete(rt, m);
                        proof {
                            lemma_elements_decompose(n);
                            let rs2 = subtree_elements(n.right);
                            assert forall|i: int| 0 <= i < rs2.len() implies m <= rs2[i] by {
                                assert(rs2.contains(rs2[i]));
                                assert(rs.contains(rs2[i]));
                                let j = choose|j: int| 0 <= j < rs.len() && rs[j] == rs2[i];
                                assert(m <= rs[j]);
                            }
                            assert forall|i: int|
                                0 <= i < subtree_elements(n.left).len() implies subtree_elements(
                                n.left,
                            )[i] <= m by {
                                assert(subtree_elements(n.left)[i] <= e);
                            }
                            assert(s.contains(value));
                            assert(n.elements().to_multiset() =~= s.to_multiset().remove(value));
                            assert forall|x: u64|
                                n.elements().contains(x) implies s.contains(x) by {
                                if x == m {
                                    assert(rs.contains(x));
                                }
                            }
                        }
                        Some(Box::new(n))
                    },
                    None => {
                        proof {
                            assert(false);
                        }
                        None
                    },
                }
            }
        }
    }
}

impl BinarySearchTree {
    /// The subtree at which a search stops, if any.
    pub open spec fn found(self, v: u64) -> Option<TreeNode> {
        subtree_found(self.root, v)
    }

    /// The in-order index at which a search stops, or `-1` when the value
    /// is absent.
    pub open spec fn find_pos(self, v: u64) -> int {
        subtree_find_pos(self.root, v)
    }

    /// Searches for a value: a handle to the node where the search stops,
    /// or `None` exactly when the value is nowhere in the tree.  The tree
    /// is not changed.
    pub fn find_value(&self, value: u64) -> (r: Option<&TreeNode>)
        requires
            self.wf(),
        ensures
            r is Some <==> self@.contains(value),
            r is Some <==> self.find_pos(value) >= 0,
            match r {
                Some(f) => self.found(value) == Some(*f) && f.element == value && f.wf(),
                None => self.found(value) is None,
            },
    {
        match &self.root {
            Some(n) => {
                proof {
                    lemma_find_pos(**n, value);
                }
                n.find(value)
            },
            None => None,
        }
    }

    /// The node holding the least element — the node reached by walking
    /// left from the root until a node with no left child — or `None` on
    /// the empty tree.
    pub fn minimum_node(&self) -> (r: Option<&TreeNode>)
        requires
            self.wf(),
        ensures
            r is Some <==> self@.len() > 0,
            match r {
                Some(n) => n.element == self@[0] && n.left is None && n.wf() && forall|i: int|
                    0 <= i < self@.len() ==> n.element <= self@[i],
                None => self@.len() == 0,
            },
    {
        match &self.root {
            Some(n) => Some(n.minimum_node()),
            None => None,
        }
    }

    /// Inserts a value: strictly smaller values descend left, equal and
    /// greater values descend right, and a new leaf is attached at the
    /// first empty slot reached.  The element count grows by exactly one,
    /// and no existing node is moved or changed beyond that one slot
    /// acquiring the leaf.
    pub fn insert(&mut self, value: u64)
        requires
            old(self).wf(),
        ensures
            final(self).wf(),
            final(self)@.to_multiset() == old(self)@.to_multiset().insert(value),
            final(self)@.len() == old(self)@.len() + 1,
            inserted_subtree(old(self).root, final(self).root, value),
    {
        TreeNode::insert_into(&mut self.root, value);
    }

    /// Deletes one occurrence of a value if it is present; deleting an
    /// absent value is a no-op.  The element count shrinks by exactly one
    /// when the value was present and stays unchanged otherwise.
    pub fn delete(&mut self, value: u64)
        requires
            old(self).wf(),
        ensures
            final(self).wf(),
            final(self)@.to_multiset() == (if old(self)@.contains(value) {
                old(self)@.to_multiset().remove(value)
            } else {
                old(self)@.to_multiset()
            }),
            final(self)@.len() == old(self)@.len() - (if old(self)@.contains(value) {
                1int
            } else {
                0int
            }),
            forall|x: u64| final(self)@.contains(x) ==> old(self)@.contains(x),
            !old(self)@.contains(value) ==> *final(self) == *old(self),
    {
        match self.root.take() {
            Some(root) => {
                self.root = TreeNode::delete(root, value);
            },
            None => {},
        }
    }
}

impl TreeNode {
    /// The element of the deepest node on the search path for `v` at which
    /// the path turns left — the last node seen whose element is strictly
    /// greater than `v` — or `None` when the path never turns left.
    pub open spec fn last_left_turn(self, v: u64) -> Option<u64>
        decreases self,
    {
        if v == self.element {
            None
        } else if v < self.element {
            match self.left {
                Some(l) => match l.last_left_turn(v) {
                    Some(c) => Some(c),
                    None => Some(self.element),
                },
                None => Some(self.element),
            }
        } else {
            match self.right {
                Some(r) => r.last_left_turn(v),
                None => None,
            }
        }
    }

    /// Re-descends from this node along the search path for `value` and
    /// returns the last node at which the path turned left.
    fn last_left_turn_node(&self, value: u64) -> (r: Option<&TreeNode>)
        requires
            self.wf(),
        ensures
            match self.last_left_turn(value) {
                Some(c) => r matches Some(n) && n.element == c && n.wf(),
                None => r is None,
            },
        decreases *self,
    {
        if value == self.element {
            None
        } else if value < self.element {
            match &self.left {
                Some(l) => match l.last_left_turn_node(value) {
                    Some(n) => Some(n),
                    None => Some(self),
                },
                None => Some(self),
            }
        } else {
            match &self.right {
                Some(r) => r.last_left_turn_node(value),
                None => None,
            }
        }
    }
}

/// Where a search for `v` stops at in-order index `p`, the element at index
/// `p + 1` — the in-order successor of the node found — is the least
/// element of that node's right subtree when it has one, and otherwise the
/// element of the last left turn on the search path; and there is no index
/// `p + 1` exactly when the search stopped at the last in-order node.
pub proof fn lemma_successor(n: TreeNode, v: u64)
    requires
        n.wf(),
        n.find_pos(v) >= 0,
    ensures
        n.found(v) is Some,
        ({
            let p = n.find_pos(v);
            let f = n.found(v).unwrap();
            &&& (f.right is Some ==> p + 1 < n.elements().len() && n.elements()[p + 1]
                == subtree_elements(f.right)[0])
            &&& (f.right is None ==> match n.last_left_turn(v) {
                Some(c) => p + 1 < n.elements().len() && n.elements()[p + 1] == c,
                None => p + 1 == n.elements().len(),
            })
        }),
    decreases n,
{
    let s = n.elements();
    let ls = subtree_elements(n.left);
    let rs = subtree_elements(n.right);
    let m = ls.len() as int;
    let e = n.element;
    lemma_find_pos(n, v);
    let p = n.find_pos(v);
    let f = n.found(v).unwrap();
    if v == e {
        assert(p == m);
        if f.right is Some {
            let r = n.right.unwrap();
            lemma_elements_decompose(*r);
            assert(rs.len() > 0);
            assert(s[m + 1] == rs[0]);
        } else {
            assert(p + 1 == s.len());
        }
    } else if v < e {
        let l = n.left.unwrap();
        lemma_find_pos(*l, v);
        lemma_successor(*l, v);
        let pl = l.find_pos(v);
        assert(p == pl);
        assert(f == l.found(v).unwrap());
        if f.right is Some {
            assert(s[pl + 1] == ls[pl + 1]);
        } else {
            match l.last_left_turn(v) {
                Some(c) => {
                    assert(n.last_left_turn(v) == Some(c));
                    assert(s[pl + 1] == ls[pl + 1]);
                },
                None => {
                    assert(pl + 1 == m);
                    assert(n.last_left_turn(v) == Some(e));
                    assert(s[m] == e);
                },
            }
        }
    } else {
        let r = n.right.unwrap();
        lemma_find_pos(*r, v);
        lemma_successor(*r, v);
        let pr = r.find_pos(v);
        assert(pr >= 0);
        assert(p == m + 1 + pr);
        assert(f == r.found(v).unwrap());
        if f.right is Some {
            assert(s[p + 1] == rs[pr + 1]);
        } else {
            match r.last_left_turn(v) {
                Some(c) => {
                    assert(n.last_left_turn(v) == Some(c));
                    assert(s[p + 1] == rs[pr + 1]);
                },
                None => {
                    assert(p + 1 == s.len());
                    assert(n.last_left_turn(v) is None);
                },
            }
        }
    }
}

impl TreeNode {
    /// Appends this subtree's elements to `out` in in-order.
    fn collect_in_order(&self, out: &mut Vec<u64>)
        ensures
            final(out)@ == old(out)@ + self.elements(),
        decreases *self,
    {
        if let Some(l) = &self.left {
            l.collect_in_order(out);
        }
        out.push(self.element);
        if let Some(r) = &self.right {
            r.collect_in_order(out);
        }
        proof {
            assert(out@ =~= old(out)@ + self.elements());
        }
    }
}

impl BinarySearchTree {
    /// The elements in ascending in-order: left subtree, node, right
    /// subtree, recursively.
    pub fn in_order(&self) -> (r: Vec<u64>)
        ensures
            r@ == self@,
    {
        let mut out: Vec<u64> = Vec::new();
        match &self.root {
            Some(root) => {
                root.collect_in_order(&mut out);
                proof {
                    assert(out@ =~= self@);
                }
            },
            None => {},
        }
        out
    }

    /// How many nodes the tree holds.
    pub fn size(&self) -> (n: usize)
        ensures
            n == self@.len(),
    {
        self.in_order().len()
    }

    /// The in-order successor of a value: the node found by searching for
    /// the value is located first; the successor is then the node at the
    /// next in-order index.  `None` when the value is absent or its node is
    /// the last in in-order.
    pub fn inorder_successor(&self, value: u64) -> (r: Option<&TreeNode>)
        requires
            self.wf(),
        ensures
            ({
                let p = self.find_pos(value);
                &&& (p < 0 ==> r is None)
                &&& (p >= 0 && p + 1 < self@.len() ==> (r matches Some(n) && n.element == self@[p
                    + 1] && n.wf()))
                &&& (p >= 0 && p + 1 >= self@.len() ==> r is None)
            }),
    {
        let root = match &self.root {
            Some(root) => root,
            None => {
                return None;
            },
        };
        proof {
            lemma_find_pos(**root, value);
        }
        let node = match root.find(value) {
            Some(n) => n,
            None => {
                return None;
            },
        };
        proof {
            lemma_successor(**root, value);
        }
        match &node.right {
            Some(rt) => Some(rt.minimum_node()),
            None => root.last_left_turn_node(value),
        }
    }
}

/// The order invariant makes the in-order sequence non-decreasing.
pub proof fn lemma_wf_elements_sorted(n: TreeNode)
    requires
        n.wf(),
    ensures
        sorted(n.elements()),
    decreases n,
{
    let ls = subtree_elements(n.left);
    let rs = subtree_elements(n.right);
    let s = n.elements();
    let m = ls.len() as int;
    if let Some(l) = n.left {
        lemma_wf_elements_sorted(*l);
    }
    if let Some(r) = n.right {
        lemma_wf_elements_sorted(*r);
    }
    assert forall|i: int, j: int| 0 <= i <= j < s.len() implies s[i] <= s[j] by {
        if i < m {
            assert(s[i] == ls[i]);
            assert(ls[i] <= n.element);
        } else if i == m {
            assert(s[i] == n.element);
        } else {
            assert(s[i] == rs[i - m - 1]);
            assert(n.element <= rs[i - m - 1]);
        }
        if j < m {
            assert(s[j] == ls[j]);
        } else if j == m {
            assert(s[j] == n.element);
        } else {
            assert(s[j] == rs[j - m - 1]);
            assert(n.element <= rs[j - m - 1]);
        }
    }
}

/// Order law: a well-formed tree — and every operation of this crate both
/// requires and re-establishes well-formedness — renders its elements in
/// non-decreasing order.
pub proof fn lemma_inorder_sorted(t: BinarySearchTree)
    requires
        t.wf(),
    ensures
        sorted(t@),
{
    if let Some(r) = t.root {
        lemma_wf_elements_sorted(*r);
    }
}

/// The height of an optional subtree: zero when empty.
pub open spec fn subtree_height(o: Option<Box<TreeNode>>) -> nat
    decreases o,
{
    match o {
        None => 0,
        Some(n) => n.height(),
    }
}

impl TreeNode {
    /// The height: how many nodes the longest downward path visits.
    pub open spec fn height(self) -> nat
        decreases self,
    {
        1 + if subtree_height(self.left) >= subtree_height(self.right) {
            subtree_height(self.left)
        } else {
            subtree_height(self.right)
        }
    }
}

impl BinarySearchTree {
    /// The tree's height; an empty tree has height zero.
    pub open spec fn height(self) -> nat {
        subtree_height(self.root)
    }
}

/// The two power-of-two bounds on a balanced subtree's height.
proof fn lemma_balanced_subtree_height(o: Option<Box<TreeNode>>)
    requires
        subtree_balanced(o),
    ensures
        subtree_elements(o).len() < pow2(subtree_height(o)),
        pow2(subtree_height(o)) <= 2 * subtree_elements(o).len() + 1,
    decreases o,
{
    broadcast use vstd::arithmetic::power2::lemma_pow2_pos;

    match o {
        None => {
            assert(pow2(0) == 1) by {
                vstd::arithmetic::power2::lemma2_to64();
            }
        },
        Some(n) => {
            lemma_balanced_subtree_height(n.left);
            lemma_balanced_subtree_height(n.right);
            lemma_elements_decompose(*n);
            let lcnt = subtree_elements(n.left).len() as int;
            let rcnt = subtree_elements(n.right).len() as int;
            let hl = subtree_height(n.left);
            let hr = subtree_height(n.right);
            let h = n.height();
            if hl < hr {
                vstd::arithmetic::power2::lemma_pow2_strictly_increases(hl, hr);
            } else if hr < hl {
                vstd::arithmetic::power2::lemma_pow2_strictly_increases(hr, hl);
            }
            vstd::arithmetic::power2::lemma_pow2_unfold(h);
            // Above: the right subtree is the larger half, and it fits.
            assert(n.elements().len() <= 2 * rcnt + 1);
            assert(n.elements().len() < pow2(h));
            // Below: the taller subtree needs its whole level.
            if hl >= hr {
                assert(pow2(h) == 2 * pow2(hl));
                assert(pow2(hl) <= 2 * lcnt + 1);
                assert(pow2(h) <= 2 * n.elements().len() + 1);
            } else {
                assert(pow2(h) == 2 * pow2(hr));
                assert(hr >= 1);
                vstd::arithmetic::power2::lemma_pow2_unfold(hr);
                assert(pow2(hr) == 2 * pow2((hr - 1) as nat));
                // A power of two past the zeroth is even, so the bound
                // `pow2(hr) <= 2 * rcnt + 1` sharpens to `2 * rcnt`.
                assert(pow2(hr) <= 2 * rcnt);
                assert(pow2(h) <= 2 * n.elements().len() + 1);
            }
        },
    }
}

/// Height law of the balanced construction: a tree balanced to within one
/// level — as `bst` and `build` leave it — has, with `k` elements, the
/// least possible height, the ceiling of the base-two logarithm of
/// `k + 1`; the two power bounds stated here pin exactly that value.
pub proof fn lemma_balanced_height(t: BinarySearchTree)
    requires
        t.balanced(),
    ensures
        t@.len() < pow2(t.height()),
        pow2(t.height()) <= 2 * t@.len() + 1,
{
    lemma_balanced_subtree_height(t.root);
}

/// Inserts a value into a sorted vector at the position that keeps it
/// sorted.
fn sorted_insert(out: &mut Vec<u64>, x: u64)
    requires
        sorted(old(out)@),
    ensures
        sorted(final(out)@),
        final(out)@.to_multiset() == old(out)@.to_multiset().insert(x),
        final(out)@.len() == old(out)@.len() + 1,
{
    broadcast use vstd::seq_lib::group_to_multiset_ensures;

    let mut k: usize = 0;
    while k < out.len() && out[k] <= x
        invariant
            k <= out@.len(),
            sorted(out@),
            out@ == old(out)@,
            forall|i: int| 0 <= i < k ==> out@[i] <= x,
        decreases out@.len() - k,
    {
        k += 1;
    }
    proof {
        assert(k < out@.len() ==> out@[k as int] > x);
    }
    out.insert(k, x);
    proof {
        let s = old(out)@;
        let t = out@;
        assert(t == s.insert(k as int, x));
        assert forall|i: int, j: int| 0 <= i <= j < t.len() implies t[i] <= t[j] by {
            if i < k {
                assert(t[i] == s[i]);
            }
            if j < k {
                assert(t[j] == s[j]);
            }
            if i > k {
                assert(t[i] == s[i - 1]);
                assert(s[k as int] <= s[i - 1]);
            }
            if j > k {
                assert(t[j] == s[j - 1]);
                assert(s[k as int] <= s[j - 1]);
            }
        }
    }
}

/// Returns the values of `arr` in ascending order.
fn sort_values(arr: &Vec<u64>) -> (r: Vec<u64>)
    ensures
        sorted(r@),
        r@.to_multiset() == arr@.to_multiset(),
        r@.len() == arr@.len(),
{
    broadcast use vstd::seq_lib::group_to_multiset_ensures;

    let mut out: Vec<u64> = Vec::new();
    let mut i: usize = 0;
    proof {
        assert(arr@.take(0) =~= Seq::<u64>::empty());
        assert(out@.to_multiset() =~= arr@.take(0).to_multiset());
    }
    while i < arr.len()
        invariant
            i <= arr@.len(),
            sorted(out@),
            out@.to_multiset() == arr@.take(i as int).to_multiset(),
            out@.len() == i,
        decreases arr@.len() - i,
    {
        sorted_insert(&mut out, arr[i]);
        proof {
            broadcast use vstd::seq_lib::group_to_multiset_ensures;

            assert(arr@.take(i as int + 1) =~= arr@.take(i as int).push(arr@[i as int]));
            assert(arr@.take(i as int).push(arr@[i as int]).to_multiset() =~= arr@.take(
                i as int,
            ).to_multiset().insert(arr@[i as int]));
        }
        i += 1;
    }
    proof {
        assert(arr@.take(arr@.len() as int) =~= arr@);
    }
    out
}

impl BinarySearchTree {
    /// Builds a tree from a collection in any order: the values are sorted
    /// defensively first and the balanced construction then runs on the
    /// sorted copy.  An empty collection gives the empty tree.
    pub fn build(arr: &Vec<u64>) -> (t: Self)
        ensures
            t.wf(),
            t.balanced(),
            sorted(t@),
            t@.to_multiset() == arr@.to_multiset(),
            t@.len() == arr@.len(),
    {
        broadcast use vstd::seq_lib::group_to_multiset_ensures;
        broadcast use vstd::multiset::group_multiset_axioms;

        let sorted_values = sort_values(arr);
        let mut t = Self::new();
        if sorted_values.len() > 0 {
            t.bst(&sorted_values, 0, sorted_values.len() - 1);
            proof {
                assert(sorted_values@.subrange(0, sorted_values@.len() as int) =~= sorted_values@);
            }
        } else {
            proof {
                assert(t@.to_multiset() =~= arr@.to_multiset());
            }
        }
        t
    }
}

/// The subtrees directly below a node: the left child then the right
/// child, absent children skipped.
pub open spec fn node_children(n: TreeNode) -> Seq<TreeNode> {
    (match n.left {
        Some(l) => seq![*l],
        None => Seq::empty(),
    }) + (match n.right {
        Some(r) => seq![*r],
        None => Seq::empty(),
    })
}

/// The elements a frontier's nodes hold themselves, node by node.
pub open spec fn frontier_elems(q: Seq<TreeNode>) -> Seq<u64> {
    q.map_values(|n: TreeNode| n.element)
}

/// How many elements a frontier's subtrees hold in all.
pub open spec fn frontier_size(q: Seq<TreeNode>) -> nat
    decreases q.len(),
{
    if q.len() == 0 {
        0
    } else {
        q[0].elements().len() + frontier_size(q.drop_first())
    }
}

/// The children of all of a frontier's nodes, kept in frontier order with
/// each node's left child before its right child.
pub open spec fn frontier_children(q: Seq<TreeNode>) -> Seq<TreeNode>
    decreases q.len(),
{
    if q.len() == 0 {
        Seq::empty()
    } else {
        node_children(q[0]) + frontier_children(q.drop_first())
    }
}

/// The elements of a frontier's subtrees in level order: the frontier's own
/// elements first, then — one level down — those of all its children.
pub open spec fn frontier_levels(q: Seq<TreeNode>) -> Seq<u64>
    decreases frontier_size(q),
    via frontier_levels_decreases
{
    if q.len() == 0 {
        Seq::empty()
    } else {
        frontier_elems(q) + frontier_levels(frontier_children(q))
    }
}

#[via_fn]
proof fn frontier_levels_decreases(q: Seq<TreeNode>) {
    if q.len() > 0 {
        lemma_frontier_children_size(q);
    }
}

/// A one-node frontier holds its subtree's elements.
proof fn lemma_frontier_size_singleton(n: TreeNode)
    ensures
        frontier_size(seq![n]) == n.elements().len(),
{
    assert(seq![n].drop_first() =~= Seq::<TreeNode>::empty());
    assert(frontier_size(Seq::<TreeNode>::empty()) == 0);
    assert(seq![n][0] == n);
}

/// A frontier's element count splits across a split of the frontier.
proof fn lemma_frontier_size_concat(a: Seq<TreeNode>, b: Seq<TreeNode>)
    ensures
        frontier_size(a + b) == frontier_size(a) + frontier_size(b),
    decreases a.len(),
{
    if a.len() == 0 {
        assert(a + b =~= b);
    } else {
        assert((a + b).drop_first() =~= a.drop_first() + b);
        assert((a + b)[0] == a[0]);
        lemma_frontier_size_concat(a.drop_first(), b);
    }
}

/// A node's children hold one element fewer than the node itself.
proof fn lemma_node_children_size(n: TreeNode)
    ensures
        frontier_size(node_children(n)) + 1 == n.elements().len(),
{
    lemma_elements_decompose(n);
    let lpart: Seq<TreeNode> = match n.left {
        Some(l) => seq![*l],
        None => Seq::empty(),
    };
    let rpart: Seq<TreeNode> = match n.right {
        Some(r) => seq![*r],
        None => Seq::empty(),
    };
    lemma_frontier_size_concat(lpart, rpart);
    if let Some(l) = n.left {
        lemma_frontier_size_singleton(*l);
    }
    if let Some(r) = n.right {
        lemma_frontier_size_singleton(*r);
    }
}

/// The children of a split frontier are the two halves' children in turn.
proof fn lemma_frontier_children_concat(a: Seq<TreeNode>, b: Seq<TreeNode>)
    ensures
        frontier_children(a + b) == frontier_children(a) + frontier_children(b),
    decreases a.len(),
{
    if a.len() == 0 {
        assert(a + b =~= b);
        assert(frontier_children(a) + frontier_children(b) =~= frontier_children(b));
    } else {
        assert((a + b).drop_first() =~= a.drop_first() + b);
        assert((a + b)[0] == a[0]);
        lemma_frontier_children_concat(a.drop_first(), b);
        assert(frontier_children(a + b) =~= frontier_children(a) + frontier_children(b));
    }
}

/// Stepping a frontier down to its children sheds exactly one element per
/// frontier node.
proof fn lemma_frontier_children_size(q: Seq<TreeNode>)
    ensures
        frontier_size(frontier_children(q)) + q.len() == frontier_size(q),
    decreases q.len(),
{
    if q.len() > 0 {
        lemma_frontier_children_size(q.drop_first());
        lemma_frontier_size_concat(node_children(q[0]), frontier_children(q.drop_first()));
        lemma_node_children_size(q[0]);
    }
}

/// A frontier that consists of a prefix followed by the children of all
/// its nodes reads, element for element, as the prefix's levels.
proof fn lemma_bfs_fixpoint(q: Seq<TreeNode>, s: Seq<TreeNode>)
    requires
        q == s + frontier_children(q),
    ensures
        frontier_elems(q) == frontier_levels(s),
    decreases frontier_size(q),
{
    if s.len() == 0 {
        if q.len() > 0 {
            assert(s + frontier_children(q) =~= frontier_children(q));
            lemma_frontier_children_size(q);
            assert(false);
        } else {
            assert(frontier_elems(q) =~= frontier_levels(s));
        }
    } else {
        lemma_frontier_children_concat(s, frontier_children(q));
        lemma_frontier_children_size(q);
        lemma_bfs_fixpoint(frontier_children(q), frontier_children(s));
        assert(frontier_elems(q) =~= frontier_elems(s) + frontier_elems(frontier_children(q)));
    }
}

/// The elements of a frontier's subtrees, as a multiset.
spec fn frontier_multiset(q: Seq<TreeNode>) -> Multiset<u64>
    decreases q.len(),
{
    if q.len() == 0 {
        Multiset::empty()
    } else {
        q[0].elements().to_multiset().add(frontier_multiset(q.drop_first()))
    }
}

/// A frontier's multiset splits across a split of the frontier.
proof fn lemma_frontier_multiset_concat(a: Seq<TreeNode>, b: Seq<TreeNode>)
    ensures
        frontier_multiset(a + b) == frontier_multiset(a).add(frontier_multiset(b)),
    decreases a.len(),
{
    broadcast use vstd::multiset::group_multiset_axioms;

    if a.len() == 0 {
        assert(a + b =~= b);
        assert(frontier_multiset(a + b) =~= frontier_multiset(a).add(frontier_multiset(b)));
    } else {
        assert((a + b).drop_first() =~= a.drop_first() + b);
        assert((a + b)[0] == a[0]);
        lemma_frontier_multiset_concat(a.drop_first(), b);
        assert(frontier_multiset(a + b) =~= frontier_multiset(a).add(frontier_multiset(b)));
    }
}

/// A node holds its own element together with everything its children
/// hold.
proof fn lemma_node_children_multiset(n: TreeNode)
    ensures
        n.elements().to_multiset() == frontier_multiset(node_children(n)).insert(n.element),
{
    broadcast use vstd::seq_lib::group_to_multiset_ensures;
    broadcast use vstd::multiset::group_multiset_axioms;

    lemma_elements_decompose(n);
    let lpart: Seq<TreeNode> = match n.left {
        Some(l) => seq![*l],
        None => Seq::empty(),
    };
    let rpart: Seq<TreeNode> = match n.right {
        Some(r) => seq![*r],
        None => Seq::empty(),
    };
    lemma_frontier_multiset_concat(lpart, rpart);
    assert(Seq::<u64>::empty().to_multiset() =~= Multiset::<u64>::empty());
    assert(frontier_multiset(Seq::<TreeNode>::empty()) =~= Multiset::<u64>::empty());
    if let Some(l) = n.left {
        assert(seq![*l].drop_first() =~= Seq::<TreeNode>::empty());
        assert(frontier_multiset(seq![*l]) =~= l.elements().to_multiset());
    }
    if let Some(r) = n.right {
        assert(seq![*r].drop_first() =~= Seq::<TreeNode>::empty());
        assert(frontier_multiset(seq![*r]) =~= r.elements().to_multiset());
    }
    assert(n.elements().to_multiset() =~= frontier_multiset(node_children(n)).insert(n.element));
}

/// A frontier's multiset is its own elements plus its children's multiset.
proof fn lemma_frontier_multiset_children(q: Seq<TreeNode>)
    ensures
        frontier_multiset(q) == frontier_elems(q).to_multiset().add(
            frontier_multiset(frontier_children(q)),
        ),
    decreases q.len(),
{
    broadcast use vstd::seq_lib::group_to_multiset_ensures;
    broadcast use vstd::multiset::group_multiset_axioms;

    if q.len() == 0 {
        assert(frontier_elems(q) =~= Seq::<u64>::empty());
        assert(Seq::<u64>::empty().to_multiset() =~= Multiset::<u64>::empty());
        assert(frontier_multiset(q) =~= frontier_elems(q).to_multiset().add(
            frontier_multiset(frontier_children(q)),
        ));
    } else {
        let e0 = q[0].element;
        lemma_frontier_multiset_children(q.drop_first());
        lemma_node_children_multiset(q[0]);
        lemma_frontier_multiset_concat(node_children(q[0]), frontier_children(q.drop_first()));
        assert(frontier_elems(q).remove(0).to_multiset() == frontier_elems(q).to_multiset().remove(
            frontier_elems(q)[0],
        ));
        assert(frontier_elems(q).remove(0) =~= frontier_elems(q.drop_first()));
        assert(frontier_elems(q)[0] == e0);
        assert(frontier_elems(q).contains(e0)) by {
            assert(frontier_elems(q)[0] == e0);
        }
        assert(frontier_elems(q).to_multiset().count(e0) > 0);
        assert(frontier_elems(q).to_multiset() =~= frontier_elems(
            q.drop_first(),
        ).to_multiset().insert(e0));
        assert(frontier_multiset(q) =~= frontier_elems(q).to_multiset().add(
            frontier_multiset(frontier_children(q)),
        ));
    }
}

/// Levels render each frontier element exactly once.
proof fn lemma_frontier_levels_multiset(q: Seq<TreeNode>)
    ensures
        frontier_levels(q).to_multiset() == frontier_multiset(q),
    decreases frontier_size(q),
{
    broadcast use vstd::seq_lib::group_to_multiset_ensures;
    broadcast use vstd::seq_lib::lemma_multiset_commutative;
    broadcast use vstd::multiset::group_multiset_axioms;

    if q.len() == 0 {
        assert(Seq::<u64>::empty().to_multiset() =~= Multiset::<u64>::empty());
        assert(frontier_levels(q).to_multiset() =~= frontier_multiset(q));
    } else {
        lemma_frontier_children_size(q);
        lemma_frontier_levels_multiset(frontier_children(q));
        lemma_frontier_multiset_children(q);
        assert(frontier_levels(q).to_multiset() =~= frontier_multiset(q));
    }
}

impl BinarySearchTree {
    /// The elements in level order: the root's level, then each deeper
    /// level in turn, each level read left to right.
    pub open spec fn by_levels(self) -> Seq<u64> {
        match self.root {
            Some(r) => frontier_levels(seq![*r]),
            None => Seq::empty(),
        }
    }
}

/// Level order renders exactly the tree's elements: the same multiset, and
/// so the same count, as in-order.
pub proof fn lemma_level_order_content(t: BinarySearchTree)
    ensures
        t.by_levels().to_multiset() == t@.to_multiset(),
        t.by_levels().len() == t@.len(),
{
    broadcast use vstd::seq_lib::group_to_multiset_ensures;
    broadcast use vstd::multiset::group_multiset_axioms;

    match t.root {
        Some(r) => {
            lemma_frontier_levels_multiset(seq![*r]);
            assert(seq![*r].drop_first() =~= Seq::<TreeNode>::empty());
            assert(frontier_multiset(Seq::<TreeNode>::empty()) =~= Multiset::<u64>::empty());
            assert(frontier_multiset(seq![*r]) =~= r.elements().to_multiset());
        },
        None => {
            assert(Seq::<u64>::empty().to_multiset() =~= Multiset::<u64>::empty());
        },
    }
    assert(t.by_levels().to_multiset().len() == t.by_levels().len());
    assert(t@.to_multiset().len() == t@.len());
}

/// The nodes a queue of handles points at.
spec fn deref_nodes(q: Seq<&TreeNode>) -> Seq<TreeNode> {
    q.map_values(|n: &TreeNode| *n)
}

impl BinarySearchTree {
    /// The elements in level order, driven by a first-in-first-out
    /// frontier seeded with the root and extended, at each visited node,
    /// with that node's children, left before right.
    pub fn level_order(&self) -> (r: Vec<u64>)
        ensures
            r@ == self.by_levels(),
            r@.to_multiset() == self@.to_multiset(),
            r@.len() == self@.len(),
    {
        let mut queue: Vec<&TreeNode> = Vec::new();
        let ghost init: Seq<TreeNode> = match &self.root {
            Some(r) => seq![**r],
            None => Seq::empty(),
        };
        match &self.root {
            Some(root) => {
                queue.push(root);
            },
            None => {},
        }
        let mut out: Vec<u64> = Vec::new();
        let mut i: usize = 0;
        proof {
            assert(deref_nodes(queue@) =~= init);
            assert(deref_nodes(queue@).take(0) =~= Seq::<TreeNode>::empty());
            assert(deref_nodes(queue@) =~= init + frontier_children(
                deref_nodes(queue@).take(0),
            ));
            assert(out@ =~= frontier_elems(deref_nodes(queue@).take(0)));
        }
        while i < queue.len()
            invariant
                i <= queue@.len(),
                deref_nodes(queue@) == init + frontier_children(
                    deref_nodes(queue@).take(i as int),
                ),
                out@ == frontier_elems(deref_nodes(queue@).take(i as int)),
            decreases frontier_size(deref_nodes(queue@).skip(i as int)),
        {
            let ghost q0 = deref_nodes(queue@);
            let node: &TreeNode = queue[i];
            out.push(node.element);
            if let Some(l) = &node.left {
                queue.push(&**l);
            }
            if let Some(r) = &node.right {
                queue.push(&**r);
            }
            i += 1;
            proof {
                let j = i as int - 1;
                let q1 = deref_nodes(queue@);
                assert(q0[j] == *node);
                assert(q1 =~= q0 + node_children(*node));
                assert(q1.take(i as int) =~= q0.take(j) + seq![q0[j]]);
                lemma_frontier_children_concat(q0.take(j), seq![q0[j]]);
                assert(seq![q0[j]].drop_first() =~= Seq::<TreeNode>::empty());
                assert(frontier_children(Seq::<TreeNode>::empty()) =~= Seq::<TreeNode>::empty());
                assert(frontier_children(seq![q0[j]]) =~= node_children(q0[j]));
                assert(q0.take(j) =~= q1.take(j));
                assert(frontier_children(q1.take(i as int)) =~= frontier_children(q0.take(j))
                    + node_children(q0[j]));
                assert(q1 =~= init + frontier_children(q1.take(i as int)));
                assert(frontier_elems(q1.take(i as int)) =~= frontier_elems(q0.take(j)).push(
                    q0[j].element,
                ));
                assert(out@ =~= frontier_elems(q1.take(i as int)));
                // The measure: one element of the frontier was rendered.
                assert(q1.skip(i as int) =~= q0.skip(j + 1) + node_children(q0[j]));
                assert(q0.skip(j) =~= seq![q0[j]] + q0.skip(j + 1));
                lemma_frontier_size_concat(q0.skip(j + 1), node_children(q0[j]));
                lemma_frontier_size_concat(seq![q0[j]], q0.skip(j + 1));
                lemma_frontier_size_singleton(q0[j]);
                lemma_node_children_size(q0[j]);
                assert(frontier_size(q1.skip(i as int)) < frontier_size(q0.skip(j)));
            }
        }
        proof {
            let q = deref_nodes(queue@);
            assert(q.take(i as int) =~= q);
            lemma_bfs_fixpoint(q, init);
            assert(out@ == frontier_levels(init));
            if self.root is None {
                assert(frontier_levels(init) =~= Seq::<u64>::empty());
            }
            lemma_level_order_content(*self);
        }
        out
    }
}

/// Round-trip law: inserting a value and then searching for it finds a
/// node, since the insertion leaves the value among the elements.  Together
/// with the search contract — a search returns a node exactly when the
/// value is among the elements, and that node holds the value — this says
/// that a search right after an insertion cannot miss.
pub proof fn lemma_insert_search_round_trip(
    before: BinarySearchTree,
    after: BinarySearchTree,
    v: u64,
)
    requires
        after@.to_multiset() == before@.to_multiset().insert(v),
    ensures
        after@.contains(v),
{
    broadcast use vstd::seq_lib::group_to_multiset_ensures;
    broadcast use vstd::multiset::group_multiset_axioms;

    assert(after@.to_multiset().count(v) > 0);
}

/// Successor law: where a value occurs exactly once and some element
/// exceeds it, the element just after the search index in in-order — the
/// element the successor lookup returns — is the least element strictly
/// greater than the value.
pub proof fn lemma_successor_least_greater(t: BinarySearchTree, v: u64)
    requires
        t.wf(),
        t@.to_multiset().count(v) == 1,
        exists|x: u64| t@.contains(x) && x > v,
    ensures
        ({
            let p = t.find_pos(v);
            &&& 0 <= p < t@.len()
            &&& p + 1 < t@.len()
            &&& t@[p + 1] > v
            &&& forall|x: u64| t@.contains(x) && x > v ==> t@[p + 1] <= x
        }),
{
    broadcast use vstd::seq_lib::group_to_multiset_ensures;
    broadcast use vstd::multiset::group_multiset_axioms;

    let s = t@;
    lemma_inorder_sorted(t);
    let w = choose|x: u64| s.contains(x) && x > v;
    let q = choose|q: int| 0 <= q < s.len() && s[q] == w;
    match t.root {
        Some(root) => {
            lemma_find_pos(*root, v);
        },
        None => {
            assert(false);
        },
    }
    let p = t.find_pos(v);
    assert(s.contains(v));
    assert(0 <= p < s.len() && s[p] == v);
    assert(q != p);
    assert(q > p) by {
        if q < p {
            assert(s[q] <= s[p]);
        }
    }
    assert(p + 1 < s.len());
    assert(s[p + 1] != v) by {
        if s[p + 1] == v {
            assert(s.remove(p).to_multiset() == s.to_multiset().remove(s[p]));
            assert(s.remove(p)[p] == v);
            assert(s.remove(p).contains(v));
            assert(s.remove(p).to_multiset().count(v) > 0);
        }
    }
    assert(s[p] <= s[p + 1]);
    assert forall|x: u64| s.contains(x) && x > v implies s[p + 1] <= x by {
        let qx = choose|qx: int| 0 <= qx < s.len() && s[qx] == x;
        assert(qx != p);
        if qx < p {
            assert(s[qx] <= s[p]);
        }
        assert(qx >= p + 1);
        assert(s[p + 1] <= s[qx]);
    }
}

} // verus!
