//! An augmented interval-search tree.
//!
//! The tree stores half-open intervals `[start, end)`, ordered as a binary
//! search tree on the start point. Every node also caches `highest`, the
//! maximum end value found anywhere in its subtree. A stabbing query — find
//! every stored interval that contains a given point — uses that cache to
//! skip whole subtrees that cannot contain a match.

use vstd::prelude::*;

verus! {

use vstd::multiset::Multiset;

/// A child slot of the tree: either a subtree or nothing.
#[derive(Debug, PartialEq)]
pub enum AugTreeNode {
    Node(Box<AugTree>),
    Absent,
}

/// One node of the augmented tree: an interval, the cached maximum end value
/// of the whole subtree, and the two child slots.
#[derive(Debug, PartialEq)]
pub struct AugTree {
    pub interval: (u64, u64),
    pub highest: u64,
    pub left: AugTreeNode,
    pub right: AugTreeNode,
}

/// Half-open containment: `p` lies in `[iv.0, iv.1)`.
pub open spec fn contains_point(iv: (u64, u64), p: u64) -> bool {
    iv.0 <= p && p < iv.1
}

impl AugTreeNode {
    /// The stored intervals, in symmetric (left, node, right) order.
    pub open spec fn inorder(self) -> Seq<(u64, u64)>
        decreases self,
    {
        match self {
            AugTreeNode::Absent => Seq::empty(),
            AugTreeNode::Node(t) => t.inorder(),
        }
    }

    /// Both structural invariants hold of every subtree under this slot.
    pub open spec fn wf(self) -> bool
        decreases self,
    {
        match self {
            AugTreeNode::Absent => true,
            AugTreeNode::Node(t) => t.wf(),
        }
    }

    /// Length of the longest root-to-leaf path; an absent slot has height 0.
    pub open spec fn height(self) -> nat
        decreases self,
    {
        match self {
            AugTreeNode::Absent => 0,
            AugTreeNode::Node(t) => t.height(),
        }
    }

    /// The slot after an insertion descends into it: an absent slot takes the
    /// new node as a leaf, a present one inserts recursively.
    pub open spec fn spec_add_into(self, node: AugTree) -> AugTreeNode
        decreases self,
    {
        match self {
            AugTreeNode::Absent => AugTreeNode::Node(Box::new(node)),
            AugTreeNode::Node(t) => AugTreeNode::Node(Box::new(t.spec_add(node))),
        }
    }

    /// Wraps a tree as a present child slot.
    pub fn from(value: AugTree) -> (r: Self)
        ensures
            r == AugTreeNode::Node(Box::new(value)),
    {
        AugTreeNode::Node(Box::new(value))
    }
}

impl View for AugTreeNode {
    type V = Seq<(u64, u64)>;

    open spec fn view(&self) -> Seq<(u64, u64)> {
        self.inorder()
    }
}

impl AugTree {
    /// The stored interval, as a spec-level value.
    pub open spec fn spec_range(self) -> (u64, u64) {
        self.interval
    }

    /// The stored intervals, in symmetric (left, node, right) order.
    pub open spec fn inorder(self) -> Seq<(u64, u64)>
        decreases self,
    {
        self.left.inorder() + seq![self.interval] + self.right.inorder()
    }

    /// The two structural invariants, of this node and every descendant:
    /// the search order on starts (strictly smaller to the left, greater or
    /// equal to the right), and the augmentation — `highest` is the maximum
    /// end value over the node's own interval and all descendants' intervals.
    pub open spec fn wf(self) -> bool
        decreases self,
    {
        &&& self.left.wf()
        &&& self.right.wf()
        &&& forall|iv: (u64, u64)|
            #[trigger] self.left.inorder().contains(iv) ==> iv.0 < self.interval.0
        &&& forall|iv: (u64, u64)|
            #[trigger] self.right.inorder().contains(iv) ==> iv.0 >= self.interval.0
        &&& forall|iv: (u64, u64)| #[trigger] self.inorder().contains(iv) ==> iv.1 <= self.highest
        &&& exists|iv: (u64, u64)| #[trigger] self.inorder().contains(iv) && iv.1 == self.highest
    }

    /// Length of the longest root-to-leaf path, counting this node.
    pub open spec fn height(self) -> nat
        decreases self,
    {
        1 + if self.left.height() >= self.right.height() {
            self.left.height()
        } else {
            self.right.height()
        }
    }

    /// A freshly constructed node: no children, `highest` equal to its own end.
    pub open spec fn is_leaf(self) -> bool {
        &&& self.left is Absent
        &&& self.right is Absent
        &&& self.highest == self.interval.1
    }

    /// The tree after inserting `node`: descend left on a strictly smaller
    /// start, right otherwise (ties go right), attach at the first absent
    /// slot, and raise `highest` on every node of the path. The raise happens
    /// on both descent directions, so that `highest` stays the maximum end
    /// value of the whole subtree.
    pub open spec fn spec_add(self, node: AugTree) -> AugTree
        decreases self,
    {
        let raised = if self.highest < node.highest {
            node.highest
        } else {
            self.highest
        };
        if node.interval.0 < self.interval.0 {
            AugTree {
                interval: self.interval,
                highest: raised,
                left: self.left.spec_add_into(node),
                right: self.right,
            }
        } else {
            AugTree {
                interval: self.interval,
                highest: raised,
                left: self.left,
                right: self.right.spec_add_into(node),
            }
        }
    }

    /// Builds a leaf node holding `[start, end)`. The bounds are not
    /// validated: an inverted interval is accepted and simply never
    /// contains any point.
    pub fn new(start: u64, end: u64) -> (r: Self)
        ensures
            r.spec_range() == (start, end),
            r.highest == end,
            r.left is Absent,
            r.right is Absent,
            r.is_leaf(),
            r.wf(),
            r.inorder() == seq![(start, end)],
    {
        let r = AugTree {
            interval: (start, end),
            highest: end,
            left: AugTreeNode::Absent,
            right: AugTreeNode::Absent,
        };
        proof {
            lemma_leaf_inorder(r);
        }
        r
    }

    /// Returns a copy of the stored interval.
    pub fn range(&self) -> (r: (u64, u64))
        ensures
            r == self.spec_range(),
    {
        self.interval
    }
}

impl View for AugTree {
    type V = Seq<(u64, u64)>;

    open spec fn view(&self) -> Seq<(u64, u64)> {
        self.inorder()
    }
}

impl AugTree {
    /// Inserts `node` into this tree: descend left on a strictly smaller
    /// start, right otherwise (ties go right), and attach at the first absent
    /// slot. `highest` is raised on both descent directions, so the
    /// augmentation invariant holds for left-side insertions too.
    pub fn add(&mut self, node: AugTree)
        ensures
            *final(self) == old(self).spec_add(node),
            final(self).inorder().to_multiset() == old(self).inorder().to_multiset().add(
                node.inorder().to_multiset(),
            ),
            old(self).wf() && node.is_leaf() ==> final(self).wf(),
        decreases *old(self),
    {
        proof {
            lemma_add_contents(*self, node);
            if self.wf() && node.is_leaf() {
                lemma_add_preserves_wf(*self, node);
            }
        }
        if node.interval.0 < self.interval.0 {
            if self.highest < node.highest {
                self.highest = node.highest;
            }
            let mut child = AugTreeNode::Absent;
            core::mem::swap(&mut self.left, &mut child);
            match child {
                AugTreeNode::Node(mut l) => {
                    (&mut *l).add(node);
                    self.left = AugTreeNode::Node(l);
                }
                AugTreeNode::Absent => {
                    self.left = AugTreeNode::Node(Box::new(node));
                }
            }
        } else {
            if self.highest < node.highest {
                self.highest = node.highest;
            }
            let mut child = AugTreeNode::Absent;
            core::mem::swap(&mut self.right, &mut child);
            match child {
                AugTreeNode::Node(mut r) => {
                    (&mut *r).add(node);
                    self.right = AugTreeNode::Node(r);
                }
                AugTreeNode::Absent => {
                    self.right = AugTreeNode::Node(Box::new(node));
                }
            }
        }
    }
}

/// Contents of a child slot after insertion: exactly the old contents plus
/// the inserted node's contents, both as a multiset and membership-wise.
proof fn lemma_add_into_contents(slot: AugTreeNode, node: AugTree)
    ensures
        slot.spec_add_into(node).inorder().to_multiset() == slot.inorder().to_multiset().add(
            node.inorder().to_multiset(),
        ),
        forall|iv: (u64, u64)|
            #[trigger] slot.spec_add_into(node).inorder().contains(iv) <==> slot.inorder().contains(
                iv,
            ) || node.inorder().contains(iv),
    decreases slot,
{
    broadcast use vstd::multiset::group_multiset_axioms;

    match slot {
        AugTreeNode::Absent => {
            assert(slot.inorder().to_multiset() =~= Multiset::<(u64, u64)>::empty()) by {
                broadcast use vstd::seq_lib::group_to_multiset_ensures;

            }
            assert(slot.spec_add_into(node).inorder().to_multiset()
                =~= slot.inorder().to_multiset().add(node.inorder().to_multiset()));
        }
        AugTreeNode::Node(t) => {
            lemma_add_contents(*t, node);
        }
    }
}

/// Law: insertion adds exactly the inserted node's contents to the tree —
/// the stored multiset of intervals grows by precisely those intervals, and
/// nothing else appears or disappears.
pub proof fn lemma_add_contents(t: AugTree, node: AugTree)
    ensures
        t.spec_add(node).inorder().to_multiset() == t.inorder().to_multiset().add(
            node.inorder().to_multiset(),
        ),
        forall|iv: (u64, u64)|
            #[trigger] t.spec_add(node).inorder().contains(iv) <==> t.inorder().contains(iv)
                || node.inorder().contains(iv),
    decreases t,
{
    broadcast use vstd::multiset::group_multiset_axioms;
    broadcast use vstd::seq_lib::lemma_multiset_commutative;
    broadcast use vstd::seq_lib::lemma_seq_concat_contains_all_elements;

    let res = t.spec_add(node);
    if node.interval.0 < t.interval.0 {
        lemma_add_into_contents(t.left, node);
        assert(res.inorder().to_multiset() =~= t.inorder().to_multiset().add(
            node.inorder().to_multiset(),
        ));
    } else {
        lemma_add_into_contents(t.right, node);
        assert(res.inorder().to_multiset() =~= t.inorder().to_multiset().add(
            node.inorder().to_multiset(),
        ));
    }
}

/// Well-formedness of a child slot survives inserting a fresh leaf.
proof fn lemma_add_into_preserves_wf(slot: AugTreeNode, node: AugTree)
    requires
        slot.wf(),
        node.is_leaf(),
    ensures
        slot.spec_add_into(node).wf(),
    decreases slot,
{
    match slot {
        AugTreeNode::Absent => {
            lemma_leaf_inorder(node);
        }
        AugTreeNode::Node(t) => {
            lemma_add_preserves_wf(*t, node);
        }
    }
}

/// Law: inserting a fresh leaf into a well-formed tree keeps it well-formed —
/// after any sequence of insertions, every node's left descendants have
/// strictly smaller starts, its right descendants have greater-or-equal
/// starts, and its `highest` is the maximum end over its whole subtree.
pub proof fn lemma_add_preserves_wf(t: AugTree, node: AugTree)
    requires
        t.wf(),
        node.is_leaf(),
    ensures
        t.spec_add(node).wf(),
    decreases t,
{
    broadcast use vstd::seq_lib::lemma_seq_concat_contains_all_elements;

    lemma_leaf_inorder(node);
    assert(node.inorder().contains(node.interval)) by {
        assert(node.inorder()[0] == node.interval);
    }
    let res = t.spec_add(node);
    lemma_add_contents(t, node);
    assert forall|iv: (u64, u64)| #[trigger] node.inorder().contains(iv) implies iv
        == node.interval by {
        assert(node.inorder() == seq![node.interval]);
    }
    assert(t.inorder().contains(t.interval)) by {
        assert(t.inorder() == (t.left.inorder() + seq![t.interval]) + t.right.inorder());
        assert((t.left.inorder() + seq![t.interval]).contains(t.interval)) by {
            assert((t.left.inorder() + seq![t.interval])[t.left.inorder().len() as int]
                == t.interval);
        }
    }
    if node.interval.0 < t.interval.0 {
        lemma_add_into_preserves_wf(t.left, node);
        lemma_add_into_contents(t.left, node);
    } else {
        lemma_add_into_preserves_wf(t.right, node);
        lemma_add_into_contents(t.right, node);
    }
    // The maximum end is still present: either the new leaf's own end became
    // the cached value, or the old witness is still stored.
    if t.highest < node.highest {
        assert(res.inorder().contains(node.interval) && node.interval.1 == res.highest);
    } else {
        let w = choose|iv: (u64, u64)| #[trigger] t.inorder().contains(iv) && iv.1 == t.highest;
        assert(res.inorder().contains(w) && w.1 == res.highest);
    }
}

/// The intervals of `s` that contain `p`, keeping their order in `s`.
pub open spec fn stab_seq(s: Seq<(u64, u64)>, p: u64) -> Seq<(u64, u64)> {
    s.filter(|iv: (u64, u64)| contains_point(iv, p))
}

/// The stored intervals that contain `p`, in the order the traversal of
/// `search` reports them: left subtree first, then the node's own interval,
/// then the right subtree.
pub open spec fn stab(node: AugTreeNode, p: u64) -> Seq<(u64, u64)> {
    stab_seq(node.inorder(), p)
}

/// A sequence none of whose intervals contain `p` stabs to nothing.
proof fn lemma_stab_seq_none(s: Seq<(u64, u64)>, p: u64)
    requires
        forall|iv: (u64, u64)| #[trigger] s.contains(iv) ==> !contains_point(iv, p),
    ensures
        stab_seq(s, p) == Seq::<(u64, u64)>::empty(),
    decreases s.len(),
{
    reveal(Seq::filter);
    if s.len() == 0 {
        assert(s =~= Seq::<(u64, u64)>::empty());
        assert(stab_seq(s, p) =~= Seq::<(u64, u64)>::empty());
    } else {
        assert(s.contains(s.last())) by {
            assert(s[s.len() - 1] == s.last());
        }
        assert forall|iv: (u64, u64)| #[trigger] s.drop_last().contains(iv) implies !contains_point(
            iv,
            p,
        ) by {
            let i = choose|i: int| 0 <= i < s.drop_last().len() && s.drop_last()[i] == iv;
            assert(s[i] == iv);
            assert(s.contains(iv));
        }
        lemma_stab_seq_none(s.drop_last(), p);
    }
}

/// Stabbing a one-interval sequence keeps or drops that interval.
proof fn lemma_stab_seq_singleton(iv: (u64, u64), p: u64)
    ensures
        stab_seq(seq![iv], p) == if contains_point(iv, p) {
            seq![iv]
        } else {
            Seq::<(u64, u64)>::empty()
        },
{
    reveal_with_fuel(Seq::filter, 2);
    let s = seq![iv];
    assert(s.drop_last() =~= Seq::<(u64, u64)>::empty());
    assert(s.last() == iv);
    if contains_point(iv, p) {
        assert(stab_seq(s, p) =~= seq![iv]);
    } else {
        assert(stab_seq(s, p) =~= Seq::<(u64, u64)>::empty());
    }
}

/// Stabbing distributes over concatenation.
proof fn lemma_stab_seq_concat(a: Seq<(u64, u64)>, b: Seq<(u64, u64)>, p: u64)
    ensures
        stab_seq(a + b, p) == stab_seq(a, p) + stab_seq(b, p),
{
    broadcast use vstd::seq_lib::group_seq_lib_default;

}

/// Every stabbed interval comes from the sequence it was stabbed out of.
proof fn lemma_stab_seq_subset(s: Seq<(u64, u64)>, p: u64)
    ensures
        forall|iv: (u64, u64)| #[trigger] stab_seq(s, p).contains(iv) ==> s.contains(iv),
    decreases s.len(),
{
    reveal(Seq::filter);
    broadcast use vstd::seq_lib::lemma_seq_contains_after_push;

    if s.len() != 0 {
        lemma_stab_seq_subset(s.drop_last(), p);
        assert forall|iv: (u64, u64)| #[trigger] stab_seq(s, p).contains(iv) implies s.contains(
            iv,
        ) by {
            if iv == s.last() {
                assert(s[s.len() - 1] == iv);
            } else {
                assert(stab_seq(s.drop_last(), p).contains(iv));
                assert(s.drop_last().contains(iv));
                let i = choose|i: int| 0 <= i < s.drop_last().len() && s.drop_last()[i] == iv;
                assert(s[i] == iv);
            }
        }
    }
}

/// Law: the stabbing result holds exactly the stored intervals that contain
/// the point — no interval is missed by the pruning, and none is invented.
pub proof fn lemma_stab_sound(node: AugTreeNode, p: u64)
    ensures
        forall|iv: (u64, u64)|
            #[trigger] stab(node, p).contains(iv) <==> node.inorder().contains(iv)
                && contains_point(iv, p),
{
    broadcast use vstd::seq_lib::group_filter_ensures;

    lemma_stab_seq_subset(node.inorder(), p);
    assert forall|iv: (u64, u64)| #[trigger] stab(node, p).contains(iv) implies node.inorder()
        .contains(iv) && contains_point(iv, p) by {
        let i = choose|i: int| 0 <= i < stab(node, p).len() && stab(node, p)[i] == iv;
        assert(contains_point(stab_seq(node.inorder(), p)[i], p));
    }
    assert forall|iv: (u64, u64)|
        node.inorder().contains(iv) && contains_point(iv, p) implies #[trigger] stab(
        node,
        p,
    ).contains(iv) by {
        let i = choose|i: int| 0 <= i < node.inorder().len() && node.inorder()[i] == iv;
        assert(stab_seq(node.inorder(), p).contains(node.inorder()[i]));
    }
}

/// Law: the matches a stabbing query appends are a function of the tree and
/// the point alone. The premises are exactly what `search` ensures of two
/// runs against the same unmodified tree from the same prior accumulator, so
/// consecutive identical queries produce identical result sequences.
pub proof fn lemma_search_pure(
    node: AugTreeNode,
    p: u64,
    before: Seq<(u64, u64)>,
    r1: Seq<(u64, u64)>,
    r2: Seq<(u64, u64)>,
)
    requires
        r1 == before + stab(node, p),
        r2 == before + stab(node, p),
    ensures
        r1 == r2,
{
}

/// Stabbing query: appends to `result` every stored interval that contains
/// `point`, in symmetric traversal order. The cached `highest` prunes
/// subtrees no interval of which can reach the point, and the search order
/// prunes right subtrees whose starts all lie beyond it.
pub fn search(node: &AugTreeNode, point: &u64, result: &mut Vec<(u64, u64)>)
    requires
        node.wf(),
    ensures
        final(result)@ == old(result)@ + stab(*node, *point),
    decreases *node,
{
    match node {
        AugTreeNode::Absent => {
            proof {
                lemma_stab_seq_none(Seq::<(u64, u64)>::empty(), *point);
                assert(old(result)@ + stab(*node, *point) =~= old(result)@);
            }
        }
        AugTreeNode::Node(n) => {
            let ghost t = **n;
            let ghost p = *point;
            let ghost mid = seq![t.interval];
            proof {
                lemma_stab_seq_concat(t.left.inorder() + mid, t.right.inorder(), p);
                lemma_stab_seq_concat(t.left.inorder(), mid, p);
                lemma_stab_seq_singleton(t.interval, p);
            }
            if n.highest < *point {
                proof {
                    lemma_stab_seq_none(t.inorder(), p);
                    assert(old(result)@ + stab(*node, p) =~= old(result)@);
                }
                return;
            }
            search(&n.left, point, result);
            let (start, end) = n.range();
            if start <= *point && *point < end {
                result.push((start, end));
            }
            proof {
                assert(result@ =~= old(result)@ + (stab_seq(t.left.inorder(), p) + stab_seq(
                    mid,
                    p,
                )));
            }
            if *point < start {
                proof {
                    assert forall|iv: (u64, u64)|
                        #[trigger] t.right.inorder().contains(iv) implies !contains_point(
                        iv,
                        p,
                    ) by {
                        assert(iv.0 >= t.interval.0);
                    }
                    lemma_stab_seq_none(t.right.inorder(), p);
                    assert(result@ =~= old(result)@ + stab(*node, p));
                }
                return;
            }
            search(&n.right, point, result);
            proof {
                assert(result@ =~= old(result)@ + stab(*node, p));
            }
        }
    }
}

/// Reports the longest root-to-leaf path length: 0 for an absent slot,
/// otherwise one more than the taller child. A read-only diagnostic, used to
/// observe how far the tree has degenerated, since nothing rebalances it.
pub fn height(node: &AugTreeNode) -> (r: usize)
    requires
        node.height() <= usize::MAX,
    ensures
        r == node.height(),
    decreases *node,
{
    match node {
        AugTreeNode::Absent => 0,
        AugTreeNode::Node(n) => {
            let left_height = height(&n.left);
            let right_height = height(&n.right);
            if left_height >= right_height {
                left_height + 1
            } else {
                right_height + 1
            }
        },
    }
}

impl AugTree {
    /// A right-leaning chain: no node anywhere in the tree has a left child.
    pub open spec fn right_chain(self) -> bool
        decreases self,
    {
        &&& self.left is Absent
        &&& match self.right {
            AugTreeNode::Absent => true,
            AugTreeNode::Node(r) => r.right_chain(),
        }
    }
}

/// Law: without rebalancing, insertion order dictates the shape. Inserting a
/// fresh leaf whose start is greater than or equal to every stored start into
/// a right-leaning chain yields a right-leaning chain exactly one taller, so
/// a run of increasing starts degenerates the tree into a chain of height `n`.
pub proof fn lemma_add_degenerates(t: AugTree, node: AugTree)
    requires
        t.right_chain(),
        node.left is Absent,
        node.right is Absent,
        forall|iv: (u64, u64)| #[trigger] t.inorder().contains(iv) ==> iv.0 <= node.interval.0,
    ensures
        t.spec_add(node).right_chain(),
        t.spec_add(node).height() == t.height() + 1,
    decreases t,
{
    broadcast use vstd::seq_lib::lemma_seq_concat_contains_all_elements;

    assert(t.inorder().contains(t.interval)) by {
        assert(t.inorder() == (t.left.inorder() + seq![t.interval]) + t.right.inorder());
        assert((t.left.inorder() + seq![t.interval]).contains(t.interval)) by {
            assert((t.left.inorder() + seq![t.interval])[t.left.inorder().len() as int]
                == t.interval);
        }
    }
    let res = t.spec_add(node);
    assert(node.interval.0 >= t.interval.0);
    match t.right {
        AugTreeNode::Absent => {
            assert(node.right_chain());
            assert(res.right == AugTreeNode::Node(Box::new(node)));
            assert(node.height() == 1);
            assert(res.right.height() == 1);
            assert(res.left.height() == 0);
            assert(t.height() == 1);
        }
        AugTreeNode::Node(r) => {
            assert forall|iv: (u64, u64)| #[trigger] r.inorder().contains(iv) implies iv.0
                <= node.interval.0 by {
                assert(t.inorder() == (t.left.inorder() + seq![t.interval]) + t.right.inorder());
                assert(t.inorder().contains(iv));
            }
            lemma_add_degenerates(*r, node);
            assert(res.right.height() == r.height() + 1);
            assert(t.height() == 1 + r.height());
        }
    }
}

/// A leaf's interval sequence is the one interval it holds, and a leaf is
/// always well formed.
proof fn lemma_leaf_inorder(t: AugTree)
    requires
        t.left is Absent,
        t.right is Absent,
    ensures
        t.inorder() == seq![t.spec_range()],
        t.highest == t.spec_range().1 ==> t.wf(),
{
    assert(t.inorder() =~= seq![t.interval]);
    assert(t.inorder().contains(t.interval)) by {
        assert(t.inorder()[0] == t.interval);
    }
    if t.highest == t.interval.1 {
        assert forall|iv: (u64, u64)| #[trigger] t.inorder().contains(iv) implies iv.1
            <= t.highest by {
            assert(iv == t.interval);
        }
    }
}

} // verus!
