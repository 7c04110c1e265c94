//! Sizes and pre-order listings of trees of node views.
use crate::grammar::without_children;
use crate::node::NodeView;
use vstd::prelude::*;

verus! {

/// The number of nodes in a tree: the node itself and all its descendants through
/// `children` (attributes are not counted).
pub open spec fn tree_size(n: NodeView) -> nat
    decreases n, 1nat,
{
    1 + forest_size(n.children, n.children.len() as int)
}

/// The number of nodes in the first `j` trees of `s`.
pub open spec fn forest_size(s: Seq<NodeView>, j: int) -> nat
    decreases s, j,
{
    if j <= 0 || j > s.len() {
        0
    } else {
        forest_size(s, j - 1) + tree_size(s[j - 1])
    }
}

/// The number of nodes in all the trees of `s`.
pub open spec fn total_size(s: Seq<NodeView>) -> nat {
    forest_size(s, s.len() as int)
}

/// The size of the first `m` trees after `a` in `a + b`.
proof fn lemma_forest_concat(a: Seq<NodeView>, b: Seq<NodeView>, m: int)
    requires
        0 <= m <= b.len(),
    ensures
        forest_size(a + b, a.len() + m) == total_size(a) + forest_size(b, m),
    decreases m,
{
    if m == 0 {
        lemma_forest_prefix(a, b, a.len() as int);
    } else {
        lemma_forest_concat(a, b, m - 1);
        assert((a + b)[a.len() + m - 1] == b[m - 1]);
    }
}

/// The first `j` trees of `a + b` are those of `a`.
proof fn lemma_forest_prefix(a: Seq<NodeView>, b: Seq<NodeView>, j: int)
    requires
        0 <= j <= a.len(),
    ensures
        forest_size(a + b, j) == forest_size(a, j),
    decreases j,
{
    if j > 0 {
        lemma_forest_prefix(a, b, j - 1);
        assert((a + b)[j - 1] == a[j - 1]);
    }
}

/// Sizes add up over concatenation.
pub proof fn lemma_total_concat(a: Seq<NodeView>, b: Seq<NodeView>)
    ensures
        total_size(a + b) == total_size(a) + total_size(b),
{
    lemma_forest_concat(a, b, b.len() as int);
}

/// The size of one tree, as a sequence.
pub proof fn lemma_total_single(n: NodeView)
    ensures
        total_size(seq![n]) == tree_size(n),
{
    reveal_with_fuel(forest_size, 2);
}

/// The empty sequence has size zero.
pub proof fn lemma_total_empty()
    ensures
        total_size(Seq::<NodeView>::empty()) == 0,
{
}

/// A tree in pre-order (document order): each node without its children, followed by
/// its children's trees in turn. Attributes stay on their node.
pub open spec fn tree_preorder(n: NodeView) -> Seq<NodeView>
    decreases n, 1nat,
{
    seq![without_children(n)] + forest_preorder(n.children, n.children.len() as int)
}

/// The first `j` trees of `s` in pre-order.
pub open spec fn forest_preorder(s: Seq<NodeView>, j: int) -> Seq<NodeView>
    decreases s, j,
{
    if j <= 0 || j > s.len() {
        Seq::empty()
    } else {
        forest_preorder(s, j - 1) + tree_preorder(s[j - 1])
    }
}

/// All the trees of `s` in pre-order.
pub open spec fn preorder(s: Seq<NodeView>) -> Seq<NodeView> {
    forest_preorder(s, s.len() as int)
}

proof fn lemma_preorder_prefix(a: Seq<NodeView>, b: Seq<NodeView>, j: int)
    requires
        0 <= j <= a.len(),
    ensures
        forest_preorder(a + b, j) == forest_preorder(a, j),
    decreases j,
{
    if j > 0 {
        lemma_preorder_prefix(a, b, j - 1);
        assert((a + b)[j - 1] == a[j - 1]);
    }
}

proof fn lemma_preorder_concat_upto(a: Seq<NodeView>, b: Seq<NodeView>, m: int)
    requires
        0 <= m <= b.len(),
    ensures
        forest_preorder(a + b, a.len() + m) == preorder(a) + forest_preorder(b, m),
    decreases m,
{
    if m == 0 {
        lemma_preorder_prefix(a, b, a.len() as int);
        assert(preorder(a) + Seq::<NodeView>::empty() =~= preorder(a));
    } else {
        lemma_preorder_concat_upto(a, b, m - 1);
        assert((a + b)[a.len() + m - 1] == b[m - 1]);
        let x = preorder(a);
        let y = forest_preorder(b, m - 1);
        let z = tree_preorder(b[m - 1]);
        assert((x + y) + z =~= x + (y + z));
    }
}

/// Pre-order listings add up over concatenation.
pub proof fn lemma_preorder_concat(a: Seq<NodeView>, b: Seq<NodeView>)
    ensures
        preorder(a + b) == preorder(a) + preorder(b),
{
    lemma_preorder_concat_upto(a, b, b.len() as int);
}

/// The pre-order listing of one tree, as a sequence.
pub proof fn lemma_preorder_single(n: NodeView)
    ensures
        preorder(seq![n]) == tree_preorder(n),
{
    reveal_with_fuel(forest_preorder, 2);
    assert(Seq::<NodeView>::empty() + tree_preorder(n) =~= tree_preorder(n));
}

} // verus!
