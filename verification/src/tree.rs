//! The token tree: a leaf (opaque byte string) or a node (ordered
//! sequence of child trees), together with its mathematical model.

use vstd::prelude::*;

verus! {

broadcast use vstd::std_specs::vec::group_vec_axioms;

/// A token tree held in memory. A `Leaf` owns an opaque byte string; a
/// `Node` owns an ordered sequence of child trees. Children may nest to
/// any depth, and their order is significant.
#[derive(Debug, PartialEq, Eq)]
pub enum TokenTree {
    Node(Vec<TokenTree>),
    Leaf(Vec<u8>),
}

/// The mathematical model of a token tree: the same two variants over
/// `Seq` instead of `Vec`. Contracts are stated over this type.
pub ghost enum TreeView {
    Node(Seq<TreeView>),
    Leaf(Seq<u8>),
}

impl View for TokenTree {
    type V = TreeView;

    open spec fn view(&self) -> TreeView
        decreases self, 1int,
    {
        match self {
            TokenTree::Node(children) => TreeView::Node(views_of(children@)),
            TokenTree::Leaf(bytes) => TreeView::Leaf(bytes@),
        }
    }
}

/// The models of a sequence of trees, element by element.
pub open spec fn views_of(children: Seq<TokenTree>) -> Seq<TreeView>
    decreases children, 0int,
{
    Seq::new(
        children.len(),
        |i: int|
            if 0 <= i < children.len() {
                children[i]@
            } else {
                TreeView::Leaf(Seq::empty())
            },
    )
}

impl TreeView {
    /// A tree is well formed when every leaf's byte length fits in a
    /// machine word. Every tree actually held in memory is.
    pub open spec fn wf(self) -> bool
        decreases self,
    {
        match self {
            TreeView::Node(children) => forall|i: int|
                0 <= i < children.len() ==> (#[trigger] children[i]).wf(),
            TreeView::Leaf(bytes) => bytes.len() <= usize::MAX,
        }
    }
}

/// The model of every tree held in memory is well formed.
pub proof fn lemma_view_wf(t: TokenTree)
    ensures
        t@.wf(),
    decreases t,
{
    match t {
        TokenTree::Node(children) => {
            let cs = t@->Node_0;
            assert forall|i: int| 0 <= i < cs.len() implies (#[trigger] cs[i]).wf() by {
                lemma_view_wf(children@[i]);
                assert(cs[i] == children@[i]@);
            }
        }
        TokenTree::Leaf(bytes) => {
            assert(bytes@.len() == bytes.len());
        }
    }
}

} // verus!
