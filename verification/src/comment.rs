//! Reading and upserting the `comment` field of a record: a child node
//! whose first element is the leaf `comment` and whose second element
//! holds the value.

use vstd::prelude::*;
use vstd::slice::slice_to_vec;
use crate::tree::{views_of, TokenTree, TreeView};

verus! {

broadcast use vstd::std_specs::vec::group_vec_axioms;

/// The bytes of the field name `comment`.
pub open spec fn comment_name() -> Seq<u8> {
    seq![99u8, 111u8, 109u8, 109u8, 101u8, 110u8, 116u8]
}

/// Whether `c` is a candidate comment field: a node whose first element
/// is the leaf `comment`.
pub open spec fn is_comment_field(c: TreeView) -> bool {
    &&& c matches TreeView::Node(xs)
    &&& xs.len() >= 1
    &&& xs[0] == TreeView::Leaf(comment_name())
}

/// The first index at or after `i` whose child is a candidate comment
/// field, or `cs.len()` when there is none.
pub open spec fn find_comment_idx(cs: Seq<TreeView>, i: int) -> int
    decreases cs.len() - i,
{
    if i < 0 || i >= cs.len() {
        cs.len() as int
    } else if is_comment_field(cs[i]) {
        i
    } else {
        find_comment_idx(cs, i + 1)
    }
}

/// The comment value of `t`: looks at the children of a node from the
/// second one on (the first names the record kind), takes the first
/// candidate comment field, and yields its second element's bytes; there
/// is no value when `t` is a leaf, no candidate exists, or the first
/// candidate lacks a leaf as its second element.
pub open spec fn spec_get_comment(t: TreeView) -> Option<Seq<u8>> {
    match t {
        TreeView::Leaf(_) => None,
        TreeView::Node(cs) => {
            let i = find_comment_idx(cs, 1);
            if i == cs.len() {
                None
            } else {
                let xs = cs[i]->Node_0;
                if xs.len() >= 2 && xs[1] is Leaf {
                    Some(xs[1]->Leaf_0)
                } else {
                    None
                }
            }
        },
    }
}

/// A fresh two-element comment field `[comment, value]`.
pub open spec fn comment_field(value: Seq<u8>) -> TreeView {
    TreeView::Node(seq![TreeView::Leaf(comment_name()), TreeView::Leaf(value)])
}

/// `t` after upserting the comment `value`: a leaf is unchanged; in a
/// node, the first candidate comment field (the first child included)
/// is replaced whole by `[comment, value]`, or that field is appended
/// when no candidate exists.
pub open spec fn spec_upsert_comment(t: TreeView, value: Seq<u8>) -> TreeView {
    match t {
        TreeView::Leaf(_) => t,
        TreeView::Node(cs) => {
            let i = find_comment_idx(cs, 0);
            if i == cs.len() {
                TreeView::Node(cs.push(comment_field(value)))
            } else {
                TreeView::Node(cs.update(i, comment_field(value)))
            }
        },
    }
}

/// The characters `String::from_utf8_lossy` decodes from `bytes`.
pub uninterp spec fn lossy_utf8(bytes: Seq<u8>) -> Seq<char>;

/// Relies on `String::from_utf8_lossy`: decodes the bytes as UTF-8,
/// substituting U+FFFD for invalid sequences; the result depends on the
/// bytes alone.
#[verifier::external_body]
fn utf8_lossy(bytes: &Vec<u8>) -> (r: String)
    ensures
        r@ == lossy_utf8(bytes@),
{
    String::from_utf8_lossy(bytes).to_string()
}

/// Whether `bytes` spells `comment`.
fn is_comment_name(bytes: &Vec<u8>) -> (r: bool)
    ensures
        r == (bytes@ == comment_name()),
{
    if bytes.len() != 7 {
        return false;
    }
    let r = bytes[0] == 99 && bytes[1] == 111 && bytes[2] == 109 && bytes[3] == 109 && bytes[4]
        == 101 && bytes[5] == 110 && bytes[6] == 116;
    proof {
        if r {
            assert(bytes@ =~= comment_name());
        }
    }
    r
}

/// Whether `child` is a candidate comment field.
fn is_comment_node(child: &TokenTree) -> (r: bool)
    ensures
        r == is_comment_field(child@),
{
    match child {
        TokenTree::Node(xs) => {
            if xs.len() >= 1 {
                match &xs[0] {
                    TokenTree::Leaf(name) => {
                        proof {
                            assert(child@->Node_0[0] == xs@[0]@);
                        }
                        is_comment_name(name)
                    },
                    _ => {
                        proof {
                            assert(child@->Node_0[0] == xs@[0]@);
                        }
                        false
                    },
                }
            } else {
                false
            }
        },
        _ => false,
    }
}

/// Returns the comment field's value, decoded from UTF-8 with invalid
/// sequences replaced, exactly when the tree has one.
#[verifier::loop_isolation(false)]
pub fn get_comment(tt: &TokenTree) -> (r: Option<String>)
    ensures
        match spec_get_comment(tt@) {
            Some(bytes) => r matches Some(s) && s@ == lossy_utf8(bytes),
            None => r is None,
        },
{
    let children = match tt {
        TokenTree::Node(children) => children,
        TokenTree::Leaf(_) => {
            return None;
        },
    };
    let ghost vcs = tt@->Node_0;
    let mut i: usize = 1;
    while i < children.len()
        invariant
            1 <= i,
            i - 1 <= children@.len(),
            vcs == views_of(children@),
            find_comment_idx(vcs, 1) == find_comment_idx(vcs, i as int),
        decreases children@.len() - i,
    {
        if is_comment_node(&children[i]) {
            proof {
                assert(vcs[i as int] == children@[i as int]@);
                assert(find_comment_idx(vcs, i as int) == i);
            }
            match &children[i] {
                TokenTree::Node(xs) => {
                    proof {
                        assert(vcs[i as int]->Node_0 == views_of(xs@));
                    }
                    if xs.len() >= 2 {
                        match &xs[1] {
                            TokenTree::Leaf(bytes) => {
                                proof {
                                    assert(vcs[i as int]->Node_0[1] == xs@[1]@);
                                }
                                return Some(utf8_lossy(bytes));
                            },
                            _ => {
                                proof {
                                    assert(vcs[i as int]->Node_0[1] == xs@[1]@);
                                }
                                return None;
                            },
                        }
                    } else {
                        return None;
                    }
                },
                _ => {
                    proof {
                        assert(false);
                    }
                    return None;
                },
            }
        }
        proof {
            assert(vcs[i as int] == children@[i as int]@);
            assert(find_comment_idx(vcs, i as int) == find_comment_idx(vcs, i + 1));
        }
        i = i + 1;
    }
    None
}

/// Builds the two-element comment field `[comment, value]`.
fn make_comment_node(value: &[u8]) -> (r: TokenTree)
    ensures
        r@ == comment_field(value@),
{
    let mut name: Vec<u8> = Vec::new();
    name.push(99);
    name.push(111);
    name.push(109);
    name.push(109);
    name.push(101);
    name.push(110);
    name.push(116);
    proof {
        assert(name@ =~= comment_name());
    }
    let mut xs: Vec<TokenTree> = Vec::new();
    xs.push(TokenTree::Leaf(name));
    xs.push(TokenTree::Leaf(slice_to_vec(value)));
    proof {
        assert(views_of(xs@) =~= seq![
            TreeView::Leaf(comment_name()),
            TreeView::Leaf(value@),
        ]);
    }
    TokenTree::Node(xs)
}

/// Replaces the first comment field of a node in place with
/// `[comment, value]`, or appends a fresh one when none is present.
/// On a leaf the tree is left unchanged.
pub fn upsert_comment(tt: &mut TokenTree, value: &[u8])
    ensures
        final(tt)@ == spec_upsert_comment(old(tt)@, value@),
{
    let mut owned = TokenTree::Node(Vec::new());
    core::mem::swap(tt, &mut owned);
    match owned {
        TokenTree::Leaf(bytes) => {
            *tt = TokenTree::Leaf(bytes);
        },
        TokenTree::Node(mut children) => {
            let ghost vcs = views_of(children@);
            let mut i: usize = 0;
            let mut found = false;
            while i < children.len() && !found
                invariant
                    0 <= i <= children@.len(),
                    vcs == views_of(children@),
                    found ==> i < children@.len() && find_comment_idx(vcs, 0) == i,
                    !found ==> find_comment_idx(vcs, 0) == find_comment_idx(vcs, i as int),
                decreases children@.len() - i, 1int - (if found { 1int } else { 0int }),
            {
                proof {
                    assert(vcs[i as int] == children@[i as int]@);
                }
                if is_comment_node(&children[i]) {
                    proof {
                        assert(find_comment_idx(vcs, i as int) == i);
                    }
                    found = true;
                } else {
                    proof {
                        assert(find_comment_idx(vcs, i as int) == find_comment_idx(vcs, i + 1));
                    }
                    i = i + 1;
                }
            }
            if found {
                children.set(i, make_comment_node(value));
                proof {
                    assert(views_of(children@) =~= vcs.update(i as int, comment_field(value@)));
                }
            } else {
                children.push(make_comment_node(value));
                proof {
                    assert(views_of(children@) =~= vcs.push(comment_field(value@)));
                }
            }
            *tt = TokenTree::Node(children);
        },
    }
}

} // verus!
