//! The serializer: turns a token tree back into its canonical bytes.
//! A leaf becomes the decimal byte length, a colon, then the raw bytes;
//! a node becomes its children in order between parentheses.

use vstd::prelude::*;
use crate::tree::{TokenTree, TreeView};

verus! {

broadcast use vstd::std_specs::vec::group_vec_axioms;

/// The byte `(` that opens a node.
pub const OPEN: u8 = 40;

/// The byte `)` that closes a node.
pub const CLOSE: u8 = 41;

/// The byte `:` that separates a leaf's length from its contents.
pub const COLON: u8 = 58;

/// The decimal ASCII digits of `n`, most significant first, with no
/// leading zeros and at least one digit (`"0"` for zero).
pub open spec fn spec_digits(n: nat) -> Seq<u8>
    decreases n,
{
    if n < 10 {
        seq![(48 + n) as u8]
    } else {
        spec_digits(n / 10).push((48 + n % 10) as u8)
    }
}

/// The canonical bytes of the tree `t`.
pub open spec fn spec_serialize(t: TreeView) -> Seq<u8>
    decreases t, 0int,
{
    match t {
        TreeView::Leaf(bytes) => spec_digits(bytes.len()) + seq![COLON] + bytes,
        TreeView::Node(children) => seq![OPEN] + spec_serialize_seq(children, 0) + seq![CLOSE],
    }
}

/// The canonical bytes of the children `children[i..]`, concatenated in
/// order with no separators.
pub open spec fn spec_serialize_seq(children: Seq<TreeView>, i: int) -> Seq<u8>
    decreases children, children.len() - i,
{
    if 0 <= i < children.len() {
        spec_serialize(children[i]) + spec_serialize_seq(children, i + 1)
    } else {
        Seq::empty()
    }
}

/// Appends the decimal ASCII digits of `n` to `out`.
#[verifier::loop_isolation(false)]
fn push_decimal(n: usize, out: &mut Vec<u8>)
    ensures
        final(out)@ == old(out)@ + spec_digits(n as nat),
{
    let mut digits: Vec<u8> = Vec::new();
    let mut m: usize = n;
    digits.push(48 + (m % 10) as u8);
    m = m / 10;
    proof {
        assert(digits@.reverse() =~= seq![(48 + n as nat % 10) as u8]);
        if m > 0 {
            assert(spec_digits(n as nat) == spec_digits(m as nat) + digits@.reverse());
        } else {
            assert(spec_digits(n as nat) =~= digits@.reverse());
        }
    }
    while m > 0
        invariant
            m > 0 ==> spec_digits(n as nat) == spec_digits(m as nat) + digits@.reverse(),
            m == 0 ==> spec_digits(n as nat) == digits@.reverse(),
            digits@.len() >= 1,
        decreases m,
    {
        let ghost prev = digits@;
        let ghost pm = m as nat;
        digits.push(48 + (m % 10) as u8);
        m = m / 10;
        proof {
            assert(digits@.reverse() =~= seq![(48 + pm % 10) as u8] + prev.reverse());
            if m > 0 {
                assert(spec_digits(pm) == spec_digits(pm / 10).push((48 + pm % 10) as u8));
                assert(spec_digits(pm / 10) + digits@.reverse() =~= spec_digits(pm)
                    + prev.reverse());
            } else {
                assert(spec_digits(pm) =~= seq![(48 + pm % 10) as u8]);
                assert(digits@.reverse() =~= spec_digits(pm) + prev.reverse());
            }
        }
    }
    let mut j: usize = digits.len();
    while j > 0
        invariant
            j <= digits.len(),
            out@ == old(out)@ + digits@.reverse().take(digits@.len() - j),
        decreases j,
    {
        j = j - 1;
        out.push(digits[j]);
        proof {
            assert(out@ =~= old(out)@ + digits@.reverse().take(digits@.len() - j));
        }
    }
    proof {
        assert(digits@.reverse().take(digits@.len() as int) =~= digits@.reverse());
    }
}

/// Appends the canonical bytes of `tree` to `out`. Serialization is
/// total: every tree has exactly one canonical byte form.
#[verifier::loop_isolation(false)]
pub fn serialize(tree: &TokenTree, out: &mut Vec<u8>)
    ensures
        final(out)@ == old(out)@ + spec_serialize(tree@),
    decreases tree,
{
    match tree {
        TokenTree::Leaf(bytes) => {
            push_decimal(bytes.len(), out);
            out.push(COLON);
            let mut j: usize = 0;
            while j < bytes.len()
                invariant
                    j <= bytes.len(),
                    out@ == old(out)@ + spec_digits(bytes@.len()) + seq![COLON]
                        + bytes@.take(j as int),
                decreases bytes.len() - j,
            {
                out.push(bytes[j]);
                j = j + 1;
                proof {
                    assert(out@ =~= old(out)@ + spec_digits(bytes@.len()) + seq![COLON]
                        + bytes@.take(j as int));
                }
            }
            proof {
                assert(bytes@.take(bytes@.len() as int) =~= bytes@);
                assert(out@ =~= old(out)@ + spec_serialize(tree@));
            }
        }
        TokenTree::Node(children) => {
            let ghost vcs = tree@->Node_0;
            out.push(OPEN);
            let mut i: usize = 0;
            proof {
                assert(out@ + spec_serialize_seq(vcs, 0) =~= old(out)@ + seq![OPEN]
                    + spec_serialize_seq(vcs, 0));
            }
            while i < children.len()
                invariant
                    i <= children.len(),
                    out@ + spec_serialize_seq(vcs, i as int) == old(out)@ + seq![OPEN]
                        + spec_serialize_seq(vcs, 0),
                decreases children.len() - i,
            {
                serialize(&children[i], out);
                proof {
                    assert(vcs[i as int] == children@[i as int]@);
                    assert(out@ + spec_serialize_seq(vcs, i + 1) =~= old(out)@ + seq![OPEN]
                        + spec_serialize_seq(vcs, 0));
                }
                i = i + 1;
            }
            out.push(CLOSE);
            proof {
                assert(spec_serialize_seq(vcs, vcs.len() as int) == Seq::<u8>::empty());
                assert(out@ =~= old(out)@ + spec_serialize(tree@));
            }
        }
    }
}

} // verus!
