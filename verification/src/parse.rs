//! The parser: recursive descent over the length-prefixed token format.
//!
//! At each position, a `(` opens a node whose children are parsed until
//! the matching `)`; otherwise a run of decimal digits, a colon and
//! exactly that many raw bytes form a leaf. Only the first complete tree
//! is consumed; trailing bytes are ignored. The functions here never
//! panic: every malformed input is reported as a [`ParseError`].

use vstd::prelude::*;
use vstd::slice::{slice_subrange, slice_to_vec};
use crate::ser::{CLOSE, COLON, OPEN};
use crate::tree::{TokenTree, TreeView, views_of};

verus! {

broadcast use vstd::std_specs::vec::group_vec_axioms;

/// Why an input failed to parse.
#[derive(Clone, Copy, Debug, PartialEq, Eq, Structural)]
pub enum ParseError {
    /// A leaf's declared decimal length does not fit in a machine word.
    MalformedLength,
    /// A leaf's digits are not followed by the `:` separator.
    MalformedToken,
    /// Fewer bytes remain than a leaf's declared length.
    TruncatedInput,
    /// A node was opened with `(` but the input ended before `)`.
    UnterminatedNode,
    /// The input is empty or starts with neither `(` nor a digit.
    NoMatch,
}

/// Whether `b` is an ASCII decimal digit.
pub open spec fn is_digit_byte(b: u8) -> bool {
    48 <= b <= 57
}

/// The index at which the run of digits starting at `i` ends: the first
/// index at or after `i` that is out of range or holds a non-digit.
pub open spec fn digit_run_end(s: Seq<u8>, i: int) -> int
    decreases s.len() - i,
{
    if 0 <= i < s.len() && is_digit_byte(s[i]) {
        digit_run_end(s, i + 1)
    } else {
        i
    }
}

/// The numeric value of a single digit byte.
pub open spec fn digit_val(b: u8) -> nat
    recommends
        is_digit_byte(b),
{
    if b >= 48 {
        (b - 48) as nat
    } else {
        0
    }
}

/// The base-10 value of a run of digit bytes, most significant first.
pub open spec fn digits_value(d: Seq<u8>) -> nat
    decreases d.len(),
{
    if d.len() == 0 {
        0
    } else {
        digits_value(d.drop_last()) * 10 + digit_val(d.last())
    }
}

/// Keeps a consumed-byte count inside `[1, len]`; the parser always
/// consumes at least one byte and at most the whole input, so this is
/// the identity on every count it is actually applied to.
pub open spec fn clamp_consumed(n: int, len: int) -> int {
    if n < 1 {
        1
    } else if n > len {
        len
    } else {
        n
    }
}

/// The result of parsing one tree at the front of `s`: the tree and the
/// number of bytes consumed, or the error the grammar assigns to `s`.
pub open spec fn spec_parse_tree(s: Seq<u8>) -> Result<(TreeView, int), ParseError>
    decreases s.len(), 0int,
{
    if s.len() == 0 {
        Err(ParseError::NoMatch)
    } else if s[0] == OPEN {
        match spec_parse_children(s.skip(1)) {
            Ok(p) => Ok((TreeView::Node(p.0), 1 + p.1)),
            Err(e) => Err(e),
        }
    } else if is_digit_byte(s[0]) {
        let k = digit_run_end(s, 0);
        let v = digits_value(s.take(k));
        if v > usize::MAX as nat {
            Err(ParseError::MalformedLength)
        } else if k >= s.len() || s[k] != COLON {
            Err(ParseError::MalformedToken)
        } else if s.len() - (k + 1) < v {
            Err(ParseError::TruncatedInput)
        } else {
            Ok((TreeView::Leaf(s.subrange(k + 1, k + 1 + v)), k + 1 + v))
        }
    } else {
        Err(ParseError::NoMatch)
    }
}

/// The result of parsing a node's remaining children at the front of
/// `s`, up to and including the closing `)`: the children and the number
/// of bytes consumed, or the error.
pub open spec fn spec_parse_children(s: Seq<u8>) -> Result<(Seq<TreeView>, int), ParseError>
    decreases s.len(), 1int,
{
    if s.len() == 0 {
        Err(ParseError::UnterminatedNode)
    } else if s[0] == CLOSE {
        Ok((Seq::empty(), 1))
    } else {
        match spec_parse_tree(s) {
            Err(e) => Err(e),
            Ok(p) => {
                let n = clamp_consumed(p.1, s.len() as int);
                match spec_parse_children(s.skip(n)) {
                    Err(e) => Err(e),
                    Ok(q) => Ok((seq![p.0] + q.0, n + q.1)),
                }
            },
        }
    }
}

/// Where the digit run starting at `i` ends: no earlier than `i`, no
/// later than the end of `s`, with digits before it and none at it.
pub proof fn lemma_digit_run_end(s: Seq<u8>, i: int)
    requires
        0 <= i <= s.len(),
    ensures
        i <= digit_run_end(s, i) <= s.len(),
        forall|j: int| i <= j < digit_run_end(s, i) ==> is_digit_byte(#[trigger] s[j]),
        digit_run_end(s, i) < s.len() ==> !is_digit_byte(s[digit_run_end(s, i)]),
    decreases s.len() - i,
{
    if i < s.len() && is_digit_byte(s[i]) {
        lemma_digit_run_end(s, i + 1);
    }
}

/// A successful parse consumes between one byte and the whole input,
/// and yields a well-formed tree.
pub proof fn lemma_parse_tree_bounds(s: Seq<u8>)
    ensures
        spec_parse_tree(s) matches Ok(p) ==> 1 <= p.1 <= s.len() && p.0.wf(),
    decreases s.len(), 0int,
{
    if s.len() == 0 {
    } else if s[0] == OPEN {
        lemma_parse_children_bounds(s.skip(1));
        if spec_parse_children(s.skip(1)) matches Ok(q) {
            assert(spec_parse_tree(s)->Ok_0.0.wf());
        }
    } else if is_digit_byte(s[0]) {
        lemma_digit_run_end(s, 0);
        assert(digit_run_end(s, 0) >= 1);
    }
}

/// A successful children parse consumes between one byte and the whole
/// input, and yields well-formed children.
pub proof fn lemma_parse_children_bounds(s: Seq<u8>)
    ensures
        spec_parse_children(s) matches Ok(q) ==> {
            &&& 1 <= q.1 <= s.len()
            &&& forall|j: int| 0 <= j < q.0.len() ==> (#[trigger] q.0[j]).wf()
        },
    decreases s.len(), 1int,
{
    if s.len() == 0 {
    } else if s[0] == CLOSE {
    } else {
        match spec_parse_tree(s) {
            Err(e) => {},
            Ok(p) => {
                lemma_parse_tree_bounds(s);
                let n = clamp_consumed(p.1, s.len() as int);
                assert(n == p.1);
                lemma_parse_children_bounds(s.skip(n));
                match spec_parse_children(s.skip(n)) {
                    Err(e) => {},
                    Ok(q) => {
                        assert forall|j: int|
                            0 <= j < (seq![p.0] + q.0).len() implies (#[trigger] (seq![p.0]
                            + q.0)[j]).wf() by {
                            if j == 0 {
                                assert((seq![p.0] + q.0)[0] == p.0);
                            } else {
                                assert((seq![p.0] + q.0)[j] == q.0[j - 1]);
                            }
                        }
                    },
                }
            },
        }
    }
}

/// The value of a digit run never shrinks as the run is extended.
pub proof fn lemma_digits_value_monotone(d: Seq<u8>, i: int, j: int)
    requires
        0 <= i <= j <= d.len(),
    ensures
        digits_value(d.take(i)) <= digits_value(d.take(j)),
    decreases j - i,
{
    if i < j {
        lemma_digits_value_monotone(d, i, j - 1);
        assert(d.take(j).drop_last() =~= d.take(j - 1));
        assert(digits_value(d.take(j - 1)) * 10 >= digits_value(d.take(j - 1)));
    }
}

/// Parses one tree from `input` starting at `pos`, returning the tree
/// and the position just past its last byte.
#[verifier::loop_isolation(false)]
fn parse_at(input: &[u8], pos: usize) -> (r: Result<(TokenTree, usize), ParseError>)
    requires
        pos <= input@.len(),
    ensures
        match r {
            Ok(p) => {
                &&& pos < p.1 <= input@.len()
                &&& spec_parse_tree(input@.skip(pos as int)) == Ok::<_, ParseError>(
                    (p.0@, p.1 - pos),
                )
            },
            Err(e) => spec_parse_tree(input@.skip(pos as int)) == Err::<(TreeView, int), _>(e),
        },
    decreases input@.len() - pos,
{
    let ghost s = input@.skip(pos as int);
    if pos == input.len() {
        return Err(ParseError::NoMatch);
    }
    let b = input[pos];
    proof {
        assert(s[0] == input@[pos as int]);
    }
    if b == OPEN {
        let mut children: Vec<TokenTree> = Vec::new();
        let mut cur = pos + 1;
        proof {
            assert(s.skip(1) =~= input@.skip(pos + 1));
            assert(views_of(children@) =~= Seq::<TreeView>::empty());
            match spec_parse_children(input@.skip(pos + 1)) {
                Ok(q) => {
                    assert(views_of(children@) + q.0 =~= q.0);
                },
                Err(e) => {},
            }
        }
        loop
            invariant
                pos + 1 <= cur <= input@.len(),
                match spec_parse_children(input@.skip(cur as int)) {
                    Ok(q) => spec_parse_children(input@.skip(pos + 1)) == Ok::<_, ParseError>(
                        (views_of(children@) + q.0, (cur - pos - 1) + q.1),
                    ),
                    Err(e) => spec_parse_children(input@.skip(pos + 1)) == Err::<
                        (Seq<TreeView>, int),
                        _,
                    >(e),
                },
            decreases input@.len() - cur,
        {
            if cur == input.len() {
                proof {
                    assert(input@.skip(cur as int).len() == 0);
                }
                return Err(ParseError::UnterminatedNode);
            }
            let c = input[cur];
            proof {
                assert(input@.skip(cur as int)[0] == input@[cur as int]);
            }
            if c == CLOSE {
                proof {
                    let sc = input@.skip(cur as int);
                    assert(spec_parse_children(sc) == Ok::<_, ParseError>(
                        (Seq::<TreeView>::empty(), 1int),
                    ));
                    assert(views_of(children@) + Seq::<TreeView>::empty() =~= views_of(
                        children@,
                    ));
                }
                return Ok((TokenTree::Node(children), cur + 1));
            }
            match parse_at(input, cur) {
                Err(e) => {
                    return Err(e);
                },
                Ok((t, end2)) => {
                    proof {
                        let sc = input@.skip(cur as int);
                        assert(clamp_consumed(end2 - cur, sc.len() as int) == end2 - cur);
                        assert(sc.skip(end2 - cur) =~= input@.skip(end2 as int));
                        assert(views_of(children@.push(t)) =~= views_of(children@) + seq![t@]);
                        match spec_parse_children(input@.skip(end2 as int)) {
                            Ok(q2) => {
                                assert((views_of(children@) + seq![t@]) + q2.0 =~= views_of(
                                    children@,
                                ) + (seq![t@] + q2.0));
                            },
                            Err(e2) => {},
                        }
                    }
                    children.push(t);
                    cur = end2;
                },
            }
        }
    } else if 48 <= b && b <= 57 {
        let mut k = pos + 1;
        proof {
            assert(digit_run_end(s, 0) == digit_run_end(s, 1));
        }
        while k < input.len() && 48 <= input[k] && input[k] <= 57
            invariant
                pos + 1 <= k <= input@.len(),
                digit_run_end(s, 0) == digit_run_end(s, k - pos),
            decreases input@.len() - k,
        {
            proof {
                assert(s[k - pos] == input@[k as int]);
                assert(digit_run_end(s, k - pos) == digit_run_end(s, k - pos + 1));
            }
            k = k + 1;
        }
        let ghost run = k - pos;
        proof {
            if k < input.len() {
                assert(s[k - pos] == input@[k as int]);
            }
            assert(digit_run_end(s, 0) == run);
            lemma_digit_run_end(s, 0);
        }
        let mut v: usize = 0;
        let mut cur = pos;
        while cur < k
            invariant
                pos <= cur <= k,
                v as nat == digits_value(s.take(cur - pos)),
            decreases k - cur,
        {
            proof {
                assert(is_digit_byte(s[cur - pos]));
                assert(input@[cur as int] == s[cur - pos]);
            }
            let d = input[cur] - 48;
            let ghost prefix = cur - pos;
            proof {
                assert(s.take(prefix + 1).drop_last() =~= s.take(prefix));
                assert(s.take(prefix + 1).last() == s[prefix]);
                assert(digits_value(s.take(prefix + 1)) == digits_value(s.take(prefix)) * 10
                    + digit_val(s[prefix]));
            }
            let next = match v.checked_mul(10) {
                Some(m) => match m.checked_add(d as usize) {
                    Some(nv) => nv,
                    None => {
                        proof {
                            lemma_digits_value_monotone(s, prefix + 1, run);
                        }
                        return Err(ParseError::MalformedLength);
                    },
                },
                None => {
                    proof {
                        lemma_digits_value_monotone(s, prefix + 1, run);
                    }
                    return Err(ParseError::MalformedLength);
                },
            };
            v = next;
            cur = cur + 1;
        }
        if k == input.len() {
            return Err(ParseError::MalformedToken);
        }
        proof {
            assert(s[run] == input@[k as int]);
        }
        if input[k] != COLON {
            return Err(ParseError::MalformedToken);
        }
        if input.len() - k - 1 < v {
            return Err(ParseError::TruncatedInput);
        }
        let start = k + 1;
        let end = start + v;
        let content = slice_to_vec(slice_subrange(input, start, end));
        proof {
            assert(content@ =~= s.subrange(run + 1, run + 1 + v as int));
        }
        Ok((TokenTree::Leaf(content), end))
    } else {
        Err(ParseError::NoMatch)
    }
}

/// Parses the first complete token tree from `input`. Trailing bytes
/// after that tree are ignored. Returns exactly what the grammar
/// assigns to `input`: the parsed tree, or the error for the first
/// failure the scan meets.
pub fn deserialize(input: &[u8]) -> (r: Result<TokenTree, ParseError>)
    ensures
        match spec_parse_tree(input@) {
            Ok(p) => r matches Ok(t) && t@ == p.0 && t@.wf(),
            Err(e) => r matches Err(e2) && e2 == e,
        },
{
    proof {
        assert(input@.skip(0) =~= input@);
        lemma_parse_tree_bounds(input@);
    }
    match parse_at(input, 0) {
        Ok((t, _)) => Ok(t),
        Err(e) => Err(e),
    }
}

} // verus!
