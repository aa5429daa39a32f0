//! The round-trip laws connecting the parser and the serializer: the
//! serialization of any tree parses back to that tree, and an input
//! that is a canonical encoding is reproduced byte for byte by
//! serializing its parse result.

use vstd::prelude::*;
use crate::parse::{
    clamp_consumed, digit_run_end, digit_val, digits_value, is_digit_byte, spec_parse_children,
    spec_parse_tree, ParseError,
};
use crate::ser::{spec_digits, spec_serialize, spec_serialize_seq, CLOSE, COLON, OPEN};
use crate::tree::TreeView;

verus! {

/// The decimal digits of `n` form a nonempty run of digit bytes whose
/// value is `n` again.
proof fn lemma_digits_of(n: nat)
    ensures
        spec_digits(n).len() >= 1,
        forall|j: int| 0 <= j < spec_digits(n).len() ==> is_digit_byte(#[trigger] spec_digits(n)[j]),
        digits_value(spec_digits(n)) == n,
    decreases n,
{
    if n < 10 {
        assert(digits_value(spec_digits(n).drop_last()) == 0);
    } else {
        lemma_digits_of(n / 10);
        let d = spec_digits(n);
        assert(d.drop_last() =~= spec_digits(n / 10));
        assert(d.last() == (48 + n % 10) as u8);
        assert(digit_val(d.last()) == n % 10);
        assert(digits_value(d) == (n / 10) * 10 + n % 10);
        assert((n / 10) * 10 + n % 10 == n) by (nonlinear_arith);
    }
}

/// If the bytes before `k` are digits and the byte at `k` is not, the
/// digit run beginning at `i` ends exactly at `k`.
proof fn lemma_digit_run_end_from(s: Seq<u8>, i: int, k: int)
    requires
        0 <= i <= k <= s.len(),
        forall|j: int| i <= j < k ==> is_digit_byte(#[trigger] s[j]),
        k < s.len() ==> !is_digit_byte(s[k]),
    ensures
        digit_run_end(s, i) == k,
    decreases k - i,
{
    if i < k {
        lemma_digit_run_end_from(s, i + 1, k);
    }
}

/// A serialization is at least two bytes long and starts with `(` or a
/// digit; in particular it never starts with `)`.
proof fn lemma_serialize_first_byte(t: TreeView)
    ensures
        spec_serialize(t).len() >= 2,
        spec_serialize(t)[0] == OPEN || is_digit_byte(spec_serialize(t)[0]),
    decreases t,
{
    match t {
        TreeView::Leaf(bytes) => {
            lemma_digits_of(bytes.len());
            assert(spec_serialize(t)[0] == spec_digits(bytes.len())[0]);
        },
        TreeView::Node(children) => {},
    }
}

/// Round trip, parse after serialize: parsing the serialization of any
/// well-formed tree succeeds, returns that same tree, and consumes
/// exactly the serialized bytes, whatever trailing bytes follow them.
pub proof fn lemma_parse_serialize_round_trip(t: TreeView, rest: Seq<u8>)
    requires
        t.wf(),
    ensures
        spec_parse_tree(spec_serialize(t) + rest) == Ok::<_, ParseError>(
            (t, spec_serialize(t).len() as int),
        ),
    decreases t, 0int,
{
    let s = spec_serialize(t) + rest;
    match t {
        TreeView::Leaf(bytes) => {
            let d = spec_digits(bytes.len());
            let dl = d.len() as int;
            let v = bytes.len() as int;
            lemma_digits_of(bytes.len());
            assert forall|j: int| 0 <= j < dl implies is_digit_byte(#[trigger] s[j]) by {
                assert(s[j] == d[j]);
            }
            assert(s[dl] == COLON);
            lemma_digit_run_end_from(s, 0, dl);
            assert(s.take(dl) =~= d);
            assert(s.subrange(dl + 1, dl + 1 + v) =~= bytes);
            assert(spec_serialize(t).len() == dl + 1 + v);
        },
        TreeView::Node(children) => {
            assert(s.len() >= 2);
            assert(s[0] == OPEN);
            assert(s.skip(1) =~= spec_serialize_seq(children, 0) + seq![CLOSE] + rest);
            lemma_parse_children_serialized(children, 0, rest);
            assert(children.skip(0) =~= children);
            assert(spec_serialize(t).len() == 2 + spec_serialize_seq(children, 0).len());
        },
    }
}

/// Parsing the serialized children `children[i..]` followed by `)`
/// yields those children and consumes through the `)`.
proof fn lemma_parse_children_serialized(children: Seq<TreeView>, i: int, rest: Seq<u8>)
    requires
        0 <= i <= children.len(),
        forall|j: int| 0 <= j < children.len() ==> (#[trigger] children[j]).wf(),
    ensures
        spec_parse_children(spec_serialize_seq(children, i) + seq![CLOSE] + rest) == Ok::<
            _,
            ParseError,
        >((children.skip(i), spec_serialize_seq(children, i).len() + 1int)),
    decreases children, children.len() - i,
{
    let u = spec_serialize_seq(children, i) + seq![CLOSE] + rest;
    if i == children.len() {
        assert(spec_serialize_seq(children, i) =~= Seq::<u8>::empty());
        assert(u[0] == CLOSE);
        assert(children.skip(i) =~= Seq::<TreeView>::empty());
    } else {
        let c = children[i];
        let cb = spec_serialize(c);
        let tail = spec_serialize_seq(children, i + 1);
        assert(spec_serialize_seq(children, i) == cb + tail);
        lemma_serialize_first_byte(c);
        assert(u.len() >= 2);
        assert(u[0] == cb[0]);
        assert(u[0] != CLOSE);
        assert(u =~= cb + (tail + seq![CLOSE] + rest));
        lemma_parse_serialize_round_trip(c, tail + seq![CLOSE] + rest);
        assert(spec_parse_tree(u) == Ok::<_, ParseError>((c, cb.len() as int)));
        assert(clamp_consumed(cb.len() as int, u.len() as int) == cb.len() as int);
        assert(u.skip(cb.len() as int) =~= tail + seq![CLOSE] + rest);
        lemma_parse_children_serialized(children, i + 1, rest);
        assert(seq![c] + children.skip(i + 1) =~= children.skip(i));
    }
}

/// Round trip, serialize after parse: if `bytes` is the canonical
/// encoding of some well-formed tree and parsing consumes all of
/// `bytes` yielding `t`, then serializing `t` gives back exactly
/// `bytes`. An encoding whose length prefix carries a redundant leading
/// zero parses but is not canonical; the premise excludes it.
pub proof fn lemma_serialize_parse_round_trip(bytes: Seq<u8>, t: TreeView, u: TreeView)
    requires
        u.wf(),
        bytes == spec_serialize(u),
        spec_parse_tree(bytes) matches Ok(p) && p.0 == t && p.1 == bytes.len(),
    ensures
        spec_serialize(t) == bytes,
{
    lemma_parse_serialize_round_trip(u, Seq::empty());
    assert(spec_serialize(u) + Seq::<u8>::empty() =~= bytes);
}

} // verus!
