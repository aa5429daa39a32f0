use gpg_keytag::{deserialize, serialize, ParseError, TokenTree};
use gpg_keytag::TokenTree::{Leaf, Node};

fn leaf(bytes: &[u8]) -> TokenTree {
    Leaf(bytes.to_vec())
}

#[test]
fn parse_leaf() {
    let input = b"12:foobarbazbizqux";
    let v = deserialize(&input[..]).unwrap();
    assert_eq!(v, leaf(b"foobarbazbiz"));
}

#[test]
fn parse_simple_node() {
    let input = b"(6:foobar)";
    let v = deserialize(&input[..]).unwrap();
    assert_eq!(v, Node(vec![leaf(b"foobar")]));
}

#[test]
fn parse_node_with_leaves() {
    let input = b"(6:foobar3:qux4:quux)";
    let v = deserialize(&input[..]).unwrap();
    assert_eq!(v, Node(vec![leaf(b"foobar"), leaf(b"qux"), leaf(b"quux")]));
}

#[test]
fn parse_complex_node() {
    let input = b"(6:foobar(3:qux4:quux)(2:xy))";
    let v = deserialize(&input[..]).unwrap();
    assert_eq!(
        v,
        Node(vec![
            leaf(b"foobar"),
            Node(vec![leaf(b"qux"), leaf(b"quux")]),
            Node(vec![leaf(b"xy")])
        ])
    );
}

#[test]
fn parse_node_start_with_subnode() {
    let input = b"((3:foo3:bar)3:qux(4:quux))";
    let v = deserialize(&input[..]).unwrap();
    assert_eq!(
        v,
        Node(vec![
            Node(vec![leaf(b"foo"), leaf(b"bar")]),
            leaf(b"qux"),
            Node(vec![leaf(b"quux")]),
        ])
    );
}

#[test]
fn serialize_leaf() {
    let mut output: Vec<u8> = Vec::new();
    serialize(&leaf(b"foobar"), &mut output);
    assert_eq!(output, b"6:foobar".to_vec());
}

#[test]
fn serialize_node() {
    let mut output: Vec<u8> = Vec::new();
    serialize(&Node(vec![]), &mut output);
    assert_eq!(output, b"()".to_vec());
}

#[test]
fn serialize_node_with_children() {
    let mut output: Vec<u8> = Vec::new();
    serialize(
        &Node(vec![leaf(b"foobar"), Node(vec![leaf(b"comment"), leaf(b"qux")])]),
        &mut output,
    );
    assert_eq!(output, b"(6:foobar(7:comment3:qux))".to_vec());
}

#[test]
fn serialize_empty_leaf() {
    let mut output: Vec<u8> = Vec::new();
    serialize(&leaf(b""), &mut output);
    assert_eq!(output, b"0:".to_vec());
}

#[test]
fn parse_empty_node() {
    let v = deserialize(&b"()"[..]).unwrap();
    assert_eq!(v, Node(vec![]));
}

#[test]
fn parse_empty_leaf() {
    let v = deserialize(&b"0:"[..]).unwrap();
    assert_eq!(v, leaf(b""));
}

#[test]
fn leaf_length_exact() {
    assert_eq!(deserialize(&b"3:abc"[..]).unwrap(), leaf(b"abc"));
    assert_eq!(deserialize(&b"3:ab"[..]), Err(ParseError::TruncatedInput));
}

#[test]
fn length_overflow_is_malformed() {
    let input = b"99999999999999999999999999:x";
    assert_eq!(deserialize(&input[..]), Err(ParseError::MalformedLength));
}

#[test]
fn missing_separator_is_malformed() {
    assert_eq!(deserialize(&b"123abc"[..]), Err(ParseError::MalformedToken));
    assert_eq!(deserialize(&b"42"[..]), Err(ParseError::MalformedToken));
}

#[test]
fn missing_close_is_unterminated() {
    assert_eq!(deserialize(&b"(3:abc"[..]), Err(ParseError::UnterminatedNode));
    assert_eq!(deserialize(&b"("[..]), Err(ParseError::UnterminatedNode));
}

#[test]
fn bad_start_is_no_match() {
    assert_eq!(deserialize(&b""[..]), Err(ParseError::NoMatch));
    assert_eq!(deserialize(&b")"[..]), Err(ParseError::NoMatch));
    assert_eq!(deserialize(&b"x3:abc"[..]), Err(ParseError::NoMatch));
}

#[test]
fn round_trip_parse_of_serialize() {
    let tree = Node(vec![
        leaf(b"private-key"),
        Node(vec![leaf(b"comment"), leaf(b"")]),
        Node(vec![Node(vec![]), leaf(b"x")]),
    ]);
    let mut bytes: Vec<u8> = Vec::new();
    serialize(&tree, &mut bytes);
    assert_eq!(deserialize(&bytes).unwrap(), tree);
}

#[test]
fn round_trip_serialize_of_parse() {
    let input = b"(6:foobar(3:qux4:quux)(2:xy)0:)";
    let tree = deserialize(&input[..]).unwrap();
    let mut bytes: Vec<u8> = Vec::new();
    serialize(&tree, &mut bytes);
    assert_eq!(bytes, input.to_vec());
}

#[test]
fn leading_zero_length_is_accepted_but_not_canonical() {
    let tree = deserialize(&b"03:abc"[..]).unwrap();
    assert_eq!(tree, leaf(b"abc"));
    let mut bytes: Vec<u8> = Vec::new();
    serialize(&tree, &mut bytes);
    assert_eq!(bytes, b"3:abc".to_vec());
}

#[test]
fn trailing_bytes_are_ignored() {
    let v = deserialize(&b"(2:ab)3:cde"[..]).unwrap();
    assert_eq!(v, Node(vec![leaf(b"ab")]));
}
