use gpg_keytag::{get_comment, upsert_comment, TokenTree};
use gpg_keytag::TokenTree::{Leaf, Node};

fn leaf(bytes: &[u8]) -> TokenTree {
    Leaf(bytes.to_vec())
}

#[test]
fn get_comment_exist() {
    let tree = Node(vec![
        leaf(b"private-key"),
        Node(vec![leaf(b"notcomment"), leaf(b"foobar")]),
        leaf(b"somevalue"),
        Node(vec![leaf(b"comment"), leaf(b"foobar")]),
    ]);
    assert_eq!(get_comment(&tree), Some(String::from("foobar")));
}

#[test]
fn get_comment_missing_value() {
    let tree = Node(vec![leaf(b"private-key"), Node(vec![leaf(b"comment")])]);
    assert_eq!(get_comment(&tree), None);
}

#[test]
fn get_comment_missing() {
    let tree = Node(vec![
        leaf(b"private-key"),
        Node(vec![leaf(b"notcomment"), leaf(b"foobar")]),
    ]);
    assert_eq!(get_comment(&tree), None);
}

#[test]
fn get_comment_leaf() {
    let tree = leaf(b"qux");
    assert_eq!(get_comment(&tree), None);
}

#[test]
fn get_comment_skips_first_child() {
    let tree = Node(vec![Node(vec![leaf(b"comment"), leaf(b"hidden")])]);
    assert_eq!(get_comment(&tree), None);
}

#[test]
fn get_comment_decodes_lossily() {
    let tree = Node(vec![
        leaf(b"private-key"),
        Node(vec![leaf(b"comment"), Leaf(vec![0xff, b'f'])]),
    ]);
    assert_eq!(get_comment(&tree), Some(String::from("\u{fffd}f")));
}

#[test]
fn upsert_comment_insert() {
    let mut tree = Node(vec![
        leaf(b"private-key"),
        Node(vec![leaf(b"notcomment")]),
        leaf(b"otherthing"),
    ]);
    upsert_comment(&mut tree, b"foobar");
    assert_eq!(
        tree,
        Node(vec![
            leaf(b"private-key"),
            Node(vec![leaf(b"notcomment")]),
            leaf(b"otherthing"),
            Node(vec![leaf(b"comment"), leaf(b"foobar")]),
        ])
    );
}

#[test]
fn upsert_comment_update() {
    let mut tree = Node(vec![
        leaf(b"private-key"),
        Node(vec![leaf(b"comment"), leaf(b"quux")]),
        leaf(b"otherthing"),
    ]);
    upsert_comment(&mut tree, b"foobar");
    assert_eq!(
        tree,
        Node(vec![
            leaf(b"private-key"),
            Node(vec![leaf(b"comment"), leaf(b"foobar")]),
            leaf(b"otherthing"),
        ])
    );
}

#[test]
fn upsert_comment_replaces_first_child_too() {
    let mut tree = Node(vec![Node(vec![leaf(b"comment"), leaf(b"old"), leaf(b"extra")])]);
    upsert_comment(&mut tree, b"new");
    assert_eq!(tree, Node(vec![Node(vec![leaf(b"comment"), leaf(b"new")])]));
}

#[test]
fn upsert_comment_on_leaf_is_noop() {
    let mut tree = leaf(b"qux");
    upsert_comment(&mut tree, b"foobar");
    assert_eq!(tree, leaf(b"qux"));
}
