use calculator::lex::radix::{Cursor, Node};

#[test]
fn single_operator() {
    let mut tree: Node<u32> = Node::new();
    tree.insert("+", 1);
    let mut cursor = tree.cursor();

    assert_eq!(cursor.visit('+'), true);
    assert_eq!(cursor.visit('+'), false);
    assert_eq!(cursor.payload(), Some(1));
}

#[test]
fn composite_operator() {
    let mut tree: Node<u32> = Node::new();
    tree.insert("*", 1);
    tree.insert("**", 2);
    let mut cursor = tree.cursor();

    assert_eq!(cursor.visit('*'), true);
    assert_eq!(cursor.payload(), Some(1));
    assert_eq!(cursor.visit('*'), true);
    assert_eq!(cursor.visit('*'), false);
    assert_eq!(cursor.payload(), Some(2));
}

#[test]
fn unknown_symbol() {
    let mut tree: Node<u32> = Node::new();
    tree.insert("+", 1);
    let mut cursor = tree.cursor();

    assert_eq!(cursor.visit('-'), false);
    assert_eq!(cursor.payload(), None);
}

#[test]
fn separate_operator_from_rest() {
    let mut tree: Node<u32> = Node::new();
    tree.insert("+", 1);
    let mut cursor = tree.cursor();
    assert!(cursor.visit('+'));
    assert!(!cursor.visit('1'));
    assert_eq!(cursor.payload(), Some(1));
}

#[test]
fn insert_replaces_the_payload_of_a_key() {
    let mut tree: Node<u32> = Node::new();
    tree.insert("ab", 1);
    tree.insert("ab", 2);
    let mut cursor = Cursor::new(&tree);
    assert!(cursor.visit('a'));
    assert_eq!(cursor.payload(), None);
    assert!(cursor.visit('b'));
    assert_eq!(cursor.payload(), Some(2));
}

#[test]
fn empty_key_sits_at_the_root() {
    let mut tree: Node<u32> = Node::new();
    assert_eq!(tree.cursor().payload(), None);
    tree.insert("", 9);
    assert_eq!(tree.cursor().payload(), Some(9));
    let mut cursor = tree.cursor();
    assert!(!cursor.visit('x'));
    assert_eq!(cursor.payload(), Some(9));
}

#[test]
fn keys_that_share_a_prefix_stay_apart() {
    let mut tree: Node<char> = Node::new();
    tree.insert("<", 'a');
    tree.insert("<=", 'b');
    tree.insert("<<", 'c');
    tree.insert(">", 'd');
    let mut cursor = tree.cursor();
    assert!(cursor.visit('<'));
    assert_eq!(cursor.payload(), Some('a'));
    let mut shifted = tree.cursor();
    assert!(shifted.visit('<'));
    assert!(shifted.visit('<'));
    assert_eq!(shifted.payload(), Some('c'));
    assert!(cursor.visit('='));
    assert_eq!(cursor.payload(), Some('b'));
    assert!(!cursor.visit('='));
    let mut other = tree.cursor();
    assert!(other.visit('>'));
    assert_eq!(other.payload(), Some('d'));
}

#[test]
fn non_ascii_keys_are_spelled_by_characters() {
    let mut tree: Node<u32> = Node::new();
    tree.insert("\u{d7}\u{d7}", 3);
    let mut cursor = tree.cursor();
    assert!(cursor.visit('\u{d7}'));
    assert_eq!(cursor.payload(), None);
    assert!(cursor.visit('\u{d7}'));
    assert_eq!(cursor.payload(), Some(3));
}
