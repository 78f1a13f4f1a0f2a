use std::collections::HashMap;

use autocomplete_trie::trie::{Node, Trie, TrieNode};

fn plain(data: char, children: Vec<i32>) -> TrieNode {
    TrieNode::Incomplete { node: Node { data, children } }
}

fn ending(data: char, children: Vec<i32>, word: &str) -> TrieNode {
    TrieNode::Complete { node: Node { data, children }, word: String::from(word) }
}

/// The table of the trie that holds "ab" and "ac".
fn table() -> HashMap<i32, TrieNode> {
    let mut data = HashMap::new();
    data.insert(0, plain(' ', vec![1]));
    data.insert(1, plain('a', vec![2, 3]));
    data.insert(2, ending('b', vec![], "ab"));
    data.insert(3, ending('c', vec![], "ac"));
    data
}

#[test]
fn table_of_a_trie_is_taken() {
    let trie = match Trie::from_parts(table(), 3) {
        Some(trie) => trie,
        None => panic!("the table holds a trie"),
    };
    assert_eq!(trie.get_size(), 3);
    assert_eq!(trie.check_for_character(1, 'c'), 3);
}

#[test]
fn root_alone_is_a_trie() {
    let mut data = HashMap::new();
    data.insert(0, plain(' ', vec![]));
    assert!(Trie::from_parts(data, 0).is_some());
}

#[test]
fn size_must_count_the_nodes() {
    assert!(Trie::from_parts(table(), 2).is_none());
    assert!(Trie::from_parts(table(), 4).is_none());
    assert!(Trie::from_parts(table(), -1).is_none());
    assert!(Trie::from_parts(HashMap::new(), 0).is_none());
}

#[test]
fn keys_must_be_the_identities() {
    let mut data = table();
    let node = data.remove(&3).unwrap();
    data.insert(7, node);
    assert!(Trie::from_parts(data, 3).is_none());
}

#[test]
fn root_must_be_the_sentinel() {
    let mut data = table();
    data.insert(0, plain('x', vec![1]));
    assert!(Trie::from_parts(data, 3).is_none());
    let mut data = table();
    data.insert(0, ending(' ', vec![1], ""));
    assert!(Trie::from_parts(data, 3).is_none());
}

#[test]
fn links_must_lead_upwards() {
    let mut data = table();
    data.insert(2, ending('b', vec![1], "ab"));
    assert!(Trie::from_parts(data, 3).is_none());
    let mut data = table();
    data.insert(1, plain('a', vec![2, 3, 9]));
    assert!(Trie::from_parts(data, 3).is_none());
    let mut data = table();
    data.insert(1, plain('a', vec![2, 3, 1]));
    assert!(Trie::from_parts(data, 3).is_none());
}

#[test]
fn no_node_hangs_twice() {
    let mut data = table();
    data.insert(0, plain(' ', vec![1, 3]));
    assert!(Trie::from_parts(data, 3).is_none());
    let mut data = table();
    data.insert(1, plain('a', vec![2, 3, 3]));
    assert!(Trie::from_parts(data, 3).is_none());
}

#[test]
fn every_node_hangs_somewhere() {
    let mut data = table();
    data.insert(1, plain('a', vec![2]));
    assert!(Trie::from_parts(data, 3).is_none());
}

#[test]
fn siblings_hold_different_characters() {
    let mut data = table();
    data.insert(3, ending('b', vec![], "ab"));
    assert!(Trie::from_parts(data, 3).is_none());
}

#[test]
fn word_must_be_what_the_path_spells() {
    let mut data = table();
    data.insert(3, ending('c', vec![], "ab"));
    assert!(Trie::from_parts(data, 3).is_none());
    let mut data = table();
    data.insert(3, ending('c', vec![], "acd"));
    assert!(Trie::from_parts(data, 3).is_none());
    let mut data = table();
    data.insert(3, ending('c', vec![], "a"));
    assert!(Trie::from_parts(data, 3).is_none());
    let mut data = table();
    data.insert(3, ending('c', vec![], ""));
    assert!(Trie::from_parts(data, 3).is_none());
    let mut data = table();
    data.insert(1, ending('a', vec![2, 3], "a"));
    assert!(Trie::from_parts(data, 3).is_some());
}

#[test]
fn every_branch_ends_with_a_word() {
    let mut data = table();
    data.insert(3, plain('c', vec![]));
    assert!(Trie::from_parts(data, 3).is_none());
}
