use autocomplete_trie::memory::AutoCompleteMemory;
use autocomplete_trie::trie::{contains_id, Node, Trie, TrieNode, INVALID};

fn vocabulary() -> Trie {
    let mut trie = Trie::new();
    for word in ["car", "card", "cards", "cat", "trie", "try", "trying"] {
        trie.add_word(String::from(word));
    }
    trie
}

fn search(trie: &Trie, query: &str, amount: i32) -> Vec<String> {
    let mut memory = AutoCompleteMemory::from_string(String::from(query));
    trie.get_suggested_words(&mut memory, amount)
}

#[test]
fn test_trie_input() {
    let mut trie = Trie::new();
    trie.add_word(String::from("car"));
    assert_eq!(trie.get_size(), 3);
    trie.add_word(String::from("card"));
    assert_eq!(trie.get_size(), 4);
    trie.add_word(String::from("cards"));
    assert_eq!(trie.get_size(), 5);
    trie.add_word(String::from("cat"));
    assert_eq!(trie.get_size(), 6);
    trie.add_word(String::from("trie"));
    assert_eq!(trie.get_size(), 10);
    trie.add_word(String::from("try"));
    assert_eq!(trie.get_size(), 11);
    trie.add_word(String::from("trying"));
    assert_eq!(trie.get_size(), 14);
}

#[test]
fn new_trie_is_the_root_alone() {
    let trie = Trie::new();
    assert_eq!(trie.get_size(), 0);
    let root = trie.get_trie_node(0);
    assert!(matches!(root, TrieNode::Incomplete { .. }));
    assert_eq!(root.get_node().data, ' ');
    assert!(root.get_node().get_children().is_empty());
}

#[test]
fn suggestions_come_in_insertion_order() {
    let trie = vocabulary();
    assert_eq!(trie.get_size(), 14);
    assert_eq!(search(&trie, "tr", 5), vec!["trie", "try", "trying"]);
    assert_eq!(search(&trie, "car", 5), vec!["car", "card", "cards"]);
    assert_eq!(search(&trie, "c", 5), vec!["car", "card", "cards", "cat"]);
    assert_eq!(search(&trie, "", 10), vec!["car", "card", "cards", "cat", "trie", "try", "trying"]);
}

#[test]
fn later_branches_come_after_earlier_ones() {
    let mut trie = Trie::new();
    for word in ["b", "a", "bc", "ab"] {
        trie.add_word(String::from(word));
    }
    assert_eq!(search(&trie, "", 10), vec!["b", "bc", "a", "ab"]);
}

#[test]
fn amount_cuts_the_list() {
    let trie = vocabulary();
    assert_eq!(search(&trie, "c", 2), vec!["car", "card"]);
    assert_eq!(search(&trie, "tr", 1), vec!["trie"]);
    assert_eq!(search(&trie, "tr", 3), vec!["trie", "try", "trying"]);
}

#[test]
fn amount_zero_gives_nothing() {
    let trie = vocabulary();
    for query in ["", "c", "car", "tr", "zzz", "trying"] {
        assert!(search(&trie, query, 0).is_empty());
    }
    assert!(search(&Trie::new(), "a", 0).is_empty());
}

#[test]
fn negative_amount_sets_no_limit() {
    let trie = vocabulary();
    assert_eq!(search(&trie, "c", -1), vec!["car", "card", "cards", "cat"]);
    assert_eq!(search(&trie, "", i32::MIN).len(), 7);
}

#[test]
fn search_stops_at_the_last_matching_node() {
    let trie = vocabulary();
    // No child of the root holds 'z': the search stands at the root.
    assert_eq!(search(&trie, "zzz", 5), vec!["car", "card", "cards", "cat", "trie"]);
    // "ca" matches, 'x' does not: the search stands at the node of "ca".
    assert_eq!(search(&trie, "cax", 5), vec!["car", "card", "cards", "cat"]);
    let mut memory = AutoCompleteMemory::from_string(String::from("cax"));
    trie.get_suggested_words(&mut memory, 5);
    assert_eq!(memory.get_node_ids(), &vec![1, 2]);
}

#[test]
fn empty_trie_suggests_nothing() {
    let trie = Trie::new();
    assert!(search(&trie, "zzz", 5).is_empty());
    assert!(search(&trie, "", 5).is_empty());
    assert!(search(&trie, "a", -1).is_empty());
}

#[test]
fn full_word_is_found_first() {
    let trie = vocabulary();
    for word in ["car", "card", "cards", "cat", "trie", "try", "trying"] {
        let found = search(&trie, word, 1);
        assert_eq!(found, vec![word]);
        assert!(search(&trie, word, 5).contains(&String::from(word)));
    }
}

#[test]
fn inserting_twice_adds_no_node() {
    let mut trie = Trie::new();
    trie.add_word(String::from("trying"));
    assert_eq!(trie.get_size(), 6);
    trie.add_word(String::from("trying"));
    assert_eq!(trie.get_size(), 6);
    assert_eq!(search(&trie, "", 5), vec!["trying"]);
}

#[test]
fn empty_word_changes_nothing() {
    let mut trie = vocabulary();
    trie.add_word(String::new());
    assert_eq!(trie.get_size(), 14);
    assert_eq!(search(&trie, "", 10).len(), 7);
}

#[test]
fn a_prefix_inserted_later_ends_no_word() {
    let mut trie = Trie::new();
    trie.add_word(String::from("card"));
    trie.add_word(String::from("car"));
    assert_eq!(trie.get_size(), 4);
    assert!(matches!(trie.get_trie_node(3), TrieNode::Incomplete { .. }));
    assert_eq!(search(&trie, "car", 5), vec!["card"]);
}

#[test]
fn last_character_decides_about_the_word() {
    let mut trie = Trie::new();
    trie.add_word(String::from("caf\u{e9}"));
    assert_eq!(trie.get_size(), 4);
    match trie.get_trie_node(4) {
        TrieNode::Complete { node, word } => {
            assert_eq!(node.data, '\u{e9}');
            assert_eq!(word, "caf\u{e9}");
        }
        TrieNode::Incomplete { .. } => panic!("the node of the last character ends the word"),
    }
    assert_eq!(search(&trie, "caf", 5), vec!["caf\u{e9}"]);
    assert_eq!(search(&trie, "caf\u{e9}", 5), vec!["caf\u{e9}"]);
}

#[test]
fn cache_counts_characters() {
    let mut trie = Trie::new();
    trie.add_word(String::from("\u{e9}t\u{e9}"));
    trie.add_word(String::from("\u{e9}tat"));
    let mut memory = AutoCompleteMemory::from_string(String::from("\u{e9}t"));
    assert_eq!(trie.get_suggested_words(&mut memory, 5), vec!["\u{e9}t\u{e9}", "\u{e9}tat"]);
    assert_eq!(memory.get_node_ids(), &vec![1, 2]);
    memory.update(String::from("\u{e9}ta"));
    assert_eq!(trie.get_suggested_words(&mut memory, 5), vec!["\u{e9}tat"]);
    assert_eq!(memory.get_node_ids(), &vec![1, 2, 4]);
}

#[test]
fn nodes_get_the_next_free_identity() {
    let mut trie = Trie::new();
    trie.add_word(String::from("ab"));
    trie.add_word(String::from("ac"));
    assert_eq!(trie.get_trie_node(0).get_node().get_children(), &vec![1]);
    assert_eq!(trie.get_trie_node(1).get_node().get_children(), &vec![2, 3]);
    assert_eq!(trie.get_trie_node(1).get_node().data, 'a');
    assert_eq!(trie.get_trie_node(2).get_node().data, 'b');
    assert_eq!(trie.get_trie_node(3).get_node().data, 'c');
    assert!(matches!(trie.get_trie_node(1), TrieNode::Incomplete { .. }));
    match trie.get_trie_node(3) {
        TrieNode::Complete { word, .. } => assert_eq!(word, "ac"),
        TrieNode::Incomplete { .. } => panic!("the node of \"ac\" ends a word"),
    }
}

#[test]
fn check_for_character_finds_the_child() {
    let trie = vocabulary();
    assert_eq!(trie.check_for_character(0, 'c'), 1);
    assert_eq!(trie.check_for_character(0, 't'), 7);
    assert_eq!(trie.check_for_character(0, 'z'), INVALID);
    assert_eq!(trie.check_for_character(1, 'a'), 2);
    assert_eq!(trie.check_for_character(2, 'r'), 3);
    assert_eq!(trie.check_for_character(2, 't'), 6);
    assert_eq!(trie.check_for_character(6, 'a'), INVALID);
    assert_eq!(INVALID, -1);
}

#[test]
fn node_starts_without_children() {
    let node = Node::new('x');
    assert_eq!(node.data, 'x');
    assert!(node.get_children().is_empty());
}

#[test]
fn add_child_appends() {
    let mut plain = TrieNode::Incomplete { node: Node::new('a') };
    plain.add_child(4);
    plain.add_child(2);
    assert_eq!(plain.get_node().get_children(), &vec![4, 2]);
    let mut ending = TrieNode::Complete { node: Node::new('b'), word: String::from("ab") };
    ending.add_child(9);
    assert_eq!(ending.get_node().get_children(), &vec![9]);
    assert_eq!(ending.get_node().data, 'b');
}

#[test]
fn contains_id_looks_through_the_list() {
    let ids = vec![3, 1, 4];
    assert!(contains_id(&ids, 1));
    assert!(contains_id(&ids, 4));
    assert!(!contains_id(&ids, 2));
    assert!(!contains_id(&Vec::new(), 0));
}

#[test]
fn room_is_there_for_ordinary_words() {
    let mut trie = vocabulary();
    assert!(trie.has_room_for(&String::from("tried")));
    assert!(trie.try_add_word(String::from("tried")));
    assert_eq!(trie.get_size(), 15);
    assert!(trie.try_add_word(String::from("tried")));
    assert_eq!(trie.get_size(), 15);
    assert_eq!(search(&trie, "tri", 5), vec!["trie", "tried"]);
}

#[test]
fn resuming_needs_a_cache_that_fits() {
    let trie = vocabulary();
    let mut memory = AutoCompleteMemory::from_string(String::from("tr"));
    assert!(trie.can_resume(&memory));
    memory.push_node_id(7);
    memory.push_node_id(8);
    assert!(trie.can_resume(&memory));
    memory.push_node_id(9);
    assert!(!trie.can_resume(&memory));
    let mut stray = AutoCompleteMemory::from_string(String::from("tr"));
    stray.push_node_id(15);
    assert!(!trie.can_resume(&stray));
    let mut negative = AutoCompleteMemory::from_string(String::from("tr"));
    negative.push_node_id(-1);
    assert!(!trie.can_resume(&negative));
}

#[test]
fn parts_make_the_trie_again() {
    let trie = vocabulary();
    let before: Vec<Vec<String>> =
        ["", "c", "car", "tr", "try", "zzz"].iter().map(|query| search(&trie, query, 5)).collect();
    let (data, size) = trie.into_parts();
    assert_eq!(size, 14);
    assert_eq!(data.len(), 15);
    let again = match Trie::from_parts(data, size) {
        Some(trie) => trie,
        None => panic!("the parts of a trie make a trie"),
    };
    assert_eq!(again.get_size(), 14);
    let after: Vec<Vec<String>> =
        ["", "c", "car", "tr", "try", "zzz"].iter().map(|query| search(&again, query, 5)).collect();
    assert_eq!(before, after);
}

#[test]
fn walk_word_counts_the_matching_characters() {
    let trie = vocabulary();
    assert_eq!(trie.walk_word("try"), (3, 11));
    assert_eq!(trie.walk_word("trx"), (2, 8));
    assert_eq!(trie.walk_word("zzz"), (0, 0));
    assert_eq!(trie.walk_word(""), (0, 0));
    assert_eq!(trie.walk_word("cards!"), (5, 5));
}

#[test]
fn size_is_the_number_of_nodes_below_the_root() {
    let mut trie = Trie::new();
    let mut sizes = Vec::new();
    for word in ["b", "ab", "abc", "b", "ba", "", "abd"] {
        trie.add_word(String::from(word));
        sizes.push(trie.get_size());
    }
    assert_eq!(sizes, vec![1, 3, 4, 4, 5, 5, 6]);
    let (data, size) = trie.into_parts();
    assert_eq!(data.len(), 7);
    assert_eq!(size, 6);
    for id in 0..=6 {
        assert!(data.contains_key(&id));
    }
}

#[test]
fn every_search_in_a_trie_with_words_finds_one() {
    let trie = vocabulary();
    for query in ["", "z", "zzz", "c", "cax", "trying", "tryingly", "\u{e9}"] {
        assert!(!search(&trie, query, 1).is_empty());
        assert!(!search(&trie, query, -3).is_empty());
    }
}
