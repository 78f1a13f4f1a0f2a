use autocomplete_trie::memory::{starts_with, AutoCompleteMemory};
use autocomplete_trie::trie::Trie;

fn vocabulary() -> Trie {
    let mut trie = Trie::new();
    for word in ["car", "card", "cards", "cat", "trie", "try", "trying"] {
        trie.add_word(String::from(word));
    }
    trie
}

#[test]
fn new_memory_is_empty() {
    let memory = AutoCompleteMemory::new();
    assert_eq!(memory.get_word(), "");
    assert!(memory.get_node_ids().is_empty());
}

#[test]
fn from_string_keeps_the_query() {
    let memory = AutoCompleteMemory::from_string(String::from("tr"));
    assert_eq!(memory.get_word(), "tr");
    assert!(memory.get_node_ids().is_empty());
}

#[test]
fn push_and_reset_node_ids() {
    let mut memory = AutoCompleteMemory::from_string(String::from("abc"));
    memory.push_node_id(1);
    memory.push_node_id(5);
    assert_eq!(memory.get_node_ids(), &vec![1, 5]);
    assert_eq!(memory.get_word(), "abc");
    memory.reset_node_ids();
    assert!(memory.get_node_ids().is_empty());
    assert_eq!(memory.get_word(), "abc");
}

#[test]
fn update_keeps_the_cache_for_a_longer_query() {
    let mut memory = AutoCompleteMemory::from_string(String::from("tr"));
    memory.push_node_id(7);
    memory.push_node_id(8);
    memory.update(String::from("try"));
    assert_eq!(memory.get_word(), "try");
    assert_eq!(memory.get_node_ids(), &vec![7, 8]);
    memory.update(String::from("try"));
    assert_eq!(memory.get_node_ids(), &vec![7, 8]);
}

#[test]
fn update_drops_the_cache_for_another_query() {
    let mut memory = AutoCompleteMemory::from_string(String::from("tr"));
    memory.push_node_id(7);
    memory.push_node_id(8);
    memory.update(String::from("t"));
    assert_eq!(memory.get_word(), "t");
    assert!(memory.get_node_ids().is_empty());

    let mut other = AutoCompleteMemory::from_string(String::from("ca"));
    other.push_node_id(1);
    other.update(String::from("tr"));
    assert!(other.get_node_ids().is_empty());
}

#[test]
fn update_asks_for_the_old_query_at_the_start() {
    // "try" holds "ry", but does not begin with it: the walk cached for "ry"
    // says nothing about "try".
    let mut memory = AutoCompleteMemory::from_string(String::from("ry"));
    memory.push_node_id(3);
    memory.update(String::from("try"));
    assert_eq!(memory.get_word(), "try");
    assert!(memory.get_node_ids().is_empty());
}

#[test]
fn update_and_reset_always_drops_the_cache() {
    let mut memory = AutoCompleteMemory::from_string(String::from("tr"));
    memory.push_node_id(7);
    memory.update_and_reset(String::from("try"));
    assert_eq!(memory.get_word(), "try");
    assert!(memory.get_node_ids().is_empty());
}

#[test]
fn starts_with_compares_characters() {
    assert!(starts_with("trying", "try"));
    assert!(starts_with("try", "try"));
    assert!(starts_with("try", ""));
    assert!(starts_with("", ""));
    assert!(!starts_with("tr", "try"));
    assert!(!starts_with("try", "ry"));
    assert!(!starts_with("", "a"));
    assert!(starts_with("\u{e9}t\u{e9}", "\u{e9}t"));
    assert!(!starts_with("\u{e9}t\u{e9}", "et"));
}

#[test]
fn search_fills_the_cache() {
    let trie = vocabulary();
    let mut memory = AutoCompleteMemory::from_string(String::from("tr"));
    assert_eq!(trie.get_suggested_words(&mut memory, 5), vec!["trie", "try", "trying"]);
    assert_eq!(memory.get_node_ids(), &vec![7, 8]);
    assert_eq!(memory.get_word(), "tr");
}

#[test]
fn resumed_search_equals_cold_search() {
    let trie = vocabulary();
    let mut memory = AutoCompleteMemory::from_string(String::from("tr"));
    trie.get_suggested_words(&mut memory, 5);
    memory.update(String::from("try"));
    assert_eq!(memory.get_node_ids(), &vec![7, 8]);
    let resumed = trie.get_suggested_words(&mut memory, 5);

    let mut cold = AutoCompleteMemory::from_string(String::from("try"));
    let from_root = trie.get_suggested_words(&mut cold, 5);

    assert_eq!(resumed, from_root);
    assert_eq!(resumed, vec!["try", "trying"]);
    assert_eq!(memory.get_node_ids(), cold.get_node_ids());
    assert_eq!(memory.get_node_ids(), &vec![7, 8, 11]);
}

#[test]
fn typing_letter_by_letter() {
    let trie = vocabulary();
    let mut memory = AutoCompleteMemory::new();
    let mut typed = String::new();
    for letter in "trying".chars() {
        typed.push(letter);
        memory.update(typed.clone());
        let resumed = trie.get_suggested_words(&mut memory, 3);
        let mut cold = AutoCompleteMemory::from_string(typed.clone());
        assert_eq!(resumed, trie.get_suggested_words(&mut cold, 3));
        assert_eq!(memory.get_node_ids(), cold.get_node_ids());
    }
    assert_eq!(memory.get_node_ids(), &vec![7, 8, 11, 12, 13, 14]);
}

#[test]
fn search_twice_with_one_memory() {
    let trie = vocabulary();
    let mut memory = AutoCompleteMemory::from_string(String::from("car"));
    let first = trie.get_suggested_words(&mut memory, 2);
    let second = trie.get_suggested_words(&mut memory, 2);
    assert_eq!(first, vec!["car", "card"]);
    assert_eq!(first, second);
    assert_eq!(memory.get_node_ids(), &vec![1, 2, 3]);
}

#[test]
fn deleting_a_letter_restarts_at_the_root() {
    let trie = vocabulary();
    let mut memory = AutoCompleteMemory::from_string(String::from("try"));
    trie.get_suggested_words(&mut memory, 5);
    memory.update_and_reset(String::from("tr"));
    assert_eq!(trie.get_suggested_words(&mut memory, 5), vec!["trie", "try", "trying"]);
    assert_eq!(memory.get_node_ids(), &vec![7, 8]);
}

#[test]
fn cache_survives_insertions() {
    let mut trie = vocabulary();
    let mut memory = AutoCompleteMemory::from_string(String::from("tri"));
    assert_eq!(trie.get_suggested_words(&mut memory, 5), vec!["trie"]);
    assert_eq!(memory.get_node_ids(), &vec![7, 8, 9]);
    trie.add_word(String::from("trial"));
    trie.add_word(String::from("zoo"));
    memory.update(String::from("tria"));
    let resumed = trie.get_suggested_words(&mut memory, 5);
    let mut cold = AutoCompleteMemory::from_string(String::from("tria"));
    assert_eq!(resumed, trie.get_suggested_words(&mut cold, 5));
    assert_eq!(resumed, vec!["trial"]);
    assert_eq!(memory.get_node_ids(), cold.get_node_ids());
}
