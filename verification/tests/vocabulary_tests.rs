use autocomplete_trie::memory::AutoCompleteMemory;
use autocomplete_trie::trie::Trie;

const WORDS: [&str; 12] =
    ["car", "card", "cards", "cat", "trie", "try", "trying", "tr", "do", "dog", "a", "car"];

fn trie_of(words: &[&str]) -> Trie {
    let mut trie = Trie::new();
    for word in words {
        trie.add_word(String::from(*word));
    }
    trie
}

fn search(trie: &Trie, query: &str, amount: i32) -> Vec<String> {
    let mut memory = AutoCompleteMemory::from_string(String::from(query));
    trie.get_suggested_words(&mut memory, amount)
}

#[test]
fn suggestions_begin_with_the_query() {
    let trie = trie_of(&WORDS);
    for query in ["", "c", "ca", "car", "card", "t", "tr", "tri", "try", "d", "do", "dog", "a"] {
        for word in search(&trie, query, -1) {
            assert!(word.starts_with(query));
        }
    }
}

#[test]
fn suggestions_begin_with_the_matched_part() {
    let trie = trie_of(&WORDS);
    assert_eq!(trie.walk_word("cax").0, 2);
    for word in search(&trie, "cax", -1) {
        assert!(word.starts_with("ca"));
    }
    assert_eq!(trie.walk_word("dogs").0, 3);
    assert_eq!(search(&trie, "dogs", -1), vec!["dog"]);
}

#[test]
fn suggestions_were_inserted() {
    let trie = trie_of(&WORDS);
    for query in ["", "c", "t", "x", "do"] {
        for word in search(&trie, query, -1) {
            assert!(WORDS.contains(&word.as_str()));
        }
    }
}

#[test]
fn no_word_is_suggested_twice() {
    let trie = trie_of(&WORDS);
    let all = search(&trie, "", -1);
    for (i, word) in all.iter().enumerate() {
        assert!(!all[..i].contains(word));
    }
    assert_eq!(all, vec!["car", "card", "cards", "cat", "trie", "try", "trying", "do", "dog", "a"]);
}

#[test]
fn search_without_limit_leaves_no_word_out() {
    let trie = trie_of(&WORDS);
    // "tr" came after "trie": its nodes were there, and it ends no word.
    let held = ["car", "card", "cards", "cat", "trie", "try", "trying", "do", "dog", "a"];
    for query in ["", "c", "ca", "car", "t", "tr", "d", "do", "dog", "a"] {
        let found = search(&trie, query, -1);
        for word in held {
            assert_eq!(found.contains(&String::from(word)), word.starts_with(query));
        }
    }
}

#[test]
fn limit_cuts_the_end_of_the_list() {
    let trie = trie_of(&WORDS);
    for query in ["", "c", "tr", "do", "zz"] {
        let all = search(&trie, query, -1);
        for amount in 0..12 {
            let some = search(&trie, query, amount);
            let expected = std::cmp::min(amount as usize, all.len());
            assert_eq!(some.len(), expected);
            assert_eq!(some[..], all[..expected]);
        }
    }
}

#[test]
fn words_are_never_lost() {
    let mut trie = Trie::new();
    let mut held: Vec<String> = Vec::new();
    for word in ["b", "ab", "abc", "a", "bcd", "bc", "abd"] {
        let known = trie.walk_word(word).0 == word.chars().count();
        trie.add_word(String::from(word));
        if !known {
            held.push(String::from(word));
        }
        let mut found = search(&trie, "", -1);
        found.sort();
        let mut expected = held.clone();
        expected.sort();
        assert_eq!(found, expected);
    }
    assert_eq!(held, vec!["b", "ab", "abc", "bcd", "abd"]);
}
