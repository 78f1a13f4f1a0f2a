use autocomplete_trie::csv_reader::{extract_from_csv_text, split_fields, split_lines, SourceError};
use autocomplete_trie::memory::AutoCompleteMemory;
use autocomplete_trie::{create_trie_from_csv_file_text, create_trie_from_words, BuildError};

fn extract(text: &str, column: &str) -> Result<Vec<String>, SourceError> {
    extract_from_csv_text(String::from(text), String::from(column))
}

#[test]
fn fields_are_split_at_commas() {
    assert_eq!(split_fields("a,b,c"), vec!["a", "b", "c"]);
    assert_eq!(split_fields("word"), vec!["word"]);
    assert_eq!(split_fields(""), vec![""]);
    assert_eq!(split_fields(","), vec!["", ""]);
    assert_eq!(split_fields("a,,b,"), vec!["a", "", "b", ""]);
    assert_eq!(split_fields("\u{e9}t\u{e9},x"), vec!["\u{e9}t\u{e9}", "x"]);
}

#[test]
fn lines_end_at_line_feeds() {
    assert_eq!(split_lines("a\nb\nc"), vec!["a", "b", "c"]);
    assert_eq!(split_lines("a\nb\n"), vec!["a", "b"]);
    assert_eq!(split_lines("a\n\nb"), vec!["a", "", "b"]);
    assert_eq!(split_lines("\n"), vec![""]);
    assert!(split_lines("").is_empty());
    assert_eq!(split_lines("one line"), vec!["one line"]);
}

#[test]
fn carriage_return_before_line_feed_is_dropped() {
    assert_eq!(split_lines("a\r\nb\r\n"), vec!["a", "b"]);
    assert_eq!(split_lines("a\r\nb"), vec!["a", "b"]);
    assert_eq!(split_lines("a\rb\n"), vec!["a\rb"]);
    assert_eq!(split_lines("a\r"), vec!["a\r"]);
    assert_eq!(split_lines("a\r\r\n"), vec!["a\r"]);
    assert_eq!(split_lines("\r\n"), vec![""]);
    assert_eq!(split_lines("\r"), vec!["\r"]);
}

#[test]
fn lines_agree_with_the_standard_library() {
    for text in ["", "a", "a\n", "a\r\n", "\r\r\n\n\r", "x,y\r\n1,2\n3,4\r", "\n\n", "a\n\rb\n\r\n"] {
        let expected: Vec<String> = text.lines().map(String::from).collect();
        assert_eq!(split_lines(text), expected);
    }
}

#[test]
fn column_is_taken_by_name() {
    let text = "word,count\ncar,10\ncard,7\ncat,3\n";
    assert_eq!(extract(text, "word"), Ok(vec![String::from("car"), String::from("card"), String::from("cat")]));
    assert_eq!(extract(text, "count"), Ok(vec![String::from("10"), String::from("7"), String::from("3")]));
}

#[test]
fn header_alone_gives_no_word() {
    assert_eq!(extract("word,count\n", "word"), Ok(Vec::new()));
    assert_eq!(extract("word", "word"), Ok(Vec::new()));
}

#[test]
fn last_column_of_a_name_counts() {
    let text = "word,other,word\na,b,c\nd,e,f";
    assert_eq!(extract(text, "word"), Ok(vec![String::from("c"), String::from("f")]));
}

#[test]
fn rows_may_have_more_fields_than_the_header() {
    let text = "word\na,b\nc";
    assert_eq!(extract(text, "word"), Ok(vec![String::from("a"), String::from("c")]));
}

#[test]
fn empty_text_has_no_header() {
    assert_eq!(extract("", "word"), Err(SourceError::NoHeader));
}

#[test]
fn unknown_column_is_missing() {
    assert_eq!(extract("word,count\ncar,10\n", "rank"), Err(SourceError::MissingColumn));
    assert_eq!(extract("word,count\n", "rank"), Err(SourceError::MissingColumn));
    assert_eq!(extract("word,count\ncar,10\n", "Word"), Err(SourceError::MissingColumn));
    assert_eq!(extract("\nword\ncar\n", "word"), Err(SourceError::MissingColumn));
}

#[test]
fn row_without_the_column_is_short() {
    assert_eq!(extract("word,count\ncar,10\ncard\n", "count"), Err(SourceError::ShortRow));
    assert_eq!(extract("a,b\n\n", "b"), Err(SourceError::ShortRow));
    assert_eq!(extract("a,b\n\n", "a"), Ok(vec![String::new()]));
}

#[test]
fn windows_line_endings() {
    let text = "word,count\r\ncar,10\r\ncat,3\r\n";
    assert_eq!(extract(text, "count"), Ok(vec![String::from("10"), String::from("3")]));
}

#[test]
fn trie_from_table() {
    let text = "rank,word\n1,car\n2,card\n3,cards\n4,cat\n5,trie\n6,try\n7,trying\n";
    let trie = match create_trie_from_csv_file_text(String::from(text), String::from("word")) {
        Ok(trie) => trie,
        Err(error) => panic!("no trie: {:?}", error),
    };
    assert_eq!(trie.get_size(), 14);
    let mut memory = AutoCompleteMemory::from_string(String::from("tr"));
    assert_eq!(trie.get_suggested_words(&mut memory, 5), vec!["trie", "try", "trying"]);
}

#[test]
fn trie_from_table_passes_source_errors_on() {
    let missing = create_trie_from_csv_file_text(String::from("a,b\n1,2\n"), String::from("word"));
    assert!(matches!(missing, Err(BuildError::Source(SourceError::MissingColumn))));
    let empty = create_trie_from_csv_file_text(String::new(), String::from("word"));
    assert!(matches!(empty, Err(BuildError::Source(SourceError::NoHeader))));
    let short = create_trie_from_csv_file_text(String::from("a,word\n1\n"), String::from("word"));
    assert!(matches!(short, Err(BuildError::Source(SourceError::ShortRow))));
}

#[test]
fn trie_from_header_alone_is_empty() {
    let trie = match create_trie_from_csv_file_text(String::from("word\n"), String::from("word")) {
        Ok(trie) => trie,
        Err(error) => panic!("no trie: {:?}", error),
    };
    assert_eq!(trie.get_size(), 0);
}

#[test]
fn trie_from_words() {
    let words = ["car", "card", "cards", "cat", "trie", "try", "trying"];
    let trie = match create_trie_from_words(words.iter().map(|word| String::from(*word)).collect()) {
        Some(trie) => trie,
        None => panic!("seven words fit"),
    };
    assert_eq!(trie.get_size(), 14);
    let mut memory = AutoCompleteMemory::from_string(String::from("car"));
    assert_eq!(trie.get_suggested_words(&mut memory, 2), vec!["car", "card"]);
    let none = match create_trie_from_words(Vec::new()) {
        Some(trie) => trie,
        None => panic!("no word fits"),
    };
    assert_eq!(none.get_size(), 0);
}

#[test]
fn trie_from_table_with_windows_line_endings() {
    let text = "word,count\r\ncar,10\r\ncart,3\r\n";
    let trie = match create_trie_from_csv_file_text(String::from(text), String::from("word")) {
        Ok(trie) => trie,
        Err(error) => panic!("no trie: {:?}", error),
    };
    assert_eq!(trie.get_size(), 4);
    let mut memory = AutoCompleteMemory::from_string(String::from("ca"));
    assert_eq!(trie.get_suggested_words(&mut memory, 5), vec!["car", "cart"]);
}
