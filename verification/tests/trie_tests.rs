use data_structures::trie::Trie;

fn example_trie() -> Trie {
    let mut trie = Trie::new();
    trie.insert("hello");
    trie.insert("hey");
    trie.insert("how");
    trie
}

#[test]
fn search_finds_whole_words_only() {
    let trie = example_trie();
    assert!(trie.search("hello"));
    assert!(trie.search("hey"));
    assert!(trie.search("how"));
    assert!(!trie.search("he"));
    assert!(!trie.search("hellos"));
    assert!(!trie.search(""));
}

#[test]
fn starts_with_finds_prefixes() {
    let trie = example_trie();
    assert!(trie.starts_with("he"));
    assert!(trie.starts_with("hello"));
    assert!(trie.starts_with(""));
    assert!(!trie.starts_with("ha"));
}

#[test]
fn delete_removes_exactly_one_word() {
    let mut trie = example_trie();
    trie.delete("hello");
    assert!(!trie.search("hello"));
    assert!(trie.search("hey"));
    assert!(trie.search("how"));
    assert!(!trie.search("he"));
}

#[test]
fn delete_prunes_unused_paths() {
    let mut trie = example_trie();
    trie.delete("hello");
    assert!(!trie.starts_with("hel"));
    assert!(trie.starts_with("he"));
}

#[test]
fn delete_keeps_prefix_words() {
    let mut trie = Trie::new();
    trie.insert("hel");
    trie.insert("hello");
    trie.delete("hello");
    assert!(trie.search("hel"));
    assert!(!trie.search("hello"));
}

#[test]
fn delete_of_absent_word_changes_nothing() {
    let mut trie = example_trie();
    trie.delete("he");
    trie.delete("horse");
    assert!(trie.search("hello"));
    assert!(trie.search("hey"));
    assert!(trie.search("how"));
    assert_eq!(trie.count_words(), 3);
}

#[test]
fn count_words_counts_end_marks() {
    let mut trie = example_trie();
    assert_eq!(trie.count_words(), 3);
    trie.delete("hello");
    assert_eq!(trie.count_words(), 2);
    trie.insert("hey");
    assert_eq!(trie.count_words(), 2);
}

#[test]
fn list_words_in_trie_order() {
    let mut trie = example_trie();
    trie.delete("hello");
    assert_eq!(trie.list_words(), vec!["hey".to_string(), "how".to_string()]);
}

#[test]
fn list_words_puts_short_words_first() {
    let mut trie = Trie::new();
    trie.insert("ab");
    trie.insert("a");
    assert_eq!(trie.list_words(), vec!["a".to_string(), "ab".to_string()]);
}

#[test]
fn empty_word_is_a_word() {
    let mut trie = Trie::new();
    trie.insert("");
    assert!(trie.search(""));
    assert_eq!(trie.count_words(), 1);
    assert!(trie.is_empty());
    trie.delete("");
    assert!(!trie.search(""));
}

#[test]
fn clear_and_is_empty() {
    let mut trie = example_trie();
    assert!(!trie.is_empty());
    trie.clear();
    assert!(trie.is_empty());
    assert!(!trie.search("hello"));
    assert_eq!(trie.count_words(), 0);
    assert!(trie.list_words().is_empty());
}
