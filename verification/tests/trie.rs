use basecode_lsp::trie::Trie;

fn trie_contains(trie: &Trie, word: &str) -> bool {
    trie.suggest_completions(word).iter().any(|w| w == word)
}

#[test]
fn test_insert_and_contains() {
    let mut trie = Trie::new();

    trie.insert("apple");
    trie.insert("application");
    trie.insert("banana");

    assert!(trie_contains(&trie, "apple"));
    assert!(trie_contains(&trie, "application"));
    assert!(trie_contains(&trie, "banana"));
    assert!(!trie_contains(&trie, "app"));
    assert!(!trie_contains(&trie, "ape"));
}

#[test]
fn test_remove() {
    let mut trie = Trie::new();

    trie.insert("apple");
    trie.insert("application");
    trie.insert("banana");

    assert!(trie_contains(&trie, "apple"));
    trie.remove("apple");
    assert!(!trie_contains(&trie, "apple"));

    assert!(trie_contains(&trie, "application"));
    assert!(trie_contains(&trie, "banana"));
}

#[test]
fn test_suggest_completions() {
    let mut trie = Trie::new();

    trie.insert("apple");
    trie.insert("application");
    trie.insert("banana");
    trie.insert("bat");
    trie.insert("bear");

    let mut completions = trie.suggest_completions("ap");
    completions.sort();
    assert_eq!(completions, vec!["apple", "application"]);

    let mut completions = trie.suggest_completions("ba");
    completions.sort();
    assert_eq!(completions, vec!["banana", "bat"]);

    let mut completions = trie.suggest_completions("b");
    completions.sort();
    assert_eq!(completions, vec!["banana", "bat", "bear"]);

    let completions = trie.suggest_completions("nonexistent");
    assert_eq!(completions, Vec::<String>::new());
}

#[test]
fn test_remove_nonexistent() {
    let mut trie = Trie::new();

    trie.insert("apple");
    trie.remove("nonexistent");
    assert!(trie_contains(&trie, "apple"));
}

#[test]
fn test_remove_multiple() {
    let mut trie = Trie::new();

    trie.insert("apple");
    trie.insert("apple");
    assert!(trie_contains(&trie, "apple"));

    trie.remove("apple");
    assert!(trie_contains(&trie, "apple"));
    trie.remove("apple");
    assert!(!trie_contains(&trie, "apple"));
}

#[test]
fn test_suggest_after_remove_scenario() {
    let mut trie = Trie::new();

    trie.insert("application");
    trie.insert("apple");
    trie.insert("banana");
    trie.insert("bat");
    trie.insert("bear");

    trie.remove("apple");
    let mut completions = trie.suggest_completions("ap");
    completions.sort();
    assert_eq!(completions, vec!["application"]);
}

#[test]
fn test_suggest_membership_follows_prefix() {
    let mut trie = Trie::new();
    trie.insert("window");

    // the inserted word is suggested exactly for its own prefixes
    assert!(trie.suggest_completions("").contains(&"window".to_string()));
    assert!(trie.suggest_completions("win").contains(&"window".to_string()));
    assert!(trie.suggest_completions("window").contains(&"window".to_string()));
    assert!(!trie.suggest_completions("wind0").contains(&"window".to_string()));
    assert!(!trie.suggest_completions("x").contains(&"window".to_string()));
}

#[test]
fn test_remove_unknown_keeps_all_suggestions() {
    let mut trie = Trie::new();
    trie.insert("alpha");
    trie.insert("alps");

    let mut before = trie.suggest_completions("al");
    before.sort();
    trie.remove("never-inserted");
    let mut after = trie.suggest_completions("al");
    after.sort();
    assert_eq!(before, after);
}

#[test]
fn test_empty_prefix_lists_every_word() {
    let mut trie = Trie::new();
    trie.insert("one");
    trie.insert("two");

    let mut all = trie.suggest_completions("");
    all.sort();
    assert_eq!(all, vec!["one", "two"]);
}
