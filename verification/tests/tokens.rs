use basecode_lsp::basecode_lsp::util::get_possible_current_word;
use basecode_lsp::basecode_lsp::util::get_word_prefix;
use basecode_lsp::basecode_lsp::util::is_token;
use basecode_lsp::basecode_lsp::util::line_at;
use basecode_lsp::basecode_lsp::util::process_token;
use basecode_lsp::basecode_lsp::util::valid_token_char;

#[test]
fn test_get_word_prefix() {
    let prefix = get_word_prefix("   ios::sync_with_stdio", 24);
    assert_eq!("sync_with_stdio", prefix);

    let prefix = get_word_prefix("   int best = numeric_limits<int>::max();", 28);
    assert_eq!("numeric_limits", prefix);

    let prefix = get_word_prefix("   int best = numeric_limits<int>::max();", 38);
    assert_eq!("max", prefix);
}

#[test]
fn test_get_word_suffixes() {
    let suffixes = get_possible_current_word("   ios::sync", 8);
    assert_eq!(vec!["s", "sy", "syn", "sync"], suffixes);

    let suffixes = get_possible_current_word("   ios::sync", 10);
    assert_eq!(vec!["s", "sy", "syn", "sync"], suffixes);

    let suffixes = get_possible_current_word("   int best = numeric_limits<int>::max();", 14);
    assert_eq!(
        vec![
            "n",
            "nu",
            "num",
            "nume",
            "numer",
            "numeri",
            "numeric",
            "numeric_",
            "numeric_l",
            "numeric_li",
            "numeric_lim",
            "numeric_limi",
            "numeric_limit",
            "numeric_limits"
        ],
        suffixes
    );

    let suffixes = get_possible_current_word("   int best = numeric_limits<int>::max();", 35);
    assert_eq!(vec!["m", "ma", "max"], suffixes);
}

#[test]
fn test_process_token() {
    let tokens = process_token("   aho_corasick(root.get())", 2);
    assert_eq!(vec!["aho_corasick", "root", "get"], tokens);

    let tokens = process_token(
        "   vector<int> solve(string s, vector<int>& k, vector<string>& m)",
        2,
    );
    assert_eq!(
        vec!["vector", "int", "solve", "string", "vector", "int", "vector", "string"],
        tokens
    );

    let tokens = process_token("   TrieNode* tn = node->failure", 3);
    assert_eq!(vec!["TrieNode", "node", "failure"], tokens);
}

#[test]
fn test_tokenize_policy() {
    // starts with a digit
    assert!(process_token("123abc", 2).is_empty());
    // letters may be followed by digits
    assert_eq!(vec!["abc123"], process_token("abc123", 2));
    // all digits
    assert!(process_token("42", 2).is_empty());
    // too short
    assert!(process_token("a", 2).is_empty());
}

#[test]
fn test_is_token_rules() {
    assert!(!is_token(&"123abc".chars().collect(), 2));
    assert!(is_token(&"abc123".chars().collect(), 2));
    assert!(!is_token(&"42".chars().collect(), 2));
    assert!(!is_token(&"a".chars().collect(), 2));
    assert!(is_token(&"ab".chars().collect(), 2));
    assert!(!is_token(&Vec::new(), 0));
}

#[test]
fn test_valid_token_char_classes() {
    assert!(valid_token_char('a'));
    assert!(valid_token_char('Z'));
    assert!(valid_token_char('7'));
    assert!(valid_token_char('_'));
    assert!(!valid_token_char('-'));
    assert!(!valid_token_char(' '));
    assert!(!valid_token_char(':'));
}

#[test]
fn test_line_at_segments() {
    assert_eq!(line_at("foo\nbar\nbaz", 0), Some("foo".to_string()));
    assert_eq!(line_at("foo\nbar\nbaz", 1), Some("bar".to_string()));
    assert_eq!(line_at("foo\nbar\nbaz", 2), Some("baz".to_string()));
    assert_eq!(line_at("foo\nbar\nbaz", 3), None);
    assert_eq!(line_at("a\n\nb", 1), Some(String::new()));
    assert_eq!(line_at("", 0), Some(String::new()));
}
