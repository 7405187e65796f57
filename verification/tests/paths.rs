use basecode_lsp::basecode_lsp::util::get_word_prefix;
use basecode_lsp::file::path_prefixes;

#[test]
fn test_path_prefixes_candidates() {
    let items = path_prefixes("test_dir/subdir/");
    // one candidate per (start, separator) pair: 9 slices end at the first
    // separator (position 8), 16 at the second (position 15)
    assert_eq!(items.len(), 25);
    assert_eq!(items[0], ("test_dir/".to_string(), 8));
    assert!(items.contains(&("test_dir/subdir/".to_string(), 15)));
    assert!(items.contains(&("subdir/".to_string(), 15)));
    assert!(items.contains(&("/".to_string(), 8)));
}

#[test]
fn test_path_prefixes_without_separator() {
    assert!(path_prefixes("no separator here").is_empty());
}

#[test]
fn test_path_prefixes_line_length_cap() {
    let long = format!("{}{}", "a".repeat(700), "/");
    assert!(path_prefixes(&long).is_empty());
}

#[test]
fn test_word_prefix_cursor_edges() {
    // a column of zero has nothing to its left
    assert_eq!(get_word_prefix("abc", 0), "");
    // a column past the end clamps to the last character
    assert_eq!(get_word_prefix("abc", 10), "abc");
    // a negative column has nothing to its left
    assert_eq!(get_word_prefix("abc", -1), "");
}
