use basecode_lsp::basecode_lsp::tmux as lsp_tmux;
use basecode_lsp::tmux;

#[test]
fn test_capture_alphanumeric_sequences() {
    let input = "Hello, world! 123 abc_def";
    let words = tmux::capture_alphanumeric_sequences(input);
    assert_eq!(words, vec!["Hello", "world", "123", "abc_def"]);
}

#[test]
fn tmux_test_capture_alphanumeric_sequences() {
    let input = "Hello, world! 123 abc_def";
    let words = lsp_tmux::capture_alphanumeric_sequences(input);
    assert_eq!(words, vec!["Hello", "world", "123", "abc", "def"]);
}

#[test]
fn test_retrieve_tmux_words() {
    let panes = vec!["Hello, world! 123 abc_def".to_string()];
    let words = tmux::retrieve_tmux_words(&panes);
    println!("{:?}", words);
    assert!(words.len() > 0);
}

#[test]
fn tmux_test_retrieve_tmux_words() {
    let panes = vec!["Hello, world! 123 abc_def".to_string()];
    let words = lsp_tmux::retrieve_tmux_words(&panes, 3);
    println!("{:?}", words);
    assert_eq!(words, vec!["Hello", "abc", "def", "world"]);
}

#[test]
fn test_retrieve_sorts_and_dedups() {
    let panes = vec!["bbb aaa ccc aaa".to_string(), "bbb zzz".to_string()];
    let words = tmux::retrieve_tmux_words(&panes);
    assert_eq!(words, vec!["aaa", "bbb", "ccc", "zzz"]);
}

#[test]
fn test_retrieve_drops_numbers_and_short_words() {
    let panes = vec!["ab 1234 12a4 word".to_string()];
    let words = tmux::retrieve_tmux_words(&panes);
    assert_eq!(words, vec!["12a4", "word"]);
}
