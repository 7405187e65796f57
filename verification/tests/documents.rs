use basecode_lsp::basecode_lsp::sync::DocumentSync;

#[test]
fn test_document_open_close_lifecycle() {
    let mut sync = DocumentSync::new(2);

    sync.did_open("doc", "foo bar foo");
    let suggestions = sync.complete("fo", 2);
    assert!(suggestions.iter().any(|w| w == "foo"));

    sync.did_close("doc");
    let suggestions = sync.complete("fo", 2);
    assert!(!suggestions.iter().any(|w| w == "foo"));
}

#[test]
fn test_document_change_replaces_words() {
    let mut sync = DocumentSync::new(2);

    sync.did_open("doc", "alpha beta");
    assert!(sync.complete("al", 2).iter().any(|w| w == "alpha"));

    sync.did_change("doc", &vec!["gamma delta".to_string()]);
    assert!(!sync.complete("al", 2).iter().any(|w| w == "alpha"));
    assert!(sync.complete("ga", 2).iter().any(|w| w == "gamma"));
}

#[test]
fn test_change_of_unknown_document_is_ignored() {
    let mut sync = DocumentSync::new(2);
    sync.did_change("ghost", &vec!["alpha".to_string()]);
    assert!(sync.complete("al", 2).is_empty());
}

#[test]
fn test_close_of_unknown_document_is_ignored() {
    let mut sync = DocumentSync::new(2);
    sync.did_open("doc", "alpha");
    sync.did_close("ghost");
    assert!(sync.complete("al", 2).iter().any(|w| w == "alpha"));
}

#[test]
fn test_get_current_line() {
    let mut sync = DocumentSync::new(2);
    sync.did_open("doc", "first line\nsecond line");
    assert_eq!(sync.get_current_line("doc", 0), Some("first line".to_string()));
    assert_eq!(sync.get_current_line("doc", 1), Some("second line".to_string()));
    assert_eq!(sync.get_current_line("doc", 2), None);
    assert_eq!(sync.get_current_line("ghost", 0), None);
}

#[test]
fn test_complete_filters_visible_words() {
    let mut sync = DocumentSync::new(2);
    sync.did_open("doc", "prefix prefixes");

    // the cursor sits after "pre" inside the typed word "prefix"; the word
    // visible under the cursor must not be echoed back
    let suggestions = sync.complete("prefix", 3);
    assert!(suggestions.iter().any(|w| w == "prefixes"));
    assert!(!suggestions.iter().any(|w| w == "prefix"));
}

#[test]
fn test_minimum_word_length_applies() {
    let mut sync = DocumentSync::new(3);
    sync.did_open("doc", "ab abc");
    assert!(sync.complete("a", 1).iter().any(|w| w == "abc"));
    assert!(!sync.complete("a", 1).iter().any(|w| w == "ab"));
}
