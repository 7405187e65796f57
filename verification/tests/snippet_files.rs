use basecode_lsp::snippets::get_file_basename;
use basecode_lsp::snippets::get_snippet_names;
use basecode_lsp::snippets::parse_snippets;
use basecode_lsp::snippets::snippet_patterns;
use basecode_lsp::snippets::transform_line;
use basecode_lsp::snippets::Snippet;

#[test]
fn test_get_file_basename() {
    let filename = get_file_basename("a/b/c/d.txt".to_string());
    assert_eq!("d", filename);

    let filename = get_file_basename("102938 !#@#! abcdqweio.txt".to_string());
    assert_eq!("102938 !#@#! abcdqweio", filename);
}

#[test]
fn test_parse_snippets() {
    let content = "snippet main
\tint main(void) {
\t\t// code here...
\t\treturn 0;
\t}";
    let snippets = parse_snippets(content, "cpp");
    assert_eq!(1, snippets.len());

    let snippet = &snippets[0];
    assert_eq!("main", snippet.name);
    assert_eq!(
        "int main(void) {
  // code here...
  return 0;
}",
        snippet.snippet
    );

    let content = "snippet for
\tfor (size_t i = 0; i < count; i++) {
\t\t/* code */
\t}";
    let snippets = parse_snippets(content, "cpp");
    assert_eq!(1, snippets.len());

    let snippet = &snippets[0];
    assert_eq!("for", snippet.name);
    assert_eq!(
        "for (size_t i = 0; i < count; i++) {
  /* code */
}",
        snippet.snippet
    );

    let content = "snippet if
\tif (condition) {
\t\t/* code */
\t}";
    let snippets = parse_snippets(content, "cpp");
    assert_eq!(1, snippets.len());

    let snippet = &snippets[0];
    assert_eq!("if", snippet.name);
    assert_eq!(
        "if (condition) {
  /* code */
}",
        snippet.snippet
    );
}

#[test]
fn test_transform_line() {
    let transformed = transform_line("\t\treturn 0;");
    assert_eq!("  return 0;", transformed);
}

#[test]
fn test_get_snippet_names() {
    let names = get_snippet_names("main.cpp");
    let expect_included = vec!["cpp", "c"];
    for t in expect_included.iter() {
        assert!(names.iter().any(|n| n == t));
    }

    let names = get_snippet_names("main.cc");
    let expect_included = vec!["cpp", "c"];
    for t in expect_included.iter() {
        assert!(names.iter().any(|n| n == t));
    }

    let names = get_snippet_names("main.cmake");
    assert!(names.iter().any(|n| n == "cmake"));

    let names = get_snippet_names("CMakeLists.txt");
    assert!(names.iter().any(|n| n == "cmake"));
}

#[test]
fn test_snippet_patterns() {
    let patterns = snippet_patterns();
    assert!(patterns.iter().any(|(k, _)| k == "c"));
    assert!(patterns.iter().any(|(k, _)| k == "cpp"));
    let rust_patterns = &patterns.iter().find(|(k, _)| k == "rust").unwrap().1;
    assert!(rust_patterns.iter().any(|p| p == ".rs"));
}

#[test]
fn test_parse_two_snippets_in_one_file() {
    let content = "snippet one
\tfirst body
# a comment line is dropped
snippet two
\tsecond body";
    let snippets = parse_snippets(content, "rust");
    assert_eq!(2, snippets.len());
    assert_eq!("one", snippets[0].name);
    assert_eq!("first body", snippets[0].snippet);
    assert_eq!("rust", snippets[0].filetype);
    assert_eq!("two", snippets[1].name);
    assert_eq!("second body", snippets[1].snippet);
}

#[test]
fn test_markdown_renders_fenced_block() {
    let s = Snippet {
        name: "main".to_string(),
        snippet: "fn main() {}".to_string(),
        filetype: "rust".to_string(),
    };
    assert_eq!("```rust\nfn main() {}```", s.markdown());
}
