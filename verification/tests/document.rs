use autolink::document::{assemble_output, Document, Error};
use autolink::text::contains_dot_dot;
use autolink::index::index_content;
use autolink::keyword::Keywords;

#[test]
fn test_document_parse() {
    let content = "---\nslug: my-page\nkeywords:\n  - foo bar\n  - baz qux\n---\nThe body text.";
    let doc = Document::parse(content).unwrap();
    assert_eq!(doc.front_matter.slug, "my-page");
    assert_eq!(
        doc.front_matter.keywords,
        vec!["foo bar".to_string(), "baz qux".to_string()]
    );
    assert_eq!(doc.front_matter_all, "\nslug: my-page\nkeywords:\n  - foo bar\n  - baz qux");
    assert_eq!(doc.document, "The body text.");
}

#[test]
fn test_document_parse_missing_front_matter() {
    let content = "No delimiters at all.";
    let err = Document::parse(content).unwrap_err();
    assert_eq!(err, Error::MissingFrontMatter);
    assert_eq!(err.message(), "missing front matter");
}

#[test]
fn test_document_parse_front_matter_mismatch() {
    // the block is present but holds no keywords list
    let content = "---\nslug: my-page\n---\nBody.";
    let err = Document::parse(content).unwrap_err();
    assert_eq!(err, Error::FrontMatterMismatch);
    assert_eq!(
        err.message(),
        "front matter does not have slug or keywords list"
    );
}

#[test]
fn test_document_parse_front_matter_not_strings() {
    // a keywords entry that is not a string does not decode
    let content = "---\nslug: my-page\nkeywords:\n  - 7\n---\nBody.";
    let err = Document::parse(content).unwrap_err();
    assert_eq!(err, Error::FrontMatterMismatch);
}

#[test]
fn test_index_content() {
    let mut keywords = Keywords::new();
    let content = "---\nslug: a\nkeywords:\n  - Foo Bar\n---\nBody of a.";
    index_content(&mut keywords, content).unwrap();
    let slugs = keywords.get("foo bar").unwrap();
    assert_eq!(slugs.len(), 1);
    assert_eq!(slugs[0], "a");
}

#[test]
fn test_index_content_error_leaves_index_unchanged() {
    let mut keywords = Keywords::new();
    let err = index_content(&mut keywords, "no front matter here").unwrap_err();
    assert_eq!(err, Error::MissingFrontMatter);
    assert_eq!(keywords.len(), 0);
}

#[test]
fn test_assemble_output() {
    let out = assemble_output("  \nslug: a\nkeywords: []\n ", "The rendered body.\n");
    assert_eq!(out, "---\nslug: a\nkeywords: []\n---\nThe rendered body.\n");
}

#[test]
fn test_contains_dot_dot() {
    // the directory-traversal guard: any two adjacent dots
    assert!(contains_dot_dot(".."));
    assert!(contains_dot_dot("docs/../etc/x.md"));
    assert!(contains_dot_dot("a...b"));
    assert!(!contains_dot_dot("docs/notes.md"));
    assert!(!contains_dot_dot("a.b.c"));
    assert!(!contains_dot_dot(""));
    assert!(!contains_dot_dot("."));
}
