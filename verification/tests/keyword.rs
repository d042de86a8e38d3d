use autolink::keyword::Keywords;

#[test]
fn test_keywords_new() {
    // the "new" method should create an empty index
    let keywords = Keywords::new();
    assert_eq!(keywords.len(), 0);
}

#[test]
fn test_keywords_insert() {
    // the "insert" method inserts a keyword association to a slug
    let mut keywords = Keywords::new();
    keywords.insert(
        "example-slug",
        &vec![
            "example_keyword_1".to_string(),
            "example_keyword_2".to_string(),
        ],
    );

    let keyword_1_slugs = keywords.get("example_keyword_1").unwrap();
    let keyword_2_slugs = keywords.get("example_keyword_2").unwrap();

    assert_eq!(keyword_1_slugs.len(), 1);
    assert_eq!(keyword_2_slugs.len(), 1);
    assert!(keyword_1_slugs.contains(&"example-slug".to_string()));
    assert!(keyword_2_slugs.contains(&"example-slug".to_string()));
}

#[test]
fn test_keywords_get() {
    // the "get" method retrieves the slugs associated to a keyword
    let mut keywords = Keywords::new();
    keywords.insert("example-slug", &vec!["example_keyword".to_string()]);

    let slugs = keywords.get("example_keyword").unwrap();
    assert_eq!(slugs.len(), 1);
    assert_eq!(slugs[0], "example-slug");
}

#[test]
fn test_keywords_get_no_keyword() {
    // the "get" method when a keyword does not exist in the index
    let keywords = Keywords::new();
    assert!(keywords.get("non-existent-keyword").is_none());
}

#[test]
fn test_keywords_insert_lowercases() {
    // keywords are normalized to lower case on insertion; lookup is
    // exact-match on the normalized phrase
    let mut keywords = Keywords::new();
    keywords.insert("a", &vec!["Foo BAR".to_string()]);
    assert!(keywords.get("foo bar").is_some());
    assert!(keywords.get("Foo BAR").is_none());
}

#[test]
fn test_keywords_insert_trims_slug() {
    let mut keywords = Keywords::new();
    keywords.insert("  padded  ", &vec!["kw".to_string()]);
    let slugs = keywords.get("kw").unwrap();
    assert_eq!(slugs.len(), 1);
    assert_eq!(slugs[0], "padded");
}

#[test]
fn test_keywords_insert_idempotent() {
    // a phrase maps to a set of slugs: repeated insertion adds nothing
    let mut keywords = Keywords::new();
    keywords.insert("a", &vec!["kw".to_string()]);
    keywords.insert("a", &vec!["kw".to_string()]);
    keywords.insert("b", &vec!["kw".to_string()]);
    let slugs = keywords.get("kw").unwrap();
    assert_eq!(slugs.len(), 2);
    assert!(slugs.contains(&"a".to_string()));
    assert!(slugs.contains(&"b".to_string()));
}
