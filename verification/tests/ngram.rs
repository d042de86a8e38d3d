use autolink::ngram::{ngram, positioned};

#[test]
fn test_ngram_empty() {
    let input: Vec<i32> = vec![];
    let output: Vec<Vec<i32>> = vec![];
    assert_eq!(ngram(&input, 2), output);
}

#[test]
fn test_ngram_single() {
    let input = vec![1];
    let output: Vec<Vec<i32>> = vec![];
    assert_eq!(ngram(&input, 2), output);
}

#[test]
fn test_ngram_double() {
    let input = vec![1, 2];
    let output = vec![vec![1, 2]];
    assert_eq!(ngram(&input, 2), output);
}

#[test]
fn test_ngram_multiple() {
    let input = vec![1, 2, 3, 4, 5];
    let output = vec![vec![1, 2], vec![2, 3], vec![3, 4], vec![4, 5]];
    assert_eq!(ngram(&input, 2), output);
}

#[test]
fn test_ngram_trigrams() {
    let input = vec![1, 2, 3, 4, 5];
    let output = vec![vec![1, 2, 3], vec![2, 3, 4], vec![3, 4, 5]];
    assert_eq!(ngram(&input, 3), output);
}

#[test]
fn test_positioned_split_whitespace() {
    let text = "Hello, world! This is a test.";
    let result = positioned(text);
    assert_eq!(
        result,
        vec![
            (0, "Hello,".to_string()),
            (7, "world!".to_string()),
            (14, "This".to_string()),
            (19, "is".to_string()),
            (22, "a".to_string()),
            (24, "test.".to_string())
        ]
    );
}

#[test]
fn test_positioned_split_whitespace_with_leading_whitespace() {
    let text = "   Hello, world! This is a test.  ";
    let result = positioned(text);
    assert_eq!(
        result,
        vec![
            (3, "Hello,".to_string()),
            (10, "world!".to_string()),
            (17, "This".to_string()),
            (22, "is".to_string()),
            (25, "a".to_string()),
            (27, "test.".to_string())
        ]
    );
}

#[test]
fn test_positioned_split_whitespace_with_multiple_whitespace() {
    let text = "Hello,   world!  This   is a   test.  ";
    let result = positioned(text);
    assert_eq!(
        result,
        vec![
            (0, "Hello,".to_string()),
            (9, "world!".to_string()),
            (17, "This".to_string()),
            (24, "is".to_string()),
            (27, "a".to_string()),
            (31, "test.".to_string())
        ]
    );
}

#[test]
fn test_positioned_split_whitespace_empty_string() {
    let text = "";
    let result = positioned(text);
    assert_eq!(result, Vec::<(usize, String)>::new());
}
