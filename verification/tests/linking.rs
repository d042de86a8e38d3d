use autolink::keyword::Keywords;
use autolink::tree::{update_tree, Node};
use rand::rngs::StdRng;
use rand::SeedableRng;

fn paragraph(text: &str) -> Node {
    Node::Paragraph(vec![Node::Text(text.to_string())])
}

fn doc_tree(paragraphs: Vec<Node>) -> Node {
    Node::Container(paragraphs)
}

fn collect_links(node: &Node, out: &mut Vec<(String, String)>) {
    match node {
        Node::Container(ch) | Node::Paragraph(ch) => {
            for c in ch {
                collect_links(c, out);
            }
        }
        Node::Link(url, text) => out.push((url.clone(), text.clone())),
        _ => {}
    }
}

fn collect_text(node: &Node, out: &mut String) {
    match node {
        Node::Container(ch) | Node::Paragraph(ch) => {
            for c in ch {
                collect_text(c, out);
            }
        }
        Node::Text(t) => out.push_str(t),
        Node::Link(_url, t) => out.push_str(t),
        Node::Opaque(_) => {}
    }
}

fn collect_opaques(node: &Node, out: &mut Vec<u64>) {
    match node {
        Node::Container(ch) | Node::Paragraph(ch) => {
            for c in ch {
                collect_opaques(c, out);
            }
        }
        Node::Opaque(id) => out.push(*id),
        _ => {}
    }
}

#[test]
fn test_splice_text_exact() {
    // splicing one selection yields the text before it, the link carrying
    // the span's characters, and the text after it
    let nodes = autolink::tree::splice_text("hello world again", &vec![(6, 5, "w".to_string())]);
    assert_eq!(nodes.len(), 3);
    match &nodes[0] {
        Node::Text(t) => assert_eq!(t, "hello "),
        other => panic!("expected a text leaf, got {:?}", other),
    }
    match &nodes[1] {
        Node::Link(url, t) => {
            assert_eq!(url, "w");
            assert_eq!(t, "world");
        }
        other => panic!("expected a link, got {:?}", other),
    }
    match &nodes[2] {
        Node::Text(t) => assert_eq!(t, " again"),
        other => panic!("expected a text leaf, got {:?}", other),
    }
}

#[test]
fn test_single_keyword_linked() {
    // an index over two documents; a paragraph of one document mentions the
    // other's keyword, and exactly that span becomes a link
    let mut keywords = Keywords::new();
    keywords.insert("a", &vec!["foo bar".to_string()]);
    keywords.insert("b", &vec!["baz qux".to_string()]);

    let tree = doc_tree(vec![paragraph("This mentions baz qux here.")]);
    let mut rng = StdRng::seed_from_u64(42);
    let out = update_tree(&keywords, "a", &tree, &mut rng);

    let mut links = Vec::new();
    collect_links(&out, &mut links);
    assert_eq!(links, vec![("b".to_string(), "baz qux".to_string())]);
}

#[test]
fn test_own_keyword_not_linked() {
    // a phrase the document itself declares is never linked
    let mut keywords = Keywords::new();
    keywords.insert("a", &vec!["foo bar".to_string()]);
    keywords.insert("b", &vec!["baz qux".to_string()]);

    let tree = doc_tree(vec![paragraph("Some foo bar here.")]);
    let mut rng = StdRng::seed_from_u64(42);
    let out = update_tree(&keywords, "a", &tree, &mut rng);

    let mut links = Vec::new();
    collect_links(&out, &mut links);
    assert_eq!(links, Vec::<(String, String)>::new());

    let mut text = String::new();
    collect_text(&out, &mut text);
    assert_eq!(text, "Some foo bar here.");
}

#[test]
fn test_longer_phrase_wins_at_equal_start() {
    // "new york" and "new york city" both match starting at the same token;
    // the longer phrase is kept and the overlapping shorter one discarded
    let mut keywords = Keywords::new();
    keywords.insert("b", &vec!["new york".to_string()]);
    keywords.insert("c", &vec!["new york city".to_string()]);

    let tree = doc_tree(vec![paragraph("I love New York City today.")]);
    let mut rng = StdRng::seed_from_u64(42);
    let out = update_tree(&keywords, "a", &tree, &mut rng);

    let mut links = Vec::new();
    collect_links(&out, &mut links);
    assert_eq!(links, vec![("c".to_string(), "New York City".to_string())]);
}

#[test]
fn test_phrase_linked_once_per_document() {
    // a phrase already linked in an earlier paragraph is not linked again
    let mut keywords = Keywords::new();
    keywords.insert("b", &vec!["baz qux".to_string()]);

    let tree = doc_tree(vec![
        paragraph("We like baz qux here."),
        paragraph("Again baz qux appears."),
    ]);
    let mut rng = StdRng::seed_from_u64(42);
    let out = update_tree(&keywords, "a", &tree, &mut rng);

    let mut links = Vec::new();
    collect_links(&out, &mut links);
    assert_eq!(links, vec![("b".to_string(), "baz qux".to_string())]);

    // and the second paragraph's text is untouched
    match &out {
        Node::Container(ch) => match &ch[1] {
            Node::Paragraph(pch) => {
                assert_eq!(pch.len(), 1);
                match &pch[0] {
                    Node::Text(t) => assert_eq!(t, "Again baz qux appears."),
                    other => panic!("expected a text leaf, got {:?}", other),
                }
            }
            other => panic!("expected a paragraph, got {:?}", other),
        },
        other => panic!("expected a container, got {:?}", other),
    }
}

#[test]
fn test_target_linked_once_per_document() {
    // two distinct phrases of the same target: only one link to that target
    let mut keywords = Keywords::new();
    keywords.insert("b", &vec!["baz qux".to_string(), "foo bar".to_string()]);

    let tree = doc_tree(vec![paragraph("First baz qux then foo bar follows.")]);
    let mut rng = StdRng::seed_from_u64(42);
    let out = update_tree(&keywords, "a", &tree, &mut rng);

    let mut links = Vec::new();
    collect_links(&out, &mut links);
    assert_eq!(links.len(), 1);
    assert_eq!(links[0].0, "b");
}

#[test]
fn test_byte_preservation() {
    // all the characters of the paragraph survive the rewrite, in order
    let mut keywords = Keywords::new();
    keywords.insert("b", &vec!["baz qux".to_string()]);
    keywords.insert("c", &vec!["new york".to_string()]);

    let original = "Visit new york and read baz qux, twice: baz qux.";
    let tree = doc_tree(vec![paragraph(original)]);
    let mut rng = StdRng::seed_from_u64(42);
    let out = update_tree(&keywords, "a", &tree, &mut rng);

    let mut text = String::new();
    collect_text(&out, &mut text);
    assert_eq!(text, original);
}

#[test]
fn test_opaque_content_untouched() {
    // opaque nodes (quotes, lists, code, tables, existing links, ...) are
    // kept exactly where they were, and never entered
    let mut keywords = Keywords::new();
    keywords.insert("b", &vec!["baz qux".to_string()]);

    let tree = doc_tree(vec![
        Node::Opaque(7),
        paragraph("A baz qux mention."),
        Node::Opaque(9),
        Node::Paragraph(vec![
            Node::Text("inline ".to_string()),
            Node::Opaque(11),
            Node::Text(" more baz qux".to_string()),
        ]),
    ]);
    let mut rng = StdRng::seed_from_u64(42);
    let out = update_tree(&keywords, "a", &tree, &mut rng);

    let mut opaques = Vec::new();
    collect_opaques(&out, &mut opaques);
    assert_eq!(opaques, vec![7, 9, 11]);
}

#[test]
fn test_cap_of_four_links() {
    // six non-overlapping matches to six distinct documents: exactly four
    // survive, a uniformly random subset under the seeded generator
    let mut keywords = Keywords::new();
    keywords.insert("d1", &vec!["alpha beta".to_string()]);
    keywords.insert("d2", &vec!["gamma delta".to_string()]);
    keywords.insert("d3", &vec!["epsilon zeta".to_string()]);
    keywords.insert("d4", &vec!["eta theta".to_string()]);
    keywords.insert("d5", &vec!["iota kappa".to_string()]);
    keywords.insert("d6", &vec!["lambda mu".to_string()]);

    let original = "alpha beta or gamma delta or epsilon zeta or eta theta or iota kappa or lambda mu end";
    let tree = doc_tree(vec![paragraph(original)]);
    let mut rng = StdRng::seed_from_u64(42);
    let out = update_tree(&keywords, "a", &tree, &mut rng);

    let mut links = Vec::new();
    collect_links(&out, &mut links);
    assert_eq!(links.len(), 4);

    // the regression fixture: the subset this seed retains, in text order
    assert_eq!(
        links,
        vec![
            ("d1".to_string(), "alpha beta".to_string()),
            ("d3".to_string(), "epsilon zeta".to_string()),
            ("d4".to_string(), "eta theta".to_string()),
            ("d5".to_string(), "iota kappa".to_string()),
        ]
    );

    // the characters all survive, spans becoming anchors
    let mut text = String::new();
    collect_text(&out, &mut text);
    assert_eq!(text, original);
}
