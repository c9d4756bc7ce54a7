use pdx::Direction;
use pdx::ListItem;
use pdx::Node;
use pdx::TextRun;
use pdx::parse_content;
use pdx::serialize_content;

fn doc_children(n: &Node) -> &Vec<Node> {
    match n {
        Node::Document { children } => children,
        _ => panic!("expected a document root"),
    }
}

#[test]
fn scenario_heading() {
    let doc = parse_content("# Hello");
    let children = doc_children(&doc);
    assert_eq!(children.len(), 1);
    let expected = Node::Heading {
        level: 1,
        runs: vec![TextRun::new("Hello", "en", "heading1")],
        style: "heading1".to_string(),
    };
    assert_eq!(children[0], expected);
}

#[test]
fn scenario_unordered_list() {
    let doc = parse_content("- a\n- b\n- c");
    let children = doc_children(&doc);
    assert_eq!(children.len(), 1);
    let item = |t: &str| ListItem {
        content: vec![TextRun::new(t, "en", "paragraph")],
    };
    let expected = Node::List {
        ordered: false,
        items: vec![item("a"), item("b"), item("c")],
        style: "list".to_string(),
    };
    assert_eq!(children[0], expected);
}

#[test]
fn scenario_code_block() {
    let doc = parse_content("```rust\ncode\n```");
    let children = doc_children(&doc);
    assert_eq!(children.len(), 1);
    let expected = Node::CodeBlock {
        language: "rust".to_string(),
        code: "code".to_string(),
        style: "code".to_string(),
    };
    assert_eq!(children[0], expected);
}

#[test]
fn scenario_arabic_paragraph() {
    let doc = parse_content("\u{645}\u{631}\u{62d}\u{628}\u{627}");
    let children = doc_children(&doc);
    assert_eq!(children.len(), 1);
    match &children[0] {
        Node::Paragraph { runs, style } => {
            assert_eq!(style, "arabic");
            assert_eq!(runs.len(), 1);
            assert_eq!(runs[0].direction, Direction::RTL);
            assert_eq!(runs[0].language, "ar");
            assert_eq!(runs[0].text, "\u{645}\u{631}\u{62d}\u{628}\u{627}");
        }
        other => panic!("expected a paragraph, got {:?}", other),
    }
}

#[test]
fn scenario_divider() {
    let doc = parse_content("---");
    let children = doc_children(&doc);
    assert_eq!(children.len(), 1);
    assert_eq!(children[0], Node::Divider);
}

#[test]
fn page_break_line() {
    let doc = parse_content("===");
    let children = doc_children(&doc);
    assert_eq!(children.len(), 1);
    assert_eq!(children[0], Node::PageBreak);
}

#[test]
fn empty_input_gives_empty_document() {
    let doc = parse_content("");
    assert_eq!(doc_children(&doc).len(), 0);
}

#[test]
fn blank_lines_are_skipped() {
    let doc = parse_content("\n\n# H\n\n\nworld\n");
    let children = doc_children(&doc);
    assert_eq!(children.len(), 2);
    assert!(matches!(children[0], Node::Heading { level: 1, .. }));
    match &children[1] {
        Node::Paragraph { runs, .. } => assert_eq!(runs[0].text, "world"),
        other => panic!("expected a paragraph, got {:?}", other),
    }
}

#[test]
fn heading_level_is_capped_at_six() {
    let doc = parse_content("####### deep");
    let children = doc_children(&doc);
    match &children[0] {
        Node::Heading { level, runs, style } => {
            assert_eq!(*level, 6);
            assert_eq!(style, "heading6");
            assert_eq!(runs[0].text, "deep");
        }
        other => panic!("expected a heading, got {:?}", other),
    }
}

#[test]
fn image_line_parses() {
    let doc = parse_content("![alt text](images/pic.png)");
    let children = doc_children(&doc);
    let expected = Node::Image {
        path: "images/pic.png".to_string(),
        alt_text: "alt text".to_string(),
        width: None,
        height: None,
    };
    assert_eq!(children[0], expected);
}

#[test]
fn malformed_image_becomes_paragraph() {
    let doc = parse_content("![alt](path");
    let children = doc_children(&doc);
    match &children[0] {
        Node::Paragraph { runs, .. } => assert_eq!(runs[0].text, "![alt](path"),
        other => panic!("expected a paragraph, got {:?}", other),
    }
    let doc2 = parse_content("![)](x)");
    match &doc_children(&doc2)[0] {
        Node::Paragraph { runs, .. } => assert_eq!(runs[0].text, "![)](x)"),
        other => panic!("expected a paragraph, got {:?}", other),
    }
}

#[test]
fn unterminated_fence_closes_at_end() {
    let doc = parse_content("```rust\nlet x = 1;");
    let children = doc_children(&doc);
    match &children[0] {
        Node::CodeBlock { language, code, .. } => {
            assert_eq!(language, "rust");
            assert_eq!(code, "let x = 1;");
        }
        other => panic!("expected a code block, got {:?}", other),
    }
}

#[test]
fn empty_fence_language_defaults_to_text() {
    let doc = parse_content("```\nbody\n```");
    match &doc_children(&doc)[0] {
        Node::CodeBlock { language, .. } => assert_eq!(language, "text"),
        other => panic!("expected a code block, got {:?}", other),
    }
}

#[test]
fn list_ends_at_non_list_line() {
    let doc = parse_content("- a\nplain");
    let children = doc_children(&doc);
    assert_eq!(children.len(), 2);
    assert!(matches!(children[0], Node::List { .. }));
    match &children[1] {
        Node::Paragraph { runs, .. } => assert_eq!(runs[0].text, "plain"),
        other => panic!("expected a paragraph, got {:?}", other),
    }
}

#[test]
fn bullet_glyph_starts_list() {
    let doc = parse_content("\u{2022} point");
    match &doc_children(&doc)[0] {
        Node::List { ordered, items, style } => {
            assert!(!*ordered);
            assert_eq!(style, "list");
            assert_eq!(items.len(), 1);
            assert_eq!(items[0].content[0].text, "point");
        }
        other => panic!("expected a list, got {:?}", other),
    }
}

#[test]
fn divider_after_list_stays_divider() {
    let doc = parse_content("- a\n---");
    let children = doc_children(&doc);
    assert_eq!(children.len(), 2);
    assert!(matches!(children[0], Node::List { .. }));
    assert_eq!(children[1], Node::Divider);
}

#[test]
fn serialize_heading() {
    let doc = parse_content("# Hello");
    assert_eq!(serialize_content(&doc), "# Hello");
}

#[test]
fn serialize_ordered_list_markers() {
    let list = Node::List {
        ordered: true,
        items: vec![
            ListItem { content: vec![TextRun::new("one", "en", "paragraph")] },
            ListItem { content: vec![TextRun::new("two", "en", "paragraph")] },
        ],
        style: "list".to_string(),
    };
    assert_eq!(serialize_content(&list), "1. one\n2. two");
}

#[test]
fn serialize_code_block_and_reparse() {
    let doc = parse_content("```rust\nfn main() {}\n```");
    let text = serialize_content(&doc);
    assert_eq!(text, "```rust\nfn main() {}\n```");
    let again = parse_content(&text);
    assert_eq!(again, doc);
}

#[test]
fn backtick_language_token_round_trips() {
    // A language token that itself opens with a backtick would merge into
    // the fence, so the serializer keeps it apart with a space.
    let doc = parse_content("``` `odd\ncode\n```");
    match &doc_children(&doc)[0] {
        Node::CodeBlock { language, .. } => assert_eq!(language, "`odd"),
        other => panic!("expected a code block, got {:?}", other),
    }
    let text = serialize_content(&doc);
    assert_eq!(text, "``` `odd\ncode\n```");
    assert_eq!(parse_content(&text), doc);
}

#[test]
fn unicode_whitespace_is_trimmed() {
    // A no-break space counts as line whitespace, as the usual trim does.
    let doc = parse_content("\u{a0}hello\u{a0}");
    match &doc_children(&doc)[0] {
        Node::Paragraph { runs, .. } => assert_eq!(runs[0].text, "hello"),
        other => panic!("expected a paragraph, got {:?}", other),
    }
    // A line of nothing but such whitespace is blank.
    assert_eq!(doc_children(&parse_content("\u{a0}\u{2003}")).len(), 0);
}

#[test]
fn serialize_blocks_are_separated_by_blank_lines() {
    let doc = parse_content("# H\npara\n---");
    assert_eq!(serialize_content(&doc), "# H\n\npara\n\n---");
}

#[test]
fn reparse_is_idempotent() {
    let inputs = [
        "# Hello",
        "- a\n- b\n- c",
        "```rust\ncode\n```",
        "\u{645}\u{631}\u{62d}\u{628}\u{627}",
        "---",
        "===",
        "![alt](p.png)",
        "# T\n\ntext here\n- x\n- y\n```\nraw\n  indented\n```\n---\n===\nlast",
        "#\n-\n``` `odd\ncode\n```",
        "  spaced heading text  \n\n   - deep bullet",
        "",
        "\n\n\n",
        "![a](b](c)",
    ];
    for x in inputs {
        let once = parse_content(x);
        let text = serialize_content(&once);
        let twice = parse_content(&text);
        assert_eq!(twice, once, "reparse changed the tree for {:?}", x);
    }
}

#[test]
fn bare_hash_is_empty_heading() {
    let doc = parse_content("#");
    match &doc_children(&doc)[0] {
        Node::Heading { level, runs, .. } => {
            assert_eq!(*level, 1);
            assert_eq!(runs[0].text, "");
        }
        other => panic!("expected a heading, got {:?}", other),
    }
    // And the empty heading survives a round trip.
    let text = serialize_content(&doc);
    assert_eq!(parse_content(&text), doc);
}

#[test]
fn empty_list_item_round_trips() {
    let doc = parse_content("-");
    match &doc_children(&doc)[0] {
        Node::List { items, .. } => assert_eq!(items[0].content[0].text, ""),
        other => panic!("expected a list, got {:?}", other),
    }
    let text = serialize_content(&doc);
    assert_eq!(parse_content(&text), doc);
}

#[test]
fn serialize_image_and_page_break() {
    let img = Node::Image {
        path: "p.png".to_string(),
        alt_text: "alt".to_string(),
        width: None,
        height: None,
    };
    assert_eq!(serialize_content(&img), "![alt](p.png)");
    assert_eq!(serialize_content(&Node::PageBreak), "===");
    assert_eq!(serialize_content(&Node::Divider), "---");
}

#[test]
fn code_block_keeps_interior_blank_lines() {
    let doc = parse_content("```\na\n\nb\n```");
    match &doc_children(&doc)[0] {
        Node::CodeBlock { code, .. } => assert_eq!(code, "a\n\nb"),
        other => panic!("expected a code block, got {:?}", other),
    }
    let text = serialize_content(&doc);
    assert_eq!(parse_content(&text), doc);
}

#[test]
fn code_keeps_indentation_verbatim() {
    let doc = parse_content("```\n    indented\n```");
    match &doc_children(&doc)[0] {
        Node::CodeBlock { code, .. } => assert_eq!(code, "    indented"),
        other => panic!("expected a code block, got {:?}", other),
    }
}
