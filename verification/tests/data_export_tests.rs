use pdx::AppTheme;
use pdx::Color;
use pdx::Direction;
use pdx::EdgeInsets;
use pdx::EditorMode;
use pdx::EditorTab;
use pdx::FontWeight;
use pdx::ListItem;
use pdx::Metadata;
use pdx::Node;
use pdx::PdxFile;
use pdx::Style;
use pdx::StyleSheet;
use pdx::TextAlign;
use pdx::TextRun;
use pdx::create_sample_document;
use pdx::display_runs;
use pdx::export_as_html;
use pdx::export_as_png;
use pdx::image_placeholder;
use pdx::parse_content;
use pdx::pdf_text_ops;
use pdx::pdx_text;
use pdx::runs_rtl;

#[test]
fn resolve_missing_name_returns_default() {
    let sheet = StyleSheet::default();
    let style = sheet.resolve("nonexistent");
    assert_eq!(style, Style::default());
    let empty = StyleSheet { styles: Vec::new(), active_theme: "default".to_string() };
    assert_eq!(empty.resolve("heading1"), Style::default());
}

#[test]
fn default_sheet_is_seeded() {
    let sheet = StyleSheet::default();
    assert_eq!(sheet.active_theme, "default");
    let h1 = sheet.resolve("heading1");
    assert_eq!(h1.font_size, 2800);
    assert_eq!(h1.font_weight, FontWeight::Bold);
    assert_eq!(h1.margin, EdgeInsets::new(1200, 0, 1600, 0));
    let para = sheet.resolve("paragraph");
    assert_eq!(para.font_size, 1600);
    assert_eq!(para.line_height, 180);
    let arabic = sheet.resolve("arabic");
    assert_eq!(arabic.direction, Direction::RTL);
    assert_eq!(arabic.line_height, 200);
    assert_eq!(arabic.font_size, 1800);
    let h2 = sheet.resolve("heading2");
    assert_eq!(h2.color, Color::rgb(40, 40, 40));
}

#[test]
fn default_style_is_all_zero() {
    let s = Style::default();
    assert_eq!(s.font_size, 0);
    assert_eq!(s.font_weight, FontWeight::Normal);
    assert_eq!(s.text_align, TextAlign::Start);
    assert_eq!(s.direction, Direction::Auto);
    assert_eq!(s.line_height, 0);
    assert_eq!(s.color, Color::rgb(0, 0, 0));
    assert_eq!(s.margin, EdgeInsets::all(0));
}

#[test]
fn metadata_defaults() {
    let m = Metadata::default();
    assert_eq!(m.title, "Untitled Document");
    assert_eq!(m.author, "");
    assert_eq!(m.language, "en");
    assert!(m.keywords.is_empty());
    assert!(!m.created.is_empty());
    assert!(!m.modified.is_empty());
}

#[test]
fn sample_document_structure() {
    let doc = create_sample_document();
    assert_eq!(doc.version, 1);
    assert_eq!(doc.metadata.title, "PDX Demo Document");
    assert_eq!(doc.metadata.author, "PDX Editor");
    assert_eq!(
        doc.metadata.keywords,
        vec!["pdx".to_string(), "document".to_string(), "\u{645}\u{633}\u{62a}\u{646}\u{62f}".to_string()]
    );
    match &doc.content {
        Node::Document { children } => {
            assert_eq!(children.len(), 8);
            assert!(matches!(children[0], Node::Heading { level: 1, .. }));
            assert!(matches!(children[2], Node::Divider));
            match &children[3] {
                Node::Heading { level, runs, .. } => {
                    assert_eq!(*level, 2);
                    assert_eq!(runs[0].direction, Direction::RTL);
                }
                other => panic!("expected a heading, got {:?}", other),
            }
            match &children[7] {
                Node::List { ordered, items, .. } => {
                    assert!(!*ordered);
                    assert_eq!(items.len(), 4);
                }
                other => panic!("expected a list, got {:?}", other),
            }
        }
        other => panic!("expected a document, got {:?}", other),
    }
}

#[test]
fn html_export_of_small_document() {
    let doc = pdx::PdxDocument {
        version: 1,
        metadata: Metadata { title: "T".to_string(), ..Metadata::default() },
        styles: StyleSheet::default(),
        content: parse_content("# Hi\nplain\n---"),
    };
    let html = export_as_html(&doc);
    assert!(html.starts_with("<!DOCTYPE html>\n<html dir=\"auto\">"));
    assert!(html.ends_with("</body>\n</html>"));
    assert!(html.contains("<title>T</title>"));
    assert!(html.contains("<h1 class=\"ltr\">Hi</h1>\n"));
    assert!(html.contains("<p class=\"ltr\">plain</p>\n"));
    assert!(html.contains("<hr/>\n"));
}

#[test]
fn html_export_marks_rtl_blocks() {
    let doc = pdx::PdxDocument {
        version: 1,
        metadata: Metadata::default(),
        styles: StyleSheet::default(),
        content: parse_content("\u{645}\u{631}\u{62d}\u{628}\u{627}"),
    };
    let html = export_as_html(&doc);
    assert!(html.contains("<p class=\"rtl\">\u{645}\u{631}\u{62d}\u{628}\u{627}</p>\n"));
}

#[test]
fn html_export_list_and_code() {
    let doc = pdx::PdxDocument {
        version: 1,
        metadata: Metadata::default(),
        styles: StyleSheet::default(),
        content: parse_content("- a\n- b\n```rust\nlet x;\n```"),
    };
    let html = export_as_html(&doc);
    assert!(html.contains("<ul><li class=\"ltr\">a</li><li class=\"ltr\">b</li></ul>\n"));
    assert!(html.contains("<pre><code class=\"language-rust\">let x;</code></pre>\n"));
}

#[test]
fn pdf_ops_positions_and_sizes() {
    let doc = pdx::PdxDocument {
        version: 1,
        metadata: Metadata::default(),
        styles: StyleSheet::default(),
        content: parse_content("# Title\nhello\n===\nworld"),
    };
    let ops = pdf_text_ops(&doc);
    assert_eq!(ops.len(), 3);
    assert_eq!(ops[0].text, "Title");
    assert_eq!(ops[0].font_size, 24);
    assert_eq!(ops[0].x_mm, 20);
    assert_eq!(ops[0].y_mm, 270);
    assert_eq!(ops[1].text, "hello");
    assert_eq!(ops[1].font_size, 12);
    assert_eq!(ops[1].y_mm, 248);
    // The page break resets the cursor to the top.
    assert_eq!(ops[2].text, "world");
    assert_eq!(ops[2].y_mm, 270);
}

#[test]
fn pdf_ops_anchor_rtl_at_right_margin() {
    let doc = pdx::PdxDocument {
        version: 1,
        metadata: Metadata::default(),
        styles: StyleSheet::default(),
        content: parse_content("\u{645}\u{631}\u{62d}\u{628}\u{627}"),
    };
    let ops = pdf_text_ops(&doc);
    assert_eq!(ops.len(), 1);
    assert_eq!(ops[0].x_mm, 190);
    assert_eq!(ops[0].text, pdx_text("\u{645}\u{631}\u{62d}\u{628}\u{627}"));
}

#[test]
fn pdf_ops_list_items() {
    let doc = pdx::PdxDocument {
        version: 1,
        metadata: Metadata::default(),
        styles: StyleSheet::default(),
        content: parse_content("- a\n- b"),
    };
    let ops = pdf_text_ops(&doc);
    assert_eq!(ops.len(), 2);
    assert_eq!(ops[0].text, "\u{2022} a");
    assert_eq!(ops[0].x_mm, 25);
    assert_eq!(ops[0].y_mm, 270);
    assert_eq!(ops[1].text, "\u{2022} b");
    assert_eq!(ops[1].y_mm, 255);
}

#[test]
fn png_export_yields_png_bytes() {
    let bytes = export_as_png(16, 16).expect("encoding a small blank page succeeds");
    assert!(bytes.len() > 8);
    assert_eq!(&bytes[0..4], &[0x89, 0x50, 0x4e, 0x47]);
    // Deterministic: the same size encodes to the same bytes.
    assert_eq!(bytes, export_as_png(16, 16).unwrap());
}

#[test]
fn display_runs_reverse_for_rtl() {
    let runs = vec![
        TextRun::new("one", "en", "paragraph"),
        TextRun::new("\u{62d}\u{631}\u{641}", "ar", "arabic"),
    ];
    assert!(runs_rtl(&runs));
    let shown = display_runs(&runs);
    assert_eq!(shown.len(), 2);
    assert_eq!(shown[0], pdx_text("\u{62d}\u{631}\u{641}"));
    assert_eq!(shown[1], "one");

    let ltr = vec![TextRun::new("a", "en", "p"), TextRun::new("b", "en", "p")];
    assert!(!runs_rtl(&ltr));
    assert_eq!(display_runs(&ltr), vec!["a".to_string(), "b".to_string()]);
}

#[test]
fn image_placeholder_text() {
    assert_eq!(
        image_placeholder("pic"),
        "\u{1f5bc}\u{fe0f} [Image: pic]"
    );
}

#[test]
fn theme_names_and_palette() {
    assert_eq!(AppTheme::Dark.name(), "Dark");
    assert_eq!(AppTheme::Comfort.name(), "Comfort");
    assert_eq!(AppTheme::default(), AppTheme::Comfort);
    assert_eq!(AppTheme::Light.text_color(), Color::rgb(20, 20, 20));
    assert_eq!(AppTheme::Midnight.background_color(), Color::rgb(15, 20, 35));
    assert_eq!(AppTheme::Sepia.panel_color(), Color::rgb(255, 248, 235));
    assert!(AppTheme::Comfort.is_light_base());
    assert!(!AppTheme::Midnight.is_light_base());
    let all = AppTheme::all_themes();
    assert_eq!(
        all,
        vec![
            AppTheme::Light,
            AppTheme::Dark,
            AppTheme::Midnight,
            AppTheme::Sepia,
            AppTheme::Comfort,
        ]
    );
}

#[test]
fn editor_state_defaults() {
    assert_eq!(EditorMode::Split, EditorMode::Split);
    assert_ne!(EditorMode::Edit, EditorMode::Preview);
    assert_ne!(EditorTab::Editor, EditorTab::Styles);
}

#[test]
fn pdx_file_defaults() {
    let f = PdxFile::default();
    assert_eq!(f.version, 0);
    assert_eq!(f.meta.title, "");
    assert_eq!(f.meta.lang, "");
    assert_eq!(f.content, "");
}

#[test]
fn resolve_takes_first_matching_entry() {
    let sheet = StyleSheet {
        styles: vec![
            ("x".to_string(), Style { font_size: 100, ..Style::default() }),
            ("x".to_string(), Style { font_size: 200, ..Style::default() }),
        ],
        active_theme: "default".to_string(),
    };
    assert_eq!(sheet.resolve("x").font_size, 100);
}

#[test]
fn pdf_ops_render_code_blocks() {
    let doc = pdx::PdxDocument {
        version: 1,
        metadata: Metadata::default(),
        styles: StyleSheet::default(),
        content: parse_content("```rust\nlet x;\nlet y;\n```\nafter"),
    };
    let ops = pdf_text_ops(&doc);
    assert_eq!(ops.len(), 4);
    // The language tag, then the body lines verbatim, all left-anchored.
    assert_eq!(ops[0].text, "rust");
    assert_eq!(ops[0].font_size, 10);
    assert_eq!(ops[0].x_mm, 20);
    assert_eq!(ops[0].y_mm, 270);
    assert_eq!(ops[1].text, "let x;");
    assert_eq!(ops[1].font_size, 12);
    assert_eq!(ops[1].y_mm, 258);
    assert_eq!(ops[2].text, "let y;");
    assert_eq!(ops[2].y_mm, 243);
    assert_eq!(ops[3].text, "after");
    assert_eq!(ops[3].y_mm, 223);
}

#[test]
fn pdf_ops_code_is_never_shaped() {
    // Code is treated as left-to-right even when it contains Arabic text:
    // the body line is placed raw, not through the shaper, and stays
    // left-anchored.
    let arabic = "\u{645}\u{631}\u{62d}\u{628}\u{627}";
    let doc = pdx::PdxDocument {
        version: 1,
        metadata: Metadata::default(),
        styles: StyleSheet::default(),
        content: parse_content(&format!("```\n{arabic}\n```")),
    };
    let ops = pdf_text_ops(&doc);
    assert_eq!(ops.len(), 2);
    assert_eq!(ops[1].text, arabic);
    assert_ne!(ops[1].text, pdx_text(arabic));
    assert_eq!(ops[1].x_mm, 20);
}

#[test]
fn pdf_ops_render_image_placeholder() {
    let doc = pdx::PdxDocument {
        version: 1,
        metadata: Metadata::default(),
        styles: StyleSheet::default(),
        content: parse_content("![a](b)\nhello"),
    };
    let ops = pdf_text_ops(&doc);
    assert_eq!(ops.len(), 2);
    assert_eq!(ops[0].text, image_placeholder("a"));
    assert_eq!(ops[0].x_mm, 20);
    assert_eq!(ops[0].y_mm, 270);
    assert_eq!(ops[1].text, "hello");
    assert_eq!(ops[1].y_mm, 250);
}

#[test]
fn pdf_ops_divider_advances_cursor() {
    let doc = pdx::PdxDocument {
        version: 1,
        metadata: Metadata::default(),
        styles: StyleSheet::default(),
        content: parse_content("a\n---\nb"),
    };
    let ops = pdf_text_ops(&doc);
    assert_eq!(ops.len(), 2);
    assert_eq!(ops[0].y_mm, 270);
    assert_eq!(ops[1].y_mm, 230);
}

#[test]
fn html_export_ordered_list_tag() {
    let list = Node::List {
        ordered: true,
        items: vec![ListItem { content: vec![TextRun::new("a", "en", "paragraph")] }],
        style: "list".to_string(),
    };
    let doc = pdx::PdxDocument {
        version: 1,
        metadata: Metadata::default(),
        styles: StyleSheet::default(),
        content: Node::Document { children: vec![list] },
    };
    let html = export_as_html(&doc);
    assert!(html.contains("<ol><li class=\"ltr\">a</li></ol>\n"));
}
