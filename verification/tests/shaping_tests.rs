use pdx::Direction;
use pdx::TextRun;
use pdx::detect_direction;
use pdx::is_arabic;
use pdx::pdx_text;

#[test]
fn latin_text_is_unchanged() {
    assert_eq!(pdx_text("hello world"), "hello world");
    assert_eq!(pdx_text(""), "");
    assert_eq!(pdx_text("123 !? aeiou"), "123 !? aeiou");
}

#[test]
fn shaping_is_deterministic() {
    let s = "hello \u{645}\u{631}\u{62d}\u{628}\u{627} world";
    assert_eq!(pdx_text(s), pdx_text(s));
    let t = "\u{627}\u{644}\u{633}\u{644}\u{627}\u{645} \u{639}\u{644}\u{64a}\u{643}\u{645}";
    assert_eq!(pdx_text(t), pdx_text(t));
}

#[test]
fn arabic_text_is_reshaped() {
    // The reshaper substitutes presentation forms and the reorder step
    // reverses the visual order, so the output differs from the input.
    let s = "\u{645}\u{631}\u{62d}\u{628}\u{627}";
    assert_ne!(pdx_text(s), s);
}

#[test]
fn arabic_detection() {
    assert!(is_arabic("\u{645}\u{631}\u{62d}\u{628}\u{627}"));
    assert!(is_arabic("mixed \u{62d} text"));
    assert!(!is_arabic("plain latin"));
    assert!(!is_arabic(""));
}

#[test]
fn direction_detection() {
    assert_eq!(
        detect_direction("\u{645}\u{631}\u{62d}\u{628}\u{627}"),
        Direction::RTL
    );
    assert_eq!(detect_direction("hello"), Direction::LTR);
    assert_eq!(detect_direction(""), Direction::LTR);
}

#[test]
fn run_direction_follows_language() {
    assert_eq!(TextRun::new("x", "ar", "s").direction, Direction::RTL);
    assert_eq!(TextRun::new("x", "fa", "s").direction, Direction::RTL);
    assert_eq!(TextRun::new("x", "ur", "s").direction, Direction::RTL);
    assert_eq!(TextRun::new("x", "en", "s").direction, Direction::LTR);
    assert_eq!(TextRun::new("x", "fr", "s").direction, Direction::LTR);
}

#[test]
fn parsed_run_direction_matches_script() {
    let doc = pdx::parse_content("latin line\n\n\u{62d}\u{631}\u{641}");
    match &doc {
        pdx::Node::Document { children } => {
            match &children[0] {
                pdx::Node::Paragraph { runs, .. } => {
                    assert_eq!(runs[0].direction, Direction::LTR)
                }
                other => panic!("expected a paragraph, got {:?}", other),
            }
            match &children[1] {
                pdx::Node::Paragraph { runs, .. } => {
                    assert_eq!(runs[0].direction, Direction::RTL)
                }
                other => panic!("expected a paragraph, got {:?}", other),
            }
        }
        other => panic!("expected a document, got {:?}", other),
    }
}

#[test]
fn zwj_text_is_left_unshaped() {
    // A zero-width joiner before a lam-alef pair trips the reshaper's
    // ligature bookkeeping, so such text bypasses shaping entirely and
    // comes back unchanged.
    let s = "\u{200d}\u{644}\u{627}";
    assert_eq!(pdx_text(s), s);
    let mixed = "ab \u{644}\u{627}\u{200d} cd";
    assert_eq!(pdx_text(mixed), mixed);
}

#[test]
fn harakat_only_text_does_not_crash() {
    // A combining mark alone is in the Arabic block but reshapes to an
    // empty string; the pipeline must still return cleanly.
    let s = "\u{0610}";
    let shaped = pdx_text(s);
    assert_eq!(shaped, pdx_text(s));
}
