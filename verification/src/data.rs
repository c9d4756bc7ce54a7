//! The document data model: block nodes with styled text runs, the style
//! sheet with its resolution rules, and document metadata.
//!
//! Sizes and spacing that renderers treat as fractional are carried here as
//! plain integers in hundredths of their unit (a `font_size` of `1600` is
//! sixteen points), so that every invariant about them is machine-checked.

use vstd::prelude::*;

use crate::chars::str_eq;

verus! {

// ============================================================================
// Styles
// ============================================================================

#[derive(Debug, Clone, Copy, PartialEq, Eq, Structural)]
pub enum FontWeight {
    Normal,
    Bold,
    Light,
}

impl Default for FontWeight {
    fn default() -> (r: Self)
        ensures
            r == FontWeight::Normal,
    {
        FontWeight::Normal
    }
}

#[derive(Debug, Clone, Copy, PartialEq, Eq, Structural)]
pub enum TextAlign {
    Start,
    End,
    Center,
    Justify,
}

impl Default for TextAlign {
    fn default() -> (r: Self)
        ensures
            r == TextAlign::Start,
    {
        TextAlign::Start
    }
}

/// The writing direction of a run or a style.
#[derive(Debug, Clone, Copy, PartialEq, Eq, Structural)]
pub enum Direction {
    LTR,
    RTL,
    Auto,
}

impl Default for Direction {
    fn default() -> (r: Self)
        ensures
            r == Direction::Auto,
    {
        Direction::Auto
    }
}

/// An opaque-alpha colour as one byte per channel.
#[derive(Debug, Clone, Copy, PartialEq, Eq, Structural)]
pub struct Color {
    pub r: u8,
    pub g: u8,
    pub b: u8,
}

impl Color {
    pub fn rgb(r: u8, g: u8, b: u8) -> (c: Self)
        ensures
            c == (Color { r, g, b }),
    {
        Color { r, g, b }
    }
}

impl Default for Color {
    fn default() -> (r: Self)
        ensures
            r == (Color { r: 0, g: 0, b: 0 }),
    {
        Color { r: 0, g: 0, b: 0 }
    }
}

/// Spacing around a block, in hundredths of a point.
#[derive(Debug, Clone, Copy, PartialEq, Eq, Structural)]
pub struct EdgeInsets {
    pub top: u32,
    pub right: u32,
    pub bottom: u32,
    pub left: u32,
}

impl EdgeInsets {
    pub fn new(top: u32, right: u32, bottom: u32, left: u32) -> (r: Self)
        ensures
            r == (EdgeInsets { top, right, bottom, left }),
    {
        EdgeInsets { top, right, bottom, left }
    }

    pub fn all(value: u32) -> (r: Self)
        ensures
            r == (EdgeInsets { top: value, right: value, bottom: value, left: value }),
    {
        EdgeInsets::new(value, value, value, value)
    }
}

impl Default for EdgeInsets {
    fn default() -> (r: Self)
        ensures
            r == (EdgeInsets { top: 0, right: 0, bottom: 0, left: 0 }),
    {
        EdgeInsets { top: 0, right: 0, bottom: 0, left: 0 }
    }
}

/// One resolved style record. `font_size` and `line_height` are in
/// hundredths (a `line_height` of `180` means 1.8 times the font size).
#[derive(Debug, Clone, Copy, PartialEq, Eq, Structural)]
pub struct Style {
    pub font_size: u32,
    pub font_weight: FontWeight,
    pub color: Color,
    pub text_align: TextAlign,
    pub direction: Direction,
    pub line_height: u32,
    pub margin: EdgeInsets,
    pub padding: EdgeInsets,
}

/// The all-zero default style: the structural fallback for names that do
/// not resolve.
pub open spec fn default_style() -> Style {
    Style {
        font_size: 0,
        font_weight: FontWeight::Normal,
        color: Color { r: 0, g: 0, b: 0 },
        text_align: TextAlign::Start,
        direction: Direction::Auto,
        line_height: 0,
        margin: EdgeInsets { top: 0, right: 0, bottom: 0, left: 0 },
        padding: EdgeInsets { top: 0, right: 0, bottom: 0, left: 0 },
    }
}

impl Default for Style {
    fn default() -> (r: Self)
        ensures
            r == default_style(),
    {
        Style {
            font_size: 0,
            font_weight: FontWeight::Normal,
            color: Color { r: 0, g: 0, b: 0 },
            text_align: TextAlign::Start,
            direction: Direction::Auto,
            line_height: 0,
            margin: EdgeInsets { top: 0, right: 0, bottom: 0, left: 0 },
            padding: EdgeInsets { top: 0, right: 0, bottom: 0, left: 0 },
        }
    }
}

/// A mapping from style names to styles, looked up front to back. When
/// two entries carry the same name, the first one wins; sheets built by
/// this library keep their names unique ([`sheet_keys_unique`]).
#[derive(Debug, Clone, PartialEq)]
pub struct StyleSheet {
    pub styles: Vec<(String, Style)>,
    pub active_theme: String,
}

/// No two entries of the sheet carry the same name.
pub open spec fn sheet_keys_unique(entries: Seq<(String, Style)>) -> bool {
    forall|i: int, j: int|
        0 <= i < j < entries.len() ==> (#[trigger] entries[i].0)@ != (#[trigger] entries[j].0)@
}

/// The style bound to `name` by the first matching entry, if any.
pub open spec fn lookup_spec(entries: Seq<(String, Style)>, name: Seq<char>) -> Option<Style>
    decreases entries.len(),
{
    if entries.len() == 0 {
        None
    } else if entries[0].0@ == name {
        Some(entries[0].1)
    } else {
        lookup_spec(entries.drop_first(), name)
    }
}

/// A lookup skips over any leading entries whose names do not match.
pub proof fn lemma_lookup_prefix(entries: Seq<(String, Style)>, name: Seq<char>, k: nat)
    requires
        k <= entries.len(),
        forall|j: int| 0 <= j < k ==> entries[j].0@ != name,
    ensures
        lookup_spec(entries, name) == lookup_spec(entries.skip(k as int), name),
    decreases k,
{
    if k > 0 {
        assert(entries[0].0@ != name);
        assert forall|j: int| 0 <= j < k - 1 implies entries.drop_first()[j].0@ != name by {
            assert(entries.drop_first()[j] == entries[j + 1]);
        }
        lemma_lookup_prefix(entries.drop_first(), name, (k - 1) as nat);
        assert(entries.drop_first().skip(k - 1) =~= entries.skip(k as int));
    } else {
        assert(entries.skip(0) =~= entries);
    }
}

/// When no entry carries `name`, the lookup misses.
pub proof fn lemma_lookup_miss(entries: Seq<(String, Style)>, name: Seq<char>)
    requires
        forall|j: int| 0 <= j < entries.len() ==> entries[j].0@ != name,
    ensures
        lookup_spec(entries, name) is None,
{
    lemma_lookup_prefix(entries, name, entries.len());
}

/// The view of a style-sheet entry list: names as character sequences.
pub open spec fn entries_view(entries: Seq<(String, Style)>) -> Seq<(Seq<char>, Style)> {
    entries.map_values(|e: (String, Style)| (e.0@, e.1))
}

/// The four styles a fresh sheet is seeded with.
pub open spec fn seeded_styles() -> Seq<(Seq<char>, Style)> {
    seq![
        (
            "heading1"@,
            (Style {
                font_size: 2800,
                font_weight: FontWeight::Bold,
                color: Color { r: 0, g: 0, b: 0 },
                text_align: TextAlign::Start,
                direction: Direction::Auto,
                line_height: 0,
                margin: EdgeInsets { top: 1200, right: 0, bottom: 1600, left: 0 },
                padding: EdgeInsets { top: 0, right: 0, bottom: 0, left: 0 },
            }),
        ),
        (
            "heading2"@,
            (Style {
                font_size: 2200,
                font_weight: FontWeight::Bold,
                color: Color { r: 40, g: 40, b: 40 },
                text_align: TextAlign::Start,
                direction: Direction::Auto,
                line_height: 0,
                margin: EdgeInsets { top: 1000, right: 0, bottom: 1200, left: 0 },
                padding: EdgeInsets { top: 0, right: 0, bottom: 0, left: 0 },
            }),
        ),
        (
            "paragraph"@,
            (Style {
                font_size: 1600,
                font_weight: FontWeight::Normal,
                color: Color { r: 0, g: 0, b: 0 },
                text_align: TextAlign::Start,
                direction: Direction::Auto,
                line_height: 180,
                margin: EdgeInsets { top: 0, right: 0, bottom: 1000, left: 0 },
                padding: EdgeInsets { top: 0, right: 0, bottom: 0, left: 0 },
            }),
        ),
        (
            "arabic"@,
            (Style {
                font_size: 1800,
                font_weight: FontWeight::Normal,
                color: Color { r: 0, g: 0, b: 0 },
                text_align: TextAlign::Start,
                direction: Direction::RTL,
                line_height: 200,
                margin: EdgeInsets { top: 0, right: 0, bottom: 0, left: 0 },
                padding: EdgeInsets { top: 0, right: 0, bottom: 0, left: 0 },
            }),
        ),
    ]
}

impl StyleSheet {
    /// Resolve `name` to its style, or to the all-zero default on a miss;
    /// resolution never fails and never adds an entry.
    pub fn resolve(&self, name: &str) -> (s: Style)
        ensures
            s == match lookup_spec(self.styles@, name@) {
                Some(st) => st,
                None => default_style(),
            },
    {
        let n: usize = self.styles.len();
        let mut i: usize = 0;
        while i < n
            invariant
                n == self.styles@.len(),
                i <= n,
                forall|j: int| 0 <= j < i ==> self.styles@[j].0@ != name@,
            decreases n - i,
        {
            let hit = str_eq(self.styles[i].0.as_str(), name);
            if hit {
                proof {
                    lemma_lookup_prefix(self.styles@, name@, i as nat);
                    assert(self.styles@.skip(i as int)[0] == self.styles@[i as int]);
                }
                return self.styles[i].1;
            }
            i = i + 1;
        }
        proof {
            lemma_lookup_miss(self.styles@, name@);
        }
        Style::default()
    }
}

impl Default for StyleSheet {
    /// A fresh sheet seeded with the four standard entries, under four
    /// distinct names.
    fn default() -> (r: Self)
        ensures
            entries_view(r.styles@) == seeded_styles(),
            sheet_keys_unique(r.styles@),
            r.active_theme@ == "default"@,
    {
        let mut styles: Vec<(String, Style)> = Vec::new();
        styles.push(
            (
                String::from_str("heading1"),
                Style {
                    font_size: 2800,
                    font_weight: FontWeight::Bold,
                    color: Color::rgb(0, 0, 0),
                    text_align: TextAlign::Start,
                    direction: Direction::Auto,
                    line_height: 0,
                    margin: EdgeInsets::new(1200, 0, 1600, 0),
                    padding: EdgeInsets::all(0),
                },
            ),
        );
        styles.push(
            (
                String::from_str("heading2"),
                Style {
                    font_size: 2200,
                    font_weight: FontWeight::Bold,
                    color: Color::rgb(40, 40, 40),
                    text_align: TextAlign::Start,
                    direction: Direction::Auto,
                    line_height: 0,
                    margin: EdgeInsets::new(1000, 0, 1200, 0),
                    padding: EdgeInsets::all(0),
                },
            ),
        );
        styles.push(
            (
                String::from_str("paragraph"),
                Style {
                    font_size: 1600,
                    font_weight: FontWeight::Normal,
                    color: Color::rgb(0, 0, 0),
                    text_align: TextAlign::Start,
                    direction: Direction::Auto,
                    line_height: 180,
                    margin: EdgeInsets::new(0, 0, 1000, 0),
                    padding: EdgeInsets::all(0),
                },
            ),
        );
        styles.push(
            (
                String::from_str("arabic"),
                Style {
                    font_size: 1800,
                    font_weight: FontWeight::Normal,
                    color: Color::rgb(0, 0, 0),
                    text_align: TextAlign::Start,
                    direction: Direction::RTL,
                    line_height: 200,
                    margin: EdgeInsets::all(0),
                    padding: EdgeInsets::all(0),
                },
            ),
        );
        let r = StyleSheet { styles, active_theme: String::from_str("default") };
        proof {
            assert(entries_view(r.styles@) =~= seeded_styles());
            reveal_strlit("heading1");
            reveal_strlit("heading2");
            reveal_strlit("paragraph");
            reveal_strlit("arabic");
            assert("heading1"@[7] != "heading2"@[7]);
            assert("heading1"@.len() != "paragraph"@.len());
            assert("heading1"@.len() != "arabic"@.len());
            assert("heading2"@.len() != "paragraph"@.len());
            assert("heading2"@.len() != "arabic"@.len());
            assert("paragraph"@.len() != "arabic"@.len());
            assert(sheet_keys_unique(r.styles@));
        }
        r
    }
}

// ============================================================================
// Metadata
// ============================================================================

/// Relies on `chrono::Local::now` (formatted with its `Display`): the
/// current local date and time as text. Nothing is assumed about the value.
#[verifier::external_body]
fn local_now_string() -> String {
    chrono::Local::now().to_string()
}

/// Document metadata, touched only by explicit edits, never by the parser.
#[derive(Debug, Clone, PartialEq)]
pub struct Metadata {
    pub title: String,
    pub author: String,
    pub language: String,
    pub created: String,
    pub modified: String,
    pub keywords: Vec<String>,
}

impl Default for Metadata {
    /// Fresh metadata; `created` and `modified` are stamped with the
    /// current time, about which nothing further is promised.
    fn default() -> (r: Self)
        ensures
            r.title@ == "Untitled Document"@,
            r.author@ == Seq::<char>::empty(),
            r.language@ == "en"@,
            r.keywords@.len() == 0,
    {
        Metadata {
            title: String::from_str("Untitled Document"),
            author: String::new(),
            language: String::from_str("en"),
            created: local_now_string(),
            modified: local_now_string(),
            keywords: Vec::new(),
        }
    }
}

// ============================================================================
// Text runs and block nodes
// ============================================================================

/// The mathematical image of a `TextRun`.
#[verifier::ext_equal]
pub struct RunSpec {
    pub text: Seq<char>,
    pub language: Seq<char>,
    pub direction: Direction,
    pub style: Seq<char>,
}

/// The direction a run derives from its language code at construction:
/// right-to-left exactly for the Arabic-script language codes.
pub open spec fn run_direction(lang: Seq<char>) -> Direction {
    if lang == "ar"@ || lang == "fa"@ || lang == "ur"@ {
        Direction::RTL
    } else {
        Direction::LTR
    }
}

/// A span of text sharing one language, direction and style.
#[derive(Debug, Clone, PartialEq)]
pub struct TextRun {
    pub text: String,
    pub language: String,
    pub direction: Direction,
    pub style: String,
}

impl View for TextRun {
    type V = RunSpec;

    open spec fn view(&self) -> RunSpec {
        RunSpec {
            text: self.text@,
            language: self.language@,
            direction: self.direction,
            style: self.style@,
        }
    }
}

impl TextRun {
    /// Build a run; the direction is derived from the language code and is
    /// never set independently of it.
    pub fn new(text: &str, language: &str, style: &str) -> (r: TextRun)
        ensures
            r@ == (RunSpec {
                text: text@,
                language: language@,
                direction: run_direction(language@),
                style: style@,
            }),
    {
        let direction = if str_eq(language, "ar") || str_eq(language, "fa") || str_eq(
            language,
            "ur",
        ) {
            Direction::RTL
        } else {
            Direction::LTR
        };
        TextRun {
            text: String::from_str(text),
            language: String::from_str(language),
            direction,
            style: String::from_str(style),
        }
    }
}

/// The view of a run sequence.
pub open spec fn runs_view(runs: Seq<TextRun>) -> Seq<RunSpec> {
    runs.map_values(|r: TextRun| r@)
}

/// One item of a list block.
#[derive(Debug, Clone, PartialEq)]
pub struct ListItem {
    pub content: Vec<TextRun>,
}

impl View for ListItem {
    type V = Seq<RunSpec>;

    open spec fn view(&self) -> Seq<RunSpec> {
        runs_view(self.content@)
    }
}

/// The mathematical image of one block node. The root `Document` variant of
/// `Node` is not a block; its children each map to one `BlockSpec`.
#[verifier::ext_equal]
pub enum BlockSpec {
    Heading { level: u8, runs: Seq<RunSpec>, style: Seq<char> },
    Paragraph { runs: Seq<RunSpec>, style: Seq<char> },
    List { ordered: bool, items: Seq<Seq<RunSpec>>, style: Seq<char> },
    CodeBlock { language: Seq<char>, code: Seq<char>, style: Seq<char> },
    Image { path: Seq<char>, alt_text: Seq<char>, width: Option<u32>, height: Option<u32> },
    Divider,
    PageBreak,
}

/// A structural unit of a document. `Document` is the tree root and is
/// allowed nowhere else. `width` and `height` of an image are logical
/// pixels.
#[derive(Debug, PartialEq)]
pub enum Node {
    Document { children: Vec<Node> },
    Heading { level: u8, runs: Vec<TextRun>, style: String },
    Paragraph { runs: Vec<TextRun>, style: String },
    List { ordered: bool, items: Vec<ListItem>, style: String },
    CodeBlock { language: String, code: String, style: String },
    Image { path: String, alt_text: String, width: Option<u32>, height: Option<u32> },
    Divider,
    PageBreak,
}

impl Node {
    /// The view of a non-root node. A `Document` node has no block view;
    /// the arbitrary value returned for it is never relied upon.
    pub open spec fn block_view(self) -> BlockSpec {
        match self {
            Node::Document { .. } => BlockSpec::Divider,
            Node::Heading { level, runs, style } => BlockSpec::Heading {
                level,
                runs: runs_view(runs@),
                style: style@,
            },
            Node::Paragraph { runs, style } => BlockSpec::Paragraph {
                runs: runs_view(runs@),
                style: style@,
            },
            Node::List { ordered, items, style } => BlockSpec::List {
                ordered,
                items: items@.map_values(|it: ListItem| it@),
                style: style@,
            },
            Node::CodeBlock { language, code, style } => BlockSpec::CodeBlock {
                language: language@,
                code: code@,
                style: style@,
            },
            Node::Image { path, alt_text, width, height } => BlockSpec::Image {
                path: path@,
                alt_text: alt_text@,
                width,
                height,
            },
            Node::Divider => BlockSpec::Divider,
            Node::PageBreak => BlockSpec::PageBreak,
        }
    }

    /// The block views of a root node's children.
    pub open spec fn doc_view(self) -> Seq<BlockSpec> {
        match self {
            Node::Document { children } => children@.map_values(|c: Node| c.block_view()),
            _ => Seq::empty(),
        }
    }

    /// A well-formed tree: a root whose children are all proper blocks.
    pub open spec fn doc_wf(self) -> bool {
        match self {
            Node::Document { children } => forall|i: int|
                0 <= i < children@.len() ==> !(#[trigger] children@[i] is Document),
            _ => false,
        }
    }
}

impl Default for Node {
    fn default() -> (r: Self)
        ensures
            r is Document,
            r.doc_view() == Seq::<BlockSpec>::empty(),
            r.doc_wf(),
    {
        let r = Node::Document { children: Vec::new() };
        proof {
            assert(r.doc_view() =~= Seq::<BlockSpec>::empty());
        }
        r
    }
}

// ============================================================================
// Documents
// ============================================================================

/// The persisted document record: a schema version, metadata, the style
/// sheet, and the content tree.
#[derive(Debug, PartialEq)]
pub struct PdxDocument {
    pub version: u32,
    pub metadata: Metadata,
    pub styles: StyleSheet,
    pub content: Node,
}


// ============================================================================
// Sample document
// ============================================================================

/// The blocks of the demonstration document.
pub open spec fn sample_blocks() -> Seq<BlockSpec> {
    seq![
        (BlockSpec::Heading {
            level: 1,
            runs: seq![
                (RunSpec {
                    text: "Welcome to PDX Editor"@,
                    language: "en"@,
                    direction: Direction::LTR,
                    style: "heading1"@,
                }),
            ],
            style: "heading1"@,
        }),
        (BlockSpec::Paragraph {
            runs: seq![
                (RunSpec {
                    text: "PDX is a modern document format with full Arabic support, real PDF/PNG export, and a comfortable theme for long writing sessions."@,
                    language: "en"@,
                    direction: Direction::LTR,
                    style: "paragraph"@,
                }),
            ],
            style: "paragraph"@,
        }),
        BlockSpec::Divider,
        (BlockSpec::Heading {
            level: 2,
            runs: seq![
                (RunSpec {
                    text: "\u{645}\u{631}\u{62d}\u{628}\u{627}\u{64b} \u{628}\u{643} \u{641}\u{64a} \u{645}\u{62d}\u{631}\u{631} PDX"@,
                    language: "ar"@,
                    direction: Direction::RTL,
                    style: "heading2"@,
                }),
            ],
            style: "heading2"@,
        }),
        (BlockSpec::Paragraph {
            runs: seq![
                (RunSpec {
                    text: "\u{647}\u{630}\u{627} \u{627}\u{644}\u{645}\u{62d}\u{631}\u{631} \u{64a}\u{62f}\u{639}\u{645} \u{627}\u{644}\u{644}\u{63a}\u{629} \u{627}\u{644}\u{639}\u{631}\u{628}\u{64a}\u{629} \u{628}\u{634}\u{643}\u{644} \u{643}\u{627}\u{645}\u{644} \u{645}\u{639} \u{627}\u{644}\u{643}\u{62a}\u{627}\u{628}\u{629} \u{645}\u{646} \u{627}\u{644}\u{64a}\u{645}\u{64a}\u{646} \u{625}\u{644}\u{649} \u{627}\u{644}\u{64a}\u{633}\u{627}\u{631}. \u{64a}\u{645}\u{643}\u{646}\u{643} \u{643}\u{62a}\u{627}\u{628}\u{629} \u{627}\u{644}\u{645}\u{633}\u{62a}\u{646}\u{62f}\u{627}\u{62a} \u{628}\u{627}\u{644}\u{639}\u{631}\u{628}\u{64a}\u{629} \u{628}\u{633}\u{647}\u{648}\u{644}\u{629} \u{62a}\u{627}\u{645}\u{629}."@,
                    language: "ar"@,
                    direction: Direction::RTL,
                    style: "arabic"@,
                }),
            ],
            style: "arabic"@,
        }),
        BlockSpec::Divider,
        (BlockSpec::Heading {
            level: 2,
            runs: seq![
                (RunSpec {
                    text: "New Features - \u{627}\u{644}\u{645}\u{645}\u{64a}\u{632}\u{627}\u{62a} \u{627}\u{644}\u{62c}\u{62f}\u{64a}\u{62f}\u{629}"@,
                    language: "en"@,
                    direction: Direction::LTR,
                    style: "heading2"@,
                }),
            ],
            style: "heading2"@,
        }),
        (BlockSpec::List {
            ordered: false,
            items: seq![
                seq![
                    (RunSpec {
                        text: "Real PDF export with Arabic font embedding"@,
                        language: "en"@,
                        direction: Direction::LTR,
                        style: "paragraph"@,
                    }),
                ],
                seq![
                    (RunSpec {
                        text: "PNG image export for sharing"@,
                        language: "en"@,
                        direction: Direction::LTR,
                        style: "paragraph"@,
                    }),
                ],
                seq![
                    (RunSpec {
                        text: "Image embedding support in documents"@,
                        language: "en"@,
                        direction: Direction::LTR,
                        style: "paragraph"@,
                    }),
                ],
                seq![
                    (RunSpec {
                        text: "Comfort theme - optimized for long writing sessions"@,
                        language: "en"@,
                        direction: Direction::LTR,
                        style: "paragraph"@,
                    }),
                ],
            ],
            style: "list"@,
        }),
    ]
}

/// Build the demonstration document: a bilingual tour of the block kinds,
/// with the default style sheet and freshly stamped metadata.
pub fn create_sample_document() -> (r: PdxDocument)
    ensures
        r.version == 1,
        r.metadata.title@ == "PDX Demo Document"@,
        r.metadata.author@ == "PDX Editor"@,
        r.metadata.language@ == "en"@,
        r.metadata.keywords@.map_values(|k: String| k@) == seq![
            "pdx"@,
            "document"@,
            "\u{645}\u{633}\u{62a}\u{646}\u{62f}"@,
        ],
        entries_view(r.styles.styles@) == seeded_styles(),
        r.content is Document,
        r.content.doc_wf(),
        r.content.doc_view() == sample_blocks(),
{
    proof {
        crate::parser::lemma_lang_dirs();
    }
    let mut keywords: Vec<String> = Vec::new();
    keywords.push(String::from_str("pdx"));
    keywords.push(String::from_str("document"));
    keywords.push(String::from_str("\u{645}\u{633}\u{62a}\u{646}\u{62f}"));
    proof {
        assert(keywords@.map_values(|k: String| k@) =~= seq![
            "pdx"@,
            "document"@,
            "\u{645}\u{633}\u{62a}\u{646}\u{62f}"@,
        ]);
    }
    let metadata = Metadata {
        title: String::from_str("PDX Demo Document"),
        author: String::from_str("PDX Editor"),
        language: String::from_str("en"),
        created: local_now_string(),
        modified: local_now_string(),
        keywords,
    };
    let mut children: Vec<Node> = Vec::new();
    let mut runs1: Vec<TextRun> = Vec::new();
    runs1.push(TextRun::new("Welcome to PDX Editor", "en", "heading1"));
    children.push(Node::Heading { level: 1, runs: runs1, style: String::from_str("heading1") });
    let mut runs2: Vec<TextRun> = Vec::new();
    runs2.push(
        TextRun::new(
            "PDX is a modern document format with full Arabic support, real PDF/PNG export, and a comfortable theme for long writing sessions.",
            "en",
            "paragraph",
        ),
    );
    children.push(Node::Paragraph { runs: runs2, style: String::from_str("paragraph") });
    children.push(Node::Divider);
    let mut runs3: Vec<TextRun> = Vec::new();
    runs3.push(
        TextRun::new(
            "\u{645}\u{631}\u{62d}\u{628}\u{627}\u{64b} \u{628}\u{643} \u{641}\u{64a} \u{645}\u{62d}\u{631}\u{631} PDX",
            "ar",
            "heading2",
        ),
    );
    children.push(Node::Heading { level: 2, runs: runs3, style: String::from_str("heading2") });
    let mut runs4: Vec<TextRun> = Vec::new();
    runs4.push(
        TextRun::new(
            "\u{647}\u{630}\u{627} \u{627}\u{644}\u{645}\u{62d}\u{631}\u{631} \u{64a}\u{62f}\u{639}\u{645} \u{627}\u{644}\u{644}\u{63a}\u{629} \u{627}\u{644}\u{639}\u{631}\u{628}\u{64a}\u{629} \u{628}\u{634}\u{643}\u{644} \u{643}\u{627}\u{645}\u{644} \u{645}\u{639} \u{627}\u{644}\u{643}\u{62a}\u{627}\u{628}\u{629} \u{645}\u{646} \u{627}\u{644}\u{64a}\u{645}\u{64a}\u{646} \u{625}\u{644}\u{649} \u{627}\u{644}\u{64a}\u{633}\u{627}\u{631}. \u{64a}\u{645}\u{643}\u{646}\u{643} \u{643}\u{62a}\u{627}\u{628}\u{629} \u{627}\u{644}\u{645}\u{633}\u{62a}\u{646}\u{62f}\u{627}\u{62a} \u{628}\u{627}\u{644}\u{639}\u{631}\u{628}\u{64a}\u{629} \u{628}\u{633}\u{647}\u{648}\u{644}\u{629} \u{62a}\u{627}\u{645}\u{629}.",
            "ar",
            "arabic",
        ),
    );
    children.push(Node::Paragraph { runs: runs4, style: String::from_str("arabic") });
    children.push(Node::Divider);
    let mut runs5: Vec<TextRun> = Vec::new();
    runs5.push(
        TextRun::new(
            "New Features - \u{627}\u{644}\u{645}\u{645}\u{64a}\u{632}\u{627}\u{62a} \u{627}\u{644}\u{62c}\u{62f}\u{64a}\u{62f}\u{629}",
            "en",
            "heading2",
        ),
    );
    children.push(Node::Heading { level: 2, runs: runs5, style: String::from_str("heading2") });
    let mut items: Vec<ListItem> = Vec::new();
    let mut item1: Vec<TextRun> = Vec::new();
    item1.push(TextRun::new("Real PDF export with Arabic font embedding", "en", "paragraph"));
    items.push(ListItem { content: item1 });
    let mut item2: Vec<TextRun> = Vec::new();
    item2.push(TextRun::new("PNG image export for sharing", "en", "paragraph"));
    items.push(ListItem { content: item2 });
    let mut item3: Vec<TextRun> = Vec::new();
    item3.push(TextRun::new("Image embedding support in documents", "en", "paragraph"));
    items.push(ListItem { content: item3 });
    let mut item4: Vec<TextRun> = Vec::new();
    item4.push(
        TextRun::new("Comfort theme - optimized for long writing sessions", "en", "paragraph"),
    );
    items.push(ListItem { content: item4 });
    children.push(Node::List { ordered: false, items, style: String::from_str("list") });
    let content = Node::Document { children };
    proof {
        assert(content.doc_view() =~~= sample_blocks());
    }
    PdxDocument { version: 1, metadata, styles: StyleSheet::default(), content }
}

} // verus!
