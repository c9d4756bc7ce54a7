//! Export projections of a document tree.
//!
//! The static-markup export is computed here in full. The paginated export
//! is computed as a sequence of text-placement operations (what to draw, at
//! which size and position); writing those into an actual page file is a
//! caller's concern, as is rasterizing. The shared projection rules —
//! which runs are right-to-left, in which order they are displayed, and
//! that every drawn text is shaped first — live here as well, so all
//! consumers agree on them.

use vstd::prelude::*;

use crate::chars::chars_string;
use crate::chars::join_sep;
use crate::chars::lemma_join_push;
use crate::chars::push_str_chars;
use crate::data::BlockSpec;
use crate::data::Direction;
use crate::data::Node;
use crate::data::PdxDocument;
use crate::data::RunSpec;
use crate::data::TextRun;
use crate::data::runs_view;
use crate::parser::dec_str;
use crate::pdx_text::pdx_text;
use crate::pdx_text::shape_spec;

verus! {

// ============================================================================
// Shared projection rules
// ============================================================================

/// Does any run of the sequence read right to left?
pub open spec fn has_rtl(runs: Seq<RunSpec>) -> bool {
    exists|i: int| 0 <= i < runs.len() && runs[i].direction == Direction::RTL
}

/// The direction class of a run sequence, as used by the static export.
pub open spec fn dir_class(runs: Seq<RunSpec>) -> Seq<char> {
    if has_rtl(runs) {
        "rtl"@
    } else {
        "ltr"@
    }
}

/// The texts of a run sequence, concatenated without separators.
pub open spec fn concat_texts(runs: Seq<RunSpec>) -> Seq<char> {
    join_sep(runs.map_values(|r: RunSpec| r.text), Seq::empty())
}

/// The texts a consumer must draw for a run sequence, shaped, in display
/// order: reversed when the sequence reads right to left.
pub open spec fn display_texts(runs: Seq<RunSpec>) -> Seq<Seq<char>> {
    let shaped = runs.map_values(|r: RunSpec| shape_spec(r.text));
    if has_rtl(runs) {
        shaped.reverse()
    } else {
        shaped
    }
}

/// Does any run of the vector read right to left?
pub fn runs_rtl(runs: &Vec<TextRun>) -> (r: bool)
    ensures
        r == has_rtl(runs_view(runs@)),
{
    let mut i: usize = 0;
    while i < runs.len()
        invariant
            i <= runs@.len(),
            forall|j: int|
                0 <= j < i ==> (#[trigger] runs_view(runs@)[j]).direction != Direction::RTL,
        decreases runs@.len() - i,
    {
        if runs[i].direction == Direction::RTL {
            proof {
                assert(runs_view(runs@)[i as int].direction == Direction::RTL);
            }
            return true;
        }
        i = i + 1;
    }
    false
}

/// The shaped texts of a run sequence in the order a consumer must draw
/// them: reversed when any run is right-to-left, with the layout anchored
/// to the trailing edge.
pub fn display_runs(runs: &Vec<TextRun>) -> (r: Vec<String>)
    ensures
        r@.map_values(|s: String| s@) == display_texts(runs_view(runs@)),
{
    let ghost shaped = runs_view(runs@).map_values(|x: RunSpec| shape_spec(x.text));
    let rtl = runs_rtl(runs);
    let mut r: Vec<String> = Vec::new();
    let n: usize = runs.len();
    if rtl {
        let mut i: usize = n;
        while i > 0
            invariant
                n == runs@.len(),
                i <= n,
                shaped == runs_view(runs@).map_values(|x: RunSpec| shape_spec(x.text)),
                r@.len() == n - i,
                forall|j: int|
                    0 <= j < r@.len() ==> (#[trigger] r@[j])@ == shaped[n - 1 - j],
            decreases i,
        {
            i = i - 1;
            let s = pdx_text(runs[i].text.as_str());
            r.push(s);
        }
        proof {
            assert(r@.map_values(|s: String| s@) =~= shaped.reverse());
        }
    } else {
        let mut i: usize = 0;
        while i < n
            invariant
                n == runs@.len(),
                i <= n,
                shaped == runs_view(runs@).map_values(|x: RunSpec| shape_spec(x.text)),
                r@.len() == i,
                forall|j: int| 0 <= j < i ==> (#[trigger] r@[j])@ == shaped[j],
            decreases n - i,
        {
            let s = pdx_text(runs[i].text.as_str());
            r.push(s);
            i = i + 1;
        }
        proof {
            assert(r@.map_values(|s: String| s@) =~= shaped);
        }
    }
    r
}

/// The textual placeholder every consumer shows for an image whose
/// resource is unavailable: it references the alternative text.
pub open spec fn placeholder_text(alt_text: Seq<char>) -> Seq<char> {
    "\u{1f5bc}\u{fe0f} [Image: "@ + alt_text + "]"@
}

/// Build the placeholder for an image whose resource is unavailable.
pub fn image_placeholder(alt_text: &str) -> (r: String)
    ensures
        r@ == placeholder_text(alt_text@),
{
    let mut out: Vec<char> = Vec::new();
    push_str_chars(&mut out, "\u{1f5bc}\u{fe0f} [Image: ");
    push_str_chars(&mut out, alt_text);
    push_str_chars(&mut out, "]");
    chars_string(&out)
}

/// Append the concatenated texts of `runs` to `out`.
fn push_concat_texts(out: &mut Vec<char>, runs: &Vec<TextRun>)
    ensures
        final(out)@ == old(out)@ + concat_texts(runs_view(runs@)),
{
    let ghost texts = runs@.map_values(|r: TextRun| r@.text);
    let n: usize = runs.len();
    let mut i: usize = 0;
    proof {
        assert(texts.take(0) =~= Seq::<Seq<char>>::empty());
        assert(out@ =~= old(out)@ + join_sep(texts.take(0), Seq::empty()));
    }
    while i < n
        invariant
            n == runs@.len(),
            i <= n,
            texts == runs@.map_values(|r: TextRun| r@.text),
            out@ == old(out)@ + join_sep(texts.take(i as int), Seq::empty()),
        decreases n - i,
    {
        push_str_chars(out, runs[i].text.as_str());
        proof {
            let pref = texts.take(i as int);
            lemma_join_push(pref, Seq::empty(), texts[i as int]);
            assert(texts.take(i + 1) =~= pref.push(texts[i as int]));
            assert(out@ =~= old(out)@ + join_sep(texts.take(i + 1), Seq::empty()));
        }
        i = i + 1;
    }
    proof {
        assert(texts.take(n as int) =~= texts);
        assert(runs_view(runs@).map_values(|r: RunSpec| r.text) =~= texts);
    }
}

/// The concatenated texts of a run vector, as a string.
fn concat_runs(runs: &Vec<TextRun>) -> (r: String)
    ensures
        r@ == concat_texts(runs_view(runs@)),
{
    let mut out: Vec<char> = Vec::new();
    push_concat_texts(&mut out, runs);
    chars_string(&out)
}


// ============================================================================
// Static markup export
// ============================================================================

/// The markup of one list item.
pub open spec fn html_item(item: Seq<RunSpec>) -> Seq<char> {
    "<li class=\""@ + dir_class(item) + "\">"@ + concat_texts(item) + "</li>"@
}

/// The markup of a list body.
pub open spec fn html_items(items: Seq<Seq<RunSpec>>) -> Seq<char> {
    join_sep(items.map_values(|it: Seq<RunSpec>| html_item(it)), Seq::empty())
}

/// The markup of one block. Direction is indicated per block through a
/// class, not per run, and code is emitted verbatim.
pub open spec fn html_block(b: BlockSpec) -> Seq<char> {
    match b {
        BlockSpec::Heading { level, runs, .. } => "<h"@ + dec_str(level as nat)
            + " class=\""@ + dir_class(runs) + "\">"@ + concat_texts(runs) + "</h"@ + dec_str(
            level as nat,
        ) + ">\n"@,
        BlockSpec::Paragraph { runs, .. } => "<p class=\""@ + dir_class(runs) + "\">"@
            + concat_texts(runs) + "</p>\n"@,
        BlockSpec::List { ordered, items, .. } => {
            let tag = if ordered {
                "ol"@
            } else {
                "ul"@
            };
            "<"@ + tag + ">"@ + html_items(items) + "</"@ + tag + ">\n"@
        },
        BlockSpec::CodeBlock { language, code, .. } => "<pre><code class=\"language-"@
            + language + "\">"@ + code + "</code></pre>\n"@,
        BlockSpec::Image { path, alt_text, .. } => "<img src=\""@ + path + "\" alt=\""@
            + alt_text + "\" />\n"@,
        BlockSpec::Divider => "<hr/>\n"@,
        BlockSpec::PageBreak => "<hr style=\"border-top: 3px double #ddd;\"/>\n"@,
    }
}

/// The markup of a whole document body.
pub open spec fn html_body(blocks: Seq<BlockSpec>) -> Seq<char> {
    join_sep(blocks.map_values(|b: BlockSpec| html_block(b)), Seq::empty())
}

/// The complete standalone markup document for the given title and blocks.
pub open spec fn export_html_spec(title: Seq<char>, blocks: Seq<BlockSpec>) -> Seq<char> {
    "<!DOCTYPE html>\n<html dir=\"auto\">\n<head>\n    <meta charset=\"UTF-8\">\n    <meta name=\"viewport\" content=\"width=device-width, initial-scale=1.0\">\n    <title>"@
        + title
        + "</title>\n    <style>\n        body {\n            font-family: 'Segoe UI', Tahoma, Geneva, Verdana, sans-serif, 'Noto Sans Arabic';\n            max-width: 800px;\n            margin: 40px auto;\n            padding: 20px;\n            line-height: 1.8;\n            direction: auto;\n        }\n        .rtl { direction: rtl; text-align: right; }\n        .ltr { direction: ltr; text-align: left; }\n        h1 { font-size: 28px; margin: 12px 0 16px; }\n        h2 { font-size: 22px; margin: 10px 0 12px; }\n        p { margin: 10px 0; font-size: 16px; }\n        code { background: #f4f4f4; padding: 2px 6px; border-radius: 3px; }\n        pre { background: #f4f4f4; padding: 15px; border-radius: 5px; overflow-x: auto; }\n        hr { margin: 20px 0; border: none; border-top: 1px solid #ddd; }\n        img { max-width: 100%; height: auto; margin: 10px 0; }\n    </style>\n</head>\n<body>\n"@
        + html_body(blocks) + "</body>\n</html>"@
}

/// Append the decimal digits of `n` to `out`.
fn push_dec(out: &mut Vec<char>, n: usize)
    ensures
        final(out)@ == old(out)@ + dec_str(n as nat),
{
    let digits = crate::parser::dec_chars(n);
    crate::chars::push_all(out, &digits);
}

/// Append the markup of one block to `out`.
fn html_push_block(out: &mut Vec<char>, node: &Node)
    requires
        !(node is Document),
    ensures
        final(out)@ == old(out)@ + html_block(node.block_view()),
{
    match node {
        Node::Document { .. } => {
        }
        Node::Heading { level, runs, style: _ } => {
            push_str_chars(out, "<h");
            push_dec(out, *level as usize);
            push_str_chars(out, " class=\"");
            if runs_rtl(runs) {
                push_str_chars(out, "rtl");
            } else {
                push_str_chars(out, "ltr");
            }
            push_str_chars(out, "\">");
            push_concat_texts(out, runs);
            push_str_chars(out, "</h");
            push_dec(out, *level as usize);
            push_str_chars(out, ">\n");
        }
        Node::Paragraph { runs, style: _ } => {
            push_str_chars(out, "<p class=\"");
            if runs_rtl(runs) {
                push_str_chars(out, "rtl");
            } else {
                push_str_chars(out, "ltr");
            }
            push_str_chars(out, "\">");
            push_concat_texts(out, runs);
            push_str_chars(out, "</p>\n");
        }
        Node::List { ordered, items, style: _ } => {
            let ord: bool = *ordered;
            push_str_chars(out, "<");
            if ord {
                push_str_chars(out, "ol");
            } else {
                push_str_chars(out, "ul");
            }
            push_str_chars(out, ">");
            let ghost iv = items@.map_values(|it: crate::data::ListItem| it@);
            let ghost pieces = iv.map_values(|it: Seq<RunSpec>| html_item(it));
            let ghost mid = out@;
            let n: usize = items.len();
            let mut i: usize = 0;
            proof {
                assert(pieces.take(0) =~= Seq::<Seq<char>>::empty());
                assert(out@ =~= mid + join_sep(pieces.take(0), Seq::empty()));
            }
            while i < n
                invariant
                    n == items@.len(),
                    i <= n,
                    iv == items@.map_values(|it: crate::data::ListItem| it@),
                    pieces == iv.map_values(|it: Seq<RunSpec>| html_item(it)),
                    out@ == mid + join_sep(pieces.take(i as int), Seq::empty()),
                decreases n - i,
            {
                push_str_chars(out, "<li class=\"");
                if runs_rtl(&items[i].content) {
                    push_str_chars(out, "rtl");
                } else {
                    push_str_chars(out, "ltr");
                }
                push_str_chars(out, "\">");
                push_concat_texts(out, &items[i].content);
                push_str_chars(out, "</li>");
                proof {
                    let pref = pieces.take(i as int);
                    lemma_join_push(pref, Seq::empty(), pieces[i as int]);
                    assert(pieces.take(i + 1) =~= pref.push(pieces[i as int]));
                    assert(iv[i as int] == items@[i as int]@);
                    assert(out@ =~= mid + join_sep(pieces.take(i + 1), Seq::empty()));
                }
                i = i + 1;
            }
            proof {
                assert(pieces.take(n as int) =~= pieces);
                assert(html_items(iv) == join_sep(pieces, Seq::empty()));
            }
            push_str_chars(out, "</");
            if ord {
                push_str_chars(out, "ol");
            } else {
                push_str_chars(out, "ul");
            }
            push_str_chars(out, ">\n");
        }
        Node::CodeBlock { language, code, style: _ } => {
            push_str_chars(out, "<pre><code class=\"language-");
            push_str_chars(out, language.as_str());
            push_str_chars(out, "\">");
            push_str_chars(out, code.as_str());
            push_str_chars(out, "</code></pre>\n");
        }
        Node::Image { path, alt_text, width: _, height: _ } => {
            push_str_chars(out, "<img src=\"");
            push_str_chars(out, path.as_str());
            push_str_chars(out, "\" alt=\"");
            push_str_chars(out, alt_text.as_str());
            push_str_chars(out, "\" />\n");
        }
        Node::Divider => {
            push_str_chars(out, "<hr/>\n");
        }
        Node::PageBreak => {
            push_str_chars(out, "<hr style=\"border-top: 3px double #ddd;\"/>\n");
        }
    }
}

/// Render the whole document as a standalone markup page: a fixed header
/// carrying the title, then one element per block with its direction
/// class.
pub fn export_as_html(document: &PdxDocument) -> (r: String)
    requires
        document.content.doc_wf(),
    ensures
        r@ == export_html_spec(document.metadata.title@, document.content.doc_view()),
{
    let mut out: Vec<char> = Vec::new();
    push_str_chars(
        &mut out,
        "<!DOCTYPE html>\n<html dir=\"auto\">\n<head>\n    <meta charset=\"UTF-8\">\n    <meta name=\"viewport\" content=\"width=device-width, initial-scale=1.0\">\n    <title>",
    );
    push_str_chars(&mut out, document.metadata.title.as_str());
    push_str_chars(
        &mut out,
        "</title>\n    <style>\n        body {\n            font-family: 'Segoe UI', Tahoma, Geneva, Verdana, sans-serif, 'Noto Sans Arabic';\n            max-width: 800px;\n            margin: 40px auto;\n            padding: 20px;\n            line-height: 1.8;\n            direction: auto;\n        }\n        .rtl { direction: rtl; text-align: right; }\n        .ltr { direction: ltr; text-align: left; }\n        h1 { font-size: 28px; margin: 12px 0 16px; }\n        h2 { font-size: 22px; margin: 10px 0 12px; }\n        p { margin: 10px 0; font-size: 16px; }\n        code { background: #f4f4f4; padding: 2px 6px; border-radius: 3px; }\n        pre { background: #f4f4f4; padding: 15px; border-radius: 5px; overflow-x: auto; }\n        hr { margin: 20px 0; border: none; border-top: 1px solid #ddd; }\n        img { max-width: 100%; height: auto; margin: 10px 0; }\n    </style>\n</head>\n<body>\n",
    );
    match &document.content {
        Node::Document { children } => {
            let ghost blocks = children@.map_values(|c: Node| c.block_view());
            let ghost pieces = blocks.map_values(|b: BlockSpec| html_block(b));
            let ghost mid = out@;
            let n: usize = children.len();
            let mut i: usize = 0;
            proof {
                assert(pieces.take(0) =~= Seq::<Seq<char>>::empty());
                assert(out@ =~= mid + join_sep(pieces.take(0), Seq::empty()));
            }
            while i < n
                invariant
                    document.content.doc_wf(),
                    document.content matches Node::Document { children: c } && c@ == children@,
                    n == children@.len(),
                    i <= n,
                    blocks == children@.map_values(|c: Node| c.block_view()),
                    pieces == blocks.map_values(|b: BlockSpec| html_block(b)),
                    out@ == mid + join_sep(pieces.take(i as int), Seq::empty()),
                decreases n - i,
            {
                proof {
                    assert(!(children@[i as int] is Document));
                }
                html_push_block(&mut out, &children[i]);
                proof {
                    let pref = pieces.take(i as int);
                    lemma_join_push(pref, Seq::empty(), pieces[i as int]);
                    assert(pieces.take(i + 1) =~= pref.push(pieces[i as int]));
                    assert(out@ =~= mid + join_sep(pieces.take(i + 1), Seq::empty()));
                }
                i = i + 1;
            }
            proof {
                assert(pieces.take(n as int) =~= pieces);
            }
        }
        _ => {
            proof {
                assert(false);
            }
        }
    }
    push_str_chars(&mut out, "</body>\n</html>");
    chars_string(&out)
}


// ============================================================================
// Paginated export
// ============================================================================

/// One text placement of the paginated export: what to draw, at which font
/// size in points, and where on the page in millimetres. The vertical
/// coordinate may run below the page; the writer clips or ignores it.
#[derive(Debug, Clone, PartialEq)]
pub struct PdfOp {
    pub text: String,
    pub font_size: u32,
    pub x_mm: u32,
    pub y_mm: i64,
}

/// The mathematical image of a [`PdfOp`].
#[verifier::ext_equal]
pub struct PdfOpSpec {
    pub text: Seq<char>,
    pub font_size: u32,
    pub x_mm: u32,
    pub y_mm: int,
}

impl View for PdfOp {
    type V = PdfOpSpec;

    open spec fn view(&self) -> PdfOpSpec {
        PdfOpSpec {
            text: self.text@,
            font_size: self.font_size,
            x_mm: self.x_mm,
            y_mm: self.y_mm as int,
        }
    }
}

/// Move the vertical cursor down by `d`, saturating at a floor far below
/// any real page so the cursor stays representable.
pub open spec fn y_step(y: int, d: int) -> int {
    if y - d < -1000000000 {
        -1000000000
    } else {
        y - d
    }
}

/// The heading font size of the paginated export, fixed per level and not
/// taken from the style sheet.
pub open spec fn pdf_heading_size(level: u8) -> u32 {
    if level == 1 {
        24
    } else if level == 2 {
        20
    } else {
        16
    }
}

/// The marker the paginated export puts before a list item.
pub open spec fn pdf_marker(ordered: bool, m: int) -> Seq<char> {
    if ordered {
        dec_str((m + 1) as nat).push('.')
    } else {
        seq!['\u{2022}']
    }
}

/// The placements of a list's items from vertical position `y`, starting
/// at item `m`.
pub open spec fn pdf_list_ops(ordered: bool, items: Seq<Seq<RunSpec>>, m: int, y: int) -> Seq<
    PdfOpSpec,
>
    decreases items.len() - m,
{
    if m < 0 || m >= items.len() {
        Seq::empty()
    } else {
        seq![
            (PdfOpSpec {
                text: shape_spec(pdf_marker(ordered, m) + seq![' '] + concat_texts(items[m])),
                font_size: 12,
                x_mm: 25,
                y_mm: y,
            }),
        ] + pdf_list_ops(ordered, items, m + 1, y_step(y, 15))
    }
}

/// The placements of a code block's raw body lines from vertical position
/// `y`, starting at line `m`: verbatim and unshaped, always left-anchored,
/// since shaping or mirroring would corrupt source code tokens.
pub open spec fn pdf_code_ops(lines: Seq<Seq<char>>, m: int, y: int) -> Seq<PdfOpSpec>
    decreases lines.len() - m,
{
    if m < 0 || m >= lines.len() {
        Seq::empty()
    } else {
        seq![
            (PdfOpSpec { text: lines[m], font_size: 12, x_mm: 20, y_mm: y }),
        ] + pdf_code_ops(lines, m + 1, y_step(y, 15))
    }
}

/// The vertical position after `n` item steps of 15 from `y`.
pub open spec fn y_steps(y: int, n: nat) -> int
    decreases n,
{
    if n == 0 {
        y
    } else {
        y_steps(y_step(y, 15), (n - 1) as nat)
    }
}

/// The placements of one block from vertical position `y`. A code block
/// places its language tag and its body lines verbatim; an image places
/// its textual placeholder, since this projection loads no resources.
pub open spec fn pdf_block_ops(b: BlockSpec, y: int) -> Seq<PdfOpSpec> {
    match b {
        BlockSpec::Heading { level, runs, .. } => seq![
            (PdfOpSpec {
                text: shape_spec(concat_texts(runs)),
                font_size: pdf_heading_size(level),
                x_mm: if has_rtl(runs) {
                    190
                } else {
                    20
                },
                y_mm: y,
            }),
        ],
        BlockSpec::Paragraph { runs, .. } => seq![
            (PdfOpSpec {
                text: shape_spec(concat_texts(runs)),
                font_size: 12,
                x_mm: if has_rtl(runs) {
                    190
                } else {
                    20
                },
                y_mm: y,
            }),
        ],
        BlockSpec::List { ordered, items, .. } => pdf_list_ops(ordered, items, 0, y),
        BlockSpec::CodeBlock { language, code, .. } => seq![
            (PdfOpSpec { text: language, font_size: 10, x_mm: 20, y_mm: y }),
        ] + pdf_code_ops(crate::chars::lines_of(code), 0, y_step(y, 12)),
        BlockSpec::Image { alt_text, .. } => seq![
            (PdfOpSpec { text: placeholder_text(alt_text), font_size: 12, x_mm: 20, y_mm: y }),
        ],
        _ => Seq::empty(),
    }
}

/// The vertical position after one block placed at `y`.
pub open spec fn pdf_block_y(b: BlockSpec, y: int) -> int {
    match b {
        BlockSpec::Heading { level, .. } => y_step(y, pdf_heading_size(level) as int / 2 + 10),
        BlockSpec::Paragraph { .. } => y_step(y, 20),
        BlockSpec::List { items, .. } => y_step(y_steps(y, items.len()), 5),
        BlockSpec::CodeBlock { code, .. } => y_step(
            y_steps(y_step(y, 12), crate::chars::lines_of(code).len()),
            5,
        ),
        BlockSpec::Image { .. } => y_step(y, 20),
        BlockSpec::Divider => y_step(y, 20),
        BlockSpec::PageBreak => 270,
    }
}

/// The placements of a block sequence from vertical position `y`.
pub open spec fn pdf_ops_from(blocks: Seq<BlockSpec>, y: int) -> Seq<PdfOpSpec>
    decreases blocks.len(),
{
    if blocks.len() == 0 {
        Seq::empty()
    } else {
        pdf_block_ops(blocks[0], y) + pdf_ops_from(blocks.drop_first(), pdf_block_y(blocks[0], y))
    }
}

/// The placements of a whole document, starting near the top of the page.
pub open spec fn pdf_ops_spec(blocks: Seq<BlockSpec>) -> Seq<PdfOpSpec> {
    pdf_ops_from(blocks, 270)
}

/// Step the executable vertical cursor, mirroring `y_step`.
fn y_step_exec(y: i64, d: i64) -> (r: i64)
    requires
        -1000000000 <= y <= 270,
        0 <= d <= 30,
    ensures
        r as int == y_step(y as int, d as int),
        -1000000000 <= r <= 270,
{
    if y - d < -1000000000 {
        -1000000000
    } else {
        y - d
    }
}

/// Compute every text placement of the paginated export: headings and
/// paragraphs at fixed sizes, right-to-left blocks anchored at the right
/// margin, list items marked and indented, code blocks as their language
/// tag and verbatim body lines (unshaped and left-anchored by design),
/// images as their textual placeholder, and a page break resetting the
/// cursor to the top. Every placed run text is shaped.
pub fn pdf_text_ops(document: &PdxDocument) -> (ops: Vec<PdfOp>)
    requires
        document.content.doc_wf(),
    ensures
        ops@.map_values(|o: PdfOp| o@) == pdf_ops_spec(document.content.doc_view()),
{
    let mut ops: Vec<PdfOp> = Vec::new();
    let mut y: i64 = 270;
    match &document.content {
        Node::Document { children } => {
            let ghost blocks = children@.map_values(|c: Node| c.block_view());
            let n: usize = children.len();
            let mut i: usize = 0;
            proof {
                assert(blocks.skip(0) =~= blocks);
                assert(ops@.map_values(|o: PdfOp| o@) + pdf_ops_from(blocks.skip(0), 270)
                    =~= pdf_ops_from(blocks, 270));
            }
            while i < n
                invariant
                    document.content.doc_wf(),
                    document.content matches Node::Document { children: c } && c@ == children@,
                    n == children@.len(),
                    i <= n,
                    blocks == children@.map_values(|c: Node| c.block_view()),
                    -1000000000 <= y <= 270,
                    ops@.map_values(|o: PdfOp| o@) + pdf_ops_from(blocks.skip(i as int), y as int)
                        == pdf_ops_spec(blocks),
                decreases n - i,
            {
                let ghost rest = blocks.skip(i as int);
                let ghost oldops = ops@.map_values(|o: PdfOp| o@);
                proof {
                    assert(rest[0] == blocks[i as int]);
                    assert(rest.drop_first() =~= blocks.skip(i + 1));
                    assert(!(children@[i as int] is Document));
                }
                match &children[i] {
                    Node::Heading { level, runs, style: _ } => {
                        let size: u32 = if *level == 1 {
                            24
                        } else if *level == 2 {
                            20
                        } else {
                            16
                        };
                        let text = concat_runs(runs);
                        let shaped = pdx_text(text.as_str());
                        let x: u32 = if runs_rtl(runs) {
                            190
                        } else {
                            20
                        };
                        ops.push(PdfOp { text: shaped, font_size: size, x_mm: x, y_mm: y });
                        proof {
                            assert(ops@.map_values(|o: PdfOp| o@) =~~= oldops + pdf_block_ops(
                                rest[0],
                                y as int,
                            ));
                        }
                        y = y_step_exec(y, (size / 2 + 10) as i64);
                    }
                    Node::Paragraph { runs, style: _ } => {
                        let text = concat_runs(runs);
                        let shaped = pdx_text(text.as_str());
                        let x: u32 = if runs_rtl(runs) {
                            190
                        } else {
                            20
                        };
                        ops.push(PdfOp { text: shaped, font_size: 12, x_mm: x, y_mm: y });
                        proof {
                            assert(ops@.map_values(|o: PdfOp| o@) =~~= oldops + pdf_block_ops(
                                rest[0],
                                y as int,
                            ));
                        }
                        y = y_step_exec(y, 20);
                    }
                    Node::List { ordered, items, style: _ } => {
                        let ord: bool = *ordered;
                        let ghost iv = items@.map_values(|it: crate::data::ListItem| it@);
                        let k: usize = items.len();
                        let mut m: usize = 0;
                        proof {
                            assert(oldops + pdf_list_ops(ord, iv, 0, y as int) + pdf_ops_from(
                                blocks.skip(i + 1),
                                pdf_block_y(rest[0], y as int),
                            ) =~= pdf_ops_spec(blocks));
                        }
                        while m < k
                            invariant
                                k == items@.len(),
                                m <= k,
                                ord == *ordered,
                                iv == items@.map_values(|it: crate::data::ListItem| it@),
                                -1000000000 <= y <= 270,
                                ops@.map_values(|o: PdfOp| o@) + pdf_list_ops(
                                    ord,
                                    iv,
                                    m as int,
                                    y as int,
                                ) + pdf_ops_from(
                                    blocks.skip(i + 1),
                                    y_step(y_steps(y as int, (k - m) as nat), 5),
                                ) == pdf_ops_spec(blocks),
                            decreases k - m,
                        {
                            let ghost oldo = ops@.map_values(|o: PdfOp| o@);
                            let mut marker: Vec<char> = Vec::new();
                            if ord {
                                let digits = crate::parser::dec_chars(m + 1);
                                crate::chars::push_all(&mut marker, &digits);
                                marker.push('.');
                            } else {
                                marker.push('\u{2022}');
                            }
                            marker.push(' ');
                            push_concat_texts(&mut marker, &items[m].content);
                            let text = chars_string(&marker);
                            let shaped = pdx_text(text.as_str());
                            ops.push(
                                PdfOp { text: shaped, font_size: 12, x_mm: 25, y_mm: y },
                            );
                            proof {
                                assert(iv[m as int] == items@[m as int]@);
                                assert(marker@ =~= pdf_marker(ord, m as int) + seq![' ']
                                    + concat_texts(iv[m as int]));
                                assert(ops@.map_values(|o: PdfOp| o@) =~~= oldo + seq![
                                    (PdfOpSpec {
                                        text: shape_spec(
                                            pdf_marker(ord, m as int) + seq![' ']
                                                + concat_texts(iv[m as int]),
                                        ),
                                        font_size: 12,
                                        x_mm: 25,
                                        y_mm: y as int,
                                    }),
                                ]);
                                lemma_y_steps_unfold(y as int, (k - m) as nat);
                            }
                            y = y_step_exec(y, 15);
                            m = m + 1;
                        }
                        proof {
                            assert(pdf_list_ops(ord, iv, k as int, y as int)
                                =~= Seq::<PdfOpSpec>::empty());
                            assert(ops@.map_values(|o: PdfOp| o@) + pdf_ops_from(
                                blocks.skip(i + 1),
                                y_step(y as int, 5),
                            ) =~= pdf_ops_spec(blocks));
                        }
                        y = y_step_exec(y, 5);
                    }
                    Node::CodeBlock { language, code, style: _ } => {
                        let tag: String = language.clone();
                        ops.push(PdfOp { text: tag, font_size: 10, x_mm: 20, y_mm: y });
                        let cchars = crate::chars::str_chars(code.as_str());
                        let clines = crate::chars::split_lines(&cchars);
                        let ghost lvc = clines.deep_view();
                        proof {
                            assert(lvc == crate::chars::lines_of(code@));
                            assert(ops@.map_values(|o: PdfOp| o@) =~~= oldops + seq![
                                (PdfOpSpec {
                                    text: language@,
                                    font_size: 10,
                                    x_mm: 20,
                                    y_mm: y as int,
                                }),
                            ]);
                        }
                        let ghost y0 = y as int;
                        y = y_step_exec(y, 12);
                        let k: usize = clines.len();
                        let mut m: usize = 0;
                        proof {
                            assert(oldops + pdf_block_ops(rest[0], y0) + pdf_ops_from(
                                blocks.skip(i + 1),
                                pdf_block_y(rest[0], y0),
                            ) =~= pdf_ops_spec(blocks));
                            assert(ops@.map_values(|o: PdfOp| o@) + pdf_code_ops(
                                lvc,
                                0,
                                y as int,
                            ) + pdf_ops_from(
                                blocks.skip(i + 1),
                                y_step(y_steps(y as int, k as nat), 5),
                            ) =~= pdf_ops_spec(blocks));
                        }
                        while m < k
                            invariant
                                k == clines@.len(),
                                m <= k,
                                lvc == clines.deep_view(),
                                lvc.len() == k,
                                -1000000000 <= y <= 270,
                                ops@.map_values(|o: PdfOp| o@) + pdf_code_ops(
                                    lvc,
                                    m as int,
                                    y as int,
                                ) + pdf_ops_from(
                                    blocks.skip(i + 1),
                                    y_step(y_steps(y as int, (k - m) as nat), 5),
                                ) == pdf_ops_spec(blocks),
                            decreases k - m,
                        {
                            let ghost oldo = ops@.map_values(|o: PdfOp| o@);
                            proof {
                                assert(lvc[m as int] == clines@[m as int].deep_view());
                                assert(clines@[m as int].deep_view() =~= clines@[m as int]@);
                            }
                            let line = chars_string(&clines[m]);
                            ops.push(PdfOp { text: line, font_size: 12, x_mm: 20, y_mm: y });
                            proof {
                                assert(ops@.map_values(|o: PdfOp| o@) =~~= oldo + seq![
                                    (PdfOpSpec {
                                        text: lvc[m as int],
                                        font_size: 12,
                                        x_mm: 20,
                                        y_mm: y as int,
                                    }),
                                ]);
                                lemma_y_steps_unfold(y as int, (k - m) as nat);
                            }
                            y = y_step_exec(y, 15);
                            m = m + 1;
                        }
                        proof {
                            assert(pdf_code_ops(lvc, k as int, y as int)
                                =~= Seq::<PdfOpSpec>::empty());
                            assert(ops@.map_values(|o: PdfOp| o@) + pdf_ops_from(
                                blocks.skip(i + 1),
                                y_step(y as int, 5),
                            ) =~= pdf_ops_spec(blocks));
                        }
                        y = y_step_exec(y, 5);
                    }
                    Node::Image { path: _, alt_text, width: _, height: _ } => {
                        let ph = image_placeholder(alt_text.as_str());
                        ops.push(PdfOp { text: ph, font_size: 12, x_mm: 20, y_mm: y });
                        proof {
                            assert(ops@.map_values(|o: PdfOp| o@) =~~= oldops + pdf_block_ops(
                                rest[0],
                                y as int,
                            ));
                        }
                        y = y_step_exec(y, 20);
                    }
                    Node::Divider => {
                        proof {
                            assert(ops@.map_values(|o: PdfOp| o@) =~~= oldops + pdf_block_ops(
                                rest[0],
                                y as int,
                            ));
                        }
                        y = y_step_exec(y, 20);
                    }
                    Node::PageBreak => {
                        proof {
                            assert(ops@.map_values(|o: PdfOp| o@) =~~= oldops + pdf_block_ops(
                                rest[0],
                                y as int,
                            ));
                        }
                        y = 270;
                    }
                    Node::Document { .. } => {
                        proof {
                            assert(false);
                        }
                    }
                }
                i = i + 1;
            }
            proof {
                assert(pdf_ops_from(blocks.skip(n as int), y as int)
                    =~= Seq::<PdfOpSpec>::empty());
                assert(ops@.map_values(|o: PdfOp| o@) =~= pdf_ops_spec(blocks));
            }
        }
        _ => {
            proof {
                assert(false);
            }
        }
    }
    ops
}

/// Unfolding `y_steps` once at the front.
proof fn lemma_y_steps_unfold(y: int, n: nat)
    requires
        n >= 1,
    ensures
        y_steps(y, n) == y_steps(y_step(y, 15), (n - 1) as nat),
{
}

/// What the raster exporter returns for a blank page of the given size;
/// the bytes are a function of the dimensions alone.
pub uninterp spec fn png_bytes(width: u32, height: u32) -> Seq<u8>;

/// Relies on `image::ImageBuffer::from_pixel` and
/// `image::DynamicImage::write_to`: a white page of the given size,
/// deterministically encoded. The size bound keeps the pixel buffer well
/// within what the crate can allocate without panicking. Writing into an
/// in-memory buffer cannot fail, and the encoder rejects only zero
/// dimensions, so success is owed for every non-empty page.
#[verifier::external_body]
fn render_blank_png(width: u32, height: u32) -> (r: Result<Vec<u8>, String>)
    requires
        width as u64 * height as u64 <= 0x0400_0000,
    ensures
        r matches Ok(v) ==> v@ == png_bytes(width, height),
        width >= 1 && height >= 1 ==> r is Ok,
{
    let img = image::ImageBuffer::from_pixel(width, height, image::Rgba([255u8, 255, 255, 255]));
    let mut buffer: Vec<u8> = Vec::new();
    let res = image::DynamicImage::ImageRgba8(img)
        .write_to(&mut std::io::Cursor::new(&mut buffer), image::ImageFormat::Png);
    match res {
        Ok(()) => Ok(buffer),
        Err(e) => Err(e.to_string()),
    }
}

/// Export a blank page of the given size as encoded raster bytes: the
/// deterministic encoding of that page. Success is owed whenever both
/// dimensions are non-zero; the encoder rejects an empty page.
pub fn export_as_png(width: u32, height: u32) -> (r: Result<Vec<u8>, String>)
    requires
        width as u64 * height as u64 <= 0x0400_0000,
    ensures
        r matches Ok(v) ==> v@ == png_bytes(width, height),
        width >= 1 && height >= 1 ==> r is Ok,
{
    render_blank_png(width, height)
}

} // verus!
