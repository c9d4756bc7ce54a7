//! The block parser and its inverse serializer.
//!
//! The parser turns a flat, line-oriented text buffer into a document tree;
//! it never fails, and every unrecognized line becomes a paragraph. Lines
//! are split at `'\n'`. The serializer writes a tree back into the same
//! line-oriented form, canonicalizing bullets and run joins. The whole
//! grammar is stated by spec functions over character sequences, and both
//! executable directions are proved against them.

use vstd::prelude::*;

use crate::chars::find_idx;
use crate::chars::join_sep;
use crate::chars::lemma_find_idx_is;
use crate::chars::lemma_find_idx_props;
use crate::chars::lemma_run_len_is;
use crate::chars::lemma_run_len_props;
use crate::chars::lines_of;
use crate::chars::run_len;
use crate::chars::split_lines;
use crate::chars::str_chars;
use crate::chars::chars_string;
use crate::chars::trim_spec;
use crate::chars::trim_vec;
use crate::chars::vec_eq_str;
use crate::data::BlockSpec;
use crate::data::Direction;
use crate::data::ListItem;
use crate::data::Node;
use crate::data::RunSpec;
use crate::data::TextRun;
use crate::data::run_direction;
use crate::data::runs_view;
use crate::pdx_text::contains_arabic;
use crate::pdx_text::is_arabic_char;

verus! {

// ============================================================================
// Line classification
// ============================================================================

/// Does the (trimmed) line open or close a code fence?
pub open spec fn starts_fence(t: Seq<char>) -> bool {
    t.len() >= 3 && t[0] == '`' && t[1] == '`' && t[2] == '`'
}

/// Does the (trimmed) line start a list item? The literal divider line is
/// carved out: it is a divider, never a one-item list.
pub open spec fn is_bullet_line(t: Seq<char>) -> bool {
    t.len() > 0 && (t[0] == '-' || t[0] == '\u{2022}') && t != "---"@
}

/// Is the two-character link marker `](` present at position `i`?
pub open spec fn pat_at(t: Seq<char>, i: int) -> bool {
    0 <= i && i + 1 < t.len() && t[i] == ']' && t[i + 1] == '('
}

/// Index of the first link marker `](` in `t`, or `t.len()` if absent.
pub open spec fn link_idx(t: Seq<char>) -> nat
    decreases t.len(),
{
    if t.len() == 0 {
        0
    } else if pat_at(t, 0) {
        0
    } else {
        1 + link_idx(t.drop_first())
    }
}

/// Does the (trimmed) line match the image grammar `![alt](path)`? The
/// closing parenthesis must come after the link marker; anything else falls
/// through to paragraph handling.
pub open spec fn is_image_line(t: Seq<char>) -> bool {
    t.len() >= 2 && t[0] == '!' && t[1] == '[' && pat_at(t, link_idx(t) as int) && find_idx(
        t,
        ')',
    ) < t.len() && find_idx(t, ')') >= link_idx(t) + 2
}

// ============================================================================
// Blocks built from lines
// ============================================================================

/// The decimal digit characters.
pub open spec fn dec_digit(d: nat) -> char {
    if d == 0 {
        '0'
    } else if d == 1 {
        '1'
    } else if d == 2 {
        '2'
    } else if d == 3 {
        '3'
    } else if d == 4 {
        '4'
    } else if d == 5 {
        '5'
    } else if d == 6 {
        '6'
    } else if d == 7 {
        '7'
    } else if d == 8 {
        '8'
    } else {
        '9'
    }
}

/// `n` written in decimal.
pub open spec fn dec_str(n: nat) -> Seq<char>
    decreases n,
{
    if n < 10 {
        seq![dec_digit(n)]
    } else {
        dec_str(n / 10).push(dec_digit(n % 10))
    }
}

/// The style name `heading1` through `heading6`.
pub open spec fn heading_style(level: u8) -> Seq<char> {
    "heading"@ + seq![dec_digit(level as nat)]
}

/// The single run a parsed line carries: language and direction derived by
/// scanning the text for Arabic-block characters.
pub open spec fn run_of(text: Seq<char>, style: Seq<char>) -> RunSpec {
    RunSpec {
        text,
        language: if contains_arabic(text) {
            "ar"@
        } else {
            "en"@
        },
        direction: if contains_arabic(text) {
            Direction::RTL
        } else {
            Direction::LTR
        },
        style,
    }
}

/// A heading line: the level is the count of leading `#` marks and the
/// text is the trimmed rest. The level is capped at six here, at
/// construction, because the model admits only levels one through six and
/// the parser builds model nodes directly.
pub open spec fn heading_of(t: Seq<char>) -> BlockSpec {
    let raw = run_len(t, |c: char| c == '#');
    let level: u8 = if raw <= 6 {
        raw as u8
    } else {
        6
    };
    let text = trim_spec(t.skip(raw as int));
    BlockSpec::Heading {
        level,
        runs: seq![run_of(text, heading_style(level))],
        style: heading_style(level),
    }
}

/// An image line `![alt](path)`.
pub open spec fn image_of(t: Seq<char>) -> BlockSpec {
    let cb = link_idx(t);
    let cp = find_idx(t, ')');
    BlockSpec::Image {
        path: t.subrange(cb + 2 as int, cp as int),
        alt_text: t.subrange(2, cb as int),
        width: None,
        height: None,
    }
}

/// A paragraph line: one run spanning the whole trimmed line.
pub open spec fn paragraph_of(t: Seq<char>) -> BlockSpec {
    let style = if contains_arabic(t) {
        "arabic"@
    } else {
        "paragraph"@
    };
    BlockSpec::Paragraph { runs: seq![run_of(t, style)], style }
}

/// The text of a list item: the trimmed line with its leading dash run and
/// bullet-glyph run stripped, trimmed again.
pub open spec fn item_text(t: Seq<char>) -> Seq<char> {
    let s1 = t.skip(run_len(t, |c: char| c == '-') as int);
    let s2 = s1.skip(run_len(s1, |c: char| c == '\u{2022}') as int);
    trim_spec(s2)
}

/// The runs of one list item.
pub open spec fn item_of(t: Seq<char>) -> Seq<RunSpec> {
    seq![run_of(item_text(t), "paragraph"@)]
}

/// The list made of the given (raw) bullet lines.
pub open spec fn list_of(ls: Seq<Seq<char>>) -> BlockSpec {
    BlockSpec::List {
        ordered: false,
        items: ls.map_values(|l: Seq<char>| item_of(trim_spec(l))),
        style: "list"@,
    }
}

/// The code block opened by the fence line `t` with the raw `body` lines.
/// An empty language token defaults to `text`.
pub open spec fn code_of(t: Seq<char>, body: Seq<Seq<char>>) -> BlockSpec {
    let lang0 = trim_spec(t.skip(run_len(t, |c: char| c == '`') as int));
    BlockSpec::CodeBlock {
        language: if lang0.len() == 0 {
            "text"@
        } else {
            lang0
        },
        code: join_sep(body, seq!['\n']),
        style: "code"@,
    }
}

/// How many lines the fence body spans: everything up to the next line
/// whose trimmed form opens with a fence, or all remaining lines.
pub open spec fn fence_body_len(ls: Seq<Seq<char>>) -> nat
    decreases ls.len(),
{
    if ls.len() == 0 {
        0
    } else if starts_fence(trim_spec(ls[0])) {
        0
    } else {
        1 + fence_body_len(ls.drop_first())
    }
}

/// How many consecutive leading lines are bullet lines.
pub open spec fn bullet_run(ls: Seq<Seq<char>>) -> nat
    decreases ls.len(),
{
    if ls.len() == 0 || !is_bullet_line(trim_spec(ls[0])) {
        0
    } else {
        1 + bullet_run(ls.drop_first())
    }
}

// ============================================================================
// The grammar, one forward scan over the lines
// ============================================================================

/// Parse a sequence of lines into blocks: blank lines are skipped, images,
/// headings, code fences, the divider, the page break and bullet lists are
/// recognized in that order, and anything else becomes a paragraph.
pub open spec fn parse_lines(ls: Seq<Seq<char>>) -> Seq<BlockSpec>
    decreases ls.len(),
    via parse_lines_dec
{
    if ls.len() == 0 {
        Seq::empty()
    } else {
        let t = trim_spec(ls[0]);
        if t.len() == 0 {
            parse_lines(ls.drop_first())
        } else if is_image_line(t) {
            seq![image_of(t)] + parse_lines(ls.drop_first())
        } else if t[0] == '#' {
            seq![heading_of(t)] + parse_lines(ls.drop_first())
        } else if starts_fence(t) {
            let body = fence_body_len(ls.drop_first());
            let consumed: nat = if 1 + body < ls.len() {
                2 + body
            } else {
                1 + body
            };
            seq![code_of(t, ls.subrange(1, 1 + body as int))] + parse_lines(
                ls.skip(consumed as int),
            )
        } else if t == "---"@ {
            seq![BlockSpec::Divider] + parse_lines(ls.drop_first())
        } else if t == "==="@ {
            seq![BlockSpec::PageBreak] + parse_lines(ls.drop_first())
        } else if is_bullet_line(t) {
            let k = bullet_run(ls);
            seq![list_of(ls.take(k as int))] + parse_lines(ls.skip(k as int))
        } else {
            seq![paragraph_of(t)] + parse_lines(ls.drop_first())
        }
    }
}

#[via_fn]
proof fn parse_lines_dec(ls: Seq<Seq<char>>) {
    if ls.len() > 0 {
        lemma_fence_body_le(ls.drop_first());
        lemma_bullet_run_le(ls);
    }
}

/// The parser over a whole text buffer.
pub open spec fn parse_spec(s: Seq<char>) -> Seq<BlockSpec> {
    parse_lines(lines_of(s))
}

pub proof fn lemma_fence_body_le(ls: Seq<Seq<char>>)
    ensures
        fence_body_len(ls) <= ls.len(),
        forall|m: int| 0 <= m < fence_body_len(ls) ==> !starts_fence(trim_spec(#[trigger] ls[m])),
        fence_body_len(ls) < ls.len() ==> starts_fence(trim_spec(ls[fence_body_len(ls) as int])),
    decreases ls.len(),
{
    if ls.len() > 0 && !starts_fence(trim_spec(ls[0])) {
        lemma_fence_body_le(ls.drop_first());
        assert forall|m: int| 0 <= m < fence_body_len(ls) implies !starts_fence(
            trim_spec(#[trigger] ls[m]),
        ) by {
            if m > 0 {
                assert(ls.drop_first()[m - 1] == ls[m]);
            }
        }
        if fence_body_len(ls) < ls.len() {
            assert(ls.drop_first()[fence_body_len(ls) - 1] == ls[fence_body_len(ls) as int]);
        }
    }
}

pub proof fn lemma_fence_body_is(ls: Seq<Seq<char>>, k: nat)
    requires
        k <= ls.len(),
        forall|m: int| 0 <= m < k ==> !starts_fence(trim_spec(#[trigger] ls[m])),
        k < ls.len() ==> starts_fence(trim_spec(ls[k as int])),
    ensures
        fence_body_len(ls) == k,
    decreases ls.len(),
{
    if ls.len() == 0 || k == 0 {
    } else {
        assert(!starts_fence(trim_spec(ls[0])));
        assert forall|m: int| 0 <= m < k - 1 implies !starts_fence(
            trim_spec(#[trigger] ls.drop_first()[m]),
        ) by {
            assert(ls.drop_first()[m] == ls[m + 1]);
        }
        if k - 1 < ls.drop_first().len() {
            assert(ls.drop_first()[k - 1] == ls[k as int]);
        }
        lemma_fence_body_is(ls.drop_first(), (k - 1) as nat);
    }
}

pub proof fn lemma_bullet_run_le(ls: Seq<Seq<char>>)
    ensures
        bullet_run(ls) <= ls.len(),
        ls.len() > 0 && is_bullet_line(trim_spec(ls[0])) ==> bullet_run(ls) >= 1,
        forall|m: int| 0 <= m < bullet_run(ls) ==> is_bullet_line(trim_spec(#[trigger] ls[m])),
        bullet_run(ls) < ls.len() ==> !is_bullet_line(trim_spec(ls[bullet_run(ls) as int])),
    decreases ls.len(),
{
    if ls.len() > 0 && is_bullet_line(trim_spec(ls[0])) {
        lemma_bullet_run_le(ls.drop_first());
        assert forall|m: int| 0 <= m < bullet_run(ls) implies is_bullet_line(
            trim_spec(#[trigger] ls[m]),
        ) by {
            if m > 0 {
                assert(ls.drop_first()[m - 1] == ls[m]);
            }
        }
        if bullet_run(ls) < ls.len() {
            assert(ls.drop_first()[bullet_run(ls) - 1] == ls[bullet_run(ls) as int]);
        }
    }
}

pub proof fn lemma_bullet_run_is(ls: Seq<Seq<char>>, k: nat)
    requires
        k <= ls.len(),
        forall|m: int| 0 <= m < k ==> is_bullet_line(trim_spec(#[trigger] ls[m])),
        k < ls.len() ==> !is_bullet_line(trim_spec(ls[k as int])),
    ensures
        bullet_run(ls) == k,
    decreases ls.len(),
{
    if ls.len() == 0 || k == 0 {
    } else {
        assert(is_bullet_line(trim_spec(ls[0])));
        assert forall|m: int| 0 <= m < k - 1 implies is_bullet_line(
            trim_spec(#[trigger] ls.drop_first()[m]),
        ) by {
            assert(ls.drop_first()[m] == ls[m + 1]);
        }
        if k - 1 < ls.drop_first().len() {
            assert(ls.drop_first()[k - 1] == ls[k as int]);
        }
        lemma_bullet_run_is(ls.drop_first(), (k - 1) as nat);
    }
}

pub proof fn lemma_link_idx_props(t: Seq<char>)
    ensures
        link_idx(t) <= t.len(),
        forall|i: int| 0 <= i < link_idx(t) ==> !pat_at(t, i),
        link_idx(t) < t.len() ==> pat_at(t, link_idx(t) as int) || link_idx(t) + 1 == t.len(),
    decreases t.len(),
{
    if t.len() > 0 && !pat_at(t, 0) {
        lemma_link_idx_props(t.drop_first());
        assert forall|i: int| 0 <= i < link_idx(t) implies !pat_at(t, i) by {
            if i > 0 {
                assert(!pat_at(t.drop_first(), i - 1));
                assert(t.drop_first().len() == t.len() - 1);
                if pat_at(t, i) {
                    assert(t.drop_first()[i - 1] == t[i]);
                    assert(t.drop_first()[i] == t[i + 1]);
                    assert(pat_at(t.drop_first(), i - 1));
                }
            }
        }
        if link_idx(t) < t.len() && link_idx(t) + 1 < t.len() {
            let j = link_idx(t) as int;
            assert(link_idx(t.drop_first()) == j - 1);
            assert(pat_at(t.drop_first(), j - 1));
            assert(t.drop_first()[j - 1] == t[j]);
            assert(t.drop_first()[j] == t[j + 1]);
        }
    }
}

pub proof fn lemma_link_idx_is(t: Seq<char>, k: nat)
    requires
        k <= t.len(),
        forall|i: int| 0 <= i < k ==> !pat_at(t, i),
        k < t.len() ==> pat_at(t, k as int) || k + 1 == t.len(),
    ensures
        link_idx(t) == k || (link_idx(t) + 1 == t.len() && k + 1 == t.len()) || (link_idx(t)
            == t.len() && k + 1 == t.len()),
        pat_at(t, k as int) ==> link_idx(t) == k,
    decreases t.len(),
{
    if t.len() == 0 || k == 0 {
    } else {
        assert(!pat_at(t, 0));
        assert forall|i: int| 0 <= i < k - 1 implies !pat_at(t.drop_first(), i) by {
            if pat_at(t.drop_first(), i) {
                assert(t.drop_first()[i] == t[i + 1]);
                assert(t.drop_first()[i + 1] == t[i + 2]);
                assert(pat_at(t, i + 1));
            }
        }
        if k - 1 < t.drop_first().len() && pat_at(t, k as int) {
            assert(t.drop_first()[k - 1] == t[k as int]);
            assert(t.drop_first()[k as int] == t[k + 1 as int]);
            assert(pat_at(t.drop_first(), k - 1));
        }
        lemma_link_idx_is(t.drop_first(), (k - 1) as nat);
    }
}

// ============================================================================
// Executable helpers
// ============================================================================

/// Does the character vector contain an Arabic-block character?
fn vec_contains_arabic(v: &Vec<char>) -> (r: bool)
    ensures
        r == contains_arabic(v@),
{
    let mut i: usize = 0;
    while i < v.len()
        invariant
            i <= v@.len(),
            forall|j: int| 0 <= j < i ==> !is_arabic_char(v@[j]),
        decreases v@.len() - i,
    {
        let u = v[i] as u32;
        if 0x0600 <= u && u <= 0x06FF {
            return true;
        }
        i = i + 1;
    }
    false
}

/// The languages of the parser: Arabic-script text is tagged `ar`, all
/// other text `en`; the derived directions follow.
pub proof fn lemma_lang_dirs()
    ensures
        run_direction("ar"@) == Direction::RTL,
        run_direction("en"@) == Direction::LTR,
{
    reveal_strlit("ar");
    reveal_strlit("en");
    reveal_strlit("fa");
    reveal_strlit("ur");
    assert("en"@[0] != "ar"@[0]);
    assert("en"@[0] != "fa"@[0]);
    assert("en"@[0] != "ur"@[0]);
}

/// Build the one run of a parsed line.
fn line_run(t: &Vec<char>, style: &str) -> (r: TextRun)
    ensures
        r@ == run_of(t@, style@),
{
    let arab = vec_contains_arabic(t);
    let text = chars_string(t);
    let run = TextRun::new(text.as_str(), if arab {
        "ar"
    } else {
        "en"
    }, style);
    proof {
        lemma_lang_dirs();
    }
    run
}

/// Count the leading characters of `v` equal to `c`.
fn count_prefix(v: &Vec<char>, c: char) -> (k: usize)
    ensures
        k == run_len(v@, |x: char| x == c),
        k <= v@.len(),
{
    let mut k: usize = 0;
    while k < v.len() && v[k] == c
        invariant
            k <= v@.len(),
            forall|j: int| 0 <= j < k ==> v@[j] == c,
        decreases v@.len() - k,
    {
        k = k + 1;
    }
    proof {
        lemma_run_len_is(v@, |x: char| x == c, k as nat);
    }
    k
}

/// Copy `v[from..to]` into a fresh vector.
fn subvec(v: &Vec<char>, from: usize, to: usize) -> (r: Vec<char>)
    requires
        from <= to <= v@.len(),
    ensures
        r@ == v@.subrange(from as int, to as int),
{
    let mut r: Vec<char> = Vec::new();
    let mut i: usize = from;
    while i < to
        invariant
            from <= i <= to <= v@.len(),
            r@ == v@.subrange(from as int, i as int),
        decreases to - i,
    {
        r.push(v[i]);
        assert(v@.subrange(from as int, i + 1) =~= v@.subrange(from as int, i as int).push(
            v@[i as int],
        ));
        i = i + 1;
    }
    r
}

/// The decimal digit character for `d`.
fn dec_digit_char(d: usize) -> (c: char)
    requires
        d <= 9,
    ensures
        c == dec_digit(d as nat),
{
    if d == 0 {
        '0'
    } else if d == 1 {
        '1'
    } else if d == 2 {
        '2'
    } else if d == 3 {
        '3'
    } else if d == 4 {
        '4'
    } else if d == 5 {
        '5'
    } else if d == 6 {
        '6'
    } else if d == 7 {
        '7'
    } else if d == 8 {
        '8'
    } else {
        '9'
    }
}

/// `n` written in decimal, as characters.
pub fn dec_chars(n: usize) -> (r: Vec<char>)
    ensures
        r@ == dec_str(n as nat),
    decreases n,
{
    if n < 10 {
        let mut r: Vec<char> = Vec::new();
        r.push(dec_digit_char(n));
        proof {
            assert(r@ =~= dec_str(n as nat));
        }
        r
    } else {
        let mut r = dec_chars(n / 10);
        r.push(dec_digit_char(n % 10));
        r
    }
}

/// The style name `heading1` through `heading6`.
fn heading_style_string(level: u8) -> (s: String)
    requires
        1 <= level <= 6,
    ensures
        s@ == heading_style(level),
{
    let mut s = String::from_str("heading");
    crate::chars::push_char(&mut s, dec_digit_char(level as usize));
    proof {
        assert(s@ =~= heading_style(level));
    }
    s
}

// ============================================================================
// The executable parser
// ============================================================================

/// Parse a raw text buffer into a document tree. Never fails: every line
/// maps to some block, and the result is always a well-formed root.
pub fn parse_content(text: &str) -> (r: Node)
    ensures
        r is Document,
        r.doc_wf(),
        r.doc_view() == parse_spec(text@),
{
    let chars = str_chars(text);
    let lines: Vec<Vec<char>> = split_lines(&chars);
    let ghost lv = lines.deep_view();
    proof {
        assert(lv == lines_of(text@));
        assert(lv.skip(0) =~= lv);
        assert(Seq::<Node>::empty().map_values(|c: Node| c.block_view()) + parse_lines(lv)
            =~= parse_lines(lv));
    }
    let n: usize = lines.len();
    let mut children: Vec<Node> = Vec::new();
    let mut i: usize = 0;
    while i < n
        invariant
            lines.deep_view() == lv,
            n == lines@.len(),
            lv.len() == n,
            i <= n,
            forall|j: int| 0 <= j < children@.len() ==> !(#[trigger] children@[j] is Document),
            children@.map_values(|c: Node| c.block_view()) + parse_lines(lv.skip(i as int))
                == parse_lines(lv),
        decreases n - i,
    {
        proof {
            assert(lv[i as int] == lines@[i as int].deep_view());
            assert(lines@[i as int].deep_view() =~= lines@[i as int]@);
        }
        let ghost rest = lv.skip(i as int);
        proof {
            assert(rest[0] == lv[i as int]);
            assert(rest.drop_first() =~= lv.skip(i + 1));
        }
        let t: Vec<char> = trim_vec(&lines[i]);
        let ghost tl = t@;
        assert(tl == trim_spec(rest[0]));
        if t.len() == 0 {
            // A blank line separates blocks and produces nothing.
            proof {
                assert(parse_lines(rest) == parse_lines(lv.skip(i + 1)));
            }
            i = i + 1;
            continue ;
        }
        let ghost old_children = children@;
        let block: Node;
        let consumed: usize;
        let image_hit = image_line_check(&t);
        if image_hit {
            let cb = find_link(&t);
            let cp = find_close(&t);
            let alt = subvec(&t, 2, cb);
            let path = subvec(&t, cb + 2, cp);
            block = Node::Image {
                path: chars_string(&path),
                alt_text: chars_string(&alt),
                width: None,
                height: None,
            };
            consumed = 1;
            proof {
                assert(block.block_view() == image_of(tl));
                assert(parse_lines(rest) == seq![image_of(tl)] + parse_lines(lv.skip(i + 1)));
            }
        } else if t[0] == '#' {
            let raw = count_prefix(&t, '#');
            let level: u8 = if raw <= 6 {
                raw as u8
            } else {
                6
            };
            proof {
                lemma_run_len_props(tl, |x: char| x == '#');
            }
            let rest_line = subvec(&t, raw, t.len());
            proof {
                assert(rest_line@ =~= tl.skip(raw as int));
            }
            let htext = trim_vec(&rest_line);
            let style = heading_style_string(level);
            let run = line_run(&htext, style.as_str());
            let mut runs: Vec<TextRun> = Vec::new();
            runs.push(run);
            block = Node::Heading { level, runs, style };
            consumed = 1;
            proof {
                assert(runs_view(seq![run]) =~= seq![run@]);
                assert(block.block_view() == heading_of(tl));
                assert(parse_lines(rest) == seq![heading_of(tl)] + parse_lines(lv.skip(i + 1)));
            }
        } else if t.len() >= 3 && t[0] == '`' && t[1] == '`' && t[2] == '`' {
            let back = count_prefix(&t, '`');
            proof {
                lemma_run_len_props(tl, |x: char| x == '`');
            }
            let lang_rest = subvec(&t, back, t.len());
            proof {
                assert(lang_rest@ =~= tl.skip(back as int));
            }
            let lang_trimmed = trim_vec(&lang_rest);
            let language: String = if lang_trimmed.len() == 0 {
                String::from_str("text")
            } else {
                chars_string(&lang_trimmed)
            };
            // Find the closing fence.
            let start = i + 1;
            let mut j: usize = start;
            loop
                invariant_except_break
                    lines.deep_view() == lv,
                    n == lines@.len(),
                    lv.len() == n,
                    start <= j <= n,
                    forall|m: int|
                        start <= m < j ==> !starts_fence(trim_spec(#[trigger] lv[m])),
                ensures
                    lines.deep_view() == lv,
                    n == lines@.len(),
                    lv.len() == n,
                    start <= j <= n,
                    forall|m: int|
                        start <= m < j ==> !starts_fence(trim_spec(#[trigger] lv[m])),
                    j == n || starts_fence(trim_spec(lv[j as int])),
                decreases n - j,
            {
                if j >= n {
                    break ;
                }
                proof {
                    assert(lv[j as int] == lines@[j as int].deep_view());
                    assert(lines@[j as int].deep_view() =~= lines@[j as int]@);
                }
                let jt = trim_vec(&lines[j]);
                if jt.len() >= 3 && jt[0] == '`' && jt[1] == '`' && jt[2] == '`' {
                    proof {
                        assert(starts_fence(trim_spec(lv[j as int])));
                    }
                    break ;
                }
                proof {
                    assert(!starts_fence(trim_spec(lv[j as int])));
                }
                j = j + 1;
            }
            let ghost body = (j - start) as nat;
            proof {
                let tail = lv.skip(start as int);
                assert forall|m: int| 0 <= m < body implies !starts_fence(
                    trim_spec(#[trigger] tail[m]),
                ) by {
                    assert(tail[m] == lv[m + start]);
                }
                if body < tail.len() {
                    assert(tail[body as int] == lv[j as int]);
                }
                lemma_fence_body_is(tail, body);
                assert(rest.drop_first() =~= tail);
                assert(fence_body_len(rest.drop_first()) == body);
            }
            // Join the raw body lines with single line breaks.
            let mut code: Vec<char> = Vec::new();
            let mut m: usize = start;
            proof {
                assert(rest.subrange(1, 1) =~= Seq::<Seq<char>>::empty());
            }
            while m < j
                invariant
                    lines.deep_view() == lv,
                    n == lines@.len(),
                    lv.len() == n,
                    start <= m <= j <= n,
                    start >= 1,
                    rest == lv.skip(i as int),
                    i + 1 == start,
                    code@ == join_sep(lv.subrange(start as int, m as int), seq!['\n']),
                decreases j - m,
            {
                proof {
                    assert(lv[m as int] == lines@[m as int].deep_view());
                    assert(lines@[m as int].deep_view() =~= lines@[m as int]@);
                }
                if m > start {
                    code.push('\n');
                }
                crate::chars::push_all(&mut code, &lines[m]);
                proof {
                    let pref = lv.subrange(start as int, m as int);
                    crate::chars::lemma_join_push(pref, seq!['\n'], lv[m as int]);
                    assert(lv.subrange(start as int, m + 1) =~= pref.push(lv[m as int]));
                    if m == start {
                        assert(code@ =~= join_sep(lv.subrange(start as int, m + 1), seq!['\n']));
                    } else {
                        assert(code@ =~= join_sep(lv.subrange(start as int, m + 1), seq!['\n']));
                    }
                }
                m = m + 1;
            }
            block = Node::CodeBlock {
                language,
                code: chars_string(&code),
                style: String::from_str("code"),
            };
            consumed = if j < n {
                j + 1 - i
            } else {
                j - i
            };
            proof {
                assert(rest.subrange(1, 1 + body as int) =~= lv.subrange(
                    start as int,
                    j as int,
                ));
                assert(block.block_view() == code_of(tl, rest.subrange(1, 1 + body as int)));
                assert(starts_fence(tl));
                assert(!(tl.len() == 0) && !is_image_line(tl) && tl[0] != '#') by {
                    assert(tl[0] == '`');
                }
                let spec_consumed: nat = if 1 + body < rest.len() {
                    2 + body
                } else {
                    1 + body
                };
                assert(consumed == spec_consumed);
                assert(rest.skip(spec_consumed as int) =~= lv.skip(i + consumed));
                assert(parse_lines(rest) == seq![code_of(tl, rest.subrange(1, 1 + body as int))]
                    + parse_lines(lv.skip(i + consumed)));
            }
        } else if vec_eq_str(&t, "---") {
            block = Node::Divider;
            consumed = 1;
            proof {
                assert(!is_image_line(tl) && tl[0] != '#' && !starts_fence(tl)) by {
                    reveal_strlit("---");
                }
                assert(parse_lines(rest) == seq![BlockSpec::Divider] + parse_lines(
                    lv.skip(i + 1),
                ));
            }
        } else if vec_eq_str(&t, "===") {
            block = Node::PageBreak;
            consumed = 1;
            proof {
                assert(!is_image_line(tl) && tl[0] != '#' && !starts_fence(tl) && tl != "---"@)
                    by {
                    reveal_strlit("===");
                    reveal_strlit("---");
                }
                assert(parse_lines(rest) == seq![BlockSpec::PageBreak] + parse_lines(
                    lv.skip(i + 1),
                ));
            }
        } else if t[0] == '-' || t[0] == '\u{2022}' {
            proof {
                assert(is_bullet_line(tl));
            }
            let mut items: Vec<ListItem> = Vec::new();
            let mut j: usize = i;
            loop
                invariant_except_break
                    lines.deep_view() == lv,
                    n == lines@.len(),
                    lv.len() == n,
                    i <= j <= n,
                    forall|m: int| i <= m < j ==> is_bullet_line(trim_spec(#[trigger] lv[m])),
                    items@.len() == j - i,
                    forall|m: int|
                        0 <= m < items@.len() ==> (#[trigger] items@[m])@ == item_of(
                            trim_spec(lv[i + m]),
                        ),
                ensures
                    lines.deep_view() == lv,
                    n == lines@.len(),
                    lv.len() == n,
                    i <= j <= n,
                    forall|m: int| i <= m < j ==> is_bullet_line(trim_spec(#[trigger] lv[m])),
                    items@.len() == j - i,
                    forall|m: int|
                        0 <= m < items@.len() ==> (#[trigger] items@[m])@ == item_of(
                            trim_spec(lv[i + m]),
                        ),
                    j == n || !is_bullet_line(trim_spec(lv[j as int])),
                decreases n - j,
            {
                if j >= n {
                    break ;
                }
                proof {
                    assert(lv[j as int] == lines@[j as int].deep_view());
                    assert(lines@[j as int].deep_view() =~= lines@[j as int]@);
                }
                let jt = trim_vec(&lines[j]);
                let is_b = jt.len() > 0 && (jt[0] == '-' || jt[0] == '\u{2022}') && !vec_eq_str(
                    &jt,
                    "---",
                );
                if !is_b {
                    proof {
                        assert(!is_bullet_line(trim_spec(lv[j as int])));
                    }
                    break ;
                }
                let d = count_prefix(&jt, '-');
                let s1 = subvec(&jt, d, jt.len());
                let g = count_prefix(&s1, '\u{2022}');
                let s2 = subvec(&s1, g, s1.len());
                let itext = trim_vec(&s2);
                let run = line_run(&itext, "paragraph");
                let mut content: Vec<TextRun> = Vec::new();
                content.push(run);
                let item = ListItem { content };
                let ghost old_items = items@;
                items.push(item);
                proof {
                    assert(s1@ =~= jt@.skip(d as int));
                    assert(s2@ =~= s1@.skip(g as int));
                    assert(itext@ == item_text(trim_spec(lv[j as int])));
                    assert(item@ =~~= item_of(trim_spec(lv[j as int])));
                    assert(items@ == old_items.push(item));
                }
                j = j + 1;
            }
            let ghost k = (j - i) as nat;
            proof {
                assert forall|m: int| 0 <= m < k implies is_bullet_line(
                    trim_spec(#[trigger] rest[m]),
                ) by {
                    assert(rest[m] == lv[m + i]);
                }
                if k < rest.len() {
                    assert(rest[k as int] == lv[j as int]);
                }
                lemma_bullet_run_is(rest, k);
            }
            block = Node::List { ordered: false, items, style: String::from_str("list") };
            consumed = if j > i {
                j - i
            } else {
                1
            };
            proof {
                assert(k >= 1);
                assert(items@.map_values(|it: ListItem| it@) =~~= rest.take(k as int).map_values(
                    |l: Seq<char>| item_of(trim_spec(l)),
                )) by {
                    assert forall|m: int| 0 <= m < k implies (#[trigger] items@[m])@ == item_of(
                        trim_spec(rest.take(k as int)[m]),
                    ) by {
                        assert(rest.take(k as int)[m] == lv[i + m]);
                    }
                }
                assert(block.block_view() == list_of(rest.take(k as int)));
                assert(!is_image_line(tl) && tl[0] != '#' && !starts_fence(tl) && tl != "---"@
                    && tl != "==="@) by {
                    reveal_strlit("===");
                }
                assert(rest.skip(k as int) =~= lv.skip(i + consumed));
                assert(parse_lines(rest) == seq![list_of(rest.take(k as int))] + parse_lines(
                    lv.skip(i + consumed),
                ));
            }
        } else {
            let arab = vec_contains_arabic(&t);
            let style: &str = if arab {
                "arabic"
            } else {
                "paragraph"
            };
            let run = line_run(&t, style);
            let mut runs: Vec<TextRun> = Vec::new();
            runs.push(run);
            block = Node::Paragraph { runs, style: String::from_str(style) };
            consumed = 1;
            proof {
                assert(!is_bullet_line(tl));
                assert(runs_view(seq![run]) =~= seq![run@]);
                assert(block.block_view() == paragraph_of(tl));
                assert(parse_lines(rest) == seq![paragraph_of(tl)] + parse_lines(lv.skip(i + 1)));
            }
        }
        children.push(block);
        proof {
            assert(children@.map_values(|c: Node| c.block_view()) =~= old_children.map_values(
                |c: Node| c.block_view(),
            ).push(block.block_view()));
            assert(children@.map_values(|c: Node| c.block_view()) + parse_lines(
                lv.skip(i + consumed),
            ) =~= parse_lines(lv));
        }
        i = i + consumed;
    }
    proof {
        assert(parse_lines(lv.skip(n as int)) =~= Seq::<BlockSpec>::empty());
        assert(children@.map_values(|c: Node| c.block_view()) =~= parse_lines(lv));
    }
    let r = Node::Document { children };
    proof {
        assert(r.doc_view() == parse_spec(text@));
    }
    r
}

/// Does the trimmed line match the image grammar?
fn image_line_check(t: &Vec<char>) -> (r: bool)
    ensures
        r == is_image_line(t@),
{
    let n = t.len();
    if n < 2 || t[0] != '!' || t[1] != '[' {
        return false;
    }
    let cb = find_link(t);
    let cp = find_close(t);
    proof {
        lemma_link_idx_props(t@);
        lemma_find_idx_props(t@, ')');
    }
    let hit = cb < n - 1 && cp < n && cp >= 2 && cp - 2 >= cb;
    proof {
        if pat_at(t@, link_idx(t@) as int) {
            assert(hit == is_image_line(t@));
        } else {
            assert(cb == n);
            assert(!hit);
            assert(!is_image_line(t@));
        }
    }
    hit
}

/// The first position of the link marker `](`; when there is none, the
/// length of the vector.
fn find_link(t: &Vec<char>) -> (k: usize)
    ensures
        k <= t@.len(),
        pat_at(t@, link_idx(t@) as int) ==> k == link_idx(t@) && pat_at(t@, k as int),
        !pat_at(t@, link_idx(t@) as int) ==> k == t@.len(),
{
    let n = t.len();
    let mut k: usize = 0;
    while k < n
        invariant
            n == t@.len(),
            k <= n,
            forall|i: int| 0 <= i < k ==> !pat_at(t@, i),
        decreases n - k,
    {
        if k + 1 < n && t[k] == ']' && t[k + 1] == '(' {
            proof {
                assert(pat_at(t@, k as int));
                lemma_link_idx_is(t@, k as nat);
            }
            return k;
        }
        proof {
            assert(!pat_at(t@, k as int));
        }
        k = k + 1;
    }
    proof {
        assert(!pat_at(t@, link_idx(t@) as int));
    }
    k
}

/// The first position of `)`, or the length when there is none.
fn find_close(t: &Vec<char>) -> (k: usize)
    ensures
        k == find_idx(t@, ')'),
{
    let n = t.len();
    let mut k: usize = 0;
    while k < n && t[k] != ')'
        invariant
            n == t@.len(),
            k <= n,
            forall|i: int| 0 <= i < k ==> t@[i] != ')',
        decreases n - k,
    {
        k = k + 1;
    }
    proof {
        lemma_find_idx_is(t@, ')', k as nat);
    }
    k
}



/// Direction derivation: a run built by the parser from a text is
/// right-to-left exactly when the text contains an Arabic-block character,
/// and its direction always agrees with the direction its language code
/// derives.
pub proof fn lemma_run_direction(text: Seq<char>, style: Seq<char>)
    ensures
        run_of(text, style).direction == (if contains_arabic(text) {
            Direction::RTL
        } else {
            Direction::LTR
        }),
        run_of(text, style).direction == run_direction(run_of(text, style).language),
{
    lemma_lang_dirs();
}

// ============================================================================
// The serializer
// ============================================================================

/// Run texts joined with single spaces.
pub open spec fn join_texts(runs: Seq<RunSpec>) -> Seq<char> {
    join_sep(runs.map_values(|r: RunSpec| r.text), seq![' '])
}

/// The marker an item carries: its one-based number and a dot for ordered
/// lists, a dash otherwise.
pub open spec fn list_marker(ordered: bool, m: int) -> Seq<char> {
    if ordered {
        dec_str((m + 1) as nat).push('.')
    } else {
        seq!['-']
    }
}

/// The canonical text of one block.
pub open spec fn serialize_block(b: BlockSpec) -> Seq<char> {
    match b {
        BlockSpec::Heading { level, runs, .. } => Seq::new(level as nat, |m: int| '#') + seq![
            ' ',
        ] + join_texts(runs),
        BlockSpec::Paragraph { runs, .. } => join_texts(runs),
        BlockSpec::List { ordered, items, .. } => join_sep(
            Seq::new(
                items.len(),
                |m: int| list_marker(ordered, m) + seq![' '] + join_texts(items[m]),
            ),
            seq!['\n'],
        ),
        BlockSpec::CodeBlock { language, code, .. } => (if language.len() > 0 && language[0]
            == '`' {
            seq!['`', '`', '`', ' ']
        } else {
            seq!['`', '`', '`']
        }) + language + seq!['\n'] + code + seq!['\n', '`', '`', '`'],
        BlockSpec::Image { path, alt_text, .. } => seq!['!', '['] + alt_text + seq![']', '(']
            + path + seq![')'],
        BlockSpec::Divider => seq!['-', '-', '-'],
        BlockSpec::PageBreak => seq!['=', '=', '='],
    }
}

/// The canonical text of a whole document: its blocks separated by blank
/// lines.
pub open spec fn serialize_doc(blocks: Seq<BlockSpec>) -> Seq<char> {
    join_sep(blocks.map_values(|b: BlockSpec| serialize_block(b)), seq!['\n', '\n'])
}

/// Append the texts of `runs`, joined with single spaces, to `out`.
fn push_joined_texts(out: &mut Vec<char>, runs: &Vec<TextRun>)
    ensures
        final(out)@ == old(out)@ + join_texts(runs_view(runs@)),
{
    let ghost texts = runs@.map_values(|r: TextRun| r@.text);
    let n: usize = runs.len();
    let mut i: usize = 0;
    proof {
        assert(texts.take(0) =~= Seq::<Seq<char>>::empty());
        assert(out@ =~= old(out)@ + join_sep(texts.take(0), seq![' ']));
    }
    while i < n
        invariant
            n == runs@.len(),
            i <= n,
            texts == runs@.map_values(|r: TextRun| r@.text),
            out@ == old(out)@ + join_sep(texts.take(i as int), seq![' ']),
        decreases n - i,
    {
        if i > 0 {
            out.push(' ');
        }
        crate::chars::push_str_chars(out, runs[i].text.as_str());
        proof {
            let pref = texts.take(i as int);
            crate::chars::lemma_join_push(pref, seq![' '], texts[i as int]);
            assert(texts.take(i + 1) =~= pref.push(texts[i as int]));
            assert(out@ =~= old(out)@ + join_sep(texts.take(i + 1), seq![' ']));
        }
        i = i + 1;
    }
    proof {
        assert(texts.take(n as int) =~= texts);
        assert(runs_view(runs@).map_values(|r: RunSpec| r.text) =~= texts);
    }
}

/// The canonical text of one non-root node, as characters.
fn serialize_block_vec(node: &Node) -> (r: Vec<char>)
    requires
        !(node is Document),
    ensures
        r@ == serialize_block(node.block_view()),
{
    let mut out: Vec<char> = Vec::new();
    match node {
        Node::Document { .. } => {
        }
        Node::Heading { level, runs, style: _ } => {
            let lv: u8 = *level;
            let mut m: usize = 0;
            while m < lv as usize
                invariant
                    m <= lv as usize,
                    out@ == Seq::new(m as nat, |q: int| '#'),
                decreases lv as usize - m,
            {
                out.push('#');
                proof {
                    assert(Seq::new((m + 1) as nat, |q: int| '#') =~= Seq::new(
                        m as nat,
                        |q: int| '#',
                    ).push('#'));
                }
                m = m + 1;
            }
            out.push(' ');
            push_joined_texts(&mut out, runs);
            proof {
                assert(out@ =~= Seq::new(lv as nat, |q: int| '#') + seq![' '] + join_texts(
                    runs_view(runs@),
                ));
            }
        }
        Node::Paragraph { runs, style: _ } => {
            push_joined_texts(&mut out, runs);
            proof {
                assert(out@ =~= join_texts(runs_view(runs@)));
            }
        }
        Node::List { ordered, items, style: _ } => {
            let ord: bool = *ordered;
            let n: usize = items.len();
            let ghost iv = items@.map_values(|it: ListItem| it@);
            let ghost pieces = Seq::new(
                iv.len(),
                |m: int| list_marker(ord, m) + seq![' '] + join_texts(iv[m]),
            );
            let mut i: usize = 0;
            proof {
                assert(out@ =~= join_sep(pieces.take(0), seq!['\n']));
            }
            while i < n
                invariant
                    n == items@.len(),
                    i <= n,
                    ord == *ordered,
                    iv == items@.map_values(|it: ListItem| it@),
                    pieces == Seq::new(
                        iv.len(),
                        |m: int| list_marker(ord, m) + seq![' '] + join_texts(iv[m]),
                    ),
                    out@ == join_sep(pieces.take(i as int), seq!['\n']),
                decreases n - i,
            {
                let ghost old_out = out@;
                if i > 0 {
                    out.push('\n');
                }
                if ord {
                    let digits = dec_chars(i + 1);
                    crate::chars::push_all(&mut out, &digits);
                    out.push('.');
                } else {
                    out.push('-');
                }
                out.push(' ');
                push_joined_texts(&mut out, &items[i].content);
                proof {
                    let pref = pieces.take(i as int);
                    crate::chars::lemma_join_push(pref, seq!['\n'], pieces[i as int]);
                    assert(pieces.take(i + 1) =~= pref.push(pieces[i as int]));
                    assert(iv[i as int] == items@[i as int]@);
                    if ord {
                        assert(list_marker(ord, i as int) =~= dec_str((i + 1) as nat).push('.'));
                    } else {
                        assert(list_marker(ord, i as int) =~= seq!['-']);
                    }
                    assert(out@ =~= join_sep(pieces.take(i + 1), seq!['\n']));
                }
                i = i + 1;
            }
            proof {
                assert(pieces.take(n as int) =~= pieces);
            }
        }
        Node::CodeBlock { language, code, style: _ } => {
            out.push('`');
            out.push('`');
            out.push('`');
            // A language token that itself opens with a backtick needs a
            // separating space, or the token would merge into the fence.
            if language.as_str().unicode_len() > 0 && language.as_str().get_char(0) == '`' {
                out.push(' ');
            }
            crate::chars::push_str_chars(&mut out, language.as_str());
            out.push('\n');
            crate::chars::push_str_chars(&mut out, code.as_str());
            out.push('\n');
            out.push('`');
            out.push('`');
            out.push('`');
            proof {
                assert(out@ =~= (if language@.len() > 0 && language@[0] == '`' {
                    seq!['`', '`', '`', ' ']
                } else {
                    seq!['`', '`', '`']
                }) + language@ + seq!['\n'] + code@ + seq!['\n', '`', '`', '`']);
            }
        }
        Node::Image { path, alt_text, width: _, height: _ } => {
            out.push('!');
            out.push('[');
            crate::chars::push_str_chars(&mut out, alt_text.as_str());
            out.push(']');
            out.push('(');
            crate::chars::push_str_chars(&mut out, path.as_str());
            out.push(')');
            proof {
                assert(out@ =~= seq!['!', '['] + alt_text@ + seq![']', '('] + path@ + seq![
                    ')',
                ]);
            }
        }
        Node::Divider => {
            out.push('-');
            out.push('-');
            out.push('-');
            proof {
                assert(out@ =~= seq!['-', '-', '-']);
            }
        }
        Node::PageBreak => {
            out.push('=');
            out.push('=');
            out.push('=');
            proof {
                assert(out@ =~= seq!['=', '=', '=']);
            }
        }
    }
    out
}

/// Write a tree back into the line-oriented text form. Bullets are
/// canonicalized to dashes and runs are joined with single spaces, so the
/// original authoring whitespace is not preserved.
pub fn serialize_content(node: &Node) -> (r: String)
    requires
        node is Document ==> node.doc_wf(),
    ensures
        node is Document ==> r@ == serialize_doc(node.doc_view()),
        !(node is Document) ==> r@ == serialize_block(node.block_view()),
{
    match node {
        Node::Document { children } => {
            let ghost blocks = children@.map_values(|c: Node| c.block_view());
            let ghost pieces = blocks.map_values(|b: BlockSpec| serialize_block(b));
            let n: usize = children.len();
            let mut out: Vec<char> = Vec::new();
            let mut i: usize = 0;
            proof {
                assert(out@ =~= join_sep(pieces.take(0), seq!['\n', '\n']));
            }
            while i < n
                invariant
                    node is Document,
                    node.doc_wf(),
                    node matches Node::Document { children: c } && c@ == children@,
                    n == children@.len(),
                    i <= n,
                    blocks == children@.map_values(|c: Node| c.block_view()),
                    pieces == blocks.map_values(|b: BlockSpec| serialize_block(b)),
                    out@ == join_sep(pieces.take(i as int), seq!['\n', '\n']),
                decreases n - i,
            {
                if i > 0 {
                    out.push('\n');
                    out.push('\n');
                }
                proof {
                    assert(!(children@[i as int] is Document));
                }
                let piece = serialize_block_vec(&children[i]);
                crate::chars::push_all(&mut out, &piece);
                proof {
                    let pref = pieces.take(i as int);
                    crate::chars::lemma_join_push(pref, seq!['\n', '\n'], pieces[i as int]);
                    assert(pieces.take(i + 1) =~= pref.push(pieces[i as int]));
                    assert(out@ =~= join_sep(pieces.take(i + 1), seq!['\n', '\n']));
                }
                i = i + 1;
            }
            proof {
                assert(pieces.take(n as int) =~= pieces);
            }
            chars_string(&out)
        }
        _ => {
            let v = serialize_block_vec(node);
            chars_string(&v)
        }
    }
}

} // verus!
