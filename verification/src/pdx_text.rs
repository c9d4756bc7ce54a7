//! The text direction and shaping engine: Arabic-script detection, the
//! derived direction, and the display transform that reshapes Arabic
//! letterforms and reorders mixed-direction text for drawing.
//!
//! Every consumer that measures or draws a run's text is expected to pass it
//! through [`pdx_text`] first; drawing raw text corrupts right-to-left
//! script.

use vstd::prelude::*;

use crate::data::Direction;

verus! {

/// A character of the Arabic Unicode block (U+0600 through U+06FF).
pub open spec fn is_arabic_char(c: char) -> bool {
    0x0600 <= c as u32 <= 0x06FF
}

/// Does the text contain any Arabic-block character?
pub open spec fn contains_arabic(s: Seq<char>) -> bool {
    exists|i: int| 0 <= i < s.len() && is_arabic_char(s[i])
}

/// A character the bidirectional algorithm treats as a paragraph separator.
pub open spec fn is_para_sep(c: char) -> bool {
    c == '\n' || c == '\r' || c == '\u{001c}' || c == '\u{001d}' || c == '\u{001e}' || c
        == '\u{0085}' || c == '\u{2029}'
}

/// Does the text contain any paragraph separator?
pub open spec fn contains_para_sep(s: Seq<char>) -> bool {
    exists|i: int| 0 <= i < s.len() && is_para_sep(s[i])
}

/// Does the text contain a zero-width joiner (U+200D)?
pub open spec fn contains_zwj(s: Seq<char>) -> bool {
    exists|i: int| 0 <= i < s.len() && s[i] == '\u{200d}'
}

/// What the Arabic reshaper returns for a given text: each letter replaced
/// by its contextual presentation form. The value depends on the text alone.
pub uninterp spec fn reshaped_text(s: Seq<char>) -> Seq<char>;

/// What the bidirectional reordering returns for a given single-paragraph
/// text: its characters in visual order. The value depends on the text
/// alone.
pub uninterp spec fn bidi_ordered(s: Seq<char>) -> Seq<char>;

/// The full display transform. Text without an Arabic-block character is
/// returned unchanged, and so is text carrying a zero-width joiner (which
/// the reshaper cannot process); otherwise the text is reshaped and, when
/// the result is a non-empty single paragraph, reordered for display.
pub open spec fn shape_spec(s: Seq<char>) -> Seq<char> {
    if !contains_arabic(s) || contains_zwj(s) {
        s
    } else {
        let t = reshaped_text(s);
        if t.len() == 0 || contains_para_sep(t) {
            t
        } else {
            bidi_ordered(t)
        }
    }
}

/// Relies on `arabic_reshaper::ArabicReshaper::reshape` with the crate's
/// built-in configuration: a deterministic function of the text that
/// substitutes contextual presentation forms. A zero-width joiner is
/// excluded: the reshaper drops it from its per-letter output while its
/// ligature matching still counts it, and a lam-alef pair after a joiner
/// then indexes that output out of bounds.
#[verifier::external_body]
fn reshape_arabic(s: &str) -> (r: String)
    requires
        !contains_zwj(s@),
    ensures
        r@ == reshaped_text(s@),
{
    arabic_reshaper::ArabicReshaper::new().reshape(s)
}

/// Relies on `unicode_bidi::BidiInfo::new` and `BidiInfo::reorder_line`: the
/// visual ordering of a non-empty text that forms a single paragraph, with
/// the base direction taken from its first strong character.
#[verifier::external_body]
fn bidi_reorder(s: &str) -> (r: String)
    requires
        s@.len() > 0,
        !contains_para_sep(s@),
    ensures
        r@ == bidi_ordered(s@),
{
    let bidi = unicode_bidi::BidiInfo::new(s, None);
    let para = &bidi.paragraphs[0];
    bidi.reorder_line(para, 0..s.len()).to_string()
}

/// Does the string contain an Arabic-block character?
pub fn is_arabic(text: &str) -> (r: bool)
    ensures
        r == contains_arabic(text@),
{
    let n: usize = text.unicode_len();
    let mut i: usize = 0;
    while i < n
        invariant
            n == text@.len(),
            i <= n,
            forall|j: int| 0 <= j < i ==> !is_arabic_char(text@[j]),
        decreases n - i,
    {
        let c = text.get_char(i);
        let u = c as u32;
        if 0x0600 <= u && u <= 0x06FF {
            return true;
        }
        i = i + 1;
    }
    false
}

fn has_zwj(text: &str) -> (r: bool)
    ensures
        r == contains_zwj(text@),
{
    let n: usize = text.unicode_len();
    let mut i: usize = 0;
    while i < n
        invariant
            n == text@.len(),
            i <= n,
            forall|j: int| 0 <= j < i ==> text@[j] != '\u{200d}',
        decreases n - i,
    {
        if text.get_char(i) == '\u{200d}' {
            return true;
        }
        i = i + 1;
    }
    false
}

fn has_para_sep(text: &str) -> (r: bool)
    ensures
        r == contains_para_sep(text@),
{
    let n: usize = text.unicode_len();
    let mut i: usize = 0;
    while i < n
        invariant
            n == text@.len(),
            i <= n,
            forall|j: int| 0 <= j < i ==> !is_para_sep(text@[j]),
        decreases n - i,
    {
        let c = text.get_char(i);
        if c == '\n' || c == '\r' || c == '\u{001c}' || c == '\u{001d}' || c == '\u{001e}' || c
            == '\u{0085}' || c == '\u{2029}' {
            return true;
        }
        i = i + 1;
    }
    false
}

/// The derived direction of a text: right-to-left exactly when it contains
/// an Arabic-block character.
pub fn detect_direction(text: &str) -> (d: Direction)
    ensures
        d == if contains_arabic(text@) {
            Direction::RTL
        } else {
            Direction::LTR
        },
{
    if is_arabic(text) {
        Direction::RTL
    } else {
        Direction::LTR
    }
}

/// Shape a text for display. Pure and deterministic: the result is a
/// function of the input alone, so repeated calls agree, and input without
/// an Arabic-block character comes back unchanged.
pub fn pdx_text(input: &str) -> (r: String)
    ensures
        r@ == shape_spec(input@),
{
    if !is_arabic(input) || has_zwj(input) {
        return String::from_str(input);
    }
    let shaped = reshape_arabic(input);
    if shaped.as_str().unicode_len() == 0 || has_para_sep(shaped.as_str()) {
        return shaped;
    }
    bidi_reorder(shaped.as_str())
}

/// Shaping is deterministic: any two results that the display transform
/// admits for the same text are equal, since the transform is a function
/// of the text alone.
pub proof fn lemma_shape_deterministic(s: Seq<char>, r1: Seq<char>, r2: Seq<char>)
    requires
        r1 == shape_spec(s),
        r2 == shape_spec(s),
    ensures
        r1 == r2,
{
}

/// Shaping touches nothing outside the Arabic script: a text with no
/// Arabic-block character is returned exactly as it came.
pub proof fn lemma_shape_latin_noop(s: Seq<char>)
    requires
        !contains_arabic(s),
    ensures
        shape_spec(s) == s,
{
}

} // verus!
