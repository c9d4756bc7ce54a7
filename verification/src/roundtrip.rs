//! The reparse law: serializing a parsed document and parsing it again
//! yields a structurally equal document.
//!
//! The proof goes through a canonical-form predicate: every block the
//! parser emits is canonical, and parsing the serialization of a canonical
//! block sequence restores it exactly.

use vstd::prelude::*;

use crate::chars::find_idx;
use crate::chars::is_ws;
use crate::chars::join_sep;
use crate::chars::lemma_find_idx_is;
use crate::chars::lemma_find_idx_props;
use crate::chars::lemma_join_split;
use crate::chars::lemma_run_len_is;
use crate::chars::lemma_run_len_props;
use crate::chars::lemma_split_concat;
use crate::chars::lemma_split_free;
use crate::chars::lemma_split_single;
use crate::chars::lemma_tail_run_len_is;
use crate::chars::lemma_trim_of_trimmed;
use crate::chars::lemma_trim_trimmed;
use crate::chars::lines_of;
use crate::chars::run_len;
use crate::chars::split_char;
use crate::chars::trim_spec;
use crate::data::BlockSpec;
use crate::data::RunSpec;
use crate::parser::bullet_run;
use crate::parser::code_of;
use crate::parser::fence_body_len;
use crate::parser::heading_of;
use crate::parser::heading_style;
use crate::parser::image_of;
use crate::parser::is_bullet_line;
use crate::parser::is_image_line;
use crate::parser::item_of;
use crate::parser::item_text;
use crate::parser::join_texts;
use crate::parser::lemma_bullet_run_is;
use crate::parser::lemma_fence_body_is;
use crate::parser::lemma_fence_body_le;
use crate::parser::lemma_link_idx_is;
use crate::parser::lemma_link_idx_props;
use crate::parser::link_idx;
use crate::parser::list_of;
use crate::parser::pat_at;
use crate::parser::paragraph_of;
use crate::parser::parse_lines;
use crate::parser::parse_spec;
use crate::parser::run_of;
use crate::parser::serialize_block;
use crate::parser::serialize_doc;
use crate::parser::starts_fence;

verus! {

/// No line break anywhere in the sequence.
pub open spec fn no_nl(s: Seq<char>) -> bool {
    forall|i: int| 0 <= i < s.len() ==> s[i] != '\n'
}

/// Every line of the sequence is free of line breaks.
pub open spec fn lines_clean(ls: Seq<Seq<char>>) -> bool {
    forall|m: int| 0 <= m < ls.len() ==> no_nl(#[trigger] ls[m])
}

/// A run text as the parser produces it: trimmed at both ends and free of
/// line breaks.
pub open spec fn text_ok(t: Seq<char>) -> bool {
    (t.len() == 0 || (!is_ws(t.first()) && !is_ws(t.last()))) && no_nl(t)
}

/// The canonical shape of a block the parser can emit. Reparsing the
/// serialization of such a block restores it exactly.
pub open spec fn canonical_block(b: BlockSpec) -> bool {
    match b {
        BlockSpec::Heading { level, runs, style } => 1 <= level <= 6 && runs.len() == 1
            && text_ok(runs[0].text) && runs[0] == run_of(runs[0].text, heading_style(level))
            && style == heading_style(level),
        BlockSpec::Paragraph { runs, style } => {
            let t = runs[0].text;
            runs.len() == 1 && t.len() > 0 && text_ok(t) && runs[0] == run_of(
                t,
                if crate::pdx_text::contains_arabic(t) {
                    "arabic"@
                } else {
                    "paragraph"@
                },
            ) && style == (if crate::pdx_text::contains_arabic(t) {
                "arabic"@
            } else {
                "paragraph"@
            }) && !is_image_line(t) && t[0] != '#' && !starts_fence(t) && t != "---"@ && t
                != "==="@ && !is_bullet_line(t)
        },
        BlockSpec::List { ordered, items, style } => !ordered && items.len() >= 1 && style
            == "list"@ && forall|m: int|
            0 <= m < items.len() ==> canonical_item(#[trigger] items[m]),
        BlockSpec::CodeBlock { language, code, style } => style == "code"@ && language.len() > 0
            && text_ok(language) && forall|m: int|
            0 <= m < split_char(code, '\n').len() ==> !starts_fence(
                trim_spec(#[trigger] split_char(code, '\n')[m]),
            ),
        BlockSpec::Image { path, alt_text, width, height } => width is None && height is None
            && no_nl(alt_text) && no_nl(path) && (forall|i: int|
            0 <= i < alt_text.len() ==> alt_text[i] != ')') && (forall|i: int|
            0 <= i < path.len() ==> path[i] != ')') && (forall|i: int|
            0 <= i < alt_text.len() ==> !(#[trigger] alt_text[i] == ']' && i + 1
                < alt_text.len() && alt_text[i + 1] == '(')),
        BlockSpec::Divider => true,
        BlockSpec::PageBreak => true,
    }
}

/// One list item as the parser emits it.
pub open spec fn canonical_item(item: Seq<RunSpec>) -> bool {
    item.len() == 1 && text_ok(item[0].text) && item[0] == run_of(item[0].text, "paragraph"@)
}

/// All blocks of a sequence are canonical.
pub open spec fn all_canonical(blocks: Seq<BlockSpec>) -> bool {
    forall|m: int| 0 <= m < blocks.len() ==> canonical_block(#[trigger] blocks[m])
}

/// Trimming keeps a sequence free of line breaks.
proof fn lemma_no_nl_trim(s: Seq<char>)
    requires
        no_nl(s),
    ensures
        no_nl(trim_spec(s)),
        text_ok(trim_spec(s)),
{
    lemma_trim_trimmed(s);
    assert forall|i: int| 0 <= i < trim_spec(s).len() implies trim_spec(s)[i] != '\n' by {
        assert(trim_spec(s)[i] == s[i + crate::chars::trim_off(s)]);
    }
}

/// The text of a parsed list item is canonical.
proof fn lemma_item_canonical(l: Seq<char>)
    requires
        no_nl(l),
    ensures
        canonical_item(item_of(trim_spec(l))),
{
    let t = trim_spec(l);
    lemma_no_nl_trim(l);
    let s1 = t.skip(run_len(t, |c: char| c == '-') as int);
    lemma_run_len_props(t, |c: char| c == '-');
    assert forall|i: int| 0 <= i < s1.len() implies s1[i] != '\n' by {
        assert(s1[i] == t[i + run_len(t, |c: char| c == '-')]);
    }
    let s2 = s1.skip(run_len(s1, |c: char| c == '\u{2022}') as int);
    lemma_run_len_props(s1, |c: char| c == '\u{2022}');
    assert forall|i: int| 0 <= i < s2.len() implies s2[i] != '\n' by {
        assert(s2[i] == s1[i + run_len(s1, |c: char| c == '\u{2022}')]);
    }
    lemma_no_nl_trim(s2);
}

/// Every block the parser emits is canonical.
pub proof fn lemma_parse_canonical(ls: Seq<Seq<char>>)
    requires
        lines_clean(ls),
    ensures
        all_canonical(parse_lines(ls)),
    decreases ls.len(),
{
    if ls.len() == 0 {
        return ;
    }
    assert(lines_clean(ls.drop_first())) by {
        assert forall|m: int| 0 <= m < ls.drop_first().len() implies no_nl(
            #[trigger] ls.drop_first()[m],
        ) by {
            assert(ls.drop_first()[m] == ls[m + 1]);
        }
    }
    let t = trim_spec(ls[0]);
    assert(no_nl(ls[0]));
    lemma_no_nl_trim(ls[0]);
    if t.len() == 0 {
        lemma_parse_canonical(ls.drop_first());
    } else if is_image_line(t) {
        lemma_parse_canonical(ls.drop_first());
        let cb = link_idx(t);
        let cp = find_idx(t, ')');
        lemma_link_idx_props(t);
        lemma_find_idx_props(t, ')');
        let alt = t.subrange(2, cb as int);
        let path = t.subrange(cb + 2 as int, cp as int);
        assert(canonical_block(image_of(t))) by {
            assert forall|i: int| 0 <= i < alt.len() implies alt[i] != ')' by {
                assert(alt[i] == t[i + 2]);
            }
            assert forall|i: int| 0 <= i < alt.len() implies alt[i] != '\n' by {
                assert(alt[i] == t[i + 2]);
            }
            assert forall|i: int| 0 <= i < path.len() implies path[i] != ')' by {
                assert(path[i] == t[i + cb + 2]);
            }
            assert forall|i: int| 0 <= i < path.len() implies path[i] != '\n' by {
                assert(path[i] == t[i + cb + 2]);
            }
            assert forall|i: int|
                0 <= i < alt.len() implies !(#[trigger] alt[i] == ']' && i + 1 < alt.len()
                && alt[i + 1] == '(') by {
                if alt[i] == ']' && i + 1 < alt.len() && alt[i + 1] == '(' {
                    assert(alt[i] == t[i + 2]);
                    assert(alt[i + 1] == t[i + 3]);
                    assert(pat_at(t, i + 2));
                    assert(!pat_at(t, i + 2));
                }
            }
        }
        let rest = parse_lines(ls.drop_first());
        assert forall|m: int|
            0 <= m < parse_lines(ls).len() implies canonical_block(
            #[trigger] parse_lines(ls)[m],
        ) by {
            if m == 0 {
            } else {
                assert(parse_lines(ls)[m] == rest[m - 1]);
            }
        }
    } else if t[0] == '#' {
        lemma_parse_canonical(ls.drop_first());
        let raw = run_len(t, |c: char| c == '#');
        let level: u8 = if raw <= 6 {
            raw as u8
        } else {
            6
        };
        assert(raw >= 1);
        lemma_run_len_props(t, |c: char| c == '#');
        let after = t.skip(raw as int);
        assert forall|i: int| 0 <= i < after.len() implies after[i] != '\n' by {
            assert(after[i] == t[i + raw]);
        }
        lemma_no_nl_trim(after);
        assert(canonical_block(heading_of(t)));
        let rest = parse_lines(ls.drop_first());
        assert forall|m: int|
            0 <= m < parse_lines(ls).len() implies canonical_block(
            #[trigger] parse_lines(ls)[m],
        ) by {
            if m > 0 {
                assert(parse_lines(ls)[m] == rest[m - 1]);
            }
        }
    } else if starts_fence(t) {
        let body = fence_body_len(ls.drop_first());
        let consumed: nat = if 1 + body < ls.len() {
            2 + body
        } else {
            1 + body
        };
        lemma_fence_body_le(ls.drop_first());
        assert(lines_clean(ls.skip(consumed as int))) by {
            assert forall|m: int| 0 <= m < ls.skip(consumed as int).len() implies no_nl(
                #[trigger] ls.skip(consumed as int)[m],
            ) by {
                assert(ls.skip(consumed as int)[m] == ls[m + consumed]);
            }
        }
        lemma_parse_canonical(ls.skip(consumed as int));
        let back = run_len(t, |c: char| c == '`');
        lemma_run_len_props(t, |c: char| c == '`');
        let after = t.skip(back as int);
        assert forall|i: int| 0 <= i < after.len() implies after[i] != '\n' by {
            assert(after[i] == t[i + back]);
        }
        lemma_no_nl_trim(after);
        let body_lines = ls.subrange(1, 1 + body as int);
        let code = join_sep(body_lines, seq!['\n']);
        assert(canonical_block(code_of(t, body_lines))) by {
            let lang0 = trim_spec(after);
            if lang0.len() == 0 {
                reveal_strlit("text");
                assert("text"@.len() == 4);
                assert("text"@[0] == 't');
                assert(!is_ws('t'));
                assert(text_ok("text"@)) by {
                    assert forall|i: int| 0 <= i < "text"@.len() implies "text"@[i] != '\n' by {
                        if i == 0 {
                            assert("text"@[i] == 't');
                        } else if i == 1 {
                            assert("text"@[i] == 'e');
                        } else if i == 2 {
                            assert("text"@[i] == 'x');
                        } else {
                            assert("text"@[i] == 't');
                        }
                    }
                }
            }
            if body_lines.len() == 0 {
                assert(code =~= Seq::<char>::empty());
                assert(split_char(code, '\n') == seq![code]);
                assert forall|m: int| 0 <= m < split_char(code, '\n').len() implies !starts_fence(
                    trim_spec(#[trigger] split_char(code, '\n')[m]),
                ) by {
                    assert(split_char(code, '\n')[m] == code);
                    lemma_trim_of_trimmed(code);
                }
            } else {
                assert forall|m: int| 0 <= m < body_lines.len() implies no_nl(
                    #[trigger] body_lines[m],
                ) by {
                    assert(body_lines[m] == ls[m + 1]);
                }
                lemma_split_join_inv(body_lines, '\n');
                assert forall|m: int| 0 <= m < split_char(code, '\n').len() implies !starts_fence(
                    trim_spec(#[trigger] split_char(code, '\n')[m]),
                ) by {
                    assert(split_char(code, '\n')[m] == body_lines[m]);
                    assert(body_lines[m] == ls[m + 1]);
                    assert(ls.drop_first()[m] == ls[m + 1]);
                    assert(!starts_fence(trim_spec(ls.drop_first()[m])));
                }
            }
        }
        let rest = parse_lines(ls.skip(consumed as int));
        assert forall|m: int|
            0 <= m < parse_lines(ls).len() implies canonical_block(
            #[trigger] parse_lines(ls)[m],
        ) by {
            if m > 0 {
                assert(parse_lines(ls)[m] == rest[m - 1]);
            }
        }
    } else if t == "---"@ {
        lemma_parse_canonical(ls.drop_first());
        let rest = parse_lines(ls.drop_first());
        assert forall|m: int|
            0 <= m < parse_lines(ls).len() implies canonical_block(
            #[trigger] parse_lines(ls)[m],
        ) by {
            if m > 0 {
                assert(parse_lines(ls)[m] == rest[m - 1]);
            }
        }
    } else if t == "==="@ {
        lemma_parse_canonical(ls.drop_first());
        let rest = parse_lines(ls.drop_first());
        assert forall|m: int|
            0 <= m < parse_lines(ls).len() implies canonical_block(
            #[trigger] parse_lines(ls)[m],
        ) by {
            if m > 0 {
                assert(parse_lines(ls)[m] == rest[m - 1]);
            }
        }
    } else if is_bullet_line(t) {
        let k = bullet_run(ls);
        crate::parser::lemma_bullet_run_le(ls);
        assert(k >= 1);
        assert(lines_clean(ls.skip(k as int))) by {
            assert forall|m: int| 0 <= m < ls.skip(k as int).len() implies no_nl(
                #[trigger] ls.skip(k as int)[m],
            ) by {
                assert(ls.skip(k as int)[m] == ls[m + k]);
            }
        }
        lemma_parse_canonical(ls.skip(k as int));
        let taken = ls.take(k as int);
        assert(canonical_block(list_of(taken))) by {
            let mapped = taken.map_values(|l: Seq<char>| item_of(trim_spec(l)));
            assert forall|m: int| 0 <= m < mapped.len() implies canonical_item(
                #[trigger] mapped[m],
            ) by {
                assert(taken[m] == ls[m]);
                lemma_item_canonical(ls[m]);
            }
        }
        let rest = parse_lines(ls.skip(k as int));
        assert forall|m: int|
            0 <= m < parse_lines(ls).len() implies canonical_block(
            #[trigger] parse_lines(ls)[m],
        ) by {
            if m > 0 {
                assert(parse_lines(ls)[m] == rest[m - 1]);
            }
        }
    } else {
        lemma_parse_canonical(ls.drop_first());
        assert(canonical_block(paragraph_of(t)));
        let rest = parse_lines(ls.drop_first());
        assert forall|m: int|
            0 <= m < parse_lines(ls).len() implies canonical_block(
            #[trigger] parse_lines(ls)[m],
        ) by {
            if m > 0 {
                assert(parse_lines(ls)[m] == rest[m - 1]);
            }
        }
    }
}

/// Splitting at the separator undoes joining line-break-free pieces.
proof fn lemma_split_join_inv(parts: Seq<Seq<char>>, c: char)
    requires
        parts.len() >= 1,
        forall|m: int, i: int|
            0 <= m < parts.len() && 0 <= i < parts[m].len() ==> #[trigger] parts[m][i] != c,
    ensures
        split_char(join_sep(parts, seq![c]), c) == parts,
    decreases parts.len(),
{
    if parts.len() == 1 {
        assert(join_sep(parts, seq![c]) == parts[0]);
        lemma_split_single(parts[0], c);
        assert(split_char(join_sep(parts, seq![c]), c) =~= parts);
    } else {
        let rest = parts.drop_first();
        assert forall|m: int, i: int|
            0 <= m < rest.len() && 0 <= i < rest[m].len() implies #[trigger] rest[m][i] != c by {
            assert(rest[m] == parts[m + 1]);
        }
        lemma_split_join_inv(rest, c);
        assert(join_sep(parts, seq![c]) == parts[0] + seq![c] + join_sep(rest, seq![c]));
        lemma_split_concat(parts[0], join_sep(rest, seq![c]), c);
        lemma_split_single(parts[0], c);
        assert(split_char(join_sep(parts, seq![c]), c) =~= parts);
    }
}


// ============================================================================
// Reparsing a canonical serialization
// ============================================================================

/// Trimming drops exactly one leading space before a trimmed text.
proof fn lemma_trim_space_prefix(text: Seq<char>)
    requires
        text_ok(text),
    ensures
        trim_spec(seq![' '] + text) == text,
{
    let p = |c: char| is_ws(c);
    let s = seq![' '] + text;
    if text.len() == 0 {
        lemma_run_len_is(s, p, 1);
        assert(s.skip(1) =~= text);
        lemma_tail_run_len_is(text, p, 0);
        assert(trim_spec(s) =~= text);
    } else {
        assert(s[1] == text[0]);
        lemma_run_len_is(s, p, 1);
        assert(s.skip(1) =~= text);
        lemma_tail_run_len_is(text, p, 0);
        assert(trim_spec(s) =~= text);
    }
}

/// Trimming drops exactly one trailing space after a whitespace-free text.
proof fn lemma_trim_trailing_space(h: Seq<char>)
    requires
        h.len() > 0,
        forall|i: int| 0 <= i < h.len() ==> !is_ws(#[trigger] h[i]),
    ensures
        trim_spec(h + seq![' ']) == h,
{
    let p = |c: char| is_ws(c);
    let s = h + seq![' '];
    assert(s[0] == h[0]);
    lemma_run_len_is(s, p, 0);
    assert(s.skip(0) =~= s);
    assert(s.last() == ' ');
    assert(s.drop_last() =~= h);
    assert(h.last() == s[s.len() - 2]);
    lemma_tail_run_len_is(s, p, 1);
    assert(trim_spec(s) =~= h);
}

/// A canonical block serializes to a non-empty text that does not end in a
/// line break.
proof fn lemma_block_shape(b: BlockSpec)
    requires
        canonical_block(b),
    ensures
        serialize_block(b).len() > 0,
        serialize_block(b).last() != '\n',
{
    let sb = serialize_block(b);
    match b {
        BlockSpec::Heading { level, runs, .. } => {
            let text = runs[0].text;
            assert(join_texts(runs) == text) by {
                assert(runs.map_values(|r: RunSpec| r.text) =~= seq![text]);
            }
            if text.len() == 0 {
                assert(sb.last() == ' ');
            } else {
                assert(sb.last() == text.last());
            }
        }
        BlockSpec::Paragraph { runs, .. } => {
            let text = runs[0].text;
            assert(join_texts(runs) == text) by {
                assert(runs.map_values(|r: RunSpec| r.text) =~= seq![text]);
            }
            assert(sb.last() == text.last());
        }
        BlockSpec::List { ordered, items, .. } => {
            let pieces = Seq::new(
                items.len(),
                |m: int| crate::parser::list_marker(ordered, m) + seq![' '] + join_texts(
                    items[m],
                ),
            );
            let lastp = pieces.last();
            let lasttext = items.last()[0].text;
            assert(join_texts(items.last()) == lasttext) by {
                assert(items.last().map_values(|r: RunSpec| r.text) =~= seq![lasttext]);
            }
            assert(lastp == seq!['-'] + seq![' '] + lasttext);
            if lasttext.len() == 0 {
                assert(lastp.last() == ' ');
            } else {
                assert(lastp.last() == lasttext.last());
            }
            lemma_join_tail(pieces, seq!['\n']);
        }
        BlockSpec::CodeBlock { .. } => {
            assert(sb.last() == '`');
        }
        BlockSpec::Image { .. } => {
            assert(sb.last() == ')');
        }
        BlockSpec::Divider => {
            assert(sb.last() == '-');
        }
        BlockSpec::PageBreak => {
            assert(sb.last() == '=');
        }
    }
}

/// A join is at least as long as its last piece and ends as it ends.
proof fn lemma_join_tail(parts: Seq<Seq<char>>, sep: Seq<char>)
    requires
        parts.len() >= 1,
    ensures
        join_sep(parts, sep).len() >= parts.last().len(),
        parts.last().len() > 0 ==> join_sep(parts, sep).len() > 0 && join_sep(parts, sep).last()
            == parts.last().last(),
    decreases parts.len(),
{
    if parts.len() == 1 {
    } else {
        lemma_join_tail(parts.drop_first(), sep);
        assert(parts.drop_first().last() == parts.last());
        let j = join_sep(parts, sep);
        let jr = join_sep(parts.drop_first(), sep);
        assert(j == parts[0] + sep + jr);
        if parts.last().len() > 0 {
            assert(j.last() == jr.last());
        }
    }
}

/// Parsing the serialization of one canonical block, followed by a blank
/// line or nothing, yields that block and leaves the rest untouched.
proof fn lemma_reparse_block(b: BlockSpec, tail: Seq<Seq<char>>)
    requires
        canonical_block(b),
        tail.len() == 0 || trim_spec(tail[0]).len() == 0,
    ensures
        parse_lines(split_char(serialize_block(b), '\n') + tail) == seq![b] + parse_lines(tail),
{
    match b {
        BlockSpec::Heading { .. } => lemma_reparse_heading(b, tail),
        BlockSpec::Paragraph { .. } => lemma_reparse_paragraph(b, tail),
        BlockSpec::List { .. } => lemma_reparse_list(b, tail),
        BlockSpec::CodeBlock { .. } => lemma_reparse_code(b, tail),
        BlockSpec::Image { .. } => lemma_reparse_image(b, tail),
        BlockSpec::Divider => lemma_reparse_divider(b, tail),
        BlockSpec::PageBreak => lemma_reparse_pagebreak(b, tail),
    }
}

proof fn lemma_reparse_heading(b: BlockSpec, tail: Seq<Seq<char>>)
    requires
        canonical_block(b),
        b is Heading,
        tail.len() == 0 || trim_spec(tail[0]).len() == 0,
    ensures
        parse_lines(split_char(serialize_block(b), '\n') + tail) == seq![b] + parse_lines(tail),
{
    let sb = serialize_block(b);
    match b {
        BlockSpec::Heading { level, runs, style } => {

                let text = runs[0].text;
                let hs = Seq::new(level as nat, |q: int| '#');
                assert(join_texts(runs) == text) by {
                    assert(runs.map_values(|r: RunSpec| r.text) =~= seq![text]);
                }
                assert(sb == hs + seq![' '] + text);
                assert forall|i: int| 0 <= i < sb.len() implies sb[i] != '\n' by {
                    if i < level {
                        assert(sb[i] == '#');
                    } else if i == level {
                        assert(sb[i] == ' ');
                    } else {
                        assert(sb[i] == text[i - level - 1]);
                    }
                }
                lemma_split_single(sb, '\n');
                let ls = split_char(sb, '\n') + tail;
                assert(ls[0] == sb);
                assert(ls.drop_first() =~= tail);
                let t = trim_spec(sb);
                if text.len() == 0 {
                    assert(sb =~= hs + seq![' ']);
                    assert forall|i: int| 0 <= i < hs.len() implies !is_ws(#[trigger] hs[i]) by {
                        assert(hs[i] == '#');
                    }
                    lemma_trim_trailing_space(hs);
                    assert(t == hs);
                    assert(t[0] == '#');
                    lemma_run_len_is(t, |c: char| c == '#', level as nat);
                    assert(t.skip(level as int) =~= Seq::<char>::empty());
                    lemma_trim_of_trimmed(Seq::<char>::empty());
                    assert(heading_of(t) =~~= b);
                } else {
                    assert(sb[0] == hs[0]);
                    assert(hs[0] == '#');
                    assert(sb.last() == text.last());
                    lemma_trim_of_trimmed(sb);
                    assert(t == sb);
                    assert(t[0] == '#');
                    assert forall|i: int| 0 <= i < level implies (|c: char| c == '#')(t[i]) by {
                        assert(t[i] == hs[i]);
                    }
                    assert(t[level as int] == ' ');
                    lemma_run_len_is(t, |c: char| c == '#', level as nat);
                    assert(t.skip(level as int) =~= seq![' '] + text);
                    lemma_trim_space_prefix(text);
                    assert(heading_of(t) =~~= b);
                }
                assert(parse_lines(ls) =~= seq![b] + parse_lines(tail));
            
        }
        _ => {
            assert(false);
        }
    }
}

proof fn lemma_reparse_paragraph(b: BlockSpec, tail: Seq<Seq<char>>)
    requires
        canonical_block(b),
        b is Paragraph,
        tail.len() == 0 || trim_spec(tail[0]).len() == 0,
    ensures
        parse_lines(split_char(serialize_block(b), '\n') + tail) == seq![b] + parse_lines(tail),
{
    let sb = serialize_block(b);
    match b {
        BlockSpec::Paragraph { runs, style } => {

                let text = runs[0].text;
                assert(join_texts(runs) == text) by {
                    assert(runs.map_values(|r: RunSpec| r.text) =~= seq![text]);
                }
                assert(sb == text);
                lemma_split_single(sb, '\n');
                let ls = split_char(sb, '\n') + tail;
                assert(ls[0] == sb);
                assert(ls.drop_first() =~= tail);
                lemma_trim_of_trimmed(text);
                assert(trim_spec(ls[0]) == text);
                assert(paragraph_of(text) =~~= b);
                assert(parse_lines(ls) =~= seq![b] + parse_lines(tail));
            
        }
        _ => {
            assert(false);
        }
    }
}

proof fn lemma_reparse_list(b: BlockSpec, tail: Seq<Seq<char>>)
    requires
        canonical_block(b),
        b is List,
        tail.len() == 0 || trim_spec(tail[0]).len() == 0,
    ensures
        parse_lines(split_char(serialize_block(b), '\n') + tail) == seq![b] + parse_lines(tail),
{
    let sb = serialize_block(b);
    match b {
        BlockSpec::List { ordered, items, style } => {

                let pieces = Seq::new(
                    items.len(),
                    |m: int| crate::parser::list_marker(ordered, m) + seq![' '] + join_texts(
                        items[m],
                    ),
                );
                assert(sb == join_sep(pieces, seq!['\n']));
                assert forall|m: int, i: int|
                    0 <= m < pieces.len() && 0 <= i < pieces[m].len() implies #[trigger] pieces[m][i]
                    != '\n' by {
                    let text = items[m][0].text;
                    assert(join_texts(items[m]) == text) by {
                        assert(items[m].map_values(|r: RunSpec| r.text) =~= seq![text]);
                    }
                    assert(pieces[m] == seq!['-'] + seq![' '] + text);
                    if i == 0 {
                        assert(pieces[m][i] == '-');
                    } else if i == 1 {
                        assert(pieces[m][i] == ' ');
                    } else {
                        assert(pieces[m][i] == text[i - 2]);
                    }
                }
                lemma_split_join_inv(pieces, '\n');
                let ls = pieces + tail;
                assert(ls.drop_first() =~= pieces.drop_first() + tail);
                reveal_strlit("---");
                reveal_strlit("===");
                assert forall|m: int| 0 <= m < pieces.len() implies is_bullet_line(
                    trim_spec(#[trigger] ls[m]),
                ) && trim_spec(ls[m]) == (if items[m][0].text.len() == 0 {
                    seq!['-']
                } else {
                    pieces[m]
                }) by {
                    assert(ls[m] == pieces[m]);
                    let text = items[m][0].text;
                    assert(join_texts(items[m]) == text) by {
                        assert(items[m].map_values(|r: RunSpec| r.text) =~= seq![text]);
                    }
                    assert(pieces[m] == seq!['-'] + seq![' '] + text);
                    if text.len() == 0 {
                        let dd = seq!['-'];
                        assert(pieces[m] =~= dd + seq![' ']);
                        assert forall|i: int| 0 <= i < dd.len() implies !is_ws(#[trigger] dd[i]) by {
                            assert(dd[i] == '-');
                        }
                        lemma_trim_trailing_space(dd);
                        assert(trim_spec(pieces[m]) == dd);
                        assert(dd[0] == '-');
                        assert(dd.len() != "---"@.len());
                        assert(is_bullet_line(dd));
                    } else {
                        assert(pieces[m][0] == '-');
                        assert(pieces[m].last() == text.last());
                        lemma_trim_of_trimmed(pieces[m]);
                        assert(trim_spec(pieces[m]) == pieces[m]);
                        assert(pieces[m][1] == ' ');
                        if pieces[m] == "---"@ {
                            assert(pieces[m][1] == "---"@[1]);
                            assert(false);
                        }
                        assert(is_bullet_line(pieces[m]));
                    }
                }
                let k = items.len() as nat;
                assert forall|m: int| 0 <= m < k implies is_bullet_line(
                    trim_spec(#[trigger] ls[m]),
                ) by {}
                if k < ls.len() {
                    assert(ls[k as int] == tail[0]);
                    assert(!is_bullet_line(trim_spec(ls[k as int])));
                }
                lemma_bullet_run_is(ls, k);
                let t0 = trim_spec(ls[0]);
                assert(is_bullet_line(t0));
                assert(t0[0] == '-' || t0[0] == '\u{2022}');
                assert(t0[0] != '!' && t0[0] != '#' && t0[0] != '`') by {
                    if items[0][0].text.len() == 0 {
                        assert(t0 == seq!['-']);
                    } else {
                        assert(t0 == pieces[0]);
                        assert(t0[0] == '-');
                    }
                }
                assert(t0 != "==="@) by {
                    assert("==="@[0] == '=');
                }
                assert(ls.take(k as int) =~= pieces);
                assert(list_of(pieces) =~~= b) by {
                    let mapped = pieces.map_values(|l: Seq<char>| item_of(trim_spec(l)));
                    assert forall|m: int| 0 <= m < k implies #[trigger] mapped[m] == items[m] by {
                        let text = items[m][0].text;
                        let tm = trim_spec(pieces[m]);
                        if text.len() == 0 {
                            assert(tm == seq!['-']);
                            lemma_run_len_is(tm, |c: char| c == '-', 1);
                            let s1 = tm.skip(1);
                            assert(s1 =~= Seq::<char>::empty());
                            lemma_run_len_is(s1, |c: char| c == '\u{2022}', 0);
                            assert(s1.skip(0) =~= s1);
                            lemma_trim_of_trimmed(s1);
                            assert(item_text(tm) =~= text);
                            assert(item_of(tm) =~~= items[m]);
                        } else {
                            assert(tm == pieces[m]);
                            assert(tm == seq!['-'] + seq![' '] + text);
                            assert(tm[0] == '-');
                            assert(tm[1] == ' ');
                            lemma_run_len_is(tm, |c: char| c == '-', 1);
                            let s1 = tm.skip(1);
                            assert(s1 =~= seq![' '] + text);
                            assert(s1[0] == ' ');
                            lemma_run_len_is(s1, |c: char| c == '\u{2022}', 0);
                            assert(s1.skip(0) =~= s1);
                            lemma_trim_space_prefix(text);
                            assert(item_text(tm) == text);
                            assert(item_of(tm) =~~= items[m]);
                        }
                    }
                    assert(mapped =~~= items);
                }
                assert(ls.skip(k as int) =~= tail);
                assert(parse_lines(ls) =~= seq![b] + parse_lines(tail));
            
        }
        _ => {
            assert(false);
        }
    }
}

proof fn lemma_reparse_code(b: BlockSpec, tail: Seq<Seq<char>>)
    requires
        canonical_block(b),
        b is CodeBlock,
        tail.len() == 0 || trim_spec(tail[0]).len() == 0,
    ensures
        parse_lines(split_char(serialize_block(b), '\n') + tail) == seq![b] + parse_lines(tail),
{
    let sb = serialize_block(b);
    match b {
        BlockSpec::CodeBlock { language, code, style } => {

                let spaced = language.len() > 0 && language[0] == '`';
                let ff = if spaced {
                    seq!['`', '`', '`', ' ']
                } else {
                    seq!['`', '`', '`']
                };
                let a = ff + language;
                let tt = seq!['`', '`', '`'];
                assert(sb == ff + language + seq!['\n'] + code + seq!['\n', '`', '`', '`']);
                assert(sb =~= a + seq!['\n'] + (code + seq!['\n'] + tt));
                assert forall|i: int| 0 <= i < a.len() implies a[i] != '\n' by {
                    if i < ff.len() {
                        assert(a[i] == ff[i]);
                    } else {
                        assert(a[i] == language[i - ff.len()]);
                    }
                }
                lemma_split_concat(a, code + seq!['\n'] + tt, '\n');
                lemma_split_single(a, '\n');
                lemma_split_concat(code, tt, '\n');
                lemma_split_single(tt, '\n');
                assert(split_char(sb, '\n') =~= seq![a] + split_char(code, '\n') + seq![tt]);
                let body = split_char(code, '\n');
                let ls = (seq![a] + body + seq![tt]) + tail;
                assert(ls[0] == a);
                assert(a[0] == '`');
                assert(a.last() == language.last());
                lemma_trim_of_trimmed(a);
                let t = trim_spec(ls[0]);
                assert(t == a);
                assert(t[0] == '`' && t[1] == '`' && t[2] == '`');
                assert(starts_fence(t));
                assert(t[0] != '!' && t[0] != '#');
                // The fence body runs to the closing fence.
                let restl = ls.drop_first();
                assert(restl =~= body + seq![tt] + tail);
                assert forall|m: int| 0 <= m < body.len() implies !starts_fence(
                    trim_spec(#[trigger] restl[m]),
                ) by {
                    assert(restl[m] == body[m]);
                }
                assert(restl[body.len() as int] == tt);
                assert forall|i: int| 0 <= i < tt.len() implies !is_ws(#[trigger] tt[i]) by {
                    assert(tt[i] == '`');
                }
                lemma_trim_of_trimmed(tt);
                assert(starts_fence(trim_spec(restl[body.len() as int])));
                lemma_fence_body_is(restl, body.len() as nat);
                // The language token is recovered exactly.
                if spaced {
                    assert(t[3] == ' ');
                    lemma_run_len_is(t, |c: char| c == '`', 3);
                    assert(t.skip(3) =~= seq![' '] + language);
                    lemma_trim_space_prefix(language);
                } else {
                    assert(t[3] == language[0]);
                    lemma_run_len_is(t, |c: char| c == '`', 3);
                    assert(t.skip(3) =~= language);
                    lemma_trim_of_trimmed(language);
                }
                // The code body is recovered exactly.
                lemma_join_split(code, '\n');
                assert(ls.subrange(1, 1 + body.len() as int) =~= body);
                assert(1 + body.len() < ls.len());
                assert(code_of(t, body) =~~= b);
                assert(ls.skip(2 + body.len() as int) =~= tail);
                assert(parse_lines(ls) =~= seq![b] + parse_lines(tail));
            
        }
        _ => {
            assert(false);
        }
    }
}

proof fn lemma_reparse_image(b: BlockSpec, tail: Seq<Seq<char>>)
    requires
        canonical_block(b),
        b is Image,
        tail.len() == 0 || trim_spec(tail[0]).len() == 0,
    ensures
        parse_lines(split_char(serialize_block(b), '\n') + tail) == seq![b] + parse_lines(tail),
{
    let sb = serialize_block(b);
    match b {
        BlockSpec::Image { path, alt_text, width, height } => {

                assert(sb == seq!['!', '['] + alt_text + seq![']', '('] + path + seq![')']);
                let cb = 2 + alt_text.len() as int;
                let cp = cb + 2 + path.len() as int;
                assert(sb.len() == cp + 1);
                assert forall|i: int| 0 <= i < sb.len() implies sb[i] != '\n' by {
                    if i < 2 {
                    } else if i < cb {
                        assert(sb[i] == alt_text[i - 2]);
                    } else if i < cb + 2 {
                    } else if i < cp {
                        assert(sb[i] == path[i - cb - 2]);
                    } else {
                        assert(sb[i] == ')');
                    }
                }
                lemma_split_single(sb, '\n');
                let ls = split_char(sb, '\n') + tail;
                assert(ls[0] == sb);
                assert(ls.drop_first() =~= tail);
                assert(sb[0] == '!');
                assert(sb.last() == ')');
                lemma_trim_of_trimmed(sb);
                let t = trim_spec(ls[0]);
                assert(t == sb);
                assert forall|i: int| 0 <= i < cb implies !pat_at(t, i) by {
                    if pat_at(t, i) {
                        assert(t[i] == ']');
                        assert(i >= 2);
                        assert(alt_text[i - 2] == ']');
                        if i + 1 < cb {
                            assert(t[i + 1] == alt_text[i - 1]);
                            assert(!(alt_text[i - 2] == ']' && i - 2 + 1 < alt_text.len()
                                && alt_text[i - 1] == '('));
                            assert(false);
                        } else {
                            assert(i + 1 == cb);
                            assert(t[i + 1] == ']');
                            assert(false);
                        }
                    }
                }
                assert(t[cb] == ']');
                assert(t[cb + 1] == '(');
                assert(pat_at(t, cb));
                lemma_link_idx_is(t, cb as nat);
                assert(link_idx(t) == cb);
                assert forall|i: int| 0 <= i < cp implies t[i] != ')' by {
                    if i < 2 {
                    } else if i < cb {
                        assert(t[i] == alt_text[i - 2]);
                    } else if i < cb + 2 {
                    } else {
                        assert(t[i] == path[i - cb - 2]);
                    }
                }
                assert(t[cp] == ')');
                lemma_find_idx_is(t, ')', cp as nat);
                assert(is_image_line(t));
                assert(t.subrange(2, cb) =~= alt_text);
                assert(t.subrange(cb + 2, cp) =~= path);
                assert(image_of(t) =~~= b);
                assert(parse_lines(ls) =~= seq![b] + parse_lines(tail));
            
        }
        _ => {
            assert(false);
        }
    }
}

proof fn lemma_reparse_divider(b: BlockSpec, tail: Seq<Seq<char>>)
    requires
        canonical_block(b),
        b is Divider,
        tail.len() == 0 || trim_spec(tail[0]).len() == 0,
    ensures
        parse_lines(split_char(serialize_block(b), '\n') + tail) == seq![b] + parse_lines(tail),
{
    let sb = serialize_block(b);
    match b {
        BlockSpec::Divider => {

                let dd = seq!['-', '-', '-'];
                assert(sb == dd);
                assert forall|i: int| 0 <= i < sb.len() implies sb[i] != '\n' by {
                    assert(sb[i] == '-');
                }
                lemma_split_single(sb, '\n');
                let ls = split_char(sb, '\n') + tail;
                assert(ls[0] == sb);
                assert(ls.drop_first() =~= tail);
                assert forall|i: int| 0 <= i < dd.len() implies !is_ws(#[trigger] dd[i]) by {
                    assert(dd[i] == '-');
                }
                lemma_trim_of_trimmed(dd);
                let t = trim_spec(ls[0]);
                assert(t == dd);
                reveal_strlit("---");
                assert(t =~= "---"@);
                assert(t[0] == '-');
                assert(!is_image_line(t) && t[0] != '#' && !starts_fence(t));
                assert(parse_lines(ls) =~= seq![b] + parse_lines(tail));
            
        }
        _ => {
            assert(false);
        }
    }
}

proof fn lemma_reparse_pagebreak(b: BlockSpec, tail: Seq<Seq<char>>)
    requires
        canonical_block(b),
        b is PageBreak,
        tail.len() == 0 || trim_spec(tail[0]).len() == 0,
    ensures
        parse_lines(split_char(serialize_block(b), '\n') + tail) == seq![b] + parse_lines(tail),
{
    let sb = serialize_block(b);
    match b {
        BlockSpec::PageBreak => {

                let ee = seq!['=', '=', '='];
                assert(sb == ee);
                assert forall|i: int| 0 <= i < sb.len() implies sb[i] != '\n' by {
                    assert(sb[i] == '=');
                }
                lemma_split_single(sb, '\n');
                let ls = split_char(sb, '\n') + tail;
                assert(ls[0] == sb);
                assert(ls.drop_first() =~= tail);
                assert forall|i: int| 0 <= i < ee.len() implies !is_ws(#[trigger] ee[i]) by {
                    assert(ee[i] == '=');
                }
                lemma_trim_of_trimmed(ee);
                let t = trim_spec(ls[0]);
                assert(t == ee);
                reveal_strlit("===");
                reveal_strlit("---");
                assert(t =~= "==="@);
                assert(t != "---"@) by {
                    assert("---"@[0] == '-');
                    assert(t[0] == '=');
                }
                assert(!is_image_line(t) && t[0] != '#' && !starts_fence(t));
                assert(parse_lines(ls) =~= seq![b] + parse_lines(tail));
            
        }
        _ => {
            assert(false);
        }
    }
}

/// Parsing the canonical serialization of canonical blocks restores them.
#[verifier::rlimit(100)]
#[verifier::spinoff_prover]
pub proof fn lemma_reparse_doc(blocks: Seq<BlockSpec>)
    requires
        all_canonical(blocks),
    ensures
        parse_spec(serialize_doc(blocks)) == blocks,
        blocks.len() > 0 ==> serialize_doc(blocks).len() > 0 && serialize_doc(blocks).last()
            != '\n',
    decreases blocks.len(),
{
    let pieces = blocks.map_values(|x: BlockSpec| serialize_block(x));
    let s = serialize_doc(blocks);
    if blocks.len() == 0 {
        assert(pieces =~= Seq::<Seq<char>>::empty());
        assert(s =~= Seq::<char>::empty());
        assert(lines_of(s) =~= Seq::<Seq<char>>::empty());
        assert(parse_spec(s) =~= blocks);
    } else if blocks.len() == 1 {
        lemma_block_shape(blocks[0]);
        assert(pieces =~= seq![serialize_block(blocks[0])]);
        assert(s == serialize_block(blocks[0]));
        assert(lines_of(s) == split_char(s, '\n'));
        lemma_reparse_block(blocks[0], Seq::empty());
        assert(split_char(s, '\n') + Seq::<Seq<char>>::empty() =~= split_char(s, '\n'));
        assert(parse_lines(Seq::<Seq<char>>::empty()) =~= Seq::<BlockSpec>::empty());
        assert(parse_spec(s) =~= blocks);
    } else {
        let b0 = blocks[0];
        let brest = blocks.drop_first();
        assert(all_canonical(brest)) by {
            assert forall|m: int| 0 <= m < brest.len() implies canonical_block(
                #[trigger] brest[m],
            ) by {
                assert(brest[m] == blocks[m + 1]);
            }
        }
        lemma_reparse_doc(brest);
        let sb0 = serialize_block(b0);
        let srest = serialize_doc(brest);
        lemma_block_shape(b0);
        assert(pieces.drop_first() =~~= brest.map_values(|x: BlockSpec| serialize_block(x)));
        assert(s == sb0 + seq!['\n', '\n'] + srest);
        assert(srest.len() > 0);
        assert(s.len() > 0);
        assert(s.last() == srest.last());
        assert(s.last() != '\n');
        assert(s =~= sb0 + seq!['\n'] + (seq!['\n'] + srest));
        lemma_split_concat(sb0, seq!['\n'] + srest, '\n');
        assert(seq!['\n'] + srest =~= Seq::<char>::empty() + seq!['\n'] + srest);
        lemma_split_concat(Seq::empty(), srest, '\n');
        lemma_split_single(Seq::empty(), '\n');
        assert(split_char(s, '\n') =~= split_char(sb0, '\n') + (seq![Seq::<char>::empty()]
            + split_char(srest, '\n')));
        let tail = seq![Seq::<char>::empty()] + split_char(srest, '\n');
        assert(trim_spec(tail[0]).len() == 0) by {
            lemma_trim_of_trimmed(Seq::<char>::empty());
        }
        lemma_reparse_block(b0, tail);
        assert(lines_of(s) =~= split_char(sb0, '\n') + tail);
        assert(parse_lines(tail) == parse_lines(split_char(srest, '\n'))) by {
            assert(tail[0].len() == 0);
            lemma_trim_of_trimmed(Seq::<char>::empty());
            assert(tail.drop_first() =~= split_char(srest, '\n'));
        }
        assert(lines_of(srest) == split_char(srest, '\n'));
        assert(parse_lines(split_char(srest, '\n')) == brest);
        assert(parse_spec(s) =~= blocks);
    }
}

/// Lines produced by line-splitting carry no line break.
proof fn lemma_lines_clean(s: Seq<char>)
    ensures
        lines_clean(lines_of(s)),
{
    lemma_split_free(s, '\n');
    assert forall|m: int| 0 <= m < lines_of(s).len() implies no_nl(#[trigger] lines_of(s)[m]) by {
        assert(lines_of(s)[m] == split_char(s, '\n')[m]);
        assert forall|i: int| 0 <= i < lines_of(s)[m].len() implies lines_of(s)[m][i] != '\n' by {
            assert(split_char(s, '\n')[m][i] != '\n');
        }
    }
}

/// The reparse law: for every text, parsing, serializing and parsing again
/// yields the same block sequence as parsing once. The first parse
/// normalizes the text; after that, serialization and parsing are mutually
/// inverse.
pub proof fn lemma_reparse_idempotent(x: Seq<char>)
    ensures
        parse_spec(serialize_doc(parse_spec(x))) == parse_spec(x),
{
    lemma_lines_clean(x);
    lemma_parse_canonical(lines_of(x));
    lemma_reparse_doc(parse_spec(x));
}

} // verus!
