//! Character-sequence utilities shared by the parser and the serializer:
//! whitespace trimming, runs of a repeated character, searching, and
//! splitting/joining on a separator, each as a spec function with a verified
//! executable counterpart.

use vstd::prelude::*;

verus! {

/// The characters the line parser strips at the ends of a line: the
/// Unicode white-space set.
pub open spec fn is_ws(c: char) -> bool {
    ||| 0x09 <= c as u32 <= 0x0D
    ||| c == ' '
    ||| c == '\u{85}'
    ||| c == '\u{a0}'
    ||| c == '\u{1680}'
    ||| 0x2000 <= c as u32 <= 0x200A
    ||| c == '\u{2028}'
    ||| c == '\u{2029}'
    ||| c == '\u{202f}'
    ||| c == '\u{205f}'
    ||| c == '\u{3000}'
}

/// Length of the longest prefix of `s` whose characters all satisfy `p`.
pub open spec fn run_len(s: Seq<char>, p: spec_fn(char) -> bool) -> nat
    decreases s.len(),
{
    if s.len() == 0 || !p(s[0]) {
        0
    } else {
        1 + run_len(s.drop_first(), p)
    }
}

/// Length of the longest suffix of `s` whose characters all satisfy `p`.
pub open spec fn tail_run_len(s: Seq<char>, p: spec_fn(char) -> bool) -> nat
    decreases s.len(),
{
    if s.len() == 0 || !p(s.last()) {
        0
    } else {
        1 + tail_run_len(s.drop_last(), p)
    }
}

/// Index of the first occurrence of `c` in `s`, or `s.len()` if absent.
pub open spec fn find_idx(s: Seq<char>, c: char) -> nat
    decreases s.len(),
{
    if s.len() == 0 || s[0] == c {
        0
    } else {
        1 + find_idx(s.drop_first(), c)
    }
}

/// The length of the leading whitespace run of `s`.
pub open spec fn trim_off(s: Seq<char>) -> nat {
    run_len(s, |c: char| is_ws(c))
}

/// `s` with leading and trailing whitespace removed.
pub open spec fn trim_spec(s: Seq<char>) -> Seq<char> {
    let t = s.skip(run_len(s, |c: char| is_ws(c)) as int);
    t.take(t.len() - tail_run_len(t, |c: char| is_ws(c)))
}

/// `s` split at every occurrence of `c`; the separators are dropped and the
/// pieces (possibly empty) are kept, so the result always has one piece more
/// than `s` has separators.
pub open spec fn split_char(s: Seq<char>, c: char) -> Seq<Seq<char>>
    decreases s.len(),
    via split_char_decreases
{
    let k = find_idx(s, c);
    if k == s.len() {
        seq![s]
    } else {
        seq![s.take(k as int)] + split_char(s.skip(k + 1 as int), c)
    }
}

#[via_fn]
proof fn split_char_decreases(s: Seq<char>, c: char) {
    lemma_find_idx_props(s, c);
}

/// The pieces of `parts` joined with the separator sequence `sep` between
/// neighbours.
pub open spec fn join_sep(parts: Seq<Seq<char>>, sep: Seq<char>) -> Seq<char>
    decreases parts.len(),
{
    if parts.len() == 0 {
        Seq::empty()
    } else if parts.len() == 1 {
        parts[0]
    } else {
        parts[0] + sep + join_sep(parts.drop_first(), sep)
    }
}

pub proof fn lemma_run_len_props(s: Seq<char>, p: spec_fn(char) -> bool)
    ensures
        run_len(s, p) <= s.len(),
        forall|i: int| 0 <= i < run_len(s, p) ==> p(s[i]),
        run_len(s, p) < s.len() ==> !p(s[run_len(s, p) as int]),
    decreases s.len(),
{
    if s.len() > 0 && p(s[0]) {
        lemma_run_len_props(s.drop_first(), p);
        assert forall|i: int| 0 <= i < run_len(s, p) implies p(s[i]) by {
            if i > 0 {
                assert(s.drop_first()[i - 1] == s[i]);
            }
        }
        if run_len(s, p) < s.len() {
            assert(s.drop_first()[run_len(s, p) - 1] == s[run_len(s, p) as int]);
        }
    }
}

/// `run_len` is determined by its characterization: `k` leading characters
/// satisfy `p` and the next one (if any) does not.
pub proof fn lemma_run_len_is(s: Seq<char>, p: spec_fn(char) -> bool, k: nat)
    requires
        k <= s.len(),
        forall|i: int| 0 <= i < k ==> p(s[i]),
        k < s.len() ==> !p(s[k as int]),
    ensures
        run_len(s, p) == k,
    decreases s.len(),
{
    if s.len() == 0 {
    } else if k == 0 {
    } else {
        assert(p(s[0]));
        assert forall|i: int| 0 <= i < k - 1 implies p(s.drop_first()[i]) by {
            assert(s.drop_first()[i] == s[i + 1]);
        }
        if k - 1 < s.drop_first().len() {
            assert(s.drop_first()[k - 1] == s[k as int]);
        }
        lemma_run_len_is(s.drop_first(), p, (k - 1) as nat);
    }
}

pub proof fn lemma_tail_run_len_props(s: Seq<char>, p: spec_fn(char) -> bool)
    ensures
        tail_run_len(s, p) <= s.len(),
        forall|i: int| s.len() - tail_run_len(s, p) <= i < s.len() ==> p(s[i]),
        tail_run_len(s, p) < s.len() ==> !p(s[s.len() - tail_run_len(s, p) - 1]),
    decreases s.len(),
{
    if s.len() > 0 && p(s.last()) {
        lemma_tail_run_len_props(s.drop_last(), p);
        assert forall|i: int| s.len() - tail_run_len(s, p) <= i < s.len() implies p(s[i]) by {
            if i < s.len() - 1 {
                assert(s.drop_last()[i] == s[i]);
            }
        }
        if tail_run_len(s, p) < s.len() {
            assert(s.drop_last()[s.len() - tail_run_len(s, p) - 1] == s[s.len() - tail_run_len(
                s,
                p,
            ) - 1]);
        }
    }
}

pub proof fn lemma_tail_run_len_is(s: Seq<char>, p: spec_fn(char) -> bool, k: nat)
    requires
        k <= s.len(),
        forall|i: int| s.len() - k <= i < s.len() ==> p(s[i]),
        k < s.len() ==> !p(s[s.len() - k - 1]),
    ensures
        tail_run_len(s, p) == k,
    decreases s.len(),
{
    if s.len() == 0 {
    } else if k == 0 {
    } else {
        assert(p(s.last()));
        assert forall|i: int| s.drop_last().len() - (k - 1) <= i < s.drop_last().len() implies p(
            s.drop_last()[i],
        ) by {
            assert(s.drop_last()[i] == s[i]);
        }
        if k - 1 < s.drop_last().len() {
            assert(s.drop_last()[s.drop_last().len() - (k - 1) - 1] == s[s.len() - k - 1]);
        }
        lemma_tail_run_len_is(s.drop_last(), p, (k - 1) as nat);
    }
}

pub proof fn lemma_find_idx_props(s: Seq<char>, c: char)
    ensures
        find_idx(s, c) <= s.len(),
        forall|i: int| 0 <= i < find_idx(s, c) ==> s[i] != c,
        find_idx(s, c) < s.len() ==> s[find_idx(s, c) as int] == c,
    decreases s.len(),
{
    if s.len() > 0 && s[0] != c {
        lemma_find_idx_props(s.drop_first(), c);
        assert forall|i: int| 0 <= i < find_idx(s, c) implies s[i] != c by {
            if i > 0 {
                assert(s.drop_first()[i - 1] == s[i]);
            }
        }
        if find_idx(s, c) < s.len() {
            assert(s.drop_first()[find_idx(s, c) - 1] == s[find_idx(s, c) as int]);
        }
    }
}

pub proof fn lemma_find_idx_is(s: Seq<char>, c: char, k: nat)
    requires
        k <= s.len(),
        forall|i: int| 0 <= i < k ==> s[i] != c,
        k < s.len() ==> s[k as int] == c,
    ensures
        find_idx(s, c) == k,
    decreases s.len(),
{
    if s.len() == 0 || k == 0 {
    } else {
        assert(s[0] != c);
        assert forall|i: int| 0 <= i < k - 1 implies s.drop_first()[i] != c by {
            assert(s.drop_first()[i] == s[i + 1]);
        }
        if k - 1 < s.drop_first().len() {
            assert(s.drop_first()[k - 1] == s[k as int]);
        }
        lemma_find_idx_is(s.drop_first(), c, (k - 1) as nat);
    }
}

/// The result of a trim carries no whitespace at either end, and trimming an
/// already-trimmed sequence changes nothing.
pub proof fn lemma_trim_trimmed(s: Seq<char>)
    ensures
        trim_spec(s).len() > 0 ==> !is_ws(trim_spec(s).first()) && !is_ws(trim_spec(s).last()),
        trim_spec(s).len() <= s.len(),
        trim_off(s) + trim_spec(s).len() <= s.len(),
        forall|i: int|
            0 <= i < trim_spec(s).len() ==> #[trigger] trim_spec(s)[i] == s[i + trim_off(s)],
{
    let p = |c: char| is_ws(c);
    let a = run_len(s, p);
    lemma_run_len_props(s, p);
    let t = s.skip(a as int);
    let b = tail_run_len(t, p);
    lemma_tail_run_len_props(t, p);
    let r = t.take(t.len() - b);
    if r.len() > 0 {
        assert(r.first() == t[0]);
        if b < t.len() {
            assert(r.last() == t[t.len() - b - 1]);
        }
        if a < s.len() {
            assert(t[0] == s[a as int]);
            assert(!p(t[0]));
        }
    }
}

pub proof fn lemma_trim_of_trimmed(s: Seq<char>)
    requires
        s.len() == 0 || (!is_ws(s.first()) && !is_ws(s.last())),
    ensures
        trim_spec(s) == s,
{
    let p = |c: char| is_ws(c);
    if s.len() == 0 {
        lemma_run_len_is(s, p, 0);
        lemma_tail_run_len_is(s, p, 0);
        assert(trim_spec(s) =~= s);
    } else {
        lemma_run_len_is(s, p, 0);
        assert(s.skip(0) =~= s);
        lemma_tail_run_len_is(s, p, 0);
        assert(trim_spec(s) =~= s);
    }
}

/// Splitting at `c` yields pieces that never contain `c`.
pub proof fn lemma_split_free(s: Seq<char>, c: char)
    ensures
        split_char(s, c).len() >= 1,
        forall|i: int, j: int|
            0 <= i < split_char(s, c).len() && 0 <= j < split_char(s, c)[i].len()
                ==> #[trigger] split_char(s, c)[i][j] != c,
    decreases s.len(),
{
    let k = find_idx(s, c);
    lemma_find_idx_props(s, c);
    if k == s.len() {
        assert forall|i: int, j: int|
            0 <= i < split_char(s, c).len() && 0 <= j < split_char(s, c)[i].len() implies #[trigger] split_char(
            s,
            c,
        )[i][j] != c by {
            assert(split_char(s, c)[i] == s);
        }
    } else {
        lemma_split_free(s.skip(k + 1 as int), c);
        assert forall|i: int, j: int|
            0 <= i < split_char(s, c).len() && 0 <= j < split_char(s, c)[i].len() implies #[trigger] split_char(
            s,
            c,
        )[i][j] != c by {
            if i == 0 {
                assert(split_char(s, c)[0] == s.take(k as int));
                assert(s.take(k as int)[j] == s[j]);
            } else {
                assert(split_char(s, c)[i] == split_char(s.skip(k + 1 as int), c)[i - 1]);
            }
        }
    }
}

/// Joining with `c` undoes splitting at `c`.
pub proof fn lemma_join_split(s: Seq<char>, c: char)
    ensures
        join_sep(split_char(s, c), seq![c]) == s,
    decreases s.len(),
{
    let k = find_idx(s, c);
    lemma_find_idx_props(s, c);
    if k == s.len() {
        assert(s.take(k as int) =~= s);
    } else {
        lemma_join_split(s.skip(k + 1 as int), c);
        let parts = split_char(s, c);
        assert(parts.drop_first() =~= split_char(s.skip(k + 1 as int), c));
        assert(join_sep(parts, seq![c]) =~= s.take(k as int) + seq![c] + s.skip(k + 1 as int));
        assert(s.take(k as int) + seq![c] + s.skip(k + 1 as int) =~= s);
    }
}

/// Splitting distributes over a separator placed between two sequences.
pub proof fn lemma_split_concat(a: Seq<char>, b: Seq<char>, c: char)
    ensures
        split_char(a + seq![c] + b, c) == split_char(a, c) + split_char(b, c),
    decreases a.len(),
{
    let s = a + seq![c] + b;
    let k = find_idx(a, c);
    lemma_find_idx_props(a, c);
    if k == a.len() {
        lemma_find_idx_is(s, c, k);
        assert(s.take(k as int) =~= a);
        assert(s.skip(k + 1 as int) =~= b);
        assert(split_char(a, c) == seq![a]);
        assert(split_char(s, c) =~= split_char(a, c) + split_char(b, c));
    } else {
        assert forall|i: int| 0 <= i < k implies s[i] != c by {
            assert(s[i] == a[i]);
        }
        assert(s[k as int] == a[k as int]);
        lemma_find_idx_is(s, c, k);
        assert(s.skip(k + 1 as int) =~= a.skip(k + 1 as int) + seq![c] + b);
        lemma_split_concat(a.skip(k + 1 as int), b, c);
        assert(s.take(k as int) =~= a.take(k as int));
        assert(split_char(s, c) =~= split_char(a, c) + split_char(b, c));
    }
}

/// Splitting a sequence that contains no separator yields that sequence alone.
pub proof fn lemma_split_single(a: Seq<char>, c: char)
    requires
        forall|i: int| 0 <= i < a.len() ==> a[i] != c,
    ensures
        split_char(a, c) == seq![a],
{
    lemma_find_idx_is(a, c, a.len());
}

/// Unfolding `join_sep` at the back.
pub proof fn lemma_join_push(parts: Seq<Seq<char>>, sep: Seq<char>, last: Seq<char>)
    ensures
        join_sep(parts.push(last), sep) == if parts.len() == 0 {
            last
        } else {
            join_sep(parts, sep) + sep + last
        },
    decreases parts.len(),
{
    if parts.len() == 0 {
        assert(parts.push(last)[0] == last);
    } else if parts.len() == 1 {
        assert(parts.push(last).drop_first() =~= seq![last]);
        assert(parts.push(last)[0] == parts[0]);
        assert(join_sep(seq![last], sep) == last);
        assert(join_sep(parts.push(last), sep) =~= parts[0] + sep + last);
    } else {
        lemma_join_push(parts.drop_first(), sep, last);
        assert(parts.push(last).drop_first() =~= parts.drop_first().push(last));
        assert(join_sep(parts.push(last), sep) =~= join_sep(parts, sep) + sep + last);
    }
}

/// Collect the characters of a string into a vector.
pub fn str_chars(s: &str) -> (v: Vec<char>)
    ensures
        v@ == s@,
{
    let n: usize = s.unicode_len();
    let mut v: Vec<char> = Vec::new();
    let mut i: usize = 0;
    while i < n
        invariant
            n == s@.len(),
            i <= n,
            v@ == s@.take(i as int),
        decreases n - i,
    {
        v.push(s.get_char(i));
        assert(s@.take(i + 1) =~= s@.take(i as int).push(s@[i as int]));
        i = i + 1;
    }
    assert(s@.take(n as int) =~= s@);
    v
}

/// Relies on `String::push`: appends one character at the end.
#[verifier::external_body]
pub(crate) fn push_char(s: &mut String, c: char)
    ensures
        final(s)@ == old(s)@.push(c),
{
    s.push(c);
}

/// Build a string holding exactly the characters of `v`.
pub fn chars_string(v: &Vec<char>) -> (s: String)
    ensures
        s@ == v@,
{
    let mut s = String::new();
    let mut i: usize = 0;
    while i < v.len()
        invariant
            i <= v@.len(),
            s@ == v@.take(i as int),
        decreases v@.len() - i,
    {
        push_char(&mut s, v[i]);
        assert(v@.take(i + 1) =~= v@.take(i as int).push(v@[i as int]));
        i = i + 1;
    }
    assert(v@.take(v@.len() as int) =~= v@);
    s
}

/// Character-wise string equality.
pub fn str_eq(a: &str, b: &str) -> (r: bool)
    ensures
        r == (a@ == b@),
{
    let na: usize = a.unicode_len();
    let nb: usize = b.unicode_len();
    if na != nb {
        return false;
    }
    let mut i: usize = 0;
    while i < na
        invariant
            na == a@.len(),
            na == b@.len(),
            i <= na,
            forall|j: int| 0 <= j < i ==> a@[j] == b@[j],
        decreases na - i,
    {
        if a.get_char(i) != b.get_char(i) {
            return false;
        }
        i = i + 1;
    }
    assert(a@ =~= b@);
    true
}

/// Does the character vector hold exactly the characters of the string?
pub fn vec_eq_str(v: &Vec<char>, s: &str) -> (r: bool)
    ensures
        r == (v@ == s@),
{
    let n: usize = s.unicode_len();
    if v.len() != n {
        return false;
    }
    let mut i: usize = 0;
    while i < n
        invariant
            n == s@.len(),
            n == v@.len(),
            i <= n,
            forall|j: int| 0 <= j < i ==> v@[j] == s@[j],
        decreases n - i,
    {
        if v[i] != s.get_char(i) {
            return false;
        }
        i = i + 1;
    }
    assert(v@ =~= s@);
    true
}

/// Append every character of `src` to `dst`.
pub fn push_all(dst: &mut Vec<char>, src: &Vec<char>)
    ensures
        final(dst)@ == old(dst)@ + src@,
{
    let mut i: usize = 0;
    while i < src.len()
        invariant
            i <= src@.len(),
            dst@ == old(dst)@ + src@.take(i as int),
        decreases src@.len() - i,
    {
        dst.push(src[i]);
        assert(old(dst)@ + src@.take(i + 1) =~= (old(dst)@ + src@.take(i as int)).push(
            src@[i as int],
        ));
        i = i + 1;
    }
    assert(old(dst)@ + src@.take(src@.len() as int) =~= old(dst)@ + src@);
}

/// Append every character of the string `src` to `dst`.
pub fn push_str_chars(dst: &mut Vec<char>, src: &str)
    ensures
        final(dst)@ == old(dst)@ + src@,
{
    let n: usize = src.unicode_len();
    let mut i: usize = 0;
    while i < n
        invariant
            n == src@.len(),
            i <= n,
            dst@ == old(dst)@ + src@.take(i as int),
        decreases n - i,
    {
        dst.push(src.get_char(i));
        assert(old(dst)@ + src@.take(i + 1) =~= (old(dst)@ + src@.take(i as int)).push(
            src@[i as int],
        ));
        i = i + 1;
    }
    assert(old(dst)@ + src@.take(n as int) =~= old(dst)@ + src@);
}

/// Executable whitespace test matching `is_ws`.
pub fn ws_char(c: char) -> (r: bool)
    ensures
        r == is_ws(c),
{
    let u = c as u32;
    (0x09 <= u && u <= 0x0D) || c == ' ' || c == '\u{85}' || c == '\u{a0}' || c == '\u{1680}'
        || (0x2000 <= u && u <= 0x200A) || c == '\u{2028}' || c == '\u{2029}' || c
        == '\u{202f}' || c == '\u{205f}' || c == '\u{3000}'
}

/// Trim leading and trailing whitespace from a character vector.
pub fn trim_vec(v: &Vec<char>) -> (r: Vec<char>)
    ensures
        r@ == trim_spec(v@),
{
    let ghost p = |c: char| is_ws(c);
    let n: usize = v.len();
    let mut a: usize = 0;
    while a < n && ws_char(v[a])
        invariant
            n == v@.len(),
            a <= n,
            forall|j: int| 0 <= j < a ==> is_ws(v@[j]),
        decreases n - a,
    {
        a = a + 1;
    }
    proof {
        lemma_run_len_is(v@, p, a as nat);
    }
    let ghost t = v@.skip(a as int);
    let mut e: usize = n;
    while e > a && ws_char(v[e - 1])
        invariant
            n == v@.len(),
            a <= e <= n,
            forall|j: int| e <= j < n ==> is_ws(v@[j]),
        decreases e,
    {
        e = e - 1;
    }
    proof {
        assert forall|i: int| t.len() - (n - e) <= i < t.len() implies is_ws(t[i]) by {
            assert(t[i] == v@[i + a]);
        }
        if e > a {
            assert(t[t.len() - (n - e) - 1] == v@[e - 1]);
        }
        lemma_tail_run_len_is(t, p, (n - e) as nat);
    }
    let mut r: Vec<char> = Vec::new();
    let mut i: usize = a;
    while i < e
        invariant
            n == v@.len(),
            a <= i <= e <= n,
            r@ == v@.subrange(a as int, i as int),
        decreases e - i,
    {
        r.push(v[i]);
        assert(v@.subrange(a as int, i + 1) =~= v@.subrange(a as int, i as int).push(
            v@[i as int],
        ));
        i = i + 1;
    }
    proof {
        assert(r@ =~= trim_spec(v@));
    }
    r
}

/// Split a character vector into lines at `'\n'`; a trailing line break
/// does not open a final empty line. A carriage return is an ordinary
/// character here: were it stripped at the line end, a code-block line
/// ending in one could not be written back faithfully, and the reparse law
/// would fail on such input. Trimming removes it from every other line
/// anyway.
pub open spec fn lines_of(s: Seq<char>) -> Seq<Seq<char>> {
    if s.len() == 0 {
        Seq::empty()
    } else if s.last() == '\n' {
        split_char(s, '\n').drop_last()
    } else {
        split_char(s, '\n')
    }
}

/// Executable line splitting matching `lines_of`.
pub fn split_lines(v: &Vec<char>) -> (r: Vec<Vec<char>>)
    ensures
        r.deep_view() == lines_of(v@),
{
    let n: usize = v.len();
    let mut r: Vec<Vec<char>> = Vec::new();
    if n == 0 {
        assert(r.deep_view() =~= lines_of(v@));
        return r;
    }
    proof {
        assert(r.deep_view() =~= Seq::<Seq<char>>::empty());
        assert(v@.skip(0) =~= v@);
        assert(split_char(v@, '\n') =~~= r.deep_view() + split_char(v@.skip(0), '\n'));
    }
    let mut pos: usize = 0;
    loop
        invariant_except_break
            n == v@.len(),
            n > 0,
            pos <= n,
            split_char(v@, '\n') == r.deep_view() + split_char(v@.skip(pos as int), '\n'),
        ensures
            r.deep_view() == split_char(v@, '\n'),
        decreases n - pos,
    {
        let mut k: usize = pos;
        while k < n && v[k] != '\n'
            invariant
                n == v@.len(),
                pos <= k <= n,
                forall|j: int| pos <= j < k ==> v@[j] != '\n',
            decreases n - k,
        {
            k = k + 1;
        }
        let ghost rest = v@.skip(pos as int);
        proof {
            assert forall|j: int| 0 <= j < k - pos implies rest[j] != '\n' by {
                assert(rest[j] == v@[j + pos]);
            }
            if k < n {
                assert(rest[k - pos] == v@[k as int]);
            }
            lemma_find_idx_is(rest, '\n', (k - pos) as nat);
        }
        let mut piece: Vec<char> = Vec::new();
        let mut i: usize = pos;
        while i < k
            invariant
                n == v@.len(),
                pos <= i <= k <= n,
                piece@ == v@.subrange(pos as int, i as int),
            decreases k - i,
        {
            piece.push(v[i]);
            assert(v@.subrange(pos as int, i + 1) =~= v@.subrange(pos as int, i as int).push(
                v@[i as int],
            ));
            i = i + 1;
        }
        proof {
            assert(piece@ =~= rest.take(k - pos));
        }
        if k == n {
            proof {
                assert(rest.take(k - pos) =~= rest);
                assert(split_char(rest, '\n') == seq![rest]);
                assert((r.deep_view() + split_char(v@.skip(pos as int), '\n')).drop_last()
                    =~~= r.deep_view());
            }
            let ghost old_r = r.deep_view();
            r.push(piece);
            proof {
                assert(r.deep_view() =~~= old_r.push(piece@));
                assert(r.deep_view() =~~= split_char(v@, '\n'));
            }
            break;
        } else {
            let ghost old_r = r.deep_view();
            r.push(piece);
            proof {
                assert(r.deep_view() =~~= old_r.push(piece@));
                assert(split_char(rest, '\n') == seq![rest.take(k - pos)] + split_char(
                    rest.skip(k - pos + 1),
                    '\n',
                ));
                assert(rest.skip(k - pos + 1) =~= v@.skip(k + 1 as int));
                assert(split_char(v@, '\n') =~~= r.deep_view() + split_char(
                    v@.skip(k + 1 as int),
                    '\n',
                ));
            }
            pos = k + 1;
        }
    }
    if v[n - 1] == '\n' {
        proof {
            let parts = split_char(v@, '\n');
            lemma_split_last_empty(v@);
            assert(r.deep_view().len() == parts.len());
            assert(r@.len() == r.deep_view().len());
        }
        let ghost old_r = r.deep_view();
        let _last = r.pop();
        proof {
            assert(r.deep_view() =~~= old_r.drop_last());
            assert(r.deep_view() =~~= split_char(v@, '\n').drop_last());
        }
        r
    } else {
        r
    }
}

/// A sequence ending in the separator splits into at least two pieces, the
/// last of them empty.
proof fn lemma_split_last_empty(s: Seq<char>)
    requires
        s.len() > 0,
        s.last() == '\n',
    ensures
        split_char(s, '\n').len() >= 2,
        split_char(s, '\n').last() == Seq::<char>::empty(),
    decreases s.len(),
{
    let k = find_idx(s, '\n');
    lemma_find_idx_props(s, '\n');
    assert(k < s.len());
    let rest = s.skip(k + 1 as int);
    if rest.len() == 0 {
        assert(split_char(rest, '\n') == seq![rest]);
        assert(split_char(s, '\n').last() =~= Seq::<char>::empty());
    } else {
        assert(rest.last() == s.last());
        lemma_split_last_empty(rest);
        assert(split_char(s, '\n').last() == split_char(rest, '\n').last());
    }
}

} // verus!
