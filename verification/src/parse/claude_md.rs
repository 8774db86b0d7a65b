//! the instructions file: one section per `## ` heading, plus the text before the
//! first heading.
use vstd::prelude::*;

use crate::ir::{OverrideView, Section, SectionSource, TargetOverrides};
use crate::parse::frontmatter::{
    collect_overrides, fields, overrides_of, parse_fields, split_frontmatter,
    split_frontmatter_exec,
};
use crate::text::{
    ascii_lower, back_char, back_char_exec, chars_eq, char_is_alphanumeric, char_to_ascii_lowercase,
    chars_of, is_alnum, is_blank, lemma_back_char_bounds, lemma_skip_char_bounds, lines,
    lines_exec, occurs_at_exec, opt_chars, skip_char, skip_char_exec, slice_chars, starts_with,
    string_of, trim, trim_char, trim_exec, join_with, trim_start_char,
};

verus! {

// ---------------------------------------------------------------------
// Slugs
// ---------------------------------------------------------------------

/// A character as it stands in a slug: letters and digits, lower-cased;
/// anything else becomes `-`.
pub open spec fn slug_char(c: char) -> char {
    if is_alnum(c) {
        ascii_lower(c)
    } else {
        '-'
    }
}

/// `s` with every run of `-` shortened to one `-`.
pub open spec fn collapse_dashes(s: Seq<char>) -> Seq<char>
    decreases s.len(),
{
    if s.len() == 0 {
        Seq::empty()
    } else {
        let r = collapse_dashes(s.drop_last());
        if s.last() == '-' && r.len() > 0 && r.last() == '-' {
            r
        } else {
            r.push(s.last())
        }
    }
}

/// The slug of a title: characters mapped by `slug_char`, runs of dashes
/// collapsed, and dashes trimmed from both ends.
pub open spec fn slug_of(t: Seq<char>) -> Seq<char> {
    trim_char(collapse_dashes(t.map_values(|c: char| slug_char(c))), '-')
}

/// What every slug looks like: no dash at either end, no two dashes in a
/// row, and every other character a letter or digit that lower-casing leaves
/// as it is.
pub open spec fn is_slug(s: Seq<char>) -> bool {
    &&& s.len() > 0 ==> s[0] != '-' && s.last() != '-'
    &&& forall|i: int| 0 <= i < s.len() - 1 ==> !(#[trigger] s[i] == '-' && s[i + 1] == '-')
    &&& forall|i: int|
        0 <= i < s.len() ==> #[trigger] s[i] == '-' || (is_alnum(s[i]) && ascii_lower(s[i]) == s[i])
}

/// The slug of a title, as `slug_of` says: its words, ASCII capitals
/// lower-cased, joined by `-`.
pub fn slugify(text: &str) -> (res: String)
    ensures
        res@ == slug_of(text@),
        res@ == slug_by_words(text@),
{
    let v = chars_of(text);
    let s = slugify_chars(&v);
    proof {
        law_slug_is_words_joined(text@);
    }
    string_of(&s)
}

/// The slug of a title given as characters.
pub fn slugify_chars(text: &Vec<char>) -> (res: Vec<char>)
    ensures
        res@ == slug_of(text@),
{
    let ghost mapped = text@.map_values(|c: char| slug_char(c));
    let mut collapsed: Vec<char> = Vec::new();
    let mut i: usize = 0;
    while i < text.len()
        invariant
            i <= text.len(),
            mapped == text@.map_values(|c: char| slug_char(c)),
            collapsed@ == collapse_dashes(mapped.take(i as int)),
        decreases text.len() - i,
    {
        let c = text[i];
        let m = if char_is_alphanumeric(c) {
            char_to_ascii_lowercase(c)
        } else {
            '-'
        };
        assert(mapped.take(i + 1).drop_last() =~= mapped.take(i as int));
        assert(mapped.take(i + 1).last() == m);
        if !(m == '-' && collapsed.len() > 0 && collapsed[collapsed.len() - 1] == '-') {
            collapsed.push(m);
        }
        i = i + 1;
    }
    assert(mapped.take(text.len() as int) =~= mapped);
    let a = skip_char_exec(&collapsed, '-', 0);
    proof {
        lemma_skip_char_bounds(collapsed@, '-', 0);
    }
    let head = slice_chars(&collapsed, a, collapsed.len());
    assert(head@ =~= collapsed@.skip(a as int));
    let b = back_char_exec(&head, '-', head.len());
    proof {
        lemma_back_char_bounds(head@, '-', head@.len() as int);
    }
    slice_chars(&head, 0, b)
}

/// A slug character is a dash or a letter or digit that lower-casing
/// leaves as it is.
pub open spec fn slug_shaped_char(c: char) -> bool {
    c == '-' || (is_alnum(c) && ascii_lower(c) == c)
}

proof fn lemma_slug_char_shape(c: char)
    ensures
        slug_shaped_char(slug_char(c)),
{
    if is_alnum(c) && 'A' <= c && c <= 'Z' {
        let l = ((c as u32) + 32) as char;
        assert('a' <= l && l <= 'z');
    }
}

proof fn lemma_collapse_shape(s: Seq<char>)
    requires
        forall|i: int| 0 <= i < s.len() ==> slug_shaped_char(#[trigger] s[i]),
    ensures
        forall|i: int|
            0 <= i < collapse_dashes(s).len() ==> slug_shaped_char(#[trigger] collapse_dashes(s)[i]),
        forall|i: int|
            0 <= i < collapse_dashes(s).len() - 1 ==> !(#[trigger] collapse_dashes(s)[i] == '-'
                && collapse_dashes(s)[i + 1] == '-'),
    decreases s.len(),
{
    if s.len() > 0 {
        let d = s.drop_last();
        assert forall|i: int| 0 <= i < d.len() implies slug_shaped_char(#[trigger] d[i]) by {
            assert(d[i] == s[i]);
        }
        lemma_collapse_shape(d);
        assert(slug_shaped_char(s[s.len() - 1]));
        let r = collapse_dashes(d);
        if !(s.last() == '-' && r.len() > 0 && r.last() == '-') {
            let q = r.push(s.last());
            assert(collapse_dashes(s) == q);
            assert forall|i: int| 0 <= i < q.len() implies slug_shaped_char(#[trigger] q[i]) by {
                if i < r.len() {
                    assert(q[i] == r[i]);
                }
            }
            assert forall|i: int| 0 <= i < q.len() - 1 implies !(#[trigger] q[i] == '-' && q[i
                + 1] == '-') by {
                assert(q[i] == r[i]);
                if i + 1 < r.len() {
                    assert(q[i + 1] == r[i + 1]);
                }
            }
        }
    }
}

/// Every slug has the shape `is_slug` describes.
pub proof fn law_slug_shape(t: Seq<char>)
    ensures
        is_slug(slug_of(t)),
{
    let m = t.map_values(|c: char| slug_char(c));
    assert forall|i: int| 0 <= i < m.len() implies slug_shaped_char(#[trigger] m[i]) by {
        lemma_slug_char_shape(t[i]);
    }
    lemma_collapse_shape(m);
    let c = collapse_dashes(m);
    lemma_skip_char_bounds(c, '-', 0);
    let a = skip_char(c, '-', 0);
    let h = c.skip(a);
    lemma_back_char_bounds(h, '-', h.len() as int);
    let b = back_char(h, '-', h.len() as int);
    let r = h.take(b);
    assert(r == slug_of(t));
    assert forall|i: int| 0 <= i < r.len() implies #[trigger] r[i] == '-' || (is_alnum(r[i])
        && ascii_lower(r[i]) == r[i]) by {
        assert(r[i] == c[a + i]);
    }
    assert forall|i: int| 0 <= i < r.len() - 1 implies !(#[trigger] r[i] == '-' && r[i + 1]
        == '-') by {
        assert(r[i] == c[a + i]);
        assert(r[i + 1] == c[a + i + 1]);
    }
    if r.len() > 0 {
        assert(r[0] == c[a]);
        assert(r.last() == h[b - 1]);
    }
}

proof fn lemma_collapse_identity(s: Seq<char>)
    requires
        forall|i: int| 0 <= i < s.len() - 1 ==> !(#[trigger] s[i] == '-' && s[i + 1] == '-'),
    ensures
        collapse_dashes(s) == s,
    decreases s.len(),
{
    if s.len() > 0 {
        let d = s.drop_last();
        assert forall|i: int| 0 <= i < d.len() - 1 implies !(#[trigger] d[i] == '-' && d[i + 1]
            == '-') by {
            assert(d[i] == s[i]);
            assert(d[i + 1] == s[i + 1]);
        }
        lemma_collapse_identity(d);
        if s.len() > 1 {
            assert(!(s[s.len() - 2] == '-' && s[s.len() - 1] == '-'));
        }
        assert(d.push(s.last()) =~= s);
    }
}

/// A slug is its own slug.
pub proof fn law_slug_fixed_point(s: Seq<char>)
    requires
        is_slug(s),
    ensures
        slug_of(s) == s,
{
    let m = s.map_values(|c: char| slug_char(c));
    assert forall|i: int| 0 <= i < s.len() implies #[trigger] m[i] == s[i] by {
        if s[i] == '-' {
            assert(!is_alnum('-'));
        }
    }
    assert(m =~= s);
    lemma_collapse_identity(s);
    if s.len() > 0 {
        assert(skip_char(s, '-', 0) == 0);
        assert(s.skip(0) =~= s);
        assert(back_char(s, '-', s.len() as int) == s.len());
    } else {
        assert(skip_char(s, '-', 0) == 0);
        assert(s.skip(0) =~= s);
    }
    assert(s.take(s.len() as int) =~= s);
}

/// Making a slug of a slug changes nothing.
pub proof fn law_slug_idempotent(t: Seq<char>)
    ensures
        slug_of(slug_of(t)) == slug_of(t),
{
    law_slug_shape(t);
    law_slug_fixed_point(slug_of(t));
}

/// The words of a title: its maximal runs of letters and digits, in order.
pub open spec fn words(t: Seq<char>) -> Seq<Seq<char>>
    decreases t.len(),
{
    if t.len() == 0 {
        Seq::empty()
    } else {
        let w = words(t.drop_last());
        if !is_alnum(t.last()) {
            w
        } else if t.len() >= 2 && is_alnum(t[t.len() - 2]) && w.len() > 0 {
            w.drop_last().push(w.last().push(t.last()))
        } else {
            w.push(seq![t.last()])
        }
    }
}

/// A word with its ASCII capitals lower-cased.
pub open spec fn lower_word(w: Seq<char>) -> Seq<char> {
    w.map_values(|c: char| ascii_lower(c))
}

/// The words of a title, lower-cased.
pub open spec fn lower_words(t: Seq<char>) -> Seq<Seq<char>> {
    words(t).map_values(|w: Seq<char>| lower_word(w))
}

/// A slug read word by word: the title's words, lower-cased, joined by `-`.
pub open spec fn slug_by_words(t: Seq<char>) -> Seq<char> {
    join_with(lower_words(t), "-"@)
}

/// A dash where `b` holds, else nothing.
pub open spec fn dash_if(b: bool) -> Seq<char> {
    if b {
        seq!['-']
    } else {
        Seq::empty()
    }
}

proof fn lemma_lower_not_dash(c: char)
    requires
        is_alnum(c),
    ensures
        ascii_lower(c) != '-',
        is_alnum(ascii_lower(c)),
{
}

/// Words are not empty and hold letters and digits only.
proof fn lemma_words_alnum(t: Seq<char>)
    ensures
        forall|k: int|
            0 <= k < words(t).len() ==> (#[trigger] words(t)[k]).len() > 0 && forall|j: int|
                0 <= j < words(t)[k].len() ==> is_alnum(#[trigger] words(t)[k][j]),
        words(t).len() == 0 ==> (t.len() > 0 ==> !is_alnum(t[0])),
        t.len() > 0 && is_alnum(t.last()) ==> words(t).len() > 0,
    decreases t.len(),
{
    if t.len() > 0 {
        let p = t.drop_last();
        lemma_words_alnum(p);
        let w = words(p);
        let n = words(t);
        if !is_alnum(t.last()) {
            if w.len() == 0 && p.len() > 0 {
                assert(t[0] == p[0]);
            }
        } else if t.len() >= 2 && is_alnum(t[t.len() - 2]) && w.len() > 0 {
            assert forall|k: int| 0 <= k < n.len() implies (#[trigger] n[k]).len() > 0
                && forall|j: int| 0 <= j < n[k].len() ==> is_alnum(#[trigger] n[k][j]) by {
                if k < n.len() - 1 {
                    assert(n[k] == w[k]);
                } else {
                    assert(n[k] == w.last().push(t.last()));
                    assert forall|j: int| 0 <= j < n[k].len() implies is_alnum(#[trigger] n[k][j]) by {
                        if j < w.last().len() {
                            assert(n[k][j] == w[w.len() - 1][j]);
                        }
                    }
                }
            }
        } else {
            assert forall|k: int| 0 <= k < n.len() implies (#[trigger] n[k]).len() > 0
                && forall|j: int| 0 <= j < n[k].len() ==> is_alnum(#[trigger] n[k][j]) by {
                if k < n.len() - 1 {
                    assert(n[k] == w[k]);
                }
            }
        }
    }
}

/// Joining non-empty pieces: the result starts with the first piece's first
/// character and ends with the last piece's last one.
proof fn lemma_join_ends(ls: Seq<Seq<char>>)
    requires
        ls.len() > 0,
        forall|k: int| 0 <= k < ls.len() ==> (#[trigger] ls[k]).len() > 0,
    ensures
        join_with(ls, "-"@).len() > 0,
        join_with(ls, "-"@)[0] == ls[0][0],
        join_with(ls, "-"@).last() == ls.last().last(),
    decreases ls.len(),
{
    if ls.len() > 1 {
        let p = ls.drop_last();
        assert forall|k: int| 0 <= k < p.len() implies (#[trigger] p[k]).len() > 0 by {
            assert(p[k] == ls[k]);
        }
        lemma_join_ends(p);
        assert(p[0] == ls[0]);
    }
}

/// Appending a character to the last piece appends it to the joined text.
proof fn lemma_join_extend_last(ls: Seq<Seq<char>>, x: char)
    requires
        ls.len() > 0,
    ensures
        join_with(ls.drop_last().push(ls.last().push(x)), "-"@) == join_with(ls, "-"@).push(x),
{
    let n = ls.drop_last().push(ls.last().push(x));
    assert(n.drop_last() =~= ls.drop_last());
    if ls.len() == 1 {
        assert(n[0] == ls[0].push(x));
    }
}

/// The collapsed dashes of a title's slug characters: a dash where it starts
/// with something other than a letter or digit, the words joined by `-`, and
/// a dash where it ends with such a character after a word.
proof fn lemma_collapse_words(t: Seq<char>)
    ensures
        collapse_dashes(t.map_values(|c: char| slug_char(c))) == dash_if(
            t.len() > 0 && !is_alnum(t[0]),
        ) + slug_by_words(t) + dash_if(t.len() > 0 && !is_alnum(t.last()) && words(t).len() > 0),
    decreases t.len(),
{
    reveal_strlit("-");
    let m = t.map_values(|c: char| slug_char(c));
    if t.len() == 0 {
        assert(m =~= Seq::<char>::empty());
        assert(lower_words(t) =~= Seq::<Seq<char>>::empty());
        assert(collapse_dashes(m) =~= Seq::<char>::empty());
    } else {
        let p = t.drop_last();
        let c = t.last();
        lemma_collapse_words(p);
        lemma_words_alnum(p);
        lemma_words_alnum(t);
        let mp = p.map_values(|c: char| slug_char(c));
        assert(m.drop_last() =~= mp);
        assert(m.last() == slug_char(c));
        let r = collapse_dashes(mp);
        let wp = words(p);
        let lp = lower_words(p);
        let jp = slug_by_words(p);
        let pre_p = dash_if(p.len() > 0 && !is_alnum(p[0]));
        let post_p = dash_if(p.len() > 0 && !is_alnum(p.last()) && wp.len() > 0);
        assert(r == pre_p + jp + post_p);
        if p.len() > 0 {
            assert(t[0] == p[0]);
            assert(p.last() == t[t.len() - 2]);
        }
        if wp.len() > 0 {
            assert forall|k: int| 0 <= k < lp.len() implies (#[trigger] lp[k]).len() > 0 by {
                assert(wp[k].len() > 0);
            }
            lemma_join_ends(lp);
            assert(lp.last() == lower_word(wp.last()));
            assert(wp.last().len() > 0);
            assert(is_alnum(wp.last().last()));
            lemma_lower_not_dash(wp.last().last());
            assert(lower_word(wp.last()).last() == ascii_lower(wp.last().last()));
            assert(jp.last() != '-');
        } else {
            assert(lp =~= Seq::<Seq<char>>::empty());
            assert(jp =~= Seq::<char>::empty());
        }
        if !is_alnum(c) {
            assert(slug_char(c) == '-');
            assert(words(t) == wp);
            if p.len() == 0 {
                assert(r =~= Seq::<char>::empty());
                assert(collapse_dashes(m) =~= seq!['-']);
                assert(collapse_dashes(m) =~= dash_if(true) + jp + dash_if(false));
            } else if wp.len() == 0 {
                assert(r =~= seq!['-']);
                assert(collapse_dashes(m) == r);
            } else if !is_alnum(p.last()) {
                assert(r.last() == '-');
                assert(collapse_dashes(m) == r);
            } else {
                assert(r =~= pre_p + jp);
                assert(collapse_dashes(m) == r.push('-'));
                assert(collapse_dashes(m) =~= pre_p + jp + dash_if(true));
            }
        } else {
            lemma_lower_not_dash(c);
            assert(slug_char(c) == ascii_lower(c));
            assert(collapse_dashes(m) == r.push(ascii_lower(c)));
            if p.len() > 0 && is_alnum(p.last()) {
                assert(wp.len() > 0);
                let nw = wp.drop_last().push(wp.last().push(c));
                assert(words(t) == nw);
                assert(lower_word(wp.last().push(c)) =~= lower_word(wp.last()).push(ascii_lower(c)));
                let target = lp.drop_last().push(lp.last().push(ascii_lower(c)));
                assert(lower_words(t).len() == target.len());
                assert forall|k: int| 0 <= k < target.len() implies lower_words(t)[k] == target[k] by {
                    if k < target.len() - 1 {
                        assert(nw[k] == wp[k]);
                    } else {
                        assert(nw[k] == wp.last().push(c));
                    }
                }
                assert(lower_words(t) =~= target);
                lemma_join_extend_last(lp, ascii_lower(c));
                assert(collapse_dashes(m) =~= pre_p + slug_by_words(t));
            } else {
                let nw = wp.push(seq![c]);
                assert(words(t) == nw);
                assert(lower_word(seq![c]) =~= seq![ascii_lower(c)]);
                let target = lp.push(seq![ascii_lower(c)]);
                assert(lower_words(t).len() == target.len());
                assert forall|k: int| 0 <= k < target.len() implies lower_words(t)[k] == target[k] by {
                    if k < target.len() - 1 {
                        assert(nw[k] == wp[k]);
                    } else {
                        assert(nw[k] == seq![c]);
                    }
                }
                assert(lower_words(t) =~= target);
                if p.len() == 0 {
                    assert(lower_words(t) =~= seq![seq![ascii_lower(c)]]);
                    assert(collapse_dashes(m) =~= dash_if(false) + slug_by_words(t) + dash_if(
                        false,
                    ));
                } else if wp.len() == 0 {
                    assert(lower_words(t) =~= seq![seq![ascii_lower(c)]]);
                    assert(r =~= seq!['-']);
                    assert(collapse_dashes(m) =~= dash_if(true) + slug_by_words(t) + dash_if(
                        false,
                    ));
                } else {
                    assert(lower_words(t).drop_last() =~= lp);
                    assert(collapse_dashes(m) =~= pre_p + slug_by_words(t));
                }
            }
        }
    }
}

/// A slug is the title's words, lower-cased and joined by `-`: letters and
/// digits are kept (ASCII capitals lower-cased), and every run of other
/// characters between two words becomes one `-`.
pub proof fn law_slug_is_words_joined(t: Seq<char>)
    ensures
        slug_of(t) == slug_by_words(t),
{
    reveal_strlit("-");
    lemma_collapse_words(t);
    lemma_words_alnum(t);
    let pre = dash_if(t.len() > 0 && !is_alnum(t[0]));
    let post = dash_if(t.len() > 0 && !is_alnum(t.last()) && words(t).len() > 0);
    let j = slug_by_words(t);
    let lw = lower_words(t);
    let s = pre + j + post;
    assert(collapse_dashes(t.map_values(|c: char| slug_char(c))) == s);
    if words(t).len() == 0 {
        assert(lw =~= Seq::<Seq<char>>::empty());
        assert(j =~= Seq::<char>::empty());
        assert(post =~= Seq::<char>::empty());
        lemma_skip_char_bounds(s, '-', 0);
        assert(s.len() <= 1);
        assert(trim_start_char(s, '-') =~= Seq::<char>::empty());
    } else {
        assert forall|k: int| 0 <= k < lw.len() implies (#[trigger] lw[k]).len() > 0 by {
            assert(words(t)[k].len() > 0);
        }
        lemma_join_ends(lw);
        assert(lw[0] == lower_word(words(t)[0]));
        assert(lw.last() == lower_word(words(t).last()));
        assert(words(t)[0].len() > 0 && is_alnum(words(t)[0][0]));
        assert(words(t).last().len() > 0 && is_alnum(words(t).last().last()));
        lemma_lower_not_dash(words(t)[0][0]);
        lemma_lower_not_dash(words(t).last().last());
        assert(j[0] != '-');
        assert(j.last() != '-');
        lemma_skip_char_bounds(s, '-', 0);
        assert(s[pre.len() as int] == j[0]);
        if pre.len() == 1 {
            assert(s[0] == '-');
            assert(skip_char(s, '-', 0) == skip_char(s, '-', 1));
        }
        assert(skip_char(s, '-', 0) == pre.len());
        let ts = trim_start_char(s, '-');
        assert(ts =~= j + post);
        lemma_back_char_bounds(ts, '-', ts.len() as int);
        if post.len() == 1 {
            assert(ts[ts.len() - 1] == '-');
            assert(back_char(ts, '-', ts.len() as int) == back_char(ts, '-', ts.len() - 1));
        }
        assert(ts[j.len() - 1] == j.last());
        assert(back_char(ts, '-', ts.len() as int) == j.len());
        assert(ts.take(j.len() as int) =~= j);
    }
}

// ---------------------------------------------------------------------
// Splitting on `## ` headings
// ---------------------------------------------------------------------

/// `## `
pub open spec fn h2_marker() -> Seq<char> {
    seq!['#', '#', ' ']
}

/// Whether a line is a `## ` heading.
pub open spec fn is_h2(line: Seq<char>) -> bool {
    starts_with(line, h2_marker())
}

/// The index of the first heading line of `ls` at or after `i`, or the
/// number of lines where there is none.
pub open spec fn next_h2(ls: Seq<Seq<char>>, i: int) -> int
    decreases ls.len() - i,
{
    if i < 0 || i >= ls.len() {
        ls.len() as int
    } else if is_h2(ls[i]) {
        i
    } else {
        next_h2(ls, i + 1)
    }
}

/// The text before the first heading, built from the first `n` lines: each
/// line followed by a newline, with the empty lines at the very start left
/// out.
pub open spec fn preamble_upto(ls: Seq<Seq<char>>, n: int) -> Seq<char>
    decreases n,
{
    if n <= 0 || n > ls.len() {
        Seq::empty()
    } else {
        let p = preamble_upto(ls, n - 1);
        if p.len() == 0 && ls[n - 1].len() == 0 {
            p
        } else {
            p + ls[n - 1] + seq!['\n']
        }
    }
}

/// The lines `ls[a..b]`, each followed by a newline.
pub open spec fn body_between(ls: Seq<Seq<char>>, a: int, b: int) -> Seq<char>
    decreases b - a,
{
    if a < 0 || b <= a || b > ls.len() {
        Seq::empty()
    } else {
        body_between(ls, a, b - 1) + ls[b - 1] + seq!['\n']
    }
}

/// The title of a heading line: the text after `## `, trimmed.
pub open spec fn heading_title(line: Seq<char>) -> Seq<char> {
    trim(line.skip(3))
}

/// The sections that start at heading line `i` and at each later heading:
/// the heading's title, and the lines up to the next heading.
pub open spec fn titled_from(ls: Seq<Seq<char>>, i: int) -> Seq<(Option<Seq<char>>, Seq<char>)>
    decreases ls.len() - i,
{
    if i < 0 || i >= ls.len() {
        Seq::empty()
    } else {
        let j = next_h2(ls, i + 1);
        if j <= i || j > ls.len() {
            Seq::empty()
        } else {
            seq![(Some(heading_title(ls[i])), body_between(ls, i + 1, j))] + titled_from(ls, j)
        }
    }
}

/// The raw sections of the instructions file: the text before the first heading, when
/// it is not blank, untitled; then one titled section per heading.
pub open spec fn h2_sections(s: Seq<char>) -> Seq<(Option<Seq<char>>, Seq<char>)> {
    let ls = lines(s);
    let k = next_h2(ls, 0);
    let pre = preamble_upto(ls, k);
    let first: Seq<(Option<Seq<char>>, Seq<char>)> = if trim(pre).len() > 0 {
        seq![(None, pre)]
    } else {
        Seq::empty()
    };
    first + titled_from(ls, k)
}

pub proof fn lemma_next_h2(ls: Seq<Seq<char>>, i: int)
    requires
        0 <= i <= ls.len(),
    ensures
        i <= next_h2(ls, i) <= ls.len(),
        next_h2(ls, i) < ls.len() ==> is_h2(ls[next_h2(ls, i)]),
        forall|k: int| i <= k < next_h2(ls, i) ==> !is_h2(#[trigger] ls[k]),
    decreases ls.len() - i,
{
    if i < ls.len() && !is_h2(ls[i]) {
        lemma_next_h2(ls, i + 1);
    }
}

/// The raw sections, as held in character vectors.
pub open spec fn raw_view(v: Seq<(Option<Vec<char>>, Vec<char>)>) -> Seq<
    (Option<Seq<char>>, Seq<char>),
> {
    v.map_values(|r: (Option<Vec<char>>, Vec<char>)| (opt_chars(r.0), r.1@))
}

/// Appends a line and a newline to `body`.
fn push_line(body: &mut Vec<char>, line: &Vec<char>)
    ensures
        final(body)@ == old(body)@ + line@ + seq!['\n'],
{
    let mut k: usize = 0;
    let ghost start = body@;
    while k < line.len()
        invariant
            k <= line.len(),
            body@ == start + line@.take(k as int),
        decreases line.len() - k,
    {
        body.push(line[k]);
        k = k + 1;
        assert(body@ =~= start + line@.take(k as int));
    }
    body.push('\n');
    assert(body@ =~= start + line@ + seq!['\n']);
}

/// Whether a line is a `## ` heading.
fn is_h2_exec(line: &Vec<char>) -> (res: bool)
    ensures
        res == is_h2(line@),
{
    let m = vec!['#', '#', ' '];
    assert(m@ =~= h2_marker());
    occurs_at_exec(line, &m, 0)
}

/// The raw sections of the instructions file text, as `h2_sections` says.
pub fn split_on_h2_chars(content: &Vec<char>) -> (res: Vec<(Option<Vec<char>>, Vec<char>)>)
    ensures
        raw_view(res@) == h2_sections(content@),
{
    let ls = lines_exec(content);
    let ghost lsv = lines(content@);
    proof {
        lemma_next_h2(lsv, 0);
    }
    let mut pre: Vec<char> = Vec::new();
    let mut i: usize = 0;
    while i < ls.len() && !is_h2_exec(&ls[i])
        invariant
            i <= ls.len(),
            ls@.len() == lsv.len(),
            forall|k: int| 0 <= k < ls@.len() ==> #[trigger] ls@[k]@ == lsv[k],
            next_h2(lsv, 0) == next_h2(lsv, i as int),
            pre@ == preamble_upto(lsv, i as int),
        decreases ls.len() - i,
    {
        assert(ls@[i as int]@ == lsv[i as int]);
        if !(pre.len() == 0 && ls[i].len() == 0) {
            push_line(&mut pre, &ls[i]);
        }
        i = i + 1;
    }
    assert(i < ls.len() ==> ls@[i as int]@ == lsv[i as int]);
    let ghost k = i as int;
    assert(next_h2(lsv, 0) == k);
    let mut res: Vec<(Option<Vec<char>>, Vec<char>)> = Vec::new();
    if !is_blank(&pre) {
        res.push((None, pre));
    }
    assert(raw_view(res@) + titled_from(lsv, i as int) =~= h2_sections(content@));
    while i < ls.len()
        invariant
            i <= ls.len(),
            ls@.len() == lsv.len(),
            forall|k: int| 0 <= k < ls@.len() ==> #[trigger] ls@[k]@ == lsv[k],
            raw_view(res@) + titled_from(lsv, i as int) == h2_sections(content@),
            i < lsv.len() ==> is_h2(lsv[i as int]),
        decreases ls.len() - i,
    {
        proof {
            lemma_next_h2(lsv, i + 1);
        }
        let line = &ls[i];
        assert(line@ == lsv[i as int]);
        let tail = slice_chars(line, 3, line.len());
        assert(tail@ =~= lsv[i as int].skip(3));
        let title = trim_exec(&tail);
        let mut body: Vec<char> = Vec::new();
        let mut j: usize = i + 1;
        while j < ls.len() && !is_h2_exec(&ls[j])
            invariant
                i < j <= ls.len(),
                ls@.len() == lsv.len(),
                forall|k: int| 0 <= k < ls@.len() ==> #[trigger] ls@[k]@ == lsv[k],
                next_h2(lsv, i + 1) == next_h2(lsv, j as int),
                body@ == body_between(lsv, i + 1, j as int),
            decreases ls.len() - j,
        {
            assert(ls@[j as int]@ == lsv[j as int]);
            push_line(&mut body, &ls[j]);
            j = j + 1;
        }
        assert(j < ls.len() ==> ls@[j as int]@ == lsv[j as int]);
        assert(next_h2(lsv, i + 1) == j);
        let ghost before = raw_view(res@);
        let ghost entry = (Some(title@), body@);
        res.push((Some(title), body));
        assert(raw_view(res@) =~= before.push(entry));
        assert(titled_from(lsv, i as int) == seq![entry] + titled_from(lsv, j as int));
        assert(raw_view(res@) + titled_from(lsv, j as int) =~= before + titled_from(
            lsv,
            i as int,
        ));
        i = j;
    }
    assert(titled_from(lsv, i as int) =~= Seq::<(Option<Seq<char>>, Seq<char>)>::empty());
    assert(raw_view(res@) =~= raw_view(res@) + titled_from(lsv, i as int));
    res
}

/// The raw sections of the instructions file: (title, body) pairs, as `h2_sections`
/// says; the text before the first heading has no title.
pub fn split_on_h2(content: &str) -> (res: Vec<(Option<String>, String)>)
    ensures
        res.deep_view() == h2_sections(content@),
{
    let v = chars_of(content);
    let raws = split_on_h2_chars(&v);
    let mut res: Vec<(Option<String>, String)> = Vec::new();
    let mut i: usize = 0;
    while i < raws.len()
        invariant
            i <= raws.len(),
            raw_view(raws@) == h2_sections(content@),
            res.deep_view() == raw_view(raws@).take(i as int),
        decreases raws.len() - i,
    {
        let (t, b) = &raws[i];
        let title = match t {
            Some(t) => Some(string_of(t)),
            None => None,
        };
        assert(title.deep_view() == opt_chars(*t));
        let ghost before = res.deep_view();
        res.push((title, string_of(b)));
        assert(raw_view(raws@)[i as int] == (opt_chars(*t), b@));
        assert(res.deep_view() =~= before.push((opt_chars(*t), b@)));
        assert(raw_view(raws@).take(i + 1) =~= raw_view(raws@).take(i as int).push(
            raw_view(raws@)[i as int],
        ));
        i = i + 1;
    }
    assert(raw_view(raws@).take(raws.len() as int) =~= raw_view(raws@));
    res
}

/// The lines `ls[a..b]` as text: each line followed by a newline, one after
/// another.
pub open spec fn lines_text(ls: Seq<Seq<char>>, a: int, b: int) -> Seq<char> {
    ls.subrange(a, b).map_values(|l: Seq<char>| l + seq!['\n']).flatten()
}

/// Whether `sec` is the section of lines `ls` that starts with the heading
/// at line `a - 1` and runs up to line `b`, the next heading or the end: its
/// title is the heading's text after `## `, trimmed, and its body is
/// `lines_text(ls, a, b)`.
pub open spec fn is_section_at(
    ls: Seq<Seq<char>>,
    a: int,
    b: int,
    sec: (Option<Seq<char>>, Seq<char>),
) -> bool {
    &&& 1 <= a <= b <= ls.len()
    &&& is_h2(ls[a - 1])
    &&& b == ls.len() || is_h2(ls[b])
    &&& forall|j: int| a <= j < b ==> !is_h2(#[trigger] ls[j])
    &&& sec == (Some(trim(ls[a - 1].skip(3))), lines_text(ls, a, b))
}

proof fn lemma_body_between_is_lines(ls: Seq<Seq<char>>, a: int, b: int)
    requires
        0 <= a <= b <= ls.len(),
    ensures
        body_between(ls, a, b) == lines_text(ls, a, b),
    decreases b - a,
{
    let f = |l: Seq<char>| l + seq!['\n'];
    if b == a {
        assert(ls.subrange(a, b).map_values(f) =~= Seq::<Seq<char>>::empty());
    } else {
        lemma_body_between_is_lines(ls, a, b - 1);
        assert(ls.subrange(a, b).map_values(f) =~= ls.subrange(a, b - 1).map_values(f).push(
            ls[b - 1] + seq!['\n'],
        ));
        ls.subrange(a, b - 1).map_values(f).lemma_flatten_push(ls[b - 1] + seq!['\n']);
    }
}

/// The titled sections read from line `i` on (`i` a heading, or past the
/// end) are each a heading and the lines up to the next one.
proof fn lemma_titled_sections(ls: Seq<Seq<char>>, i: int, m: int)
    requires
        0 <= i,
        i < ls.len() ==> is_h2(ls[i]),
        0 <= m < titled_from(ls, i).len(),
    ensures
        exists|a: int, b: int| #[trigger] is_section_at(ls, a, b, titled_from(ls, i)[m]),
    decreases ls.len() - i,
{
    let j = next_h2(ls, i + 1);
    lemma_next_h2(ls, i + 1);
    if m == 0 {
        lemma_body_between_is_lines(ls, i + 1, j);
        assert(is_section_at(ls, i + 1, j, titled_from(ls, i)[m]));
    } else {
        lemma_titled_sections(ls, j, m - 1);
        assert(titled_from(ls, i)[m] == titled_from(ls, j)[m - 1]);
    }
}

/// Every titled section of the instructions file is a `## ` heading line and
/// everything up to the next heading (or the end): its title is the heading's
/// text after `## `, trimmed, and its body holds every line in between,
/// empty lines included, each followed by a newline, in order.
pub proof fn law_titled_section_is_its_lines(content: Seq<char>, i: int)
    requires
        0 <= i < h2_sections(content).len(),
        h2_sections(content)[i].0 is Some,
    ensures
        exists|a: int, b: int| #[trigger] is_section_at(lines(content), a, b, h2_sections(content)[i]),
{
    let ls = lines(content);
    let k = next_h2(ls, 0);
    lemma_next_h2(ls, 0);
    let pre = preamble_upto(ls, k);
    let first: Seq<(Option<Seq<char>>, Seq<char>)> = if trim(pre).len() > 0 {
        seq![(None, pre)]
    } else {
        Seq::empty()
    };
    let t = titled_from(ls, k);
    assert(h2_sections(content) == first + t);
    let m = i - first.len();
    assert(m >= 0);
    assert(h2_sections(content)[i] == t[m]);
    lemma_titled_sections(ls, k, m);
}

/// Each heading at or after line `i` (`i` a heading, or past the end) starts
/// one of the sections read from `i` on.
proof fn lemma_heading_has_section(ls: Seq<Seq<char>>, i: int, h: int)
    requires
        0 <= i <= h < ls.len(),
        is_h2(ls[i]),
        is_h2(ls[h]),
    ensures
        exists|m: int|
            0 <= m < titled_from(ls, i).len() && #[trigger] titled_from(ls, i)[m] == (
                Some(trim(ls[h].skip(3))),
                lines_text(ls, h + 1, next_h2(ls, h + 1)),
            ),
    decreases h - i,
{
    let j = next_h2(ls, i + 1);
    lemma_next_h2(ls, i + 1);
    if h == i {
        lemma_body_between_is_lines(ls, i + 1, j);
        assert(titled_from(ls, i)[0] == (
            Some(trim(ls[h].skip(3))),
            lines_text(ls, h + 1, next_h2(ls, h + 1)),
        ));
    } else {
        assert(j <= h);
        lemma_heading_has_section(ls, j, h);
        let m = choose|m: int|
            0 <= m < titled_from(ls, j).len() && #[trigger] titled_from(ls, j)[m] == (
                Some(trim(ls[h].skip(3))),
                lines_text(ls, h + 1, next_h2(ls, h + 1)),
            );
        assert(titled_from(ls, i)[m + 1] == titled_from(ls, j)[m]);
    }
}

/// Every `## ` heading line of the instructions file starts a section of
/// its own: titled by the heading's text after `## `, trimmed, with every
/// line up to the next heading as its body. No heading is dropped.
pub proof fn law_every_heading_has_a_section(content: Seq<char>, h: int)
    requires
        0 <= h < lines(content).len(),
        is_h2(lines(content)[h]),
    ensures
        exists|i: int|
            0 <= i < h2_sections(content).len() && #[trigger] h2_sections(content)[i] == (
                Some(trim(lines(content)[h].skip(3))),
                lines_text(lines(content), h + 1, next_h2(lines(content), h + 1)),
            ),
{
    let ls = lines(content);
    let k = next_h2(ls, 0);
    lemma_next_h2(ls, 0);
    assert(k <= h);
    let pre = preamble_upto(ls, k);
    let first: Seq<(Option<Seq<char>>, Seq<char>)> = if trim(pre).len() > 0 {
        seq![(None, pre)]
    } else {
        Seq::empty()
    };
    let t = titled_from(ls, k);
    assert(h2_sections(content) == first + t);
    lemma_heading_has_section(ls, k, h);
    let m = choose|m: int|
        0 <= m < t.len() && #[trigger] t[m] == (
            Some(trim(ls[h].skip(3))),
            lines_text(ls, h + 1, next_h2(ls, h + 1)),
        );
    assert(h2_sections(content)[first.len() + m] == t[m]);
}

/// The text before line `n` from the first line that is not empty: the
/// preamble is that text.
proof fn lemma_preamble_is_lines(ls: Seq<Seq<char>>, n: int) -> (f: int)
    requires
        0 <= n <= ls.len(),
    ensures
        0 <= f <= n,
        forall|j: int| 0 <= j < f ==> (#[trigger] ls[j]).len() == 0,
        f < n ==> ls[f].len() > 0,
        preamble_upto(ls, n) == lines_text(ls, f, n),
    decreases n,
{
    if n == 0 {
        assert(lines_text(ls, 0, 0) =~= Seq::<char>::empty()) by {
            assert(ls.subrange(0, 0).map_values(|l: Seq<char>| l + seq!['\n']) =~= Seq::<
                Seq<char>,
            >::empty());
        }
        0
    } else {
        let f0 = lemma_preamble_is_lines(ls, n - 1);
        lemma_body_between_is_lines(ls, f0, n - 1);
        lemma_body_between_is_lines(ls, f0, n);
        if f0 == n - 1 && ls[n - 1].len() == 0 {
            lemma_body_between_is_lines(ls, n, n);
            assert(preamble_upto(ls, n - 1).len() == 0) by {
                assert(lines_text(ls, n - 1, n - 1) =~= Seq::<char>::empty()) by {
                    assert(ls.subrange(n - 1, n - 1).map_values(|l: Seq<char>| l + seq!['\n'])
                        =~= Seq::<Seq<char>>::empty());
                }
            }
            assert(lines_text(ls, n, n) =~= Seq::<char>::empty()) by {
                assert(ls.subrange(n, n).map_values(|l: Seq<char>| l + seq!['\n']) =~= Seq::<
                    Seq<char>,
                >::empty());
            }
            n
        } else {
            if f0 < n - 1 {
                assert(lines_text(ls, f0, n - 1).len() > 0) by {
                    assert(body_between(ls, f0, n - 1).len() >= 1) by {
                        lemma_body_between_len(ls, f0, n - 1);
                    }
                }
            }
            f0
        }
    }
}

proof fn lemma_body_between_len(ls: Seq<Seq<char>>, a: int, b: int)
    requires
        0 <= a < b <= ls.len(),
    ensures
        body_between(ls, a, b).len() >= 1,
    decreases b - a,
{
}

/// The untitled section of the instructions file is the text before the
/// first heading, from its first line that is not empty on: every line,
/// empty lines between paragraphs included, followed by a newline.
pub proof fn law_preamble_is_its_lines(content: Seq<char>)
    requires
        h2_sections(content).len() > 0,
        h2_sections(content)[0].0 is None,
    ensures
        exists|f: int|
            0 <= f <= next_h2(lines(content), 0) && (forall|j: int|
                0 <= j < f ==> (#[trigger] lines(content)[j]).len() == 0) && (f < next_h2(
                lines(content),
                0,
            ) ==> lines(content)[f].len() > 0) && #[trigger] lines_text(
                lines(content),
                f,
                next_h2(lines(content), 0),
            ) == h2_sections(content)[0].1,
{
    let ls = lines(content);
    let k = next_h2(ls, 0);
    lemma_next_h2(ls, 0);
    let pre = preamble_upto(ls, k);
    let t = titled_from(ls, k);
    if trim(pre).len() > 0 {
        assert(h2_sections(content)[0] == (None::<Seq<char>>, pre));
        let f = lemma_preamble_is_lines(ls, k);
        assert(lines_text(ls, f, k) == h2_sections(content)[0].1);
    } else {
        assert(h2_sections(content) == t);
        if k < ls.len() {
            lemma_titled_sections(ls, k, 0);
        }
    }
}

// ---------------------------------------------------------------------
// Section headers
// ---------------------------------------------------------------------

/// The overrides and remaining body of a section: with a header, the
/// overrides written in it and the text after it; without one, no
/// overrides and the body as it is.
pub open spec fn section_frontmatter(body: Seq<char>) -> (Seq<OverrideView>, Seq<char>) {
    match split_frontmatter(body) {
        Some((h, rest)) => (overrides_of(fields(h), Seq::empty()), rest),
        None => (Seq::empty(), body),
    }
}

/// The overrides and remaining body of a section given as characters.
pub fn section_frontmatter_chars(body: &Vec<char>) -> (res: (TargetOverrides, Vec<char>))
    ensures
        (res.0@, res.1@) == section_frontmatter(body@),
{
    match split_frontmatter_exec(body) {
        Some((h, rest)) => {
            let fs = parse_fields(&h);
            let known: Vec<Vec<char>> = Vec::new();
            assert(crate::parse::frontmatter::texts_view(known@) =~= Seq::<Seq<char>>::empty());
            (collect_overrides(&fs, &known), rest)
        },
        None => {
            let copy = slice_chars(body, 0, body.len());
            assert(copy@ =~= body@);
            (TargetOverrides::new(), copy)
        },
    }
}

/// Reads the optional header of a section: its `target: key=value` lines
/// become overrides, and the rest of the body follows the header.
pub fn parse_section_frontmatter(body: &str) -> (res: (TargetOverrides, String))
    ensures
        (res.0@, res.1@) == section_frontmatter(body@),
{
    let v = chars_of(body);
    let (ov, rest) = section_frontmatter_chars(&v);
    (ov, string_of(&rest))
}

// ---------------------------------------------------------------------
// Sections
// ---------------------------------------------------------------------

/// `_project`, the slug of the text before the first heading.
pub open spec fn project_slug() -> Seq<char> {
    seq!['_', 'p', 'r', 'o', 'j', 'e', 'c', 't']
}

/// The slug that a section's title gives, before numbering.
pub open spec fn base_slug(title: Option<Seq<char>>) -> Seq<char> {
    match title {
        Some(t) => slug_of(t),
        None => project_slug(),
    }
}

/// A section that is kept: (title, base slug, trimmed body, overrides).
pub type KeptView = (Option<Seq<char>>, Seq<char>, Seq<char>, Seq<OverrideView>);

/// The sections among the first `n` raw sections whose body, once the
/// header is taken off and it is trimmed, is not empty.
pub open spec fn kept_upto(raws: Seq<(Option<Seq<char>>, Seq<char>)>, n: int) -> Seq<KeptView>
    decreases n,
{
    if n <= 0 || n > raws.len() {
        Seq::empty()
    } else {
        let rest = kept_upto(raws, n - 1);
        let fm = section_frontmatter(raws[n - 1].1);
        let body = trim(fm.1);
        if body.len() == 0 {
            rest
        } else {
            rest.push((raws[n - 1].0, base_slug(raws[n - 1].0), body, fm.0))
        }
    }
}

/// The sections of the instructions file that are kept, in order.
pub open spec fn kept_sections(content: Seq<char>) -> Seq<KeptView> {
    kept_upto(h2_sections(content), h2_sections(content).len() as int)
}

/// How often `x` occurs in `s`.
pub open spec fn count_in(s: Seq<Seq<char>>, x: Seq<char>) -> nat
    decreases s.len(),
{
    if s.len() == 0 {
        0
    } else {
        count_in(s.drop_last(), x) + if s.last() == x {
            1nat
        } else {
            0nat
        }
    }
}

/// The decimal digit of `d`.
pub open spec fn digit(d: nat) -> char {
    (48 + d) as char
}

/// The decimal numeral of `n`.
pub open spec fn decimal(n: nat) -> Seq<char>
    decreases n,
{
    if n < 10 {
        seq![digit(n)]
    } else {
        decimal(n / 10).push(digit(n % 10))
    }
}

/// A base slug as it stands the `n`-th time it occurs: as it is the first
/// time, and with `-n` after it later.
pub open spec fn numbered(base: Seq<char>, n: nat) -> Seq<char> {
    if n <= 1 {
        base
    } else {
        base + seq!['-'] + decimal(n)
    }
}

/// The base slugs of kept sections.
pub open spec fn bases_of(kept: Seq<KeptView>) -> Seq<Seq<char>> {
    kept.map_values(|k: KeptView| k.1)
}

/// The first of `numbered(base, k)`, `numbered(base, k + 1)`, ... that is
/// not among the slugs `taken`, trying at most `fuel` more after the first.
pub open spec fn free_slug(base: Seq<char>, taken: Seq<Seq<char>>, k: nat, fuel: nat) -> Seq<char>
    decreases fuel,
{
    if fuel == 0 || !taken.contains(numbered(base, k)) {
        numbered(base, k)
    } else {
        free_slug(base, taken, k + 1, (fuel - 1) as nat)
    }
}

/// The slugs of the first `n` sections with base slugs `bases`: a base slug
/// occurring for the `c`-th time is numbered `c` (unnumbered the first
/// time), and where that slug is already taken by an earlier section, the
/// next number that is free is used.
pub open spec fn slugs_upto(bases: Seq<Seq<char>>, n: int) -> Seq<Seq<char>>
    decreases n,
{
    if n <= 0 || n > bases.len() {
        Seq::empty()
    } else {
        let prev = slugs_upto(bases, n - 1);
        prev.push(free_slug(bases[n - 1], prev, count_in(bases.take(n), bases[n - 1]), prev.len()))
    }
}

/// The slug of the `i`-th of the sections with base slugs `bases`.
pub open spec fn dedup_slug(bases: Seq<Seq<char>>, i: int) -> Seq<char> {
    slugs_upto(bases, i + 1)[i]
}

/// The `i`-th section produced from the kept sections `kept`.
pub open spec fn claude_md_section(kept: Seq<KeptView>, i: int) -> crate::ir::SectionView {
    crate::ir::SectionView {
        title: kept[i].0,
        slug: dedup_slug(bases_of(kept), i),
        body: kept[i].2,
        source: SectionSource::ClaudeMd,
        overrides: kept[i].3,
        description: None,
    }
}

/// The digit character of `d`.
fn digit_exec(d: usize) -> (res: char)
    requires
        d < 10,
    ensures
        res == digit(d as nat),
{
    match d {
        0 => '0',
        1 => '1',
        2 => '2',
        3 => '3',
        4 => '4',
        5 => '5',
        6 => '6',
        7 => '7',
        8 => '8',
        _ => '9',
    }
}

/// The decimal numeral of `n`.
pub fn decimal_exec(n: u128) -> (res: Vec<char>)
    ensures
        res@ == decimal(n as nat),
    decreases n,
{
    if n < 10 {
        let mut v: Vec<char> = Vec::new();
        v.push(digit_exec(n as usize));
        assert(v@ =~= seq![digit(n as nat)]);
        v
    } else {
        let mut v = decimal_exec(n / 10);
        v.push(digit_exec((n % 10) as usize));
        v
    }
}

/// `base` numbered `k`, as `numbered` says.
fn numbered_exec(base: &Vec<char>, k: u128) -> (res: Vec<char>)
    ensures
        res@ == numbered(base@, k as nat),
{
    if k <= 1 {
        let copy = slice_chars(base, 0, base.len());
        assert(copy@ =~= base@);
        copy
    } else {
        let mut s = slice_chars(base, 0, base.len());
        s.push('-');
        let d = decimal_exec(k);
        let s2 = crate::text::concat_chars(&s, &d);
        assert(s2@ =~= base@ + seq!['-'] + decimal(k as nat));
        s2
    }
}

/// Whether `x` is one of `s`.
fn contains_exec(s: &Vec<Vec<char>>, x: &Vec<char>) -> (res: bool)
    ensures
        res == crate::parse::frontmatter::texts_view(s@).contains(x@),
{
    let ghost sv = crate::parse::frontmatter::texts_view(s@);
    let mut i: usize = 0;
    while i < s.len()
        invariant
            i <= s.len(),
            sv == crate::parse::frontmatter::texts_view(s@),
            forall|k: int| 0 <= k < i ==> sv[k] != x@,
        decreases s.len() - i,
    {
        if chars_eq(&s[i], x) {
            assert(sv[i as int] == x@);
            return true;
        }
        i = i + 1;
    }
    false
}

/// The first free numbering of `base` from `k` on, as `free_slug` says.
fn free_slug_exec(base: &Vec<char>, taken: &Vec<Vec<char>>, k: usize) -> (res: Vec<char>)
    ensures
        res@ == free_slug(
            base@,
            crate::parse::frontmatter::texts_view(taken@),
            k as nat,
            taken@.len(),
        ),
{
    let ghost tv = crate::parse::frontmatter::texts_view(taken@);
    let mut j: u128 = k as u128;
    let mut fuel: usize = taken.len();
    let mut cand = numbered_exec(base, j);
    while fuel > 0 && contains_exec(taken, &cand)
        invariant
            fuel <= taken.len(),
            j == k as u128 + (taken.len() - fuel) as u128,
            cand@ == numbered(base@, j as nat),
            tv == crate::parse::frontmatter::texts_view(taken@),
            free_slug(base@, tv, k as nat, taken@.len()) == free_slug(base@, tv, j as nat, fuel as nat),
        decreases fuel,
    {
        j = j + 1;
        fuel = fuel - 1;
        cand = numbered_exec(base, j);
    }
    cand
}

/// How often `x` occurs in `s`.
fn count_exec(s: &Vec<Vec<char>>, x: &Vec<char>) -> (res: usize)
    ensures
        res == count_in(crate::parse::frontmatter::texts_view(s@), x@),
{
    let ghost sv = crate::parse::frontmatter::texts_view(s@);
    let mut n: usize = 0;
    let mut i: usize = 0;
    while i < s.len()
        invariant
            i <= s.len(),
            sv == crate::parse::frontmatter::texts_view(s@),
            n == count_in(sv.take(i as int), x@),
            n <= i,
        decreases s.len() - i,
    {
        assert(sv.take(i + 1).drop_last() =~= sv.take(i as int));
        assert(sv.take(i + 1).last() == s@[i as int]@);
        if chars_eq(&s[i], x) {
            n = n + 1;
        }
        i = i + 1;
    }
    assert(sv.take(s.len() as int) =~= sv);
    n
}

/// Parses the instructions file: each `## ` heading starts a section, and the text
/// before the first heading is the `_project` section. A section's optional
/// header gives its overrides; sections whose body is blank are dropped.
/// Slugs come from titles; the second and later sections with the same slug
/// get `-2`, `-3`, ... after it, skipping any slug an earlier section has, so
/// that every section's slug is its own.
pub fn parse_claude_md(content: &str) -> (res: Vec<Section>)
    ensures
        res@.len() == kept_sections(content@).len(),
        forall|i: int|
            0 <= i < res@.len() ==> #[trigger] res@[i]@ == claude_md_section(
                kept_sections(content@),
                i,
            ),
{
    let v = chars_of(content);
    parse_claude_md_chars(&v)
}

proof fn lemma_claude_md_section_push(kept: Seq<KeptView>, x: KeptView, i: int)
    requires
        0 <= i < kept.len(),
    ensures
        claude_md_section(kept.push(x), i) == claude_md_section(kept, i),
{
    assert(bases_of(kept.push(x)).take(i + 1) =~= bases_of(kept).take(i + 1));
    lemma_slugs_upto_prefix(bases_of(kept.push(x)), bases_of(kept), i + 1);
}

/// Parses the instructions file given as characters.
pub fn parse_claude_md_chars(content: &Vec<char>) -> (res: Vec<Section>)
    ensures
        res@.len() == kept_sections(content@).len(),
        forall|i: int|
            0 <= i < res@.len() ==> #[trigger] res@[i]@ == claude_md_section(
                kept_sections(content@),
                i,
            ),
{
    let raws = split_on_h2_chars(content);
    let ghost rv = raw_view(raws@);
    let mut sections: Vec<Section> = Vec::new();
    let mut bases: Vec<Vec<char>> = Vec::new();
    let mut slugs: Vec<Vec<char>> = Vec::new();
    let mut i: usize = 0;
    while i < raws.len()
        invariant
            i <= raws.len(),
            rv == raw_view(raws@),
            rv == h2_sections(content@),
            sections@.len() == kept_upto(rv, i as int).len(),
            crate::parse::frontmatter::texts_view(bases@) == bases_of(kept_upto(rv, i as int)),
            crate::parse::frontmatter::texts_view(slugs@) == slugs_upto(
                bases_of(kept_upto(rv, i as int)),
                kept_upto(rv, i as int).len() as int,
            ),
            forall|k: int|
                0 <= k < sections@.len() ==> #[trigger] sections@[k]@ == claude_md_section(
                    kept_upto(rv, i as int),
                    k,
                ),
        decreases raws.len() - i,
    {
        let (title, body) = &raws[i];
        assert(rv[i as int] == (opt_chars(*title), body@));
        let (ov, clean) = section_frontmatter_chars(body);
        let trimmed = trim_exec(&clean);
        let ghost old_kept = kept_upto(rv, i as int);
        if trimmed.len() > 0 {
            let base = match title {
                Some(t) => slugify_chars(t),
                None => {
                    let p = vec!['_', 'p', 'r', 'o', 'j', 'e', 'c', 't'];
                    assert(p@ =~= project_slug());
                    p
                },
            };
            let ghost entry: KeptView = (opt_chars(*title), base@, trimmed@, ov@);
            assert(kept_upto(rv, i + 1) == old_kept.push(entry));
            let ghost old_bases = bases@;
            let copy = slice_chars(&base, 0, base.len());
            assert(copy@ =~= base@);
            bases.push(copy);
            assert(crate::parse::frontmatter::texts_view(bases@) =~= crate::parse::frontmatter::texts_view(old_bases).push(base@));
            assert(crate::parse::frontmatter::texts_view(bases@) =~= bases_of(old_kept.push(entry)));
            let n = count_exec(&bases, &base);
            assert(bases_of(old_kept.push(entry)).take(old_kept.len() as int + 1) =~= bases_of(
                old_kept.push(entry),
            ));
            let slug = free_slug_exec(&base, &slugs, n);
            let ghost old_slugs = crate::parse::frontmatter::texts_view(slugs@);
            let copy2 = slice_chars(&slug, 0, slug.len());
            assert(copy2@ =~= slug@);
            slugs.push(copy2);
            proof {
                let bs = bases_of(old_kept.push(entry));
                lemma_slugs_upto_len(bs, old_kept.len() as int);
                assert(bases_of(old_kept).take(old_kept.len() as int) =~= bs.take(
                    old_kept.len() as int,
                ));
                lemma_slugs_upto_prefix(bases_of(old_kept), bs, old_kept.len() as int);
                assert(crate::parse::frontmatter::texts_view(slugs@) =~= old_slugs.push(slug@));
                assert(crate::parse::frontmatter::texts_view(slugs@) == slugs_upto(bs, old_kept.len() as int + 1));
            }
            assert(dedup_slug(bases_of(old_kept.push(entry)), old_kept.len() as int) == slug@);
            let t = match title {
                Some(t) => Some(string_of(t)),
                None => None,
            };
            assert(t.deep_view() == opt_chars(*title));
            let sec = Section {
                title: t,
                slug: string_of(&slug),
                body: string_of(&trimmed),
                source: SectionSource::ClaudeMd,
                target_overrides: ov,
                description: None,
            };
            assert(sec@ == claude_md_section(old_kept.push(entry), old_kept.len() as int));
            let ghost old_sections = sections@;
            sections.push(sec);
            proof {
                assert forall|k: int| 0 <= k < sections@.len() implies #[trigger] sections@[k]@
                    == claude_md_section(kept_upto(rv, i + 1), k) by {
                    if k < old_sections.len() {
                        assert(sections@[k] == old_sections[k]);
                        lemma_claude_md_section_push(old_kept, entry, k);
                    }
                }
            }
        } else {
            assert(kept_upto(rv, i + 1) == old_kept);
        }
        i = i + 1;
    }
    sections
}

// ---------------------------------------------------------------------
// Laws
// ---------------------------------------------------------------------

proof fn lemma_decimal_len(n: nat)
    ensures
        decimal(n).len() >= 1,
        n >= 10 ==> decimal(n).len() >= 2,
    decreases n,
{
    if n >= 10 {
        lemma_decimal_len(n / 10);
    }
}

proof fn lemma_digit_injective(x: nat, y: nat)
    requires
        x < 10,
        y < 10,
        digit(x) == digit(y),
    ensures
        x == y,
{
    assert((48 + x) as char == (48 + y) as char);
    assert(((48 + x) as char) as u32 == 48 + x);
    assert(((48 + y) as char) as u32 == 48 + y);
}

proof fn lemma_decimal_injective(x: nat, y: nat)
    requires
        decimal(x) == decimal(y),
    ensures
        x == y,
    decreases x,
{
    lemma_decimal_len(x);
    lemma_decimal_len(y);
    if x < 10 && y < 10 {
        assert(decimal(x)[0] == digit(x));
        assert(decimal(y)[0] == digit(y));
        lemma_digit_injective(x, y);
    } else if x >= 10 && y >= 10 {
        let dx = decimal(x);
        let dy = decimal(y);
        assert(dx.last() == digit(x % 10));
        assert(dy.last() == digit(y % 10));
        lemma_digit_injective(x % 10, y % 10);
        assert(dx.drop_last() =~= decimal(x / 10));
        assert(dy.drop_last() =~= decimal(y / 10));
        lemma_decimal_injective(x / 10, y / 10);
    } else {
        assert(decimal(x).len() != decimal(y).len());
    }
}

proof fn lemma_slugs_upto_len(bases: Seq<Seq<char>>, n: int)
    requires
        0 <= n <= bases.len(),
    ensures
        slugs_upto(bases, n).len() == n,
    decreases n,
{
    if n > 0 {
        lemma_slugs_upto_len(bases, n - 1);
    }
}

/// The first `n` slugs depend on the first `n` base slugs alone.
proof fn lemma_slugs_upto_prefix(b1: Seq<Seq<char>>, b2: Seq<Seq<char>>, n: int)
    requires
        0 <= n <= b1.len(),
        n <= b2.len(),
        b1.take(n) == b2.take(n),
    ensures
        slugs_upto(b1, n) == slugs_upto(b2, n),
    decreases n,
{
    if n > 0 {
        assert(b1.take(n - 1) =~= b1.take(n).take(n - 1));
        assert(b2.take(n - 1) =~= b2.take(n).take(n - 1));
        lemma_slugs_upto_prefix(b1, b2, n - 1);
        assert(b1[n - 1] == b1.take(n)[n - 1]);
        assert(b2[n - 1] == b2.take(n)[n - 1]);
    }
}

/// A slug, once given, stays as more sections follow.
proof fn lemma_slugs_upto_stable(bases: Seq<Seq<char>>, n: int, m: int, i: int)
    requires
        0 <= i < n <= m <= bases.len(),
    ensures
        slugs_upto(bases, m)[i] == slugs_upto(bases, n)[i],
    decreases m,
{
    if m > n {
        lemma_slugs_upto_len(bases, m - 1);
        lemma_slugs_upto_stable(bases, n, m - 1, i);
    }
}

/// Different numbers from 1 on give different slugs.
proof fn lemma_numbered_injective(b: Seq<char>, x: nat, y: nat)
    requires
        1 <= x < y,
    ensures
        numbered(b, x) != numbered(b, y),
{
    let sx = numbered(b, x);
    let sy = numbered(b, y);
    lemma_decimal_len(y);
    if x <= 1 {
        assert(sx.len() < sy.len());
    } else if sx == sy {
        assert(sx.skip(b.len() as int + 1) =~= decimal(x));
        assert(sy.skip(b.len() as int + 1) =~= decimal(y));
        lemma_decimal_injective(x, y);
    }
}

/// Where the slug found is taken, every numbering tried is taken.
proof fn lemma_all_tried_taken(base: Seq<char>, taken: Seq<Seq<char>>, k: nat, fuel: nat)
    requires
        taken.contains(free_slug(base, taken, k, fuel)),
    ensures
        forall|m: nat| k <= m <= k + fuel ==> taken.contains(#[trigger] numbered(base, m)),
    decreases fuel,
{
    if fuel > 0 && taken.contains(numbered(base, k)) {
        lemma_all_tried_taken(base, taken, k + 1, (fuel - 1) as nat);
        assert forall|m: nat| k <= m <= k + fuel implies taken.contains(
            #[trigger] numbered(base, m),
        ) by {
            if m > k {
                assert(k + 1 <= m <= (k + 1) + (fuel - 1));
            }
        }
    }
}

/// With at least as many tries as slugs taken, the slug found is free: of
/// `fuel + 1` different numberings, not all can be taken.
proof fn lemma_free_slug_is_free(base: Seq<char>, taken: Seq<Seq<char>>, k: nat, fuel: nat)
    requires
        k >= 1,
        fuel >= taken.len(),
    ensures
        !taken.contains(free_slug(base, taken, k, fuel)),
{
    if taken.contains(free_slug(base, taken, k, fuel)) {
        lemma_all_tried_taken(base, taken, k, fuel);
        let cands = Seq::new((fuel + 1) as nat, |i: int| numbered(base, (k + i) as nat));
        assert forall|a: int, b: int| 0 <= a < cands.len() && 0 <= b < cands.len() && a != b
            implies cands[a] != cands[b] by {
            if a < b {
                lemma_numbered_injective(base, (k + a) as nat, (k + b) as nat);
            } else {
                lemma_numbered_injective(base, (k + b) as nat, (k + a) as nat);
            }
        }
        assert(cands.no_duplicates());
        cands.unique_seq_to_set();
        assert forall|x: Seq<char>| cands.to_set().contains(x) implies taken.to_set().contains(
            x,
        ) by {
            let i = choose|i: int| 0 <= i < cands.len() && cands[i] == x;
            assert(taken.contains(numbered(base, (k + i) as nat)));
        }
        taken.lemma_cardinality_of_set();
        vstd::set_lib::lemma_len_subset(cands.to_set(), taken.to_set());
        assert(false);
    }
}

/// Every section gets a slug of its own, so that no two sections of the
/// instructions file render to the same rule file.
pub proof fn law_slugs_distinct(content: Seq<char>, i: int, j: int)
    requires
        0 <= i < j < kept_sections(content).len(),
    ensures
        claude_md_section(kept_sections(content), i).slug != claude_md_section(
            kept_sections(content),
            j,
        ).slug,
{
    let bases = bases_of(kept_sections(content));
    let prev = slugs_upto(bases, j);
    lemma_slugs_upto_len(bases, j);
    lemma_slugs_upto_stable(bases, i + 1, j, i);
    assert(prev[i] == dedup_slug(bases, i));
    assert(prev.contains(prev[i]));
    let c = count_in(bases.take(j + 1), bases[j]);
    assert(bases.take(j + 1).last() == bases[j]);
    assert(c >= 1);
    lemma_free_slug_is_free(bases[j], prev, c, prev.len());
}

proof fn lemma_titled_from_titled(ls: Seq<Seq<char>>, i: int)
    ensures
        forall|k: int|
            0 <= k < titled_from(ls, i).len() ==> (#[trigger] titled_from(ls, i)[k]).0 is Some,
    decreases ls.len() - i,
{
    if 0 <= i < ls.len() {
        let j = next_h2(ls, i + 1);
        if !(j <= i || j > ls.len()) {
            lemma_titled_from_titled(ls, j);
            let t = titled_from(ls, i);
            assert forall|k: int| 0 <= k < t.len() implies (#[trigger] t[k]).0 is Some by {
                if k > 0 {
                    assert(t[k] == titled_from(ls, j)[k - 1]);
                }
            }
        }
    }
}

proof fn lemma_kept_untitled_first(raws: Seq<(Option<Seq<char>>, Seq<char>)>, n: int)
    requires
        forall|m: int| 0 < m < raws.len() ==> (#[trigger] raws[m]).0 is Some,
    ensures
        forall|k: int|
            0 <= k < kept_upto(raws, n).len() && (#[trigger] kept_upto(raws, n)[k]).0 is None
                ==> k == 0,
    decreases n,
{
    if 0 < n <= raws.len() {
        lemma_kept_untitled_first(raws, n - 1);
        if n - 1 > 0 {
            assert(raws[n - 1].0 is Some);
        }
        let rest = kept_upto(raws, n - 1);
        let now = kept_upto(raws, n);
        assert forall|k: int| 0 <= k < now.len() && (#[trigger] now[k]).0 is None implies k
            == 0 by {
            if k < rest.len() {
                assert(now[k] == rest[k]);
            } else {
                assert(raws[n - 1].0 is None);
                assert(n - 1 == 0);
                assert(rest.len() == 0);
            }
        }
    }
}

/// Only the first section can be untitled: the text before the first
/// heading, which gets the slug `_project`.
pub proof fn law_only_first_section_untitled(content: Seq<char>, i: int)
    requires
        0 <= i < kept_sections(content).len(),
        claude_md_section(kept_sections(content), i).title is None,
    ensures
        i == 0,
        kept_sections(content)[i].1 == project_slug(),
{
    let raws = h2_sections(content);
    let ls = lines(content);
    let k = next_h2(ls, 0);
    lemma_titled_from_titled(ls, k);
    let pre = preamble_upto(ls, k);
    let first: Seq<(Option<Seq<char>>, Seq<char>)> = if trim(pre).len() > 0 {
        seq![(None, pre)]
    } else {
        Seq::empty()
    };
    assert forall|m: int| 0 < m < raws.len() implies (#[trigger] raws[m]).0 is Some by {
        if first.len() == 1 {
            assert(raws[m] == titled_from(ls, k)[m - 1]);
        } else {
            assert(raws[m] == titled_from(ls, k)[m]);
        }
    }
    lemma_kept_untitled_first(raws, raws.len() as int);
    lemma_kept_entry(raws, raws.len() as int, i);
}

/// Every section's body is trimmed and not empty: blank sections are
/// dropped.
pub proof fn law_section_bodies_trimmed(content: Seq<char>, i: int)
    requires
        0 <= i < kept_sections(content).len(),
    ensures
        claude_md_section(kept_sections(content), i).body.len() > 0,
        trim(claude_md_section(kept_sections(content), i).body) == claude_md_section(
            kept_sections(content),
            i,
        ).body,
{
    let raws = h2_sections(content);
    lemma_kept_entry(raws, raws.len() as int, i);
    let m = choose|m: int|
        0 <= m < raws.len() && m < raws.len() && #[trigger] raws[m].0 == kept_sections(content)[i].0
            && kept_sections(content)[i].2 == trim(section_frontmatter(raws[m].1).1)
            && kept_sections(content)[i].3 == section_frontmatter(raws[m].1).0;
    crate::text::lemma_trim_idempotent(section_frontmatter(raws[m].1).1);
}

/// Each kept section is some raw section, with its base slug, a body that
/// is trimmed and not empty, and the overrides of its header.
proof fn lemma_kept_entry(raws: Seq<(Option<Seq<char>>, Seq<char>)>, n: int, i: int)
    requires
        0 <= i < kept_upto(raws, n).len(),
    ensures
        kept_upto(raws, n)[i].1 == base_slug(kept_upto(raws, n)[i].0),
        kept_upto(raws, n)[i].2.len() > 0,
        exists|m: int|
            0 <= m < n && m < raws.len() && #[trigger] raws[m].0 == kept_upto(raws, n)[i].0
                && kept_upto(raws, n)[i].2 == trim(section_frontmatter(raws[m].1).1)
                && kept_upto(raws, n)[i].3 == section_frontmatter(raws[m].1).0,
    decreases n,
{
    if 0 < n <= raws.len() {
        let rest = kept_upto(raws, n - 1);
        if i < rest.len() {
            assert(kept_upto(raws, n)[i] == rest[i]);
            lemma_kept_entry(raws, n - 1, i);
        } else {
            assert(raws[n - 1].0 == kept_upto(raws, n)[i].0);
        }
    }
}

} // verus!
