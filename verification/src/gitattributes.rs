//! The section of `.gitattributes` that marks generated files as
//! `linguist-generated`, between a BEGIN and an END line.
use vstd::prelude::*;

use crate::path::{
    after_piece, body_start, has_cur_dir, has_root, is_blank_piece, lemma_piece_end, lemma_skip_blank,
    piece_end, piece_end_exec, skip_blank, skip_blank_exec,
};
use crate::text::{
    chars_of, find_sub, find_sub_exec, find_sub_from, join_exec, join_with, lemma_find_sub_from,
    occurs_at, push_str, slice_chars, string_of,
};

verus! {

/// The first line of the managed section.
pub open spec fn section_begin() -> Seq<char> {
    "# BEGIN generated-by: agentic-sync"@
}

/// The last line of the managed section.
pub open spec fn section_end() -> Seq<char> {
    "# END generated-by: agentic-sync"@
}

/// Matches the components of `root` from `j` on against those of `file`
/// from `i` on, in order, pieces that name no component skipped. Where
/// `root`'s run out, the index in `file` where the rest starts (past any
/// pieces that name no component); `None` where they differ or `file`'s run
/// out first.
pub open spec fn match_from(file: Seq<char>, i: int, root: Seq<char>, j: int) -> Option<int>
    decreases root.len() - j via match_from_decreases
{
    let i2 = skip_blank(file, i);
    let j2 = skip_blank(root, j);
    if j2 >= root.len() {
        Some(i2)
    } else if i2 >= file.len() {
        None
    } else if file.subrange(i2, piece_end(file, i2)) != root.subrange(j2, piece_end(root, j2)) {
        None
    } else if piece_end(root, j2) <= j || j < 0 {
        None
    } else {
        match_from(file, piece_end(file, i2), root, piece_end(root, j2))
    }
}

/// The last `/` of `s` in `lo..hi`.
pub open spec fn last_sep(s: Seq<char>, lo: int, hi: int) -> Option<int>
    decreases hi - lo,
{
    if hi <= lo {
        None
    } else if s[hi - 1] == '/' {
        Some(hi - 1)
    } else {
        last_sep(s, lo, hi - 1)
    }
}

/// The end of the path `s[lo..hi]` once trailing pieces that name no
/// component (a trailing `/`, a trailing `.`) are dropped, each with the
/// `/` before it.
pub open spec fn trim_end(s: Seq<char>, lo: int, hi: int) -> int
    decreases hi via trim_end_decreases
{
    if hi <= lo || hi > s.len() || lo < 0 {
        hi
    } else {
        let start = match last_sep(s, lo, hi) {
            Some(k) => k + 1,
            None => lo,
        };
        let cut = match last_sep(s, lo, hi) {
            Some(k) => k,
            None => lo,
        };
        if (hi == start || (hi == start + 1 && s[start] == '.')) && cut < hi {
            trim_end(s, lo, cut)
        } else {
            hi
        }
    }
}

#[via_fn]
proof fn match_from_decreases(file: Seq<char>, i: int, root: Seq<char>, j: int) {
    let j2 = skip_blank(root, j);
    if 0 <= j <= root.len() {
        lemma_skip_blank(root, j);
        if j2 < root.len() {
            lemma_piece_end(root, j2);
        }
    }
}

#[via_fn]
proof fn trim_end_decreases(s: Seq<char>, lo: int, hi: int) {
    lemma_last_sep(s, lo, hi);
}

/// A path relative to `root`, as `Path::strip_prefix` gives it on Unix:
/// `file`'s components must start with `root`'s (`/` and a leading `.`
/// count as components; repeated `/` and other `.` pieces name none), and
/// the rest of `file` follows, without the pieces that name no component at
/// its two ends. An empty `root` takes nothing off, and then only the end is
/// trimmed. `None` for a path outside `root`.
pub open spec fn strip_root(file: Seq<char>, root: Seq<char>) -> Option<Seq<char>> {
    if root.len() == 0 {
        Some(file.take(trim_end(file, body_start(file), file.len() as int)))
    } else if has_root(file) != has_root(root) || has_cur_dir(file) != has_cur_dir(root) {
        None
    } else {
        match match_from(file, body_start(file), root, body_start(root)) {
            None => None,
            Some(i) => Some(file.subrange(i, trim_end(file, i, file.len() as int))),
        }
    }
}

/// `\` written as `/`.
pub open spec fn forward_slash(c: char) -> char {
    if c == '\\' {
        '/'
    } else {
        c
    }
}

/// The attribute line of a relative path.
pub open spec fn attr_line(rel: Seq<char>) -> Seq<char> {
    rel.map_values(|c: char| forward_slash(c)) + " linguist-generated=true"@
}

/// The attribute lines of the first `n` files that lie under `root`.
pub open spec fn attr_lines_upto(root: Seq<char>, files: Seq<Seq<char>>, n: int) -> Seq<Seq<char>>
    decreases n,
{
    if n <= 0 || n > files.len() {
        Seq::empty()
    } else {
        let rest = attr_lines_upto(root, files, n - 1);
        match strip_root(files[n - 1], root) {
            Some(rel) => rest.push(attr_line(rel)),
            None => rest,
        }
    }
}

/// The managed section for the files `files` of the project at `root`: the
/// BEGIN line, an attribute line per file under `root`, and the END line,
/// joined by newlines.
pub open spec fn desired(root: Seq<char>, files: Seq<Seq<char>>) -> Seq<char> {
    join_with(
        seq![section_begin()] + attr_lines_upto(root, files, files.len() as int) + seq![
            section_end(),
        ],
        "\n"@,
    )
}

/// The managed section found in `content`: from the first BEGIN line to the
/// first END line after it.
pub open spec fn extracted(content: Seq<char>) -> Option<Seq<char>> {
    match find_sub(content, section_begin()) {
        None => None,
        Some(b) => match find_sub(content.skip(b), section_end()) {
            None => None,
            Some(o) => Some(content.subrange(b, b + o + section_end().len())),
        },
    }
}

/// `existing` with its managed section replaced by `section`: the old
/// section and one newline after it give way to `section` and a newline; a
/// BEGIN without an END is replaced up to the end; where there is no
/// section, `section` and a newline are appended after a blank line.
pub open spec fn replaced(existing: Seq<char>, section: Seq<char>) -> Seq<char> {
    match find_sub(existing, section_begin()) {
        Some(b) => match find_sub(existing.skip(b), section_end()) {
            Some(o) => {
                let end = b + o + section_end().len();
                let after = if end < existing.len() && existing[end] == '\n' {
                    end + 1
                } else {
                    end
                };
                existing.take(b) + section + "\n"@ + existing.skip(after)
            },
            None => existing.take(b) + section + "\n"@,
        },
        None => if existing.len() == 0 {
            section + "\n"@
        } else {
            let sep = if existing.last() == '\n' {
                "\n"@
            } else {
                "\n\n"@
            };
            existing + sep + section + "\n"@
        },
    }
}

proof fn lemma_last_sep(s: Seq<char>, lo: int, hi: int)
    ensures
        last_sep(s, lo, hi) matches Some(k) ==> lo <= k < hi,
    decreases hi - lo,
{
    if hi > lo && s[hi - 1] != '/' {
        lemma_last_sep(s, lo, hi - 1);
    }
}

proof fn lemma_trim_end(s: Seq<char>, lo: int, hi: int)
    requires
        0 <= lo <= hi <= s.len(),
    ensures
        lo <= trim_end(s, lo, hi) <= hi,
    decreases hi,
{
    lemma_last_sep(s, lo, hi);
    if hi > lo {
        let cut = match last_sep(s, lo, hi) {
            Some(k) => k,
            None => lo,
        };
        if cut < hi {
            lemma_trim_end(s, lo, cut);
        }
    }
}

/// The components of `root` matched against those of `file`, as
/// `match_from` says.
fn match_from_exec(file: &Vec<char>, i0: usize, root: &Vec<char>, j0: usize) -> (res: Option<usize>)
    requires
        i0 <= file.len(),
        j0 <= root.len(),
    ensures
        match res {
            Some(k) => k <= file.len() && match_from(file@, i0 as int, root@, j0 as int) == Some(
                k as int,
            ),
            None => match_from(file@, i0 as int, root@, j0 as int) is None,
        },
{
    let mut i = i0;
    let mut j = j0;
    loop
        invariant
            i <= file.len(),
            j <= root.len(),
            match_from(file@, i0 as int, root@, j0 as int) == match_from(
                file@,
                i as int,
                root@,
                j as int,
            ),
        decreases root.len() - j,
    {
        let i2 = skip_blank_exec(file, i);
        let j2 = skip_blank_exec(root, j);
        if j2 >= root.len() {
            return Some(i2);
        }
        if i2 >= file.len() {
            return None;
        }
        let pf = piece_end_exec(file, i2);
        let pr = piece_end_exec(root, j2);
        let a = slice_chars(file, i2, pf);
        let b = slice_chars(root, j2, pr);
        if !crate::text::chars_eq(&a, &b) {
            return None;
        }
        if pr <= j {
            return None;
        }
        i = pf;
        j = pr;
    }
}

/// The last `/` in `lo..hi`, as `last_sep` says.
fn last_sep_exec(s: &Vec<char>, lo: usize, hi: usize) -> (res: Option<usize>)
    requires
        lo <= hi <= s.len(),
    ensures
        match res {
            Some(k) => last_sep(s@, lo as int, hi as int) == Some(k as int),
            None => last_sep(s@, lo as int, hi as int) is None,
        },
{
    let mut h = hi;
    while h > lo && s[h - 1] != '/'
        invariant
            lo <= h <= hi <= s.len(),
            last_sep(s@, lo as int, hi as int) == last_sep(s@, lo as int, h as int),
        decreases h,
    {
        h = h - 1;
    }
    if h > lo {
        Some(h - 1)
    } else {
        None
    }
}

/// The end once trailing blank pieces are dropped, as `trim_end` says.
fn trim_end_exec(s: &Vec<char>, lo: usize, hi0: usize) -> (res: usize)
    requires
        lo <= hi0 <= s.len(),
    ensures
        res == trim_end(s@, lo as int, hi0 as int),
        lo <= res <= hi0,
{
    proof {
        lemma_trim_end(s@, lo as int, hi0 as int);
    }
    let mut hi = hi0;
    loop
        invariant
            lo <= hi <= hi0 <= s.len(),
            trim_end(s@, lo as int, hi0 as int) == trim_end(s@, lo as int, hi as int),
        decreases hi,
    {
        if hi <= lo {
            return hi;
        }
        let ls = last_sep_exec(s, lo, hi);
        proof {
            lemma_last_sep(s@, lo as int, hi as int);
        }
        let (start, cut) = match ls {
            Some(k) => (k + 1, k),
            None => (lo, lo),
        };
        if (hi == start || (hi == start + 1 && s[start] == '.')) && cut < hi {
            hi = cut;
        } else {
            return hi;
        }
    }
}

/// A path relative to the project root, as `strip_root` says.
fn strip_root_exec(file: &Vec<char>, root: &Vec<char>) -> (res: Option<Vec<char>>)
    ensures
        crate::text::opt_chars(res) == strip_root(file@, root@),
{
    let f_root = file.len() > 0 && file[0] == '/';
    let r_root = root.len() > 0 && root[0] == '/';
    let f_cur = !f_root && file.len() > 0 && file[0] == '.' && (file.len() == 1 || file[1] == '/');
    let r_cur = !r_root && root.len() > 0 && root[0] == '.' && (root.len() == 1 || root[1] == '/');
    let f_start: usize = if f_root || f_cur {
        1
    } else {
        0
    };
    let r_start: usize = if r_root || r_cur {
        1
    } else {
        0
    };
    if root.len() == 0 {
        let hi = trim_end_exec(file, f_start, file.len());
        let v = slice_chars(file, 0, hi);
        assert(v@ =~= file@.take(hi as int));
        return Some(v);
    }
    if f_root != r_root || f_cur != r_cur {
        return None;
    }
    match match_from_exec(file, f_start, root, r_start) {
        None => None,
        Some(i) => {
            let hi = trim_end_exec(file, i, file.len());
            Some(slice_chars(file, i, hi))
        },
    }
}

/// The attribute line of a relative path, as `attr_line` says.
fn attr_line_exec(rel: &Vec<char>) -> (res: String)
    ensures
        res@ == attr_line(rel@),
{
    let mut s = String::new();
    let mut i: usize = 0;
    while i < rel.len()
        invariant
            i <= rel.len(),
            s@ == rel@.take(i as int).map_values(|c: char| forward_slash(c)),
        decreases rel.len() - i,
    {
        let c = rel[i];
        crate::text::push_char(&mut s, if c == '\\' { '/' } else { c });
        assert(rel@.take(i + 1).map_values(|c: char| forward_slash(c)) =~= rel@.take(
            i as int,
        ).map_values(|c: char| forward_slash(c)).push(forward_slash(c)));
        i = i + 1;
    }
    assert(rel@.take(rel.len() as int) =~= rel@);
    push_str(&mut s, " linguist-generated=true");
    s
}

/// The managed section for the files of the project at `root`: the BEGIN
/// line, `<path> linguist-generated=true` for each file under `root` (its
/// path relative to `root`, with `/` for `\`), and the END line.
pub fn desired_section(root: &str, files: &[String]) -> (res: String)
    ensures
        res@ == desired(root@, files.deep_view()),
{
    let r = chars_of(root);
    let mut lines: Vec<String> = Vec::new();
    lines.push(String::from_str("# BEGIN generated-by: agentic-sync"));
    let mut i: usize = 0;
    while i < files.len()
        invariant
            i <= files.len(),
            r@ == root@,
            lines.deep_view() == seq![section_begin()] + attr_lines_upto(
                root@,
                files.deep_view(),
                i as int,
            ),
        decreases files.len() - i,
    {
        let f = chars_of(files[i].as_str());
        assert(files.deep_view()[i as int] == f@);
        let ghost before = lines.deep_view();
        match strip_root_exec(&f, &r) {
            Some(rel) => {
                let line = attr_line_exec(&rel);
                lines.push(line);
                assert(lines.deep_view() =~= before.push(attr_line(rel@)));
            },
            None => {},
        }
        assert(lines.deep_view() =~= seq![section_begin()] + attr_lines_upto(
            root@,
            files.deep_view(),
            i + 1,
        ));
        i = i + 1;
    }
    let ghost before = lines.deep_view();
    lines.push(String::from_str("# END generated-by: agentic-sync"));
    assert(lines.deep_view() =~= before.push(section_end()));
    assert(lines.deep_view() =~= seq![section_begin()] + attr_lines_upto(
        root@,
        files.deep_view(),
        files.len() as int,
    ) + seq![section_end()]);
    join_exec(&lines, "\n")
}

/// The managed section of `content`, as `extracted` says.
pub fn extract_section(content: &str) -> (res: Option<String>)
    ensures
        res.deep_view() == extracted(content@),
{
    let c = chars_of(content);
    let bv = chars_of("# BEGIN generated-by: agentic-sync");
    let ev = chars_of("# END generated-by: agentic-sync");
    proof {
        lemma_find_sub_from(c@, bv@, 0);
    }
    match find_sub_exec(&c, &bv, 0) {
        None => None,
        Some(b) => {
            let tail = slice_chars(&c, b, c.len());
            assert(tail@ =~= c@.skip(b as int));
            proof {
                lemma_find_sub_from(tail@, ev@, 0);
            }
            match find_sub_exec(&tail, &ev, 0) {
                None => None,
                Some(o) => {
                    let s = slice_chars(&c, b, b + o + ev.len());
                    Some(string_of(&s))
                },
            }
        },
    }
}

/// `existing` with its managed section replaced by `section`, as
/// `replaced` says.
pub fn replace_section(existing: &str, section: &str) -> (res: String)
    ensures
        res@ == replaced(existing@, section@),
{
    let c = chars_of(existing);
    let bv = chars_of("# BEGIN generated-by: agentic-sync");
    let ev = chars_of("# END generated-by: agentic-sync");
    proof {
        lemma_find_sub_from(c@, bv@, 0);
    }
    match find_sub_exec(&c, &bv, 0) {
        Some(b) => {
            let tail = slice_chars(&c, b, c.len());
            assert(tail@ =~= c@.skip(b as int));
            proof {
                lemma_find_sub_from(tail@, ev@, 0);
            }
            let head = slice_chars(&c, 0, b);
            assert(head@ =~= c@.take(b as int));
            let mut out = string_of(&head);
            push_str(&mut out, section);
            push_str(&mut out, "\n");
            match find_sub_exec(&tail, &ev, 0) {
                Some(o) => {
                    let end = b + o + ev.len();
                    let after = if end < c.len() && c[end] == '\n' {
                        end + 1
                    } else {
                        end
                    };
                    let rest = slice_chars(&c, after, c.len());
                    assert(rest@ =~= c@.skip(after as int));
                    crate::text::push_chars(&mut out, &rest);
                    out
                },
                None => out,
            }
        },
        None => {
            if c.len() == 0 {
                let mut out = String::new();
                push_str(&mut out, section);
                push_str(&mut out, "\n");
                assert(out@ =~= section@ + "\n"@);
                out
            } else {
                let mut out = string_of(&c);
                if c[c.len() - 1] == '\n' {
                    push_str(&mut out, "\n");
                } else {
                    push_str(&mut out, "\n\n");
                }
                push_str(&mut out, section);
                push_str(&mut out, "\n");
                out
            }
        },
    }
}

/// Whether the text of `.gitattributes` (`None` where it cannot be read)
/// holds the managed section for the files of the project at `root`.
pub open spec fn section_in_sync(root: Seq<char>, files: Seq<Seq<char>>, content: Option<
    Seq<char>,
>) -> bool {
    match content {
        Some(c) => extracted(c) == Some(desired(root, files)),
        None => false,
    }
}

/// The new text of `.gitattributes` with the managed section for the files
/// of the project at `root`; `None` where the text would not change.
pub open spec fn gitattributes_update(root: Seq<char>, files: Seq<Seq<char>>, existing: Seq<
    char,
>) -> Option<Seq<char>> {
    let new = replaced(existing, desired(root, files));
    if new == existing {
        None
    } else {
        Some(new)
    }
}

/// Whether `.gitattributes`, with text `content`, is up to date, as
/// `section_in_sync` says.
pub fn is_in_sync_text(root: &str, files: &[String], content: Option<&str>) -> (res: bool)
    ensures
        res == section_in_sync(root@, files.deep_view(), content.deep_view()),
{
    match content {
        Some(c) => {
            let want = desired_section(root, files);
            match extract_section(c) {
                Some(found) => crate::text::str_eq(found.as_str(), want.as_str()),
                None => false,
            }
        },
        None => false,
    }
}

/// The text that brings `.gitattributes` up to date, as
/// `gitattributes_update` says; `None` where nothing is to be written.
pub fn fix_text(root: &str, files: &[String], existing: &str) -> (res: Option<String>)
    ensures
        res.deep_view() == gitattributes_update(root@, files.deep_view(), existing@),
{
    let want = desired_section(root, files);
    let new_content = replace_section(existing, want.as_str());
    if crate::text::str_eq(new_content.as_str(), existing) {
        None
    } else {
        Some(new_content)
    }
}

// ---------------------------------------------------------------------
// Laws
// ---------------------------------------------------------------------

/// A managed section as `desired` makes them: it starts with the BEGIN line
/// and the first END line in it is its end.
pub open spec fn well_formed_section(s: Seq<char>) -> bool {
    &&& occurs_at(s, section_begin(), 0)
    &&& s.len() >= section_end().len()
    &&& find_sub(s, section_end()) == Some(s.len() - section_end().len())
}

/// The first occurrence of `p` in `s` at or after `i` is at `k` when it
/// occurs at `k` and nowhere between `i` and `k`.
proof fn lemma_find_sub_first(s: Seq<char>, p: Seq<char>, i: int, k: int)
    requires
        0 <= i <= k,
        occurs_at(s, p, k),
        forall|m: int| i <= m < k ==> !#[trigger] occurs_at(s, p, m),
    ensures
        find_sub_from(s, p, i) == Some(k),
    decreases k - i,
{
    if i < k {
        assert(!occurs_at(s, p, i));
        lemma_find_sub_from(s, p, i);
        lemma_find_sub_first(s, p, i + 1, k);
    }
}

/// Where `s` stands in `replaced(e, s)`: at an index `p`, followed by a
/// newline; the first BEGIN of the result is at `p`, and the first END
/// after it is the end of `s`.
proof fn lemma_replaced_layout(e: Seq<char>, s: Seq<char>) -> (p: int)
    requires
        well_formed_section(s),
    ensures
        0 <= p,
        p + s.len() + 1 <= replaced(e, s).len(),
        replaced(e, s).subrange(p, p + s.len()) == s,
        replaced(e, s)[p + s.len()] == '\n',
        find_sub(replaced(e, s), section_begin()) == Some(p),
        find_sub(replaced(e, s).skip(p), section_end()) == Some(s.len() - section_end().len()),
{
    let r = replaced(e, s);
    let bg = section_begin();
    let en = section_end();
    reveal_strlit("\n");
    reveal_strlit("\n\n");
    reveal_strlit("# BEGIN generated-by: agentic-sync");
    lemma_find_sub_from(e, bg, 0);
    lemma_find_sub_from(s, en, 0);
    let p: int = match find_sub(e, bg) {
        Some(b) => {
            let after: int = match find_sub(e.skip(b), en) {
                Some(o) => {
                    let end = b + o + en.len();
                    if end < e.len() && e[end] == '\n' {
                        end + 1
                    } else {
                        end
                    }
                },
                None => e.len() as int,
            };
            lemma_find_sub_from(e.skip(b), en, 0);
            if find_sub(e.skip(b), en) is Some {
                assert(r =~= e.take(b) + s + "\n"@ + e.skip(after));
            } else {
                assert(e.skip(e.len() as int) =~= Seq::<char>::empty());
                assert(r =~= e.take(b) + s + "\n"@ + e.skip(after));
            }
            assert forall|m: int| 0 <= m < b implies !#[trigger] occurs_at(r, bg, m) by {
                if occurs_at(r, bg, m) {
                    assert forall|t: int| 0 <= t < bg.len() implies #[trigger] r.subrange(
                        m,
                        m + bg.len(),
                    )[t] == e.subrange(m, m + bg.len())[t] by {
                        if m + t >= b {
                            assert(r[m + t] == s[m + t - b]);
                            assert(s.subrange(0, bg.len() as int)[m + t - b] == bg[m + t - b]);
                            assert(e.subrange(b, b + bg.len())[m + t - b] == bg[m + t - b]);
                        }
                    }
                    assert(e.subrange(m, m + bg.len()) =~= r.subrange(m, m + bg.len()));
                    assert(occurs_at(e, bg, m));
                    assert(false);
                }
            }
            b
        },
        None => {
            let q: int = if e.len() == 0 {
                0
            } else if e.last() == '\n' {
                e.len() as int + 1
            } else {
                e.len() as int + 2
            };
            if e.len() == 0 {
                assert(r =~= s + "\n"@);
            } else if e.last() == '\n' {
                assert(r =~= e + "\n"@ + s + "\n"@);
            } else {
                assert(r =~= e + "\n\n"@ + s + "\n"@);
            }
            assert forall|j: int| e.len() <= j < q implies #[trigger] r[j] == '\n' by {}
            assert forall|m: int| 0 <= m < q implies !#[trigger] occurs_at(r, bg, m) by {
                if occurs_at(r, bg, m) {
                    if m + bg.len() <= e.len() {
                        assert(e.subrange(m, m + bg.len()) =~= r.subrange(m, m + bg.len()));
                        assert(occurs_at(e, bg, m));
                        assert(false);
                    } else {
                        let j = if m >= e.len() {
                            m
                        } else {
                            e.len() as int
                        };
                        assert(r[j] == '\n');
                        assert(r.subrange(m, m + bg.len())[j - m] == bg[j - m]);
                    }
                }
            }
            q
        },
    };
    assert(r.subrange(p, p + s.len()) =~= s);
    assert(occurs_at(r, bg, p)) by {
        assert(r.subrange(p, p + bg.len()) =~= s.subrange(0, bg.len() as int));
    }
    lemma_find_sub_first(r, bg, 0, p);
    let k = s.len() - en.len();
    assert(occurs_at(r.skip(p), en, k)) by {
        assert(r.skip(p).subrange(k, k + en.len()) =~= s.subrange(k, k + en.len()));
    }
    assert forall|m: int| 0 <= m < k implies !#[trigger] occurs_at(r.skip(p), en, m) by {
        if occurs_at(r.skip(p), en, m) {
            assert forall|t: int| 0 <= t < en.len() implies #[trigger] s.subrange(
                m,
                m + en.len(),
            )[t] == r.skip(p).subrange(m, m + en.len())[t] by {
                assert(r.subrange(p, p + s.len())[m + t] == s[m + t]);
            }
            assert(s.subrange(m, m + en.len()) =~= r.skip(p).subrange(m, m + en.len()));
            assert(occurs_at(s, en, m));
            assert(false);
        }
    }
    lemma_find_sub_first(r.skip(p), en, 0, k);
    p
}

/// Writing a managed section into a file's text and reading it back gives
/// the section: after `replace_section(existing, section)`, the section
/// that `extract_section` finds is `section`, whatever `existing` held.
pub proof fn law_replace_then_extract(existing: Seq<char>, section: Seq<char>)
    requires
        well_formed_section(section),
    ensures
        extracted(replaced(existing, section)) == Some(section),
{
    let p = lemma_replaced_layout(existing, section);
    let r = replaced(existing, section);
    assert(r.subrange(p, p + (section.len() - section_end().len()) + section_end().len())
        =~= section);
}

/// Replacing a managed section twice with the same section changes nothing
/// the second time.
pub proof fn law_replace_idempotent(existing: Seq<char>, section: Seq<char>)
    requires
        well_formed_section(section),
    ensures
        replaced(replaced(existing, section), section) == replaced(existing, section),
{
    let p = lemma_replaced_layout(existing, section);
    let r = replaced(existing, section);
    lemma_replace_at(r, section, p);
}

/// `replaced` of a text that holds the well-formed `s` at `p`, first BEGIN
/// there, followed by a newline, is that text.
proof fn lemma_replace_at(r: Seq<char>, s: Seq<char>, p: int)
    requires
        well_formed_section(s),
        0 <= p,
        p + s.len() + 1 <= r.len(),
        r.subrange(p, p + s.len()) == s,
        r[p + s.len()] == '\n',
        find_sub(r, section_begin()) == Some(p),
        find_sub(r.skip(p), section_end()) == Some(s.len() - section_end().len()),
    ensures
        replaced(r, s) == r,
{
    reveal_strlit("\n");
    let end = p + s.len();
    assert(replaced(r, s) == r.take(p) + s + "\n"@ + r.skip(end + 1));
    assert(r =~= r.take(p) + s + "\n"@ + r.skip(end + 1));
}

/// The attribute lines of all files under `root`.
pub open spec fn attr_lines(root: Seq<char>, files: Seq<Seq<char>>) -> Seq<Seq<char>> {
    attr_lines_upto(root, files, files.len() as int)
}

proof fn lemma_join_prefix(ls: Seq<Seq<char>>)
    requires
        ls.len() > 0,
    ensures
        join_with(ls, "\n"@).len() >= ls[0].len(),
        join_with(ls, "\n"@).take(ls[0].len() as int) == ls[0],
    decreases ls.len(),
{
    if ls.len() > 1 {
        lemma_join_prefix(ls.drop_last());
        let j = join_with(ls.drop_last(), "\n"@);
        assert(join_with(ls, "\n"@).take(ls[0].len() as int) =~= j.take(ls[0].len() as int));
    }
}

proof fn lemma_no_end_in_join(ls: Seq<Seq<char>>)
    requires
        forall|k: int| 0 <= k < ls.len() ==> (find_sub(#[trigger] ls[k], section_end()) is None),
    ensures
        forall|m: int| !#[trigger] occurs_at(join_with(ls, "\n"@), section_end(), m),
    decreases ls.len(),
{
    let en = section_end();
    reveal_strlit("\n");
    reveal_strlit("# END generated-by: agentic-sync");
    assert(forall|t: int| 0 <= t < en.len() ==> en[t] != '\n');
    if ls.len() == 1 {
        lemma_find_sub_from(ls[0], en, 0);
        assert(join_with(ls, "\n"@) == ls[0]);
    } else if ls.len() > 1 {
        let init = ls.drop_last();
        assert forall|k: int| 0 <= k < init.len() implies (find_sub(#[trigger] init[k], en)
            is None) by {
            assert(init[k] == ls[k]);
        }
        lemma_no_end_in_join(init);
        let a = join_with(init, "\n"@);
        let l = ls.last();
        lemma_find_sub_from(l, en, 0);
        let j = join_with(ls, "\n"@);
        assert(j =~= a + "\n"@ + l);
        assert forall|m: int| !#[trigger] occurs_at(j, en, m) by {
            if occurs_at(j, en, m) {
                if m + en.len() <= a.len() {
                    assert(j.subrange(m, m + en.len()) =~= a.subrange(m, m + en.len()));
                    assert(occurs_at(a, en, m));
                } else if m <= a.len() {
                    assert(j[a.len() as int] == '\n');
                    assert(j.subrange(m, m + en.len())[a.len() - m] == en[a.len() - m]);
                } else {
                    let o = m - a.len() - 1;
                    assert(j.subrange(m, m + en.len()) =~= l.subrange(o, o + en.len()));
                    assert(occurs_at(l, en, o));
                }
            }
        }
    }
}

/// The section built from attribute lines none of which holds the END line
/// is well formed.
proof fn lemma_desired_well_formed(root: Seq<char>, files: Seq<Seq<char>>)
    requires
        forall|k: int|
            0 <= k < attr_lines(root, files).len() ==> (find_sub(
                #[trigger] attr_lines(root, files)[k],
                section_end(),
            ) is None),
    ensures
        well_formed_section(desired(root, files)),
{
    let bg = section_begin();
    let en = section_end();
    let x = seq![bg] + attr_lines(root, files);
    let ls = x + seq![en];
    reveal_strlit("\n");
    reveal_strlit("# END generated-by: agentic-sync");
    reveal_strlit("# BEGIN generated-by: agentic-sync");
    assert(ls.drop_last() =~= x);
    let a = join_with(x, "\n"@);
    let d = desired(root, files);
    assert(d =~= a + "\n"@ + en);
    lemma_join_prefix(x);
    assert(d.subrange(0, bg.len() as int) =~= a.take(bg.len() as int));
    assert(bg.subrange(0, en.len() as int)[2] != en[2]);
    assert(bg.subrange(1, 1 + en.len() as int)[0] != en[0]);
    assert(bg.subrange(2, 2 + en.len() as int)[0] != en[0]);
    assert(!occurs_at(bg, en, 0));
    assert(!occurs_at(bg, en, 1));
    assert(!occurs_at(bg, en, 2));
    assert forall|m: int| !occurs_at(bg, en, m) by {
        if 0 <= m && m + en.len() <= bg.len() {
            assert(m == 0 || m == 1 || m == 2);
        }
    }
    lemma_find_sub_from(bg, en, 0);
    assert forall|k: int| 0 <= k < x.len() implies (find_sub(#[trigger] x[k], en) is None) by {
        if k > 0 {
            assert(x[k] == attr_lines(root, files)[k - 1]);
        }
    }
    lemma_no_end_in_join(x);
    let k = d.len() - en.len();
    assert(d.subrange(k, k + en.len()) =~= en);
    assert forall|m: int| 0 <= m < k implies !#[trigger] occurs_at(d, en, m) by {
        if occurs_at(d, en, m) {
            if m + en.len() <= a.len() {
                assert(d.subrange(m, m + en.len()) =~= a.subrange(m, m + en.len()));
                assert(occurs_at(a, en, m));
            } else {
                assert(d[a.len() as int] == '\n');
                assert(d.subrange(m, m + en.len())[a.len() - m] == en[a.len() - m]);
            }
        }
    }
    lemma_find_sub_first(d, en, 0, k);
}

/// After a fix, `.gitattributes` is in sync, and a second fix writes
/// nothing (for files none of whose paths holds the END line).
pub proof fn law_fix_then_nothing_to_do(existing: Seq<char>, root: Seq<char>, files: Seq<Seq<char>>)
    requires
        forall|k: int| 0 <= k < files.len() ==> (find_sub(#[trigger] files[k], section_end()) is None),
    ensures
        section_in_sync(root, files, Some(replaced(existing, desired(root, files)))),
        gitattributes_update(root, files, replaced(existing, desired(root, files))) is None,
{
    law_desired_section_well_formed(root, files);
    law_replace_then_extract(existing, desired(root, files));
    law_replace_idempotent(existing, desired(root, files));
}

/// Where the matching of components ends, it ends inside `file`.
proof fn lemma_match_from(file: Seq<char>, i: int, root: Seq<char>, j: int)
    requires
        0 <= i <= file.len(),
        0 <= j <= root.len(),
    ensures
        match_from(file, i, root, j) matches Some(k) ==> 0 <= k <= file.len(),
    decreases root.len() - j,
{
    lemma_skip_blank(file, i);
    lemma_skip_blank(root, j);
    let i2 = skip_blank(file, i);
    let j2 = skip_blank(root, j);
    if j2 < root.len() && i2 < file.len() {
        lemma_piece_end(file, i2);
        lemma_piece_end(root, j2);
        if piece_end(root, j2) > j {
            lemma_match_from(file, piece_end(file, i2), root, piece_end(root, j2));
        }
    }
}

/// A relative path is a stretch of the path it was taken from.
proof fn lemma_strip_root_within(file: Seq<char>, root: Seq<char>) -> (r: (int, int))
    requires
        strip_root(file, root) is Some,
    ensures
        0 <= r.0 <= r.1 <= file.len(),
        strip_root(file, root) == Some(file.subrange(r.0, r.1)),
{
    if root.len() == 0 {
        lemma_trim_end(file, body_start(file), file.len() as int);
        let hi = trim_end(file, body_start(file), file.len() as int);
        assert(file.take(hi) =~= file.subrange(0, hi));
        (0, hi)
    } else {
        lemma_match_from(file, body_start(file), root, body_start(root));
        let i = match_from(file, body_start(file), root, body_start(root)).unwrap();
        lemma_trim_end(file, i, file.len() as int);
        (i, trim_end(file, i, file.len() as int))
    }
}

/// A text without `p` has no stretch that holds `p`.
proof fn lemma_no_occurrence_within(s: Seq<char>, p: Seq<char>, lo: int, hi: int)
    requires
        0 <= lo <= hi <= s.len(),
        find_sub(s, p) is None,
    ensures
        find_sub(s.subrange(lo, hi), p) is None,
{
    let t = s.subrange(lo, hi);
    lemma_find_sub_from(s, p, 0);
    lemma_find_sub_from(t, p, 0);
    if find_sub(t, p) is Some {
        let m = find_sub(t, p).unwrap();
        assert(t.subrange(m, m + p.len()) =~= s.subrange(lo + m, lo + m + p.len()));
        assert(occurs_at(s, p, lo + m));
    }
}

/// The END line holds no `/`, and no space in it is followed by `l`, nor
/// does it end with a space.
proof fn lemma_end_line_chars()
    ensures
        forall|t: int| 0 <= t < section_end().len() ==> #[trigger] section_end()[t] != '/',
        forall|t: int|
            0 <= t < section_end().len() - 1 && #[trigger] section_end()[t] == ' ' ==> section_end()[t
                + 1] != 'l',
        section_end()[section_end().len() - 1] != ' ',
        section_end().len() == 32,
{
    reveal_strlit("# END generated-by: agentic-sync");
    let en = section_end();
    assert(en =~= seq![
        '#', ' ', 'E', 'N', 'D', ' ', 'g', 'e', 'n', 'e', 'r', 'a', 't', 'e', 'd', '-', 'b', 'y', ':',
        ' ', 'a', 'g', 'e', 'n', 't', 'i', 'c', '-', 's', 'y', 'n', 'c',
    ]);
}

/// No attribute line holds the END line when its relative path does not.
proof fn lemma_attr_line_clean(rel: Seq<char>)
    requires
        find_sub(rel, section_end()) is None,
    ensures
        find_sub(attr_line(rel), section_end()) is None,
{
    let en = section_end();
    let mapped = rel.map_values(|c: char| forward_slash(c));
    let suffix = " linguist-generated=true"@;
    reveal_strlit(" linguist-generated=true");
    let line = attr_line(rel);
    assert(line =~= mapped + suffix);
    lemma_end_line_chars();
    lemma_find_sub_from(rel, en, 0);
    lemma_find_sub_from(line, en, 0);
    if find_sub(line, en) is Some {
        let m = find_sub(line, en).unwrap();
        assert(line.subrange(m, m + en.len()) == en);
        if m + en.len() <= mapped.len() {
            assert forall|t: int| 0 <= t < en.len() implies rel.subrange(m, m + en.len())[t]
                == en[t] by {
                assert(line.subrange(m, m + en.len())[t] == line[m + t]);
                assert(line[m + t] == mapped[m + t]);
                assert(en[t] != '/');
            }
            assert(rel.subrange(m, m + en.len()) =~= en);
            assert(occurs_at(rel, en, m));
        } else if m >= mapped.len() {
            assert(m + en.len() > line.len());
        } else {
            let t = mapped.len() - m;
            assert(line.subrange(m, m + en.len())[t] == line[mapped.len() as int]);
            assert(line[mapped.len() as int] == ' ');
            assert(en[t] == ' ');
            assert(line.subrange(m, m + en.len())[t + 1] == line[mapped.len() as int + 1]);
            assert(line[mapped.len() as int + 1] == 'l');
        }
    }
}

/// No attribute line holds the END line when no path does.
proof fn lemma_attr_lines_clean(root: Seq<char>, files: Seq<Seq<char>>, n: int)
    requires
        forall|k: int| 0 <= k < files.len() ==> (find_sub(#[trigger] files[k], section_end()) is None),
    ensures
        forall|k: int|
            0 <= k < attr_lines_upto(root, files, n).len() ==> (find_sub(
                #[trigger] attr_lines_upto(root, files, n)[k],
                section_end(),
            ) is None),
    decreases n,
{
    if 0 < n <= files.len() {
        lemma_attr_lines_clean(root, files, n - 1);
        let rest = attr_lines_upto(root, files, n - 1);
        let now = attr_lines_upto(root, files, n);
        if strip_root(files[n - 1], root) is Some {
            let r = lemma_strip_root_within(files[n - 1], root);
            lemma_no_occurrence_within(files[n - 1], section_end(), r.0, r.1);
            lemma_attr_line_clean(files[n - 1].subrange(r.0, r.1));
        }
        assert forall|k: int| 0 <= k < now.len() implies (find_sub(
            #[trigger] now[k],
            section_end(),
        ) is None) by {
            if k < rest.len() {
                assert(now[k] == rest[k]);
            }
        }
    }
}

/// The managed section built for the files of a project has the shape that
/// `replace_section` and `extract_section` rely on, unless a file's path
/// itself holds the END line.
pub proof fn law_desired_section_well_formed(root: Seq<char>, files: Seq<Seq<char>>)
    requires
        forall|k: int| 0 <= k < files.len() ==> (find_sub(#[trigger] files[k], section_end()) is None),
    ensures
        well_formed_section(desired(root, files)),
{
    lemma_attr_lines_clean(root, files, files.len() as int);
    lemma_desired_well_formed(root, files);
}

} // verus!
