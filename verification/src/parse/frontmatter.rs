//! The `---` fenced header that rules, skills and instruction sections may
//! start with, and the `key: value` fields and `target: key=value`
//! overrides written in it.
use vstd::prelude::*;

use crate::ir::{OverrideView, TargetOverrides};
use crate::text::{
    chars_eq, opt_chars, find_char, find_sub_from, find_char_exec, find_char_from, is_ws, lemma_back_ws_bounds,
    lemma_skip_ws_bounds, skip_ws, back_ws, find_sub, find_sub_exec, lemma_find_char_from,
    lemma_find_sub_from, lemma_skip_char_bounds, lines, lines_exec, occurs_at, occurs_at_exec, skip_char,
    skip_char_exec, slice_chars, starts_with, string_of, trim, trim_exec, trim_start,
    trim_start_char, trim_start_exec,
};

verus! {

/// A field of a header: (key, value), both trimmed.
pub type FieldView = (Seq<char>, Seq<char>);

/// The fields held in a vector of character vectors, as text.
pub open spec fn fields_view(v: Seq<(Vec<char>, Vec<char>)>) -> Seq<FieldView> {
    v.map_values(|p: (Vec<char>, Vec<char>)| (p.0@, p.1@))
}

/// The texts held in a vector of character vectors.
pub open spec fn texts_view(v: Seq<Vec<char>>) -> Seq<Seq<char>> {
    v.map_values(|x: Vec<char>| x@)
}

/// `---`
pub open spec fn fence() -> Seq<char> {
    seq!['-', '-', '-']
}

/// A newline followed by `---`: the closing fence.
pub open spec fn close_fence() -> Seq<char> {
    seq!['\n', '-', '-', '-']
}

/// Splits `s` into its header and the text after it. There is a header when
/// `s`, after leading whitespace, starts with `---`, the line of that fence
/// ends, and a later line starts with `---`. The header is the text between
/// the two fence lines; the rest starts after the closing fence's dashes and
/// one newline. `None` when there is no such header.
pub open spec fn split_frontmatter(s: Seq<char>) -> Option<(Seq<char>, Seq<char>)> {
    let t = trim_start(s);
    if !starts_with(t, fence()) {
        None
    } else {
        let after_open = trim_start_char(t.skip(3), '-');
        match find_char(after_open, '\n') {
            None => None,
            Some(i) => {
                let body = after_open.skip(i + 1);
                match find_sub(body, close_fence()) {
                    None => None,
                    Some(p) => {
                        let after_close = trim_start_char(body.skip(p + 4), '-');
                        let rest = if after_close.len() > 0 && after_close[0] == '\n' {
                            after_close.skip(1)
                        } else {
                            after_close
                        };
                        Some((body.take(p), rest))
                    },
                }
            },
        }
    }
}

/// The field written on one header line: the trimmed text before the first
/// `:` and the trimmed text after it; `None` for a line without `:`.
pub open spec fn field_of(line: Seq<char>) -> Option<FieldView> {
    let l = trim(line);
    match find_char(l, ':') {
        Some(c) => Some((trim(l.take(c)), trim(l.skip(c + 1)))),
        None => None,
    }
}

/// The fields of the first `n` lines of `ls`, in order.
pub open spec fn fields_upto(ls: Seq<Seq<char>>, n: int) -> Seq<FieldView>
    decreases n,
{
    if n <= 0 || n > ls.len() {
        Seq::empty()
    } else {
        let rest = fields_upto(ls, n - 1);
        match field_of(ls[n - 1]) {
            Some(f) => rest.push(f),
            None => rest,
        }
    }
}

/// The fields of a header, line by line.
pub open spec fn fields(header: Seq<char>) -> Seq<FieldView> {
    fields_upto(lines(header), lines(header).len() as int)
}

/// The override that a field states: its key is the target, and its value,
/// split at the first `=`, gives the trimmed key and value. `None` for a
/// value without `=`.
pub open spec fn override_of(f: FieldView) -> Option<OverrideView> {
    match find_char(f.1, '=') {
        Some(e) => Some((f.0, trim(f.1.take(e)), trim(f.1.skip(e + 1)))),
        None => None,
    }
}

/// The overrides stated by the first `n` fields of `fs` whose keys are not
/// in `known`, in order.
pub open spec fn overrides_upto(fs: Seq<FieldView>, known: Seq<Seq<char>>, n: int) -> Seq<
    OverrideView,
>
    decreases n,
{
    if n <= 0 || n > fs.len() {
        Seq::empty()
    } else {
        let rest = overrides_upto(fs, known, n - 1);
        if known.contains(fs[n - 1].0) {
            rest
        } else {
            match override_of(fs[n - 1]) {
                Some(o) => rest.push(o),
                None => rest,
            }
        }
    }
}

/// The overrides stated by the fields `fs` whose keys are not in `known`.
pub open spec fn overrides_of(fs: Seq<FieldView>, known: Seq<Seq<char>>) -> Seq<OverrideView> {
    overrides_upto(fs, known, fs.len() as int)
}

/// The value of the last field of `fs` with key `key`.
pub open spec fn last_value(fs: Seq<FieldView>, key: Seq<char>) -> Option<Seq<char>>
    decreases fs.len(),
{
    if fs.len() == 0 {
        None
    } else if fs.last().0 == key {
        Some(fs.last().1)
    } else {
        last_value(fs.drop_last(), key)
    }
}

/// Splits `v` into its header and the rest, as `split_frontmatter` says.
pub fn split_frontmatter_exec(v: &Vec<char>) -> (res: Option<(Vec<char>, Vec<char>)>)
    ensures
        match res {
            Some((h, r)) => split_frontmatter(v@) == Some((h@, r@)),
            None => split_frontmatter(v@) is None,
        },
{
    let t = trim_start_exec(v);
    let f = vec!['-', '-', '-'];
    assert(f@ =~= fence());
    if !occurs_at_exec(&t, &f, 0) {
        return None;
    }
    let a = skip_char_exec(&t, '-', 3);
    proof {
        lemma_skip_char_bounds(t@, '-', 3);
        assert(t@.skip(3).skip(skip_char(t@.skip(3), '-', 0)) =~= t@.skip(skip_char(t@, '-', 3)))
            by {
            lemma_skip_char_shift(t@, '-', 3);
        }
    }
    let after_open = slice_chars(&t, a, t.len());
    assert(after_open@ =~= trim_start_char(t@.skip(3), '-'));
    proof {
        lemma_find_char_from(after_open@, '\n', 0);
    }
    let i = match find_char_exec(&after_open, '\n', 0) {
        Some(i) => i,
        None => {
            return None;
        },
    };
    let body = slice_chars(&after_open, i + 1, after_open.len());
    assert(body@ =~= after_open@.skip(i + 1));
    let cf = vec!['\n', '-', '-', '-'];
    assert(cf@ =~= close_fence());
    proof {
        lemma_find_sub_from(body@, cf@, 0);
    }
    let p = match find_sub_exec(&body, &cf, 0) {
        Some(p) => p,
        None => {
            return None;
        },
    };
    let header = slice_chars(&body, 0, p);
    assert(header@ =~= body@.take(p as int));
    let b = skip_char_exec(&body, '-', p + 4);
    proof {
        lemma_skip_char_bounds(body@, '-', p + 4);
        lemma_skip_char_shift(body@, '-', p + 4);
    }
    let after_close = slice_chars(&body, b, body.len());
    assert(after_close@ =~= trim_start_char(body@.skip(p + 4), '-'));
    let rest = if after_close.len() > 0 && after_close[0] == '\n' {
        slice_chars(&after_close, 1, after_close.len())
    } else {
        after_close
    };
    Some((header, rest))
}

/// Skipping a character from index `i` of `s` is skipping it in the suffix
/// that starts at `i`.
pub proof fn lemma_skip_char_shift(s: Seq<char>, c: char, i: int)
    requires
        0 <= i <= s.len(),
    ensures
        skip_char(s.skip(i), c, 0) + i == skip_char(s, c, i),
{
    lemma_skip_char_shift_from(s, c, i, 0);
}

proof fn lemma_skip_char_shift_from(s: Seq<char>, c: char, i: int, k: int)
    requires
        0 <= i <= s.len(),
        0 <= k <= s.len() - i,
    ensures
        skip_char(s.skip(i), c, k) + i == skip_char(s, c, i + k),
    decreases s.len() - i - k,
{
    if k < s.len() - i && s[i + k] == c {
        lemma_skip_char_shift_from(s, c, i, k + 1);
    }
}

/// The field of one header line, as `field_of` says.
pub fn field_of_exec(line: &Vec<char>) -> (res: Option<(Vec<char>, Vec<char>)>)
    ensures
        match res {
            Some((k, v)) => field_of(line@) == Some((k@, v@)),
            None => field_of(line@) is None,
        },
{
    let l = trim_exec(line);
    proof {
        lemma_find_char_from(l@, ':', 0);
    }
    match find_char_exec(&l, ':', 0) {
        Some(c) => {
            let before = slice_chars(&l, 0, c);
            let after = slice_chars(&l, c + 1, l.len());
            assert(before@ =~= l@.take(c as int));
            assert(after@ =~= l@.skip(c + 1));
            let k = trim_exec(&before);
            let v = trim_exec(&after);
            Some((k, v))
        },
        None => None,
    }
}

/// The fields of a header, as `fields` says.
pub fn parse_fields(header: &Vec<char>) -> (res: Vec<(Vec<char>, Vec<char>)>)
    ensures
        fields_view(res@) == fields(header@),
{
    let ls = lines_exec(header);
    let ghost lsv = lines(header@);
    let mut res: Vec<(Vec<char>, Vec<char>)> = Vec::new();
    let mut i: usize = 0;
    while i < ls.len()
        invariant
            i <= ls.len(),
            ls@.len() == lsv.len(),
            forall|k: int| 0 <= k < ls@.len() ==> #[trigger] ls@[k]@ == lsv[k],
            fields_view(res@) == fields_upto(lsv, i as int),
        decreases ls.len() - i,
    {
        assert(ls@[i as int]@ == lsv[i as int]);
        match field_of_exec(&ls[i]) {
            Some(f) => {
                let ghost before = res@;
                let ghost fv = (f.0@, f.1@);
                res.push(f);
                assert(fields_view(res@) =~= fields_view(before).push(fv));
            },
            None => {},
        }
        i = i + 1;
    }
    res
}

/// The override a field states, as `override_of` says.
pub fn override_of_exec(key: &Vec<char>, value: &Vec<char>) -> (res: Option<
    (Vec<char>, Vec<char>, Vec<char>),
>)
    ensures
        match res {
            Some((t, k, v)) => override_of((key@, value@)) == Some((t@, k@, v@)),
            None => override_of((key@, value@)) is None,
        },
{
    proof {
        lemma_find_char_from(value@, '=', 0);
    }
    match find_char_exec(value, '=', 0) {
        Some(e) => {
            assert(e < value.len());
            let before = slice_chars(value, 0, e);
            let after = slice_chars(value, e + 1, value.len());
            assert(before@ =~= value@.take(e as int));
            assert(after@ =~= value@.skip(e + 1));
            let t = slice_chars(key, 0, key.len());
            assert(t@ =~= key@);
            Some((t, trim_exec(&before), trim_exec(&after)))
        },
        None => None,
    }
}

/// Whether `key` is one of `known`.
pub fn is_known(known: &Vec<Vec<char>>, key: &Vec<char>) -> (res: bool)
    ensures
        res == texts_view(known@).contains(key@),
{
    let mut i: usize = 0;
    while i < known.len()
        invariant
            i <= known.len(),
            forall|k: int| 0 <= k < i ==> texts_view(known@)[k] != key@,
        decreases known.len() - i,
    {
        if chars_eq(&known[i], key) {
            assert(texts_view(known@)[i as int] == key@);
            return true;
        }
        i = i + 1;
    }
    false
}

/// The overrides stated by the fields whose keys are not in `known`.
pub fn collect_overrides(fs: &Vec<(Vec<char>, Vec<char>)>, known: &Vec<Vec<char>>) -> (res:
    TargetOverrides)
    ensures
        res@ == overrides_of(fields_view(fs@), texts_view(known@)),
{
    let mut res = TargetOverrides::new();
    let mut i: usize = 0;
    while i < fs.len()
        invariant
            i <= fs.len(),
            res@ == overrides_upto(fields_view(fs@), texts_view(known@), i as int),
        decreases fs.len() - i,
    {
        let (k, v) = &fs[i];
        assert(fields_view(fs@)[i as int] == (k@, v@));
        if !is_known(known, k) {
            match override_of_exec(k, v) {
                Some((t, kk, vv)) => {
                    res.push(string_of(&t), string_of(&kk), string_of(&vv));
                },
                None => {},
            }
        }
        i = i + 1;
    }
    res
}

/// The value of the last field with key `key`, as `last_value` says.
pub fn last_value_exec(fs: &Vec<(Vec<char>, Vec<char>)>, key: &Vec<char>) -> (res: Option<Vec<char>>)
    ensures
        opt_chars(res) == last_value(fields_view(fs@), key@),
{
    let mut i: usize = fs.len();
    assert(fields_view(fs@).take(fs.len() as int) =~= fields_view(fs@));
    while i > 0
        invariant
            i <= fs.len(),
            last_value(fields_view(fs@), key@) == last_value(fields_view(fs@).take(i as int), key@),
        decreases i,
    {
        let (k, v) = &fs[i - 1];
        let ghost pre = fields_view(fs@).take(i as int);
        assert(pre.last() == (k@, v@));
        assert(pre.drop_last() =~= fields_view(fs@).take(i - 1));
        if chars_eq(k, key) {
            let r = slice_chars(v, 0, v.len());
            assert(r@ =~= v@);
            return Some(r);
        }
        i = i - 1;
    }
    assert(fields_view(fs@).take(0) =~= Seq::<FieldView>::empty());
    None
}

/// `last_value` finds a value exactly when some field has the key, and the
/// value it finds is that of a field with the key after which no field has
/// it.
pub proof fn lemma_last_value(fs: Seq<FieldView>, key: Seq<char>)
    ensures
        last_value(fs, key) is Some <==> exists|i: int| 0 <= i < fs.len() && (#[trigger] fs[i]).0 == key,
        last_value(fs, key) matches Some(v) ==> exists|i: int|
            0 <= i < fs.len() && #[trigger] fs[i] == (key, v) && forall|j: int|
                i < j < fs.len() ==> (#[trigger] fs[j]).0 != key,
    decreases fs.len(),
{
    if fs.len() > 0 {
        let p = fs.drop_last();
        lemma_last_value(p, key);
        if fs.last().0 == key {
            let i = fs.len() - 1;
            assert(fs[i] == (key, fs.last().1));
        } else {
            if exists|i: int| 0 <= i < fs.len() && (#[trigger] fs[i]).0 == key {
                let i = choose|i: int| 0 <= i < fs.len() && (#[trigger] fs[i]).0 == key;
                assert(i < fs.len() - 1);
                assert(p[i] == fs[i]);
            }
            if exists|i: int| 0 <= i < p.len() && (#[trigger] p[i]).0 == key {
                let i = choose|i: int| 0 <= i < p.len() && (#[trigger] p[i]).0 == key;
                assert(fs[i] == p[i]);
            }
            if last_value(p, key) is Some {
                let v = last_value(p, key).unwrap();
                let i = choose|i: int|
                    0 <= i < p.len() && #[trigger] p[i] == (key, v) && forall|j: int|
                        i < j < p.len() ==> (#[trigger] p[j]).0 != key;
                assert(fs[i] == p[i]);
                assert forall|j: int| i < j < fs.len() implies (#[trigger] fs[j]).0 != key by {
                    if j < p.len() {
                        assert(fs[j] == p[j]);
                    }
                }
            }
        }
    }
}

/// `trim` keeps exactly the stretch `a..b` of `s` when everything before
/// `a` and from `b` on is whitespace and the stretch starts and ends with
/// something else (or is empty, all of `s` being whitespace).
proof fn lemma_trim_is(s: Seq<char>, a: int, b: int)
    requires
        0 <= a <= b <= s.len(),
        forall|i: int| 0 <= i < a ==> is_ws(#[trigger] s[i]),
        forall|i: int| b <= i < s.len() ==> is_ws(#[trigger] s[i]),
        a < b ==> !is_ws(s[a]) && !is_ws(s[b - 1]),
        a == b ==> forall|i: int| 0 <= i < s.len() ==> is_ws(#[trigger] s[i]),
    ensures
        trim(s) == s.subrange(a, b),
{
    lemma_skip_ws_bounds(s, 0);
    let q = skip_ws(s, 0);
    if a < b {
        if q < a {
            assert(is_ws(s[q]));
        }
        if q > a {
            assert(is_ws(s[a]));
        }
        assert(q == a);
        let h = s.skip(a);
        lemma_back_ws_bounds(h, h.len() as int);
        let r = back_ws(h, h.len() as int);
        if r < b - a {
            assert(is_ws(h[b - a - 1]));
        }
        if r > b - a {
            assert(!is_ws(h[r - 1]));
            assert(h[r - 1] == s[a + r - 1]);
        }
        assert(r == b - a);
        assert(h.take(r) =~= s.subrange(a, b));
    } else {
        if q < s.len() {
            assert(is_ws(s[q]));
        }
        let h = s.skip(q);
        assert(h.len() == 0);
        assert(trim(s) =~= Seq::<char>::empty());
        assert(s.subrange(a, b) =~= Seq::<char>::empty());
    }
}

/// A text with no whitespace at all is its own trim.
pub proof fn lemma_trim_is_whole(s: Seq<char>)
    requires
        forall|i: int| 0 <= i < s.len() ==> !is_ws(#[trigger] s[i]),
    ensures
        trim(s) == s,
{
    if s.len() > 0 {
        lemma_trim_is(s, 0, s.len() as int);
    } else {
        lemma_trim_is(s, 0, 0);
    }
    assert(s.subrange(0, s.len() as int) =~= s);
}

/// The stretch of `s` that `trim` keeps.
proof fn lemma_trim_range(s: Seq<char>) -> (r: (int, int))
    ensures
        0 <= r.0 <= r.1 <= s.len(),
        forall|i: int| 0 <= i < r.0 ==> is_ws(#[trigger] s[i]),
        forall|i: int| r.1 <= i < s.len() ==> is_ws(#[trigger] s[i]),
        r.0 < r.1 ==> !is_ws(s[r.0]) && !is_ws(s[r.1 - 1]),
        r.0 == r.1 ==> forall|i: int| 0 <= i < s.len() ==> is_ws(#[trigger] s[i]),
        trim(s) == s.subrange(r.0, r.1),
{
    lemma_skip_ws_bounds(s, 0);
    let q = skip_ws(s, 0);
    let h = s.skip(q);
    lemma_back_ws_bounds(h, h.len() as int);
    let e = back_ws(h, h.len() as int);
    if e == 0 {
        assert forall|i: int| 0 <= i < s.len() implies is_ws(#[trigger] s[i]) by {
            if i >= q {
                assert(h[i - q] == s[i]);
            }
        }
        lemma_trim_is(s, 0, 0);
        (0, 0)
    } else {
        assert forall|i: int| q + e <= i < s.len() implies is_ws(#[trigger] s[i]) by {
            assert(h[i - q] == s[i]);
        }
        assert(h[e - 1] == s[q + e - 1]);
        assert(h[0] == s[q]);
        lemma_trim_is(s, q, q + e);
        (q, q + e)
    }
}

/// A header line `key: value` gives the field `(key, value)`, both trimmed,
/// where the key holds no `:`: the value is all that follows the first `:`,
/// colons included.
pub proof fn law_field_of_line(key: Seq<char>, value: Seq<char>)
    requires
        forall|i: int| 0 <= i < key.len() ==> #[trigger] key[i] != ':',
    ensures
        field_of(key + seq![':'] + value) == Some((trim(key), trim(value))),
{
    let l = key + seq![':'] + value;
    let n = key.len() as int;
    let (ka, kb) = lemma_trim_range(key);
    let (va, vb) = lemma_trim_range(value);
    assert(is_ws(':') == false);
    let a: int = if ka < kb {
        ka
    } else {
        n
    };
    let b: int = if va < vb {
        n + 1 + vb
    } else {
        n + 1
    };
    assert forall|i: int| 0 <= i < a implies is_ws(#[trigger] l[i]) by {
        assert(l[i] == key[i]);
    }
    assert forall|i: int| b <= i < l.len() implies is_ws(#[trigger] l[i]) by {
        assert(l[i] == value[i - n - 1]);
    }
    if ka < kb {
        assert(l[a] == key[ka]);
    }
    if va < vb {
        assert(l[b - 1] == value[vb - 1]);
    }
    lemma_trim_is(l, a, b);
    let t = trim(l);
    assert(t == l.subrange(a, b));
    let c = n - a;
    assert(t[c] == ':');
    lemma_find_char_from(t, ':', 0);
    assert forall|m: int| 0 <= m < c implies #[trigger] t[m] != ':' by {
        assert(t[m] == key[a + m]);
    }
    assert(find_char(t, ':') == Some(c));
    let kpart = t.take(c);
    assert(kpart =~= key.subrange(a, n));
    if ka < kb {
        assert forall|i: int| kb - ka <= i < kpart.len() implies is_ws(#[trigger] kpart[i]) by {
            assert(kpart[i] == key[ka + i]);
        }
        assert(kpart[0] == key[ka]);
        assert(kpart[kb - ka - 1] == key[kb - 1]);
        lemma_trim_is(kpart, 0, kb - ka);
        assert(kpart.subrange(0, kb - ka) =~= key.subrange(ka, kb));
    } else {
        assert(kpart.len() == 0);
        lemma_trim_is(kpart, 0, 0);
        assert(kpart.subrange(0, 0) =~= key.subrange(ka, kb));
    }
    let vpart = t.skip(c + 1);
    if va < vb {
        assert(vpart =~= value.subrange(0, vb));
        assert forall|i: int| 0 <= i < va implies is_ws(#[trigger] vpart[i]) by {
            assert(vpart[i] == value[i]);
        }
        assert(vpart[va] == value[va]);
        assert(vpart[vb - 1] == value[vb - 1]);
        lemma_trim_is(vpart, va, vb);
        assert(vpart.subrange(va, vb) =~= value.subrange(va, vb));
    } else {
        assert(vpart.len() == 0);
        lemma_trim_is(vpart, 0, 0);
        assert(vpart.subrange(0, 0) =~= value.subrange(va, vb));
    }
}

/// No closing fence starts inside a header that holds none.
proof fn lemma_no_early_close(header: Seq<char>, rest: Seq<char>, x: int)
    requires
        find_sub(header, close_fence()) is None,
        0 <= x < header.len(),
    ensures
        !occurs_at(header + close_fence() + seq!['\n'] + rest, close_fence(), x),
{
    let body = header + close_fence() + seq!['\n'] + rest;
    let n = header.len() as int;
    let cf = close_fence();
    if occurs_at(body, cf, x) {
        if x + 4 <= n {
            lemma_find_sub_from(header, cf, 0);
            assert(header.subrange(x, x + 4) =~= body.subrange(x, x + 4));
            assert(occurs_at(header, cf, x));
        } else {
            assert(body.subrange(x, x + 4)[n - x] == body[n]);
            assert(body[n] == '\n');
            assert(cf[n - x] == '-');
        }
    }
}

/// The search for the closing fence from `x` on finds it right after the
/// header.
proof fn lemma_close_fence_from(header: Seq<char>, rest: Seq<char>, x: int)
    requires
        find_sub(header, close_fence()) is None,
        0 <= x <= header.len(),
    ensures
        find_sub_from(header + close_fence() + seq!['\n'] + rest, close_fence(), x) == Some(
            header.len() as int,
        ),
    decreases header.len() - x,
{
    let body = header + close_fence() + seq!['\n'] + rest;
    let n = header.len() as int;
    if x == n {
        assert(body.subrange(n, n + 4) =~= close_fence());
    } else {
        lemma_no_early_close(header, rest, x);
        lemma_close_fence_from(header, rest, x + 1);
    }
}

/// A header written as `---`, a newline, the header's lines, a newline and
/// `---`, then a newline and the rest, splits back into that header and that
/// rest, whenever the header holds no line that starts with `---`.
#[verifier::rlimit(40)]
pub proof fn law_split_frontmatter_round_trip(header: Seq<char>, rest: Seq<char>)
    requires
        find_sub(header, close_fence()) is None,
    ensures
        split_frontmatter(fence() + seq!['\n'] + header + close_fence() + seq!['\n'] + rest) == Some(
            (header, rest),
        ),
{
    let s = fence() + seq!['\n'] + header + close_fence() + seq!['\n'] + rest;
    let n = header.len() as int;
    lemma_skip_ws_bounds(s, 0);
    assert(!is_ws(s[0]));
    let t = trim_start(s);
    assert(t =~= s);
    assert(t.subrange(0, 3) =~= fence());
    let u = t.skip(3);
    lemma_skip_char_bounds(u, '-', 0);
    assert(u[0] == '\n');
    let after_open = trim_start_char(u, '-');
    assert(after_open =~= u);
    lemma_find_char_from(after_open, '\n', 0);
    let body = after_open.skip(1);
    assert(body =~= header + close_fence() + seq!['\n'] + rest);
    lemma_close_fence_from(header, rest, 0);
    let tail = body.skip(n + 4);
    assert(tail =~= seq!['\n'] + rest);
    lemma_skip_char_bounds(tail, '-', 0);
    let after_close = trim_start_char(tail, '-');
    assert(after_close =~= tail);
    assert(after_close.skip(1) =~= rest);
    assert(body.take(n) =~= header);
}

/// A header line without `:` states no field.
pub proof fn law_field_needs_colon(line: Seq<char>)
    requires
        forall|i: int| 0 <= i < line.len() ==> #[trigger] line[i] != ':',
    ensures
        field_of(line) is None,
{
    let (a, b) = lemma_trim_range(line);
    let t = trim(line);
    lemma_find_char_from(t, ':', 0);
    if find_char(t, ':') is Some {
        let c = find_char(t, ':').unwrap();
        assert(t[c] == line[a + c]);
    }
}

} // verus!
