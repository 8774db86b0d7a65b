//! Character-level text handling: the whitespace, line and search rules that
//! the parsers and renderers are stated in, with their executable forms.
use vstd::prelude::*;

verus! {

// ---------------------------------------------------------------------
// Character classes
// ---------------------------------------------------------------------

/// Whether a non-ASCII character has Unicode's `White_Space` property:
/// U+0085, U+00A0, U+1680, U+2000 to U+200A, U+2028, U+2029, U+202F, U+205F
/// and U+3000.
pub open spec fn unicode_white_space(c: char) -> bool {
    ||| c == '\u{85}'
    ||| c == '\u{a0}'
    ||| c == '\u{1680}'
    ||| ('\u{2000}' <= c && c <= '\u{200a}')
    ||| c == '\u{2028}'
    ||| c == '\u{2029}'
    ||| c == '\u{202f}'
    ||| c == '\u{205f}'
    ||| c == '\u{3000}'
}

/// Whether a non-ASCII character is Unicode alphabetic or numeric, as the
/// standard library's tables say.
pub uninterp spec fn unicode_alphanumeric(c: char) -> bool;

/// `char::is_whitespace`.
pub open spec fn is_ws(c: char) -> bool {
    c == ' ' || ('\t' <= c && c <= '\r') || ('\x7f' < c && unicode_white_space(c))
}

/// `char::is_alphanumeric`.
pub open spec fn is_alnum(c: char) -> bool {
    ||| ('a' <= c && c <= 'z')
    ||| ('A' <= c && c <= 'Z')
    ||| ('0' <= c && c <= '9')
    ||| ('\x7f' < c && unicode_alphanumeric(c))
}

/// `char::to_ascii_lowercase`.
pub open spec fn ascii_lower(c: char) -> char {
    if 'A' <= c && c <= 'Z' {
        ((c as u32) + 32) as char
    } else {
        c
    }
}

/// Whether the character has Unicode's `White_Space` property, as
/// `char::is_whitespace` answers: space, tab through carriage return, and the
/// characters that `unicode_white_space` lists.
pub(crate) fn char_is_whitespace(c: char) -> (res: bool)
    ensures
        res == is_ws(c),
{
    c == ' ' || ('\t' <= c && c <= '\r') || c == '\u{85}' || c == '\u{a0}' || c == '\u{1680}'
        || ('\u{2000}' <= c && c <= '\u{200a}') || c == '\u{2028}' || c == '\u{2029}'
        || c == '\u{202f}' || c == '\u{205f}' || c == '\u{3000}'
}

/// Calls `char::is_alphanumeric`. ASCII characters are alphanumeric exactly
/// when they are letters or digits; others go by Unicode's alphabetic and
/// numeric tables, which `unicode_alphanumeric` names.
#[verifier::external_body]
pub(crate) fn char_is_alphanumeric(c: char) -> (res: bool)
    ensures
        res == (('a' <= c && c <= 'z') || ('A' <= c && c <= 'Z') || ('0' <= c && c <= '9')
            || ('\x7f' < c && unicode_alphanumeric(c))),
{
    c.is_alphanumeric()
}

/// The character as `char::to_ascii_lowercase` gives it: ASCII capitals
/// become small letters, every other character is returned unchanged.
pub(crate) fn char_to_ascii_lowercase(c: char) -> (res: char)
    ensures
        res == ascii_lower(c),
{
    if 'A' <= c && c <= 'Z' {
        ((c as u8) + 32) as char
    } else {
        c
    }
}

/// Calls `String::push`, which appends one character.
#[verifier::external_body]
pub(crate) fn push_char(s: &mut String, c: char)
    ensures
        final(s)@ == old(s)@.push(c),
{
    s.push(c);
}

/// The text held in an optional character vector.
pub open spec fn opt_chars(o: Option<Vec<char>>) -> Option<Seq<char>> {
    match o {
        Some(v) => Some(v@),
        None => None,
    }
}

// ---------------------------------------------------------------------
// Conversions between `str`/`String` and character vectors
// ---------------------------------------------------------------------

/// The characters of `s`, in order.
pub fn chars_of(s: &str) -> (res: Vec<char>)
    ensures
        res@ == s@,
{
    let mut res: Vec<char> = Vec::new();
    for c in it: s.chars()
        invariant
            res@ == it.seq().take(it.index() as int),
    {
        res.push(c);
    }
    proof {
        broadcast use vstd::string::axiom_spec_iter;
    }
    res
}

/// A `String` holding exactly the characters of `v`.
pub fn string_of(v: &Vec<char>) -> (res: String)
    ensures
        res@ == v@,
{
    let mut res = String::new();
    let mut i: usize = 0;
    while i < v.len()
        invariant
            i <= v.len(),
            res@ == v@.take(i as int),
        decreases v.len() - i,
    {
        push_char(&mut res, v[i]);
        i = i + 1;
        assert(v@.take(i as int) =~= v@.take((i - 1) as int).push(v@[i - 1]));
    }
    assert(v@.take(v.len() as int) =~= v@);
    res
}

/// Appends the characters of `v` to `s`.
pub(crate) fn push_chars(s: &mut String, v: &Vec<char>)
    ensures
        final(s)@ == old(s)@ + v@,
{
    let ghost start = s@;
    let mut i: usize = 0;
    while i < v.len()
        invariant
            i <= v.len(),
            s@ == start + v@.take(i as int),
        decreases v.len() - i,
    {
        push_char(s, v[i]);
        i = i + 1;
        assert(v@.take(i as int) =~= v@.take((i - 1) as int).push(v@[i - 1]));
    }
    assert(v@.take(v.len() as int) =~= v@);
}

/// Appends the characters of `t` to `s`.
pub fn push_str(s: &mut String, t: &str)
    ensures
        final(s)@ == old(s)@ + t@,
{
    let v = chars_of(t);
    push_chars(s, &v);
}

/// Whether two strings hold the same characters.
pub fn str_eq(a: &str, b: &str) -> (res: bool)
    ensures
        res == (a@ == b@),
{
    let va = chars_of(a);
    let vb = chars_of(b);
    chars_eq(&va, &vb)
}

/// Whether two character vectors are equal.
pub fn chars_eq(a: &Vec<char>, b: &Vec<char>) -> (res: bool)
    ensures
        res == (a@ == b@),
{
    if a.len() != b.len() {
        return false;
    }
    let mut i: usize = 0;
    while i < a.len()
        invariant
            a.len() == b.len(),
            i <= a.len(),
            forall|j: int| 0 <= j < i ==> a@[j] == b@[j],
        decreases a.len() - i,
    {
        if a[i] != b[i] {
            return false;
        }
        i = i + 1;
    }
    assert(a@ =~= b@);
    true
}

/// The characters `v[lo..hi]`, copied.
pub fn slice_chars(v: &Vec<char>, lo: usize, hi: usize) -> (res: Vec<char>)
    requires
        lo <= hi <= v.len(),
    ensures
        res@ == v@.subrange(lo as int, hi as int),
{
    let mut res: Vec<char> = Vec::new();
    let mut i: usize = lo;
    while i < hi
        invariant
            lo <= i <= hi <= v.len(),
            res@ == v@.subrange(lo as int, i as int),
        decreases hi - i,
    {
        res.push(v[i]);
        i = i + 1;
        assert(res@ =~= v@.subrange(lo as int, i as int));
    }
    res
}

/// The characters of `a` followed by those of `b`.
pub fn concat_chars(a: &Vec<char>, b: &Vec<char>) -> (res: Vec<char>)
    ensures
        res@ == a@ + b@,
{
    let mut res = slice_chars(a, 0, a.len());
    let mut i: usize = 0;
    while i < b.len()
        invariant
            i <= b.len(),
            res@ == a@ + b@.take(i as int),
        decreases b.len() - i,
    {
        res.push(b[i]);
        i = i + 1;
        assert(res@ =~= a@ + b@.take(i as int));
    }
    assert(b@.take(b.len() as int) =~= b@);
    res
}

/// The texts `ps` joined by `sep`.
pub open spec fn join_with(ps: Seq<Seq<char>>, sep: Seq<char>) -> Seq<char>
    decreases ps.len(),
{
    if ps.len() == 0 {
        Seq::empty()
    } else if ps.len() == 1 {
        ps[0]
    } else {
        join_with(ps.drop_last(), sep) + sep + ps.last()
    }
}

/// The strings `ps` joined by `sep`, as `join_with` says.
pub fn join_exec(ps: &Vec<String>, sep: &str) -> (res: String)
    ensures
        res@ == join_with(ps.deep_view(), sep@),
{
    let mut s = String::new();
    let mut i: usize = 0;
    while i < ps.len()
        invariant
            i <= ps.len(),
            s@ == join_with(ps.deep_view().take(i as int), sep@),
        decreases ps.len() - i,
    {
        let ghost pre = ps.deep_view().take(i + 1);
        assert(pre.drop_last() =~= ps.deep_view().take(i as int));
        assert(pre.last() == ps[i as int]@);
        if i > 0 {
            push_str(&mut s, sep);
        } else {
            assert(pre =~= seq![ps[0]@]);
        }
        push_str(&mut s, ps[i].as_str());
        i = i + 1;
    }
    assert(ps.deep_view().take(ps.len() as int) =~= ps.deep_view());
    s
}

// ---------------------------------------------------------------------
// Trimming
// ---------------------------------------------------------------------

/// The first index at or after `i` that does not hold whitespace, or the
/// length of `s` where there is none.
pub open spec fn skip_ws(s: Seq<char>, i: int) -> int
    decreases s.len() - i,
{
    if i < 0 || i >= s.len() {
        s.len() as int
    } else if is_ws(s[i]) {
        skip_ws(s, i + 1)
    } else {
        i
    }
}

/// The end of `s.take(j)` once its trailing whitespace is dropped.
pub open spec fn back_ws(s: Seq<char>, j: int) -> int
    decreases j,
{
    if j <= 0 || j > s.len() {
        0
    } else if is_ws(s[j - 1]) {
        back_ws(s, j - 1)
    } else {
        j
    }
}

/// `str::trim_start`.
pub open spec fn trim_start(s: Seq<char>) -> Seq<char> {
    s.skip(skip_ws(s, 0))
}

/// `str::trim_end`.
pub open spec fn trim_end(s: Seq<char>) -> Seq<char> {
    s.take(back_ws(s, s.len() as int))
}

/// `str::trim`.
pub open spec fn trim(s: Seq<char>) -> Seq<char> {
    trim_end(trim_start(s))
}

pub proof fn lemma_skip_ws_bounds(s: Seq<char>, i: int)
    requires
        0 <= i <= s.len(),
    ensures
        i <= skip_ws(s, i) <= s.len(),
        forall|k: int| i <= k < skip_ws(s, i) ==> is_ws(#[trigger] s[k]),
        skip_ws(s, i) < s.len() ==> !is_ws(s[skip_ws(s, i)]),
    decreases s.len() - i,
{
    if i < s.len() && is_ws(s[i]) {
        lemma_skip_ws_bounds(s, i + 1);
    }
}

pub proof fn lemma_back_ws_bounds(s: Seq<char>, j: int)
    requires
        0 <= j <= s.len(),
    ensures
        0 <= back_ws(s, j) <= j,
        forall|k: int| back_ws(s, j) <= k < j ==> is_ws(#[trigger] s[k]),
        back_ws(s, j) > 0 ==> !is_ws(s[back_ws(s, j) - 1]),
    decreases j,
{
    if j > 0 && is_ws(s[j - 1]) {
        lemma_back_ws_bounds(s, j - 1);
    }
}

/// Trimmed text starts and ends with non-whitespace.
pub proof fn lemma_trim_ends(s: Seq<char>)
    ensures
        trim(s).len() > 0 ==> !is_ws(trim(s)[0]) && !is_ws(trim(s).last()),
{
    lemma_skip_ws_bounds(s, 0);
    let a = skip_ws(s, 0);
    let h = s.skip(a);
    lemma_back_ws_bounds(h, h.len() as int);
    let b = back_ws(h, h.len() as int);
    if b > 0 {
        assert(trim(s)[0] == h[0]);
        assert(h[0] == s[a]);
        assert(trim(s).last() == h[b - 1]);
    }
}

/// Trimming twice is trimming once.
pub proof fn lemma_trim_idempotent(s: Seq<char>)
    ensures
        trim(trim(s)) == trim(s),
{
    let t = trim(s);
    lemma_trim_ends(s);
    if t.len() > 0 {
        assert(skip_ws(t, 0) == 0);
        assert(back_ws(t, t.len() as int) == t.len());
    } else {
        assert(skip_ws(t, 0) == 0);
    }
    assert(t.skip(0) =~= t);
    assert(t.take(t.len() as int) =~= t);
}

/// The index of the first non-whitespace character of `v` at or after `i`.
pub fn skip_ws_exec(v: &Vec<char>, i: usize) -> (res: usize)
    requires
        i <= v.len(),
    ensures
        res == skip_ws(v@, i as int),
{
    let mut k = i;
    while k < v.len() && char_is_whitespace(v[k])
        invariant
            i <= k <= v.len(),
            skip_ws(v@, i as int) == skip_ws(v@, k as int),
        decreases v.len() - k,
    {
        k = k + 1;
    }
    k
}

/// The end of `v[..j]` with its trailing whitespace dropped.
pub fn back_ws_exec(v: &Vec<char>, j: usize) -> (res: usize)
    requires
        j <= v.len(),
    ensures
        res == back_ws(v@, j as int),
{
    let mut k = j;
    while k > 0 && char_is_whitespace(v[k - 1])
        invariant
            k <= j <= v.len(),
            back_ws(v@, j as int) == back_ws(v@, k as int),
        decreases k,
    {
        k = k - 1;
    }
    k
}

/// `v` with leading and trailing whitespace removed.
pub fn trim_exec(v: &Vec<char>) -> (res: Vec<char>)
    ensures
        res@ == trim(v@),
{
    let a = skip_ws_exec(v, 0);
    proof {
        lemma_skip_ws_bounds(v@, 0);
    }
    let head = slice_chars(v, a, v.len());
    let b = back_ws_exec(&head, head.len());
    proof {
        lemma_back_ws_bounds(head@, head@.len() as int);
    }
    slice_chars(&head, 0, b)
}

/// `v` with leading whitespace removed.
pub fn trim_start_exec(v: &Vec<char>) -> (res: Vec<char>)
    ensures
        res@ == trim_start(v@),
{
    let a = skip_ws_exec(v, 0);
    proof {
        lemma_skip_ws_bounds(v@, 0);
    }
    slice_chars(v, a, v.len())
}

/// Whether `v` is empty once trimmed.
pub fn is_blank(v: &Vec<char>) -> (res: bool)
    ensures
        res == (trim(v@).len() == 0),
{
    let t = trim_exec(v);
    t.len() == 0
}

// ---------------------------------------------------------------------
// Dashes
// ---------------------------------------------------------------------

/// The first index at or after `i` that does not hold `c`.
pub open spec fn skip_char(s: Seq<char>, c: char, i: int) -> int
    decreases s.len() - i,
{
    if i < 0 || i >= s.len() {
        s.len() as int
    } else if s[i] == c {
        skip_char(s, c, i + 1)
    } else {
        i
    }
}

/// The end of `s.take(j)` once trailing copies of `c` are dropped.
pub open spec fn back_char(s: Seq<char>, c: char, j: int) -> int
    decreases j,
{
    if j <= 0 || j > s.len() {
        0
    } else if s[j - 1] == c {
        back_char(s, c, j - 1)
    } else {
        j
    }
}

/// `str::trim_start_matches` with a single character.
pub open spec fn trim_start_char(s: Seq<char>, c: char) -> Seq<char> {
    s.skip(skip_char(s, c, 0))
}

/// `str::trim_matches` with a single character.
pub open spec fn trim_char(s: Seq<char>, c: char) -> Seq<char> {
    let t = trim_start_char(s, c);
    t.take(back_char(t, c, t.len() as int))
}

pub proof fn lemma_skip_char_bounds(s: Seq<char>, c: char, i: int)
    requires
        0 <= i <= s.len(),
    ensures
        i <= skip_char(s, c, i) <= s.len(),
        forall|k: int| i <= k < skip_char(s, c, i) ==> #[trigger] s[k] == c,
        skip_char(s, c, i) < s.len() ==> s[skip_char(s, c, i)] != c,
    decreases s.len() - i,
{
    if i < s.len() && s[i] == c {
        lemma_skip_char_bounds(s, c, i + 1);
    }
}

pub proof fn lemma_back_char_bounds(s: Seq<char>, c: char, j: int)
    requires
        0 <= j <= s.len(),
    ensures
        0 <= back_char(s, c, j) <= j,
        forall|k: int| back_char(s, c, j) <= k < j ==> #[trigger] s[k] == c,
        back_char(s, c, j) > 0 ==> s[back_char(s, c, j) - 1] != c,
    decreases j,
{
    if j > 0 && s[j - 1] == c {
        lemma_back_char_bounds(s, c, j - 1);
    }
}

/// The index of the first character of `v` at or after `i` that is not `c`.
pub fn skip_char_exec(v: &Vec<char>, c: char, i: usize) -> (res: usize)
    requires
        i <= v.len(),
    ensures
        res == skip_char(v@, c, i as int),
{
    let mut k = i;
    while k < v.len() && v[k] == c
        invariant
            i <= k <= v.len(),
            skip_char(v@, c, i as int) == skip_char(v@, c, k as int),
        decreases v.len() - k,
    {
        k = k + 1;
    }
    k
}

/// The end of `v[..j]` with trailing copies of `c` dropped.
pub fn back_char_exec(v: &Vec<char>, c: char, j: usize) -> (res: usize)
    requires
        j <= v.len(),
    ensures
        res == back_char(v@, c, j as int),
{
    let mut k = j;
    while k > 0 && v[k - 1] == c
        invariant
            k <= j <= v.len(),
            back_char(v@, c, j as int) == back_char(v@, c, k as int),
        decreases k,
    {
        k = k - 1;
    }
    k
}

// ---------------------------------------------------------------------
// Searching
// ---------------------------------------------------------------------

/// The first index at or after `i` where `s` holds `c`.
pub open spec fn find_char_from(s: Seq<char>, c: char, i: int) -> Option<int>
    decreases s.len() - i,
{
    if i < 0 || i >= s.len() {
        None
    } else if s[i] == c {
        Some(i)
    } else {
        find_char_from(s, c, i + 1)
    }
}

/// `str::find` with a character.
pub open spec fn find_char(s: Seq<char>, c: char) -> Option<int> {
    find_char_from(s, c, 0)
}

pub proof fn lemma_find_char_from(s: Seq<char>, c: char, i: int)
    requires
        0 <= i,
    ensures
        find_char_from(s, c, i) matches Some(k) ==> i <= k < s.len() && s[k] == c
            && forall|m: int| i <= m < k ==> #[trigger] s[m] != c,
        find_char_from(s, c, i) is None ==> forall|m: int| i <= m < s.len() ==> #[trigger] s[m] != c,
    decreases s.len() - i,
{
    if i < s.len() && s[i] != c {
        lemma_find_char_from(s, c, i + 1);
    }
}

/// The index of the first `c` in `v` at or after `i`.
pub fn find_char_exec(v: &Vec<char>, c: char, i: usize) -> (res: Option<usize>)
    requires
        i <= v.len(),
    ensures
        match res {
            Some(k) => find_char_from(v@, c, i as int) == Some(k as int),
            None => find_char_from(v@, c, i as int) is None,
        },
{
    let mut k = i;
    while k < v.len()
        invariant
            i <= k <= v.len(),
            find_char_from(v@, c, i as int) == find_char_from(v@, c, k as int),
        decreases v.len() - k,
    {
        if v[k] == c {
            return Some(k);
        }
        k = k + 1;
    }
    None
}

/// Whether `p` occurs in `s` at index `i`.
pub open spec fn occurs_at(s: Seq<char>, p: Seq<char>, i: int) -> bool {
    0 <= i && i + p.len() <= s.len() && s.subrange(i, i + p.len()) == p
}

/// The first index at or after `i` where `p` occurs in `s`.
pub open spec fn find_sub_from(s: Seq<char>, p: Seq<char>, i: int) -> Option<int>
    decreases s.len() + 1 - i,
{
    if i < 0 || i + p.len() > s.len() {
        None
    } else if occurs_at(s, p, i) {
        Some(i)
    } else {
        find_sub_from(s, p, i + 1)
    }
}

/// `str::find` with a string pattern.
pub open spec fn find_sub(s: Seq<char>, p: Seq<char>) -> Option<int> {
    find_sub_from(s, p, 0)
}

/// `str::starts_with`.
pub open spec fn starts_with(s: Seq<char>, p: Seq<char>) -> bool {
    occurs_at(s, p, 0)
}

pub proof fn lemma_find_sub_from(s: Seq<char>, p: Seq<char>, i: int)
    requires
        0 <= i,
    ensures
        find_sub_from(s, p, i) matches Some(k) ==> i <= k && occurs_at(s, p, k)
            && forall|m: int| i <= m < k ==> !#[trigger] occurs_at(s, p, m),
        find_sub_from(s, p, i) is None ==> forall|m: int| i <= m ==> !#[trigger] occurs_at(s, p, m),
    decreases s.len() + 1 - i,
{
    if i + p.len() <= s.len() && !occurs_at(s, p, i) {
        lemma_find_sub_from(s, p, i + 1);
    }
}

/// Whether `p` occurs in `v` at index `i`.
pub fn occurs_at_exec(v: &Vec<char>, p: &Vec<char>, i: usize) -> (res: bool)
    ensures
        res == occurs_at(v@, p@, i as int),
{
    if i > v.len() || p.len() > v.len() - i {
        return false;
    }
    let mut k: usize = 0;
    while k < p.len()
        invariant
            i + p.len() <= v.len(),
            k <= p.len(),
            forall|m: int| 0 <= m < k ==> v@[i + m] == p@[m],
        decreases p.len() - k,
    {
        if v[i + k] != p[k] {
            assert(v@.subrange(i as int, i + p.len())[k as int] != p@[k as int]);
            return false;
        }
        k = k + 1;
    }
    assert(v@.subrange(i as int, i + p.len()) =~= p@);
    true
}

/// The index of the first occurrence of `p` in `v` at or after `i`.
pub fn find_sub_exec(v: &Vec<char>, p: &Vec<char>, i: usize) -> (res: Option<usize>)
    ensures
        match res {
            Some(k) => find_sub_from(v@, p@, i as int) == Some(k as int),
            None => find_sub_from(v@, p@, i as int) is None,
        },
{
    if i > v.len() {
        return None;
    }
    let mut k = i;
    loop
        invariant
            i <= k <= v.len(),
            find_sub_from(v@, p@, i as int) == find_sub_from(v@, p@, k as int),
        decreases v.len() - k,
    {
        if p.len() > v.len() - k {
            return None;
        }
        if occurs_at_exec(v, p, k) {
            return Some(k);
        }
        if k == v.len() {
            assert(find_sub_from(v@, p@, k as int + 1) is None);
            return None;
        }
        k = k + 1;
    }
}

// ---------------------------------------------------------------------
// Lines
// ---------------------------------------------------------------------

/// A line's text without the carriage return of a `\r\n` ending.
pub open spec fn strip_cr(s: Seq<char>) -> Seq<char> {
    if s.len() > 0 && s.last() == '\r' {
        s.drop_last()
    } else {
        s
    }
}

/// The lines of `s` from index `i` on, as `str::lines` yields them: split at
/// each `\n`, a `\r` right before the `\n` dropped, and no empty last line
/// after a final `\n`.
pub open spec fn lines_from(s: Seq<char>, i: int) -> Seq<Seq<char>>
    decreases s.len() - i,
{
    if i < 0 || i >= s.len() {
        Seq::empty()
    } else {
        match find_char_from(s, '\n', i) {
            Some(k) => {
                if k < i || k >= s.len() {
                    Seq::empty()
                } else {
                    seq![strip_cr(s.subrange(i, k))] + lines_from(s, k + 1)
                }
            },
            None => seq![s.subrange(i, s.len() as int)],
        }
    }
}

/// `str::lines`.
pub open spec fn lines(s: Seq<char>) -> Seq<Seq<char>> {
    lines_from(s, 0)
}

/// The lines of `v`, as `str::lines` yields them.
pub fn lines_exec(v: &Vec<char>) -> (res: Vec<Vec<char>>)
    ensures
        res@.len() == lines(v@).len(),
        forall|k: int| 0 <= k < res@.len() ==> #[trigger] res@[k]@ == lines(v@)[k],
{
    let mut res: Vec<Vec<char>> = Vec::new();
    let mut i: usize = 0;
    let ghost got: Seq<Seq<char>> = Seq::empty();
    while i < v.len()
        invariant
            i <= v.len(),
            got.len() == res@.len(),
            forall|k: int| 0 <= k < res@.len() ==> #[trigger] res@[k]@ == got[k],
            got + lines_from(v@, i as int) == lines(v@),
        decreases v.len() - i,
    {
        proof {
            lemma_find_char_from(v@, '\n', i as int);
        }
        match find_char_exec(v, '\n', i) {
            Some(k) => {
                let mut line = slice_chars(v, i, k);
                if line.len() > 0 && line[line.len() - 1] == '\r' {
                    line.pop();
                }
                assert(line@ =~= strip_cr(v@.subrange(i as int, k as int)));
                proof {
                    assert(lines_from(v@, i as int) == seq![line@] + lines_from(v@, k + 1));
                    assert(got.push(line@) + lines_from(v@, k + 1) =~= got + lines_from(v@, i as int));
                    got = got.push(line@);
                }
                res.push(line);
                i = k + 1;
            },
            None => {
                let line = slice_chars(v, i, v.len());
                proof {
                    assert(lines_from(v@, i as int) == seq![line@]);
                    assert(lines_from(v@, v.len() as int) =~= Seq::<Seq<char>>::empty());
                    assert(got.push(line@) + lines_from(v@, v.len() as int) =~= got + lines_from(v@, i as int));
                    got = got.push(line@);
                }
                res.push(line);
                i = v.len();
            },
        }
    }
    proof {
        assert(got =~= lines(v@));
    }
    res
}

} // verus!
