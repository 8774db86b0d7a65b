//! Unix paths as text, read component by component as `std::path` reads
//! them: `/` at the start is the root, a leading `.` is the current
//! directory, and repeated `/` and other `.` pieces name no component.
use vstd::prelude::*;

verus! {

/// The end of the piece of path `s` that starts at `i`: the next `/` at or
/// after `i`, or the end of `s`.
pub open spec fn piece_end(s: Seq<char>, i: int) -> int
    decreases s.len() - i,
{
    if i < 0 || i >= s.len() || s[i] == '/' {
        i
    } else {
        piece_end(s, i + 1)
    }
}

/// Where the piece after the one at `i` starts: past its `/`, or at the end.
pub open spec fn after_piece(s: Seq<char>, i: int) -> int {
    if piece_end(s, i) < s.len() {
        piece_end(s, i) + 1
    } else {
        s.len() as int
    }
}

/// Whether the piece at `i` names no component: it is empty (a repeated
/// `/`) or `.`.
pub open spec fn is_blank_piece(s: Seq<char>, i: int) -> bool {
    piece_end(s, i) == i || (piece_end(s, i) == i + 1 && s[i] == '.')
}

/// The first index from `i` on where a piece that names a component starts
/// (or the end of `s`).
pub open spec fn skip_blank(s: Seq<char>, i: int) -> int
    decreases s.len() - i,
{
    if i < 0 || i >= s.len() || !is_blank_piece(s, i) {
        i
    } else if after_piece(s, i) <= i {
        i
    } else {
        skip_blank(s, after_piece(s, i))
    }
}

/// Whether path `s` is absolute: it starts with `/`.
pub open spec fn has_root(s: Seq<char>) -> bool {
    s.len() > 0 && s[0] == '/'
}

/// Whether relative path `s` starts with the component `.`.
pub open spec fn has_cur_dir(s: Seq<char>) -> bool {
    !has_root(s) && s.len() > 0 && s[0] == '.' && (s.len() == 1 || s[1] == '/')
}

/// Where the components after a leading `/` or `.` start.
pub open spec fn body_start(s: Seq<char>) -> int {
    if has_root(s) || has_cur_dir(s) {
        1
    } else {
        0
    }
}

pub proof fn lemma_piece_end(s: Seq<char>, i: int)
    requires
        0 <= i <= s.len(),
    ensures
        i <= piece_end(s, i) <= s.len(),
        piece_end(s, i) < s.len() ==> s[piece_end(s, i)] == '/',
        forall|m: int| i <= m < piece_end(s, i) ==> s[m] != '/',
    decreases s.len() - i,
{
    if i < s.len() && s[i] != '/' {
        lemma_piece_end(s, i + 1);
    }
}

pub proof fn lemma_skip_blank(s: Seq<char>, i: int)
    requires
        0 <= i <= s.len(),
    ensures
        i <= skip_blank(s, i) <= s.len(),
        skip_blank(s, i) < s.len() ==> !is_blank_piece(s, skip_blank(s, i)),
    decreases s.len() - i,
{
    if i < s.len() {
        lemma_piece_end(s, i);
        if is_blank_piece(s, i) && after_piece(s, i) > i {
            lemma_skip_blank(s, after_piece(s, i));
        }
    }
}

/// The end of the piece at `i`, as `piece_end` says.
pub fn piece_end_exec(s: &Vec<char>, i: usize) -> (res: usize)
    requires
        i <= s.len(),
    ensures
        res == piece_end(s@, i as int),
        i <= res <= s.len(),
{
    proof {
        lemma_piece_end(s@, i as int);
    }
    let mut k = i;
    while k < s.len() && s[k] != '/'
        invariant
            i <= k <= s.len(),
            piece_end(s@, i as int) == piece_end(s@, k as int),
        decreases s.len() - k,
    {
        k = k + 1;
    }
    k
}

/// Past the pieces that name no component, as `skip_blank` says.
pub fn skip_blank_exec(s: &Vec<char>, i: usize) -> (res: usize)
    requires
        i <= s.len(),
    ensures
        res == skip_blank(s@, i as int),
        res <= s.len(),
{
    let mut k = i;
    loop
        invariant
            i <= k <= s.len(),
            skip_blank(s@, i as int) == skip_blank(s@, k as int),
        decreases s.len() - k,
    {
        if k >= s.len() {
            return k;
        }
        let pe = piece_end_exec(s, k);
        let blank = pe == k || (pe == k + 1 && s[k] == '.');
        if !blank {
            return k;
        }
        let next = if pe < s.len() {
            pe + 1
        } else {
            s.len()
        };
        if next <= k {
            return k;
        }
        k = next;
    }
}

/// A component of a path, as `std::path::Component` has them on Unix.
pub enum Component {
    RootDir,
    CurDir,
    ParentDir,
    Normal(Seq<char>),
}

/// The component that a piece naming one stands for.
pub open spec fn component_of(piece: Seq<char>) -> Component {
    if piece == seq!['.', '.'] {
        Component::ParentDir
    } else {
        Component::Normal(piece)
    }
}

/// The components named by the pieces of `s` from `i` on.
pub open spec fn components_from(s: Seq<char>, i: int) -> Seq<Component>
    decreases s.len() - i via components_from_decreases
{
    let k = skip_blank(s, i);
    if i < 0 || i > s.len() || k >= s.len() {
        Seq::empty()
    } else {
        seq![component_of(s.subrange(k, piece_end(s, k)))] + components_from(s, piece_end(s, k))
    }
}

#[via_fn]
proof fn components_from_decreases(s: Seq<char>, i: int) {
    if 0 <= i <= s.len() {
        lemma_skip_blank(s, i);
        let k = skip_blank(s, i);
        if k < s.len() {
            lemma_piece_end(s, k);
        }
    }
}

/// The components of path `s`: the root or a leading `.`, then one for each
/// piece that names one.
pub open spec fn path_components(s: Seq<char>) -> Seq<Component> {
    let first = if has_root(s) {
        seq![Component::RootDir]
    } else if has_cur_dir(s) {
        seq![Component::CurDir]
    } else {
        Seq::empty()
    };
    first + components_from(s, body_start(s))
}

/// Whether name `a` comes no later than name `b`: character by character
/// (by code point, which is the order of their UTF-8 bytes), a prefix first.
pub open spec fn name_le(a: Seq<char>, b: Seq<char>) -> bool
    decreases a.len(),
{
    if a.len() == 0 {
        true
    } else if b.len() == 0 {
        false
    } else if a[0] != b[0] {
        a[0] < b[0]
    } else {
        name_le(a.skip(1), b.skip(1))
    }
}

/// The place of a kind of component in the order: the root, `.`, `..`, then
/// names.
pub open spec fn component_rank(c: Component) -> int {
    match c {
        Component::RootDir => 0,
        Component::CurDir => 1,
        Component::ParentDir => 2,
        Component::Normal(_) => 3,
    }
}

/// Whether component `a` comes strictly before component `b`.
pub open spec fn component_lt(a: Component, b: Component) -> bool {
    component_rank(a) < component_rank(b) || match (a, b) {
        (Component::Normal(x), Component::Normal(y)) => x != y && name_le(x, y),
        _ => false,
    }
}

/// Whether components `a` come no later than components `b`: compared one
/// after another, fewer first where one list starts the other.
pub open spec fn components_le(a: Seq<Component>, b: Seq<Component>) -> bool
    decreases a.len(),
{
    if a.len() == 0 {
        true
    } else if b.len() == 0 {
        false
    } else if a[0] != b[0] {
        component_lt(a[0], b[0])
    } else {
        components_le(a.skip(1), b.skip(1))
    }
}

/// Whether path `a` comes no later than path `b` in the order of
/// `std::path::Path`: by their components, one after another.
pub open spec fn path_le(a: Seq<char>, b: Seq<char>) -> bool {
    components_le(path_components(a), path_components(b))
}

proof fn lemma_name_le_total(a: Seq<char>, b: Seq<char>)
    ensures
        name_le(a, b) || name_le(b, a),
    decreases a.len(),
{
    if a.len() > 0 && b.len() > 0 && a[0] == b[0] {
        lemma_name_le_total(a.skip(1), b.skip(1));
    }
}

proof fn lemma_name_le_trans(a: Seq<char>, b: Seq<char>, c: Seq<char>)
    requires
        name_le(a, b),
        name_le(b, c),
    ensures
        name_le(a, c),
    decreases a.len(),
{
    if a.len() > 0 && b.len() > 0 && c.len() > 0 && a[0] == b[0] && b[0] == c[0] {
        lemma_name_le_trans(a.skip(1), b.skip(1), c.skip(1));
    }
}

proof fn lemma_name_le_antisym(a: Seq<char>, b: Seq<char>)
    requires
        name_le(a, b),
        name_le(b, a),
    ensures
        a == b,
    decreases a.len(),
{
    if a.len() > 0 && b.len() > 0 {
        lemma_name_le_antisym(a.skip(1), b.skip(1));
        assert(a =~= seq![a[0]] + a.skip(1));
        assert(b =~= seq![b[0]] + b.skip(1));
    } else {
        assert(a =~= b);
    }
}

proof fn lemma_component_lt_order(a: Component, b: Component, c: Component)
    ensures
        !component_lt(a, a),
        component_lt(a, b) ==> !component_lt(b, a),
        a != b ==> component_lt(a, b) || component_lt(b, a),
        component_lt(a, b) && component_lt(b, c) ==> component_lt(a, c),
{
    match (a, b) {
        (Component::Normal(x), Component::Normal(y)) => {
            lemma_name_le_total(x, y);
            if name_le(x, y) && name_le(y, x) {
                lemma_name_le_antisym(x, y);
            }
        },
        _ => {},
    }
    if component_lt(a, b) && component_lt(b, c) {
        match (a, b, c) {
            (Component::Normal(x), Component::Normal(y), Component::Normal(z)) => {
                lemma_name_le_trans(x, y, z);
                if x == z {
                    lemma_name_le_antisym(x, y);
                }
            },
            _ => {},
        }
    }
}

proof fn lemma_components_le_total(a: Seq<Component>, b: Seq<Component>)
    ensures
        components_le(a, b) || components_le(b, a),
    decreases a.len(),
{
    if a.len() > 0 && b.len() > 0 {
        if a[0] == b[0] {
            lemma_components_le_total(a.skip(1), b.skip(1));
        } else {
            lemma_component_lt_order(a[0], b[0], a[0]);
        }
    }
}

proof fn lemma_components_le_trans(a: Seq<Component>, b: Seq<Component>, c: Seq<Component>)
    requires
        components_le(a, b),
        components_le(b, c),
    ensures
        components_le(a, c),
    decreases a.len(),
{
    if a.len() > 0 && b.len() > 0 && c.len() > 0 {
        lemma_component_lt_order(a[0], b[0], c[0]);
        lemma_component_lt_order(b[0], a[0], c[0]);
        lemma_component_lt_order(a[0], c[0], b[0]);
        if a[0] == b[0] && b[0] == c[0] {
            lemma_components_le_trans(a.skip(1), b.skip(1), c.skip(1));
        }
    }
}

/// Of two paths, one comes no later than the other.
pub proof fn lemma_path_le_total(a: Seq<char>, b: Seq<char>)
    ensures
        path_le(a, b) || path_le(b, a),
{
    lemma_components_le_total(path_components(a), path_components(b));
}

/// The order of paths is transitive.
pub proof fn lemma_path_le_trans(a: Seq<char>, b: Seq<char>, c: Seq<char>)
    requires
        path_le(a, b),
        path_le(b, c),
    ensures
        path_le(a, c),
{
    lemma_components_le_trans(path_components(a), path_components(b), path_components(c));
}

/// A component held as a kind (0 root, 1 `.`, 2 `..`, 3 name) and a name.
pub open spec fn component_view(c: (u8, Vec<char>)) -> Component {
    if c.0 == 0 {
        Component::RootDir
    } else if c.0 == 1 {
        Component::CurDir
    } else if c.0 == 2 {
        Component::ParentDir
    } else {
        Component::Normal(c.1@)
    }
}

/// Components held as kinds and names.
pub open spec fn components_view(v: Seq<(u8, Vec<char>)>) -> Seq<Component> {
    v.map_values(|c: (u8, Vec<char>)| component_view(c))
}

/// The components of a path, as `path_components` says.
pub fn components_exec(s: &Vec<char>) -> (res: Vec<(u8, Vec<char>)>)
    ensures
        components_view(res@) == path_components(s@),
        forall|k: int| 0 <= k < res@.len() ==> (#[trigger] res@[k]).0 <= 3,
{
    let mut out: Vec<(u8, Vec<char>)> = Vec::new();
    let root = s.len() > 0 && s[0] == '/';
    let cur = !root && s.len() > 0 && s[0] == '.' && (s.len() == 1 || s[1] == '/');
    if root {
        out.push((0, Vec::new()));
    } else if cur {
        out.push((1, Vec::new()));
    }
    let mut i: usize = if root || cur {
        1
    } else {
        0
    };
    let ghost first = components_view(out@);
    assert(path_components(s@) == first + components_from(s@, i as int));
    loop
        invariant
            i <= s.len(),
            path_components(s@) == components_view(out@) + components_from(s@, i as int),
            forall|k: int| 0 <= k < out@.len() ==> (#[trigger] out@[k]).0 <= 3,
        decreases s.len() - i,
    {
        let k = skip_blank_exec(s, i);
        proof {
            lemma_skip_blank(s@, i as int);
        }
        if k >= s.len() {
            assert(components_from(s@, i as int) =~= Seq::<Component>::empty());
            assert(components_view(out@) + Seq::<Component>::empty() =~= components_view(out@));
            return out;
        }
        let pe = piece_end_exec(s, k);
        proof {
            lemma_piece_end(s@, k as int);
        }
        let piece = crate::text::slice_chars(s, k, pe);
        let parent = piece.len() == 2 && piece[0] == '.' && piece[1] == '.';
        let ghost before = out@;
        if parent {
            assert(piece@ =~= seq!['.', '.']);
            out.push((2, piece));
        } else {
            out.push((3, piece));
        }
        assert(components_view(out@) =~= components_view(before).push(
            component_of(s@.subrange(k as int, pe as int)),
        ));
        assert(components_from(s@, i as int) =~= seq![component_of(s@.subrange(k as int, pe as int))]
            + components_from(s@, pe as int));
        assert(components_view(out@) + components_from(s@, pe as int) =~= components_view(before)
            + components_from(s@, i as int));
        i = pe;
    }
}

/// Whether two held components are the same component.
fn component_eq(a: &(u8, Vec<char>), b: &(u8, Vec<char>)) -> (res: bool)
    requires
        a.0 <= 3,
        b.0 <= 3,
    ensures
        res == (component_view(*a) == component_view(*b)),
{
    if a.0 != b.0 {
        false
    } else if a.0 < 3 {
        true
    } else {
        crate::text::chars_eq(&a.1, &b.1)
    }
}

/// Whether name `a` comes no later than name `b`, as `name_le` says.
fn name_le_exec(av: &Vec<char>, bv: &Vec<char>) -> (res: bool)
    ensures
        res == name_le(av@, bv@),
{
    let mut i: usize = 0;
    assert(av@.skip(0) =~= av@);
    assert(bv@.skip(0) =~= bv@);
    while i < av.len() && i < bv.len() && av[i] == bv[i]
        invariant
            i <= av.len(),
            i <= bv.len(),
            name_le(av@, bv@) == name_le(av@.skip(i as int), bv@.skip(i as int)),
        decreases av.len() - i,
    {
        assert(av@.skip(i as int).skip(1) =~= av@.skip(i + 1));
        assert(bv@.skip(i as int).skip(1) =~= bv@.skip(i + 1));
        i = i + 1;
    }
    if i == av.len() {
        true
    } else if i == bv.len() {
        false
    } else {
        assert(av@.skip(i as int)[0] == av@[i as int]);
        assert(bv@.skip(i as int)[0] == bv@[i as int]);
        av[i] < bv[i]
    }
}

/// Whether path `a` comes no later than path `b`, as `path_le` says.
pub fn path_le_exec(a: &str, b: &str) -> (res: bool)
    ensures
        res == path_le(a@, b@),
{
    let av = crate::text::chars_of(a);
    let bv = crate::text::chars_of(b);
    let ca = components_exec(&av);
    let cb = components_exec(&bv);
    let ghost va = components_view(ca@);
    let ghost vb = components_view(cb@);
    let mut j: usize = 0;
    assert(va.skip(0) =~= va);
    assert(vb.skip(0) =~= vb);
    while j < ca.len() && j < cb.len() && component_eq(&ca[j], &cb[j])
        invariant
            j <= ca.len(),
            j <= cb.len(),
            va == components_view(ca@),
            vb == components_view(cb@),
            va.len() == ca@.len(),
            vb.len() == cb@.len(),
            forall|k: int| 0 <= k < ca@.len() ==> (#[trigger] ca@[k]).0 <= 3,
            forall|k: int| 0 <= k < cb@.len() ==> (#[trigger] cb@[k]).0 <= 3,
            path_le(a@, b@) == components_le(va.skip(j as int), vb.skip(j as int)),
        decreases ca.len() - j,
    {
        assert(va.skip(j as int).skip(1) =~= va.skip(j + 1));
        assert(vb.skip(j as int).skip(1) =~= vb.skip(j + 1));
        assert(va.skip(j as int)[0] == va[j as int]);
        assert(vb.skip(j as int)[0] == vb[j as int]);
        j = j + 1;
    }
    if j == ca.len() {
        true
    } else if j == cb.len() {
        false
    } else {
        assert(va.skip(j as int)[0] == component_view(ca@[j as int]));
        assert(vb.skip(j as int)[0] == component_view(cb@[j as int]));
        let x = &ca[j];
        let y = &cb[j];
        if x.0 != y.0 {
            x.0 < y.0
        } else if x.0 < 3 {
            false
        } else {
            let le = name_le_exec(&x.1, &y.1);
            le && !crate::text::chars_eq(&x.1, &y.1)
        }
    }
}

/// Whether paths `a` and `b` have the same components, as `std::path::Path`
/// compares paths.
pub fn path_eq_exec(a: &str, b: &str) -> (res: bool)
    ensures
        res == (path_components(a@) == path_components(b@)),
{
    let av = crate::text::chars_of(a);
    let bv = crate::text::chars_of(b);
    let ca = components_exec(&av);
    let cb = components_exec(&bv);
    let ghost va = components_view(ca@);
    let ghost vb = components_view(cb@);
    if ca.len() != cb.len() {
        assert(va.len() != vb.len());
        return false;
    }
    let mut j: usize = 0;
    while j < ca.len()
        invariant
            j <= ca.len(),
            ca.len() == cb.len(),
            va == components_view(ca@),
            vb == components_view(cb@),
            va == path_components(a@),
            vb == path_components(b@),
            forall|k: int| 0 <= k < ca@.len() ==> (#[trigger] ca@[k]).0 <= 3,
            forall|k: int| 0 <= k < cb@.len() ==> (#[trigger] cb@[k]).0 <= 3,
            forall|k: int| 0 <= k < j ==> #[trigger] va[k] == vb[k],
        decreases ca.len() - j,
    {
        if !component_eq(&ca[j], &cb[j]) {
            assert(va[j as int] != vb[j as int]);
            return false;
        }
        j = j + 1;
    }
    assert(va =~= vb);
    true
}

} // verus!
