//! Rules files (`rules/*.md`): one section per file.
use vstd::prelude::*;

use crate::ir::{OverrideView, Section, SectionSource, SectionView, TargetOverrides};
use crate::parse::claude_md::{slug_of, slugify_chars};
use crate::parse::frontmatter::{
    close_fence, collect_overrides, fence, field_of, fields, fields_upto, last_value_exec, last_value,
    law_field_of_line, law_split_frontmatter_round_trip, lemma_last_value, overrides_of, parse_fields,
    split_frontmatter, split_frontmatter_exec, texts_view,
};
use crate::text::{
    chars_of, find_sub, is_ws, lemma_find_sub_from, lines, opt_chars, slice_chars,
    string_of, trim, trim_exec,
};

verus! {

/// `description`
pub open spec fn description_key() -> Seq<char> {
    seq!['d', 'e', 's', 'c', 'r', 'i', 'p', 't', 'i', 'o', 'n']
}

/// What the header of a rules file gives: the value of its last
/// `description` field, the overrides of its other fields, and the text after
/// it. Without a header: nothing, no overrides, and the whole text.
pub open spec fn rule_frontmatter(content: Seq<char>) -> (
    Option<Seq<char>>,
    Seq<OverrideView>,
    Seq<char>,
) {
    match split_frontmatter(content) {
        Some((h, rest)) => {
            let fs = fields(h);
            (last_value(fs, description_key()), overrides_of(fs, seq![description_key()]), rest)
        },
        None => (None, Seq::empty(), content),
    }
}

/// The section that a rules file with file stem `name` and text `content`
/// gives.
pub open spec fn rule_section(name: Seq<char>, content: Seq<char>) -> SectionView {
    let fm = rule_frontmatter(content);
    SectionView {
        title: Some(name),
        slug: slug_of(name),
        body: trim(fm.2),
        source: SectionSource::Rules,
        overrides: fm.1,
        description: fm.0,
    }
}

/// The slug of a rule's file name, as `slug_of` says.
pub fn slugify(text: &str) -> (res: String)
    ensures
        res@ == slug_of(text@),
        res@ == crate::parse::claude_md::slug_by_words(text@),
{
    let v = chars_of(text);
    let s = slugify_chars(&v);
    proof {
        crate::parse::claude_md::law_slug_is_words_joined(text@);
    }
    string_of(&s)
}

/// Reads the optional header of a rules file: its description, its
/// `target: key=value` overrides, and the text after it.
pub fn parse_frontmatter(content: &str) -> (res: (Option<String>, TargetOverrides, String))
    ensures
        (res.0.deep_view(), res.1@, res.2@) == rule_frontmatter(content@),
{
    let v = chars_of(content);
    let (d, ov, rest) = rule_frontmatter_chars(&v);
    let d2 = match d {
        Some(x) => Some(string_of(&x)),
        None => None,
    };
    (d2, ov, string_of(&rest))
}

/// `rule_frontmatter` of text given as characters.
fn rule_frontmatter_chars(v: &Vec<char>) -> (res: (Option<Vec<char>>, TargetOverrides, Vec<char>))
    ensures
        (opt_chars(res.0), res.1@, res.2@) == rule_frontmatter(v@),
{
    match split_frontmatter_exec(v) {
        Some((h, rest)) => {
            let fs = parse_fields(&h);
            let key = vec!['d', 'e', 's', 'c', 'r', 'i', 'p', 't', 'i', 'o', 'n'];
            assert(key@ =~= description_key());
            let d = last_value_exec(&fs, &key);
            let mut known: Vec<Vec<char>> = Vec::new();
            known.push(key);
            assert(texts_view(known@) =~= seq![description_key()]);
            let ov = collect_overrides(&fs, &known);
            (d, ov, rest)
        },
        None => {
            let copy = slice_chars(v, 0, v.len());
            assert(copy@ =~= v@);
            (None, TargetOverrides::new(), copy)
        },
    }
}

/// The section of a rules file, given its file stem and its text: titled
/// and slugged by the stem, with the header's description and overrides,
/// and the trimmed text after the header as body.
pub fn parse_rule_text(name: &str, content: &str) -> (res: Section)
    ensures
        res@ == rule_section(name@, content@),
{
    let v = chars_of(content);
    let (d, ov, rest) = rule_frontmatter_chars(&v);
    let n = chars_of(name);
    let slug = slugify_chars(&n);
    let body = trim_exec(&rest);
    let description = match d {
        Some(x) => Some(string_of(&x)),
        None => None,
    };
    let title = string_of(&n);
    Section {
        title: Some(title),
        slug: string_of(&slug),
        body: string_of(&body),
        source: SectionSource::Rules,
        target_overrides: ov,
        description,
    }
}

/// A rule has a description exactly when its header has a `description`
/// field, and it is the value of the last such field; a rules file without a
/// header has none.
pub proof fn law_rule_description_is_its_field(name: Seq<char>, content: Seq<char>)
    ensures
        match split_frontmatter(content) {
            None => rule_section(name, content).description is None,
            Some((h, _)) => {
                &&& (rule_section(name, content).description is Some <==> exists|i: int|
                    0 <= i < fields(h).len() && (#[trigger] fields(h)[i]).0 == "description"@)
                &&& (rule_section(name, content).description matches Some(d) ==> exists|i: int|
                    0 <= i < fields(h).len() && #[trigger] fields(h)[i] == ("description"@, d)
                        && forall|j: int|
                        i < j < fields(h).len() ==> (#[trigger] fields(h)[j]).0 != "description"@)
            },
        },
{
    reveal_strlit("description");
    assert(description_key() =~= "description"@);
    match split_frontmatter(content) {
        None => {},
        Some((h, _)) => {
            lemma_last_value(fields(h), description_key());
        },
    }
}

/// A rules file whose header is the single line `description:` and a value
/// gets that value, trimmed and whole (colons included), as its
/// description, and the trimmed text after the header as its body.
pub proof fn law_rule_description_line(name: Seq<char>, value: Seq<char>, body: Seq<char>)
    requires
        forall|i: int| 0 <= i < value.len() ==> #[trigger] value[i] != '\n',
    ensures
        rule_section(
            name,
            fence() + seq!['\n'] + description_key() + seq![':'] + value + close_fence() + seq!['\n']
                + body,
        ).description == Some(trim(value)),
        rule_section(
            name,
            fence() + seq!['\n'] + description_key() + seq![':'] + value + close_fence() + seq!['\n']
                + body,
        ).body == trim(body),
{
    let key = description_key();
    let h = key + seq![':'] + value;
    let cf = close_fence();
    assert forall|i: int| 0 <= i < h.len() implies #[trigger] h[i] != '\n' by {
        if i > key.len() {
            assert(h[i] == value[i - key.len() - 1]);
        }
    }
    lemma_find_sub_from(h, cf, 0);
    if find_sub(h, cf) is Some {
        let x = find_sub(h, cf).unwrap();
        assert(h.subrange(x, x + 4)[0] == h[x]);
    }
    law_split_frontmatter_round_trip(h, body);
    assert(fence() + seq!['\n'] + key + seq![':'] + value + cf + seq!['\n'] + body =~= fence()
        + seq!['\n'] + h + cf + seq!['\n'] + body);
    assert forall|i: int| 0 <= i < key.len() implies #[trigger] key[i] != ':' && !is_ws(key[i]) by {}
    law_field_of_line(key, value);
    crate::parse::frontmatter::lemma_trim_is_whole(key);
    crate::text::lemma_find_char_from(h, '\n', 0);
    assert(lines(h) == seq![h.subrange(0, h.len() as int)]);
    assert(h.subrange(0, h.len() as int) =~= h);
    assert(fields(h) == fields_upto(seq![h], 1));
    assert(seq![h][0] == h);
    assert(field_of(h) == Some((key, trim(value))));
    assert(fields_upto(seq![h], 0) == Seq::<(Seq<char>, Seq<char>)>::empty());
    assert(fields_upto(seq![h], 1) =~= seq![(key, trim(value))]);
    let fs = fields(h);
    assert(fs.last().0 == key);
}

} // verus!
