//! Skill files (`<name>/SKILL.md`): one skill per file.
use vstd::prelude::*;

use crate::ir::{OverrideView, Skill, SkillView, TargetOverrides};
use crate::parse::frontmatter::{
    collect_overrides, fields, last_value, last_value_exec, lemma_last_value, overrides_of, parse_fields,
    split_frontmatter, split_frontmatter_exec, texts_view, FieldView,
};
use crate::text::{
    chars_eq, chars_of, find_char_exec, find_char_from, lemma_find_char_from, opt_chars,
    slice_chars, string_of, trim, trim_exec,
};

verus! {

/// `name`
pub open spec fn name_key() -> Seq<char> {
    seq!['n', 'a', 'm', 'e']
}

/// `description`
pub open spec fn description_key() -> Seq<char> {
    seq!['d', 'e', 's', 'c', 'r', 'i', 'p', 't', 'i', 'o', 'n']
}

/// `paths`
pub open spec fn paths_key() -> Seq<char> {
    seq!['p', 'a', 't', 'h', 's']
}

/// `disable-model-invocation`
pub open spec fn disable_key() -> Seq<char> {
    seq![
        'd', 'i', 's', 'a', 'b', 'l', 'e', '-', 'm', 'o', 'd', 'e', 'l', '-', 'i', 'n', 'v', 'o',
        'c', 'a', 't', 'i', 'o', 'n',
    ]
}

/// The field names that a skill's header knows; every other field is an
/// override.
pub open spec fn known_keys() -> Seq<Seq<char>> {
    seq![name_key(), description_key(), paths_key(), disable_key()]
}

/// `true`
pub open spec fn true_text() -> Seq<char> {
    seq!['t', 'r', 'u', 'e']
}

/// The known fields of a skill's header, each the value of its last
/// occurrence.
#[derive(Debug, Clone, PartialEq)]
pub struct SkillFields {
    pub name: Option<String>,
    pub description: Option<String>,
    pub paths: Option<String>,
    pub disable_model_invocation: Option<String>,
}

/// The known fields of a skill's header, as text.
pub type SkillFieldsView = (Option<Seq<char>>, Option<Seq<char>>, Option<Seq<char>>, Option<Seq<char>>);

impl View for SkillFields {
    type V = SkillFieldsView;

    open spec fn view(&self) -> SkillFieldsView {
        (
            self.name.deep_view(),
            self.description.deep_view(),
            self.paths.deep_view(),
            self.disable_model_invocation.deep_view(),
        )
    }
}

/// The known fields stated by the fields `fs`.
pub open spec fn known_fields(fs: Seq<FieldView>) -> SkillFieldsView {
    (
        last_value(fs, name_key()),
        last_value(fs, description_key()),
        last_value(fs, paths_key()),
        last_value(fs, disable_key()),
    )
}

/// What the header of a skill file gives: its known fields, the overrides
/// of its other fields, and the text after it. Without a header: no fields,
/// no overrides, and the whole text.
pub open spec fn skill_frontmatter(content: Seq<char>) -> (
    SkillFieldsView,
    Seq<OverrideView>,
    Seq<char>,
) {
    match split_frontmatter(content) {
        Some((h, rest)) => (known_fields(fields(h)), overrides_of(fields(h), known_keys()), rest),
        None => ((None, None, None, None), Seq::empty(), content),
    }
}

/// The pieces of `s` from index `i` on, split at each `c` (as `str::split`
/// cuts them: empty pieces included).
pub open spec fn split_from(s: Seq<char>, c: char, i: int) -> Seq<Seq<char>>
    decreases s.len() + 1 - i,
{
    if i < 0 || i > s.len() {
        Seq::empty()
    } else {
        match find_char_from(s, c, i) {
            Some(k) => {
                if k < i || k >= s.len() {
                    Seq::empty()
                } else {
                    seq![s.subrange(i, k)] + split_from(s, c, k + 1)
                }
            },
            None => seq![s.subrange(i, s.len() as int)],
        }
    }
}

/// The globs of a `paths` value: the value split at each `,`, every piece
/// trimmed.
pub open spec fn paths_of(value: Seq<char>) -> Seq<Seq<char>> {
    trim_all(split_from(value, ',', 0))
}

/// Every text of `s`, trimmed.
pub open spec fn trim_all(s: Seq<Seq<char>>) -> Seq<Seq<char>> {
    s.map_values(|p: Seq<char>| trim(p))
}

/// The skill that a skill file in directory `dir` with text `content`
/// gives.
pub open spec fn skill_of(dir: Seq<char>, content: Seq<char>) -> SkillView {
    let fm = skill_frontmatter(content);
    let f = fm.0;
    SkillView {
        name: match f.0 {
            Some(n) => n,
            None => dir,
        },
        description: f.1,
        paths: match f.2 {
            Some(p) => paths_of(p),
            None => Seq::empty(),
        },
        disable_model_invocation: f.3 == Some(true_text()),
        overrides: fm.1,
        body: trim(fm.2),
    }
}

/// Reads the optional header of a skill file: its known fields, its
/// `target: key=value` overrides, and the text after it.
pub fn parse_frontmatter(content: &str) -> (res: (SkillFields, TargetOverrides, String))
    ensures
        (res.0@, res.1@, res.2@) == skill_frontmatter(content@),
{
    let v = chars_of(content);
    let (f, ov, rest) = skill_frontmatter_chars(&v);
    (f, ov, string_of(&rest))
}

fn opt_string(o: Option<Vec<char>>) -> (res: Option<String>)
    ensures
        res.deep_view() == opt_chars(o),
{
    match o {
        Some(x) => Some(string_of(&x)),
        None => None,
    }
}

/// `skill_frontmatter` of text given as characters.
fn skill_frontmatter_chars(v: &Vec<char>) -> (res: (SkillFields, TargetOverrides, Vec<char>))
    ensures
        (res.0@, res.1@, res.2@) == skill_frontmatter(v@),
{
    match split_frontmatter_exec(v) {
        Some((h, rest)) => {
            let fs = parse_fields(&h);
            let kn = vec!['n', 'a', 'm', 'e'];
            let kd = vec!['d', 'e', 's', 'c', 'r', 'i', 'p', 't', 'i', 'o', 'n'];
            let kp = vec!['p', 'a', 't', 'h', 's'];
            let kx = vec![
                'd', 'i', 's', 'a', 'b', 'l', 'e', '-', 'm', 'o', 'd', 'e', 'l', '-', 'i', 'n',
                'v', 'o', 'c', 'a', 't', 'i', 'o', 'n',
            ];
            assert(kn@ =~= name_key());
            assert(kd@ =~= description_key());
            assert(kp@ =~= paths_key());
            assert(kx@ =~= disable_key());
            let f = SkillFields {
                name: opt_string(last_value_exec(&fs, &kn)),
                description: opt_string(last_value_exec(&fs, &kd)),
                paths: opt_string(last_value_exec(&fs, &kp)),
                disable_model_invocation: opt_string(last_value_exec(&fs, &kx)),
            };
            let mut known: Vec<Vec<char>> = Vec::new();
            known.push(kn);
            known.push(kd);
            known.push(kp);
            known.push(kx);
            assert(texts_view(known@) =~= known_keys());
            let ov = collect_overrides(&fs, &known);
            (f, ov, rest)
        },
        None => {
            let copy = slice_chars(v, 0, v.len());
            assert(copy@ =~= v@);
            let f = SkillFields {
                name: None,
                description: None,
                paths: None,
                disable_model_invocation: None,
            };
            (f, TargetOverrides::new(), copy)
        },
    }
}

/// The globs of a `paths` value, as `paths_of` says.
pub fn split_paths(value: &Vec<char>) -> (res: Vec<String>)
    ensures
        res.deep_view() == paths_of(value@),
{
    let mut res: Vec<String> = Vec::new();
    let mut i: usize = 0;
    let ghost pieces = split_from(value@, ',', 0);
    let ghost got: Seq<Seq<char>> = Seq::empty();
    loop
        invariant
            i <= value.len(),
            got + split_from(value@, ',', i as int) == pieces,
            pieces == split_from(value@, ',', 0),
            res.deep_view() == trim_all(got),
        decreases value.len() - i,
    {
        proof {
            lemma_find_char_from(value@, ',', i as int);
        }
        match find_char_exec(value, ',', i) {
            Some(k) => {
                let piece = slice_chars(value, i, k);
                let t = trim_exec(&piece);
                let ghost before = res.deep_view();
                res.push(string_of(&t));
                proof {
                    assert(res.deep_view() =~= before.push(trim(piece@)));
                    assert(split_from(value@, ',', i as int) == seq![piece@] + split_from(
                        value@,
                        ',',
                        k + 1,
                    ));
                    assert(trim_all(got.push(piece@)) =~= trim_all(got).push(trim(piece@)));
                    assert(got.push(piece@) + split_from(value@, ',', k + 1) =~= got + split_from(
                        value@,
                        ',',
                        i as int,
                    ));
                    got = got.push(piece@);
                }
                i = k + 1;
            },
            None => {
                let piece = slice_chars(value, i, value.len());
                let t = trim_exec(&piece);
                let ghost before = res.deep_view();
                res.push(string_of(&t));
                proof {
                    assert(res.deep_view() =~= before.push(trim(piece@)));
                    assert(split_from(value@, ',', i as int) == seq![piece@]);
                    assert(trim_all(got.push(piece@)) =~= trim_all(got).push(trim(piece@)));
                    assert(got.push(piece@) =~= got + split_from(value@, ',', i as int));
                    assert(got.push(piece@) == pieces);
                    assert(res.deep_view() =~= paths_of(value@));
                }
                return res;
            },
        }
    }
}

/// The skill of a skill file, given the name of its directory and its
/// text: named by its `name` field or else the directory, with the header's
/// description, globs, `disable-model-invocation` flag and overrides, and
/// the trimmed text after the header as body.
pub fn parse_skill_text(dir_name: &str, content: &str) -> (res: Skill)
    ensures
        res@ == skill_of(dir_name@, content@),
{
    let v = chars_of(content);
    let (f, ov, rest) = skill_frontmatter_chars(&v);
    let name = match f.name {
        Some(n) => n,
        None => string_of(&chars_of(dir_name)),
    };
    let paths = match &f.paths {
        Some(p) => split_paths(&chars_of(p.as_str())),
        None => Vec::new(),
    };
    let disable = match &f.disable_model_invocation {
        Some(x) => {
            let t = vec!['t', 'r', 'u', 'e'];
            assert(t@ =~= true_text());
            chars_eq(&chars_of(x.as_str()), &t)
        },
        None => false,
    };
    let body = trim_exec(&rest);
    proof {
        if f.paths is None {
            assert(paths.deep_view() =~= Seq::<Seq<char>>::empty());
        }
    }
    Skill {
        name,
        description: f.description,
        paths,
        disable_model_invocation: disable,
        target_overrides: ov,
        body: string_of(&body),
    }
}

/// A skill has a description exactly when its header has a `description`
/// field, and it is the value of the last such field; a skill file without a
/// header has none. Nothing else (such as the name) stands in for it.
pub proof fn law_skill_description_is_its_field(dir: Seq<char>, content: Seq<char>)
    ensures
        match split_frontmatter(content) {
            None => skill_of(dir, content).description is None,
            Some((h, _)) => {
                &&& (skill_of(dir, content).description is Some <==> exists|i: int|
                    0 <= i < fields(h).len() && (#[trigger] fields(h)[i]).0 == "description"@)
                &&& (skill_of(dir, content).description matches Some(d) ==> exists|i: int|
                    0 <= i < fields(h).len() && #[trigger] fields(h)[i] == ("description"@, d)
                        && forall|j: int|
                        i < j < fields(h).len() ==> (#[trigger] fields(h)[j]).0 != "description"@)
            },
        },
{
    reveal_strlit("description");
    assert(description_key() =~= "description"@);
    match split_frontmatter(content) {
        None => {},
        Some((h, _)) => {
            lemma_last_value(fields(h), description_key());
        },
    }
}

/// A skill is named by the value of the last `name` field of its header,
/// and by its directory where there is none; model invocation is disabled
/// exactly when the last `disable-model-invocation` field says `true`.
pub proof fn law_skill_name_and_invocation(dir: Seq<char>, content: Seq<char>)
    ensures
        match split_frontmatter(content) {
            None => skill_of(dir, content).name == dir && !skill_of(
                dir,
                content,
            ).disable_model_invocation,
            Some((h, _)) => {
                &&& ((forall|i: int| 0 <= i < fields(h).len() ==> (#[trigger] fields(h)[i]).0 != name_key())
                    ==> skill_of(dir, content).name == dir)
                &&& (forall|i: int|
                    0 <= i < fields(h).len() && (#[trigger] fields(h)[i]).0 == name_key() && (forall|j: int|
                        i < j < fields(h).len() ==> (#[trigger] fields(h)[j]).0 != name_key())
                        ==> skill_of(dir, content).name == fields(h)[i].1)
                &&& (skill_of(dir, content).disable_model_invocation <==> exists|i: int|
                    0 <= i < fields(h).len() && #[trigger] fields(h)[i] == (disable_key(), true_text())
                        && forall|j: int|
                        i < j < fields(h).len() ==> (#[trigger] fields(h)[j]).0 != disable_key())
            },
        },
{
    match split_frontmatter(content) {
        None => {},
        Some((h, _)) => {
            let fs = fields(h);
            lemma_last_value(fs, name_key());
            lemma_last_value(fs, disable_key());
            assert forall|i: int|
                0 <= i < fs.len() && (#[trigger] fs[i]).0 == name_key() && (forall|j: int|
                    i < j < fs.len() ==> (#[trigger] fs[j]).0 != name_key()) implies skill_of(
                dir,
                content,
            ).name == fs[i].1 by {
                let v = last_value(fs, name_key()).unwrap();
                let i2 = choose|i2: int|
                    0 <= i2 < fs.len() && #[trigger] fs[i2] == (name_key(), v) && forall|j: int|
                        i2 < j < fs.len() ==> (#[trigger] fs[j]).0 != name_key();
                if i < i2 {
                    assert(fs[i2].0 == name_key());
                } else if i2 < i {
                    assert(fs[i].0 == name_key());
                }
            }
            if skill_of(dir, content).disable_model_invocation {
                assert(last_value(fs, disable_key()) == Some(true_text()));
            }
            if exists|i: int|
                0 <= i < fs.len() && #[trigger] fs[i] == (disable_key(), true_text()) && forall|j: int|
                    i < j < fs.len() ==> (#[trigger] fs[j]).0 != disable_key() {
                let i = choose|i: int|
                    0 <= i < fs.len() && #[trigger] fs[i] == (disable_key(), true_text()) && forall|j: int|
                        i < j < fs.len() ==> (#[trigger] fs[j]).0 != disable_key();
                let v = last_value(fs, disable_key()).unwrap();
                let i2 = choose|i2: int|
                    0 <= i2 < fs.len() && #[trigger] fs[i2] == (disable_key(), v) && forall|j: int|
                        i2 < j < fs.len() ==> (#[trigger] fs[j]).0 != disable_key();
                if i < i2 {
                    assert(fs[i2].0 == disable_key());
                } else if i2 < i {
                    assert(fs[i].0 == disable_key());
                }
            }
        },
    }
}

} // verus!
