//! Cursor: one `.cursor/rules/<slug>.mdc` per section, one
//! `.cursor/skills/<name>.mdc` per skill, and `.cursor/mcp.json`.
use vstd::prelude::*;

use crate::generate::{join_path, join_root, GeneratedFile};
use crate::ir::{pairs_for, ProjectConfig, Section, SectionView, Skill, SkillView};
use crate::json::{json_clone, json_pretty, json_to_pretty, Json, JsonView};
use crate::text::{join_exec, join_with, push_str, str_eq};

verus! {

/// The value that the pairs give `key`: the value of the last pair with that
/// key, or `default` where there is none.
pub open spec fn last_override(pairs: Seq<(Seq<char>, Seq<char>)>, key: Seq<char>, default: Seq<
    char,
>) -> Seq<char>
    decreases pairs.len(),
{
    if pairs.len() == 0 {
        default
    } else if pairs.last().0 == key {
        pairs.last().1
    } else {
        last_override(pairs.drop_last(), key, default)
    }
}

/// `cursor`, the target whose overrides apply here.
pub open spec fn cursor_target() -> Seq<char> {
    "cursor"@
}

/// The text of an `.mdc` file: a header that marks the file as generated
/// and gives `alwaysApply`, then `description` and `globs` where they are
/// not empty, then the further field lines `extra`; then the body.
pub open spec fn mdc_text(
    always_apply: Seq<char>,
    description: Seq<char>,
    globs: Seq<char>,
    extra: Seq<char>,
    body: Seq<char>,
) -> Seq<char> {
    "---\n"@ + "generated-by: agentic-sync"@ + "\n"@ + "alwaysApply: "@ + always_apply + "\n"@ + (
    if description.len() > 0 {
        "description: "@ + description + "\n"@
    } else {
        Seq::empty()
    }) + (if globs.len() > 0 {
        "globs: "@ + globs + "\n"@
    } else {
        Seq::empty()
    }) + extra + "---\n\n"@ + body + "\n"@
}

/// The keys that have a place of their own in the header.
pub open spec fn is_placed_key(k: Seq<char>) -> bool {
    k == "alwaysApply"@ || k == "description"@ || k == "globs"@
}

/// Whether some pair of `ps` has key `k`.
pub open spec fn has_key(ps: Seq<(Seq<char>, Seq<char>)>, k: Seq<char>) -> bool
    decreases ps.len(),
{
    ps.len() > 0 && (ps[0].0 == k || has_key(ps.skip(1), k))
}

/// The further header lines that the first `n` override pairs give: a
/// `key: value` line for each pair whose key has no place of its own and
/// does not come again later, in order.
pub open spec fn extra_lines(pairs: Seq<(Seq<char>, Seq<char>)>, n: int) -> Seq<char>
    decreases n,
{
    if n <= 0 || n > pairs.len() {
        Seq::empty()
    } else {
        let (k, v) = pairs[n - 1];
        extra_lines(pairs, n - 1) + if !is_placed_key(k) && !has_key(pairs.skip(n), k) {
            k + ": "@ + v + "\n"@
        } else {
            Seq::empty()
        }
    }
}

/// The further header lines of all the pairs.
pub open spec fn extra_fields(pairs: Seq<(Seq<char>, Seq<char>)>) -> Seq<char> {
    extra_lines(pairs, pairs.len() as int)
}

/// The description a section's rule has unless overridden: the section's
/// description, else its title, else nothing.
pub open spec fn section_description(s: SectionView) -> Seq<char> {
    match s.description {
        Some(d) => d,
        None => match s.title {
            Some(t) => t,
            None => Seq::empty(),
        },
    }
}

/// The rule file of a section: `alwaysApply` is `true` and the description
/// is `section_description`, unless the section's `cursor:` overrides give
/// `alwaysApply`, `description` or `globs`; every other key becomes a
/// header line of its own.
pub open spec fn rule_file(root: Seq<char>, s: SectionView) -> (Seq<char>, Seq<char>) {
    let pairs = pairs_for(s.overrides, cursor_target());
    (
        join_path(root, ".cursor/rules/"@ + s.slug + ".mdc"@),
        mdc_text(
            last_override(pairs, "alwaysApply"@, "true"@),
            last_override(pairs, "description"@, section_description(s)),
            last_override(pairs, "globs"@, Seq::empty()),
            extra_fields(pairs),
            s.body,
        ),
    )
}

/// The skill file of a skill: `alwaysApply` is `false` exactly when model
/// invocation is disabled, the description is the skill's, and the globs are
/// its paths joined by `, `, unless the skill's `cursor:` overrides give
/// `alwaysApply`, `description` or `globs`; every other key becomes a
/// header line of its own.
pub open spec fn skill_file(root: Seq<char>, k: SkillView) -> (Seq<char>, Seq<char>) {
    let pairs = pairs_for(k.overrides, cursor_target());
    let always = if k.disable_model_invocation {
        "false"@
    } else {
        "true"@
    };
    let description = match k.description {
        Some(d) => d,
        None => Seq::empty(),
    };
    (
        join_path(root, ".cursor/skills/"@ + k.name + ".mdc"@),
        mdc_text(
            last_override(pairs, "alwaysApply"@, always),
            last_override(pairs, "description"@, description),
            last_override(pairs, "globs"@, join_with(k.paths, ", "@)),
            extra_fields(pairs),
            k.body,
        ),
    )
}

/// Where the MCP servers go.
pub open spec fn mcp_path() -> Seq<char> {
    ".cursor/mcp.json"@
}

/// The value that the pairs give `key`, or `default`.
fn last_override_exec(pairs: &Option<Vec<(String, String)>>, key: &str, default: String) -> (res:
    String)
    ensures
        res@ == last_override(
            match pairs {
                Some(v) => v.deep_view(),
                None => Seq::empty(),
            },
            key@,
            default@,
        ),
{
    match pairs {
        None => default,
        Some(v) => {
            let mut cur = default;
            let mut i: usize = v.len();
            let ghost pv = v.deep_view();
            assert(pv.take(v.len() as int) =~= pv);
            while i > 0
                invariant
                    i <= v.len(),
                    pv == v.deep_view(),
                    *pairs == Some(*v),
                    last_override(pv, key@, default@) == last_override(pv.take(i as int), key@, default@),
                decreases i,
            {
                let (k, val) = &v[i - 1];
                assert(pv.take(i as int).last() == (k@, val@));
                assert(pv.take(i as int).drop_last() =~= pv.take(i - 1));
                if str_eq(k.as_str(), key) {
                    let r = val.clone();
                    assert(last_override(pv.take(i as int), key@, default@) == val@);
                    return r;
                }
                i = i - 1;
            }
            assert(pv.take(0) =~= Seq::<(Seq<char>, Seq<char>)>::empty());
            cur
        },
    }
}

/// Whether a pair of `v` after the `i`-th has key `k`.
fn key_comes_later(v: &Vec<(String, String)>, i: usize, k: &str) -> (res: bool)
    requires
        i < v.len(),
    ensures
        res == has_key(v.deep_view().skip(i + 1), k@),
{
    let ghost pv = v.deep_view();
    let mut j: usize = i + 1;
    while j < v.len()
        invariant
            i < j <= v.len(),
            pv == v.deep_view(),
            has_key(pv.skip(i + 1), k@) == has_key(pv.skip(j as int), k@),
        decreases v.len() - j,
    {
        assert(pv.skip(j as int).skip(1) =~= pv.skip(j + 1));
        assert(pv.skip(j as int)[0] == pv[j as int]);
        if str_eq(v[j].0.as_str(), k) {
            return true;
        }
        j = j + 1;
    }
    false
}

/// The further header lines of the pairs, as `extra_fields` says.
fn extra_exec(pairs: &Option<Vec<(String, String)>>) -> (res: String)
    ensures
        res@ == extra_fields(
            match pairs {
                Some(v) => v.deep_view(),
                None => Seq::empty(),
            },
        ),
{
    let mut out = String::new();
    match pairs {
        None => {
            assert(out@ =~= Seq::<char>::empty());
            out
        },
        Some(v) => {
            let ghost pv = v.deep_view();
            let mut i: usize = 0;
            assert(out@ =~= extra_lines(pv, 0));
            while i < v.len()
                invariant
                    i <= v.len(),
                    pv == v.deep_view(),
                    out@ == extra_lines(pv, i as int),
                decreases v.len() - i,
            {
                let (k, val) = &v[i];
                assert(pv[i as int] == (k@, val@));
                let placed = str_eq(k.as_str(), "alwaysApply") || str_eq(k.as_str(), "description")
                    || str_eq(k.as_str(), "globs");
                if !placed && !key_comes_later(v, i, k.as_str()) {
                    push_str(&mut out, k.as_str());
                    push_str(&mut out, ": ");
                    push_str(&mut out, val.as_str());
                    push_str(&mut out, "\n");
                }
                assert(out@ =~= extra_lines(pv, i + 1));
                i = i + 1;
            }
            out
        },
    }
}

/// The text of an `.mdc` file, as `mdc_text` says.
fn mdc_exec(
    always_apply: &String,
    description: &String,
    globs: &String,
    extra: &String,
    body: &String,
) -> (res: String)
    ensures
        res@ == mdc_text(always_apply@, description@, globs@, extra@, body@),
{
    let mut c = String::new();
    push_str(&mut c, "---\n");
    push_str(&mut c, "generated-by: agentic-sync");
    push_str(&mut c, "\n");
    push_str(&mut c, "alwaysApply: ");
    push_str(&mut c, always_apply.as_str());
    push_str(&mut c, "\n");
    if !description.as_str().is_empty() {
        push_str(&mut c, "description: ");
        push_str(&mut c, description.as_str());
        push_str(&mut c, "\n");
    }
    if !globs.as_str().is_empty() {
        push_str(&mut c, "globs: ");
        push_str(&mut c, globs.as_str());
        push_str(&mut c, "\n");
    }
    push_str(&mut c, extra.as_str());
    push_str(&mut c, "---\n\n");
    push_str(&mut c, body.as_str());
    push_str(&mut c, "\n");
    assert(c@ =~= mdc_text(always_apply@, description@, globs@, extra@, body@));
    c
}

/// The rule file of a section, as `rule_file` says.
pub fn render_rule(root: &str, s: &Section) -> (res: GeneratedFile)
    ensures
        res@ == rule_file(root@, s@),
{
    let pairs = s.target_overrides.get("cursor");
    let default_description = match &s.description {
        Some(d) => d.clone(),
        None => match &s.title {
            Some(t) => t.clone(),
            None => String::new(),
        },
    };
    let always = last_override_exec(&pairs, "alwaysApply", String::from_str("true"));
    let description = last_override_exec(&pairs, "description", default_description);
    let globs = last_override_exec(&pairs, "globs", String::new());
    let extra = extra_exec(&pairs);
    let content = mdc_exec(&always, &description, &globs, &extra, &s.body);
    let mut rel = String::new();
    push_str(&mut rel, ".cursor/rules/");
    push_str(&mut rel, s.slug.as_str());
    push_str(&mut rel, ".mdc");
    let path = join_root(root, rel.as_str());
    proof {
        let pv = pairs_for(s.target_overrides@, cursor_target());
        assert(match pairs {
            Some(v) => v.deep_view(),
            None => Seq::empty(),
        } == pv);
    }
    GeneratedFile { path, content }
}

/// The skill file of a skill, as `skill_file` says.
pub fn render_skill(root: &str, k: &Skill) -> (res: GeneratedFile)
    ensures
        res@ == skill_file(root@, k@),
{
    let pairs = k.target_overrides.get("cursor");
    let always_default = if k.disable_model_invocation {
        String::from_str("false")
    } else {
        String::from_str("true")
    };
    let description_default = match &k.description {
        Some(d) => d.clone(),
        None => String::new(),
    };
    let always = last_override_exec(&pairs, "alwaysApply", always_default);
    let description = last_override_exec(&pairs, "description", description_default);
    let globs = last_override_exec(&pairs, "globs", join_exec(&k.paths, ", "));
    let extra = extra_exec(&pairs);
    let content = mdc_exec(&always, &description, &globs, &extra, &k.body);
    let mut rel = String::new();
    push_str(&mut rel, ".cursor/skills/");
    push_str(&mut rel, k.name.as_str());
    push_str(&mut rel, ".mdc");
    let path = join_root(root, rel.as_str());
    proof {
        let pv = pairs_for(k.target_overrides@, cursor_target());
        assert(match pairs {
            Some(v) => v.deep_view(),
            None => Seq::empty(),
        } == pv);
    }
    GeneratedFile { path, content }
}

/// `mcpServers`, the key under which Cursor expects the servers.
pub open spec fn servers_key() -> Seq<char> {
    "mcpServers"@
}

/// The text of the MCP file for a server table: the object
/// `{"mcpServers": servers}` as `serde_json` pretty-prints it (nothing where
/// it reports an error), then a newline.
pub open spec fn mcp_text(servers: JsonView) -> Seq<char> {
    let printed = match json_pretty(JsonView::Object(seq![(servers_key(), servers)])) {
        Some(t) => t,
        None => Seq::empty(),
    };
    printed + "\n"@
}

/// The MCP file of a server table.
pub open spec fn mcp_file(root: Seq<char>, servers: JsonView, f: GeneratedFile) -> bool {
    f@ == (join_path(root, mcp_path()), mcp_text(servers))
}

/// The MCP file of a server table, as `mcp_file` says.
pub fn render_mcp(root: &str, servers: &Json) -> (res: GeneratedFile)
    ensures
        mcp_file(root@, servers@, res),
{
    let mut members: Vec<(String, Json)> = Vec::new();
    members.push((String::from_str("mcpServers"), json_clone(servers)));
    let wrapper = Json::Object(members);
    proof {
        reveal_strlit("mcpServers");
        let m = match wrapper@ {
            JsonView::Object(x) => x,
            _ => Seq::empty(),
        };
        assert(m.len() == 1);
        assert(m[0] == (servers_key(), servers@));
        assert(m =~= seq![(servers_key(), servers@)]);
    }
    let mut content = match json_to_pretty(&wrapper) {
        Some(t) => t,
        None => String::new(),
    };
    push_str(&mut content, "\n");
    let path = join_root(root, ".cursor/mcp.json");
    GeneratedFile { path, content }
}

/// The Cursor files of a project: the rule files of its sections in order,
/// then the skill files of its skills in order, then `.cursor/mcp.json`
/// where it has MCP servers.
pub fn generate(root: &str, config: &ProjectConfig) -> (res: Vec<GeneratedFile>)
    ensures
        res@.len() == config.sections@.len() + config.skills@.len() + if config.mcp is Some {
            1int
        } else {
            0int
        },
        forall|i: int|
            0 <= i < config.sections@.len() ==> #[trigger] res@[i]@ == rule_file(
                root@,
                config.sections@[i]@,
            ),
        forall|j: int|
            0 <= j < config.skills@.len() ==> #[trigger] res@[config.sections@.len() + j]@
                == skill_file(root@, config.skills@[j]@),
        config.mcp matches Some(m) ==> mcp_file(
            root@,
            m.servers@,
            res@[config.sections@.len() + config.skills@.len() as int],
        ),
{
    let mut files: Vec<GeneratedFile> = Vec::new();
    let mut i: usize = 0;
    while i < config.sections.len()
        invariant
            i <= config.sections.len(),
            files@.len() == i,
            forall|k: int|
                0 <= k < i ==> #[trigger] files@[k]@ == rule_file(root@, config.sections@[k]@),
        decreases config.sections.len() - i,
    {
        files.push(render_rule(root, &config.sections[i]));
        i = i + 1;
    }
    let n = config.sections.len();
    let mut j: usize = 0;
    while j < config.skills.len()
        invariant
            j <= config.skills.len(),
            n == config.sections@.len(),
            files@.len() == n + j,
            forall|k: int|
                0 <= k < n ==> #[trigger] files@[k]@ == rule_file(root@, config.sections@[k]@),
            forall|k: int|
                0 <= k < j ==> #[trigger] files@[n + k]@ == skill_file(root@, config.skills@[k]@),
        decreases config.skills.len() - j,
    {
        files.push(render_skill(root, &config.skills[j]));
        j = j + 1;
    }
    match &config.mcp {
        Some(m) => {
            files.push(render_mcp(root, &m.servers));
        },
        None => {},
    }
    files
}

} // verus!
