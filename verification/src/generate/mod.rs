//! The configuration files rendered for each target.
pub mod copilot;
pub mod cursor;

use vstd::prelude::*;

use crate::generate::copilot::{copilot_header, copilot_path};
use crate::generate::cursor::{mcp_file, rule_file, skill_file};
use crate::ir::ProjectConfig;
use crate::text::{push_str, string_of};
use crate::Target;

verus! {

/// A file to be written: its path and its full text.
#[derive(Debug, Clone, PartialEq)]
pub struct GeneratedFile {
    pub path: String,
    pub content: String,
}

impl View for GeneratedFile {
    type V = (Seq<char>, Seq<char>);

    open spec fn view(&self) -> (Seq<char>, Seq<char>) {
        (self.path@, self.content@)
    }
}

impl DeepView for GeneratedFile {
    type V = (Seq<char>, Seq<char>);

    open spec fn deep_view(&self) -> (Seq<char>, Seq<char>) {
        self@
    }
}

/// The path `rel`, relative to the project root `root`: the two joined by a
/// `/` unless `root` is empty or already ends with one.
pub open spec fn join_path(root: Seq<char>, rel: Seq<char>) -> Seq<char> {
    if root.len() > 0 && root.last() != '/' {
        root + seq!['/'] + rel
    } else {
        root + rel
    }
}

/// The path `rel` under the project root `root`, as `join_path` says.
pub fn join_root(root: &str, rel: &str) -> (res: String)
    ensures
        res@ == join_path(root@, rel@),
{
    let r = crate::text::chars_of(root);
    let mut s = string_of(&r);
    if r.len() > 0 && r[r.len() - 1] != '/' {
        crate::text::push_char(&mut s, '/');
    }
    push_str(&mut s, rel);
    s
}

/// How many files `t` renders for `config`, with `instructions` the text of
/// the instructions file where there is one.
pub open spec fn target_file_count(
    t: Target,
    config: ProjectConfig,
    instructions: Option<Seq<char>>,
) -> int {
    match t {
        Target::Cursor => config.sections@.len() + config.skills@.len() + if config.mcp is Some {
            1int
        } else {
            0int
        },
        Target::Copilot => if instructions is Some {
            1int
        } else {
            0int
        },
    }
}

/// How many files the first `k` targets render.
pub open spec fn files_before(
    targets: Seq<Target>,
    config: ProjectConfig,
    instructions: Option<Seq<char>>,
    k: int,
) -> int
    decreases k,
{
    if k <= 0 || k > targets.len() {
        0
    } else {
        files_before(targets, config, instructions, k - 1) + target_file_count(
            targets[k - 1],
            config,
            instructions,
        )
    }
}

/// Whether `f` is the `i`-th file that `t` renders: for Cursor the rule
/// files of the sections, then the skill files, then the MCP file; for
/// Copilot its instructions.
pub open spec fn renders_as(
    root: Seq<char>,
    t: Target,
    config: ProjectConfig,
    instructions: Option<Seq<char>>,
    i: int,
    f: GeneratedFile,
) -> bool {
    match t {
        Target::Cursor => {
            let ns = config.sections@.len() as int;
            let nk = config.skills@.len() as int;
            if i < ns {
                f@ == rule_file(root, config.sections@[i]@)
            } else if i < ns + nk {
                f@ == skill_file(root, config.skills@[i - ns]@)
            } else {
                match config.mcp {
                    Some(m) => mcp_file(root, m.servers@, f),
                    None => false,
                }
            }
        },
        Target::Copilot => match instructions {
            Some(c) => f@ == (join_path(root, copilot_path()), copilot_header() + c),
            None => false,
        },
    }
}

/// The `i`-th file of the `k`-th target among `files`.
pub open spec fn file_of_target(
    files: Seq<GeneratedFile>,
    targets: Seq<Target>,
    config: ProjectConfig,
    instructions: Option<Seq<char>>,
    k: int,
    i: int,
) -> GeneratedFile {
    files[files_before(targets, config, instructions, k) + i]
}

proof fn lemma_files_before_grows(
    targets: Seq<Target>,
    config: ProjectConfig,
    instructions: Option<Seq<char>>,
    k: int,
    n: int,
)
    requires
        0 <= k <= n <= targets.len(),
    ensures
        0 <= files_before(targets, config, instructions, k) <= files_before(
            targets,
            config,
            instructions,
            n,
        ),
    decreases n,
{
    if n > k {
        lemma_files_before_grows(targets, config, instructions, k, n - 1);
    } else if k > 0 {
        lemma_files_before_grows(targets, config, instructions, k - 1, k - 1);
    }
}

/// The files of every target in `targets`, target after target, each
/// target's files in the order that `renders_as` gives.
pub fn render_targets(
    root: &str,
    targets: &[Target],
    config: &ProjectConfig,
    instructions: Option<&str>,
) -> (res: Vec<GeneratedFile>)
    ensures
        res@.len() == files_before(targets@, *config, instructions.deep_view(), targets@.len() as int),
        forall|k: int, i: int|
            0 <= k < targets@.len() && 0 <= i < target_file_count(
                targets@[k],
                *config,
                instructions.deep_view(),
            ) ==> renders_as(
                root@,
                targets@[k],
                *config,
                instructions.deep_view(),
                i,
                #[trigger] file_of_target(res@, targets@, *config, instructions.deep_view(), k, i),
            ),
{
    let ghost ins = instructions.deep_view();
    let mut files: Vec<GeneratedFile> = Vec::new();
    let mut k: usize = 0;
    while k < targets.len()
        invariant
            k <= targets.len(),
            ins == instructions.deep_view(),
            files@.len() == files_before(targets@, *config, ins, k as int),
            forall|a: int, i: int|
                0 <= a < k && 0 <= i < target_file_count(targets@[a], *config, ins) ==> renders_as(
                    root@,
                    targets@[a],
                    *config,
                    ins,
                    i,
                    #[trigger] file_of_target(files@, targets@, *config, ins, a, i),
                ),
        decreases targets.len() - k,
    {
        let mut more = match targets[k] {
            Target::Cursor => crate::generate::cursor::generate(root, config),
            Target::Copilot => crate::generate::copilot::generate(root, instructions),
        };
        let ghost old_files = files@;
        let ghost new_files = more@;
        assert(new_files.len() == target_file_count(targets@[k as int], *config, ins));
        assert forall|i: int| 0 <= i < new_files.len() implies renders_as(
            root@,
            targets@[k as int],
            *config,
            ins,
            i,
            #[trigger] new_files[i],
        ) by {
            match targets@[k as int] {
                Target::Cursor => {
                    let ns = config.sections@.len() as int;
                    if i >= ns && i < ns + config.skills@.len() {
                        assert(new_files[ns + (i - ns)] == new_files[i]);
                    }
                },
                Target::Copilot => {},
            }
        }
        files.append(&mut more);
        proof {
            assert forall|a: int, i: int|
                0 <= a < k + 1 && 0 <= i < target_file_count(targets@[a], *config, ins) implies renders_as(
                root@,
                targets@[a],
                *config,
                ins,
                i,
                #[trigger] file_of_target(files@, targets@, *config, ins, a, i),
            ) by {
                lemma_files_before_grows(targets@, *config, ins, a, k as int);
                if a < k {
                    lemma_files_before_grows(targets@, *config, ins, a + 1, k as int);
                    assert(file_of_target(files@, targets@, *config, ins, a, i) == file_of_target(
                        old_files,
                        targets@,
                        *config,
                        ins,
                        a,
                        i,
                    ));
                } else {
                    assert(file_of_target(files@, targets@, *config, ins, a, i) == new_files[i]);
                }
            }
        }
        k = k + 1;
    }
    files
}

} // verus!
