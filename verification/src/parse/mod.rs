//! Reading the configuration files into a `ProjectConfig`.
pub mod claude_md;
pub mod frontmatter;
pub mod mcp;
pub mod rules;
pub mod skills;

use vstd::prelude::*;

use crate::ir::{McpConfig, ProjectConfig, Section, Skill};
use crate::parse::claude_md::{claude_md_section, kept_sections, parse_claude_md};

verus! {

/// The configuration of a project from what was read: the sections of the
/// instructions file (where there is one) followed by the sections of the
/// rules files in order, the skills in order, and the MCP servers.
pub fn project_config(
    instructions: Option<&str>,
    rules: Vec<Section>,
    skills: Vec<Skill>,
    mcp: Option<McpConfig>,
) -> (res: ProjectConfig)
    ensures
        ({
            let kept = match instructions {
                Some(t) => kept_sections(t@),
                None => Seq::empty(),
            };
            &&& res.sections@.len() == kept.len() + rules@.len()
            &&& forall|i: int|
                0 <= i < kept.len() ==> #[trigger] res.sections@[i]@ == claude_md_section(kept, i)
            &&& forall|j: int|
                0 <= j < rules@.len() ==> #[trigger] res.sections@[kept.len() + j] == rules@[j]
        }),
        res.skills@ == skills@,
        res.mcp == mcp,
{
    let mut sections: Vec<Section> = match instructions {
        Some(t) => parse_claude_md(t),
        None => Vec::new(),
    };
    let mut rules = rules;
    sections.append(&mut rules);
    ProjectConfig { sections, skills, mcp }
}

} // verus!
