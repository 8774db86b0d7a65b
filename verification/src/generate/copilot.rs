//! GitHub Copilot: `.github/copilot-instructions.md`, a copy of the
//! instructions file under a header line.
use vstd::prelude::*;

use crate::generate::{join_path, join_root, GeneratedFile};
use crate::text::push_str;

verus! {

/// The header line of the Copilot instructions, followed by an empty line.
pub open spec fn copilot_header() -> Seq<char> {
    "<!-- Generated by agentic-sync — do not edit manually -->\n\n"@
}

/// Where the Copilot instructions go.
pub open spec fn copilot_path() -> Seq<char> {
    ".github/copilot-instructions.md"@
}

/// The Copilot instructions for the text of the instructions file: the
/// header, then the text unchanged. Without that file, no file.
pub fn generate(root: &str, claude_md_content: Option<&str>) -> (res: Vec<GeneratedFile>)
    ensures
        match claude_md_content {
            Some(c) => res@.len() == 1 && res@[0]@ == (join_path(root@, copilot_path()), copilot_header() + c@),
            None => res@.len() == 0,
        },
{
    let mut files: Vec<GeneratedFile> = Vec::new();
    match claude_md_content {
        Some(c) => {
            let path = join_root(root, ".github/copilot-instructions.md");
            let mut content = String::new();
            push_str(&mut content, "<!-- Generated by agentic-sync — do not edit manually -->\n\n");
            push_str(&mut content, c);
            files.push(GeneratedFile { path, content });
        },
        None => {},
    }
    files
}

} // verus!
