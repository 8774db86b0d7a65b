use agentic_sync::generate::{render_targets, GeneratedFile};
use agentic_sync::output::{check, drift_report, should_delete, DiskFile};
use agentic_sync::parse::claude_md::parse_claude_md;
use agentic_sync::parse::project_config;
use agentic_sync::{all_targets, exit_status, Mode};

const BASIC: &str = "Project preamble\n\n## Stack\nRust + Clap\n\n## Testing\nUse cargo test\n";

fn render(root: &str, instructions: &str) -> Vec<GeneratedFile> {
    let config = project_config(Some(instructions), vec![], vec![], None);
    render_targets(root, &all_targets(), &config, Some(instructions))
}

fn nothing_on_disk(files: &[GeneratedFile]) -> Vec<DiskFile> {
    files.iter().map(|_| DiskFile::Missing).collect()
}

fn written_to_disk(files: &[GeneratedFile]) -> Vec<DiskFile> {
    files
        .iter()
        .map(|f| {
            DiskFile::Text(f.content.clone())
        })
        .collect()
}

#[test]
fn check_reports_stale_on_fresh_project() {
    let files = render("/p", BASIC);
    let result = check(&files, &nothing_on_disk(&files));
    assert_eq!(exit_status(Mode::Check, &result), 1);
}

#[test]
fn check_passes_after_fix() {
    let files = render("/p", BASIC);
    let disk = written_to_disk(&files);
    let result = check(&files, &disk);
    assert_eq!(exit_status(Mode::Check, &result), 0);
}

#[test]
fn pr_mode_exits_1_when_stale() {
    let files = render("/p", BASIC);
    let result = check(&files, &nothing_on_disk(&files));
    let existing: Vec<Option<String>> = result.stale.iter().map(|_| None).collect();
    let report = drift_report(&result, &files, &existing);
    assert!(report.starts_with("## agentic-sync drift detected\n"));
    assert_eq!(exit_status(Mode::Pr, &result), 1);
}

#[test]
fn cleanup_removes_stale_generated_files() {
    let first = render("/p", BASIC);
    let stack = first.iter().find(|f| f.path == "/p/.cursor/rules/stack.mdc").unwrap().clone();
    let testing = first.iter().find(|f| f.path == "/p/.cursor/rules/testing.mdc").unwrap().clone();

    let second = render("/p", "Project preamble\n\n## Testing\nUse cargo test\n");
    assert!(should_delete(&stack.path, Some(&stack.content), &second));
    assert!(!should_delete(&testing.path, Some(&testing.content), &second));
}

#[test]
fn basic_project_renders_rules_and_copilot_file() {
    let files = render("/p", BASIC);
    let paths: Vec<&str> = files.iter().map(|f| f.path.as_str()).collect();
    assert_eq!(
        paths,
        vec![
            "/p/.cursor/rules/_project.mdc",
            "/p/.cursor/rules/stack.mdc",
            "/p/.cursor/rules/testing.mdc",
            "/p/.github/copilot-instructions.md",
        ]
    );
    assert_eq!(parse_claude_md(BASIC).len(), 3);
    assert_eq!(
        files[3].content,
        format!("<!-- Generated by agentic-sync — do not edit manually -->\n\n{BASIC}")
    );
}
