use agentic_sync::generate::GeneratedFile;
use agentic_sync::output::{
    check, check_file, diff_block, drift_report, format_diff, has_generated_by_marker, should_delete,
    should_write, DiffTag, DiskFile, FileStatus, OutputResult,
};

fn file(path: &str, content: &str) -> GeneratedFile {
    GeneratedFile { path: path.to_string(), content: content.to_string() }
}

#[test]
fn check_detects_stale_file() {
    let files = vec![file(
        "/p/.cursor/rules/stack.mdc",
        "---\ngenerated-by: agentic-sync\nalwaysApply: true\n---\nNew content\n",
    )];
    let disk = vec![DiskFile::Text(
        "---\ngenerated-by: agentic-sync\nalwaysApply: true\n---\nOld content\n".to_string(),
    )];
    let result = check(&files, &disk);
    assert_eq!(result.stale.len(), 1);
}

#[test]
fn check_reports_in_sync() {
    let content = "---\ngenerated-by: agentic-sync\nalwaysApply: true\n---\nContent\n";
    let files = vec![file("/p/.cursor/rules/stack.mdc", content)];
    let result = check(&files, &[DiskFile::Text(content.to_string())]);
    assert!(result.is_in_sync());
}

#[test]
fn check_new_file_is_stale() {
    let files = vec![file("/p/.cursor/rules/new.mdc", "---\ngenerated-by: agentic-sync\n---\nNew\n")];
    let result = check(&files, &[DiskFile::Missing]);
    assert_eq!(result.stale, vec!["/p/.cursor/rules/new.mdc".to_string()]);
    assert!(!result.is_in_sync());
}

#[test]
fn check_hand_written_file_conflicts() {
    let files = vec![file("/p/m.mdc", "---\ngenerated-by: agentic-sync\n---\nGenerated\n")];
    let result = check(&files, &[DiskFile::Text("---\nalwaysApply: true\n---\nHand-written\n".to_string())]);
    assert!(result.stale.is_empty());
    assert_eq!(result.skipped, vec!["/p/m.mdc".to_string()]);
    assert_eq!(
        result.warnings,
        vec!["/p/m.mdc: exists without generated-by marker, would conflict".to_string()]
    );
    assert!(!result.is_in_sync());
}

#[test]
fn unreadable_file_is_stale() {
    assert_eq!(check_file(&DiskFile::Unreadable, "x"), FileStatus::Stale);
}

#[test]
fn fix_writes_new_files() {
    assert!(should_write(&DiskFile::Missing, false));
}

#[test]
fn fix_skips_unowned_file() {
    assert!(!should_write(&DiskFile::Text("---\nalwaysApply: true\n---\nHand-written\n".to_string()), false));
    assert!(!should_write(&DiskFile::Unreadable, false));
}

#[test]
fn fix_overwrites_unowned_when_forced() {
    assert!(should_write(&DiskFile::Text("Hand-written\n".to_string()), true));
}

#[test]
fn fix_rewrites_owned_file() {
    assert!(should_write(&DiskFile::Text("<!-- Generated by agentic-sync -->\nold".to_string()), false));
}

#[test]
fn cleanup_deletes_stale_generated_files() {
    let current: Vec<GeneratedFile> = vec![];
    assert!(should_delete("/p/.cursor/rules/old.mdc", Some("---\ngenerated-by: agentic-sync\n---\nOld\n"), &current));
    assert!(!should_delete("/p/.cursor/rules/manual.mdc", Some("---\nalwaysApply: true\n---\nManual\n"), &current));
    assert!(!should_delete("/p/.cursor/rules/unreadable.mdc", None, &current));
}

#[test]
fn cleanup_keeps_current_files() {
    let current = vec![file("/p/.cursor/rules/a.mdc", "x")];
    assert!(!should_delete("/p/.cursor/rules/a.mdc", Some("generated-by: agentic-sync"), &current));
}

#[test]
fn markers_are_recognised() {
    assert!(has_generated_by_marker("x generated-by: agentic-sync y"));
    assert!(has_generated_by_marker("<!-- Generated by agentic-sync"));
    assert!(!has_generated_by_marker("generated by agentic-sync"));
}

#[test]
fn written_file_checks_in_sync() {
    let g = "anything";
    assert_eq!(check_file(&DiskFile::Text(g.to_string()), g), FileStatus::InSync);
}

#[test]
fn in_sync_needs_no_stale_and_no_skipped() {
    let mut r = OutputResult::default();
    assert!(r.is_in_sync());
    r.written.push("w".to_string());
    assert!(r.is_in_sync());
    r.skipped.push("s".to_string());
    assert!(!r.is_in_sync());
}

#[test]
fn diff_block_shows_changed_lines() {
    let block = diff_block("a\nb\nc\n", "a\nx\nc\n");
    assert_eq!(block, "\n```diff\n a\n-b\n+x\n c\n```\n\n");
}

#[test]
fn diff_block_adds_missing_final_newline() {
    let block = diff_block("same", "same");
    assert_eq!(block, "\n```diff\n same\n```\n\n");
}

#[test]
fn format_diff_signs_lines() {
    let changes = vec![
        (DiffTag::Equal, "e\n".to_string()),
        (DiffTag::Delete, "d\n".to_string()),
        (DiffTag::Insert, "i\n".to_string()),
    ];
    assert_eq!(format_diff(&changes), "\n```diff\n e\n-d\n+i\n```\n\n");
}

#[test]
fn overwrite_writes_whatever_is_on_disk() {
    assert!(should_write(&DiskFile::Missing, true));
    assert!(should_write(&DiskFile::Unreadable, true));
    assert!(should_write(&DiskFile::Text("generated-by: agentic-sync".to_string()), true));
}

#[test]
fn drift_report_in_sync_is_one_line() {
    let r = OutputResult::default();
    assert_eq!(drift_report(&r, &[], &[]), "All agentic-sync files are in sync.\n");
}

#[test]
fn drift_report_lists_new_and_changed_files() {
    let mut r = OutputResult::default();
    r.stale.push("/p/new.mdc".to_string());
    r.stale.push("/p/old.mdc".to_string());
    r.warnings.push("/p/x.mdc: exists without generated-by marker, would conflict".to_string());
    r.skipped.push("/p/x.mdc".to_string());
    let files = vec![file("/p/new.mdc", "n\n"), file("/p/old.mdc", "a\nb\n")];
    let existing = vec![None, Some("a\nc\n".to_string())];
    assert_eq!(
        drift_report(&r, &files, &existing),
        "## agentic-sync drift detected\n\n\
         The following files are out of sync with the source config:\n\n\
         - `/p/new.mdc`\n  (new file)\n\n\
         - `/p/old.mdc`\n\n```diff\n a\n-c\n+b\n```\n\n\
         - Warning: /p/x.mdc: exists without generated-by marker, would conflict\n\
         \nRun `agentic-sync --fix` to update.\n"
    );
}

#[test]
fn cleanup_compares_paths_by_components() {
    let current = vec![file("/p/.cursor/skills/./x.mdc", "x"), file("/p//.cursor/rules/a.mdc", "y")];
    let marked = "---\ngenerated-by: agentic-sync\n---\n";
    assert!(!should_delete("/p/.cursor/skills/x.mdc", Some(marked), &current));
    assert!(!should_delete("/p/.cursor/rules/a.mdc", Some(marked), &current));
    assert!(should_delete("/p/.cursor/rules/b.mdc", Some(marked), &current));
}
