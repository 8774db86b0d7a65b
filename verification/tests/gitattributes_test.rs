use agentic_sync::gitattributes::{
    desired_section, extract_section, fix_text, is_in_sync_text, replace_section,
};

const SECTION_BEGIN: &str = "# BEGIN generated-by: agentic-sync";
const SECTION_END: &str = "# END generated-by: agentic-sync";

fn make_files(root: &std::path::Path, names: &[&str]) -> Vec<String> {
    names.iter().map(|n| root.join(n).to_string_lossy().into_owned()).collect()
}

#[test]
fn desired_section_format() {
    let dir = tempfile::TempDir::new().unwrap();
    let root = dir.path();
    let files = make_files(root, &[".cursor/rules/stack.mdc", ".github/copilot-instructions.md"]);
    let section = desired_section(root.to_str().unwrap(), &files);
    assert!(section.starts_with(SECTION_BEGIN));
    assert!(section.ends_with(SECTION_END));
    assert!(section.contains(".cursor/rules/stack.mdc linguist-generated=true"));
    assert!(section.contains(".github/copilot-instructions.md linguist-generated=true"));
}

#[test]
fn desired_section_exact_and_skips_outside_files() {
    let files = vec![
        "/p/a.mdc".to_string(),
        "/other/b.mdc".to_string(),
        "/pp/c.mdc".to_string(),
        "/p/d\\e.md".to_string(),
    ];
    let section = desired_section("/p", &files);
    assert_eq!(
        section,
        format!("{SECTION_BEGIN}\na.mdc linguist-generated=true\nd/e.md linguist-generated=true\n{SECTION_END}")
    );
}

#[test]
fn fix_creates_gitattributes_from_scratch() {
    let files = vec!["/r/.cursor/rules/stack.mdc".to_string()];
    let written = fix_text("/r", &files, "");
    assert!(written.is_some());
    let content = written.unwrap();
    assert!(content.contains(SECTION_BEGIN));
    assert!(content.contains(".cursor/rules/stack.mdc linguist-generated=true"));
    assert!(content.contains(SECTION_END));
    assert_eq!(content, format!("{}\n", desired_section("/r", &files)));
}

#[test]
fn fix_appends_to_existing_gitattributes() {
    let files = vec!["/r/.cursor/rules/stack.mdc".to_string()];
    let content = fix_text("/r", &files, "*.log text\n").unwrap();
    assert!(content.starts_with("*.log text\n"));
    assert!(content.contains(SECTION_BEGIN));
    assert!(content.contains(SECTION_END));
    assert_eq!(content, format!("*.log text\n\n{}\n", desired_section("/r", &files)));
}

#[test]
fn append_without_trailing_newline_adds_blank_line() {
    let content = replace_section("*.log text", "S");
    assert_eq!(content, "*.log text\n\nS\n");
}

#[test]
fn fix_replaces_existing_section() {
    let old = format!(
        "*.log text\n{SECTION_BEGIN}\n.cursor/rules/old.mdc linguist-generated=true\n{SECTION_END}\n"
    );
    let files = vec!["/r/.cursor/rules/new.mdc".to_string()];
    let content = fix_text("/r", &files, &old).unwrap();
    assert!(content.contains("*.log text"));
    assert!(!content.contains("old.mdc"));
    assert!(content.contains(".cursor/rules/new.mdc linguist-generated=true"));
    assert_eq!(content.matches(SECTION_BEGIN).count(), 1);
}

#[test]
fn fix_idempotent() {
    let files = vec!["/r/.cursor/rules/stack.mdc".to_string()];
    let first = fix_text("/r", &files, "").unwrap();
    let written = fix_text("/r", &files, &first);
    assert!(written.is_none());
    let section = desired_section("/r", &files);
    assert_eq!(replace_section(&first, &section), first);
}

#[test]
fn is_in_sync_detects_stale() {
    let files = vec!["/r/.cursor/rules/stack.mdc".to_string()];
    assert!(!is_in_sync_text("/r", &files, None));
    assert!(!is_in_sync_text("/r", &files, Some("")));
    let content = fix_text("/r", &files, "").unwrap();
    assert!(is_in_sync_text("/r", &files, Some(&content)));

    let files2 = vec!["/r/.cursor/rules/other.mdc".to_string()];
    assert!(!is_in_sync_text("/r", &files2, Some(&content)));
}

#[test]
fn is_in_sync_after_fix_and_not_for_other_files() {
    let section = desired_section("/r", &["/r/.cursor/rules/stack.mdc".to_string()]);
    assert_eq!(extract_section(""), None);
    let content = replace_section("", &section);
    assert_eq!(extract_section(&content), Some(section.clone()));
    let other = desired_section("/r", &["/r/.cursor/rules/other.mdc".to_string()]);
    assert_ne!(extract_section(&content), Some(other));
}

#[test]
fn begin_without_end_is_replaced_to_the_end() {
    let content = replace_section(&format!("keep\n{SECTION_BEGIN}\ndangling"), "NEW");
    assert_eq!(content, "keep\nNEW\n");
    assert_eq!(extract_section(&format!("{SECTION_BEGIN}\nno end")), None);
}

#[test]
fn text_after_section_is_kept() {
    let old = format!("a\n{SECTION_BEGIN}\nx\n{SECTION_END}\nb\n");
    let content = replace_section(&old, "S");
    assert_eq!(content, "a\nS\nb\n");
}

#[test]
fn relative_paths_are_taken_by_components() {
    let cases: Vec<(&str, &str)> = vec![
        ("/r", "/r//a"),
        ("/r", "/r/./a"),
        ("/r", "/r/a/"),
        ("/r", "/r/a/./b/."),
        ("/r", "/r/a//b"),
        ("/r", "/r/../x"),
        ("/r/", "/r/a"),
        ("/r/.", "/r/a"),
        ("//r//", "/r/a"),
        ("/r", "/r"),
        ("/r", "/rr/a"),
        ("/r", "r/a"),
        ("r", "r/a"),
        ("r", "./r/a"),
        (".", "./a/b"),
        ("./r", "./r/a"),
        ("/", "/a/b"),
        ("/r/a", "/r"),
        ("", "/a/"),
        ("", "a/."),
        ("", "./a//"),
    ];
    for (root, file) in cases {
        let section = desired_section(root, &[file.to_string()]);
        let expected = match std::path::Path::new(file).strip_prefix(root) {
            Ok(rel) => format!(
                "{SECTION_BEGIN}\n{} linguist-generated=true\n{SECTION_END}",
                rel.to_string_lossy()
            ),
            Err(_) => format!("{SECTION_BEGIN}\n{SECTION_END}"),
        };
        assert_eq!(section, expected, "root {root:?}, file {file:?}");
    }
    let section = desired_section("/r", &["/r//a".to_string(), "/r/./b".to_string()]);
    assert_eq!(
        section,
        format!("{SECTION_BEGIN}\na linguist-generated=true\nb linguist-generated=true\n{SECTION_END}")
    );
}
