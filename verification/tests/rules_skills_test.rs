use agentic_sync::ir::SectionSource;
use agentic_sync::parse::rules::{parse_frontmatter as rule_frontmatter, parse_rule_text, slugify};
use agentic_sync::parse::skills::{parse_frontmatter as skill_frontmatter, parse_skill_text};

#[test]
fn parses_rule_with_frontmatter() {
    let section = parse_rule_text(
        "testing",
        "---\ndescription: Testing guidelines\ncursor: alwaysApply=false\n---\nRun cargo test before committing.",
    );
    assert_eq!(section.slug, "testing");
    assert_eq!(section.description, Some("Testing guidelines".to_string()));
    assert_eq!(section.body, "Run cargo test before committing.");
    let cursor = section.target_overrides.get("cursor").unwrap();
    assert_eq!(cursor[0], ("alwaysApply".to_string(), "false".to_string()));
    assert_eq!(section.source, SectionSource::Rules);
}

#[test]
fn parses_rule_without_frontmatter() {
    let section = parse_rule_text("style", "Use 4-space indentation.");
    assert_eq!(section.slug, "style");
    assert_eq!(section.description, None);
    assert_eq!(section.body, "Use 4-space indentation.");
    assert!(section.target_overrides.is_empty());
}

#[test]
fn rule_title_is_file_stem_and_slug_is_slugified() {
    let section = parse_rule_text("Code Style", "x");
    assert_eq!(section.title, Some("Code Style".to_string()));
    assert_eq!(section.slug, "code-style");
    assert_eq!(slugify("Code Style"), "code-style");
}

#[test]
fn last_description_wins_in_rules() {
    let (d, ov, rest) = rule_frontmatter("---\ndescription: one\ndescription: two\n---\nbody");
    assert_eq!(d, Some("two".to_string()));
    assert!(ov.is_empty());
    assert_eq!(rest, "body");
}

#[test]
fn parses_skill_with_full_frontmatter() {
    let skill = parse_skill_text(
        "explain-code",
        "---\nname: Explain Code\ndescription: Explains code in detail\npaths: src/**/*.rs, tests/**/*.rs\ndisable-model-invocation: true\ncursor: shortcut=ctrl+e\n---\nExplain the selected code.",
    );
    assert_eq!(skill.name, "Explain Code");
    assert_eq!(skill.description, Some("Explains code in detail".to_string()));
    assert_eq!(skill.paths, vec!["src/**/*.rs", "tests/**/*.rs"]);
    assert!(skill.disable_model_invocation);
    let cursor = skill.target_overrides.get("cursor").unwrap();
    assert_eq!(cursor[0], ("shortcut".to_string(), "ctrl+e".to_string()));
    assert_eq!(skill.body, "Explain the selected code.");
}

#[test]
fn falls_back_to_directory_name() {
    let skill = parse_skill_text("my-skill", "Just some instructions.");
    assert_eq!(skill.name, "my-skill");
    assert!(skill.description.is_none());
    assert!(skill.paths.is_empty());
    assert!(!skill.disable_model_invocation);
    assert_eq!(skill.body, "Just some instructions.");
}

#[test]
fn skill_paths_keep_empty_pieces() {
    let skill = parse_skill_text("s", "---\npaths: a, ,b,\n---\nx");
    assert_eq!(skill.paths, vec!["a", "", "b", ""]);
}

#[test]
fn skill_disable_needs_exactly_true() {
    let skill = parse_skill_text("s", "---\ndisable-model-invocation: True\n---\nx");
    assert!(!skill.disable_model_invocation);
}

#[test]
fn skill_known_fields_are_not_overrides() {
    let (fields, ov, rest) = skill_frontmatter("---\nname: n=1\nother: k=v\n---\nbody");
    assert_eq!(fields.name, Some("n=1".to_string()));
    assert!(ov.get("name").is_none());
    assert_eq!(ov.get("other").unwrap(), vec![("k".to_string(), "v".to_string())]);
    assert_eq!(rest, "body");
}

#[test]
fn project_config_puts_instructions_before_rules() {
    let rule = parse_rule_text("style", "Be terse.");
    let config = agentic_sync::parse::project_config(Some("Intro\n## A\nx\n"), vec![rule], vec![], None);
    let slugs: Vec<&str> = config.sections.iter().map(|s| s.slug.as_str()).collect();
    assert_eq!(slugs, vec!["_project", "a", "style"]);
    assert_eq!(config.sections[2].source, SectionSource::Rules);
    assert!(config.skills.is_empty());
    assert!(config.mcp.is_none());

    let none = agentic_sync::parse::project_config(None, vec![], vec![], None);
    assert!(none.sections.is_empty());
}

#[test]
fn bodies_are_trimmed_as_std_trims() {
    for code in 0u32..0x3100 {
        if let Some(c) = char::from_u32(code) {
            let content = format!("{c}x{c}");
            let section = parse_rule_text("r", &content);
            assert_eq!(section.body, content.trim(), "U+{code:04X}");
        }
    }
}
