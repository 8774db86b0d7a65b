use agentic_sync::ir::{Section, SectionSource};
use agentic_sync::parse::claude_md::{
    parse_claude_md, parse_section_frontmatter, slugify, split_on_h2,
};

#[test]
fn section_slug_for_preamble() {
    let section = Section {
        title: None,
        slug: "_project".to_string(),
        body: "preamble content".to_string(),
        source: SectionSource::ClaudeMd,
        target_overrides: Default::default(),
        description: None,
    };
    assert_eq!(section.slug, "_project");
    assert!(section.title.is_none());
}

#[test]
fn splits_on_h2_headings() {
    let content = "Preamble\n\n## Stack\nRust\n\n## Testing\nCargo test";
    let sections = parse_claude_md(content);
    assert_eq!(sections.len(), 3);
    assert_eq!(sections[0].slug, "_project");
    assert_eq!(sections[0].body, "Preamble");
    assert_eq!(sections[1].slug, "stack");
    assert_eq!(sections[1].body, "Rust");
    assert_eq!(sections[2].slug, "testing");
    assert_eq!(sections[2].body, "Cargo test");
}

#[test]
fn skips_empty_sections() {
    let content = "## Empty\n\n## HasContent\nContent";
    let sections = parse_claude_md(content);
    assert_eq!(sections.len(), 1);
    assert_eq!(sections[0].slug, "hascontent");
    assert_eq!(sections[0].body, "Content");
}

#[test]
fn no_preamble_if_starts_with_heading() {
    let content = "## Stack\nRust";
    let sections = parse_claude_md(content);
    assert_eq!(sections.len(), 1);
    assert_eq!(sections[0].slug, "stack");
    assert_eq!(sections[0].title, Some("Stack".to_string()));
}

#[test]
fn deduplicates_slugs() {
    let content = "## Testing\nUnit\n\n## Testing\nIntegration";
    let sections = parse_claude_md(content);
    assert_eq!(sections.len(), 2);
    assert_eq!(sections[0].slug, "testing");
    assert_eq!(sections[1].slug, "testing-2");
}

#[test]
fn parses_cursor_frontmatter_overrides() {
    let content = "## Rules\n---\ncursor: alwaysApply=true\n---\nSome rules here";
    let sections = parse_claude_md(content);
    assert_eq!(sections.len(), 1);
    assert_eq!(sections[0].body, "Some rules here");
    let cursor_overrides = sections[0].target_overrides.get("cursor").unwrap();
    assert_eq!(cursor_overrides.len(), 1);
    assert_eq!(
        cursor_overrides[0],
        ("alwaysApply".to_string(), "true".to_string())
    );
}

#[test]
fn slugify_works() {
    assert_eq!(slugify("Commit Conventions"), "commit-conventions");
    assert_eq!(slugify("Hello---World"), "hello-world");
    assert_eq!(slugify("  Leading  "), "leading");
}

#[test]
fn slugify_keeps_unicode_letters_and_digits() {
    assert_eq!(slugify("Café 2 Go!"), "café-2-go");
    assert_eq!(slugify("---"), "");
    assert_eq!(slugify("C++ & Rust"), "c-rust");
}

#[test]
fn slugify_is_idempotent_on_examples() {
    for t in ["Commit Conventions", "Hello---World", "  Leading  ", "A_B.c", "Ünïcode Title"] {
        let once = slugify(t);
        assert_eq!(slugify(&once), once);
        assert!(!once.starts_with('-') && !once.ends_with('-'));
        assert!(!once.contains("--"));
    }
}

#[test]
fn third_repeat_gets_number_three() {
    let content = "## A\nx\n## A\ny\n## A\nz\n## B\nw";
    let sections = parse_claude_md(content);
    let slugs: Vec<&str> = sections.iter().map(|s| s.slug.as_str()).collect();
    assert_eq!(slugs, vec!["a", "a-2", "a-3", "b"]);
}

#[test]
fn twelfth_repeat_gets_two_digits() {
    let mut content = String::new();
    for i in 0..12 {
        content.push_str(&format!("## Same\nbody {i}\n"));
    }
    let sections = parse_claude_md(&content);
    assert_eq!(sections.len(), 12);
    assert_eq!(sections[11].slug, "same-12");
    assert_eq!(sections[9].slug, "same-10");
}

#[test]
fn preamble_skips_leading_empty_lines_only() {
    let raws = split_on_h2("\n\nFirst\n\nSecond\n## H\nbody\n");
    assert_eq!(raws.len(), 2);
    assert_eq!(raws[0], (None, "First\n\nSecond\n".to_string()));
    assert_eq!(raws[1], (Some("H".to_string()), "body\n".to_string()));
}

#[test]
fn blank_preamble_is_not_a_section() {
    let raws = split_on_h2("   \n\n## H\nx");
    assert_eq!(raws.len(), 1);
    assert_eq!(raws[0].0, Some("H".to_string()));
}

#[test]
fn heading_text_is_trimmed_and_crlf_lines_split() {
    let raws = split_on_h2("## Title  \r\nline one\r\nline two\r\n");
    assert_eq!(raws, vec![(Some("Title".to_string()), "line one\nline two\n".to_string())]);
}

#[test]
fn level_three_heading_stays_in_body() {
    let sections = parse_claude_md("## Top\n### Sub\ntext");
    assert_eq!(sections.len(), 1);
    assert_eq!(sections[0].body, "### Sub\ntext");
}

#[test]
fn section_frontmatter_without_close_is_body() {
    let (ov, rest) = parse_section_frontmatter("---\ncursor: alwaysApply=false\nno close");
    assert!(ov.is_empty());
    assert_eq!(rest, "---\ncursor: alwaysApply=false\nno close");
}

#[test]
fn section_frontmatter_lines_without_equals_are_ignored() {
    let (ov, rest) =
        parse_section_frontmatter("\n---\ncursor: globs=**/*.ts\nnote: plain\ncursor: description = Tests \n---\nBody");
    assert_eq!(rest, "Body");
    assert_eq!(ov.len(), 2);
    assert_eq!(
        ov.get("cursor").unwrap(),
        vec![
            ("globs".to_string(), "**/*.ts".to_string()),
            ("description".to_string(), "Tests".to_string())
        ]
    );
    assert!(ov.get("note").is_none());
}

#[test]
fn section_with_only_frontmatter_is_dropped() {
    let sections = parse_claude_md("## Only\n---\ncursor: alwaysApply=false\n---\n   \n## Kept\nyes");
    assert_eq!(sections.len(), 1);
    assert_eq!(sections[0].slug, "kept");
}

#[test]
fn only_first_section_is_untitled() {
    let sections = parse_claude_md("intro\n## One\na\n## Two\nb");
    assert!(sections[0].title.is_none());
    assert!(sections[1..].iter().all(|s| s.title.is_some()));
    assert!(sections.iter().all(|s| s.source == SectionSource::ClaudeMd && s.description.is_none()));
}

#[test]
fn numbered_slugs_skip_slugs_already_taken() {
    let sections = parse_claude_md("## A\nx\n## A\ny\n## A 2\nz\n## A\nw\n");
    let slugs: Vec<&str> = sections.iter().map(|s| s.slug.as_str()).collect();
    assert_eq!(slugs, vec!["a", "a-2", "a-2-2", "a-3"]);
    let taken_first = parse_claude_md("## A 2\nz\n## A\nx\n## A\ny\n");
    let slugs: Vec<&str> = taken_first.iter().map(|s| s.slug.as_str()).collect();
    assert_eq!(slugs, vec!["a-2", "a", "a-3"]);
}

#[test]
fn slug_is_lowercased_words_joined_by_dashes() {
    assert_eq!(slugify("  Hello, World!! 2x "), "hello-world-2x");
    assert_eq!(slugify("--"), "");
    assert_eq!(slugify("Ünïcode Straße"), "Ünïcode-straße");
}
