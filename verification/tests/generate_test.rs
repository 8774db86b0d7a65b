use agentic_sync::generate::{copilot, cursor, join_root, GeneratedFile};
use agentic_sync::json::Json;
use agentic_sync::ir::{McpConfig, ProjectConfig, Section, SectionSource, Skill, TargetOverrides};
use tempfile::TempDir;

fn path_str(p: std::path::PathBuf) -> String {
    p.to_string_lossy().into_owned()
}

#[test]
fn project_config_default() {
    let config = ProjectConfig {
        sections: vec![],
        skills: vec![],
        mcp: None,
    };
    assert!(config.sections.is_empty());
    assert!(config.skills.is_empty());
    assert!(config.mcp.is_none());
}

#[test]
fn generates_cursor_rules_from_sections() {
    let dir = TempDir::new().unwrap();
    let root = dir.path();

    let config = ProjectConfig {
        sections: vec![
            Section {
                title: Some("Stack".to_string()),
                slug: "stack".to_string(),
                body: "Use Rust.".to_string(),
                source: SectionSource::ClaudeMd,
                target_overrides: TargetOverrides::new(),
                description: None,
            },
            Section {
                title: Some("Testing".to_string()),
                slug: "testing".to_string(),
                body: "Run cargo test.".to_string(),
                source: SectionSource::ClaudeMd,
                target_overrides: TargetOverrides::new(),
                description: Some("Testing guidelines".to_string()),
            },
        ],
        skills: vec![],
        mcp: None,
    };

    let files = cursor::generate(root.to_str().unwrap(), &config);
    assert_eq!(files.len(), 2);

    assert_eq!(files[0].path, path_str(root.join(".cursor/rules/stack.mdc")));
    assert!(files[0].content.contains("generated-by: agentic-sync"));
    assert!(files[0].content.contains("alwaysApply: true"));
    assert!(files[0].content.contains("description: Stack"));
    assert!(files[0].content.contains("Use Rust."));

    assert_eq!(files[1].path, path_str(root.join(".cursor/rules/testing.mdc")));
    assert!(files[1].content.contains("generated-by: agentic-sync"));
    assert!(files[1].content.contains("alwaysApply: true"));
    assert!(files[1].content.contains("description: Testing guidelines"));
    assert!(files[1].content.contains("Run cargo test."));
}

#[test]
fn applies_cursor_overrides() {
    let dir = TempDir::new().unwrap();
    let root = dir.path();

    let mut overrides = TargetOverrides::new();
    overrides.insert(
        "cursor".to_string(),
        vec![("alwaysApply".to_string(), "false".to_string())],
    );

    let config = ProjectConfig {
        sections: vec![Section {
            title: Some("Rules".to_string()),
            slug: "rules".to_string(),
            body: "Some rules.".to_string(),
            source: SectionSource::ClaudeMd,
            target_overrides: overrides,
            description: None,
        }],
        skills: vec![],
        mcp: None,
    };

    let files = cursor::generate(root.to_str().unwrap(), &config);
    assert_eq!(files.len(), 1);
    assert!(files[0].content.contains("alwaysApply: false"));
}

#[test]
fn generates_cursor_skills() {
    let dir = TempDir::new().unwrap();
    let root = dir.path();

    let config = ProjectConfig {
        sections: vec![],
        skills: vec![Skill {
            name: "explain-code".to_string(),
            description: Some("Explains code".to_string()),
            paths: vec!["src/**/*.rs".to_string()],
            disable_model_invocation: false,
            target_overrides: TargetOverrides::new(),
            body: "Explain the code.".to_string(),
        }],
        mcp: None,
    };

    let files = cursor::generate(root.to_str().unwrap(), &config);
    assert_eq!(files.len(), 1);
    assert_eq!(files[0].path, path_str(root.join(".cursor/skills/explain-code.mdc")));
    assert!(files[0].content.contains("generated-by: agentic-sync"));
    assert!(files[0].content.contains("alwaysApply: true"));
    assert!(files[0].content.contains("description: Explains code"));
    assert!(files[0].content.contains("globs: src/**/*.rs"));
    assert!(files[0].content.contains("Explain the code."));
}

#[test]
fn generates_mcp_json() {
    let dir = TempDir::new().unwrap();
    let root = dir.path();

    let server = Json::Object(vec![
        ("command".to_string(), Json::Str("npx".to_string())),
        (
            "args".to_string(),
            Json::Array(vec![Json::Str("-y".to_string()), Json::Str("my-server".to_string())]),
        ),
    ]);
    let servers = Json::Object(vec![("my-server".to_string(), server)]);

    let config = ProjectConfig {
        sections: vec![],
        skills: vec![],
        mcp: Some(McpConfig { servers }),
    };

    let files = cursor::generate(root.to_str().unwrap(), &config);
    assert_eq!(files.len(), 1);
    assert_eq!(files[0].path, path_str(root.join(".cursor/mcp.json")));

    let parsed: serde_json::Value = serde_json::from_str(&files[0].content).unwrap();
    assert!(parsed.get("mcpServers").is_some());
    assert!(parsed["mcpServers"]["my-server"]["command"].as_str().unwrap() == "npx");
}

#[test]
fn disable_model_invocation_maps_to_always_apply_false() {
    let dir = TempDir::new().unwrap();
    let root = dir.path();

    let config = ProjectConfig {
        sections: vec![],
        skills: vec![Skill {
            name: "auto-format".to_string(),
            description: None,
            paths: vec![],
            disable_model_invocation: true,
            target_overrides: TargetOverrides::new(),
            body: "Format on save.".to_string(),
        }],
        mcp: None,
    };

    let files = cursor::generate(root.to_str().unwrap(), &config);
    assert_eq!(files.len(), 1);
    assert!(files[0].content.contains("alwaysApply: false"));
}

#[test]
fn rule_file_text_is_exact() {
    let config = ProjectConfig {
        sections: vec![Section {
            title: None,
            slug: "_project".to_string(),
            body: "Intro.".to_string(),
            source: SectionSource::ClaudeMd,
            target_overrides: TargetOverrides::new(),
            description: None,
        }],
        skills: vec![],
        mcp: None,
    };
    let files = cursor::generate("/proj", &config);
    assert_eq!(
        files,
        vec![GeneratedFile {
            path: "/proj/.cursor/rules/_project.mdc".to_string(),
            content: "---\ngenerated-by: agentic-sync\nalwaysApply: true\n---\n\nIntro.\n".to_string(),
        }]
    );
}

#[test]
fn last_cursor_override_wins_and_other_targets_ignored() {
    let mut ov = TargetOverrides::new();
    ov.push("cursor".to_string(), "alwaysApply".to_string(), "false".to_string());
    ov.push("copilot".to_string(), "alwaysApply".to_string(), "maybe".to_string());
    ov.push("cursor".to_string(), "globs".to_string(), "*.md".to_string());
    ov.push("cursor".to_string(), "description".to_string(), "Custom".to_string());
    ov.push("cursor".to_string(), "alwaysApply".to_string(), "true".to_string());
    let config = ProjectConfig {
        sections: vec![Section {
            title: Some("T".to_string()),
            slug: "t".to_string(),
            body: "b".to_string(),
            source: SectionSource::Rules,
            target_overrides: ov,
            description: Some("D".to_string()),
        }],
        skills: vec![],
        mcp: None,
    };
    let files = cursor::generate("/r/", &config);
    assert_eq!(files[0].path, "/r/.cursor/rules/t.mdc");
    assert_eq!(
        files[0].content,
        "---\ngenerated-by: agentic-sync\nalwaysApply: true\ndescription: Custom\nglobs: *.md\n---\n\nb\n"
    );
}

#[test]
fn skill_file_with_globs_override() {
    let mut ov = TargetOverrides::new();
    ov.push("cursor".to_string(), "globs".to_string(), "**/*.py".to_string());
    let config = ProjectConfig {
        sections: vec![],
        skills: vec![Skill {
            name: "s".to_string(),
            description: None,
            paths: vec!["a".to_string(), "b".to_string()],
            disable_model_invocation: false,
            target_overrides: ov,
            body: "x".to_string(),
        }],
        mcp: None,
    };
    let files = cursor::generate("", &config);
    assert_eq!(files[0].path, ".cursor/skills/s.mdc");
    assert_eq!(
        files[0].content,
        "---\ngenerated-by: agentic-sync\nalwaysApply: true\nglobs: **/*.py\n---\n\nx\n"
    );
}

#[test]
fn skill_paths_are_joined_with_comma_space() {
    let config = ProjectConfig {
        sections: vec![],
        skills: vec![Skill {
            name: "s".to_string(),
            description: Some("d".to_string()),
            paths: vec!["a".to_string(), "b".to_string(), "c".to_string()],
            disable_model_invocation: false,
            target_overrides: TargetOverrides::new(),
            body: "x".to_string(),
        }],
        mcp: None,
    };
    let files = cursor::generate("/p", &config);
    assert!(files[0].content.contains("globs: a, b, c\n"));
}

#[test]
fn files_come_in_order_sections_skills_mcp() {
    let config = ProjectConfig {
        sections: vec![Section {
            title: Some("A".to_string()),
            slug: "a".to_string(),
            body: "x".to_string(),
            source: SectionSource::ClaudeMd,
            target_overrides: TargetOverrides::new(),
            description: None,
        }],
        skills: vec![Skill {
            name: "k".to_string(),
            description: None,
            paths: vec![],
            disable_model_invocation: false,
            target_overrides: TargetOverrides::new(),
            body: "y".to_string(),
        }],
        mcp: Some(McpConfig { servers: Json::Object(vec![]) }),
    };
    let files = cursor::generate("/p", &config);
    let paths: Vec<&str> = files.iter().map(|f| f.path.as_str()).collect();
    assert_eq!(paths, vec!["/p/.cursor/rules/a.mdc", "/p/.cursor/skills/k.mdc", "/p/.cursor/mcp.json"]);
    assert_eq!(files[2].content, "{\n  \"mcpServers\": {}\n}\n");
}

#[test]
fn copilot_copies_claude_md_under_header() {
    let files = copilot::generate("/proj", Some("## Stack\nRust\n\n## Testing\nCargo test\n"));
    assert_eq!(files.len(), 1);
    assert_eq!(files[0].path, "/proj/.github/copilot-instructions.md");
    assert!(files[0].content.starts_with("<!-- Generated by agentic-sync"));
    assert_eq!(
        files[0].content,
        "<!-- Generated by agentic-sync — do not edit manually -->\n\n## Stack\nRust\n\n## Testing\nCargo test\n"
    );
}

#[test]
fn no_claude_md_no_copilot_output() {
    assert!(copilot::generate("/proj", None).is_empty());
}

#[test]
fn join_root_adds_one_slash() {
    assert_eq!(join_root("/a", "b/c"), "/a/b/c");
    assert_eq!(join_root("/a/", "b"), "/a/b");
    assert_eq!(join_root("", "b"), "b");
}

#[test]
fn overrides_insert_replaces_target() {
    let mut ov = TargetOverrides::new();
    ov.push("cursor".to_string(), "a".to_string(), "1".to_string());
    ov.push("other".to_string(), "b".to_string(), "2".to_string());
    ov.insert("cursor".to_string(), vec![("c".to_string(), "3".to_string())]);
    assert_eq!(ov.get("cursor").unwrap(), vec![("c".to_string(), "3".to_string())]);
    assert_eq!(ov.get("other").unwrap(), vec![("b".to_string(), "2".to_string())]);
    assert_eq!(ov.len(), 2);
}

#[test]
fn section_frontmatter_overrides_reach_the_rule_file() {
    let text = "## Testing\n---\ncursor: alwaysApply=false\ncursor: globs=**/*.test.ts\n---\nRun tests with `npm test`. Always write tests first.\n";
    let config = ProjectConfig {
        sections: agentic_sync::parse::claude_md::parse_claude_md(text),
        skills: vec![],
        mcp: None,
    };
    let files = cursor::generate("/p", &config);
    assert_eq!(files.len(), 1);
    assert_eq!(files[0].path, "/p/.cursor/rules/testing.mdc");
    assert_eq!(
        files[0].content,
        "---\ngenerated-by: agentic-sync\nalwaysApply: false\ndescription: Testing\nglobs: **/*.test.ts\n---\n\nRun tests with `npm test`. Always write tests first.\n"
    );
}

#[test]
fn render_targets_concatenates_in_target_order() {
    let config = ProjectConfig {
        sections: vec![Section {
            title: Some("A".to_string()),
            slug: "a".to_string(),
            body: "x".to_string(),
            source: SectionSource::ClaudeMd,
            target_overrides: TargetOverrides::new(),
            description: None,
        }],
        skills: vec![],
        mcp: None,
    };
    let targets = vec![
        agentic_sync::Target::Copilot,
        agentic_sync::Target::Cursor,
        agentic_sync::Target::Copilot,
    ];
    let files = agentic_sync::generate::render_targets("/p", &targets, &config, Some("## A\nx\n"));
    let paths: Vec<&str> = files.iter().map(|f| f.path.as_str()).collect();
    assert_eq!(
        paths,
        vec![
            "/p/.github/copilot-instructions.md",
            "/p/.cursor/rules/a.mdc",
            "/p/.github/copilot-instructions.md",
        ]
    );
    let none = agentic_sync::generate::render_targets("/p", &targets, &config, None);
    assert_eq!(none.len(), 1);
    assert_eq!(none[0].path, "/p/.cursor/rules/a.mdc");
}

#[test]
fn other_cursor_keys_become_header_lines() {
    let mut ov = TargetOverrides::new();
    ov.push("cursor".to_string(), "shortcut".to_string(), "ctrl+e".to_string());
    ov.push("cursor".to_string(), "model".to_string(), "fast".to_string());
    ov.push("cursor".to_string(), "shortcut".to_string(), "ctrl+k".to_string());
    ov.push("copilot".to_string(), "other".to_string(), "x".to_string());
    let config = ProjectConfig {
        sections: vec![Section {
            title: None,
            slug: "s".to_string(),
            body: "b".to_string(),
            source: SectionSource::Rules,
            target_overrides: ov,
            description: None,
        }],
        skills: vec![],
        mcp: None,
    };
    let files = cursor::generate("/r", &config);
    assert_eq!(
        files[0].content,
        "---\ngenerated-by: agentic-sync\nalwaysApply: true\nmodel: fast\nshortcut: ctrl+k\n---\n\nb\n"
    );
}

#[test]
fn mcp_file_is_the_pretty_printed_wrapper() {
    let servers = Json::Object(vec![(
        "s".to_string(),
        Json::Object(vec![
            ("port".to_string(), Json::Number("8080".to_string())),
            ("on".to_string(), Json::Bool(true)),
            ("x".to_string(), Json::Null),
        ]),
    )]);
    let file = cursor::render_mcp("/p", &servers);
    assert_eq!(file.path, "/p/.cursor/mcp.json");
    assert_eq!(
        file.content,
        "{\n  \"mcpServers\": {\n    \"s\": {\n      \"on\": true,\n      \"port\": 8080,\n      \"x\": null\n    }\n  }\n}\n"
    );
}
