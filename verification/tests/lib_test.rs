use agentic_sync::discover::Sources;
use agentic_sync::output::OutputResult;
use agentic_sync::{
    all_targets, exit_status, mode_from_flags, parse_targets, targets_from_names, Mode, Target,
};

#[test]
fn all_targets_lists_cursor_then_copilot() {
    assert_eq!(all_targets(), vec![Target::Cursor, Target::Copilot]);
}

#[test]
fn parse_targets_reads_names() {
    let names = vec!["copilot".to_string(), "cursor".to_string(), "cursor".to_string()];
    assert_eq!(
        parse_targets(&names),
        Ok(vec![Target::Copilot, Target::Cursor, Target::Cursor])
    );
    assert_eq!(parse_targets(&[]), Ok(vec![]));
}

#[test]
fn parse_targets_names_first_unknown() {
    let names = vec!["cursor".to_string(), "Cursor".to_string(), "gemini".to_string()];
    assert_eq!(parse_targets(&names), Err("unknown target: Cursor".to_string()));
}

#[test]
fn all_target_names_parse_back() {
    let names = vec!["cursor".to_string(), "copilot".to_string()];
    assert_eq!(parse_targets(&names), Ok(all_targets()));
}

#[test]
fn empty_sources_mean_nothing_to_sync() {
    let mut s = Sources::default();
    assert!(s.is_empty());
    s.rules.push("/p/rules/a.md".to_string());
    assert!(!s.is_empty());
}

#[test]
fn modes_compare() {
    assert_eq!(Mode::Fix { overwrite: true }, Mode::Fix { overwrite: true });
    assert_ne!(Mode::Check, Mode::Pr);
}

#[test]
fn flags_select_the_mode() {
    assert_eq!(mode_from_flags(false, false, false), Mode::Check);
    assert_eq!(mode_from_flags(false, false, true), Mode::Check);
    assert_eq!(mode_from_flags(false, true, false), Mode::Pr);
    assert_eq!(mode_from_flags(true, true, true), Mode::Fix { overwrite: true });
    assert_eq!(mode_from_flags(true, false, false), Mode::Fix { overwrite: false });
}

#[test]
fn no_target_names_mean_every_target() {
    assert_eq!(targets_from_names(&[]), Ok(all_targets()));
    assert_eq!(targets_from_names(&["copilot".to_string()]), Ok(vec![Target::Copilot]));
    assert_eq!(
        targets_from_names(&["codex".to_string()]),
        Err("unknown target: codex".to_string())
    );
}

#[test]
fn exit_status_follows_the_mode() {
    let clean = OutputResult::default();
    let mut stale = OutputResult::default();
    stale.stale.push("a".to_string());
    let mut skipped = OutputResult::default();
    skipped.skipped.push("b".to_string());
    assert_eq!(exit_status(Mode::Check, &clean), 0);
    assert_eq!(exit_status(Mode::Check, &stale), 1);
    assert_eq!(exit_status(Mode::Check, &skipped), 1);
    assert_eq!(exit_status(Mode::Pr, &clean), 0);
    assert_eq!(exit_status(Mode::Pr, &stale), 1);
    assert_eq!(exit_status(Mode::Fix { overwrite: false }, &clean), 0);
    assert_eq!(exit_status(Mode::Fix { overwrite: false }, &stale), 0);
    assert_eq!(exit_status(Mode::Fix { overwrite: true }, &skipped), 1);
}

#[test]
fn paths_are_sorted_like_a_directory_listing() {
    let paths = vec![
        "/p/rules/b.md".to_string(),
        "/p/rules/a-b.md".to_string(),
        "/p/rules/a.md".to_string(),
        "/p/rules/B.md".to_string(),
        "/p/rules/a.md".to_string(),
        "/p/rules/ab.md".to_string(),
    ];
    assert_eq!(
        agentic_sync::discover::sorted_paths(paths),
        vec![
            "/p/rules/B.md".to_string(),
            "/p/rules/a-b.md".to_string(),
            "/p/rules/a.md".to_string(),
            "/p/rules/a.md".to_string(),
            "/p/rules/ab.md".to_string(),
            "/p/rules/b.md".to_string(),
        ]
    );
    assert!(agentic_sync::discover::sorted_paths(vec![]).is_empty());
}

#[test]
fn paths_are_sorted_component_by_component() {
    let paths: Vec<String> = vec![
        "/s/a-b/SKILL.md",
        "/s/a/SKILL.md",
        "/s/a.b/SKILL.md",
        "/s/ab/SKILL.md",
        "/s//x",
        "/s/x",
        "/s/./y",
        "/s/../z",
        "/s/...",
        "rel/x",
        "./q",
        "/",
        "/s/a/",
    ]
    .into_iter()
    .map(|p| p.to_string())
    .collect();
    let mut expected: Vec<std::path::PathBuf> =
        paths.iter().map(std::path::PathBuf::from).collect();
    expected.sort();
    let expected: Vec<String> =
        expected.iter().map(|p| p.to_string_lossy().into_owned()).collect();
    assert_eq!(agentic_sync::discover::sorted_paths(paths), expected);

    let skills = vec!["/s/a-b/SKILL.md".to_string(), "/s/a/SKILL.md".to_string()];
    assert_eq!(
        agentic_sync::discover::sorted_paths(skills),
        vec!["/s/a/SKILL.md".to_string(), "/s/a-b/SKILL.md".to_string()]
    );
}
