use agentic_sync::json::Json;
use agentic_sync::parse::mcp::parse_mcp_text;

fn get<'a>(j: &'a Json, key: &str) -> Option<&'a Json> {
    match j {
        Json::Object(ms) => ms.iter().find(|(k, _)| k == key).map(|(_, v)| v),
        _ => None,
    }
}

#[test]
fn parses_flat_mcp_json() {
    let config = parse_mcp_text(".mcp.json", r#"{"context7": {"command": "npx"}}"#).unwrap();
    assert!(get(&config.servers, "context7").is_some());
    assert_eq!(
        get(get(&config.servers, "context7").unwrap(), "command"),
        Some(&Json::Str("npx".to_string()))
    );
}

#[test]
fn parses_wrapped_mcp_json() {
    let config = parse_mcp_text(
        ".mcp.json",
        r#"{"mcpServers": {"linear": {"command": "node", "args": ["server.js"]}}}"#,
    )
    .unwrap();
    assert!(get(&config.servers, "linear").is_some());
    assert_eq!(
        get(get(&config.servers, "linear").unwrap(), "command"),
        Some(&Json::Str("node".to_string()))
    );
    assert!(get(&config.servers, "mcpServers").is_none());
}

#[test]
fn flat_document_is_kept_whole() {
    let config = parse_mcp_text(".mcp.json", r#"{"a": [1, 2.5, null, false]}"#).unwrap();
    assert_eq!(
        config.servers,
        Json::Object(vec![(
            "a".to_string(),
            Json::Array(vec![
                Json::Number("1".to_string()),
                Json::Number("2.5".to_string()),
                Json::Null,
                Json::Bool(false),
            ]),
        )])
    );
    let scalar = parse_mcp_text(".mcp.json", "\"x\"").unwrap();
    assert_eq!(scalar.servers, Json::Str("x".to_string()));
}

#[test]
fn wrapped_document_is_unwrapped() {
    let config = parse_mcp_text(".mcp.json", r#"{"b": 1, "mcpServers": {"s": {}}}"#).unwrap();
    assert_eq!(
        config.servers,
        Json::Object(vec![("s".to_string(), Json::Object(vec![]))])
    );
}

#[test]
fn invalid_mcp_json_names_file_and_error() {
    let err = parse_mcp_text("/p/.mcp.json", "{not json").unwrap_err();
    assert!(err.starts_with("Invalid JSON in /p/.mcp.json: "));
    let detail = serde_json::from_str::<serde_json::Value>("{not json").unwrap_err().to_string();
    assert_eq!(err, format!("Invalid JSON in /p/.mcp.json: {detail}"));
}

#[test]
fn empty_mcp_json_is_an_error() {
    assert!(parse_mcp_text("x", "").is_err());
}

#[test]
fn mcp_servers_pass_through_to_cursor_unchanged() {
    let config = parse_mcp_text(
        ".mcp.json",
        r#"{"mcpServers": {"gh": {"command": "gh-mcp", "env": {"TOKEN": "${GITHUB_TOKEN}"}}}}"#,
    )
    .unwrap();
    let project = agentic_sync::ir::ProjectConfig { sections: vec![], skills: vec![], mcp: Some(config) };
    let files = agentic_sync::generate::cursor::generate("/p", &project);
    assert_eq!(files.len(), 1);
    assert_eq!(files[0].path, "/p/.cursor/mcp.json");
    assert_eq!(
        files[0].content,
        "{\n  \"mcpServers\": {\n    \"gh\": {\n      \"command\": \"gh-mcp\",\n      \"env\": {\n        \"TOKEN\": \"${GITHUB_TOKEN}\"\n      }\n    }\n  }\n}\n"
    );
}
