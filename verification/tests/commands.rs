//! What the commands decide.

use cc_switch::commands::{
    codex_configured, extract_common_config_snippet, get_config_status, initial_directory, invalid_json_format_error,
    invalid_toml_format_error, set_claude_common_config_snippet, set_common_config_snippet, snippet_keys,
    validate_common_config_snippet, AppType, SnippetApp,
};

fn validate(app: SnippetApp, snippet: &str) -> Result<(), String> {
    let sensitive = vec!["GOOGLE_API_KEY".to_string(), "GEMINI_API_KEY".to_string()];
    validate_common_config_snippet(app, &format!("{app:?}"), snippet, None, &sensitive)
}

#[test]
fn validate_common_config_snippet_accepts_comment_only_codex_snippet() {
    assert!(validate(SnippetApp::Codex, "# comment only\n").is_ok());
}

#[test]
fn validate_common_config_snippet_rejects_invalid_codex_snippet() {
    let err = validate(SnippetApp::Codex, "[broken").expect_err("invalid TOML");
    assert!(err.contains("TOML") || err.contains("toml") || err.contains("格式"));
}

#[test]
fn validate_common_config_snippet_accepts_structured_and_legacy_gemini_snippets() {
    assert!(validate(
        SnippetApp::Gemini,
        r#"{ "env": { "GEMINI_MODEL": "gemini-3.5-flash" }, "config": { "theme": "Default" } }"#,
    )
    .is_ok());
    assert!(validate(SnippetApp::Gemini, r#"{ "GEMINI_MODEL": "gemini-3.5-flash" }"#).is_ok());
}

#[test]
fn validate_common_config_snippet_rejects_gemini_credentials() {
    let error = validate(SnippetApp::Gemini, r#"{ "env": { "GOOGLE_API_KEY": "secret" } }"#)
        .expect_err("a secret");
    assert!(error.contains("GOOGLE_API_KEY"));
}

#[test]
fn validate_common_config_snippet_rejects_non_object_claude_snippet() {
    let error = validate(SnippetApp::Claude, r#"["invalid"]"#).expect_err("no object");
    assert!(error.contains("JSON object"));
}

#[test]
fn messages_are_in_the_language_of_the_user() {
    assert_eq!(invalid_json_format_error("x", Some("en")), "Invalid JSON format: x");
    assert_eq!(invalid_json_format_error("x", Some("ja")), "JSON形式が無効です: x");
    assert_eq!(invalid_json_format_error("x", Some("zh")), "无效的 JSON 格式: x");
    assert_eq!(invalid_json_format_error("x", None), "无效的 JSON 格式: x");
    assert_eq!(invalid_toml_format_error("x", Some("en")), "Invalid TOML format: x");
    assert_eq!(invalid_toml_format_error("x", Some("ja")), "TOML形式が無効です: x");
    assert_eq!(invalid_toml_format_error("x", Some("fr")), "无效的 TOML 格式: x");
    let err = validate_common_config_snippet(SnippetApp::Omo, "Omo", "{", Some("en"), &Vec::new()).unwrap_err();
    assert!(err.starts_with("Invalid JSON format: "));
}

#[test]
fn gemini_snippets_have_two_sections() {
    assert_eq!(
        validate(SnippetApp::Gemini, "[]").unwrap_err(),
        "Gemini common config must be a JSON object"
    );
    assert_eq!(
        validate(SnippetApp::Gemini, r#"{ "env": {}, "b": 1, "a": 2 }"#).unwrap_err(),
        "Gemini common config only supports env and config sections: b, a"
    );
    assert_eq!(
        validate(SnippetApp::Gemini, r#"{ "config": 1 }"#).unwrap_err(),
        "Gemini common config.config must be a JSON object"
    );
    assert_eq!(
        validate(SnippetApp::Gemini, r#"{ "env": 1 }"#).unwrap_err(),
        "Gemini common config.env must be a JSON object"
    );
    assert_eq!(
        validate(SnippetApp::Gemini, r#"{ "A": "x", "GOOGLE_GEMINI_BASE_URL": "u", "GEMINI_API_KEY": 1 }"#)
            .unwrap_err(),
        "Gemini common config may not contain provider URLs or credentials: GOOGLE_GEMINI_BASE_URL, GEMINI_API_KEY"
    );
    assert_eq!(
        validate(SnippetApp::Gemini, r#"{ "A": 1 }"#).unwrap_err(),
        "Gemini common config env values must all be strings"
    );
    assert!(validate(SnippetApp::Gemini, r#"{ "config": {} }"#).is_ok());
}

#[test]
fn snippets_of_the_other_applications() {
    assert!(validate(SnippetApp::Claude, " \n").is_ok());
    assert!(validate(SnippetApp::Claude, "{").is_err());
    assert!(validate(SnippetApp::Claude, "{}").is_ok());
    assert!(validate(SnippetApp::OmoSlim, "[1]").is_ok());
    assert!(validate(SnippetApp::Dsh, "a: 1\n").is_ok());
    assert!(validate(SnippetApp::Dsh, "- a\n").unwrap_err().starts_with("Invalid dsh common config: "));
    assert!(validate(SnippetApp::Other, "anything").is_ok());
}

#[test]
fn setting_a_snippet_is_decided() {
    let none: Vec<String> = Vec::new();
    let u = set_common_config_snippet(SnippetApp::Dsh, "T", "a: 1\n", Some("b: 2\n"), None, &none)
        .unwrap();
    assert_eq!(u.value.as_deref(), Some("a: 1\n"));
    assert!(!u.cleared && u.take_old && u.apply_new);
    assert!(!u.migrate_old && !u.sync_provider && !u.write_omo);

    let u = set_common_config_snippet(SnippetApp::Dsh, "T", " ", Some(" "), None, &none).unwrap();
    assert!(u.value.is_none() && u.cleared && !u.take_old && !u.apply_new);

    let u = set_common_config_snippet(SnippetApp::Gemini, "T", "{}", Some("{}"), None, &none).unwrap();
    assert!(u.migrate_old && u.sync_provider && !u.take_old && !u.apply_new && !u.write_omo);

    let u = set_common_config_snippet(SnippetApp::Codex, "T", "", None, None, &none).unwrap();
    assert!(!u.migrate_old && u.sync_provider && u.cleared);

    let u = set_common_config_snippet(SnippetApp::Omo, "T", "{}", None, None, &none).unwrap();
    assert!(u.write_omo && !u.sync_provider);

    assert_eq!(
        set_common_config_snippet(SnippetApp::Claude, "T", "[]", None, None, &none).unwrap_err(),
        "T common config must be a JSON object"
    );
}

#[test]
fn setting_the_claude_snippet_is_decided() {
    assert_eq!(set_claude_common_config_snippet("  ", None).unwrap(), None);
    assert_eq!(set_claude_common_config_snippet("[]", None).unwrap().as_deref(), Some("[]"));
    assert!(set_claude_common_config_snippet("{", Some("en"))
        .unwrap_err()
        .starts_with("Invalid JSON format: "));
}

#[test]
fn settings_to_extract_from() {
    assert!(extract_common_config_snippet(None, None).unwrap().is_none());
    assert!(extract_common_config_snippet(Some(" "), None).unwrap().is_none());
    assert!(extract_common_config_snippet(Some("{}"), None).unwrap().is_some());
    assert!(extract_common_config_snippet(Some("{"), None).is_err());
}

#[test]
fn places() {
    assert!(codex_configured(true, ""));
    assert!(codex_configured(false, "a = 1"));
    assert!(!codex_configured(false, " \n"));
    assert_eq!(initial_directory(Some(" /tmp ")).as_deref(), Some("/tmp"));
    assert_eq!(initial_directory(Some("  ")), None);
    assert_eq!(initial_directory(None), None);
}

#[test]
fn the_status_of_an_application_is_its_file_and_directory() {
    let status = get_config_status(AppType::Gemini, true, "", Some("/home/u/.gemini"));
    assert!(status.exists);
    assert_eq!(status.path, "/home/u/.gemini");
    assert!(!get_config_status(AppType::Dsh, false, "x", Some("/d")).exists);
    assert!(!get_config_status(AppType::Codex, false, " \n", Some("/c")).exists);
    assert!(get_config_status(AppType::Codex, false, "model = 1", Some("/c")).exists);
    assert!(get_config_status(AppType::Codex, true, "", Some("/c")).exists);
    let desktop = get_config_status(AppType::ClaudeDesktop, true, "", None);
    assert!(desktop.exists);
    assert_eq!(desktop.path, "");
}

#[test]
fn snippet_keys_are_the_variables_of_a_snippet() {
    assert_eq!(snippet_keys(r#"{"A":"1","B":{"C":"2"}}"#), ["A", "B"]);
    assert_eq!(snippet_keys(r#"{"env":{"A":"1","B":"2"},"config":{"C":3}}"#), ["A", "B"]);
    assert!(snippet_keys(r#"{"config":{"C":3}}"#).is_empty());
    assert!(snippet_keys(r#"{"env":1,"A":"2"}"#).is_empty());
    assert!(snippet_keys("[]").is_empty());
    assert!(snippet_keys("{").is_empty());
}
