//! The configuration of zcode.

use cc_switch::error::AppError;
use cc_switch::json::parse_json;
use cc_switch::plan::WritePlan;
use cc_switch::value::{Datum, Table};
use cc_switch::zcode_config::{
    apply_zcode_common_config, check_provider, create_zcode_backup, get_provider, get_providers,
    get_zcode_cli_config_path, get_zcode_settings_path, parse_common_config_snippet,
    read_zcode_cli_config, read_zcode_settings, remove_provider, remove_zcode_common_config,
    set_provider, validate_zcode_provider_config, validate_zcode_provider_key,
    write_zcode_cli_config, zcode_common_config_applied, ZcodeWriteOutcome,
};

const V2: &str = "v2/config.json";
const CLI: &str = "cli/config.json";

/// The files of zcode, and what was saved of them.
struct Home {
    v2: Option<String>,
    cli: Option<String>,
    saved: Vec<String>,
}

fn carry_out(file: &mut Option<String>, saved: &mut Vec<String>, plan: &WritePlan) -> bool {
    match plan {
        WritePlan::Keep => false,
        WritePlan::Write { text, backup } => {
            if *backup {
                saved.push(file.clone().unwrap());
            }
            *file = Some(text.clone());
            *backup
        }
    }
}

impl Home {
    fn new() -> Home {
        Home { v2: None, cli: None, saved: Vec::new() }
    }

    fn with_v2(raw: &str) -> Home {
        Home { v2: Some(raw.to_string()), cli: None, saved: Vec::new() }
    }

    fn with_cli(raw: &str) -> Home {
        Home { v2: None, cli: Some(raw.to_string()), saved: Vec::new() }
    }

    fn v2(&self) -> &str {
        self.v2.as_deref().unwrap_or("")
    }

    fn cli(&self) -> &str {
        self.cli.as_deref().unwrap_or("")
    }

    fn try_set(&mut self, key: &str, config: &Datum) -> Result<ZcodeWriteOutcome, AppError> {
        let plan = set_provider(V2, self.v2(), key, config)?;
        let saved = carry_out(&mut self.v2, &mut self.saved, &plan);
        let copy = if saved {
            Some(create_zcode_backup("providers", &Vec::new()))
        } else {
            None
        };
        Ok(ZcodeWriteOutcome::of(&plan, copy))
    }

    fn set(&mut self, key: &str, config: &str) -> ZcodeWriteOutcome {
        self.try_set(key, &json(config)).unwrap()
    }

    fn remove(&mut self, key: &str) -> ZcodeWriteOutcome {
        let plan = remove_provider(V2, self.v2(), key).unwrap();
        let saved = carry_out(&mut self.v2, &mut self.saved, &plan);
        ZcodeWriteOutcome::of(&plan, if saved { Some("copy".to_string()) } else { None })
    }

    fn providers(&self) -> Table {
        get_providers(V2, self.v2()).unwrap()
    }

    fn provider(&self, key: &str) -> Option<Datum> {
        get_provider(V2, self.v2(), key).unwrap()
    }

    fn apply(&mut self, snippet: &str) {
        let plan = apply_zcode_common_config(CLI, self.cli(), snippet).unwrap();
        carry_out(&mut self.cli, &mut self.saved, &plan);
    }

    fn unapply(&mut self, snippet: &str) {
        let plan = remove_zcode_common_config(CLI, self.cli(), snippet).unwrap();
        carry_out(&mut self.cli, &mut self.saved, &plan);
    }

    fn applied(&self, snippet: &str) -> bool {
        zcode_common_config_applied(CLI, self.cli(), snippet)
    }

    fn read_cli(&self) -> Datum {
        Datum::Mapping(read_zcode_cli_config(CLI, self.cli()).unwrap())
    }
}

fn json(text: &str) -> Datum {
    parse_json(text).unwrap()
}

fn at<'a>(v: &'a Datum, path: &[&str]) -> Option<&'a Datum> {
    let mut v = v;
    for name in path {
        v = v.get(name)?;
    }
    Some(v)
}

fn text_at<'a>(v: &'a Datum, path: &[&str]) -> Option<&'a str> {
    at(v, path).and_then(|v| v.as_str())
}

fn number_at(v: &Datum, path: &[&str]) -> Option<u64> {
    at(v, path).and_then(|v| v.as_u64())
}

fn bool_at(v: &Datum, path: &[&str]) -> Option<bool> {
    at(v, path).and_then(|v| v.as_bool())
}

fn demo_config() -> &'static str {
    r#"{
        "kind": "openai-compatible",
        "baseURL": "https://api.example.com/v1",
        "apiKey": "sk-test-123",
        "apiKeyRequired": true,
        "headers": { "X-Custom": "yes" },
        "displayName": "Demo",
        "models": [
            {
                "id": "model-a",
                "name": "Model A",
                "reasoning": { "enabled": true },
                "limit": { "context": 128000, "output": 8192 }
            }
        ],
        "zcode.modified": "2026-01-01T00:00:00Z"
    }"#
}

#[test]
fn zcode_paths_are_below_the_home_directory() {
    assert_eq!(get_zcode_settings_path(), vec!["v2".to_string(), "config.json".to_string()]);
    assert_eq!(get_zcode_cli_config_path(), vec!["cli".to_string(), "config.json".to_string()]);
}

#[test]
fn read_settings_returns_empty_object_when_missing() {
    let home = Home::new();
    assert!(read_zcode_settings(V2, home.v2()).unwrap().is_empty());
    assert!(read_zcode_cli_config(CLI, home.cli()).unwrap().is_empty());
    assert!(home.providers().is_empty());
    assert!(home.provider("ghost").is_none());
}

#[test]
fn read_settings_rejects_malformed_json() {
    assert!(read_zcode_settings(V2, "{ not valid json").is_err());
    assert!(get_providers(V2, "{ not valid json").is_err());
}

#[test]
fn provider_roundtrip_flat_to_native_and_back() {
    let mut home = Home::new();
    home.set("demo", demo_config());

    let raw = home.v2().to_string();
    assert!(raw.ends_with("}\n"));
    let doc = json(&raw);
    let entry = at(&doc, &["provider", "demo"]).unwrap();
    assert_eq!(text_at(entry, &["name"]), Some("Demo"));
    assert_eq!(text_at(entry, &["kind"]), Some("openai-compatible"));
    assert_eq!(text_at(entry, &["source"]), Some("custom"));
    assert_eq!(text_at(entry, &["options", "apiKey"]), Some("sk-test-123"));
    assert_eq!(text_at(entry, &["options", "baseURL"]), Some("https://api.example.com/v1"));
    assert_eq!(bool_at(entry, &["options", "apiKeyRequired"]), Some(true));
    assert_eq!(text_at(entry, &["options", "headers", "X-Custom"]), Some("yes"));
    assert_eq!(text_at(entry, &["models", "model-a", "name"]), Some("Model A"));
    assert!(at(entry, &["models", "model-a", "id"]).is_none());
    assert_eq!(bool_at(entry, &["models", "model-a", "reasoning", "enabled"]), Some(true));
    assert_eq!(number_at(entry, &["models", "model-a", "limit", "context"]), Some(128000));
    assert_eq!(text_at(entry, &["zcode.modified"]), Some("2026-01-01T00:00:00Z"));

    let demo = home.provider("demo").unwrap();
    assert_eq!(text_at(&demo, &["kind"]), Some("openai-compatible"));
    assert_eq!(text_at(&demo, &["displayName"]), Some("Demo"));
    assert_eq!(text_at(&demo, &["apiKey"]), Some("sk-test-123"));
    assert_eq!(text_at(&demo, &["baseURL"]), Some("https://api.example.com/v1"));
    assert_eq!(bool_at(&demo, &["apiKeyRequired"]), Some(true));
    assert_eq!(text_at(&demo, &["headers", "X-Custom"]), Some("yes"));
    assert_eq!(text_at(&demo, &["zcode.modified"]), Some("2026-01-01T00:00:00Z"));
    assert!(demo.get("source").is_none());
    assert!(demo.get("options").is_none());
    let models = demo.get("models").unwrap().as_list().unwrap();
    assert_eq!(models.len(), 1);
    assert_eq!(text_at(&models[0], &["id"]), Some("model-a"));
    assert_eq!(text_at(&models[0], &["name"]), Some("Model A"));
    assert_eq!(bool_at(&models[0], &["reasoning", "enabled"]), Some(true));
    assert_eq!(number_at(&models[0], &["limit", "output"]), Some(8192));
}

#[test]
fn provider_roundtrip_flat_to_native_and_back_then_remove() {
    let mut home = Home::new();
    home.set(
        "demo",
        r#"{
            "kind": "openai-compatible",
            "baseURL": "https://api.example.com/v1",
            "apiKey": "sk-demo",
            "displayName": "Demo",
            "models": [{ "id": "model-a", "name": "Model A" }]
        }"#,
    );

    let doc = json(home.v2());
    let entry = at(&doc, &["provider", "demo"]).unwrap();
    assert_eq!(text_at(entry, &["name"]), Some("Demo"));
    assert_eq!(text_at(entry, &["kind"]), Some("openai-compatible"));
    assert_eq!(text_at(entry, &["source"]), Some("custom"));
    assert_eq!(text_at(entry, &["options", "apiKey"]), Some("sk-demo"));
    assert_eq!(text_at(entry, &["options", "baseURL"]), Some("https://api.example.com/v1"));
    assert_eq!(text_at(entry, &["models", "model-a", "name"]), Some("Model A"));
    assert!(at(entry, &["models", "model-a", "id"]).is_none());

    let demo = home.provider("demo").unwrap();
    assert_eq!(text_at(&demo, &["kind"]), Some("openai-compatible"));
    assert_eq!(text_at(&demo, &["displayName"]), Some("Demo"));
    assert_eq!(text_at(&demo, &["apiKey"]), Some("sk-demo"));
    assert_eq!(text_at(&demo, &["baseURL"]), Some("https://api.example.com/v1"));
    assert!(demo.get("source").is_none() && demo.get("options").is_none());
    let models = demo.get("models").unwrap().as_list().unwrap();
    assert_eq!(models.len(), 1);
    assert_eq!(text_at(&models[0], &["id"]), Some("model-a"));
    assert_eq!(text_at(&models[0], &["name"]), Some("Model A"));

    home.remove("demo");
    assert!(home.providers().get("demo").is_none());
}

#[test]
fn zcode_config_set_provider_preserves_unknown_fields_and_top_level_keys() {
    let mut home = Home::with_v2(
        r#"{
  "provider": {
    "acme": {
      "name": "Acme",
      "kind": "anthropic",
      "source": "custom",
      "options": { "apiKey": "sk-old", "baseURL": "https://old.example.com" },
      "models": { "m1": { "name": "M1" } },
      "zcode.modified": 12345
    }
  },
  "zcode.modified": "top-level-preserved",
  "otherTop": { "x": 1 }
}"#,
    );

    home.set("acme", r#"{ "apiKey": "sk-new" }"#);

    let doc = json(home.v2());
    assert_eq!(text_at(&doc, &["zcode.modified"]), Some("top-level-preserved"));
    assert_eq!(number_at(&doc, &["otherTop", "x"]), Some(1));

    let entry = at(&doc, &["provider", "acme"]).unwrap();
    assert_eq!(text_at(entry, &["options", "apiKey"]), Some("sk-new"));
    assert_eq!(text_at(entry, &["options", "baseURL"]), Some("https://old.example.com"));
    assert_eq!(number_at(entry, &["zcode.modified"]), Some(12345));
    assert_eq!(text_at(entry, &["name"]), Some("Acme"));
    assert_eq!(text_at(entry, &["kind"]), Some("anthropic"));
    assert_eq!(text_at(entry, &["models", "m1", "name"]), Some("M1"));
}

#[test]
fn zcode_roundtrip_set_provider_preserves_unknown_fields_and_top_level_keys() {
    let mut home = Home::with_v2(
        r#"{
  "provider": {
    "acme": {
      "name": "Acme",
      "kind": "anthropic",
      "source": "custom",
      "options": { "apiKey": "sk-old", "baseURL": "https://old.example.com" },
      "models": { "m1": { "name": "M1" } },
      "zcode.modified": 12345
    }
  },
  "otherTop": { "x": 1 }
}"#,
    );

    home.set("acme", r#"{ "apiKey": "sk-new" }"#);

    let doc = json(home.v2());
    assert_eq!(number_at(&doc, &["otherTop", "x"]), Some(1));
    let entry = at(&doc, &["provider", "acme"]).unwrap();
    assert_eq!(number_at(entry, &["zcode.modified"]), Some(12345));
    assert_eq!(text_at(entry, &["options", "apiKey"]), Some("sk-new"));
    assert_eq!(text_at(entry, &["options", "baseURL"]), Some("https://old.example.com"));
    assert_eq!(text_at(entry, &["name"]), Some("Acme"));
    assert_eq!(text_at(entry, &["kind"]), Some("anthropic"));
    assert_eq!(text_at(entry, &["models", "m1", "name"]), Some("M1"));
}

#[test]
fn set_provider_name_falls_back_to_key_on_create() {
    let mut home = Home::new();
    home.set("my-prov", r#"{ "kind": "openai", "baseURL": "https://a.example.com" }"#);
    let entry = home.provider("my-prov").unwrap();
    assert_eq!(text_at(&entry, &["displayName"]), Some("my-prov"));
}

#[test]
fn set_provider_rejects_invalid_key_and_kind_before_write() {
    let mut home = Home::new();
    let err = home.try_set("bad key", &json(demo_config())).expect_err("invalid key");
    assert!(err.message().contains("清空"));

    let mut config = match json(demo_config()) {
        Datum::Mapping(m) => m,
        _ => panic!("an object"),
    };
    config.insert("kind", Datum::text("responses"));
    let err = home.try_set("demo", &Datum::Mapping(config)).expect_err("invalid kind");
    assert!(err.message().contains("清空"));

    assert!(home.v2.is_none());
}

#[test]
fn set_provider_rejects_invalid_key_charset() {
    let mut home = Home::new();
    let config = json(r#"{ "kind": "openai", "baseURL": "https://a.example.com" }"#);
    let err = home.try_set("bad key", &config).expect_err("invalid key");
    assert!(err.message().contains("清空"));
    assert!(home.v2.is_none());

    assert!(home.try_set("builtin:zai_2-x", &config).is_ok());
}

#[test]
fn set_provider_noop_when_content_unchanged() {
    let mut home = Home::new();
    let first = home.set("demo", demo_config());
    assert!(first.backup_path.is_none());
    let second = home.set("demo", demo_config());
    assert!(second.backup_path.is_none());
}

#[test]
fn remove_provider_roundtrip_and_noop() {
    let mut home = Home::new();
    home.set("solo", demo_config());
    assert!(home.provider("solo").is_some());

    home.set("other", demo_config());
    let outcome = home.remove("solo");
    assert!(outcome.backup_path.is_some());
    assert!(home.provider("solo").is_none());
    assert!(home.provider("other").is_some());

    let outcome = home.remove("ghost");
    assert!(outcome.backup_path.is_none());
}

#[test]
fn remove_provider_missing_file_is_noop() {
    let mut home = Home::new();
    let outcome = home.remove("ghost");
    assert!(outcome.backup_path.is_none());
    assert!(home.v2.is_none());
}

#[test]
fn write_creates_backup_under_cc_switch_backups_dir() {
    let mut home = Home::with_v2("{ \"provider\": {} }");
    let outcome = home.set("demo", demo_config());
    let filename = outcome.backup_path.expect("a copy");
    assert!(filename.starts_with("zcode_providers_") && filename.ends_with(".json"));
    assert_eq!(home.saved, vec!["{ \"provider\": {} }".to_string()]);
}

#[test]
fn set_provider_creates_providers_backup_for_existing_file() {
    let mut home = Home::with_v2("{ \"provider\": {} }");
    let outcome =
        home.set("demo", r#"{ "kind": "openai", "baseURL": "https://a.example.com" }"#);
    let filename = outcome.backup_path.expect("a copy");
    assert!(filename.starts_with("zcode_providers_") && filename.ends_with(".json"));
    assert_eq!(home.saved, vec!["{ \"provider\": {} }".to_string()]);
}

#[test]
fn zcode_config_common_config_apply_contain_remove_roundtrip() {
    let mut home = Home::new();
    let snippet = r#"{"agent": {"maxTurns": 10, "temperature": 0.5}, "ui": {"theme": "dark"}}"#;
    assert!(!home.applied(snippet));

    home.apply(snippet);
    assert!(home.applied(snippet));

    let root = home.read_cli();
    assert_eq!(number_at(&root, &["agent", "maxTurns"]), Some(10));
    assert_eq!(text_at(&root, &["ui", "theme"]), Some("dark"));

    home.unapply(snippet);
    assert!(!home.applied(snippet));
    let root = home.read_cli();
    assert!(root.get("agent").is_none());
    assert!(root.get("ui").is_none());
}

#[test]
fn zcode_roundtrip_common_config_apply_applied_and_remove_roundtrip() {
    let mut home = Home::new();
    let snippet = r#"{"agent": {"maxTurns": 10}, "ui": {"theme": "dark"}}"#;
    assert!(!home.applied(snippet));
    home.apply(snippet);
    assert!(home.applied(snippet));

    let root = home.read_cli();
    assert_eq!(number_at(&root, &["agent", "maxTurns"]), Some(10));
    assert_eq!(text_at(&root, &["ui", "theme"]), Some("dark"));

    home.unapply(snippet);
    assert!(!home.applied(snippet));
    let root = home.read_cli();
    assert!(root.get("agent").is_none());
    assert!(root.get("ui").is_none());
}

#[test]
fn zcode_config_common_config_apply_deep_merges_with_existing() {
    let mut home = Home::with_cli(r#"{"agent": {"maxTurns": 5}}"#);
    home.apply(r#"{"agent": {"temperature": 0.5}}"#);

    let root = home.read_cli();
    assert_eq!(number_at(&root, &["agent", "maxTurns"]), Some(5));
    assert!(at(&root, &["agent", "temperature"]).unwrap().same_as(&json("0.5")));
}

#[test]
fn zcode_config_common_config_ignores_protected_mcp_key() {
    let mut home = Home::with_cli(r#"{"mcp": {"servers": {"existing": {"command": "x"}}}}"#);

    let snippet =
        r#"{"mcp": {"servers": {"evil": {"command": "y"}}}, "telemetry": {"enabled": false}}"#;
    home.apply(snippet);

    let root = home.read_cli();
    assert!(at(&root, &["mcp", "servers", "evil"]).is_none());
    assert!(at(&root, &["mcp", "servers", "existing"]).is_some());
    assert_eq!(bool_at(&root, &["telemetry", "enabled"]), Some(false));
    assert!(home.applied(snippet));

    home.unapply(snippet);
    let root = home.read_cli();
    assert!(at(&root, &["mcp", "servers", "existing"]).is_some());
    assert!(root.get("telemetry").is_none());
}

#[test]
fn zcode_roundtrip_common_config_ignores_protected_mcp_key() {
    let mut home =
        Home::with_cli(r#"{ "mcp": { "servers": { "existing": { "command": "x" } } } }"#);

    let snippet =
        r#"{"mcp": {"servers": {"evil": {"command": "y"}}}, "telemetry": {"enabled": false}}"#;
    home.apply(snippet);

    let root = home.read_cli();
    assert!(at(&root, &["mcp", "servers", "evil"]).is_none());
    assert!(at(&root, &["mcp", "servers", "existing"]).is_some());
    assert_eq!(bool_at(&root, &["telemetry", "enabled"]), Some(false));
    assert!(home.applied(snippet));

    home.unapply(snippet);
    let root = home.read_cli();
    assert!(at(&root, &["mcp", "servers", "existing"]).is_some());
    assert!(root.get("telemetry").is_none());
}

#[test]
fn zcode_config_common_config_remove_skips_user_modified_values() {
    let mut home = Home::new();
    home.apply(r#"{"ui": {"theme": "dark", "font": "mono"}}"#);

    let mut root = read_zcode_cli_config(CLI, home.cli()).unwrap();
    let mut ui = match root.get("ui") {
        Some(Datum::Mapping(m)) => m.clone(),
        _ => panic!("an object"),
    };
    ui.insert("theme", Datum::text("light"));
    root.insert("ui", Datum::Mapping(ui));
    let plan = write_zcode_cli_config(home.cli(), &root).unwrap();
    carry_out(&mut home.cli, &mut home.saved, &plan);

    home.unapply(r#"{"ui": {"theme": "dark", "font": "mono"}}"#);

    let root = home.read_cli();
    assert_eq!(text_at(&root, &["ui", "theme"]), Some("light"));
    assert!(at(&root, &["ui", "font"]).is_none());
}

#[test]
fn common_config_snippet_must_be_object() {
    assert!(parse_common_config_snippet("[1, 2]").is_err());
    assert!(parse_common_config_snippet("").unwrap().is_empty());
    assert!(parse_common_config_snippet("  \n ").unwrap().is_empty());
    assert!(parse_common_config_snippet("not json").is_err());
}

#[test]
fn zcode_config_validate_accepts_valid_config() {
    let config = json(
        r#"{
            "kind": "openai-compatible",
            "baseURL": "https://a.example.com",
            "models": [{ "id": "m" }]
        }"#,
    );
    assert!(validate_zcode_provider_config(&config).is_ok());
    let config = json(r#"{ "kind": "anthropic", "baseURL": "https://a.example.com" }"#);
    assert!(validate_zcode_provider_config(&config).is_ok());
    let config =
        json(r#"{ "kind": "openai", "baseURL": "https://a.example.com", "models": [] }"#);
    assert!(validate_zcode_provider_config(&config).is_ok());
}

#[test]
fn validate_rejects_missing_or_invalid_kind() {
    let config = json(r#"{ "baseURL": "https://a.example.com" }"#);
    assert!(validate_zcode_provider_config(&config).is_err());

    let config = json(r#"{ "kind": "responses", "baseURL": "https://a.example.com" }"#);
    let err = validate_zcode_provider_config(&config).expect_err("invalid kind");
    assert!(err.message().contains("清空"));
    assert!(err.message().contains("anthropic"));
}

#[test]
fn validate_rejects_invalid_kind_with_wipe_warning() {
    let valid = json(
        r#"{ "kind": "anthropic", "baseURL": "https://a.example.com", "models": [{ "id": "m" }] }"#,
    );
    assert!(validate_zcode_provider_config(&valid).is_ok());

    let err = validate_zcode_provider_config(&json(
        r#"{ "kind": "responses", "baseURL": "https://a.example.com" }"#,
    ))
    .expect_err("invalid kind");
    let msg = err.message();
    assert!(msg.contains("清空"));
    assert!(msg.contains("anthropic"));

    assert!(validate_zcode_provider_config(&json(r#"{ "baseURL": "https://a.example.com" }"#))
        .is_err());
    assert!(
        validate_zcode_provider_config(&json(r#"{ "kind": "openai", "baseURL": "  " }"#)).is_err()
    );
}

#[test]
fn zcode_config_validate_rejects_missing_or_blank_base_url() {
    let config = json(r#"{ "kind": "openai" }"#);
    assert!(validate_zcode_provider_config(&config).is_err());
    let config = json(r#"{ "kind": "openai", "baseURL": "  " }"#);
    assert!(validate_zcode_provider_config(&config).is_err());
}

#[test]
fn validate_rejects_invalid_models() {
    let config = json(
        r#"{ "kind": "openai", "baseURL": "https://a.example.com", "models": { "m": {} } }"#,
    );
    assert!(validate_zcode_provider_config(&config).is_err());
    let config = json(
        r#"{
            "kind": "openai",
            "baseURL": "https://a.example.com",
            "models": [{ "name": "no-id" }]
        }"#,
    );
    assert!(validate_zcode_provider_config(&config).is_err());
}

#[test]
fn validate_provider_key_charset() {
    assert!(validate_zcode_provider_key("builtin:zai").is_ok());
    assert!(validate_zcode_provider_key("my-prov_2").is_ok());
    assert!(validate_zcode_provider_key("").is_err());
    assert!(validate_zcode_provider_key("bad key").is_err());
    assert!(validate_zcode_provider_key("bad.key").is_err());
    assert!(validate_zcode_provider_key("中文").is_err());
}

#[test]
fn zcode_validation_errors_have_their_keys() {
    let key_of = |text: &str| match validate_zcode_provider_config(&json(text)) {
        Err(AppError::Localized { key, .. }) => key,
        _ => "none".to_string(),
    };
    assert_eq!(key_of("1"), "provider.zcode.configNotObject");
    assert_eq!(key_of("{}"), "provider.zcode.kindRequired");
    assert_eq!(key_of(r#"{ "kind": null }"#), "provider.zcode.invalidKind");
    assert_eq!(key_of(r#"{ "kind": "openai" }"#), "provider.zcode.baseUrlRequired");
    assert_eq!(
        key_of(r#"{ "kind": "openai", "baseURL": "x", "models": 1 }"#),
        "provider.zcode.modelsInvalid"
    );
    assert_eq!(
        key_of(r#"{ "kind": "openai", "baseURL": "x", "models": [{}] }"#),
        "provider.zcode.modelIdRequired"
    );
    let err = validate_zcode_provider_key("a b").unwrap_err();
    assert!(matches!(err, AppError::Localized { ref key, .. } if key == "provider.zcode.invalidProviderKey"));
}

#[test]
fn unusable_zcode_files_are_errors() {
    let message = |r: Result<Table, AppError>| match r {
        Err(AppError::Config(m)) => m,
        _ => "none".to_string(),
    };
    assert_eq!(
        message(read_zcode_settings(V2, "[]")),
        "zcode config v2/config.json top level must be a JSON object"
    );
    assert!(message(read_zcode_settings(V2, "{"))
        .starts_with("Failed to parse zcode config v2/config.json as JSON: "));
    assert_eq!(
        message(parse_common_config_snippet("[]")),
        "zcode common config snippet must be a JSON object"
    );
    assert!(message(parse_common_config_snippet("{"))
        .starts_with("Failed to parse zcode common config: "));
}

#[test]
fn keys_of_the_file_keep_their_order() {
    let mut home = Home::with_v2(r#"{ "z": 1, "provider": { "b": { "name": "B" } }, "a": 2 }"#);
    home.set("b", r#"{ "kind": "openai" }"#);
    let raw = home.v2();
    let z = raw.find("\"z\"").unwrap();
    let p = raw.find("\"provider\"").unwrap();
    let a = raw.find("\"a\"").unwrap();
    assert!(z < p && p < a);
}

fn names(v: &Datum, path: &[&str]) -> Vec<String> {
    match at(v, path).unwrap() {
        Datum::Mapping(table) => {
            table.entries.iter().map(|(key, _)| key.as_str().unwrap().to_string()).collect()
        }
        other => panic!("{other:?}"),
    }
}

#[test]
fn removing_a_provider_keeps_the_order_of_the_others() {
    let mut home = Home::with_v2(r#"{"first":1,"provider":{"a":{},"b":{},"c":{}},"last":2}"#);
    home.remove("a");
    let after = json(home.v2());
    assert_eq!(names(&after, &["provider"]), ["b", "c"]);
    assert_eq!(names(&after, &[]), ["first", "provider", "last"]);

    let mut home = Home::with_v2(r#"{"provider":{"a":{},"b":{},"c":{},"d":{}}}"#);
    home.remove("b");
    assert_eq!(names(&json(home.v2()), &["provider"]), ["a", "c", "d"]);
}

#[test]
fn writing_over_a_provider_leaves_its_fields_in_place() {
    let mut home = Home::with_v2(
        r#"{"provider":{"z":{},"p":{"own":1,"kind":"openai","options":{"extra":true,"apiKey":"old"},"name":"P"},"y":{}}}"#,
    );
    home.set("p", r#"{"baseURL":"https://x.example","apiKey":"new","kind":"anthropic"}"#);
    let after = json(home.v2());
    assert_eq!(names(&after, &["provider"]), ["z", "p", "y"]);
    assert_eq!(names(&after, &["provider", "p"]), ["own", "kind", "options", "name", "source"]);
    assert_eq!(names(&after, &["provider", "p", "options"]), ["extra", "apiKey", "baseURL"]);
    assert_eq!(text_at(&after, &["provider", "p", "kind"]), Some("anthropic"));
    assert_eq!(text_at(&after, &["provider", "p", "name"]), Some("P"));
    assert_eq!(number_at(&after, &["provider", "p", "own"]), Some(1));
    assert_eq!(text_at(&after, &["provider", "p", "options", "apiKey"]), Some("new"));
    assert_eq!(bool_at(&after, &["provider", "p", "options", "extra"]), Some(true));
}

#[test]
fn taking_a_snippet_out_leaves_an_object_that_was_empty_before() {
    let mut home = Home::with_cli(r#"{"ui":{}}"#);
    home.unapply(r#"{"ui":{"theme":"dark"}}"#);
    assert_eq!(names(&home.read_cli(), &[]), ["ui"]);
    assert_eq!(names(&home.read_cli(), &["ui"]), Vec::<String>::new());

    let mut home = Home::with_cli(r#"{"ui":{"inner":{}}}"#);
    home.unapply(r#"{"ui":{"inner":{"x":1}}}"#);
    assert_eq!(names(&home.read_cli(), &["ui"]), ["inner"]);

    let mut home = Home::with_cli(r#"{"ui":{}}"#);
    home.unapply(r#"{"ui":{}}"#);
    assert_eq!(names(&home.read_cli(), &[]), Vec::<String>::new());

    let mut home = Home::with_cli(r#"{"ui":{"theme":"dark"}}"#);
    home.unapply(r#"{"ui":{"theme":"dark","size":2}}"#);
    assert_eq!(names(&home.read_cli(), &[]), Vec::<String>::new());

    let mut home = Home::with_cli(r#"{"ui":{"theme":"dark"}}"#);
    home.unapply(r#"{"ui":{}}"#);
    assert_eq!(names(&home.read_cli(), &["ui"]), ["theme"]);
}

#[test]
fn snippets_move_no_key_of_the_file() {
    let mut home = Home::with_cli(r#"{"b":1,"a":{"y":1,"x":2},"c":3}"#);
    home.apply(r#"{"d":4,"a":{"z":0,"x":5},"b":2}"#);
    assert_eq!(names(&home.read_cli(), &[]), ["b", "a", "c", "d"]);
    assert_eq!(names(&home.read_cli(), &["a"]), ["y", "x", "z"]);
    home.unapply(r#"{"a":{"y":1},"b":2}"#);
    assert_eq!(names(&home.read_cli(), &[]), ["a", "c", "d"]);
    assert_eq!(names(&home.read_cli(), &["a"]), ["x", "z"]);
}

#[test]
fn taking_out_an_applied_snippet_restores_the_file() {
    let before = r#"{"a":1,"b":{"c":[]}}"#;
    let snippet = r#"{"ui":{"theme":"dark","empty":{}},"list":[{}],"n":null}"#;
    let mut home = Home::with_cli(before);
    home.apply(snippet);
    assert!(home.applied(snippet));
    home.unapply(snippet);
    assert_eq!(format!("{:?}", home.read_cli()), format!("{:?}", json(before)));
}

#[test]
fn a_new_provider_wins_over_an_earlier_one_with_the_same_trimmed_name() {
    let mut home = Home::with_v2(r#"{"provider":{" p ":{"kind":"openai"}}}"#);
    home.set("p", r#"{"kind":"anthropic"}"#);
    assert_eq!(text_at(&home.provider("p").unwrap(), &["kind"]), Some("anthropic"));
}

#[test]
fn a_provider_is_checked_before_the_file_is_read() {
    assert!(check_provider("p", &json(r#"{"kind":"anthropic"}"#)).is_ok());
    assert!(check_provider("p", &json("{}")).is_ok());
    assert!(check_provider("a b", &json("{}")).is_err());
    assert!(check_provider("p", &json("[]")).is_err());
    assert!(check_provider("p", &json(r#"{"kind":"other"}"#)).is_err());
    assert!(set_provider(V2, "{", "p", &json("[]")).is_err());
}
