//! The configuration of dsh.

use cc_switch::dsh_config::{
    apply_dsh_common_config, child_table, comes_with_secret, dsh_common_config_applied,
    generate_api_key_env_name, orphans_secret, replace_dsh_common_config,
    get_default_model, get_dsh_credentials_path, get_dsh_settings_path, get_provider,
    get_providers, json_to_yaml, parse_common_config_snippet, read_credentials_refs,
    read_dsh_settings, remove_dsh_common_config, remove_provider, set_default_model, set_provider,
    settings_root, validate_dsh_provider_config, write_dsh_settings, yaml_to_json,
    DshWriteOutcome,
};
use cc_switch::error::AppError;
use cc_switch::json::parse_json;
use cc_switch::numeric::Numeric;
use cc_switch::plan::WritePlan;
use cc_switch::value::{Datum, Table};
use cc_switch::yaml::parse_yaml;

/// The files of dsh.
struct Home {
    settings: Option<String>,
    credentials: Option<String>,
}

fn carry_out(file: &mut Option<String>, plan: &WritePlan) -> bool {
    match plan {
        WritePlan::Keep => false,
        WritePlan::Write { text, backup } => {
            *file = Some(text.clone());
            *backup
        }
    }
}

impl Home {
    fn new() -> Home {
        Home { settings: None, credentials: None }
    }

    fn with_settings(raw: &str) -> Home {
        Home { settings: Some(raw.to_string()), credentials: None }
    }

    fn settings(&self) -> &str {
        self.settings.as_deref().unwrap_or("")
    }

    fn credentials(&self) -> &str {
        self.credentials.as_deref().unwrap_or("")
    }

    fn set(&mut self, key: &str, config: &str) -> DshWriteOutcome {
        let write =
            set_provider(self.settings(), self.credentials(), key, &json(config)).unwrap();
        if let Some(plan) = &write.credentials {
            carry_out(&mut self.credentials, plan);
        }
        let plan = write.settings.unwrap();
        let saved = carry_out(&mut self.settings, &plan);
        DshWriteOutcome::of(&plan, if saved { Some("copy".to_string()) } else { None })
    }

    fn remove(&mut self, key: &str) -> DshWriteOutcome {
        let write = remove_provider(self.settings(), self.credentials(), key).unwrap();
        let plan = write.settings.unwrap();
        let saved = carry_out(&mut self.settings, &plan);
        if let Some(plan) = &write.credentials {
            carry_out(&mut self.credentials, plan);
        }
        DshWriteOutcome::of(&plan, if saved { Some("copy".to_string()) } else { None })
    }

    fn switch(&mut self, key: &str) {
        let plan = set_default_model(self.settings(), key).unwrap();
        carry_out(&mut self.settings, &plan);
    }

    fn apply(&mut self, snippet: &str) {
        let plan = apply_dsh_common_config(self.settings(), snippet).unwrap();
        carry_out(&mut self.settings, &plan);
    }

    fn unapply(&mut self, snippet: &str) {
        let plan = remove_dsh_common_config(self.settings(), snippet).unwrap();
        carry_out(&mut self.settings, &plan);
    }

    fn applied(&self, snippet: &str) -> bool {
        dsh_common_config_applied(self.settings(), snippet)
    }

    fn providers(&self) -> Table {
        get_providers(self.settings(), self.credentials()).unwrap()
    }

    fn provider(&self, key: &str) -> Option<Datum> {
        get_provider(self.settings(), self.credentials(), key).unwrap()
    }

    fn read(&self) -> Datum {
        read_dsh_settings(self.settings()).unwrap()
    }

    fn refs(&self) -> Table {
        read_credentials_refs(self.credentials()).unwrap()
    }
}

fn json(text: &str) -> Datum {
    parse_json(text).unwrap()
}

fn yaml(text: &str) -> Datum {
    parse_yaml(text).unwrap()
}

fn at<'a>(v: &'a Datum, path: &[&str]) -> Option<&'a Datum> {
    let mut v = v;
    for name in path {
        v = v.get(name)?;
    }
    Some(v)
}

fn text_at<'a>(v: &'a Datum, path: &[&str]) -> Option<&'a str> {
    at(v, path).and_then(|v| v.as_str())
}

fn number_at(v: &Datum, path: &[&str]) -> Option<u64> {
    at(v, path).and_then(|v| v.as_u64())
}

fn bool_at(v: &Datum, path: &[&str]) -> Option<bool> {
    at(v, path).and_then(|v| v.as_bool())
}

fn item<'a>(v: &'a Datum, path: &[&str], i: usize) -> &'a Datum {
    &at(v, path).unwrap().as_list().unwrap()[i]
}

#[test]
fn api_key_env_name_from_plain_key() {
    assert_eq!(generate_api_key_env_name("deepseek"), "DSH_DEEPSEEK_API_KEY");
}

#[test]
fn api_key_env_name_folds_hyphens() {
    assert_eq!(generate_api_key_env_name("my-gateway"), "DSH_MY_GATEWAY_API_KEY");
}

#[test]
fn api_key_env_name_folds_spaces_and_symbols() {
    assert_eq!(generate_api_key_env_name("my gateway.v2"), "DSH_MY_GATEWAY_V2_API_KEY");
}

#[test]
fn api_key_env_name_keeps_uppercase_and_digits() {
    assert_eq!(generate_api_key_env_name("ALREADY2"), "DSH_ALREADY2_API_KEY");
}

#[test]
fn paths_are_below_the_home_directory() {
    assert_eq!(get_dsh_settings_path(), vec!["settings.yaml".to_string()]);
    assert_eq!(get_dsh_credentials_path(), vec![".credentials.yaml".to_string()]);
}

#[test]
fn read_settings_returns_empty_mapping_when_missing() {
    let home = Home::new();
    assert!(home.read().as_mapping().unwrap().is_empty());
    assert!(home.providers().is_empty());
}

#[test]
fn provider_roundtrip_splits_api_key_into_credentials() {
    let mut home = Home::new();
    home.set(
        "demo",
        r#"{
            "api": "openai-completions",
            "baseURL": "https://api.example.com/v1",
            "apiKey": "sk-test-123",
            "displayName": "Demo",
            "timeoutMs": 60000,
            "compat": { "supportsDeveloperRole": false },
            "models": [{ "id": "model-a", "name": "Model A" }]
        }"#,
    );

    let raw = home.settings();
    assert!(!raw.contains("sk-test-123"));
    let doc = yaml(raw);
    let entry = at(&doc, &["llm-pi-ai", "providers", "demo"]).unwrap();
    assert_eq!(text_at(entry, &["apiKeyEnv"]), Some("DSH_DEMO_API_KEY"));
    assert!(entry.get("apiKey").is_none());
    assert_eq!(text_at(entry, &["baseURL"]), Some("https://api.example.com/v1"));
    assert_eq!(number_at(entry, &["timeoutMs"]), Some(60000));
    assert_eq!(bool_at(entry, &["compat", "supportsDeveloperRole"]), Some(false));

    let cred = yaml(home.credentials());
    assert_eq!(number_at(&cred, &["version"]), Some(1));
    assert_eq!(text_at(&cred, &["refs", "DSH_DEMO_API_KEY"]), Some("sk-test-123"));

    let demo = home.provider("demo").unwrap();
    assert_eq!(text_at(&demo, &["apiKey"]), Some("sk-test-123"));
    assert_eq!(text_at(&demo, &["apiKeyEnv"]), Some("DSH_DEMO_API_KEY"));
    assert_eq!(text_at(&demo, &["baseURL"]), Some("https://api.example.com/v1"));
    assert_eq!(text_at(item(&demo, &["models"], 0), &["id"]), Some("model-a"));
}

#[test]
fn set_provider_respects_existing_api_key_env() {
    let mut home = Home::new();
    home.set(
        "custom",
        r#"{
            "baseURL": "https://api.example.com/v1",
            "apiKey": "sk-custom",
            "apiKeyEnv": "MY_CUSTOM_KEY",
            "models": [{ "id": "m" }]
        }"#,
    );

    let settings = home.read();
    assert_eq!(
        text_at(&settings, &["llm-pi-ai", "providers", "custom", "apiKeyEnv"]),
        Some("MY_CUSTOM_KEY")
    );

    let refs = home.refs();
    assert_eq!(refs.get("MY_CUSTOM_KEY").and_then(|v| v.as_str()), Some("sk-custom"));
    assert!(refs.get("DSH_CUSTOM_API_KEY").is_none());

    let provider = home.provider("custom").unwrap();
    assert_eq!(text_at(&provider, &["apiKey"]), Some("sk-custom"));
    assert_eq!(text_at(&provider, &["apiKeyEnv"]), Some("MY_CUSTOM_KEY"));
}

#[test]
fn set_provider_without_api_key_writes_no_credentials() {
    let mut home = Home::new();
    home.set(
        "plain",
        r#"{ "baseURL": "https://api.example.com/v1", "models": [{ "id": "m" }] }"#,
    );
    let settings = home.read();
    let entry = at(&settings, &["llm-pi-ai", "providers", "plain"]).unwrap();
    assert!(entry.get("apiKeyEnv").is_none());
    assert!(home.credentials.is_none());
}

#[test]
fn set_provider_preserves_unknown_fields_on_update() {
    let mut home = Home::with_settings(
        "\
llm-pi-ai:
  providers:
    acme:
      apiKeyEnv: ACME_KEY
      baseURL: https://old.example.com
      retryPolicy:
        mode: normal
        maxRetries: 3
",
    );

    home.set("acme", r#"{ "baseURL": "https://new.example.com" }"#);

    let provider = home.provider("acme").unwrap();
    assert_eq!(text_at(&provider, &["baseURL"]), Some("https://new.example.com"));
    assert_eq!(text_at(&provider, &["apiKeyEnv"]), Some("ACME_KEY"));
    assert_eq!(number_at(&provider, &["retryPolicy", "maxRetries"]), Some(3));
}

#[test]
fn remove_provider_deletes_unreferenced_credential() {
    let mut home = Home::new();
    home.set(
        "solo",
        r#"{
            "baseURL": "https://a.example.com",
            "apiKey": "sk-solo",
            "models": [{ "id": "m" }]
        }"#,
    );
    assert!(home.credentials.is_some());

    home.remove("solo");

    assert!(home.providers().is_empty());
    assert!(home.refs().get("DSH_SOLO_API_KEY").is_none());
}

#[test]
fn remove_provider_keeps_shared_credential_until_last_reference() {
    let mut home = Home::new();
    home.set(
        "one",
        r#"{
            "baseURL": "https://one.example.com",
            "apiKey": "sk-one",
            "apiKeyEnv": "SHARED_KEY",
            "models": [{ "id": "m" }]
        }"#,
    );
    home.set(
        "two",
        r#"{
            "baseURL": "https://two.example.com",
            "apiKey": "sk-two",
            "apiKeyEnv": "SHARED_KEY",
            "models": [{ "id": "m" }]
        }"#,
    );

    home.remove("one");
    assert_eq!(home.refs().get("SHARED_KEY").and_then(|v| v.as_str()), Some("sk-two"));
    assert!(home.provider("one").is_none());
    assert!(home.provider("two").is_some());

    home.remove("two");
    assert!(home.refs().get("SHARED_KEY").is_none());
}

#[test]
fn remove_provider_missing_is_noop() {
    let mut home = Home::new();
    let outcome = home.remove("ghost");
    assert!(outcome.backup_path.is_none());
    assert!(home.settings.is_none());
}

#[test]
fn default_model_roundtrip_with_models() {
    let mut home = Home::new();
    assert!(get_default_model(home.settings()).unwrap().is_none());

    home.set(
        "demo",
        r#"{ "baseURL": "https://a.example.com", "models": [{ "id": "m1" }, { "id": "m2" }] }"#,
    );
    home.switch("demo");

    let dm = get_default_model(home.settings()).unwrap().unwrap();
    assert_eq!(dm.provider, "demo");
    assert_eq!(dm.model, "m1");
    assert!(dm.reasoning_effort.is_none());
    assert!(home.settings().contains("agent-default-model"));
}

#[test]
fn set_default_model_skips_provider_without_models() {
    let mut home = Home::new();
    home.set("bare", r#"{ "baseURL": "https://a.example.com" }"#);

    home.switch("bare");
    assert!(get_default_model(home.settings()).unwrap().is_none());
    assert!(!home.settings().contains("agent-default-model"));
}

#[test]
fn set_default_model_preserves_reasoning_effort() {
    let mut home = Home::with_settings(
        "\
llm-pi-ai:
  providers:
    old:
      baseURL: https://old.example.com
      models:
        - id: old-model
agent-default-model:
  provider: old
  model: old-model
  reasoningEffort: high
",
    );

    home.set(
        "new",
        r#"{ "baseURL": "https://new.example.com", "models": [{ "id": "new-model" }] }"#,
    );
    home.switch("new");

    let dm = get_default_model(home.settings()).unwrap().unwrap();
    assert_eq!(dm.provider, "new");
    assert_eq!(dm.model, "new-model");
    assert_eq!(dm.reasoning_effort.as_deref(), Some("high"));
}

#[test]
fn set_default_model_switches_provider_and_preserves_reasoning_effort() {
    let mut home = Home::with_settings(
        "\
llm-pi-ai:
  providers:
    old:
      baseURL: https://old.example.com
      models:
        - id: old-model
agent-default-model:
  provider: old
  model: old-model
  reasoningEffort: high
",
    );

    home.set(
        "new",
        r#"{
            "baseURL": "https://new.example.com",
            "models": [{ "id": "new-model" }, { "id": "second-model" }]
        }"#,
    );
    home.switch("new");

    let dm = get_default_model(home.settings()).unwrap().unwrap();
    assert_eq!(dm.provider, "new");
    assert_eq!(dm.model, "new-model");
    assert_eq!(dm.reasoning_effort.as_deref(), Some("high"));
    assert!(home.settings().contains("agent-default-model"));
}

#[test]
fn dsh_config_common_config_apply_contain_remove_roundtrip() {
    let mut home = Home::new();
    let snippet = "\
agent:
  max_turns: 10
  temperature: 0.5
ui:
  theme: dark
";
    assert!(!home.applied(snippet));

    home.apply(snippet);
    assert!(home.applied(snippet));

    let settings = home.read();
    assert_eq!(number_at(&settings, &["agent", "max_turns"]), Some(10));
    assert_eq!(text_at(&settings, &["ui", "theme"]), Some("dark"));

    home.unapply(snippet);
    assert!(!home.applied(snippet));
    let settings = home.read();
    assert!(settings.get("agent").is_none());
    assert!(settings.get("ui").is_none());
}

#[test]
fn dsh_config_common_config_apply_deep_merges_with_existing() {
    let mut home = Home::with_settings("agent:\n  max_turns: 5\n");
    home.apply("agent:\n  temperature: 0.5\n");

    let settings = home.read();
    assert_eq!(number_at(&settings, &["agent", "max_turns"]), Some(5));
    let temperature = match at(&settings, &["agent", "temperature"]) {
        Some(Datum::Number(Numeric::Float(n))) => n.as_f64(),
        _ => None,
    };
    assert_eq!(temperature, Some(0.5));
}

#[test]
fn common_config_ignores_protected_keys() {
    let mut home = Home::new();
    home.set("demo", r#"{ "baseURL": "https://a.example.com", "models": [{ "id": "m" }] }"#);

    let snippet = "\
llm-pi-ai:
  providers:
    evil:
      baseURL: https://evil.example.com
agent-default-model:
  provider: evil
  model: x
telemetry:
  enabled: false
";
    home.apply(snippet);

    assert!(home.provider("evil").is_none());
    assert!(home.provider("demo").is_some());
    assert!(get_default_model(home.settings()).unwrap().is_none());
    assert_eq!(bool_at(&home.read(), &["telemetry", "enabled"]), Some(false));
    assert!(home.applied(snippet));

    home.unapply(snippet);
    assert!(home.provider("demo").is_some());
    assert!(home.read().get("telemetry").is_none());
}

#[test]
fn dsh_config_common_config_remove_skips_user_modified_values() {
    let mut home = Home::new();
    home.apply("ui:\n  theme: dark\n  font: mono\n");

    let mut root = settings_root(&home.read()).unwrap();
    let mut ui = child_table(&root, "ui").unwrap();
    ui.insert("theme", Datum::text("light"));
    root.insert("ui", Datum::Mapping(ui));
    let plan = write_dsh_settings(home.settings(), &Datum::Mapping(root)).unwrap();
    carry_out(&mut home.settings, &plan);

    home.unapply("ui:\n  theme: dark\n  font: mono\n");

    let settings = home.read();
    assert_eq!(text_at(&settings, &["ui", "theme"]), Some("light"));
    assert!(at(&settings, &["ui", "font"]).is_none());
}

#[test]
fn dsh_roundtrip_common_config_apply_applied_and_remove_roundtrip() {
    let mut home = Home::new();
    let snippet = "\
agent:
  max_turns: 10
ui:
  theme: dark
";
    assert!(!home.applied(snippet));
    home.apply(snippet);
    assert!(home.applied(snippet));

    let settings = home.read();
    assert_eq!(number_at(&settings, &["agent", "max_turns"]), Some(10));
    assert_eq!(text_at(&settings, &["ui", "theme"]), Some("dark"));

    home.unapply(snippet);
    assert!(!home.applied(snippet));
    let settings = home.read();
    assert!(settings.get("agent").is_none());
    assert!(settings.get("ui").is_none());
}

#[test]
fn common_config_snippet_must_be_mapping() {
    assert!(parse_common_config_snippet("- a\n- b\n").is_err());
    assert!(parse_common_config_snippet("").unwrap().is_empty());
    assert!(parse_common_config_snippet("# comment\n").unwrap().is_empty());
}

#[test]
fn credentials_preserve_records_and_permissions() {
    let mut home = Home::new();
    home.credentials = Some(
        "\
version: 1
refs:
  EXISTING_KEY: sk-old
records:
  llm-pi-ai/openai-codex:
    kind: grant
    payload:
      token: abc
"
        .to_string(),
    );

    home.set(
        "demo",
        r#"{
            "baseURL": "https://a.example.com",
            "apiKey": "sk-new",
            "models": [{ "id": "m" }]
        }"#,
    );

    let doc = yaml(home.credentials());
    assert_eq!(number_at(&doc, &["version"]), Some(1));
    assert_eq!(text_at(&doc, &["refs", "EXISTING_KEY"]), Some("sk-old"));
    assert_eq!(text_at(&doc, &["refs", "DSH_DEMO_API_KEY"]), Some("sk-new"));
    assert_eq!(text_at(&doc, &["records", "llm-pi-ai/openai-codex", "kind"]), Some("grant"));
}

#[test]
fn credentials_write_preserves_version_records_and_existing_refs() {
    let mut home = Home::new();
    home.credentials = Some(
        "\
version: 1
refs:
  EXISTING_KEY: sk-old
records:
  llm-pi-ai/openai-codex:
    kind: grant
    payload:
      token: abc
"
        .to_string(),
    );

    home.set(
        "demo",
        r#"{
            "baseURL": "https://a.example.com",
            "apiKey": "sk-new",
            "models": [{ "id": "m" }]
        }"#,
    );

    let cred = yaml(home.credentials());
    assert_eq!(number_at(&cred, &["version"]), Some(1));
    assert_eq!(text_at(&cred, &["refs", "EXISTING_KEY"]), Some("sk-old"));
    assert_eq!(text_at(&cred, &["refs", "DSH_DEMO_API_KEY"]), Some("sk-new"));
    assert_eq!(text_at(&cred, &["records", "llm-pi-ai/openai-codex", "kind"]), Some("grant"));
}

#[test]
fn provider_roundtrip_splits_api_key_into_credentials_and_removes_cleanly() {
    let mut home = Home::new();
    home.set(
        "demo",
        r#"{
            "api": "openai-completions",
            "baseURL": "https://api.example.com/v1",
            "apiKey": "sk-live-secret",
            "models": [{ "id": "model-a", "name": "Model A" }]
        }"#,
    );

    assert!(!home.settings().contains("sk-live-secret"));
    assert!(home.settings().contains("apiKeyEnv: DSH_DEMO_API_KEY"));

    let demo = home.provider("demo").unwrap();
    assert_eq!(text_at(&demo, &["apiKey"]), Some("sk-live-secret"));
    assert_eq!(text_at(&demo, &["apiKeyEnv"]), Some("DSH_DEMO_API_KEY"));
    assert_eq!(text_at(&demo, &["api"]), Some("openai-completions"));
    assert_eq!(text_at(&demo, &["baseURL"]), Some("https://api.example.com/v1"));
    assert_eq!(text_at(item(&demo, &["models"], 0), &["id"]), Some("model-a"));

    let cred = yaml(home.credentials());
    assert_eq!(number_at(&cred, &["version"]), Some(1));
    assert_eq!(text_at(&cred, &["refs", "DSH_DEMO_API_KEY"]), Some("sk-live-secret"));

    home.remove("demo");
    assert!(home.providers().is_empty());
    let cred = yaml(home.credentials());
    assert!(at(&cred, &["refs", "DSH_DEMO_API_KEY"]).is_none());
    assert_eq!(number_at(&cred, &["version"]), Some(1));
}

#[test]
fn dsh_config_validate_accepts_valid_config() {
    let config = json(
        r#"{
            "api": "openai-completions",
            "baseURL": "https://a.example.com",
            "models": [{ "id": "m" }]
        }"#,
    );
    assert!(validate_dsh_provider_config(&config).is_ok());
    let config = json(r#"{ "baseURL": "https://a.example.com", "models": [{ "id": "m" }] }"#);
    assert!(validate_dsh_provider_config(&config).is_ok());
}

#[test]
fn validate_rejects_unknown_api() {
    let config = json(
        r#"{ "api": "bedrock", "baseURL": "https://a.example.com", "models": [{ "id": "m" }] }"#,
    );
    assert!(validate_dsh_provider_config(&config).is_err());
}

#[test]
fn dsh_config_validate_rejects_missing_or_blank_base_url() {
    let config = json(r#"{ "models": [{ "id": "m" }] }"#);
    assert!(validate_dsh_provider_config(&config).is_err());
    let config = json(r#"{ "baseURL": "  ", "models": [{ "id": "m" }] }"#);
    assert!(validate_dsh_provider_config(&config).is_err());
}

#[test]
fn validate_rejects_empty_models_and_missing_id() {
    let config = json(r#"{ "baseURL": "https://a.example.com" }"#);
    assert!(validate_dsh_provider_config(&config).is_err());
    let config = json(r#"{ "baseURL": "https://a.example.com", "models": [] }"#);
    assert!(validate_dsh_provider_config(&config).is_err());
    let config =
        json(r#"{ "baseURL": "https://a.example.com", "models": [{ "name": "no-id" }] }"#);
    assert!(validate_dsh_provider_config(&config).is_err());
}

#[test]
fn validate_rejects_invalid_api_blank_base_url_and_empty_models() {
    let valid = json(
        r#"{
            "api": "anthropic-messages",
            "baseURL": "https://a.example.com",
            "models": [{ "id": "m" }]
        }"#,
    );
    assert!(validate_dsh_provider_config(&valid).is_ok());

    let bad_api = json(
        r#"{ "api": "bedrock", "baseURL": "https://a.example.com", "models": [{ "id": "m" }] }"#,
    );
    assert!(validate_dsh_provider_config(&bad_api).is_err());

    let blank_base_url = json(r#"{ "baseURL": "  ", "models": [{ "id": "m" }] }"#);
    assert!(validate_dsh_provider_config(&blank_base_url).is_err());

    let empty_models = json(r#"{ "baseURL": "https://a.example.com", "models": [] }"#);
    assert!(validate_dsh_provider_config(&empty_models).is_err());

    let model_without_id =
        json(r#"{ "baseURL": "https://a.example.com", "models": [{ "name": "no-id" }] }"#);
    assert!(validate_dsh_provider_config(&model_without_id).is_err());
}

#[test]
fn yaml_json_conversion_roundtrip() {
    let doc = json(r#"{ "name": "test", "count": 42, "nested": { "flag": true } }"#);
    let converted = json_to_yaml(&doc).unwrap();
    let back = yaml_to_json(&converted).unwrap();
    assert!(doc.same_as(&back));
}

#[test]
fn validation_errors_have_their_keys() {
    let key_of = |text: &str| match validate_dsh_provider_config(&json(text)) {
        Err(AppError::Localized { key, .. }) => key,
        _ => "none".to_string(),
    };
    assert_eq!(key_of("[]"), "provider.dsh.configNotObject");
    assert_eq!(key_of(r#"{ "api": 1 }"#), "provider.dsh.invalidApi");
    assert_eq!(key_of("{}"), "provider.dsh.baseUrlRequired");
    assert_eq!(key_of(r#"{ "baseURL": "x" }"#), "provider.dsh.modelsRequired");
    assert_eq!(
        key_of(r#"{ "baseURL": "x", "models": [{ "id": "m" }, { "id": " " }] }"#),
        "provider.dsh.modelIdRequired"
    );
    let err = validate_dsh_provider_config(&json(
        r#"{ "baseURL": "x", "models": [{ "id": "m" }, { "id": " " }] }"#,
    ))
    .unwrap_err();
    assert!(matches!(err, AppError::Localized { ref en, .. } if en == "models[1] must have a non-empty id."));
    let err = validate_dsh_provider_config(&json(r#"{ "api": 1 }"#)).unwrap_err();
    assert_eq!(
        err.message(),
        "api 必须是以下之一: openai-completions, openai-responses, anthropic-messages"
    );
}

#[test]
fn unusable_files_are_errors() {
    let is_config = |r: Option<AppError>, start: &str| {
        matches!(r, Some(AppError::Config(ref m)) if m.starts_with(start))
    };
    assert!(is_config(
        read_dsh_settings("a: [").err(),
        "Failed to parse dsh settings.yaml as YAML: "
    ));
    assert!(is_config(
        apply_dsh_common_config("- a\n", "x: 1\n").err(),
        "dsh settings.yaml top level must be a mapping"
    ));
    assert!(is_config(
        read_credentials_refs("- a\n").err(),
        "dsh .credentials.yaml top level must be a mapping"
    ));
    assert!(is_config(
        read_credentials_refs("a: [").err(),
        "Failed to parse dsh .credentials.yaml as YAML: "
    ));
    assert!(is_config(
        apply_dsh_common_config("", "- a\n").err(),
        "dsh common config snippet must be a YAML mapping"
    ));
}

#[test]
fn setting_a_provider_twice_writes_once() {
    let mut home = Home::new();
    let config = r#"{ "baseURL": "https://a.example.com", "apiKey": "sk", "models": [{ "id": "m" }] }"#;
    home.set("demo", config);
    let (settings, credentials) = (home.settings.clone(), home.credentials.clone());
    let write = set_provider(home.settings(), home.credentials(), "demo", &json(config)).unwrap();
    assert!(matches!(write.settings, Ok(WritePlan::Keep)));
    assert!(matches!(write.credentials, None | Some(WritePlan::Keep)));
    home.set("demo", config);
    assert_eq!(home.settings, settings);
    assert_eq!(home.credentials, credentials);
}

#[test]
fn a_changed_file_is_saved_first() {
    let mut home = Home::with_settings("ui:\n  theme: dark\n");
    let outcome = home.set("demo", r#"{ "baseURL": "https://a.example.com" }"#);
    assert_eq!(outcome.backup_path.as_deref(), Some("copy"));
    let mut home = Home::new();
    let outcome = home.set("demo", r#"{ "baseURL": "https://a.example.com" }"#);
    assert!(outcome.backup_path.is_none());
}

#[test]
fn taking_a_snippet_out_leaves_a_mapping_that_was_empty_before() {
    let mut home = Home::with_settings("ui: {}\n");
    home.unapply("ui:\n  theme: dark\n");
    assert_eq!(at(&home.read(), &["ui"]).unwrap().as_mapping().unwrap().entries.len(), 0);
    home.unapply("ui: {}\n");
    assert!(at(&home.read(), &["ui"]).is_none());

    let mut home = Home::with_settings("ui:\n  theme: dark\n");
    home.unapply("ui:\n  theme: dark\n  size: 2\n");
    assert!(at(&home.read(), &["ui"]).is_none());
}

#[test]
fn taking_out_an_applied_snippet_restores_the_settings() {
    let before = "a: 1\nb:\n  c: []\n";
    let snippet = "ui:\n  theme: !mine dark\n  empty: {}\nlist: [{}]\nn: null\ntagged: !mine {x: 1}\n";
    let mut home = Home::with_settings(before);
    home.apply(snippet);
    assert!(home.applied(snippet));
    home.unapply(snippet);
    assert_eq!(format!("{:?}", home.read()), format!("{:?}", yaml(before)));
}

fn replace(raw: &str, old: &str, new: &str) -> String {
    let change = replace_dsh_common_config(raw, old, new).unwrap();
    let mut file = Some(raw.to_string());
    carry_out(&mut file, &change.removing);
    carry_out(&mut file, &change.applying.unwrap());
    file.unwrap()
}

#[test]
fn one_snippet_takes_the_place_of_another() {
    let raw = "own: 1\nkept: 2\nchanged: user\nboth: old\nagent-default-model: {provider: p}\n";
    let old = "kept: 2\nchanged: snippet\nboth: old\nagent-default-model: {provider: p}\n";
    let new = "both: new\nadded: true\nllm-pi-ai: {}\n";
    let after = replace(raw, old, new);
    let settings = read_dsh_settings(&after).unwrap();
    assert!(at(&settings, &["kept"]).is_none());
    assert_eq!(text_at(&settings, &["changed"]), Some("user"));
    assert_eq!(text_at(&settings, &["both"]), Some("new"));
    assert_eq!(at(&settings, &["added"]).and_then(|v| v.as_bool()), Some(true));
    assert_eq!(at(&settings, &["own"]).and_then(|v| v.as_u64()), Some(1));
    assert_eq!(text_at(&settings, &["agent-default-model", "provider"]), Some("p"));
    assert!(at(&settings, &["llm-pi-ai"]).is_none());
    assert!(dsh_common_config_applied(&after, new));

    assert_eq!(replace(raw, "", " \n"), raw);
    assert!(dsh_common_config_applied(&replace(raw, "", new), new));
    assert!(at(&read_dsh_settings(&replace(raw, old, "")).unwrap(), &["both"]).is_none());
    assert!(replace_dsh_common_config(raw, "- a\n", new).is_err());
    assert!(replace_dsh_common_config(raw, old, "- a\n").unwrap().applying.is_err());
}

#[test]
fn credentials_are_needed_for_secrets_alone() {
    assert!(comes_with_secret(&json(r#"{"apiKey":" sk "}"#)));
    assert!(!comes_with_secret(&json(r#"{"apiKey":" "}"#)));
    assert!(!comes_with_secret(&json(r#"{"apiKeyEnv":"K"}"#)));
    assert!(!comes_with_secret(&json("1")));
    let settings = "llm-pi-ai:\n  providers:\n    a: {apiKeyEnv: K}\n    b: {apiKeyEnv: K}\n    c: {apiKeyEnv: L}\n    d: {}\n";
    assert!(!orphans_secret(settings, "a"));
    assert!(orphans_secret(settings, "c"));
    assert!(!orphans_secret(settings, "d"));
    assert!(!orphans_secret(settings, "e"));
    assert!(!orphans_secret("- 1\n", "c"));
    let unreadable = "{";
    assert!(remove_provider(settings, unreadable, "a").is_ok());
    assert!(remove_provider(settings, unreadable, "c").is_err());
    assert!(set_provider(settings, unreadable, "a", &json(r#"{"x":1}"#)).is_ok());
    assert!(set_provider(settings, unreadable, "a", &json(r#"{"apiKey":"s"}"#)).is_err());
}

#[test]
fn a_new_provider_comes_back_with_any_texts() {
    let mut home = Home::with_settings("llm-pi-ai:\n  providers:\n    ' p ': {api: old}\n");
    let config = r#"{"displayName":"a\tb\nc \u0001","api":"openai-completions","apiKey":" sk\t1 ","headers":{"x\ty":" \n"}}"#;
    home.set("p", config);
    let back = home.provider("p").unwrap();
    assert_eq!(text_at(&back, &["displayName"]), Some("a\tb\nc \u{1}"));
    assert_eq!(text_at(&back, &["api"]), Some("openai-completions"));
    assert_eq!(text_at(&back, &["apiKey"]), Some("sk\t1"));
    assert_eq!(text_at(&back, &["headers", "x\ty"]), Some(" \n"));
    assert_eq!(text_at(&back, &["apiKeyEnv"]), Some(generate_api_key_env_name("p").as_str()));
}

#[test]
fn settings_with_keys_of_any_scalar_are_kept() {
    let before = "1: a\ntrue: b\nnull: c\n-2: {0.5: d, .inf: e}\nt: !mine/x {y: .nan}\n";
    let snippet = "3: {z: !mine 1}\nfalse: 2\n";
    let mut home = Home::with_settings(before);
    home.apply(snippet);
    assert!(home.applied(snippet));
    let once = home.settings().to_string();
    home.apply(snippet);
    assert_eq!(home.settings(), once);
    home.unapply(snippet);
    assert_eq!(format!("{:?}", home.read()), format!("{:?}", yaml(before)));
    home.set("p", r#"{"displayName":"P","apiKey":"sk"}"#);
    assert_eq!(text_at(&home.provider("p").unwrap(), &["displayName"]), Some("P"));
    assert_eq!(home.read().as_mapping().unwrap().entries.len(), 6);
}
