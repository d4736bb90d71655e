//! The MCP servers of zcode.

use cc_switch::error::AppError;
use cc_switch::json::{parse_json, JsonDoc};
use cc_switch::mcp::registry::{McpApps, McpServer, MultiAppConfig, ServerMap};
use cc_switch::mcp::validation::validate_server_spec;
use cc_switch::mcp::zcode::{
    convert_from_zcode_format, convert_to_zcode_format, import_from_zcode,
    remove_server_from_zcode, sync_enabled_to_zcode, sync_single_server_to_zcode,
};
use cc_switch::plan::WritePlan;
use cc_switch::value::Datum;
use indexmap::IndexMap;

const CLI: &str = "cli/config.json";

/// The file of zcode.
struct Home {
    cli: Option<String>,
}

impl Home {
    fn new() -> Home {
        Home { cli: None }
    }

    fn with_cli(raw: &str) -> Home {
        Home { cli: Some(raw.to_string()) }
    }

    fn raw(&self) -> &str {
        self.cli.as_deref().unwrap_or("")
    }

    fn carry_out(&mut self, plan: WritePlan) {
        if let WritePlan::Write { text, .. } = plan {
            self.cli = Some(text);
        }
    }

    fn try_sync(&mut self, id: &str, spec: &str) -> Result<(), AppError> {
        let plan = sync_single_server_to_zcode(true, CLI, self.raw(), id, &json(spec))?;
        self.carry_out(plan);
        Ok(())
    }

    fn sync(&mut self, id: &str, spec: &str) {
        self.try_sync(id, spec).unwrap();
    }

    fn sync_all(&mut self, servers: &IndexMap<String, McpServer>) {
        let plan = sync_enabled_to_zcode(true, CLI, self.raw(), servers).unwrap();
        self.carry_out(plan);
    }

    fn remove(&mut self, id: &str) {
        let plan = remove_server_from_zcode(true, CLI, self.raw(), id).unwrap();
        self.carry_out(plan);
    }

    fn import(&self, config: &mut MultiAppConfig) -> usize {
        import_from_zcode(CLI, self.raw(), config).unwrap()
    }

    fn doc(&self) -> Datum {
        json(self.raw())
    }
}

fn json(text: &str) -> Datum {
    parse_json(text).unwrap()
}

fn at<'a>(v: &'a Datum, path: &[&str]) -> Option<&'a Datum> {
    let mut v = v;
    for name in path {
        v = v.get(name)?;
    }
    Some(v)
}

fn text_at<'a>(v: &'a Datum, path: &[&str]) -> Option<&'a str> {
    at(v, path).and_then(|v| v.as_str())
}

fn number_at(v: &Datum, path: &[&str]) -> Option<u64> {
    at(v, path).and_then(|v| v.as_u64())
}

fn bool_at(v: &Datum, path: &[&str]) -> Option<bool> {
    at(v, path).and_then(|v| v.as_bool())
}

fn item_text<'a>(v: &'a Datum, path: &[&str], i: usize) -> Option<&'a str> {
    at(v, path)?.as_list()?[i].as_str()
}

fn make_server(id: &str, spec: &str, zcode: bool) -> (String, McpServer) {
    (
        id.to_string(),
        McpServer {
            id: id.to_string(),
            name: id.to_string(),
            server: JsonDoc::new(json(spec)),
            apps: McpApps { zcode, ..McpApps::default() },
            description: None,
            homepage: None,
            docs: None,
            tags: Vec::new(),
        },
    )
}

fn make_server_map(servers: Vec<(String, McpServer)>) -> IndexMap<String, McpServer> {
    servers.into_iter().collect()
}

fn spec_of<'a>(config: &'a MultiAppConfig, id: &str) -> &'a Datum {
    config.mcp.servers.as_ref().unwrap().get(id).unwrap().server.get()
}

fn server_count(doc: &Datum) -> usize {
    at(doc, &["mcp", "servers"]).unwrap().as_mapping().unwrap().len()
}

#[test]
fn zcode_sync_single_stdio_server_is_idempotent() {
    let mut home = Home::new();
    let spec = r#"{
        "type": "stdio",
        "command": "npx",
        "args": ["-y", "@modelcontextprotocol/server-github"],
        "env": { "GITHUB_TOKEN": "token" },
        "cwd": "/tmp/work"
    }"#;
    home.sync("github", spec);
    let first = home.raw().to_string();
    home.sync("github", spec);
    assert_eq!(first, home.raw());

    let doc = home.doc();
    let entry = at(&doc, &["mcp", "servers", "github"]).unwrap();
    assert!(entry.get("type").is_none());
    assert_eq!(text_at(entry, &["command"]), Some("npx"));
    assert_eq!(item_text(entry, &["args"], 0), Some("-y"));
    assert_eq!(item_text(entry, &["args"], 1), Some("@modelcontextprotocol/server-github"));
    assert_eq!(text_at(entry, &["env", "GITHUB_TOKEN"]), Some("token"));
    assert_eq!(text_at(entry, &["cwd"]), Some("/tmp/work"));
}

#[test]
fn sync_single_http_server_keeps_type_and_url() {
    let mut home = Home::new();
    home.sync(
        "remote",
        r#"{
            "type": "sse",
            "url": "https://example.com/mcp",
            "headers": { "Authorization": "Bearer xxx" }
        }"#,
    );
    let doc = home.doc();
    let entry = at(&doc, &["mcp", "servers", "remote"]).unwrap();
    assert_eq!(text_at(entry, &["type"]), Some("sse"));
    assert_eq!(text_at(entry, &["url"]), Some("https://example.com/mcp"));
    assert_eq!(text_at(entry, &["headers", "Authorization"]), Some("Bearer xxx"));
}

#[test]
fn sync_omits_empty_args_env_and_headers() {
    let mut home = Home::new();
    home.sync("plain", r#"{ "type": "stdio", "command": "node", "args": [], "env": {} }"#);
    home.sync(
        "bare-http",
        r#"{ "type": "http", "url": "http://localhost:1/mcp", "headers": {} }"#,
    );
    let doc = home.doc();
    assert!(at(&doc, &["mcp", "servers", "plain", "args"]).is_none());
    assert!(at(&doc, &["mcp", "servers", "plain", "env"]).is_none());
    assert!(at(&doc, &["mcp", "servers", "bare-http"]).is_some());
    assert!(at(&doc, &["mcp", "servers", "bare-http", "headers"]).is_none());
}

#[test]
fn sync_preserves_enable_false_and_unknown_fields() {
    let mut home = Home::with_cli(
        r#"{
  "mcp": {
    "servers": {
      "github": {
        "command": "old-cmd",
        "enable": false,
        "futureField": { "x": 1 }
      }
    }
  }
}"#,
    );
    home.sync("github", r#"{ "type": "stdio", "command": "new-cmd" }"#);
    let doc = home.doc();
    let entry = at(&doc, &["mcp", "servers", "github"]).unwrap();
    assert_eq!(text_at(entry, &["command"]), Some("new-cmd"));
    assert_eq!(bool_at(entry, &["enable"]), Some(false));
    assert_eq!(number_at(entry, &["futureField", "x"]), Some(1));
}

#[test]
fn sync_preserves_other_top_level_keys_and_foreign_servers() {
    let mut home = Home::with_cli(
        r#"{
  "agent": { "maxTurns": 10 },
  "mcp": {
    "servers": {
      "foreign": { "command": "keep-me", "enable": false }
    }
  }
}"#,
    );
    home.sync("github", r#"{ "type": "stdio", "command": "npx" }"#);
    let doc = home.doc();
    assert_eq!(number_at(&doc, &["agent", "maxTurns"]), Some(10));
    assert_eq!(text_at(&doc, &["mcp", "servers", "foreign", "command"]), Some("keep-me"));
    assert_eq!(bool_at(&doc, &["mcp", "servers", "foreign", "enable"]), Some(false));
    assert_eq!(text_at(&doc, &["mcp", "servers", "github", "command"]), Some("npx"));
}

#[test]
fn remove_deletes_only_matching_and_keeps_empty_shell() {
    let mut home = Home::new();
    home.sync_all(&make_server_map(vec![
        make_server("a", r#"{ "type": "stdio", "command": "cmd-a" }"#, true),
        make_server("b", r#"{ "type": "http", "url": "http://localhost:9000/mcp" }"#, true),
    ]));

    home.remove("a");
    let doc = home.doc();
    assert!(at(&doc, &["mcp", "servers", "a"]).is_none());
    assert!(at(&doc, &["mcp", "servers", "b"]).is_some());

    home.remove("b");
    assert_eq!(server_count(&home.doc()), 0);

    home.remove("ghost");
}

#[test]
fn sync_enabled_removes_unchecked_and_keeps_foreign() {
    let mut home =
        Home::with_cli(r#"{ "mcp": { "servers": { "foreign": { "command": "keep" } } } }"#);
    home.sync_all(&make_server_map(vec![
        make_server("a", r#"{ "type": "stdio", "command": "cmd-a" }"#, true),
        make_server("b", r#"{ "type": "stdio", "command": "cmd-b" }"#, true),
    ]));
    assert_eq!(server_count(&home.doc()), 3);

    home.sync_all(&make_server_map(vec![
        make_server("a", r#"{ "type": "stdio", "command": "cmd-a" }"#, true),
        make_server("b", r#"{ "type": "stdio", "command": "cmd-b" }"#, false),
    ]));
    let doc = home.doc();
    assert_eq!(server_count(&doc), 2);
    assert!(at(&doc, &["mcp", "servers", "b"]).is_none());
    assert!(at(&doc, &["mcp", "servers", "a"]).is_some());
    assert!(at(&doc, &["mcp", "servers", "foreign"]).is_some());
}

#[test]
fn zcode_sync_rejects_stdio_without_command() {
    let mut home = Home::new();
    assert!(home.try_sync("bad", r#"{ "type": "stdio" }"#).is_err());
    assert!(home.cli.is_none());
}

#[test]
fn sync_without_zcode_dir_is_noop() {
    let servers = make_server_map(vec![make_server(
        "github",
        r#"{ "type": "stdio", "command": "npx" }"#,
        true,
    )]);
    let plan = sync_enabled_to_zcode(false, CLI, "", &servers).unwrap();
    assert!(matches!(plan, WritePlan::Keep));
}

#[test]
fn zcode_import_roundtrip_restores_unified_specs() {
    let mut home = Home::new();
    home.sync_all(&make_server_map(vec![
        make_server(
            "github",
            r#"{
                "type": "stdio",
                "command": "npx",
                "args": ["-y", "pkg"],
                "env": { "KEY": "value" },
                "cwd": "/tmp/work"
            }"#,
            true,
        ),
        make_server(
            "web",
            r#"{
                "type": "http",
                "url": "https://example.com/mcp",
                "headers": { "X-Auth": "abc" }
            }"#,
            true,
        ),
    ]));

    let mut config = MultiAppConfig::default();
    assert_eq!(home.import(&mut config), 2);

    let github = config.mcp.servers.as_ref().unwrap().get("github").unwrap();
    assert!(github.apps.zcode);
    assert!(!github.apps.claude);
    let spec = spec_of(&config, "github");
    assert_eq!(text_at(spec, &["type"]), Some("stdio"));
    assert_eq!(text_at(spec, &["command"]), Some("npx"));
    assert_eq!(item_text(spec, &["args"], 0), Some("-y"));
    assert_eq!(text_at(spec, &["env", "KEY"]), Some("value"));
    assert_eq!(text_at(spec, &["cwd"]), Some("/tmp/work"));

    let spec = spec_of(&config, "web");
    assert_eq!(text_at(spec, &["type"]), Some("http"));
    assert_eq!(text_at(spec, &["url"]), Some("https://example.com/mcp"));
    assert_eq!(text_at(spec, &["headers", "X-Auth"]), Some("abc"));
}

#[test]
fn import_skips_invalid_and_strips_enable() {
    let home = Home::with_cli(
        r#"{
  "mcp": {
    "servers": {
      "broken": { "note": "neither command nor url" },
      "bad-type": { "type": "grpc", "url": "http://localhost:1" },
      "disabled-one": { "command": "npx", "enable": false }
    }
  }
}"#,
    );
    let mut config = MultiAppConfig::default();
    assert_eq!(home.import(&mut config), 1);
    let imported = config.mcp.servers.as_ref().unwrap();
    assert!(!imported.contains_key("broken"));
    assert!(!imported.contains_key("bad-type"));
    let spec = spec_of(&config, "disabled-one");
    assert_eq!(text_at(spec, &["type"]), Some("stdio"));
    assert_eq!(text_at(spec, &["command"]), Some("npx"));
    assert!(spec.get("enable").is_none());
}

#[test]
fn import_enables_zcode_flag_on_existing_server() {
    let mut home = Home::new();
    home.sync("github", r#"{ "type": "stdio", "command": "npx" }"#);

    let mut config = MultiAppConfig::default();
    let (_, existing) = make_server("github", r#"{ "type": "stdio", "command": "npx" }"#, false);
    let mut servers = ServerMap::new();
    servers.insert("github", existing);
    config.mcp.servers = Some(servers);

    assert_eq!(home.import(&mut config), 1);
    assert!(config.mcp.servers.as_ref().unwrap().get("github").unwrap().apps.zcode);
    assert_eq!(home.import(&mut config), 0);
}

#[test]
fn zcode_import_missing_file_is_zero() {
    let mut config = MultiAppConfig::default();
    assert_eq!(Home::new().import(&mut config), 0);
}

#[test]
fn sync_single_stdio_and_http_servers_structure_and_idempotent() {
    let mut home = Home::new();
    let stdio = r#"{
        "type": "stdio",
        "command": "npx",
        "args": ["-y", "pkg"],
        "env": { "KEY": "value" }
    }"#;
    let http = r#"{
        "type": "http",
        "url": "https://example.com/mcp",
        "headers": { "X-Auth": "abc" }
    }"#;
    home.sync("github", stdio);
    home.sync("web", http);
    let first = home.raw().to_string();
    home.sync("github", stdio);
    home.sync("web", http);
    assert_eq!(first, home.raw());

    let doc = home.doc();
    let github = at(&doc, &["mcp", "servers", "github"]).unwrap();
    assert!(github.get("type").is_none());
    assert_eq!(text_at(github, &["command"]), Some("npx"));
    assert_eq!(item_text(github, &["args"], 0), Some("-y"));
    assert_eq!(text_at(github, &["env", "KEY"]), Some("value"));
    let web = at(&doc, &["mcp", "servers", "web"]).unwrap();
    assert_eq!(text_at(web, &["type"]), Some("http"));
    assert_eq!(text_at(web, &["url"]), Some("https://example.com/mcp"));
    assert_eq!(text_at(web, &["headers", "X-Auth"]), Some("abc"));
}

#[test]
fn remove_server_deletes_only_matching_and_keeps_other_top_level_keys() {
    let mut home = Home::with_cli(
        r#"{
  "hooks": { "pre": ["lint"] },
  "mcp": {
    "servers": {
      "foreign": { "command": "keep-me", "enable": false }
    }
  }
}"#,
    );
    home.sync("github", r#"{ "type": "stdio", "command": "npx" }"#);
    let doc = home.doc();
    assert_eq!(item_text(&doc, &["hooks", "pre"], 0), Some("lint"));
    assert_eq!(text_at(&doc, &["mcp", "servers", "foreign", "command"]), Some("keep-me"));
    assert_eq!(text_at(&doc, &["mcp", "servers", "github", "command"]), Some("npx"));

    home.remove("github");
    let doc = home.doc();
    assert!(at(&doc, &["mcp", "servers", "github"]).is_none());
    assert_eq!(text_at(&doc, &["mcp", "servers", "foreign", "command"]), Some("keep-me"));
    assert_eq!(item_text(&doc, &["hooks", "pre"], 0), Some("lint"));

    home.remove("ghost");
}

#[test]
fn import_from_zcode_roundtrip_restores_specs_and_strips_enable() {
    let home = Home::with_cli(
        r#"{
  "mcp": {
    "servers": {
      "github": { "command": "npx", "args": ["-y", "pkg"], "env": { "KEY": "value" } },
      "web": { "type": "sse", "url": "https://example.com/mcp", "headers": { "X-Auth": "abc" } },
      "disabled-one": { "command": "old-cmd", "enable": false }
    }
  }
}"#,
    );
    let mut config = MultiAppConfig::default();
    assert_eq!(home.import(&mut config), 3);
    let servers = config.mcp.servers.as_ref().unwrap();
    assert_eq!(servers.len(), 3);

    let github = servers.get("github").unwrap();
    assert!(github.apps.zcode);
    assert!(!github.apps.claude && !github.apps.codex && !github.apps.dsh);
    let spec = spec_of(&config, "github");
    assert_eq!(text_at(spec, &["type"]), Some("stdio"));
    assert_eq!(text_at(spec, &["command"]), Some("npx"));
    assert_eq!(item_text(spec, &["args"], 0), Some("-y"));
    assert_eq!(text_at(spec, &["env", "KEY"]), Some("value"));

    let spec = spec_of(&config, "web");
    assert_eq!(text_at(spec, &["type"]), Some("sse"));
    assert_eq!(text_at(spec, &["url"]), Some("https://example.com/mcp"));
    assert_eq!(text_at(spec, &["headers", "X-Auth"]), Some("abc"));

    let spec = spec_of(&config, "disabled-one");
    assert_eq!(text_at(spec, &["type"]), Some("stdio"));
    assert_eq!(text_at(spec, &["command"]), Some("old-cmd"));
    assert!(spec.get("enable").is_none());
    assert!(config.mcp.servers.as_ref().unwrap().get("disabled-one").unwrap().apps.zcode);
}

#[test]
fn servers_that_zcode_cannot_have_are_errors() {
    let message = |spec: &str| match convert_to_zcode_format("x", &json(spec)) {
        Err(AppError::McpValidation(m)) => m,
        _ => "none".to_string(),
    };
    assert_eq!(message("1"), "MCP spec must be a JSON object");
    assert_eq!(message("{}"), "zcode MCP server 'x' (stdio) requires a non-empty 'command'");
    assert_eq!(
        message(r#"{ "type": "sse" }"#),
        "zcode MCP server 'x' (sse) requires a non-empty 'url'"
    );
    assert_eq!(message(r#"{ "type": "grpc" }"#), "Unknown MCP type: grpc");
}

#[test]
fn entries_that_the_registry_cannot_have_are_errors() {
    let message = |spec: &str| match convert_from_zcode_format("x", &json(spec)) {
        Err(AppError::McpValidation(m)) => m,
        _ => "none".to_string(),
    };
    assert_eq!(message("1"), "zcode MCP spec must be a JSON object");
    assert_eq!(message("{}"), "zcode MCP server 'x' has neither 'command' nor 'url' field");
    assert_eq!(
        message(r#"{ "url": "u", "type": "grpc" }"#),
        "zcode MCP server 'x' has unsupported type 'grpc'"
    );
}

#[test]
fn a_server_needs_a_command_or_an_address() {
    assert!(validate_server_spec(&json(r#"{ "command": "c" }"#)).is_ok());
    assert!(validate_server_spec(&json(r#"{ "type": "sse", "url": "u" }"#)).is_ok());
    assert!(validate_server_spec(&json("[]")).is_err());
    assert!(validate_server_spec(&json("{}")).is_err());
    assert!(validate_server_spec(&json(r#"{ "type": "http", "url": " " }"#)).is_err());
    assert!(validate_server_spec(&json(r#"{ "type": "grpc", "url": "u" }"#)).is_err());
}

fn keys_at(v: &Datum, path: &[&str]) -> Vec<String> {
    match at(v, path).unwrap() {
        Datum::Mapping(table) => {
            table.entries.iter().map(|(key, _)| key.as_str().unwrap().to_string()).collect()
        }
        other => panic!("{other:?}"),
    }
}

#[test]
fn servers_and_their_fields_stay_in_place() {
    let mut home = Home::with_cli(
        r#"{"ui":1,"mcp":{"on":true,"servers":{"a":{"command":"x"},"b":{"own":1,"env":{"K":"v"},"command":"y"},"c":{"command":"z"}}},"end":2}"#,
    );
    home.sync("b", r#"{"type":"stdio","command":"new","args":["-v"],"env":{"L":"w"}}"#);
    assert_eq!(keys_at(&home.doc(), &["mcp", "servers"]), ["a", "b", "c"]);
    assert_eq!(keys_at(&home.doc(), &["mcp", "servers", "b"]), ["own", "env", "command", "args"]);
    assert_eq!(keys_at(&home.doc(), &["mcp", "servers", "b", "env"]), ["L"]);
    home.remove("a");
    assert_eq!(keys_at(&home.doc(), &["mcp", "servers"]), ["b", "c"]);
    assert_eq!(keys_at(&home.doc(), &["mcp"]), ["on", "servers"]);
    assert_eq!(keys_at(&home.doc(), &[]), ["ui", "mcp", "end"]);
}
