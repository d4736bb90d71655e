//! The MCP servers of dsh.

use cc_switch::error::AppError;
use cc_switch::json::{parse_json, JsonDoc};
use cc_switch::mcp::dsh::{
    build_insert_item, convert_from_dsh_item, import_from_dsh, remove_server_from_dsh,
    sync_enabled_to_dsh, sync_single_server_to_dsh,
};
use cc_switch::mcp::patch::{parse_tagged_yaml, read_patch_entries};
use cc_switch::mcp::registry::{McpApps, McpServer, MultiAppConfig, ServerMap};
use cc_switch::mcp::server_name::{fnv1a_32, sanitize_server_name, SERVER_NAME_MAX_LEN};
use cc_switch::plan::WritePlan;
use cc_switch::value::Datum;
use cc_switch::yaml::parse_yaml;
use indexmap::IndexMap;

/// The file of dsh.
struct Home {
    patch: Option<String>,
    saved: Vec<String>,
}

impl Home {
    fn new() -> Home {
        Home { patch: None, saved: Vec::new() }
    }

    fn with_patch(raw: &str) -> Home {
        Home { patch: Some(raw.to_string()), saved: Vec::new() }
    }

    fn carry_out(&mut self, plan: WritePlan) {
        if let WritePlan::Write { text, backup } = plan {
            if backup {
                self.saved.push(self.patch.clone().unwrap());
            }
            self.patch = Some(text);
        }
    }

    fn try_sync(&mut self, id: &str, spec: &str) -> Result<(), AppError> {
        let plan = sync_single_server_to_dsh(true, self.patch.as_deref(), id, &json(spec))?;
        self.carry_out(plan);
        Ok(())
    }

    fn sync(&mut self, id: &str, spec: &str) {
        self.try_sync(id, spec).unwrap();
    }

    fn sync_all(&mut self, servers: &IndexMap<String, McpServer>) {
        let plan = sync_enabled_to_dsh(true, self.patch.as_deref(), servers).unwrap();
        self.carry_out(plan);
    }

    fn remove(&mut self, id: &str) {
        let plan = remove_server_from_dsh(true, self.patch.as_deref(), id).unwrap();
        self.carry_out(plan);
    }

    fn import(&self, config: &mut MultiAppConfig) -> usize {
        import_from_dsh(self.patch.as_deref(), config).unwrap()
    }

    fn raw(&self) -> &str {
        self.patch.as_deref().unwrap()
    }

    fn entries(&self) -> Vec<Datum> {
        match parse_yaml(self.raw()).unwrap() {
            Datum::List(x) => x,
            _ => panic!("a list"),
        }
    }
}

fn json(text: &str) -> Datum {
    parse_json(text).unwrap()
}

fn at<'a>(v: &'a Datum, path: &[&str]) -> Option<&'a Datum> {
    let mut v = v;
    for name in path {
        v = v.get(name)?;
    }
    Some(v)
}

fn text_at<'a>(v: &'a Datum, path: &[&str]) -> Option<&'a str> {
    at(v, path).and_then(|v| v.as_str())
}

fn first_item(entry: &Datum) -> &Datum {
    &entry.get("insert").unwrap().as_list().unwrap()[0]
}

fn ids(entries: &[Datum]) -> Vec<String> {
    let mut out = Vec::new();
    for entry in entries {
        if let Some(items) = entry.get("insert").and_then(|v| v.as_list()) {
            for item in items {
                if let Some(id) = text_at(item, &["id"]) {
                    out.push(id.to_string());
                }
            }
        }
    }
    out
}

fn make_server(id: &str, spec: &str, dsh: bool) -> (String, McpServer) {
    (
        id.to_string(),
        McpServer {
            id: id.to_string(),
            name: id.to_string(),
            server: JsonDoc::new(json(spec)),
            apps: McpApps { dsh, ..McpApps::default() },
            description: None,
            homepage: None,
            docs: None,
            tags: Vec::new(),
        },
    )
}

fn make_server_map(servers: Vec<(String, McpServer)>) -> IndexMap<String, McpServer> {
    servers.into_iter().collect()
}

fn spec_of<'a>(config: &'a MultiAppConfig, id: &str) -> &'a Datum {
    config.mcp.servers.as_ref().unwrap().get(id).unwrap().server.get()
}

const MANUAL: &str = "\
- insert:
    - id: my-manual
      name: '@deepseek-ai/dsh-mcp-client'
      config:
        serverName: manual
        transport: stdio
        command: npx
        env:
          GITHUB_TOKEN: !!js process.env.GITHUB_TOKEN
";

#[test]
fn sanitize_clean_id_passes_through() {
    assert_eq!(sanitize_server_name("github"), "github");
    assert_eq!(sanitize_server_name("my-server_2"), "my-server_2");
    assert_eq!(sanitize_server_name(&"a".repeat(32)), "a".repeat(32));
}

#[test]
fn sanitize_folds_illegal_chars_with_hash_suffix() {
    let name = sanitize_server_name("foo.bar baz");
    assert!(name.starts_with("foo-bar-baz-"));
    assert!(name.len() <= SERVER_NAME_MAX_LEN);
    assert!(name.chars().all(|c| c.is_ascii_alphanumeric() || c == '_' || c == '-'));
}

#[test]
fn sanitize_truncates_long_ids() {
    let long = "a".repeat(40);
    let name = sanitize_server_name(&long);
    assert_eq!(name.len(), SERVER_NAME_MAX_LEN);
    assert!(name.starts_with("a".repeat(23).as_str()));
}

#[test]
fn sanitize_empty_falls_back_to_server() {
    assert_eq!(sanitize_server_name(""), "server");
    assert_eq!(sanitize_server_name("   "), "server");
}

#[test]
fn sanitize_is_deterministic_and_disambiguates_collisions() {
    assert_eq!(sanitize_server_name("foo.bar"), sanitize_server_name("foo.bar"));
    assert_ne!(sanitize_server_name("foo.bar"), sanitize_server_name("foo bar"));
    assert_ne!(sanitize_server_name("foo-bar"), sanitize_server_name("foo.bar"));
}

#[test]
fn the_hash_is_fnv1a() {
    assert_eq!(fnv1a_32(""), 0x811c_9dc5);
    assert_eq!(fnv1a_32("a"), 0xe40c_292c);
    assert_eq!(fnv1a_32("foobar"), 0xbf9c_f968);
    assert_eq!(sanitize_server_name("foo bar"), format!("foo-bar-{:08x}", fnv1a_32("foo bar")));
    assert_eq!(sanitize_server_name("中文"), format!("server-{:08x}", fnv1a_32("中文")));
}

#[test]
fn dsh_sync_single_stdio_server_is_idempotent() {
    let mut home = Home::new();
    let spec = r#"{
        "type": "stdio",
        "command": "npx",
        "args": ["-y", "@modelcontextprotocol/server-github"],
        "env": { "GITHUB_TOKEN": "token" }
    }"#;

    home.sync("github", spec);
    let first = home.raw().to_string();
    home.sync("github", spec);
    assert_eq!(first, home.raw());

    let seq = home.entries();
    assert_eq!(seq.len(), 1);
    let item = first_item(&seq[0]);
    assert_eq!(text_at(item, &["id"]), Some("mcp-github"));
    assert_eq!(text_at(item, &["name"]), Some("@deepseek-ai/dsh-mcp-client"));
    let config = item.get("config").unwrap();
    assert_eq!(text_at(config, &["serverName"]), Some("github"));
    assert_eq!(text_at(config, &["transport"]), Some("stdio"));
    assert_eq!(text_at(config, &["command"]), Some("npx"));
    assert_eq!(config.get("args").unwrap().as_list().unwrap().len(), 2);
    assert_eq!(text_at(config, &["env", "GITHUB_TOKEN"]), Some("token"));
}

#[test]
fn sync_single_stdio_server_writes_insert_entry_and_is_idempotent() {
    let mut home = Home::new();
    let spec = r#"{
        "type": "stdio",
        "command": "npx",
        "args": ["-y", "@modelcontextprotocol/server-github"],
        "env": { "GITHUB_TOKEN": "token" }
    }"#;

    home.sync("github", spec);
    let first = home.raw().to_string();
    home.sync("github", spec);
    assert_eq!(first, home.raw());

    let seq = home.entries();
    assert_eq!(seq.len(), 1);
    let item = first_item(&seq[0]);
    assert_eq!(text_at(item, &["id"]), Some("mcp-github"));
    assert_eq!(text_at(item, &["name"]), Some("@deepseek-ai/dsh-mcp-client"));
    let config = item.get("config").unwrap();
    assert_eq!(text_at(config, &["serverName"]), Some("github"));
    assert_eq!(text_at(config, &["transport"]), Some("stdio"));
    assert_eq!(text_at(config, &["command"]), Some("npx"));
    assert_eq!(config.get("args").unwrap().as_list().unwrap().len(), 2);
    assert_eq!(text_at(config, &["env", "GITHUB_TOKEN"]), Some("token"));
}

#[test]
fn sync_single_http_server_maps_to_streamable_http() {
    let mut home = Home::new();
    home.sync(
        "remote",
        r#"{
            "type": "sse",
            "url": "https://example.com/mcp",
            "headers": { "Authorization": "Bearer xxx" }
        }"#,
    );

    let seq = home.entries();
    assert_eq!(seq.len(), 1);
    let config = first_item(&seq[0]).get("config").unwrap();
    assert_eq!(text_at(config, &["transport"]), Some("streamable-http"));
    assert_eq!(text_at(config, &["url"]), Some("https://example.com/mcp"));
    assert_eq!(text_at(config, &["headers", "Authorization"]), Some("Bearer xxx"));
}

#[test]
fn sync_enabled_rebuilds_managed_and_preserves_tagged_entries() {
    let mut home = Home::with_patch(
        "\
- insert:
    - id: my-manual
      name: '@deepseek-ai/dsh-mcp-client'
      config:
        serverName: manual
        transport: stdio
        command: npx
        env:
          GITHUB_TOKEN: !!js process.env.GITHUB_TOKEN
- insert:
    - id: mcp-old
      name: '@deepseek-ai/dsh-mcp-client'
      config:
        serverName: old
        transport: stdio
        command: old-cmd
- id: some-other-plugin
  disabled: true
",
    );

    home.sync_all(&make_server_map(vec![
        make_server(
            "github",
            r#"{ "type": "stdio", "command": "npx", "args": ["-y", "pkg"] }"#,
            true,
        ),
        make_server("web", r#"{ "type": "http", "url": "http://localhost:3000/mcp" }"#, true),
        make_server("disabled-one", r#"{ "command": "x" }"#, false),
    ]));

    let seq = match parse_tagged_yaml(home.raw()).unwrap() {
        Datum::List(x) => x,
        _ => panic!("a list"),
    };
    assert_eq!(seq.len(), 4);

    let manual = first_item(&seq[0]);
    assert_eq!(text_at(manual, &["id"]), Some("my-manual"));
    let tagged = at(manual, &["config", "env", "GITHUB_TOKEN"]).unwrap();
    assert!(matches!(tagged, Datum::Tagged(tag, _) if tag == "!!js"));

    let ids = ids(&seq);
    assert!(!ids.contains(&"mcp-old".to_string()));
    assert!(ids.contains(&"mcp-github".to_string()));
    assert!(ids.contains(&"mcp-web".to_string()));
    assert!(!ids.contains(&"mcp-disabled-one".to_string()));

    assert!(seq.iter().any(|e| e.get("disabled").is_some()));
}

#[test]
fn sync_enabled_twice_is_idempotent() {
    let mut home = Home::new();
    let servers = make_server_map(vec![make_server(
        "github",
        r#"{ "type": "stdio", "command": "npx" }"#,
        true,
    )]);
    home.sync_all(&servers);
    let first = home.raw().to_string();
    home.sync_all(&servers);
    assert_eq!(first, home.raw());
}

#[test]
fn remove_server_deletes_only_matching_entry() {
    let mut home = Home::new();
    home.sync_all(&make_server_map(vec![
        make_server("a", r#"{ "type": "stdio", "command": "cmd-a" }"#, true),
        make_server("b", r#"{ "type": "http", "url": "http://localhost:9000/mcp" }"#, true),
    ]));

    home.remove("a");

    let seq = home.entries();
    assert_eq!(seq.len(), 1);
    assert_eq!(text_at(first_item(&seq[0]), &["id"]), Some("mcp-b"));

    home.remove("a");
    home.remove("ghost");
    assert_eq!(home.entries().len(), 1);
}

#[test]
fn sync_sanitizes_server_name_and_entry_id() {
    let mut home = Home::new();
    home.sync("Foo.Bar@2", r#"{ "type": "stdio", "command": "npx" }"#);

    let entries = home.entries();
    let item = first_item(&entries[0]);
    let server_name = text_at(item, &["config", "serverName"]).unwrap();
    assert!(server_name.starts_with("Foo-Bar-2-"));
    assert!(server_name.len() <= SERVER_NAME_MAX_LEN);
    let expected_id = format!("mcp-{server_name}");
    assert_eq!(text_at(item, &["id"]), Some(expected_id.as_str()));
}

#[test]
fn dsh_sync_rejects_stdio_without_command() {
    let mut home = Home::new();
    assert!(home.try_sync("bad", r#"{ "type": "stdio" }"#).is_err());
    assert!(home.patch.is_none());
}

#[test]
fn dsh_import_roundtrip_restores_unified_specs() {
    let mut home = Home::new();
    home.sync_all(&make_server_map(vec![
        make_server(
            "github",
            r#"{
                "type": "stdio",
                "command": "npx",
                "args": ["-y", "pkg"],
                "env": { "KEY": "value" },
                "cwd": "/tmp/work"
            }"#,
            true,
        ),
        make_server(
            "web",
            r#"{
                "type": "http",
                "url": "https://example.com/mcp",
                "headers": { "X-Auth": "abc" }
            }"#,
            true,
        ),
    ]));

    let mut config = MultiAppConfig::default();
    assert_eq!(home.import(&mut config), 2);

    let github = config.mcp.servers.as_ref().unwrap().get("github").unwrap();
    assert!(github.apps.dsh);
    assert!(!github.apps.claude);
    let spec = spec_of(&config, "github");
    assert_eq!(text_at(spec, &["type"]), Some("stdio"));
    assert_eq!(text_at(spec, &["command"]), Some("npx"));
    assert_eq!(spec.get("args").unwrap().as_list().unwrap()[0].as_str(), Some("-y"));
    assert_eq!(text_at(spec, &["env", "KEY"]), Some("value"));
    assert_eq!(text_at(spec, &["cwd"]), Some("/tmp/work"));

    let spec = spec_of(&config, "web");
    assert_eq!(text_at(spec, &["type"]), Some("http"));
    assert_eq!(text_at(spec, &["url"]), Some("https://example.com/mcp"));
    assert_eq!(text_at(spec, &["headers", "X-Auth"]), Some("abc"));
}

#[test]
fn import_skips_tagged_env_values_and_adopts_manual_entries() {
    let home = Home::with_patch(
        "\
- insert:
    - id: my-manual
      name: '@deepseek-ai/dsh-mcp-client'
      config:
        serverName: manual
        transport: stdio
        command: npx
        env:
          GITHUB_TOKEN: !!js process.env.GITHUB_TOKEN
- insert:
    - id: whatever
      name: '@deepseek-ai/dsh-mcp-client'
      config:
        serverName: clean
        transport: streamable-http
        url: http://localhost:3000/mcp
",
    );

    let mut config = MultiAppConfig::default();
    assert_eq!(home.import(&mut config), 1);
    let imported = config.mcp.servers.as_ref().unwrap();
    assert!(!imported.contains_key("manual"));
    assert!(imported.contains_key("clean"));
    let spec = spec_of(&config, "clean");
    assert_eq!(text_at(spec, &["type"]), Some("http"));
    assert_eq!(text_at(spec, &["url"]), Some("http://localhost:3000/mcp"));
}

#[test]
fn import_from_dsh_maps_stdio_and_streamable_http_servers() {
    let home = Home::with_patch(
        "\
- insert:
    - id: mcp-github
      name: '@deepseek-ai/dsh-mcp-client'
      config:
        serverName: github
        transport: stdio
        command: npx
        args: ['-y', 'pkg']
        env:
          KEY: value
- insert:
    - id: mcp-web
      name: '@deepseek-ai/dsh-mcp-client'
      config:
        serverName: web
        transport: streamable-http
        url: https://example.com/mcp
        headers:
          Authorization: Bearer abc
",
    );

    let mut config = MultiAppConfig::default();
    assert_eq!(home.import(&mut config), 2);

    let servers = config.mcp.servers.as_ref().unwrap();
    assert_eq!(servers.len(), 2);
    let github = servers.get("github").unwrap();
    assert!(github.apps.dsh);
    assert!(!github.apps.claude && !github.apps.codex && !github.apps.gemini);
    let spec = spec_of(&config, "github");
    assert_eq!(text_at(spec, &["type"]), Some("stdio"));
    assert_eq!(text_at(spec, &["command"]), Some("npx"));
    assert_eq!(spec.get("args").unwrap().as_list().unwrap()[0].as_str(), Some("-y"));
    assert_eq!(text_at(spec, &["env", "KEY"]), Some("value"));

    let spec = spec_of(&config, "web");
    assert_eq!(text_at(spec, &["type"]), Some("http"));
    assert_eq!(text_at(spec, &["url"]), Some("https://example.com/mcp"));
    assert_eq!(text_at(spec, &["headers", "Authorization"]), Some("Bearer abc"));
}

#[test]
fn import_enables_dsh_flag_on_existing_server() {
    let mut home = Home::new();
    home.sync("github", r#"{ "type": "stdio", "command": "npx" }"#);

    let mut config = MultiAppConfig::default();
    let (_, existing) = make_server("github", r#"{ "type": "stdio", "command": "npx" }"#, false);
    let mut servers = ServerMap::new();
    servers.insert("github", existing);
    config.mcp.servers = Some(servers);

    assert_eq!(home.import(&mut config), 1);
    assert!(config.mcp.servers.as_ref().unwrap().get("github").unwrap().apps.dsh);

    assert_eq!(home.import(&mut config), 0);
}

#[test]
fn dsh_import_missing_file_is_zero() {
    let mut config = MultiAppConfig::default();
    assert_eq!(Home::new().import(&mut config), 0);
    assert!(config.mcp.servers.is_none());
}

#[test]
fn sync_without_dsh_dir_is_noop() {
    let servers = make_server_map(vec![make_server(
        "github",
        r#"{ "type": "stdio", "command": "npx" }"#,
        true,
    )]);
    let plan = sync_enabled_to_dsh(false, None, &servers).unwrap();
    assert!(matches!(plan, WritePlan::Keep));
}

#[test]
fn sync_preserves_user_tagged_entry_and_remove_deletes_only_managed() {
    let mut home = Home::with_patch(MANUAL);
    home.sync_all(&make_server_map(vec![make_server(
        "github",
        r#"{ "type": "stdio", "command": "npx", "args": ["-y", "pkg"] }"#,
        true,
    )]));

    assert_eq!(home.entries().len(), 2);
    assert!(home.raw().contains("GITHUB_TOKEN: !!js process.env.GITHUB_TOKEN"));

    home.remove("github");
    assert_eq!(ids(&home.entries()), vec!["my-manual".to_string()]);
    assert!(home.raw().contains("GITHUB_TOKEN: !!js process.env.GITHUB_TOKEN"));
}

#[test]
fn the_text_of_the_user_stays_to_the_letter() {
    let head = "# my patches\n\n";
    let other = "- id: some-plugin # a remark\n  disabled:   true\n\n";
    let raw = format!("{head}{MANUAL}{other}");
    let mut home = Home::with_patch(&raw);
    home.sync("github", r#"{ "type": "stdio", "command": "npx" }"#);
    assert!(home.raw().starts_with(&raw));
    assert_eq!(home.saved, vec![raw.clone()]);
    home.remove("github");
    assert_eq!(home.raw(), raw);
}

#[test]
fn an_item_is_replaced_within_its_entry() {
    let raw = "\
# head
- insert:
    # first
    - id: my-manual
      name: '@deepseek-ai/dsh-mcp-client'
      config:
        serverName: manual
        env: { TOKEN: !!js process.env.TOKEN }
    - id: mcp-github
      name: '@deepseek-ai/dsh-mcp-client'
      config:
        serverName: github
        transport: stdio
        command: old
- id: tail
";
    let mut home = Home::with_patch(raw);
    home.sync("github", r#"{ "type": "stdio", "command": "new" }"#);
    let text = home.raw().to_string();
    assert!(text.contains("    # first\n    - id: my-manual\n"));
    assert!(text.contains("env: { TOKEN: !!js process.env.TOKEN }\n"));
    assert!(text.ends_with("- id: tail\n"));
    let entries = home.entries();
    assert_eq!(ids(&entries), vec!["my-manual".to_string(), "mcp-github".to_string()]);
    let items = entries[0].get("insert").unwrap().as_list().unwrap();
    assert_eq!(text_at(&items[1], &["config", "command"]), Some("new"));

    home.remove("github");
    let text = home.raw();
    assert!(text.contains("env: { TOKEN: !!js process.env.TOKEN }\n"));
    assert!(!text.contains("mcp-github"));
    assert!(text.ends_with("- id: tail\n"));
}

#[test]
fn a_list_in_flow_style_is_written_anew() {
    let mut home = Home::with_patch("[{insert: [{id: x, name: other}]}]\n");
    home.sync("github", r#"{ "type": "stdio", "command": "npx" }"#);
    let entries = home.entries();
    assert_eq!(entries.len(), 2);
    assert_eq!(ids(&entries), vec!["x".to_string(), "mcp-github".to_string()]);
}

#[test]
fn removing_the_last_server_leaves_an_empty_list() {
    let mut home = Home::new();
    home.sync("github", r#"{ "type": "stdio", "command": "npx" }"#);
    home.remove("github");
    assert_eq!(home.raw(), "[]\n");
}

#[test]
fn an_entry_with_other_keys_outlives_its_items() {
    let mut home = Home::with_patch(
        "\
- insert:
    - id: mcp-github
      name: '@deepseek-ai/dsh-mcp-client'
      config: { serverName: github }
  note: keep
",
    );
    home.remove("github");
    let entries = home.entries();
    assert_eq!(entries.len(), 1);
    assert_eq!(text_at(&entries[0], &["note"]), Some("keep"));
    assert!(entries[0].get("insert").unwrap().as_list().unwrap().is_empty());
}

#[test]
fn servers_are_found_by_name_too() {
    let mut home = Home::with_patch(
        "\
- insert:
    - id: hand-made
      name: '@deepseek-ai/dsh-mcp-client'
      config:
        serverName: github
        transport: stdio
        command: old
",
    );
    home.sync("github", r#"{ "type": "stdio", "command": "new" }"#);
    let entries = home.entries();
    assert_eq!(entries.len(), 1);
    assert_eq!(ids(&entries), vec!["mcp-github".to_string()]);
}

#[test]
fn an_unusable_patch_file_is_an_error() {
    let message = |raw: &str| match read_patch_entries(raw) {
        Err(AppError::Config(m)) => m,
        _ => "none".to_string(),
    };
    assert_eq!(
        message("a: 1\n"),
        "dsh cordis.patch.yml top level must be a list of patch entries"
    );
    assert!(message("- [\n").starts_with("Failed to parse dsh cordis.patch.yml as YAML: "));
    assert_eq!(read_patch_entries("# nothing\n").unwrap().len(), 0);
    let mut config = MultiAppConfig::default();
    assert!(import_from_dsh(Some("a: 1\n"), &mut config).is_err());
    assert!(config.mcp.servers.is_none());
}

#[test]
fn servers_that_dsh_cannot_have_are_errors() {
    let message = |spec: &str| match build_insert_item("x", &json(spec)) {
        Err(AppError::McpValidation(m)) => m,
        _ => "none".to_string(),
    };
    assert_eq!(message("[]"), "MCP spec must be a JSON object");
    assert_eq!(
        message("{}"),
        "dsh MCP server 'x' (stdio) requires a non-empty 'command'"
    );
    assert_eq!(
        message(r#"{ "type": "http", "url": " " }"#),
        "dsh MCP server 'x' (streamable-http) requires a non-empty 'url'"
    );
    assert_eq!(message(r#"{ "type": "grpc" }"#), "Unknown MCP type: grpc");
}

#[test]
fn items_that_the_registry_cannot_have_are_errors() {
    let message = |text: &str| match convert_from_dsh_item(&parse_tagged_yaml(text).unwrap()) {
        Err(AppError::McpValidation(m)) => m,
        _ => "none".to_string(),
    };
    assert_eq!(message("{}"), "dsh MCP client entry is missing a 'config' mapping");
    assert_eq!(
        message("config: {}"),
        "dsh MCP client entry is missing a valid 'config.serverName'"
    );
    assert_eq!(
        message("config: {serverName: s}"),
        "dsh MCP server 's' has unknown transport ''"
    );
    assert_eq!(
        message("config: {serverName: s, transport: stdio}"),
        "dsh MCP server 's' (stdio) is missing 'command'"
    );
    assert_eq!(
        message("config: {serverName: s, transport: streamable-http}"),
        "dsh MCP server 's' (streamable-http) is missing 'url'"
    );
    assert_eq!(
        message("config: {serverName: s, transport: stdio, command: c, args: x}"),
        "dsh MCP server 's': 'args' must be a list"
    );
    assert_eq!(
        message("config: {serverName: s, transport: stdio, command: c, args: [a, 1]}"),
        "dsh MCP server 's': 'args[1]' is not a plain string"
    );
    assert_eq!(
        message("config: {serverName: s, transport: stdio, command: c, env: []}"),
        "dsh MCP server 's': 'env' must be a mapping"
    );
    assert_eq!(
        message("config: {serverName: s, transport: stdio, command: c, env: {1: a}}"),
        "dsh MCP server 's': 'env' has a non-string key"
    );
    assert_eq!(
        message("config: {serverName: s, transport: stdio, command: c, env: {K: !!js e}}"),
        "dsh MCP server 's': 'env.K' is not a plain string (possibly a !!js expression)"
    );
    assert_eq!(
        message("config: {serverName: s, transport: stdio, command: c, cwd: !!js e}"),
        "dsh MCP server 's': 'cwd' is not a plain string (possibly a !!js expression)"
    );
    assert_eq!(
        message("config: {serverName: s, transport: stdio, command: !!js e}"),
        "dsh MCP server 's' (stdio) is missing 'command'"
    );
}

#[test]
fn a_file_written_anew_is_left_alone_afterwards() {
    let spec = r#"{"type":"stdio","command":"run","args":["a\tb","c\nd"],"env":{"K":"\u0001"}}"#;
    let flow = "[{insert: [{id: other, name: x}]}, {remove: y}]\n";
    let mut home = Home::with_patch(flow);
    home.sync("srv", spec);
    let written = home.raw().to_string();
    assert_ne!(written, flow);
    assert_eq!(ids(&home.entries()), ["other", "mcp-srv"]);
    home.sync("srv", spec);
    assert_eq!(home.raw(), written);
    home.remove("srv");
    let removed = home.raw().to_string();
    assert_eq!(ids(&home.entries()), ["other"]);
    home.remove("srv");
    assert_eq!(home.raw(), removed);
    assert_eq!(home.saved.len(), 2);
}

#[test]
fn a_file_that_holds_its_entries_keeps_its_text() {
    let flow = "# mine\n[{insert: [{id: other, name: x}]}, {remove: y}]\n";
    let mut home = Home::with_patch(flow);
    home.remove("srv");
    home.sync_all(&IndexMap::new());
    assert_eq!(home.raw(), flow);
    assert!(home.saved.is_empty());
}

#[test]
fn the_last_entry_leaves_an_empty_list() {
    let spec = r#"{"command":"run"}"#;
    let mut home = Home::new();
    home.remove("srv");
    home.sync_all(&IndexMap::new());
    assert!(home.patch.is_none());
    home.sync("srv", spec);
    home.sync_all(&IndexMap::new());
    assert_eq!(home.raw(), "[]\n");
    home.sync_all(&IndexMap::new());
    home.remove("srv");
    assert_eq!(home.raw(), "[]\n");
    assert_eq!(home.saved.len(), 1);
}

#[test]
fn a_server_comes_back_with_any_trimmed_name_and_escaped_texts() {
    let spec = json(
        r#"{"type":"stdio","command":" run ","args":["","a\tb","\u0000\u001f"],"env":{"K\n":"\"\\"},"cwd":"/x\ty"}"#,
    );
    let item = build_insert_item("any name: #1", &spec).unwrap();
    let (name, back) = convert_from_dsh_item(&item).unwrap();
    assert_eq!(name, "any name: #1");
    assert_eq!(text_at(&back, &["command"]), Some("run"));
    let args: Vec<&str> =
        back.get("args").unwrap().as_list().unwrap().iter().map(|v| v.as_str().unwrap()).collect();
    assert_eq!(args, ["", "a\tb", "\u{0}\u{1f}"]);
    assert_eq!(text_at(&back, &["env", "K\n"]), Some("\"\\"));
    assert_eq!(text_at(&back, &["cwd"]), Some("/x\ty"));
    let refused = json(r#"{"type":"stdio","command":"run","env":{"K":"\u007f"}}"#);
    assert!(build_insert_item("s", &refused).is_err());
}

#[test]
fn a_file_written_anew_keeps_tags_of_both_kinds() {
    let spec = r#"{"type":"stdio","command":"run"}"#;
    let flow = "[{insert: [{id: other, env: {A: !!js process.env.A, B: !mine 1, 7: x, true: y, ~: z}}]}]\n";
    let before = parse_tagged_yaml(flow).unwrap();
    let mut home = Home::with_patch(flow);
    home.sync("srv", spec);
    let written = home.raw().to_string();
    assert_ne!(written, flow);
    assert!(written.contains("!!js process.env.A"), "{written}");
    let after = parse_tagged_yaml(&written).unwrap();
    assert_eq!(
        format!("{:?}", after.as_list().unwrap()[0]),
        format!("{:?}", before.as_list().unwrap()[0]),
    );
    home.sync("srv", spec);
    assert_eq!(home.raw(), written);
    home.remove("srv");
    assert!(home.raw().contains("!!js process.env.A"));
    let removed = home.raw().to_string();
    home.remove("srv");
    assert_eq!(home.raw(), removed);
}

#[test]
fn a_text_like_a_stand_in_is_not_changed() {
    let flow = "[{insert: [{id: other, note: '!double-mark-js'}]}]\n";
    let mut home = Home::with_patch(flow);
    home.sync("srv", r#"{"type":"stdio","command":"run"}"#);
    let note = text_at(first_item(&home.entries()[0]), &["note"]).map(str::to_string);
    assert_eq!(note.as_deref(), Some("!double-mark-js"));
}
