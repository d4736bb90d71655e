//! The MCP servers of zcode, in `cli/config.json` under `mcp.servers`.
//!
//! A `stdio` server of the registry is `{command, args?, env?, cwd?}` there; an
//! `http` or `sse` server is `{type, url, headers?}`.
//!
//! zcode marks a server as switched off by `"enable": false`. A server that an
//! application does not use any more is removed from the file instead; writing a
//! server keeps what the file holds of it besides, `enable` among it; and reading
//! a server drops `enable`, which the registry does not know.

use vstd::prelude::*;

use crate::error::{outcome, AppError, ErrorView};
use crate::json::json_pretty;
use crate::mcp::parts::{
    full_list, full_mapping, full_text, insert_some, list_part, mapping_part, text_part,
    trimmed_field, trimmed_part, with_some,
};
use crate::mcp::registry::{
    imported, indexed_servers, news_count, server_views, use_count, values_of, App, McpServer,
    MultiAppConfig, ServerMap, ServerView,
};
use crate::mcp::validation::{server_fault, server_type, type_of, validate_server_spec};
use crate::mcp::zcode_laws::{
    all_json, law_registry_settles, law_removal_settles, law_server_settles, registry_sticks,
    server_leaves, server_sticks,
};
use crate::merge::overlay;
use crate::plan::{PlanView, WritePlan};
use crate::text::{glue, text_eq, trim_text, trimmed_text};
use crate::tree::{
    field, is_exact, is_json, lemma_entry_well_formed, lemma_untagged, lookup, overlaid, text_field,
    text_of, with_key, without_key, Entries, Tree,
};
use crate::value::{lemma_mapping_view, Datum, Table};
use crate::zcode_config::{
    child_object, object_of, object_planned, object_under, read_zcode_cli_config, stored,
    write_zcode_cli_config,
};

verus! {

// ----------------------------------------------------------------------------
// The two forms of a server
// ----------------------------------------------------------------------------

/// A server in the form of zcode.
pub open spec fn zcode_form(id: Seq<char>, spec: Tree) -> Result<Tree, ErrorView> {
    let t = type_of(spec);
    if !(spec is Mapping) {
        Err(ErrorView::McpValidation("MCP spec must be a JSON object"@))
    } else if t == "stdio"@ {
        match trimmed_field(spec, "command"@) {
            Some(command) => {
                let a = with_key(Seq::empty(), Tree::Text("command"@), Tree::Text(command));
                let b = with_some(a, "args"@, full_list(spec, "args"@));
                let c = with_some(b, "env"@, full_mapping(spec, "env"@));
                Ok(Tree::Mapping(with_some(c, "cwd"@, full_text(spec, "cwd"@))))
            },
            None => Err(
                ErrorView::McpValidation(
                    "zcode MCP server '"@ + id + "' (stdio) requires a non-empty 'command'"@,
                ),
            ),
        }
    } else if t == "sse"@ || t == "http"@ {
        match trimmed_field(spec, "url"@) {
            Some(url) => {
                let a = with_key(Seq::empty(), Tree::Text("type"@), Tree::Text(t));
                let b = with_key(a, Tree::Text("url"@), Tree::Text(url));
                Ok(Tree::Mapping(with_some(b, "headers"@, full_mapping(spec, "headers"@))))
            },
            None => Err(
                ErrorView::McpValidation(
                    "zcode MCP server '"@ + id + "' ("@ + t + ") requires a non-empty 'url'"@,
                ),
            ),
        }
    } else {
        Err(ErrorView::McpValidation("Unknown MCP type: "@ + t))
    }
}

/// Turns a server into the form of zcode.
pub fn convert_to_zcode_format(id: &str, spec: &Datum) -> (r: Result<Datum, AppError>)
    requires
        is_json(spec@),
    ensures
        outcome(r) == zcode_form(id@, spec@),
        r matches Ok(v) ==> is_json(v@),
{
    broadcast use lemma_mapping_view;
    match spec {
        Datum::Mapping(_) => {},
        _ => {
            return Err(AppError::McpValidation("MCP spec must be a JSON object".to_owned()));
        },
    }
    let t = server_type(spec);
    if text_eq(t, "stdio") {
        match trimmed_part(spec, "command") {
            Some(command) => {
                let mut result = Table::new();
                result.insert("command", Datum::text(command));
                insert_some(&mut result, "args", list_part(spec, "args"));
                insert_some(&mut result, "env", mapping_part(spec, "env"));
                insert_some(&mut result, "cwd", text_part(spec, "cwd"));
                Ok(Datum::Mapping(result))
            },
            None => Err(
                AppError::McpValidation(
                    glue(
                        glue("zcode MCP server '", id).as_str(),
                        "' (stdio) requires a non-empty 'command'",
                    ),
                ),
            ),
        }
    } else if text_eq(t, "sse") || text_eq(t, "http") {
        match trimmed_part(spec, "url") {
            Some(url) => {
                let mut result = Table::new();
                result.insert("type", Datum::text(t));
                result.insert("url", Datum::text(url));
                insert_some(&mut result, "headers", mapping_part(spec, "headers"));
                Ok(Datum::Mapping(result))
            },
            None => Err(
                AppError::McpValidation(
                    glue(
                        glue(glue(glue("zcode MCP server '", id).as_str(), "' (").as_str(), t).as_str(),
                        ") requires a non-empty 'url'",
                    ),
                ),
            ),
        }
    } else {
        Err(AppError::McpValidation(glue("Unknown MCP type: ", t)))
    }
}

/// The type of a server that has a `url` in the file of zcode: `http` where it
/// gives none.
pub open spec fn url_type_of(spec: Tree) -> Seq<char> {
    match text_field(spec, "type"@) {
        Some(t) => t,
        None => "http"@,
    }
}

/// A server of zcode in the form of the registry.
pub open spec fn unified_form(name: Seq<char>, spec: Tree) -> Result<Tree, ErrorView> {
    match spec {
        Tree::Mapping(_) => match field(spec, "command"@) {
            Some(command) => {
                let a = with_key(Seq::empty(), Tree::Text("type"@), Tree::Text("stdio"@));
                let b = with_key(a, Tree::Text("command"@), command);
                let c = with_some(b, "args"@, full_list(spec, "args"@));
                let d = with_some(c, "env"@, full_mapping(spec, "env"@));
                Ok(Tree::Mapping(with_some(d, "cwd"@, full_text(spec, "cwd"@))))
            },
            None => match field(spec, "url"@) {
                Some(url) => {
                    let t = url_type_of(spec);
                    if t == "http"@ || t == "sse"@ {
                        let a = with_key(Seq::empty(), Tree::Text("type"@), Tree::Text(t));
                        let b = with_key(a, Tree::Text("url"@), url);
                        Ok(Tree::Mapping(with_some(b, "headers"@, full_mapping(spec, "headers"@))))
                    } else {
                        Err(
                            ErrorView::McpValidation(
                                "zcode MCP server '"@ + name + "' has unsupported type '"@ + t + "'"@,
                            ),
                        )
                    }
                },
                None => Err(
                    ErrorView::McpValidation(
                        "zcode MCP server '"@ + name
                            + "' has neither 'command' nor 'url' field"@,
                    ),
                ),
            },
        },
        _ => Err(ErrorView::McpValidation("zcode MCP spec must be a JSON object"@)),
    }
}

/// Turns a server of zcode into the form of the registry.
pub fn convert_from_zcode_format(name: &str, spec: &Datum) -> (r: Result<Datum, AppError>)
    requires
        is_json(spec@),
    ensures
        outcome(r) == unified_form(name@, spec@),
        r matches Ok(v) ==> is_json(v@),
{
    broadcast use lemma_mapping_view;
    match spec {
        Datum::Mapping(_) => {},
        _ => {
            return Err(AppError::McpValidation("zcode MCP spec must be a JSON object".to_owned()));
        },
    }
    let mut result = Table::new();
    if let Some(command) = spec.get("command") {
        result.insert("type", Datum::text("stdio"));
        result.insert("command", command.clone());
        insert_some(&mut result, "args", list_part(spec, "args"));
        insert_some(&mut result, "env", mapping_part(spec, "env"));
        insert_some(&mut result, "cwd", text_part(spec, "cwd"));
        Ok(Datum::Mapping(result))
    } else if let Some(url) = spec.get("url") {
        let t = match spec.get_str("type") {
            Some(t) => t,
            None => "http",
        };
        if text_eq(t, "http") || text_eq(t, "sse") {
            result.insert("type", Datum::text(t));
            result.insert("url", url.clone());
            insert_some(&mut result, "headers", mapping_part(spec, "headers"));
            Ok(Datum::Mapping(result))
        } else {
            Err(
                AppError::McpValidation(
                    glue(
                        glue(
                            glue(
                                glue("zcode MCP server '", name).as_str(),
                                "' has unsupported type '",
                            ).as_str(),
                            t,
                        ).as_str(),
                        "'",
                    ),
                ),
            )
        }
    } else {
        Err(
            AppError::McpValidation(
                glue(
                    glue("zcode MCP server '", name).as_str(),
                    "' has neither 'command' nor 'url' field",
                ),
            ),
        )
    }
}

// ----------------------------------------------------------------------------
// The servers of the file
// ----------------------------------------------------------------------------

/// The servers of `cli/config.json`.
pub open spec fn servers_of(root: Entries) -> Entries {
    object_under(object_under(root, "mcp"@), "servers"@)
}

/// `cli/config.json` with other servers.
pub open spec fn with_servers(root: Entries, servers: Entries) -> Entries {
    with_key(
        root,
        Tree::Text("mcp"@),
        Tree::Mapping(
            with_key(object_under(root, "mcp"@), Tree::Text("servers"@), Tree::Mapping(servers)),
        ),
    )
}

/// The servers of `cli/config.json`.
pub fn servers_in(root: &Table) -> (r: Table)
    requires
        is_json(Tree::Mapping(root@)),
    ensures
        r@ == servers_of(root@),
        is_json(Tree::Mapping(r@)),
{
    child_object(&child_object(root, "mcp"), "servers")
}

/// `cli/config.json` with other servers.
pub fn replace_servers(root: Table, servers: Table) -> (r: Table)
    requires
        is_json(Tree::Mapping(root@)),
        is_json(Tree::Mapping(servers@)),
    ensures
        r@ == with_servers(root@, servers@),
        is_json(Tree::Mapping(r@)),
{
    broadcast use lemma_mapping_view;
    let mut root = root;
    let mut mcp = child_object(&root, "mcp");
    mcp.insert("servers", Datum::Mapping(servers));
    root.insert("mcp", Datum::Mapping(mcp));
    root
}

/// The servers with one written under its id, over what they hold of it: the fields
/// that are there stay in their places, and new ones follow.
pub open spec fn upserted(servers: Entries, id: Seq<char>, spec: Tree) -> Entries {
    with_key(
        servers,
        Tree::Text(id),
        match (spec, lookup(servers, Tree::Text(id))) {
            (Tree::Mapping(new), Some(Tree::Mapping(old))) => Tree::Mapping(overlaid(old, new)),
            _ => spec,
        },
    )
}

/// The servers with one written under its id.
pub fn upsert_server_entry(servers: &mut Table, id: &str, spec: Datum)
    requires
        is_json(Tree::Mapping(old(servers)@)),
        is_json(spec@),
    ensures
        final(servers)@ == upserted(old(servers)@, id@, spec@),
        is_json(Tree::Mapping(final(servers)@)),
{
    broadcast use lemma_mapping_view;
    let entry = match (spec, servers.get(id)) {
        (Datum::Mapping(new), Some(Datum::Mapping(old))) => Datum::Mapping(overlay(old, &new)),
        (spec, _) => spec,
    };
    servers.insert(id, entry);
}

/// `cli/config.json` with a server written under its id.
pub fn upsert_server(root: Table, id: &str, spec: Datum) -> (r: Table)
    requires
        is_json(Tree::Mapping(root@)),
        is_json(spec@),
    ensures
        r@ == with_servers(root@, upserted(servers_of(root@), id@, spec@)),
        is_json(Tree::Mapping(r@)),
{
    let mut servers = servers_in(&root);
    upsert_server_entry(&mut servers, id, spec);
    replace_servers(root, servers)
}

/// What is to be done to `cli/config.json` so that it holds a server.
pub open spec fn server_synced(
    installed: bool,
    path: Seq<char>,
    raw: Seq<char>,
    id: Seq<char>,
    spec: Tree,
) -> Result<PlanView, ErrorView> {
    if !installed {
        Ok(PlanView::Keep)
    } else {
        match zcode_form(id, spec) {
            Ok(form) => match object_of(path, raw) {
                Ok(root) => object_planned(
                    raw,
                    json_pretty(
                        Tree::Mapping(with_servers(root, upserted(servers_of(root), id, form))),
                    ),
                ),
                Err(e) => Err(e),
            },
            Err(e) => Err(e),
        }
    }
}

/// Writes a server to `cli/config.json`, where zcode is installed.
pub fn sync_single_server_to_zcode(
    installed: bool,
    path: &str,
    raw: &str,
    id: &str,
    server_spec: &Datum,
) -> (r: Result<WritePlan, AppError>)
    requires
        is_json(server_spec@),
    ensures
        outcome(r) == server_synced(installed, path@, raw@, id@, server_spec@),
        installed ==> server_sticks(path@, raw@, id@, server_spec@),
{
    if !installed {
        return Ok(WritePlan::Keep);
    }
    match convert_to_zcode_format(id, server_spec) {
        Ok(form) => match read_zcode_cli_config(path, raw) {
            Ok(root) => {
                let ghost before = root@;
                let ghost new = form@;
                let r = write_zcode_cli_config(raw, &upsert_server(root, id, form));
                proof {
                    let after = with_servers(before, upserted(servers_of(before), id@, new));
                    if is_exact(Tree::Mapping(after)) {
                        assert(stored(path@, raw@, after));
                    }
                    law_server_settles(path@, raw@, id@, server_spec@, before);
                }
                r
            },
            Err(e) => Err(e),
        },
        Err(e) => Err(e),
    }
}

/// `cli/config.json` without a server. The mappings around it stay, though they
/// be empty.
pub open spec fn without_server(root: Entries, id: Seq<char>) -> Entries {
    if field(Tree::Mapping(root), "mcp"@) matches Some(mcp) && field(mcp, "servers"@) matches Some(
        Tree::Mapping(_),
    ) {
        with_servers(root, without_key(servers_of(root), Tree::Text(id)))
    } else {
        root
    }
}

/// `cli/config.json` without a server.
pub fn drop_server(root: Table, id: &str) -> (r: Table)
    requires
        is_json(Tree::Mapping(root@)),
    ensures
        r@ == without_server(root@, id@),
        is_json(Tree::Mapping(r@)),
{
    broadcast use lemma_mapping_view;
    let present = match root.get("mcp") {
        Some(mcp) => {
            proof {
                lemma_untagged(mcp@);
            }
            match mcp.get("servers") {
                Some(Datum::Mapping(_)) => true,
                _ => false,
            }
        },
        None => false,
    };
    if present {
        let mut servers = servers_in(&root);
        let _ = servers.remove(id);
        replace_servers(root, servers)
    } else {
        root
    }
}

/// What is to be done to `cli/config.json` so that it holds a server no more.
pub open spec fn server_removed(
    installed: bool,
    path: Seq<char>,
    raw: Seq<char>,
    id: Seq<char>,
) -> Result<PlanView, ErrorView> {
    if !installed {
        Ok(PlanView::Keep)
    } else {
        match object_of(path, raw) {
            Ok(root) => object_planned(raw, json_pretty(Tree::Mapping(without_server(root, id)))),
            Err(e) => Err(e),
        }
    }
}

/// Removes a server from `cli/config.json`, where zcode is installed.
pub fn remove_server_from_zcode(installed: bool, path: &str, raw: &str, id: &str) -> (r: Result<
    WritePlan,
    AppError,
>)
    ensures
        outcome(r) == server_removed(installed, path@, raw@, id@),
        installed ==> server_leaves(path@, raw@, id@),
{
    if !installed {
        return Ok(WritePlan::Keep);
    }
    match read_zcode_cli_config(path, raw) {
        Ok(root) => {
            let ghost before = root@;
            let r = write_zcode_cli_config(raw, &drop_server(root, id));
            proof {
                let after = without_server(before, id@);
                if is_exact(Tree::Mapping(after)) {
                    assert(stored(path@, raw@, after));
                }
                law_removal_settles(path@, raw@, id@, before);
            }
            r
        },
        Err(e) => Err(e),
    }
}

/// The servers of the file after the first `n` servers of the registry: those that
/// zcode uses are written, the others are removed.
pub open spec fn projected(servers: Entries, list: Seq<ServerView>, n: nat) -> Result<
    Entries,
    ErrorView,
>
    decreases n,
{
    if n == 0 || n > list.len() {
        Ok(servers)
    } else {
        match projected(servers, list, (n - 1) as nat) {
            Ok(before) => {
                let server = list[n - 1];
                if server.apps.zcode {
                    match zcode_form(server.id, server.server) {
                        Ok(form) => Ok(upserted(before, server.id, form)),
                        Err(e) => Err(e),
                    }
                } else {
                    Ok(without_key(before, Tree::Text(server.id)))
                }
            },
            Err(e) => Err(e),
        }
    }
}

/// The servers of the file, brought in step with the registry.
pub fn project_servers(servers: &Table, list: &Vec<&McpServer>) -> (r: Result<Table, AppError>)
    requires
        is_json(Tree::Mapping(servers@)),
    ensures
        outcome(r) == projected(servers@, server_views(list@), list@.len()),
        r matches Ok(m) ==> is_json(Tree::Mapping(m@)) && all_json(server_views(list@)),
{
    let ghost views = server_views(list@);
    let mut out = servers.clone();
    let mut i: usize = 0;
    while i < list.len()
        invariant
            i <= list@.len(),
            views == server_views(list@),
            projected(servers@, views, i as nat) == Ok::<Entries, ErrorView>(out@),
            is_json(Tree::Mapping(out@)),
            forall|j: int| 0 <= j < i ==> is_json((#[trigger] views[j]).server),
        decreases list@.len() - i,
    {
        let server = list[i];
        let spec = server.server.get();
        assert(views[i as int] == server@);
        if server.apps.zcode {
            match convert_to_zcode_format(server.id.as_str(), spec) {
                Ok(form) => upsert_server_entry(&mut out, server.id.as_str(), form),
                Err(e) => {
                    proof {
                        lemma_projected_err(servers@, views, (i + 1) as nat, views.len());
                    }
                    return Err(e);
                },
            }
        } else {
            let _ = out.remove(server.id.as_str());
        }
        i += 1;
    }
    Ok(out)
}

/// Where the first `n` servers fail, more of them fail in the same way.
proof fn lemma_projected_err(servers: Entries, list: Seq<ServerView>, n: nat, m: nat)
    requires
        n <= m <= list.len(),
        projected(servers, list, n) is Err,
    ensures
        projected(servers, list, m) == projected(servers, list, n),
    decreases m,
{
    if n < m {
        lemma_projected_err(servers, list, n, (m - 1) as nat);
    }
}

/// What is to be done to `cli/config.json` so that it is in step with the registry.
pub open spec fn servers_synced(
    installed: bool,
    path: Seq<char>,
    raw: Seq<char>,
    list: Seq<ServerView>,
) -> Result<PlanView, ErrorView> {
    if !installed {
        Ok(PlanView::Keep)
    } else {
        match object_of(path, raw) {
            Ok(root) => match projected(servers_of(root), list, list.len()) {
                Ok(servers) => object_planned(
                    raw,
                    json_pretty(Tree::Mapping(with_servers(root, servers))),
                ),
                Err(e) => Err(e),
            },
            Err(e) => Err(e),
        }
    }
}

/// Brings `cli/config.json` in step with a list of servers.
pub fn sync_servers_to_zcode(
    installed: bool,
    path: &str,
    raw: &str,
    list: &Vec<&McpServer>,
) -> (r: Result<WritePlan, AppError>)
    ensures
        outcome(r) == servers_synced(installed, path@, raw@, server_views(list@)),
        installed ==> registry_sticks(path@, raw@, server_views(list@)),
{
    if !installed {
        return Ok(WritePlan::Keep);
    }
    match read_zcode_cli_config(path, raw) {
        Ok(root) => match project_servers(&servers_in(&root), list) {
            Ok(servers) => {
                let ghost before = root@;
                let ghost new = servers@;
                let r = write_zcode_cli_config(raw, &replace_servers(root, servers));
                proof {
                    let views = server_views(list@);
                    let after = with_servers(before, new);
                    if is_exact(Tree::Mapping(after)) {
                        assert(stored(path@, raw@, after));
                    }
                    law_registry_settles(path@, raw@, views, before);
                }
                r
            },
            Err(e) => Err(e),
        },
        Err(e) => Err(e),
    }
}

/// Brings `cli/config.json` in step with the registry: the servers that zcode uses
/// are written, the others are removed, and servers that the registry does not know
/// stay.
pub fn sync_enabled_to_zcode(
    installed: bool,
    path: &str,
    raw: &str,
    servers: &indexmap::IndexMap<String, McpServer>,
) -> (r: Result<WritePlan, AppError>)
    ensures
        outcome(r) == servers_synced(installed, path@, raw@, indexed_servers(*servers)),
        installed ==> registry_sticks(path@, raw@, indexed_servers(*servers)),
{
    let list = values_of(servers);
    sync_servers_to_zcode(installed, path, raw, &list)
}

/// The server of an entry of the file, with its trimmed name for an id; nothing
/// where the entry has no name or is not usable.
pub open spec fn usable(e: (Tree, Tree)) -> Option<(Seq<char>, Tree)> {
    match text_of(e.0) {
        Some(name) => match trimmed_text(name) {
            Some(id) => match unified_form(id, e.1) {
                Ok(spec) => if server_fault(spec) is None {
                    Some((id, spec))
                } else {
                    None
                },
                Err(_) => None,
            },
            None => None,
        },
        None => None,
    }
}

/// The usable servers among the first `n` of the file.
pub open spec fn found(servers: Entries, n: nat) -> Seq<(Seq<char>, Tree)>
    decreases n,
{
    if n == 0 || n > servers.len() {
        Seq::empty()
    } else {
        match usable(servers[n - 1]) {
            Some(x) => found(servers, (n - 1) as nat).push(x),
            None => found(servers, (n - 1) as nat),
        }
    }
}

/// The server of an entry of the file.
pub fn use_entry(name: &Datum, spec: &Datum) -> (r: Option<(String, Datum)>)
    requires
        is_json(spec@),
    ensures
        usable((name@, spec@)) == (match r {
            Some(x) => Some((x.0@, x.1@)),
            None => None,
        }),
        r matches Some(x) ==> is_json(x.1@),
{
    match name.as_str() {
        Some(name) => match trim_text(name) {
            Some(id) => match convert_from_zcode_format(id, spec) {
                Ok(unified) => match validate_server_spec(&unified) {
                    Ok(_) => Some((id.to_owned(), unified)),
                    Err(_) => None,
                },
                Err(_) => None,
            },
            None => None,
        },
        None => None,
    }
}

/// Takes the servers of the file into the registry. Returns how often that is news.
pub fn import_servers(servers: &Table, registry: &mut ServerMap) -> (r: usize)
    requires
        is_json(Tree::Mapping(servers@)),
        old(registry).wf(),
    ensures
        final(registry).wf(),
        final(registry)@ == imported(old(registry)@, found(servers@, servers@.len()), App::Zcode),
        r == news_count(old(registry)@, found(servers@, servers@.len()), App::Zcode),
{
    let ghost start = registry@;
    let mut changed: usize = 0;
    let mut i: usize = 0;
    while i < servers.entries.len()
        invariant
            i <= servers.entries@.len(),
            is_json(Tree::Mapping(servers@)),
            registry.wf(),
            registry@ == imported(start, found(servers@, i as nat), App::Zcode),
            changed == news_count(start, found(servers@, i as nat), App::Zcode),
            changed <= use_count(registry.entries@, App::Zcode),
        decreases servers.entries@.len() - i,
    {
        proof {
            lemma_entry_well_formed(servers@, i as int);
        }
        let ghost before = found(servers@, i as nat);
        assert(servers@[i as int] == (
            servers.entries@[i as int].0@,
            servers.entries@[i as int].1@,
        ));
        if let Some((id, spec)) = use_entry(&servers.entries[i].0, &servers.entries[i].1) {
            let ghost x = (id@, spec@);
            let news = registry.register(id.as_str(), spec, App::Zcode);
            proof {
                assert(before.push(x).drop_last() =~= before);
                registry.lemma_use_count(App::Zcode);
                assert(registry.entries.len() == registry.entries@.len());
            }
            if news {
                changed += 1;
            }
        }
        i += 1;
    }
    changed
}

/// The registry after an import from `cli/config.json`.
pub open spec fn import_result(
    path: Seq<char>,
    raw: Seq<char>,
    registry: Option<Map<Seq<char>, ServerView>>,
) -> Result<(Option<Map<Seq<char>, ServerView>>, nat), ErrorView> {
    match object_of(path, raw) {
        Ok(root) => {
            let servers = servers_of(root);
            if servers.len() == 0 {
                Ok((registry, 0))
            } else {
                let start = match registry {
                    Some(m) => m,
                    None => Map::empty(),
                };
                let list = found(servers, servers.len());
                Ok(
                    (
                        Some(imported(start, list, App::Zcode)),
                        news_count(start, list, App::Zcode),
                    ),
                )
            }
        },
        Err(e) => Err(e),
    }
}

/// Takes the servers of `cli/config.json` into the registry. A server that the
/// registry has already is only marked as used by zcode. Returns how many servers
/// were added or marked.
pub fn import_from_zcode(path: &str, raw: &str, config: &mut MultiAppConfig) -> (r: Result<
    usize,
    AppError,
>)
    requires
        old(config).wf(),
    ensures
        final(config).wf(),
        match r {
            Ok(n) => import_result(path@, raw@, old(config).registry()) == Ok::<
                (Option<Map<Seq<char>, ServerView>>, nat),
                ErrorView,
            >((final(config).registry(), n as nat)),
            Err(e) => final(config).registry() == old(config).registry() && import_result(
                path@,
                raw@,
                old(config).registry(),
            ) == Err::<(Option<Map<Seq<char>, ServerView>>, nat), ErrorView>(e@),
        },
{
    match read_zcode_cli_config(path, raw) {
        Ok(root) => {
            let servers = servers_in(&root);
            if servers.is_empty() {
                return Ok(0);
            }
            let mut registry = match config.mcp.servers.take() {
                Some(m) => m,
                None => ServerMap::new(),
            };
            let changed = import_servers(&servers, &mut registry);
            config.mcp.servers = Some(registry);
            Ok(changed)
        },
        Err(e) => Err(e),
    }
}

} // verus!
