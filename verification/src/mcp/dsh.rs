//! The MCP servers of dsh, in `cordis.patch.yml`.
//!
//! A server of the registry is a plugin item there:
//!
//! ```yaml
//! - insert:
//!     - id: mcp-<serverName>
//!       name: '@deepseek-ai/dsh-mcp-client'
//!       config:
//!         serverName: <serverName>
//!         transport: stdio
//!         command: npx
//!         args: ['-y', 'pkg']
//!         env: { KEY: value }
//!         cwd: /path
//! ```
//!
//! An `http` or `sse` server has the transport `streamable-http`, a `url` and
//! `headers`.
//!
//! What the file holds besides is the user's, and stays. A value with a tag, such as
//! `!!js process.env.TOKEN`, is an expression and no text, so a server that has one
//! is not taken into the registry.

use vstd::prelude::*;

use crate::dsh_config::{json_as_yaml, json_to_yaml};
use crate::error::{outcome, AppError, ErrorView};
use crate::mcp::items::{
    client_name, insert_list, inserted, is_client, is_mcp_client_item, remove_managed_items,
    stripped, upsert_managed_item, upserted, Removal, RemovalView,
};
use crate::mcp::parts::{
    full_list, full_mapping, full_text, insert_some, list_part, mapping_part, optional_tree,
    text_part, trimmed_field, trimmed_part, with_some,
};
use crate::mcp::patch::{
    entries_in, entries_well_formed, patch_of, patch_planned, plan_patch, read_patch,
    read_patch_entries, EntryView, Patch, PatchView,
};
use crate::mcp::registry::{
    imported, indexed_servers, news_count, server_views, use_count, values_of, App, McpServer,
    MultiAppConfig, ServerMap, ServerView,
};
use crate::mcp::server_name::{sanitize_server_name, server_name_of};
use crate::mcp::sync_laws::{
    form_comes_back, is_plain_part, is_plain_stdio, is_plain_url, law_remove_server_twice,
    law_stdio_comes_back, law_sync_file_twice, law_sync_server_twice, law_url_comes_back,
    patch_in_step, patch_with, patch_without, registry_sticks, server_leaves, server_sticks,
};
use crate::mcp::validation::{server_fault, server_type, type_of, validate_server_spec};
use crate::plan::{PlanView, WritePlan};
use crate::text::{blank, decimal, glue, is_blank, numeral, text_eq, texts, trim_text, trimmed_text};
use crate::tree::{
    field, is_json, json_shaped, lemma_item_well_formed, lookup, well_formed, with_key, Entries,
    Tree,
};
use crate::value::{items_view, lemma_list_view, lemma_mapping_view, Datum, Table};

verus! {

// ----------------------------------------------------------------------------
// A server in the form of dsh
// ----------------------------------------------------------------------------

/// A plugin item.
pub open spec fn item_of(name: Seq<char>, config: Entries) -> Tree {
    let a = with_key(Seq::empty(), Tree::Text("id"@), Tree::Text("mcp-"@ + name));
    let b = with_key(a, Tree::Text("name"@), Tree::Text(client_name()));
    Tree::Mapping(with_key(b, Tree::Text("config"@), Tree::Mapping(config)))
}

/// What a `stdio` server has under `config`.
pub open spec fn stdio_config(
    name: Seq<char>,
    command: Seq<char>,
    args: Option<Tree>,
    env: Option<Tree>,
    cwd: Option<Tree>,
) -> Entries {
    let a = with_key(Seq::empty(), Tree::Text("serverName"@), Tree::Text(name));
    let b = with_key(a, Tree::Text("transport"@), Tree::Text("stdio"@));
    let c = with_key(b, Tree::Text("command"@), Tree::Text(command));
    let d = with_some(c, "args"@, args);
    let e = with_some(d, "env"@, env);
    with_some(e, "cwd"@, cwd)
}

/// What an `http` or `sse` server has under `config`.
pub open spec fn url_config(name: Seq<char>, url: Seq<char>, headers: Option<Tree>) -> Entries {
    let a = with_key(Seq::empty(), Tree::Text("serverName"@), Tree::Text(name));
    let b = with_key(a, Tree::Text("transport"@), Tree::Text("streamable-http"@));
    let c = with_key(b, Tree::Text("url"@), Tree::Text(url));
    with_some(c, "headers"@, headers)
}

/// A server in the form of dsh, given what its lists and mappings were turned into.
pub open spec fn item_from(
    name: Seq<char>,
    spec: Tree,
    args: Result<Option<Tree>, ErrorView>,
    env: Result<Option<Tree>, ErrorView>,
    headers: Result<Option<Tree>, ErrorView>,
) -> Result<Tree, ErrorView> {
    let t = type_of(spec);
    if !(spec is Mapping) {
        Err(ErrorView::McpValidation("MCP spec must be a JSON object"@))
    } else if t == "stdio"@ {
        match trimmed_field(spec, "command"@) {
            Some(command) => match args {
                Ok(args) => match env {
                    Ok(env) => Ok(
                        item_of(
                            name,
                            stdio_config(name, command, args, env, full_text(spec, "cwd"@)),
                        ),
                    ),
                    Err(e) => Err(e),
                },
                Err(e) => Err(e),
            },
            None => Err(
                ErrorView::McpValidation(
                    "dsh MCP server '"@ + name + "' (stdio) requires a non-empty 'command'"@,
                ),
            ),
        }
    } else if t == "sse"@ || t == "http"@ {
        match trimmed_field(spec, "url"@) {
            Some(url) => match headers {
                Ok(headers) => Ok(item_of(name, url_config(name, url, headers))),
                Err(e) => Err(e),
            },
            None => Err(
                ErrorView::McpValidation(
                    "dsh MCP server '"@ + name + "' (streamable-http) requires a non-empty 'url'"@,
                ),
            ),
        }
    } else {
        Err(ErrorView::McpValidation("Unknown MCP type: "@ + t))
    }
}

/// A part of a server as a YAML document, where there is one.
pub open spec fn part_as_yaml(part: Option<Tree>) -> Result<Option<Tree>, ErrorView> {
    match part {
        Some(t) => match json_as_yaml(t) {
            Ok(y) => Ok(Some(y)),
            Err(e) => Err(e),
        },
        None => Ok(None),
    }
}

/// A server in the form of dsh.
pub open spec fn dsh_form(name: Seq<char>, spec: Tree) -> Result<Tree, ErrorView> {
    item_from(
        name,
        spec,
        part_as_yaml(full_list(spec, "args"@)),
        part_as_yaml(full_mapping(spec, "env"@)),
        part_as_yaml(full_mapping(spec, "headers"@)),
    )
}

/// The content of a part, or of an error.
pub open spec fn part_outcome(r: Result<Option<Datum>, AppError>) -> Result<
    Option<Tree>,
    ErrorView,
> {
    match r {
        Ok(v) => Ok(optional_tree(v)),
        Err(e) => Err(e@),
    }
}

/// A part of a server as a YAML document, where there is one.
fn part_to_yaml(part: Option<Datum>) -> (r: Result<Option<Datum>, AppError>)
    requires
        part matches Some(t) ==> is_json(t@),
    ensures
        part_outcome(r) == part_as_yaml(optional_tree(part)),
        r matches Ok(Some(y)) ==> well_formed(y@),
        is_plain_part(optional_tree(part)) ==> part_as_yaml(optional_tree(part)) == Ok::<
            Option<Tree>,
            ErrorView,
        >(optional_tree(part)),
{
    match part {
        Some(t) => match json_to_yaml(&t) {
            Ok(y) => Ok(Some(y)),
            Err(e) => Err(e),
        },
        None => Ok(None),
    }
}

/// A plugin item.
fn make_item(name: &str, config: Table) -> (r: Datum)
    requires
        well_formed(Tree::Mapping(config@)),
    ensures
        r@ == item_of(name@, config@),
        well_formed(r@),
{
    broadcast use lemma_mapping_view;
    let mut m = Table::new();
    m.insert("id", Datum::Text(glue("mcp-", name)));
    m.insert("name", Datum::text("@deepseek-ai/dsh-mcp-client"));
    m.insert("config", Datum::Mapping(config));
    Datum::Mapping(m)
}

/// A server in the form of dsh, given what its lists and mappings were turned into.
pub fn assemble_item(
    name: &str,
    spec: &Datum,
    args: Result<Option<Datum>, AppError>,
    env: Result<Option<Datum>, AppError>,
    headers: Result<Option<Datum>, AppError>,
) -> (r: Result<Datum, AppError>)
    requires
        is_json(spec@),
        args matches Ok(Some(y)) ==> well_formed(y@),
        env matches Ok(Some(y)) ==> well_formed(y@),
        headers matches Ok(Some(y)) ==> well_formed(y@),
    ensures
        outcome(r) == item_from(
            name@,
            spec@,
            part_outcome(args),
            part_outcome(env),
            part_outcome(headers),
        ),
        r matches Ok(v) ==> well_formed(v@),
{
    broadcast use lemma_mapping_view;
    match spec {
        Datum::Mapping(_) => {},
        _ => {
            return Err(AppError::McpValidation("MCP spec must be a JSON object".to_owned()));
        },
    }
    let t = server_type(spec);
    let mut config = Table::new();
    config.insert("serverName", Datum::text(name));
    if text_eq(t, "stdio") {
        match trimmed_part(spec, "command") {
            Some(command) => {
                config.insert("transport", Datum::text("stdio"));
                config.insert("command", Datum::text(command));
                match args {
                    Ok(args) => insert_some(&mut config, "args", args),
                    Err(e) => {
                        return Err(e);
                    },
                }
                match env {
                    Ok(env) => insert_some(&mut config, "env", env),
                    Err(e) => {
                        return Err(e);
                    },
                }
                insert_some(&mut config, "cwd", text_part(spec, "cwd"));
                Ok(make_item(name, config))
            },
            None => Err(
                AppError::McpValidation(
                    glue(
                        glue("dsh MCP server '", name).as_str(),
                        "' (stdio) requires a non-empty 'command'",
                    ),
                ),
            ),
        }
    } else if text_eq(t, "sse") || text_eq(t, "http") {
        match trimmed_part(spec, "url") {
            Some(url) => {
                config.insert("transport", Datum::text("streamable-http"));
                config.insert("url", Datum::text(url));
                match headers {
                    Ok(headers) => insert_some(&mut config, "headers", headers),
                    Err(e) => {
                        return Err(e);
                    },
                }
                Ok(make_item(name, config))
            },
            None => Err(
                AppError::McpValidation(
                    glue(
                        glue("dsh MCP server '", name).as_str(),
                        "' (streamable-http) requires a non-empty 'url'",
                    ),
                ),
            ),
        }
    } else {
        Err(AppError::McpValidation(glue("Unknown MCP type: ", t)))
    }
}

/// Turns a server into the form of dsh, from which it comes back.
pub fn build_insert_item(server_name: &str, spec: &Datum) -> (r: Result<Datum, AppError>)
    requires
        is_json(spec@),
    ensures
        outcome(r) == dsh_form(server_name@, spec@),
        r matches Ok(v) ==> well_formed(v@),
        form_comes_back(server_name@, spec@),
{
    let args = part_to_yaml(list_part(spec, "args"));
    let env = part_to_yaml(mapping_part(spec, "env"));
    let headers = part_to_yaml(mapping_part(spec, "headers"));
    proof {
        if is_plain_stdio(server_name@, spec@) {
            law_stdio_comes_back(server_name@, spec@);
        }
        if is_plain_url(server_name@, spec@) {
            law_url_comes_back(server_name@, spec@);
        }
    }
    assemble_item(server_name, spec, args, env, headers)
}

// ----------------------------------------------------------------------------
// A server of dsh in the form of the registry
// ----------------------------------------------------------------------------

/// The text that a mapping holds under a name; a tagged one is an expression, and no
/// text.
pub open spec fn plain_field(m: Entries, name: Seq<char>) -> Option<Seq<char>> {
    match lookup(m, Tree::Text(name)) {
        Some(Tree::Text(s)) => Some(s),
        _ => None,
    }
}

/// The text that a mapping holds under a name, trimmed, where it is not blank.
pub open spec fn plain_trimmed(m: Entries, name: Seq<char>) -> Option<Seq<char>> {
    match plain_field(m, name) {
        Some(s) => trimmed_text(s),
        None => None,
    }
}

/// The text that a mapping holds under a name.
fn plain_str<'a>(m: &'a Table, name: &str) -> (r: Option<&'a str>)
    requires
        well_formed(Tree::Mapping(m@)),
    ensures
        match r {
            Some(s) => plain_field(m@, name@) == Some(s@),
            None => plain_field(m@, name@) is None,
        },
{
    match m.get(name) {
        Some(Datum::Text(s)) => Some(s.as_str()),
        _ => None,
    }
}

/// The text that a mapping holds under a name, trimmed, where it is not blank.
fn plain_trim<'a>(m: &'a Table, name: &str) -> (r: Option<&'a str>)
    requires
        well_formed(Tree::Mapping(m@)),
    ensures
        match r {
            Some(s) => plain_trimmed(m@, name@) == Some(s@),
            None => plain_trimmed(m@, name@) is None,
        },
{
    match plain_str(m, name) {
        Some(s) => trim_text(s),
        None => None,
    }
}

/// How an error begins that is about a field of a server.
pub open spec fn about(server: Seq<char>, field: Seq<char>) -> Seq<char> {
    "dsh MCP server '"@ + server + "': '"@ + field
}

/// How an error begins that is about a field of a server.
fn begin_error(server: &str, field: &str) -> (r: String)
    ensures
        r@ == about(server@, field@),
{
    glue(glue(glue("dsh MCP server '", server).as_str(), "': '").as_str(), field)
}

/// The first fault of a mapping that must hold texts under texts, from position `i`
/// on.
pub open spec fn map_fault(m: Entries, server: Seq<char>, field: Seq<char>, i: nat) -> Option<
    ErrorView,
>
    decreases m.len() - i,
{
    if i >= m.len() {
        None
    } else {
        match m[i as int] {
            (Tree::Text(_), Tree::Text(_)) => map_fault(m, server, field, i + 1),
            (Tree::Text(key), _) => Some(
                ErrorView::McpValidation(
                    about(server, field) + "."@ + key
                        + "' is not a plain string (possibly a !!js expression)"@,
                ),
            ),
            _ => Some(
                ErrorView::McpValidation(about(server, field) + "' has a non-string key"@),
            ),
        }
    }
}

/// A mapping of texts, under a name; nothing where it is empty.
pub open spec fn text_map(config: Entries, server: Seq<char>, name: Seq<char>) -> Result<
    Option<Tree>,
    ErrorView,
> {
    match lookup(config, Tree::Text(name)) {
        Some(Tree::Mapping(m)) => match map_fault(m, server, name, 0) {
            Some(e) => Err(e),
            None => Ok(
                if m.len() > 0 {
                    Some(Tree::Mapping(m))
                } else {
                    None
                },
            ),
        },
        Some(_) => Err(ErrorView::McpValidation(about(server, name) + "' must be a mapping"@)),
        None => Ok(None),
    }
}

/// The first fault of a list that must hold texts, from position `i` on.
pub open spec fn list_fault(x: Seq<Tree>, server: Seq<char>, field: Seq<char>, i: nat) -> Option<
    ErrorView,
>
    decreases x.len() - i,
{
    if i >= x.len() {
        None
    } else if x[i as int] is Text {
        list_fault(x, server, field, i + 1)
    } else {
        Some(
            ErrorView::McpValidation(
                about(server, field) + "["@ + decimal(i) + "]' is not a plain string"@,
            ),
        )
    }
}

/// A list of texts, under a name; nothing where it is empty.
pub open spec fn text_list(config: Entries, server: Seq<char>, name: Seq<char>) -> Result<
    Option<Tree>,
    ErrorView,
> {
    match lookup(config, Tree::Text(name)) {
        Some(Tree::List(x)) => match list_fault(x, server, name, 0) {
            Some(e) => Err(e),
            None => Ok(
                if x.len() > 0 {
                    Some(Tree::List(x))
                } else {
                    None
                },
            ),
        },
        Some(_) => Err(ErrorView::McpValidation(about(server, name) + "' must be a list"@)),
        None => Ok(None),
    }
}

/// A text under a name; nothing where it is blank.
pub open spec fn text_value(config: Entries, server: Seq<char>, name: Seq<char>) -> Result<
    Option<Tree>,
    ErrorView,
> {
    match lookup(config, Tree::Text(name)) {
        Some(Tree::Text(s)) => Ok(
            if is_blank(s) {
                None
            } else {
                Some(Tree::Text(s))
            },
        ),
        Some(_) => Err(
            ErrorView::McpValidation(
                about(server, name) + "' is not a plain string (possibly a !!js expression)"@,
            ),
        ),
        None => Ok(None),
    }
}

/// A `stdio` server in the form of the registry.
pub open spec fn unified_stdio(
    command: Seq<char>,
    args: Option<Tree>,
    env: Option<Tree>,
    cwd: Option<Tree>,
) -> Tree {
    let a = with_key(Seq::empty(), Tree::Text("type"@), Tree::Text("stdio"@));
    let b = with_key(a, Tree::Text("command"@), Tree::Text(command));
    let c = with_some(b, "args"@, args);
    let d = with_some(c, "env"@, env);
    Tree::Mapping(with_some(d, "cwd"@, cwd))
}

/// An `http` server in the form of the registry.
pub open spec fn unified_url(url: Seq<char>, headers: Option<Tree>) -> Tree {
    let a = with_key(Seq::empty(), Tree::Text("type"@), Tree::Text("http"@));
    let b = with_key(a, Tree::Text("url"@), Tree::Text(url));
    Tree::Mapping(with_some(b, "headers"@, headers))
}

/// A server of dsh in the form of the registry, given what it has under `config`.
pub open spec fn unified_config(config: Entries, server: Seq<char>) -> Result<Tree, ErrorView> {
    let transport = match plain_field(config, "transport"@) {
        Some(s) => s,
        None => ""@,
    };
    if transport == "stdio"@ {
        match plain_trimmed(config, "command"@) {
            Some(command) => match text_list(config, server, "args"@) {
                Ok(args) => match text_map(config, server, "env"@) {
                    Ok(env) => match text_value(config, server, "cwd"@) {
                        Ok(cwd) => Ok(unified_stdio(command, args, env, cwd)),
                        Err(e) => Err(e),
                    },
                    Err(e) => Err(e),
                },
                Err(e) => Err(e),
            },
            None => Err(
                ErrorView::McpValidation(
                    "dsh MCP server '"@ + server + "' (stdio) is missing 'command'"@,
                ),
            ),
        }
    } else if transport == "streamable-http"@ {
        match plain_trimmed(config, "url"@) {
            Some(url) => match text_map(config, server, "headers"@) {
                Ok(headers) => Ok(unified_url(url, headers)),
                Err(e) => Err(e),
            },
            None => Err(
                ErrorView::McpValidation(
                    "dsh MCP server '"@ + server + "' (streamable-http) is missing 'url'"@,
                ),
            ),
        }
    } else {
        Err(
            ErrorView::McpValidation(
                "dsh MCP server '"@ + server + "' has unknown transport '"@ + transport + "'"@,
            ),
        )
    }
}

/// A server of dsh in the form of the registry, with its server name.
pub open spec fn unified_item(item: Tree) -> Result<(Seq<char>, Tree), ErrorView> {
    match field(item, "config"@) {
        Some(Tree::Mapping(config)) => match plain_trimmed(config, "serverName"@) {
            Some(server) => match unified_config(config, server) {
                Ok(spec) => Ok((server, spec)),
                Err(e) => Err(e),
            },
            None => Err(
                ErrorView::McpValidation(
                    "dsh MCP client entry is missing a valid 'config.serverName'"@,
                ),
            ),
        },
        _ => Err(
            ErrorView::McpValidation("dsh MCP client entry is missing a 'config' mapping"@),
        ),
    }
}

/// A mapping of texts, under a name.
fn yaml_str_map(config: &Table, field: &str, server_name: &str) -> (r: Result<
    Option<Datum>,
    AppError,
>)
    requires
        well_formed(Tree::Mapping(config@)),
    ensures
        part_outcome(r) == text_map(config@, server_name@, field@),
        r matches Ok(Some(v)) ==> is_json(v@),
{
    broadcast use lemma_mapping_view;
    match config.get(field) {
        Some(Datum::Mapping(m)) => {
            let mut i: usize = 0;
            while i < m.entries.len()
                invariant
                    i <= m.entries@.len(),
                    well_formed(Tree::Mapping(m@)),
                    map_fault(m@, server_name@, field@, 0) == map_fault(
                        m@,
                        server_name@,
                        field@,
                        i as nat,
                    ),
                    lookup(config@, Tree::Text(field@)) == Some(Tree::Mapping(m@)),
                    forall|j: int| 0 <= j < i ==> (#[trigger] m@[j]).0 is Text && m@[j].1 is Text,
                decreases m.entries@.len() - i,
            {
                assert(m@[i as int] == (m.entries@[i as int].0@, m.entries@[i as int].1@));
                match &m.entries[i].0 {
                    Datum::Text(key) => match &m.entries[i].1 {
                        Datum::Text(_) => {},
                        _ => {
                            assert(!(m@[i as int].1 is Text));
                            return Err(
                                AppError::McpValidation(
                                    glue(
                                        glue(
                                            glue(
                                                begin_error(server_name, field).as_str(),
                                                ".",
                                            ).as_str(),
                                            key.as_str(),
                                        ).as_str(),
                                        "' is not a plain string (possibly a !!js expression)",
                                    ),
                                ),
                            );
                        },
                    },
                    _ => {
                        assert(!(m@[i as int].0 is Text));
                        return Err(
                            AppError::McpValidation(
                                glue(
                                    begin_error(server_name, field).as_str(),
                                    "' has a non-string key",
                                ),
                            ),
                        );
                    },
                }
                i += 1;
            }
            if m.len() > 0 {
                proof {
                    let t = Tree::Mapping(m@);
                    reveal_with_fuel(json_shaped, 2);
                    assert(t->Mapping_0 == m@);
                    assert(json_shaped(t));
                }
                Ok(Some(Datum::Mapping(m.clone())))
            } else {
                Ok(None)
            }
        },
        Some(_) => Err(
            AppError::McpValidation(
                glue(begin_error(server_name, field).as_str(), "' must be a mapping"),
            ),
        ),
        None => Ok(None),
    }
}

/// A list of texts, under a name.
fn yaml_str_seq(config: &Table, field: &str, server_name: &str) -> (r: Result<
    Option<Datum>,
    AppError,
>)
    requires
        well_formed(Tree::Mapping(config@)),
    ensures
        part_outcome(r) == text_list(config@, server_name@, field@),
        r matches Ok(Some(v)) ==> is_json(v@),
{
    broadcast use lemma_list_view;
    match config.get(field) {
        Some(list) => match list {
            Datum::List(x) => {
                let ghost all = items_view(x@);
                let mut i: usize = 0;
                while i < x.len()
                    invariant
                        i <= x@.len(),
                        all == items_view(x@),
                        list_fault(all, server_name@, field@, 0) == list_fault(
                            all,
                            server_name@,
                            field@,
                            i as nat,
                        ),
                        lookup(config@, Tree::Text(field@)) == Some(Tree::List(all)),
                        forall|j: int| 0 <= j < i ==> (#[trigger] all[j]) is Text,
                    decreases x@.len() - i,
                {
                    assert(all[i as int] == x@[i as int]@);
                    match &x[i] {
                        Datum::Text(_) => {},
                        _ => {
                            assert(!(all[i as int] is Text));
                            return Err(
                                AppError::McpValidation(
                                    glue(
                                        glue(
                                            glue(
                                                begin_error(server_name, field).as_str(),
                                                "[",
                                            ).as_str(),
                                            numeral(i as u64).as_str(),
                                        ).as_str(),
                                        "]' is not a plain string",
                                    ),
                                ),
                            );
                        },
                    }
                    i += 1;
                }
                if x.len() > 0 {
                    proof {
                        let t = Tree::List(all);
                        reveal_with_fuel(json_shaped, 2);
                        assert(t->List_0 == all);
                        assert(json_shaped(t));
                    }
                    Ok(Some(list.clone()))
                } else {
                    Ok(None)
                }
            },
            _ => Err(
                AppError::McpValidation(
                    glue(begin_error(server_name, field).as_str(), "' must be a list"),
                ),
            ),
        },
        None => Ok(None),
    }
}

/// A text under a name.
fn yaml_str_value(config: &Table, field: &str, server_name: &str) -> (r: Result<
    Option<Datum>,
    AppError,
>)
    requires
        well_formed(Tree::Mapping(config@)),
    ensures
        part_outcome(r) == text_value(config@, server_name@, field@),
        r matches Ok(Some(v)) ==> is_json(v@),
{
    match config.get(field) {
        Some(Datum::Text(s)) => if blank(s.as_str()) {
            Ok(None)
        } else {
            Ok(Some(Datum::text(s.as_str())))
        },
        Some(_) => Err(
            AppError::McpValidation(
                glue(
                    begin_error(server_name, field).as_str(),
                    "' is not a plain string (possibly a !!js expression)",
                ),
            ),
        ),
        None => Ok(None),
    }
}

/// Turns what a server of dsh has under `config` into the form of the registry.
fn convert_config(config: &Table, server_name: &str) -> (r: Result<Datum, AppError>)
    requires
        well_formed(Tree::Mapping(config@)),
    ensures
        outcome(r) == unified_config(config@, server_name@),
        r matches Ok(v) ==> is_json(v@),
{
    broadcast use lemma_mapping_view;
    let transport = match plain_str(config, "transport") {
        Some(s) => s,
        None => "",
    };
    let mut spec = Table::new();
    if text_eq(transport, "stdio") {
        match plain_trim(config, "command") {
            Some(command) => {
                spec.insert("type", Datum::text("stdio"));
                spec.insert("command", Datum::text(command));
                match yaml_str_seq(config, "args", server_name) {
                    Ok(args) => insert_some(&mut spec, "args", args),
                    Err(e) => {
                        return Err(e);
                    },
                }
                match yaml_str_map(config, "env", server_name) {
                    Ok(env) => insert_some(&mut spec, "env", env),
                    Err(e) => {
                        return Err(e);
                    },
                }
                match yaml_str_value(config, "cwd", server_name) {
                    Ok(cwd) => insert_some(&mut spec, "cwd", cwd),
                    Err(e) => {
                        return Err(e);
                    },
                }
                Ok(Datum::Mapping(spec))
            },
            None => Err(
                AppError::McpValidation(
                    glue(
                        glue("dsh MCP server '", server_name).as_str(),
                        "' (stdio) is missing 'command'",
                    ),
                ),
            ),
        }
    } else if text_eq(transport, "streamable-http") {
        match plain_trim(config, "url") {
            Some(url) => {
                spec.insert("type", Datum::text("http"));
                spec.insert("url", Datum::text(url));
                match yaml_str_map(config, "headers", server_name) {
                    Ok(headers) => insert_some(&mut spec, "headers", headers),
                    Err(e) => {
                        return Err(e);
                    },
                }
                Ok(Datum::Mapping(spec))
            },
            None => Err(
                AppError::McpValidation(
                    glue(
                        glue("dsh MCP server '", server_name).as_str(),
                        "' (streamable-http) is missing 'url'",
                    ),
                ),
            ),
        }
    } else {
        Err(
            AppError::McpValidation(
                glue(
                    glue(
                        glue(
                            glue("dsh MCP server '", server_name).as_str(),
                            "' has unknown transport '",
                        ).as_str(),
                        transport,
                    ).as_str(),
                    "'",
                ),
            ),
        )
    }
}

/// Turns a server of dsh into the form of the registry, with its server name.
pub fn convert_from_dsh_item(item: &Datum) -> (r: Result<(String, Datum), AppError>)
    requires
        well_formed(item@),
    ensures
        unified_item(item@) == (match r {
            Ok(x) => Ok((x.0@, x.1@)),
            Err(e) => Err(e@),
        }),
        r matches Ok(x) ==> is_json(x.1@),
{
    broadcast use lemma_mapping_view;
    match item.get("config") {
        Some(Datum::Mapping(config)) => match plain_trim(config, "serverName") {
            Some(server_name) => match convert_config(config, server_name) {
                Ok(spec) => Ok((server_name.to_owned(), spec)),
                Err(e) => Err(e),
            },
            None => Err(
                AppError::McpValidation(
                    "dsh MCP client entry is missing a valid 'config.serverName'".to_owned(),
                ),
            ),
        },
        _ => Err(
            AppError::McpValidation(
                "dsh MCP client entry is missing a 'config' mapping".to_owned(),
            ),
        ),
    }
}

// ----------------------------------------------------------------------------
// Servers of the registry to the file
// ----------------------------------------------------------------------------

/// What is to be done to `cordis.patch.yml` so that it holds a server. `raw` is the
/// text of the file, where there is one.
pub open spec fn server_synced(
    installed: bool,
    raw: Option<Seq<char>>,
    id: Seq<char>,
    spec: Tree,
) -> Result<PlanView, ErrorView> {
    if !installed {
        Ok(PlanView::Keep)
    } else {
        match dsh_form(server_name_of(id), spec) {
            Ok(item) => match patch_in(raw) {
                Ok(p) => patch_planned(
                    raw,
                    PatchView { head: p.head, entries: upserted(p.entries, item) },
                ),
                Err(e) => Err(e),
            },
            Err(e) => Err(e),
        }
    }
}

/// The file; one that is not there has no entries.
pub open spec fn patch_in(raw: Option<Seq<char>>) -> Result<PatchView, ErrorView> {
    match raw {
        Some(text) => patch_of(text),
        None => Ok(PatchView { head: Seq::empty(), entries: Seq::empty() }),
    }
}

/// The content of a text, where there is one.
pub open spec fn optional_str(s: Option<&str>) -> Option<Seq<char>> {
    match s {
        Some(s) => Some(s@),
        None => None,
    }
}

/// Reads the file.
fn read_file(raw: Option<&str>) -> (r: Result<Patch, AppError>)
    ensures
        outcome(r) == patch_in(optional_str(raw)),
        r matches Ok(p) ==> entries_well_formed(p@.entries),
{
    match raw {
        Some(text) => read_patch(text),
        None => {
            let p = Patch { head: String::new(), entries: Vec::new() };
            assert(p@.head =~= Seq::<char>::empty());
            assert(p@.entries =~= Seq::<EntryView>::empty());
            Ok(p)
        },
    }
}

/// Writes a server to `cordis.patch.yml`, where dsh is installed.
pub fn sync_single_server_to_dsh(
    installed: bool,
    raw: Option<&str>,
    id: &str,
    server_spec: &Datum,
) -> (r: Result<WritePlan, AppError>)
    requires
        is_json(server_spec@),
    ensures
        outcome(r) == server_synced(installed, optional_str(raw), id@, server_spec@),
        installed ==> server_sticks(optional_str(raw), id@, server_spec@),
{
    if !installed {
        return Ok(WritePlan::Keep);
    }
    let server_name = sanitize_server_name(id);
    match build_insert_item(server_name.as_str(), server_spec) {
        Ok(item) => match read_file(raw) {
            Ok(mut patch) => {
                let ghost before = patch@;
                let ghost new = item@;
                upsert_managed_item(&mut patch, item);
                let r = plan_patch(raw, &patch);
                proof {
                    assert(patch@ == patch_with(before, new));
                    law_sync_server_twice(optional_str(raw), id@, server_spec@, before);
                }
                r
            },
            Err(e) => Err(e),
        },
        Err(e) => Err(e),
    }
}

/// The MCP servers that stand for a server of the registry.
pub open spec fn removal_of(id: Seq<char>) -> RemovalView {
    RemovalView::Server { id: "mcp-"@ + server_name_of(id), name: server_name_of(id) }
}

/// What is to be done to `cordis.patch.yml` so that it holds a server no more.
pub open spec fn server_removed(installed: bool, raw: Option<Seq<char>>, id: Seq<char>) -> Result<
    PlanView,
    ErrorView,
> {
    if !installed {
        Ok(PlanView::Keep)
    } else {
        match patch_in(raw) {
            Ok(p) => if p.entries.len() == 0 {
                Ok(PlanView::Keep)
            } else {
                patch_planned(
                    raw,
                    PatchView { head: p.head, entries: stripped(removal_of(id), p.entries) },
                )
            },
            Err(e) => Err(e),
        }
    }
}

/// Removes a server from `cordis.patch.yml`, where dsh is installed.
pub fn remove_server_from_dsh(installed: bool, raw: Option<&str>, id: &str) -> (r: Result<
    WritePlan,
    AppError,
>)
    ensures
        outcome(r) == server_removed(installed, optional_str(raw), id@),
        installed ==> server_leaves(optional_str(raw), id@),
{
    if !installed {
        return Ok(WritePlan::Keep);
    }
    let server_name = sanitize_server_name(id);
    let removal = Removal::Server { id: glue("mcp-", server_name.as_str()), name: server_name };
    match read_file(raw) {
        Ok(patch) => if patch.entries.len() == 0 {
            proof {
                law_remove_server_twice(optional_str(raw), id@, patch@);
            }
            Ok(WritePlan::Keep)
        } else {
            let ghost before = patch@;
            let patch = remove_managed_items(patch, &removal);
            let r = plan_patch(raw, &patch);
            proof {
                assert(patch@ == patch_without(before, id@));
                law_remove_server_twice(optional_str(raw), id@, before);
            }
            r
        },
        Err(e) => Err(e),
    }
}

/// The server names of the first `n` servers, as far as dsh uses them.
pub open spec fn target_names(list: Seq<ServerView>, n: nat) -> Seq<Seq<char>>
    decreases n,
{
    if n == 0 || n > list.len() {
        Seq::empty()
    } else {
        let before = target_names(list, (n - 1) as nat);
        if list[n - 1].apps.dsh {
            before.push(server_name_of(list[n - 1].id))
        } else {
            before
        }
    }
}

/// Entries with the first `n` servers written, as far as dsh uses them.
pub open spec fn rebuilt(entries: Seq<EntryView>, list: Seq<ServerView>, n: nat) -> Result<
    Seq<EntryView>,
    ErrorView,
>
    decreases n,
{
    if n == 0 || n > list.len() {
        Ok(entries)
    } else {
        match rebuilt(entries, list, (n - 1) as nat) {
            Ok(before) => {
                let server = list[n - 1];
                if server.apps.dsh {
                    match dsh_form(server_name_of(server.id), server.server) {
                        Ok(item) => Ok(upserted(before, item)),
                        Err(e) => Err(e),
                    }
                } else {
                    Ok(before)
                }
            },
            Err(e) => Err(e),
        }
    }
}

/// What is to be done to `cordis.patch.yml` so that it is in step with the registry.
pub open spec fn servers_synced(
    installed: bool,
    raw: Option<Seq<char>>,
    list: Seq<ServerView>,
) -> Result<PlanView, ErrorView> {
    if !installed {
        Ok(PlanView::Keep)
    } else {
        match patch_in(raw) {
            Ok(p) => {
                let removal = RemovalView::Managed { names: target_names(list, list.len()) };
                match rebuilt(stripped(removal, p.entries), list, list.len()) {
                    Ok(entries) => patch_planned(raw, PatchView { head: p.head, entries }),
                    Err(e) => Err(e),
                }
            },
            Err(e) => Err(e),
        }
    }
}

/// Where the first `n` servers fail, more of them fail in the same way.
proof fn lemma_rebuilt_err(entries: Seq<EntryView>, list: Seq<ServerView>, n: nat, m: nat)
    requires
        n <= m <= list.len(),
        rebuilt(entries, list, n) is Err,
    ensures
        rebuilt(entries, list, m) == rebuilt(entries, list, n),
    decreases m,
{
    if n < m {
        lemma_rebuilt_err(entries, list, n, (m - 1) as nat);
    }
}

/// The server names of the servers that dsh uses.
fn name_targets(list: &Vec<&McpServer>) -> (r: Vec<String>)
    ensures
        texts(r@) == target_names(server_views(list@), list@.len()),
{
    let ghost views = server_views(list@);
    let mut names: Vec<String> = Vec::new();
    let mut i: usize = 0;
    assert(texts(names@) =~= target_names(views, 0));
    while i < list.len()
        invariant
            i <= list@.len(),
            views == server_views(list@),
            texts(names@) == target_names(views, i as nat),
        decreases list@.len() - i,
    {
        let server = list[i];
        let ghost before = texts(names@);
        assert(views[i as int] == server@);
        if server.apps.dsh {
            let name = sanitize_server_name(server.id.as_str());
            names.push(name);
            assert(texts(names@) =~= before.push(server_name_of(server@.id)));
        }
        i += 1;
    }
    names
}

/// Writes the servers that dsh uses.
fn rebuild(patch: &mut Patch, list: &Vec<&McpServer>) -> (r: Result<(), AppError>)
    requires
        entries_well_formed(old(patch)@.entries),
    ensures
        match r {
            Ok(_) => final(patch)@.head == old(patch)@.head && rebuilt(
                old(patch)@.entries,
                server_views(list@),
                list@.len(),
            ) == Ok::<Seq<EntryView>, ErrorView>(final(patch)@.entries),
            Err(e) => rebuilt(old(patch)@.entries, server_views(list@), list@.len()) == Err::<
                Seq<EntryView>,
                ErrorView,
            >(e@),
        },
        entries_well_formed(final(patch)@.entries),
{
    let ghost views = server_views(list@);
    let ghost start = patch@.entries;
    let mut i: usize = 0;
    while i < list.len()
        invariant
            i <= list@.len(),
            views == server_views(list@),
            start == old(patch)@.entries,
            patch@.head == old(patch)@.head,
            rebuilt(start, views, i as nat) == Ok::<Seq<EntryView>, ErrorView>(patch@.entries),
            entries_well_formed(patch@.entries),
        decreases list@.len() - i,
    {
        let server = list[i];
        assert(views[i as int] == server@);
        if server.apps.dsh {
            let name = sanitize_server_name(server.id.as_str());
            match build_insert_item(name.as_str(), server.server.get()) {
                Ok(item) => upsert_managed_item(patch, item),
                Err(e) => {
                    proof {
                        lemma_rebuilt_err(start, views, (i + 1) as nat, views.len());
                    }
                    return Err(e);
                },
            }
        }
        i += 1;
    }
    Ok(())
}

/// Brings `cordis.patch.yml` in step with a list of servers.
pub fn sync_servers_to_dsh(installed: bool, raw: Option<&str>, list: &Vec<&McpServer>) -> (r: Result<
    WritePlan,
    AppError,
>)
    ensures
        outcome(r) == servers_synced(installed, optional_str(raw), server_views(list@)),
        installed ==> registry_sticks(optional_str(raw), server_views(list@)),
{
    if !installed {
        return Ok(WritePlan::Keep);
    }
    let removal = Removal::Managed { names: name_targets(list) };
    match read_file(raw) {
        Ok(patch) => {
            let ghost before = patch@;
            let mut patch = remove_managed_items(patch, &removal);
            match rebuild(&mut patch, list) {
                Ok(_) => {
                    let r = plan_patch(raw, &patch);
                    proof {
                        let views = server_views(list@);
                        assert(patch_in_step(before, views) == Ok::<PatchView, ErrorView>(patch@));
                        law_sync_file_twice(optional_str(raw), views, before);
                    }
                    r
                },
                Err(e) => Err(e),
            }
        },
        Err(e) => Err(e),
    }
}

/// Brings `cordis.patch.yml` in step with the registry. The MCP servers whose id
/// begins with `mcp-`, and those with the name of a server that dsh uses, are
/// removed; then the servers that dsh uses are written.
pub fn sync_enabled_to_dsh(
    installed: bool,
    raw: Option<&str>,
    servers: &indexmap::IndexMap<String, McpServer>,
) -> (r: Result<WritePlan, AppError>)
    ensures
        outcome(r) == servers_synced(installed, optional_str(raw), indexed_servers(*servers)),
        installed ==> registry_sticks(optional_str(raw), indexed_servers(*servers)),
{
    let list = values_of(servers);
    sync_servers_to_dsh(installed, raw, &list)
}

// ----------------------------------------------------------------------------
// Servers of the file to the registry
// ----------------------------------------------------------------------------

/// The server of an item, with its server name for an id; nothing where the item is
/// no MCP server or is not usable.
pub open spec fn usable(item: Tree) -> Option<(Seq<char>, Tree)> {
    if is_client(item) {
        match unified_item(item) {
            Ok(x) => if server_fault(x.1) is None {
                Some(x)
            } else {
                None
            },
            Err(_) => None,
        }
    } else {
        None
    }
}

/// The usable servers among the first `n` items of an entry.
pub open spec fn found_items(items: Seq<Tree>, n: nat) -> Seq<(Seq<char>, Tree)>
    decreases n,
{
    if n == 0 || n > items.len() {
        Seq::empty()
    } else {
        match usable(items[n - 1]) {
            Some(x) => found_items(items, (n - 1) as nat).push(x),
            None => found_items(items, (n - 1) as nat),
        }
    }
}

/// The usable servers of an entry.
pub open spec fn found_in(entry: Tree) -> Seq<(Seq<char>, Tree)> {
    match inserted(entry) {
        Some(items) => found_items(items, items.len()),
        None => Seq::empty(),
    }
}

/// The usable servers of the first `n` entries of the file.
pub open spec fn found(entries: Seq<Tree>, n: nat) -> Seq<(Seq<char>, Tree)>
    decreases n,
{
    if n == 0 || n > entries.len() {
        Seq::empty()
    } else {
        found(entries, (n - 1) as nat) + found_in(entries[n - 1])
    }
}

/// The server of an item.
pub fn use_item(item: &Datum) -> (r: Option<(String, Datum)>)
    requires
        well_formed(item@),
    ensures
        usable(item@) == (match r {
            Some(x) => Some((x.0@, x.1@)),
            None => None,
        }),
        r matches Some(x) ==> is_json(x.1@),
{
    if !is_mcp_client_item(item) {
        return None;
    }
    match convert_from_dsh_item(item) {
        Ok((id, spec)) => match validate_server_spec(&spec) {
            Ok(_) => Some((id, spec)),
            Err(_) => None,
        },
        Err(_) => None,
    }
}

/// Takes the servers of an entry into the registry. `changed` counts how often that
/// is news.
fn import_entry(
    entry: &Datum,
    registry: &mut ServerMap,
    changed: usize,
    start: Ghost<Map<Seq<char>, ServerView>>,
    before: Ghost<Seq<(Seq<char>, Tree)>>,
) -> (r: usize)
    requires
        well_formed(entry@),
        old(registry).wf(),
        old(registry)@ == imported(start@, before@, App::Dsh),
        changed == news_count(start@, before@, App::Dsh),
        changed <= use_count(old(registry).entries@, App::Dsh),
    ensures
        final(registry).wf(),
        final(registry)@ == imported(start@, before@ + found_in(entry@), App::Dsh),
        r == news_count(start@, before@ + found_in(entry@), App::Dsh),
        r <= use_count(final(registry).entries@, App::Dsh),
{
    let mut changed = changed;
    match insert_list(entry) {
        Some(items) => {
            let ghost all = items_view(items@);
            let mut i: usize = 0;
            assert(before@ + found_items(all, 0) =~= before@);
            while i < items.len()
                invariant
                    i <= items@.len(),
                    all == items_view(items@),
                    well_formed(Tree::List(all)),
                    registry.wf(),
                    registry@ == imported(start@, before@ + found_items(all, i as nat), App::Dsh),
                    changed == news_count(start@, before@ + found_items(all, i as nat), App::Dsh),
                    changed <= use_count(registry.entries@, App::Dsh),
                decreases items@.len() - i,
            {
                let ghost list = before@ + found_items(all, i as nat);
                proof {
                    lemma_item_well_formed(all, i as int);
                    assert(all[i as int] == items@[i as int]@);
                }
                if let Some((id, spec)) = use_item(&items[i]) {
                    let ghost x = (id@, spec@);
                    let news = registry.register(id.as_str(), spec, App::Dsh);
                    proof {
                        assert(list.push(x).drop_last() =~= list);
                        assert(before@ + found_items(all, (i + 1) as nat) =~= list.push(x));
                        registry.lemma_use_count(App::Dsh);
                        assert(registry.entries.len() == registry.entries@.len());
                    }
                    if news {
                        changed += 1;
                    }
                }
                i += 1;
            }
            changed
        },
        None => {
            assert(before@ + found_in(entry@) =~= before@);
            changed
        },
    }
}

/// Takes the servers of the file into the registry. Returns how often that is news.
pub fn import_entries(entries: &Vec<Datum>, registry: &mut ServerMap) -> (r: usize)
    requires
        well_formed(Tree::List(items_view(entries@))),
        old(registry).wf(),
    ensures
        final(registry).wf(),
        final(registry)@ == imported(
            old(registry)@,
            found(items_view(entries@), entries@.len()),
            App::Dsh,
        ),
        r == news_count(
            old(registry)@,
            found(items_view(entries@), entries@.len()),
            App::Dsh,
        ),
{
    let ghost start = registry@;
    let ghost all = items_view(entries@);
    let mut changed: usize = 0;
    let mut i: usize = 0;
    while i < entries.len()
        invariant
            i <= entries@.len(),
            all == items_view(entries@),
            well_formed(Tree::List(all)),
            registry.wf(),
            registry@ == imported(start, found(all, i as nat), App::Dsh),
            changed == news_count(start, found(all, i as nat), App::Dsh),
            changed <= use_count(registry.entries@, App::Dsh),
        decreases entries@.len() - i,
    {
        let ghost before = found(all, i as nat);
        proof {
            lemma_item_well_formed(all, i as int);
            assert(all[i as int] == entries@[i as int]@);
        }
        changed = import_entry(&entries[i], registry, changed, Ghost(start), Ghost(before));
        i += 1;
    }
    changed
}

/// The registry after an import from `cordis.patch.yml`.
pub open spec fn import_result(
    raw: Option<Seq<char>>,
    registry: Option<Map<Seq<char>, ServerView>>,
) -> Result<(Option<Map<Seq<char>, ServerView>>, nat), ErrorView> {
    match raw {
        Some(text) => match entries_in(text) {
            Ok(entries) => if entries.len() == 0 {
                Ok((registry, 0))
            } else {
                let start = match registry {
                    Some(m) => m,
                    None => Map::empty(),
                };
                let list = found(entries, entries.len());
                Ok((Some(imported(start, list, App::Dsh)), news_count(start, list, App::Dsh)))
            },
            Err(e) => Err(e),
        },
        None => Ok((registry, 0)),
    }
}

/// Takes the servers of `cordis.patch.yml` into the registry, those too that the
/// registry did not write. A server that the registry has already is only marked as
/// used by dsh. Returns how many servers were added or marked.
pub fn import_from_dsh(raw: Option<&str>, config: &mut MultiAppConfig) -> (r: Result<
    usize,
    AppError,
>)
    requires
        old(config).wf(),
    ensures
        final(config).wf(),
        match r {
            Ok(n) => import_result(optional_str(raw), old(config).registry()) == Ok::<
                (Option<Map<Seq<char>, ServerView>>, nat),
                ErrorView,
            >((final(config).registry(), n as nat)),
            Err(e) => final(config).registry() == old(config).registry() && import_result(
                optional_str(raw),
                old(config).registry(),
            ) == Err::<(Option<Map<Seq<char>, ServerView>>, nat), ErrorView>(e@),
        },
{
    match raw {
        Some(text) => match read_patch_entries(text) {
            Ok(entries) => {
                if entries.len() == 0 {
                    return Ok(0);
                }
                let mut registry = match config.mcp.servers.take() {
                    Some(m) => m,
                    None => ServerMap::new(),
                };
                let changed = import_entries(&entries, &mut registry);
                config.mcp.servers = Some(registry);
                Ok(changed)
            },
            Err(e) => Err(e),
        },
        None => Ok(0),
    }
}

} // verus!
