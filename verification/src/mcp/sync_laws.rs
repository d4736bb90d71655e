//! What holds of the traffic between the registry and `cordis.patch.yml`.

use vstd::prelude::*;

use crate::error::ErrorView;
use crate::mcp::dsh::{
    dsh_form, item_of, list_fault, map_fault, part_as_yaml, patch_in, rebuilt, removal_of,
    server_removed, server_synced, servers_synced, stdio_config, target_names, unified_config,
    unified_stdio, unified_url, url_config, usable,
};
use crate::mcp::dsh_laws::{
    holds_item, is_clear, law_foreign_entry_stays, law_remove_twice, law_removed_gone,
    law_write_present, law_written, lemma_clear_same, lemma_first_slot_in, lemma_first_slot_of,
    lemma_holds_same, lemma_inserted_same, lemma_inserted_well_formed, lemma_item_same,
    lemma_new_entry, lemma_no_slot_in, lemma_slot_in, lemma_slot_of, lemma_stripped_well_formed,
    lemma_upserted_well_formed, lemma_with_items, same_values,
};
use crate::mcp::items::{
    client_name, concerns, entry_slot, id_of, inserted, is_client, is_slot, new_entry, server_of,
    slot_of, spared, stripped, stripped_entry, upserted, with_item, RemovalView,
};
use crate::mcp::parts::{
    full_list, full_mapping, full_text, lemma_with_some, trimmed_field, with_some,
};
use crate::mcp::patch::{
    entries_in, entries_well_formed, located, patch_of, patch_planned, patch_text, reads_as,
    settles, text_holds, values_of, EntryView, PatchView,
};
use crate::mcp::registry::ServerView;
use crate::mcp::server_name::server_name_of;
use crate::mcp::validation::{server_fault, type_of};
use crate::plan::{left_by, PlanView};
use crate::text::{begins_with, lemma_blank, lemma_trimmed_twice, trimmed_text};
use crate::tree::{
    distinct_keys, field, is_flow, key_at, lemma_index_of, lemma_item_well_formed,
    lemma_same_reflexive, lemma_same_symmetric, lemma_same_text, lemma_with_key, lookup, refilled,
    relisted, same, text_field, untagged, well_formed, with_key, Entries, Tree,
};

verus! {

/// The names under `config` differ from each other.
proof fn lemma_config_names()
    ensures
        "serverName"@ != "transport"@,
        "serverName"@ != "command"@,
        "serverName"@ != "args"@,
        "serverName"@ != "env"@,
        "serverName"@ != "cwd"@,
        "serverName"@ != "url"@,
        "serverName"@ != "headers"@,
        "transport"@ != "command"@,
        "transport"@ != "args"@,
        "transport"@ != "env"@,
        "transport"@ != "cwd"@,
        "transport"@ != "url"@,
        "transport"@ != "headers"@,
        "command"@ != "args"@,
        "command"@ != "env"@,
        "command"@ != "cwd"@,
        "args"@ != "env"@,
        "args"@ != "cwd"@,
        "env"@ != "cwd"@,
        "url"@ != "headers"@,
        "stdio"@ != "streamable-http"@,
        "stdio"@ != "http"@,
        "type"@ != "command"@,
        "type"@ != "args"@,
        "type"@ != "env"@,
        "type"@ != "cwd"@,
        "type"@ != "url"@,
        "type"@ != "headers"@,
        "url"@ != "command"@,
{
    reveal_strlit("serverName");
    reveal_strlit("transport");
    reveal_strlit("command");
    reveal_strlit("args");
    reveal_strlit("env");
    reveal_strlit("cwd");
    reveal_strlit("url");
    reveal_strlit("headers");
    reveal_strlit("stdio");
    reveal_strlit("http");
    reveal_strlit("streamable-http");
    reveal_strlit("type");
    assert("serverName"@.len() == 10 && "serverName"@[0] == 's');
    assert("transport"@.len() == 9 && "transport"@[0] == 't');
    assert("command"@.len() == 7 && "command"@[0] == 'c');
    assert("args"@.len() == 4 && "args"@[0] == 'a');
    assert("env"@.len() == 3 && "env"@[0] == 'e');
    assert("cwd"@.len() == 3 && "cwd"@[0] == 'c');
    assert("url"@.len() == 3 && "url"@[0] == 'u');
    assert("headers"@.len() == 7 && "headers"@[0] == 'h');
    assert("stdio"@.len() == 5 && "stdio"@[0] == 's');
    assert("http"@.len() == 4 && "http"@[0] == 'h');
    assert("streamable-http"@.len() == 15 && "streamable-http"@[0] == 's');
    assert("type"@.len() == 4 && "type"@[0] == 't');
}

/// What a `stdio` server has under `config`.
proof fn lemma_stdio_config(
    name: Seq<char>,
    command: Seq<char>,
    args: Option<Tree>,
    env: Option<Tree>,
    cwd: Option<Tree>,
)
    ensures
        ({
            let m = stdio_config(name, command, args, env, cwd);
            &&& distinct_keys(m)
            &&& lookup(m, Tree::Text("serverName"@)) == Some(Tree::Text(name))
            &&& lookup(m, Tree::Text("transport"@)) == Some(Tree::Text("stdio"@))
            &&& lookup(m, Tree::Text("command"@)) == Some(Tree::Text(command))
            &&& lookup(m, Tree::Text("args"@)) == args
            &&& lookup(m, Tree::Text("env"@)) == env
            &&& lookup(m, Tree::Text("cwd"@)) == cwd
        }),
{
    broadcast use lemma_same_text;

    lemma_config_names();
    let z: Entries = Seq::empty();
    let a = with_key(z, Tree::Text("serverName"@), Tree::Text(name));
    lemma_with_key(z, Tree::Text("serverName"@), Tree::Text(name));
    let b = with_key(a, Tree::Text("transport"@), Tree::Text("stdio"@));
    lemma_with_key(a, Tree::Text("transport"@), Tree::Text("stdio"@));
    let c = with_key(b, Tree::Text("command"@), Tree::Text(command));
    lemma_with_key(b, Tree::Text("command"@), Tree::Text(command));
    lemma_with_some(c, "args"@, args);
    let d = with_some(c, "args"@, args);
    lemma_with_some(d, "env"@, env);
    let e = with_some(d, "env"@, env);
    lemma_with_some(e, "cwd"@, cwd);
}

/// What an `http` or `sse` server has under `config`.
proof fn lemma_url_config(name: Seq<char>, url: Seq<char>, headers: Option<Tree>)
    ensures
        ({
            let m = url_config(name, url, headers);
            &&& distinct_keys(m)
            &&& lookup(m, Tree::Text("serverName"@)) == Some(Tree::Text(name))
            &&& lookup(m, Tree::Text("transport"@)) == Some(Tree::Text("streamable-http"@))
            &&& lookup(m, Tree::Text("url"@)) == Some(Tree::Text(url))
            &&& lookup(m, Tree::Text("headers"@)) == headers
        }),
{
    broadcast use lemma_same_text;

    lemma_config_names();
    let z: Entries = Seq::empty();
    let a = with_key(z, Tree::Text("serverName"@), Tree::Text(name));
    lemma_with_key(z, Tree::Text("serverName"@), Tree::Text(name));
    let b = with_key(a, Tree::Text("transport"@), Tree::Text("streamable-http"@));
    lemma_with_key(a, Tree::Text("transport"@), Tree::Text("streamable-http"@));
    let c = with_key(b, Tree::Text("url"@), Tree::Text(url));
    lemma_with_key(b, Tree::Text("url"@), Tree::Text(url));
    lemma_with_some(c, "headers"@, headers);
}

/// What a plugin item holds.
proof fn lemma_item_of(name: Seq<char>, config: Entries)
    ensures
        is_client(item_of(name, config)),
        id_of(item_of(name, config)) == Some("mcp-"@ + name),
        field(item_of(name, config), "config"@) == Some(Tree::Mapping(config)),
{
    broadcast use lemma_same_text;

    reveal_strlit("id");
    reveal_strlit("name");
    reveal_strlit("config");
    assert("id"@.len() == 2 && "name"@.len() == 4 && "config"@.len() == 6);
    let z: Entries = Seq::empty();
    let a = with_key(z, Tree::Text("id"@), Tree::Text("mcp-"@ + name));
    lemma_with_key(z, Tree::Text("id"@), Tree::Text("mcp-"@ + name));
    let b = with_key(a, Tree::Text("name"@), Tree::Text(client_name()));
    lemma_with_key(a, Tree::Text("name"@), Tree::Text(client_name()));
    lemma_with_key(b, Tree::Text("config"@), Tree::Mapping(config));
}

/// A server in the form of dsh is an MCP server with the id `mcp-<name>` and the
/// server name `<name>`.
pub proof fn law_form(name: Seq<char>, spec: Tree)
    requires
        dsh_form(name, spec) is Ok,
    ensures
        is_client(dsh_form(name, spec)->Ok_0),
        id_of(dsh_form(name, spec)->Ok_0) == Some("mcp-"@ + name),
        server_of(dsh_form(name, spec)->Ok_0) == Some(name),
        is_slot(dsh_form(name, spec)->Ok_0, dsh_form(name, spec)->Ok_0),
{
    reveal_strlit("mcp-");
    let args = part_as_yaml(full_list(spec, "args"@));
    let env = part_as_yaml(full_mapping(spec, "env"@));
    let headers = part_as_yaml(full_mapping(spec, "headers"@));
    if type_of(spec) == "stdio"@ {
        let command = trimmed_field(spec, "command"@)->0;
        let cwd = full_text(spec, "cwd"@);
        lemma_stdio_config(name, command, args->Ok_0, env->Ok_0, cwd);
        lemma_item_of(name, stdio_config(name, command, args->Ok_0, env->Ok_0, cwd));
    } else {
        let url = trimmed_field(spec, "url"@)->0;
        lemma_url_config(name, url, headers->Ok_0);
        lemma_item_of(name, url_config(name, url, headers->Ok_0));
    }
}

/// A list of texts that is not empty, or none.
pub open spec fn is_text_list(part: Option<Tree>) -> bool {
    part matches Some(t) ==> (t matches Tree::List(x) && x.len() > 0 && forall|i: int|
        0 <= i < x.len() ==> (#[trigger] x[i]) is Text)
}

/// A mapping of texts to texts that is not empty, or none.
pub open spec fn is_text_map(part: Option<Tree>) -> bool {
    part matches Some(t) ==> (t matches Tree::Mapping(m) && m.len() > 0 && forall|i: int|
        0 <= i < m.len() ==> (#[trigger] m[i]).0 is Text && m[i].1 is Text)
}

proof fn lemma_no_list_fault(x: Seq<Tree>, server: Seq<char>, name: Seq<char>, i: nat)
    requires
        forall|i: int| 0 <= i < x.len() ==> (#[trigger] x[i]) is Text,
    ensures
        list_fault(x, server, name, i) is None,
    decreases x.len() - i,
{
    if i < x.len() {
        assert(x[i as int] is Text);
        lemma_no_list_fault(x, server, name, i + 1);
    }
}

proof fn lemma_no_map_fault(m: Entries, server: Seq<char>, name: Seq<char>, i: nat)
    requires
        forall|i: int| 0 <= i < m.len() ==> (#[trigger] m[i]).0 is Text && m[i].1 is Text,
    ensures
        map_fault(m, server, name, i) is None,
    decreases m.len() - i,
{
    if i < m.len() {
        assert(m[i as int].0 is Text);
        lemma_no_map_fault(m, server, name, i + 1);
    }
}

/// A part of a server, where there is one, is a document that YAML keeps.
pub open spec fn is_plain_part(part: Option<Tree>) -> bool {
    part matches Some(t) ==> is_flow(t)
}

/// A `stdio` server with a trimmed name and a command, whose arguments and environment
/// are texts.
pub open spec fn is_plain_stdio(name: Seq<char>, spec: Tree) -> bool {
    &&& trimmed_text(name) == Some(name) && spec is Mapping
    &&& type_of(spec) == "stdio"@
    &&& trimmed_field(spec, "command"@) is Some
    &&& is_text_list(full_list(spec, "args"@)) && is_plain_part(full_list(spec, "args"@))
    &&& is_text_map(full_mapping(spec, "env"@)) && is_plain_part(full_mapping(spec, "env"@))
}

/// An `http` or `sse` server with a trimmed name and an address, whose headers are
/// texts.
pub open spec fn is_plain_url(name: Seq<char>, spec: Tree) -> bool {
    &&& trimmed_text(name) == Some(name) && spec is Mapping
    &&& type_of(spec) == "http"@ || type_of(spec) == "sse"@
    &&& trimmed_field(spec, "url"@) is Some
    &&& is_text_map(full_mapping(spec, "headers"@)) && is_plain_part(
        full_mapping(spec, "headers"@),
    )
}

/// A server that is written to the file comes back: a `stdio` server with its command,
/// its arguments, its environment and its directory; an `http` or `sse` server as an
/// `http` server with its address and its headers. It is left open for texts with
/// characters that YAML does not take over from JSON, and for long names of variables
/// and headers.
pub open spec fn form_comes_back(name: Seq<char>, spec: Tree) -> bool {
    &&& is_plain_stdio(name, spec) ==> (dsh_form(name, spec) matches Ok(item) && usable(item)
        == Some(
        (
            name,
            unified_stdio(
                trimmed_field(spec, "command"@)->0,
                full_list(spec, "args"@),
                full_mapping(spec, "env"@),
                full_text(spec, "cwd"@),
            ),
        ),
    ))
    &&& is_plain_url(name, spec) ==> (dsh_form(name, spec) matches Ok(item) && usable(item) == Some(
        (name, unified_url(trimmed_field(spec, "url"@)->0, full_mapping(spec, "headers"@))),
    ))
}

/// What comes back of a server that was written to the file: a `stdio` server with
/// its command, its arguments, its environment and its directory.
pub proof fn law_stdio_comes_back(name: Seq<char>, spec: Tree)
    requires
        trimmed_text(name) == Some(name),
        spec is Mapping,
        type_of(spec) == "stdio"@,
        trimmed_field(spec, "command"@) is Some,
        is_text_list(full_list(spec, "args"@)),
        is_text_map(full_mapping(spec, "env"@)),
        part_as_yaml(full_list(spec, "args"@)) == Ok::<Option<Tree>, ErrorView>(
            full_list(spec, "args"@),
        ),
        part_as_yaml(full_mapping(spec, "env"@)) == Ok::<Option<Tree>, ErrorView>(
            full_mapping(spec, "env"@),
        ),
    ensures
        dsh_form(name, spec) is Ok,
        usable(dsh_form(name, spec)->Ok_0) == Some(
            (
                name,
                unified_stdio(
                    trimmed_field(spec, "command"@)->0,
                    full_list(spec, "args"@),
                    full_mapping(spec, "env"@),
                    full_text(spec, "cwd"@),
                ),
            ),
        ),
{
    lemma_config_names();
    let command = trimmed_field(spec, "command"@)->0;
    let args = full_list(spec, "args"@);
    let env = full_mapping(spec, "env"@);
    let cwd = full_text(spec, "cwd"@);
    let config = stdio_config(name, command, args, env, cwd);
    lemma_stdio_config(name, command, args, env, cwd);
    lemma_item_of(name, config);
    let raw = text_field(spec, "command"@)->0;
    lemma_trimmed_twice(raw);
    if args is Some {
        lemma_no_list_fault(args->0->List_0, name, "args"@, 0);
    }
    if env is Some {
        lemma_no_map_fault(env->0->Mapping_0, name, "env"@, 0);
    }
    assert(unified_config(config, name) == Ok::<Tree, ErrorView>(
        unified_stdio(command, args, env, cwd),
    ));
    lemma_unified_stdio(command, args, env, cwd);
}

/// A `stdio` server with a command has no fault.
proof fn lemma_unified_stdio(
    command: Seq<char>,
    args: Option<Tree>,
    env: Option<Tree>,
    cwd: Option<Tree>,
)
    requires
        trimmed_text(command) is Some,
    ensures
        server_fault(unified_stdio(command, args, env, cwd)) is None,
{
    broadcast use lemma_same_text;

    lemma_config_names();
    let z: Entries = Seq::empty();
    let a = with_key(z, Tree::Text("type"@), Tree::Text("stdio"@));
    lemma_with_key(z, Tree::Text("type"@), Tree::Text("stdio"@));
    let b = with_key(a, Tree::Text("command"@), Tree::Text(command));
    lemma_with_key(a, Tree::Text("command"@), Tree::Text(command));
    lemma_with_some(b, "args"@, args);
    let c = with_some(b, "args"@, args);
    lemma_with_some(c, "env"@, env);
    let d = with_some(c, "env"@, env);
    lemma_with_some(d, "cwd"@, cwd);
    lemma_blank(command);
}

/// What comes back of a server that was written to the file: an `http` server with
/// its address and its headers. An `sse` server comes back as `http`, as dsh knows
/// one transport for both.
pub proof fn law_url_comes_back(name: Seq<char>, spec: Tree)
    requires
        trimmed_text(name) == Some(name),
        spec is Mapping,
        type_of(spec) == "http"@ || type_of(spec) == "sse"@,
        trimmed_field(spec, "url"@) is Some,
        is_text_map(full_mapping(spec, "headers"@)),
        part_as_yaml(full_mapping(spec, "headers"@)) == Ok::<Option<Tree>, ErrorView>(
            full_mapping(spec, "headers"@),
        ),
    ensures
        dsh_form(name, spec) is Ok,
        usable(dsh_form(name, spec)->Ok_0) == Some(
            (name, unified_url(trimmed_field(spec, "url"@)->0, full_mapping(spec, "headers"@))),
        ),
{
    lemma_config_names();
    reveal_strlit("sse");
    reveal_strlit("stdio");
    assert("sse"@.len() == 3 && "stdio"@.len() == 5);
    let url = trimmed_field(spec, "url"@)->0;
    let headers = full_mapping(spec, "headers"@);
    let config = url_config(name, url, headers);
    lemma_url_config(name, url, headers);
    lemma_item_of(name, config);
    lemma_trimmed_twice(text_field(spec, "url"@)->0);
    if headers is Some {
        lemma_no_map_fault(headers->0->Mapping_0, name, "headers"@, 0);
    }
    assert(unified_config(config, name) == Ok::<Tree, ErrorView>(
        unified_url(url, headers),
    ));
    lemma_unified_url(url, headers);
}

/// An `http` server with an address has no fault.
proof fn lemma_unified_url(url: Seq<char>, headers: Option<Tree>)
    requires
        trimmed_text(url) is Some,
    ensures
        server_fault(unified_url(url, headers)) is None,
{
    broadcast use lemma_same_text;

    lemma_config_names();
    let z: Entries = Seq::empty();
    let a = with_key(z, Tree::Text("type"@), Tree::Text("http"@));
    lemma_with_key(z, Tree::Text("type"@), Tree::Text("http"@));
    let b = with_key(a, Tree::Text("url"@), Tree::Text(url));
    lemma_with_key(a, Tree::Text("url"@), Tree::Text(url));
    lemma_with_some(b, "headers"@, headers);
    lemma_blank(url);
}

// ----------------------------------------------------------------------------
// One server
// ----------------------------------------------------------------------------

/// Removing a server removes what was written for it.
pub proof fn law_removal_covers(id: Seq<char>, spec: Tree)
    requires
        dsh_form(server_name_of(id), spec) is Ok,
    ensures
        concerns(removal_of(id), dsh_form(server_name_of(id), spec)->Ok_0),
{
    law_form(server_name_of(id), spec);
}

/// Entries that were read of a text have equal documents to those that were written.
proof fn lemma_read_back(text: Seq<char>, values: Seq<Tree>, entries: Seq<EntryView>)
    requires
        same(Tree::List(values), Tree::List(values_of(entries))),
    ensures
        same_values(entries, located(text, values).entries),
{
    reveal(same);
    let a = Tree::List(values);
    let b = Tree::List(values_of(entries));
    assert(a->List_0 == values);
    assert(b->List_0 == values_of(entries));
    let read = located(text, values).entries;
    assert forall|i: int| 0 <= i < entries.len() implies same(
        (#[trigger] entries[i]).value,
        read[i].value,
    ) by {
        assert(same(values[i], values_of(entries)[i]));
        lemma_same_symmetric(values[i], values_of(entries)[i]);
    }
}

/// Entries that were read of a text are well-formed.
proof fn lemma_located_well_formed(text: Seq<char>, values: Seq<Tree>)
    requires
        well_formed(Tree::List(values)),
    ensures
        entries_well_formed(located(text, values).entries),
{
    let read = located(text, values).entries;
    assert forall|i: int| 0 <= i < read.len() implies well_formed((#[trigger] read[i]).value) by {
        lemma_item_well_formed(values, i);
    }
}

/// A file that holds the entries that it is to hold stays as it is.
proof fn lemma_kept(text: Seq<char>, values: Seq<Tree>)
    requires
        entries_in(text) == Ok::<Seq<Tree>, ErrorView>(values),
        values.len() > 0,
    ensures
        patch_of(text) == Ok::<PatchView, ErrorView>(located(text, values)),
        patch_planned(Some(text), located(text, values)) == Ok::<PlanView, ErrorView>(
            PlanView::Keep,
        ),
{
    assert(values_of(located(text, values).entries) =~= values);
    lemma_same_reflexive(Tree::List(values));
}

/// A text that holds the entries of a file has as many of them.
proof fn lemma_as_many(text: Seq<char>, entries: Seq<EntryView>)
    requires
        reads_as(text, values_of(entries)),
    ensures
        entries_in(text)->Ok_0.len() == entries.len(),
{
    reveal(same);
    assert(Tree::List(entries_in(text)->Ok_0)->List_0 == entries_in(text)->Ok_0);
    assert(Tree::List(values_of(entries))->List_0 == values_of(entries));
}

/// The file with a server written.
pub open spec fn patch_with(p: PatchView, item: Tree) -> PatchView {
    PatchView { head: p.head, entries: upserted(p.entries, item) }
}

/// What is written for a server is read as the entries of the file, unless the file has
/// to be written anew as a whole, with entries that YAML may not keep. Where it is, or
/// where nothing is written, writing the server again leaves the file alone.
pub open spec fn server_sticks(raw: Option<Seq<char>>, id: Seq<char>, spec: Tree) -> bool {
    match (dsh_form(server_name_of(id), spec), patch_in(raw)) {
        (Ok(item), Ok(p)) => {
            let first = server_synced(true, raw, id, spec);
            &&& settles(patch_with(p, item)) ==> text_holds(patch_with(p, item))
            &&& first is Ok && (text_holds(patch_with(p, item)) || first->Ok_0 is Keep)
                ==> server_synced(true, left_by(raw, first->Ok_0), id, spec) == Ok::<
                PlanView,
                ErrorView,
            >(PlanView::Keep)
        },
        _ => true,
    }
}

/// Writing a server a second time leaves the file alone, where what was written is read
/// as the entries of the file.
pub proof fn law_sync_server_twice(raw: Option<Seq<char>>, id: Seq<char>, spec: Tree, p: PatchView)
    requires
        patch_in(raw) == Ok::<PatchView, ErrorView>(p),
        entries_well_formed(p.entries),
        dsh_form(server_name_of(id), spec) matches Ok(item) && well_formed(item) && (settles(
            patch_with(p, item),
        ) ==> text_holds(patch_with(p, item))),
    ensures
        server_sticks(raw, id, spec),
{
    let item = dsh_form(server_name_of(id), spec)->Ok_0;
    let after = upserted(p.entries, item);
    if text_holds(patch_with(p, item)) {
        let text = patch_text(patch_with(p, item))->Ok_0;
        let values = entries_in(text)->Ok_0;
        let read = located(text, values);
        lemma_as_many(text, after);
        law_form(server_name_of(id), spec);
        law_written(p.entries, item);
        lemma_slot_of(p.entries, item, 0);
        lemma_upserted_well_formed(p.entries, item);
        lemma_read_back(text, values, after);
        lemma_located_well_formed(text, values);
        lemma_holds_same(after, read.entries, item);
        law_write_present(read.entries, item);
        lemma_kept(text, values);
    }
}

/// The file with a server removed.
pub open spec fn patch_without(p: PatchView, id: Seq<char>) -> PatchView {
    PatchView { head: p.head, entries: stripped(removal_of(id), p.entries) }
}

/// What is left without a server is read as the entries of the file, unless the file has
/// to be written anew as a whole, with entries that YAML may not keep. Where it is, or
/// where nothing is written, removing the server again leaves the file alone.
pub open spec fn server_leaves(raw: Option<Seq<char>>, id: Seq<char>) -> bool {
    match patch_in(raw) {
        Ok(p) => {
            let first = server_removed(true, raw, id);
            &&& p.entries.len() > 0 && settles(patch_without(p, id)) ==> text_holds(
                patch_without(p, id),
            )
            &&& first is Ok && (text_holds(patch_without(p, id)) || first->Ok_0 is Keep)
                ==> server_removed(true, left_by(raw, first->Ok_0), id) == Ok::<
                PlanView,
                ErrorView,
            >(PlanView::Keep)
        },
        Err(_) => true,
    }
}

/// Removing a server a second time leaves the file alone, where what was written is read
/// as the entries of the file.
pub proof fn law_remove_server_twice(raw: Option<Seq<char>>, id: Seq<char>, p: PatchView)
    requires
        patch_in(raw) == Ok::<PatchView, ErrorView>(p),
        entries_well_formed(p.entries),
        p.entries.len() > 0 && settles(patch_without(p, id)) ==> text_holds(patch_without(p, id)),
    ensures
        server_leaves(raw, id),
{
    let after = stripped(removal_of(id), p.entries);
    if p.entries.len() > 0 && text_holds(patch_without(p, id)) {
        let text = patch_text(patch_without(p, id))->Ok_0;
        let values = entries_in(text)->Ok_0;
        let read = located(text, values);
        lemma_as_many(text, after);
        law_removed_gone(removal_of(id), p.entries);
        lemma_stripped_well_formed(removal_of(id), p.entries);
        lemma_read_back(text, values, after);
        lemma_located_well_formed(text, values);
        lemma_clear_same(after, read.entries, removal_of(id));
        if values.len() > 0 {
            lemma_kept(text, values);
        }
    }
}

// ----------------------------------------------------------------------------
// The whole registry
// ----------------------------------------------------------------------------

/// An item stands for the server of a name.
pub open spec fn stands_for(item: Tree, name: Seq<char>) -> bool {
    is_client(item) && id_of(item) == Some("mcp-"@ + name) && server_of(item) == Some(name)
}

/// The server name of a new entry.
pub open spec fn name_of(e: EntryView) -> Seq<char> {
    server_of(inserted(e.value)->0[0])->0
}

/// An entry was made for the server of a name.
pub open spec fn is_made(e: EntryView, names: Seq<Seq<char>>) -> bool {
    &&& e == new_entry(inserted(e.value)->0[0])
    &&& stands_for(inserted(e.value)->0[0], name_of(e))
    &&& names.contains(name_of(e))
}

proof fn lemma_mcp(a: Seq<char>, b: Seq<char>)
    requires
        "mcp-"@ + a == "mcp-"@ + b,
    ensures
        a == b,
{
    let n = "mcp-"@.len() as int;
    assert(a =~= ("mcp-"@ + a).subrange(n, n + a.len()));
    assert(b =~= ("mcp-"@ + b).subrange(n, n + b.len()));
    assert(("mcp-"@ + a).len() == n + a.len());
}

/// The items of two servers are slots of each other exactly where they have the same
/// name.
proof fn lemma_made_slot(x: Tree, a: Seq<char>, y: Tree, b: Seq<char>)
    requires
        stands_for(x, a),
        stands_for(y, b),
    ensures
        is_slot(x, y) <==> a == b,
{
    reveal_strlit("mcp-");
    if is_slot(x, y) && a != b {
        if "mcp-"@ + a == "mcp-"@ + b {
            lemma_mcp(a, b);
        }
    }
}

/// A new entry with another item is the new entry of that item.
proof fn lemma_new_entry_replaced(x: Tree, item: Tree)
    requires
        !same(x, item),
    ensures
        with_item(new_entry(x), 0, item) == new_entry(item),
{
    broadcast use lemma_same_text;

    lemma_new_entry(x);
    let k = Tree::Text("insert"@);
    let m = seq![(k, Tree::List(seq![x]))];
    assert(key_at(m, k, 0));
    assert(distinct_keys(m));
    lemma_index_of(m, k, 0);
    assert(untagged(Tree::Mapping(m)) == Tree::Mapping(m));
    assert(seq![x].update(0, item) =~= seq![item]);
    assert(relisted(Tree::List(seq![x]), seq![item]) == Tree::List(seq![item]));
    let w = with_key(m, k, Tree::List(seq![item]));
    assert(w =~= seq![(k, Tree::List(seq![item]))]);
    assert(refilled(Tree::Mapping(m), w) == Tree::Mapping(w));
}

/// Entries in front that have no slot do not matter.
proof fn lemma_upserted_behind(front: Seq<EntryView>, back: Seq<EntryView>, item: Tree)
    requires
        forall|l: int| 0 <= l < front.len() ==> entry_slot((#[trigger] front[l]).value, item) is None,
    ensures
        upserted(front + back, item) == front + upserted(back, item),
{
    let all = front + back;
    lemma_slot_of(back, item, 0);
    lemma_slot_of(all, item, 0);
    match slot_of(back, item, 0) {
        Some(x) => {
            let y = ((front.len() + x.0) as nat, x.1);
            assert(all[y.0 as int] == back[x.0 as int]);
            assert forall|l: int| 0 <= l < y.0 implies entry_slot((#[trigger] all[l]).value, item) is None by {
                if l >= front.len() {
                    assert(all[l] == back[l - front.len()]);
                }
            }
            lemma_first_slot_of(all, item, 0, y);
        },
        None => {
            assert forall|l: int| 0 <= l < all.len() implies entry_slot(
                (#[trigger] all[l]).value,
                item,
            ) is None by {
                if l >= front.len() {
                    assert(all[l] == back[l - front.len()]);
                }
            }
            if let Some(y) = slot_of(all, item, 0) {
                assert(entry_slot(all[y.0 as int].value, item) is Some);
            }
        },
    }
    assert(upserted(all, item) =~= front + upserted(back, item));
}

/// Names stay targets as more servers come.
proof fn lemma_targets(list: Seq<ServerView>, n: nat, m: nat, name: Seq<char>)
    requires
        n <= m <= list.len(),
        target_names(list, n).contains(name),
    ensures
        target_names(list, m).contains(name),
    decreases m,
{
    if n < m {
        lemma_targets(list, n, (m - 1) as nat, name);
        let before = target_names(list, (m - 1) as nat);
        let i = choose|i: int| 0 <= i < before.len() && before[i] == name;
        assert(target_names(list, m)[i] == name);
    }
}

/// An entry without an item that is to be removed has no slot for a target.
proof fn lemma_clear_no_slot(e: Tree, names: Seq<Seq<char>>, item: Tree, name: Seq<char>)
    requires
        is_clear(RemovalView::Managed { names }, e),
        stands_for(item, name),
        names.contains(name),
    ensures
        entry_slot(e, item) is None,
{
    if inserted(e) is Some {
        let items = inserted(e)->0;
        let removal = RemovalView::Managed { names };
        assert forall|l: int| 0 <= l < items.len() implies !is_slot(#[trigger] items[l], item) by {
            assert(!concerns(removal, items[l]));
            let id = "mcp-"@ + name;
            assert(begins_with(id, "mcp-"@)) by {
                assert(id.subrange(0, "mcp-"@.len() as int) =~= "mcp-"@);
            }
        }
        lemma_no_slot_in(items, item, 0);
    }
}

/// Bringing the file in step appends the entries of the servers that dsh uses to
/// what is left of it; they do not depend on what is left.
pub proof fn law_rebuilt(rest: Seq<EntryView>, list: Seq<ServerView>, n: nat)
    requires
        n <= list.len(),
        forall|i: int|
            0 <= i < rest.len() ==> is_clear(
                RemovalView::Managed { names: target_names(list, list.len()) },
                (#[trigger] rest[i]).value,
            ),
    ensures
        match rebuilt(Seq::empty(), list, n) {
            Ok(made) => rebuilt(rest, list, n) == Ok::<Seq<EntryView>, ErrorView>(rest + made),
            Err(e) => rebuilt(rest, list, n) == Err::<Seq<EntryView>, ErrorView>(e),
        },
    decreases n,
{
    if n == 0 {
        assert(rest + Seq::<EntryView>::empty() =~= rest);
    } else {
        let m = (n - 1) as nat;
        law_rebuilt(rest, list, m);
        let server = list[n - 1];
        let name = server_name_of(server.id);
        if rebuilt(Seq::empty(), list, m) is Ok && server.apps.dsh && dsh_form(
            name,
            server.server,
        ) is Ok {
            let item = dsh_form(name, server.server)->Ok_0;
            let made = rebuilt(Seq::empty(), list, m)->Ok_0;
            let names = target_names(list, list.len());
            law_form(name, server.server);
            assert(target_names(list, n).last() == name);
            assert(target_names(list, n).contains(name));
            lemma_targets(list, n, list.len(), name);
            assert forall|l: int| 0 <= l < rest.len() implies entry_slot(
                (#[trigger] rest[l]).value,
                item,
            ) is None by {
                lemma_clear_no_slot(rest[l].value, names, item, name);
            }
            lemma_upserted_behind(rest, made, item);
        }
    }
}

/// The entries of the servers that dsh uses are made for them.
proof fn lemma_made(list: Seq<ServerView>, n: nat)
    requires
        n <= list.len(),
        rebuilt(Seq::empty(), list, n) is Ok,
    ensures
        forall|i: int|
            0 <= i < rebuilt(Seq::empty(), list, n)->Ok_0.len() ==> is_made(
                #[trigger] rebuilt(Seq::empty(), list, n)->Ok_0[i],
                target_names(list, n),
            ),
    decreases n,
{
    if n > 0 {
        let m = (n - 1) as nat;
        lemma_made(list, m);
        let server = list[n - 1];
        let name = server_name_of(server.id);
        let before = rebuilt(Seq::empty(), list, m)->Ok_0;
        let after = rebuilt(Seq::empty(), list, n)->Ok_0;
        if server.apps.dsh {
            let item = dsh_form(name, server.server)->Ok_0;
            law_form(name, server.server);
            lemma_new_entry(item);
            assert(seq![item][0] == item);
            assert(target_names(list, n).last() == name);
            assert(target_names(list, n).contains(name));
            lemma_slot_of(before, item, 0);
            assert forall|i: int| 0 <= i < after.len() implies is_made(
                #[trigger] after[i],
                target_names(list, n),
            ) by {
                if i < before.len() {
                    let e = before[i];
                    assert(is_made(e, target_names(list, m)));
                    lemma_targets(list, m, n, name_of(e));
                    if slot_of(before, item, 0) matches Some(x) && x.0 == i {
                        let x = slot_of(before, item, 0)->0;
                        lemma_new_entry(inserted(e.value)->0[0]);
                        lemma_slot_in(inserted(e.value)->0, item, 0);
                        assert(x.1 == 0);
                        if !same(inserted(e.value)->0[0], item) {
                            lemma_new_entry_replaced(inserted(e.value)->0[0], item);
                        }
                    }
                }
            }
        }
    }
}

/// Removing servers from two parts of the file.
proof fn lemma_stripped_parts(removal: RemovalView, a: Seq<EntryView>, b: Seq<EntryView>)
    ensures
        stripped(removal, a + b) == stripped(removal, a) + stripped(removal, b),
    decreases b.len(),
{
    if b.len() == 0 {
        assert(a + b =~= a);
        assert(stripped(removal, a) + stripped(removal, b) =~= stripped(removal, a));
    } else {
        assert((a + b).drop_last() =~= a + b.drop_last());
        assert((a + b).last() == b.last());
        lemma_stripped_parts(removal, a, b.drop_last());
        assert(stripped(removal, a + b) =~= stripped(removal, a) + stripped(removal, b));
    }
}

/// Entries that were made for targets are removed with them.
proof fn lemma_made_stripped(names: Seq<Seq<char>>, made: Seq<EntryView>)
    requires
        forall|i: int| 0 <= i < made.len() ==> is_made(#[trigger] made[i], names),
    ensures
        stripped(RemovalView::Managed { names }, made) == Seq::<EntryView>::empty(),
    decreases made.len(),
{
    let removal = RemovalView::Managed { names };
    if made.len() > 0 {
        let front = made.drop_last();
        assert forall|i: int| 0 <= i < front.len() implies is_made(#[trigger] front[i], names) by {
            assert(front[i] == made[i]);
        }
        lemma_made_stripped(names, front);
        let e = made[made.len() - 1];
        let item = inserted(e.value)->0[0];
        assert(is_made(e, names));
        lemma_new_entry(item);
        let items = seq![item];
        assert(concerns(removal, item));
        reveal(Seq::filter);
        reveal_with_fuel(Seq::filter, 2);
        assert(items.drop_last() =~= Seq::<Tree>::empty());
        assert(items.last() == item);
        assert(items.filter(spared(removal)).len() == 0);
        assert(untagged(e.value) == e.value);
        assert(stripped_entry(removal, e) is None);
    }
}

/// Bringing the file in step a second time changes nothing.
pub proof fn law_sync_registry_twice(entries: Seq<EntryView>, list: Seq<ServerView>)
    requires
        entries_well_formed(entries),
    ensures
        ({
            let removal = RemovalView::Managed { names: target_names(list, list.len()) };
            let once = rebuilt(stripped(removal, entries), list, list.len());
            once matches Ok(after) ==> rebuilt(stripped(removal, after), list, list.len()) == once
        }),
{
    let names = target_names(list, list.len());
    let removal = RemovalView::Managed { names };
    let rest = stripped(removal, entries);
    let n = list.len();
    law_removed_gone(removal, entries);
    law_rebuilt(rest, list, n);
    if rebuilt(rest, list, n) is Ok {
        let made = rebuilt(Seq::empty(), list, n)->Ok_0;
        lemma_made(list, n);
        lemma_made_stripped(names, made);
        lemma_stripped_parts(removal, rest, made);
        law_remove_twice(removal, entries);
        assert(rest + Seq::<EntryView>::empty() =~= rest);
    }
}

/// An entry that equals one that was made for a target is removed with it.
proof fn lemma_made_read(names: Seq<Seq<char>>, made: EntryView, read: EntryView)
    requires
        is_made(made, names),
        same(made.value, read.value),
        well_formed(made.value),
        well_formed(read.value),
    ensures
        stripped_entry(RemovalView::Managed { names }, read) is None,
{
    let removal = RemovalView::Managed { names };
    let item = inserted(made.value)->0[0];
    lemma_new_entry(item);
    lemma_inserted_same(made.value, read.value);
    lemma_inserted_well_formed(made.value);
    lemma_inserted_well_formed(read.value);
    let items = inserted(read.value)->0;
    assert(same(inserted(made.value)->0[0], items[0]));
    lemma_item_same(item, items[0]);
    assert(concerns(removal, items[0]));
    reveal(Seq::filter);
    reveal_with_fuel(Seq::filter, 2);
    assert(items.drop_last() =~= Seq::<Tree>::empty());
    assert(items.last() == items[0]);
    assert(items.filter(spared(removal)).len() == 0);
    reveal(same);
    assert(untagged(read.value) == read.value);
}

/// Entries that equal those that were made for targets are removed with them.
proof fn lemma_made_read_stripped(
    names: Seq<Seq<char>>,
    made: Seq<EntryView>,
    read: Seq<EntryView>,
)
    requires
        forall|i: int| 0 <= i < made.len() ==> is_made(#[trigger] made[i], names),
        same_values(made, read),
        entries_well_formed(made),
        entries_well_formed(read),
    ensures
        stripped(RemovalView::Managed { names }, read) == Seq::<EntryView>::empty(),
    decreases made.len(),
{
    if made.len() > 0 {
        let n = made.len() - 1;
        let a = made.drop_last();
        let b = read.drop_last();
        assert forall|i: int| 0 <= i < a.len() implies is_made(#[trigger] a[i], names) && well_formed(
            a[i].value,
        ) && same(a[i].value, b[i].value) by {
            assert(a[i] == made[i]);
            assert(b[i] == read[i]);
        }
        assert forall|i: int| 0 <= i < b.len() implies well_formed((#[trigger] b[i]).value) by {
            assert(b[i] == read[i]);
        }
        lemma_made_read_stripped(names, a, b);
        assert(same(made[n].value, read[n].value));
        assert(well_formed(made[n].value) && well_formed(read[n].value));
        lemma_made_read(names, made[n], read[n]);
    }
}

/// The file in step with the registry.
pub open spec fn patch_in_step(p: PatchView, list: Seq<ServerView>) -> Result<PatchView, ErrorView> {
    let removal = RemovalView::Managed { names: target_names(list, list.len()) };
    match rebuilt(stripped(removal, p.entries), list, list.len()) {
        Ok(entries) => Ok(PatchView { head: p.head, entries }),
        Err(e) => Err(e),
    }
}

/// What brings the file in step is read as its entries, unless the file has to be written
/// anew as a whole, with entries that YAML may not keep. Where it is, or where nothing is
/// written, bringing the file in step again leaves it alone.
pub open spec fn registry_sticks(raw: Option<Seq<char>>, list: Seq<ServerView>) -> bool {
    match patch_in(raw) {
        Ok(p) => patch_in_step(p, list) matches Ok(after) ==> {
            let first = servers_synced(true, raw, list);
            &&& settles(after) ==> text_holds(after)
            &&& first is Ok && (text_holds(after) || first->Ok_0 is Keep) ==> servers_synced(
                true,
                left_by(raw, first->Ok_0),
                list,
            ) == Ok::<PlanView, ErrorView>(PlanView::Keep)
        },
        Err(_) => true,
    }
}

/// Bringing the file in step a second time leaves it alone, where what was written is
/// read as the entries of the file.
pub proof fn law_sync_file_twice(raw: Option<Seq<char>>, list: Seq<ServerView>, p: PatchView)
    requires
        patch_in(raw) == Ok::<PatchView, ErrorView>(p),
        entries_well_formed(p.entries),
        patch_in_step(p, list) matches Ok(after) && entries_well_formed(after.entries) && (settles(
            after,
        ) ==> text_holds(after)),
    ensures
        registry_sticks(raw, list),
{
    let names = target_names(list, list.len());
    let removal = RemovalView::Managed { names };
    let rest = stripped(removal, p.entries);
    let made = rebuilt(Seq::empty(), list, list.len())->Ok_0;
    let after = patch_in_step(p, list)->Ok_0;
    if text_holds(after) {
        let text = patch_text(after)->Ok_0;
        let values = entries_in(text)->Ok_0;
        let read = located(text, values);
        let r = rest.len() as int;
        let a = read.entries.take(r);
        let b = read.entries.skip(r);
        lemma_as_many(text, after.entries);
        law_removed_gone(removal, p.entries);
        lemma_stripped_well_formed(removal, p.entries);
        law_rebuilt(rest, list, list.len());
        lemma_made(list, list.len());
        assert(after.entries == rest + made);
        lemma_read_back(text, values, after.entries);
        lemma_located_well_formed(text, values);
        assert(read.entries =~= a + b);
        assert forall|i: int| 0 <= i < a.len() implies well_formed((#[trigger] a[i]).value) by {
            assert(a[i] == read.entries[i]);
        }
        assert forall|i: int| 0 <= i < b.len() implies well_formed((#[trigger] b[i]).value) by {
            assert(b[i] == read.entries[r + i]);
        }
        assert forall|i: int| 0 <= i < rest.len() implies same((#[trigger] rest[i]).value, a[i].value) by {
            assert(a[i] == read.entries[i]);
            assert(after.entries[i] == rest[i]);
        }
        assert forall|i: int| 0 <= i < made.len() implies same((#[trigger] made[i]).value, b[i].value)
            && well_formed(made[i].value) by {
            assert(b[i] == read.entries[r + i]);
            assert(after.entries[r + i] == made[i]);
        }
        lemma_clear_same(rest, a, removal);
        law_removed_gone(removal, a);
        lemma_made_read_stripped(names, made, b);
        lemma_stripped_parts(removal, a, b);
        assert(a + Seq::<EntryView>::empty() =~= a);
        assert(stripped(removal, read.entries) == a);
        law_rebuilt(a, list, list.len());
        let again = PatchView { head: read.head, entries: a + made };
        assert(patch_in_step(read, list) == Ok::<PatchView, ErrorView>(again));
        assert(values_of(a + b) =~= values);
        lemma_read_again(values, a, b, made);
        if values.len() == 0 {
            assert(values_of(again.entries) =~= values_of(after.entries));
        }
    }
}

/// Entries that were read of a text, with equal ones in the place of the last of them,
/// are what the text is read as.
proof fn lemma_read_again(
    values: Seq<Tree>,
    a: Seq<EntryView>,
    b: Seq<EntryView>,
    made: Seq<EntryView>,
)
    requires
        values == values_of(a + b),
        same_values(made, b),
    ensures
        same(Tree::List(values), Tree::List(values_of(a + made))),
{
    reveal(same);
    let x = Tree::List(values);
    let y = Tree::List(values_of(a + made));
    assert(x->List_0 == values && y->List_0 == values_of(a + made));
    assert forall|i: int| 0 <= i < values.len() implies same(
        #[trigger] values[i],
        values_of(a + made)[i],
    ) by {
        assert(values[i] == (a + b)[i].value);
        if i < a.len() {
            lemma_same_reflexive(values[i]);
        } else {
            let j = i - a.len();
            assert((a + made)[i] == made[j]);
            assert(same(made[j].value, b[j].value));
            lemma_same_symmetric(made[j].value, b[j].value);
        }
    }
}

/// Once the file is in step, the entries that have no item of the registry stand in
/// it as before, with their texts.
pub proof fn law_sync_keeps_foreign(entries: Seq<EntryView>, list: Seq<ServerView>, i: int)
    requires
        entries_well_formed(entries),
        0 <= i < entries.len(),
        is_clear(
            RemovalView::Managed { names: target_names(list, list.len()) },
            entries[i].value,
        ),
    ensures
        ({
            let removal = RemovalView::Managed { names: target_names(list, list.len()) };
            rebuilt(stripped(removal, entries), list, list.len()) matches Ok(after)
                ==> after.contains(entries[i])
        }),
{
    let removal = RemovalView::Managed { names: target_names(list, list.len()) };
    let rest = stripped(removal, entries);
    law_removed_gone(removal, entries);
    law_rebuilt(rest, list, list.len());
    law_foreign_entry_stays(removal, entries, i);
    if let Ok(after) = rebuilt(rest, list, list.len()) {
        let j = choose|j: int| 0 <= j < rest.len() && rest[j] == entries[i];
        assert(after[j] == entries[i]);
    }
}

/// A server that is there stays there when a server of another name is written.
proof fn lemma_holds_others(
    made: Seq<EntryView>,
    names: Seq<Seq<char>>,
    x: Tree,
    a: Seq<char>,
    y: Tree,
    b: Seq<char>,
)
    requires
        forall|i: int| 0 <= i < made.len() ==> is_made(#[trigger] made[i], names),
        stands_for(x, a),
        stands_for(y, b),
        a != b,
        holds_item(made, x),
    ensures
        holds_item(upserted(made, y), x),
{
    let after = upserted(made, y);
    let at = slot_of(made, x, 0)->0;
    lemma_slot_of(made, x, 0);
    lemma_slot_of(made, y, 0);
    lemma_new_entry(y);
    assert forall|l: int| 0 <= l < made.len() && entry_slot(
        (#[trigger] made[l]).value,
        y,
    ) == Some(0nat) implies entry_slot(made[l].value, x) is None by {
        assert(is_made(made[l], names));
        let z = inserted(made[l].value)->0[0];
        lemma_new_entry(z);
        lemma_made_slot(z, name_of(made[l]), x, a);
        lemma_made_slot(z, name_of(made[l]), y, b);
        lemma_slot_in(seq![z], y, 0);
        lemma_slot_in(seq![z], x, 0);
    }
    assert forall|l: int| 0 <= l < made.len() implies entry_slot((#[trigger] after[l]).value, x)
        == entry_slot(made[l].value, x) && (l == at.0 ==> after[l] == made[l]) by {
        if slot_of(made, y, 0) matches Some(to) && to.0 == l {
            let to = slot_of(made, y, 0)->0;
            assert(is_made(made[l], names));
            let z = inserted(made[l].value)->0[0];
            lemma_new_entry(z);
            lemma_slot_in(seq![z], y, 0);
            assert(to.1 == 0);
            assert(entry_slot(made[l].value, y) == Some(0nat));
            assert(entry_slot(made[l].value, x) is None);
            if !same(z, y) {
                lemma_new_entry_replaced(z, y);
                lemma_made_slot(y, b, x, a);
                assert(!is_slot(seq![y][0], x));
                lemma_no_slot_in(seq![y], x, 0);
            }
        } else {
            assert(after[l] == made[l]);
        }
    }
    assert forall|l: int| 0 <= l < at.0 implies entry_slot((#[trigger] after[l]).value, x) is None by {
        assert(entry_slot(made[l].value, x) is None);
    }
    lemma_first_slot_of(after, x, 0, at);
}

/// Once the file is in step, it holds every server that dsh uses; of several whose
/// ids give the same name it holds the last.
pub proof fn law_sync_writes(list: Seq<ServerView>, k: int, n: nat)
    requires
        0 <= k < n <= list.len(),
        list[k].apps.dsh,
        rebuilt(Seq::empty(), list, n) is Ok,
        forall|l: int|
            k < l < n && (#[trigger] list[l]).apps.dsh ==> server_name_of(list[l].id)
                != server_name_of(list[k].id),
    ensures
        dsh_form(server_name_of(list[k].id), list[k].server) is Ok,
        holds_item(
            rebuilt(Seq::empty(), list, n)->Ok_0,
            dsh_form(server_name_of(list[k].id), list[k].server)->Ok_0,
        ),
    decreases n,
{
    let m = (n - 1) as nat;
    let before = rebuilt(Seq::empty(), list, m)->Ok_0;
    let name = server_name_of(list[k].id);
    lemma_made(list, m);
    if k == m {
        let x = dsh_form(name, list[k].server)->Ok_0;
        law_form(name, list[k].server);
        lemma_holds_new(before, target_names(list, m), x);
    } else {
        law_sync_writes(list, k, m);
        let x = dsh_form(name, list[k].server)->Ok_0;
        law_form(name, list[k].server);
        if list[n - 1].apps.dsh {
            let other = server_name_of(list[n - 1].id);
            let y = dsh_form(other, list[n - 1].server)->Ok_0;
            law_form(other, list[n - 1].server);
            lemma_holds_others(before, target_names(list, m), x, name, y, other);
        }
    }
}

/// A server that was written among new entries is there.
proof fn lemma_holds_new(made: Seq<EntryView>, names: Seq<Seq<char>>, item: Tree)
    requires
        forall|i: int| 0 <= i < made.len() ==> is_made(#[trigger] made[i], names),
        is_slot(item, item),
    ensures
        holds_item(upserted(made, item), item),
{
    let after = upserted(made, item);
    lemma_slot_of(made, item, 0);
    lemma_same_reflexive(item);
    match slot_of(made, item, 0) {
        Some(x) => {
            let e = made[x.0 as int];
            assert(is_made(e, names));
            let z = inserted(e.value)->0[0];
            lemma_new_entry(z);
            lemma_slot_in(seq![z], item, 0);
            assert(x.1 == 0);
            if !same(z, item) {
                lemma_new_entry_replaced(z, item);
                lemma_new_entry(item);
                lemma_first_slot_in(seq![item], item, 0, 0);
            }
            assert forall|l: int| 0 <= l < x.0 implies entry_slot(
                (#[trigger] after[l]).value,
                item,
            ) is None by {
                assert(after[l] == made[l]);
            }
            lemma_first_slot_of(after, item, 0, x);
        },
        None => {
            let n = made.len();
            lemma_new_entry(item);
            lemma_first_slot_in(seq![item], item, 0, 0);
            assert(after[n as int] == new_entry(item));
            assert forall|l: int| 0 <= l < n implies entry_slot(
                (#[trigger] after[l]).value,
                item,
            ) is None by {
                assert(after[l] == made[l]);
            }
            lemma_first_slot_of(after, item, 0, (n, 0));
        },
    }
}

/// A server that is in the file is still there, as it was, after another one was written
/// whose name differs.
#[verifier::rlimit(30)]
pub proof fn law_other_server_stays(
    entries: Seq<EntryView>,
    x: Tree,
    a: Seq<char>,
    y: Tree,
    b: Seq<char>,
)
    requires
        entries_well_formed(entries),
        well_formed(x),
        stands_for(x, a),
        stands_for(y, b),
        a != b,
        holds_item(entries, x),
    ensures
        holds_item(upserted(entries, y), x),
{
    let after = upserted(entries, y);
    let s = slot_of(entries, x, 0)->0;
    let i = s.0 as int;
    let j = s.1 as int;
    lemma_slot_of(entries, x, 0);
    let items = inserted(entries[i].value)->0;
    lemma_slot_in(items, x, 0);
    lemma_inserted_well_formed(entries[i].value);
    lemma_item_same(items[j], x);
    lemma_made_slot(y, b, x, a);
    lemma_made_slot(x, a, y, b);
    assert(!is_slot(y, x));
    assert(!is_slot(items[j], y));
    match slot_of(entries, y, 0) {
        Some(t) => {
            lemma_slot_of(entries, y, 0);
            let h = t.0 as int;
            let l = t.1 as int;
            let others = inserted(entries[h].value)->0;
            lemma_slot_in(others, y, 0);
            lemma_with_items(entries[h].value, others.update(l, y));
            assert(h != i || l != j);
            if !same(others[l], y) {
                assert(inserted(after[h].value) == Some(others.update(l, y)));
                assert forall|g: int| 0 <= g < i implies entry_slot((#[trigger] after[g]).value, x) is None by {
                    assert(entry_slot(entries[g].value, x) is None);
                    if g == h {
                        lemma_slot_in(others, x, 0);
                        let new = others.update(l, y);
                        assert forall|q: int| 0 <= q < new.len() implies !is_slot(#[trigger] new[q], x) by {
                            if q != l {
                                assert(new[q] == others[q]);
                            }
                        }
                        lemma_no_slot_in(new, x, 0);
                    }
                }
                if h == i {
                    let new = others.update(l, y);
                    assert(new[j] == items[j]);
                    assert forall|q: int| 0 <= q < j implies !is_slot(#[trigger] new[q], x) by {
                        if q != l {
                            assert(new[q] == items[q]);
                        }
                    }
                    lemma_first_slot_in(new, x, 0, s.1);
                }
                assert(entry_slot(after[i].value, x) == Some(s.1));
                lemma_first_slot_of(after, x, 0, s);
            } else {
                assert(after =~= entries);
            }
        },
        None => {
            assert forall|g: int| 0 <= g < i implies entry_slot((#[trigger] after[g]).value, x) is None by {
                assert(after[g] == entries[g]);
            }
            assert(after[i] == entries[i]);
            lemma_first_slot_of(after, x, 0, s);
        },
    }
}

/// Two servers whose ids get different names are both in the file after one was written and
/// then the other: neither takes the place of the other.
pub proof fn law_both_servers_written(
    entries: Seq<EntryView>,
    a: Seq<char>,
    x: Tree,
    b: Seq<char>,
    y: Tree,
)
    requires
        entries_well_formed(entries),
        server_name_of(a) != server_name_of(b),
        dsh_form(server_name_of(a), x) is Ok,
        dsh_form(server_name_of(b), y) is Ok,
        well_formed(dsh_form(server_name_of(a), x)->Ok_0),
    ensures
        ({
            let first = dsh_form(server_name_of(a), x)->Ok_0;
            let second = dsh_form(server_name_of(b), y)->Ok_0;
            let after = upserted(upserted(entries, first), second);
            holds_item(after, first) && (well_formed(second) ==> holds_item(after, second))
        }),
{
    let first = dsh_form(server_name_of(a), x)->Ok_0;
    let second = dsh_form(server_name_of(b), y)->Ok_0;
    law_form(server_name_of(a), x);
    law_form(server_name_of(b), y);
    law_written(entries, first);
    lemma_upserted_well_formed(entries, first);
    law_other_server_stays(
        upserted(entries, first),
        first,
        server_name_of(a),
        second,
        server_name_of(b),
    );
    law_written(upserted(entries, first), second);
}

/// A server that was written and then removed is gone from every entry of the file.
pub proof fn law_written_then_removed(entries: Seq<EntryView>, id: Seq<char>, x: Tree)
    requires
        entries_well_formed(entries),
        dsh_form(server_name_of(id), x) is Ok,
        well_formed(dsh_form(server_name_of(id), x)->Ok_0),
    ensures
        ({
            let item = dsh_form(server_name_of(id), x)->Ok_0;
            let after = stripped(removal_of(id), upserted(entries, item));
            forall|i: int, j: int|
                #![trigger inserted(after[i].value)->0[j]]
                0 <= i < after.len() && inserted(after[i].value) is Some && 0 <= j < inserted(
                    after[i].value,
                )->0.len() ==> {
                    let other = inserted(after[i].value)->0[j];
                    is_client(other) ==> id_of(other) != Some("mcp-"@ + server_name_of(id))
                        && server_of(other) != Some(server_name_of(id))
                }
        }),
{
    let item = dsh_form(server_name_of(id), x)->Ok_0;
    lemma_upserted_well_formed(entries, item);
    law_removed_gone(removal_of(id), upserted(entries, item));
}

} // verus!
