//! What holds of the MCP servers in `cli/config.json`, name by name.

use vstd::prelude::*;

use crate::error::ErrorView;
use crate::json::json_pretty;
use crate::mcp::registry::ServerView;
use crate::mcp::zcode::{
    projected, server_removed, server_synced, servers_of, servers_synced, upserted, with_servers,
    without_server, zcode_form,
};
use crate::mcp::zcode_laws::law_servers_replaced;
use crate::merge::lemma_overlaid;
use crate::plan::PlanView;
use crate::tree::{
    field, has_key, is_json, lemma_lookup_well_formed, lemma_untagged, lemma_with_key,
    lemma_without_key, lookup, same, with_key, without_key, Entries, Tree,
};
use crate::zcode_config::{object_of, object_planned, object_under};
use crate::zcode_laws::{lemma_empty, lemma_object_under};

verus! {

/// The servers of the file are the object under `mcp` and `servers`, and none where either
/// is missing or no object.
pub proof fn law_servers(root: Entries)
    ensures
        match lookup(root, Tree::Text("mcp"@)) {
            Some(Tree::Mapping(m)) => match lookup(m, Tree::Text("servers"@)) {
                Some(Tree::Mapping(x)) => servers_of(root) == x,
                _ => servers_of(root).len() == 0,
            },
            _ => servers_of(root).len() == 0,
        },
{
    lemma_empty();
    assert(!has_key(Seq::<(Tree, Tree)>::empty(), Tree::Text("servers"@)));
}

/// Writing the servers changes nothing else: not the other names of the file, nor the other
/// names under `mcp`.
pub proof fn law_only_servers(root: Entries, servers: Entries, k: Tree)
    requires
        is_json(Tree::Mapping(root)),
    ensures
        ({
            let m = Tree::Text("mcp"@);
            let after = with_servers(root, servers);
            &&& !same(m, k) ==> lookup(after, k) == lookup(root, k)
            &&& lookup(after, m) matches Some(Tree::Mapping(section))
            &&& lookup(section, Tree::Text("servers"@)) == Some(Tree::Mapping(servers))
            &&& !same(Tree::Text("servers"@), k) ==> lookup(section, k) == (match lookup(root, m) {
                Some(Tree::Mapping(x)) => lookup(x, k),
                _ => None,
            })
        }),
{
    let section = object_under(root, "mcp"@);
    lemma_empty();
    lemma_object_under(root, "mcp"@);
    assert(!has_key(Seq::<(Tree, Tree)>::empty(), k));
    let new = with_key(section, Tree::Text("servers"@), Tree::Mapping(servers));
    lemma_with_key(section, Tree::Text("servers"@), Tree::Mapping(servers));
    lemma_with_key(root, Tree::Text("mcp"@), Tree::Mapping(new));
}

/// Writing a server: under its id is what was written, and of what the file held of it
/// everything that was not; the other servers are as they were.
pub proof fn law_written(servers: Entries, id: Seq<char>, new: Entries, k: Tree, l: Tree)
    requires
        is_json(Tree::Mapping(servers)),
        is_json(Tree::Mapping(new)),
    ensures
        ({
            let after = upserted(servers, id, Tree::Mapping(new));
            let n = Tree::Text(id);
            &&& !same(n, k) ==> lookup(after, k) == lookup(servers, k)
            &&& lookup(after, n) matches Some(Tree::Mapping(entry))
            &&& lookup(entry, l) == (if has_key(new, l) {
                lookup(new, l)
            } else {
                match lookup(servers, n) {
                    Some(Tree::Mapping(before)) => lookup(before, l),
                    _ => None,
                }
            })
        }),
{
    let n = Tree::Text(id);
    let v = crate::mcp::zcode_laws::upserted_value(servers, id, Tree::Mapping(new));
    lemma_with_key(servers, n, v);
    if has_key(servers, n) {
        lemma_lookup_well_formed(servers, n);
        if let Tree::Mapping(before) = lookup(servers, n)->0 {
            lemma_overlaid(before, new);
        }
    }
}

/// Nothing is done to the file where zcode is not installed. A server that has no form, and
/// a file that cannot be read, are errors; else the file is written with the server.
pub proof fn law_sync_server(path: Seq<char>, raw: Seq<char>, id: Seq<char>, spec: Tree)
    ensures
        server_synced(false, path, raw, id, spec) == Ok::<PlanView, ErrorView>(PlanView::Keep),
        match (zcode_form(id, spec), object_of(path, raw)) {
            (Ok(form), Ok(root)) => server_synced(true, path, raw, id, spec) == object_planned(
                raw,
                json_pretty(
                    Tree::Mapping(with_servers(root, upserted(servers_of(root), id, form))),
                ),
            ),
            _ => server_synced(true, path, raw, id, spec) is Err,
        },
{
}

/// Nothing is done to the file where zcode is not installed. A file that cannot be read is
/// an error; else the file is written without the server: the other servers, and everything
/// else in the file, are as they were.
#[verifier::rlimit(30)]
pub proof fn law_remove_server(path: Seq<char>, raw: Seq<char>, id: Seq<char>, root: Entries, k: Tree)
    requires
        is_json(Tree::Mapping(root)),
        object_of(path, raw) == Ok::<Entries, ErrorView>(root),
    ensures
        server_removed(false, path, raw, id) == Ok::<PlanView, ErrorView>(PlanView::Keep),
        server_removed(true, path, raw, id) == object_planned(
            raw,
            json_pretty(Tree::Mapping(without_server(root, id))),
        ),
        !has_key(servers_of(without_server(root, id)), Tree::Text(id)),
        !same(Tree::Text(id), k) ==> lookup(servers_of(without_server(root, id)), k) == lookup(
            servers_of(root),
            k,
        ),
        !same(Tree::Text("mcp"@), k) ==> lookup(without_server(root, id), k) == lookup(root, k),
        !(lookup(root, Tree::Text("mcp"@)) matches Some(Tree::Mapping(m)) && lookup(
            m,
            Tree::Text("servers"@),
        ) matches Some(Tree::Mapping(_))) ==> without_server(root, id) == root,
        ({
            let section = |m: Entries|
                match lookup(m, Tree::Text("mcp"@)) {
                    Some(Tree::Mapping(x)) => x,
                    _ => Seq::empty(),
                };
            !same(Tree::Text("servers"@), k) ==> lookup(section(without_server(root, id)), k)
                == lookup(section(root), k)
        }),
{
    let n = Tree::Text(id);
    let m = Tree::Text("mcp"@);
    lemma_empty();
    lemma_object_under(root, "mcp"@);
    lemma_object_under(object_under(root, "mcp"@), "servers"@);
    assert(!has_key(Seq::<(Tree, Tree)>::empty(), n));
    assert(!has_key(Seq::<(Tree, Tree)>::empty(), k));
    lemma_without_key(servers_of(root), n);
    law_servers(root);
    if has_key(root, m) {
        lemma_lookup_well_formed(root, m);
        lemma_untagged(lookup(root, m)->0);
    }
    let rest = without_key(servers_of(root), n);
    law_only_servers(root, rest, k);
    law_servers_replaced(root, rest);
    assert(field(Tree::Mapping(root), "mcp"@) == lookup(root, m));
    if let Some(Tree::Mapping(section)) = lookup(root, m) {
        assert(field(Tree::Mapping(section), "servers"@) == lookup(
            section,
            Tree::Text("servers"@),
        ));
    }
}

/// Bringing the file in step: nothing is done where zcode is not installed. Else the file is
/// written with the servers brought in step, and nothing is written where one of them has no
/// form.
pub proof fn law_sync_servers(path: Seq<char>, raw: Seq<char>, list: Seq<ServerView>)
    ensures
        servers_synced(false, path, raw, list) == Ok::<PlanView, ErrorView>(PlanView::Keep),
        match object_of(path, raw) {
            Ok(root) => match projected(servers_of(root), list, list.len()) {
                Ok(servers) => servers_synced(true, path, raw, list) == object_planned(
                    raw,
                    json_pretty(Tree::Mapping(with_servers(root, servers))),
                ),
                Err(e) => servers_synced(true, path, raw, list) == Err::<PlanView, ErrorView>(e),
            },
            Err(e) => servers_synced(true, path, raw, list) == Err::<PlanView, ErrorView>(e),
        },
{
}

/// Servers are brought in step one by one, in their order: one that zcode uses is written,
/// any other is removed, and one that has no form is an error.
pub proof fn law_projected_one_by_one(servers: Entries, list: Seq<ServerView>, server: ServerView)
    ensures
        projected(servers, Seq::empty(), 0) == Ok::<Entries, ErrorView>(servers),
        ({
            let before = projected(servers, list, list.len());
            let after = projected(servers, list.push(server), list.len() + 1);
            if before is Err {
                after == before
            } else if server.apps.zcode {
                match zcode_form(server.id, server.server) {
                    Ok(form) => after == Ok::<Entries, ErrorView>(
                        upserted(before->Ok_0, server.id, form),
                    ),
                    Err(e) => after == Err::<Entries, ErrorView>(e),
                }
            } else {
                after == Ok::<Entries, ErrorView>(
                    without_key(before->Ok_0, Tree::Text(server.id)),
                )
            }
        }),
{
    lemma_projected_prefix(servers, list, list.push(server), list.len());
    assert(list.push(server)[list.len() as int] == server);
}

proof fn lemma_projected_prefix(
    servers: Entries,
    a: Seq<ServerView>,
    b: Seq<ServerView>,
    n: nat,
)
    requires
        n <= a.len() <= b.len(),
        forall|i: int| 0 <= i < a.len() ==> a[i] == b[i],
    ensures
        projected(servers, a, n) == projected(servers, b, n),
    decreases n,
{
    if n > 0 {
        lemma_projected_prefix(servers, a, b, (n - 1) as nat);
    }
}

/// A file that cannot be read is an error where a server is to be removed from it.
pub proof fn law_remove_unread(path: Seq<char>, raw: Seq<char>, id: Seq<char>)
    ensures
        object_of(path, raw) matches Err(e) ==> server_removed(true, path, raw, id) == Err::<
            PlanView,
            ErrorView,
        >(e) && server_removed(false, path, raw, id) == Ok::<PlanView, ErrorView>(PlanView::Keep),
{
}

} // verus!
